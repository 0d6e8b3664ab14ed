//! The filter of preprocessed source on a text as a whole, and the encoding of its marker.

use vstd::prelude::*;
use vstd::utf8::{encode_utf8, is_ascii_chars, is_ascii_chars_encode_utf8};
use local_encoding_ng::{Encoder, Encoding};
use crate::bytes::{append_bytes, ascii, same_letters};
use crate::grammar::{PostprocessError, Progress, Rules};
use crate::grammar::{answerable, answers, bom_len, extends, lemma_scan, outcome, written};
use crate::laws::law_marker_ignores_case;
use crate::scanner::{Marker, Scanner};

verus! {

/// The error of an input or output operation.
#[verifier::external_type_specification]
#[verifier::external_body]
pub struct ExIoError(std::io::Error);

/// Why a text was not filtered.
#[derive(Debug)]
pub enum FilterError {
    /// The text was read, and refused.
    Postprocess(PostprocessError),
    /// The marker has no bytes in the encoding of the text.
    Encoding(std::io::Error),
}

/// Whether there is a system on which `text` has the bytes `bytes` in the ANSI encoding, or, if
/// `bytes` is `None`, one on which it cannot be encoded. The encoding is the ANSI code page that
/// a Windows system is set to, and UTF-8 elsewhere, so that one text may be related to several
/// byte strings.
pub uninterp spec fn ansi_outcome(text: Seq<char>, bytes: Option<Seq<u8>>) -> bool;

/// `Encoding::ANSI.to_bytes` of `local_encoding_ng`: what the system that this runs on makes of
/// `text` is one of the outcomes that some system has. An empty text has no bytes anywhere.
/// Which of the outcomes it is, the code page of the system decides, so that nothing is said of
/// it here.
#[verifier::external_body]
fn ansi_to_bytes(text: &str) -> (r: Result<Vec<u8>, std::io::Error>)
    ensures
        r is Ok ==> ansi_outcome(text@, Some(r->Ok_0@)),
        r is Err ==> ansi_outcome(text@, None),
        text@.len() == 0 ==> r is Ok && r->Ok_0@.len() == 0,
{
    Encoding::ANSI.to_bytes(text)
}

/// `String::push` appends one character.
pub assume_specification[ String::push ](text: &mut String, c: char)
    ensures
        final(text)@ == old(text)@.push(c),
;

/// A text with a slash for every backslash.
pub open spec fn slashed(text: Seq<char>) -> Seq<char> {
    Seq::new(
        text.len(),
        |i: int|
            if text[i] == '\\' {
                '/'
            } else {
                text[i]
            },
    )
}

/// A text with a slash for every backslash.
pub fn forward_slashes(text: &str) -> (r: String)
    ensures
        r@ == slashed(text@),
        r@.len() == text@.len(),
        !r@.contains('\\'),
        forall|i: int| 0 <= i < text@.len() && text@[i] != '\\' ==> #[trigger] r@[i] == text@[i],
        forall|i: int| 0 <= i < text@.len() && text@[i] == '\\' ==> #[trigger] r@[i] == '/',
{
    let mut out: String = String::new();
    for c in it: text.chars()
        invariant
            it.seq() == text@,
            out@ =~= slashed(text@).take(it.index() as int),
    {
        if c == '\\' {
            out.push('/');
        } else {
            out.push(c);
        }
    }
    assert(slashed(text@).take(text@.len() as int) =~= slashed(text@));
    out
}

/// With forward slashes a text has no backslash left, has a slash where it had one, and is as it
/// was everywhere else.
pub proof fn law_slashed(text: Seq<char>)
    ensures
        slashed(text).len() == text.len(),
        !slashed(text).contains('\\'),
        forall|i: int|
            0 <= i < text.len() && text[i] != '\\' ==> #[trigger] slashed(text)[i] == text[i],
        forall|i: int|
            0 <= i < text.len() && text[i] == '\\' ==> #[trigger] slashed(text)[i] == '/',
{
}

/// Two texts are the same with forward slashes if, and only if, they have the same length and at
/// each place the same character, or each a slash or a backslash.
pub proof fn law_slashed_same(a: Seq<char>, b: Seq<char>)
    ensures
        slashed(a) == slashed(b) <==> a.len() == b.len() && forall|i: int|
            0 <= i < a.len() ==> #[trigger] a[i] == b[i] || ((a[i] == '/' || a[i] == '\\') && (b[i]
                == '/' || b[i] == '\\')),
{
    law_slashed(a);
    law_slashed(b);
    if slashed(a) == slashed(b) {
        assert forall|i: int| 0 <= i < a.len() implies #[trigger] a[i] == b[i] || ((a[i] == '/'
            || a[i] == '\\') && (b[i] == '/' || b[i] == '\\')) by {
            assert(slashed(a)[i] == slashed(b)[i]);
        }
    } else if a.len() == b.len() {
        assert(!(slashed(a) =~= slashed(b)));
        let i = choose|i: int| 0 <= i < a.len() && slashed(a)[i] != slashed(b)[i];
        assert(a[i] != b[i]);
    }
}

/// Whether `bytes` stand for the marker `name` in a text: its UTF-8 bytes in a text with a byte
/// order mark; else those of the ANSI encoding, with a slash for every backslash.
pub open spec fn marker_encodes(name: Seq<char>, utf8: bool, bytes: Seq<u8>) -> bool {
    if utf8 {
        bytes == encode_utf8(name)
    } else {
        ansi_outcome(slashed(name), Some(bytes))
    }
}

/// The bytes that stand for a marker. In a text with a byte order mark they are its UTF-8 bytes,
/// and no others. In any other they are bytes that the ANSI encoding has for `ansi`: the name of
/// the marker with a slash where that has a backslash, and as it is everywhere else.
pub proof fn law_marker_bytes(name: Seq<char>, ansi: Seq<char>, bytes: Seq<u8>)
    requires
        ansi.len() == name.len(),
        forall|i: int|
            0 <= i < name.len() ==> #[trigger] ansi[i] == if name[i] == '\\' {
                '/'
            } else {
                name[i]
            },
    ensures
        marker_encodes(name, true, bytes) <==> bytes == encode_utf8(name),
        marker_encodes(name, false, bytes) <==> ansi_outcome(ansi, Some(bytes)),
{
    assert(ansi =~= slashed(name));
}

/// The bytes that stand for the marker `name` in a text.
pub fn encode_marker(name: &str, utf8: bool) -> (r: Result<Vec<u8>, std::io::Error>)
    ensures
        match r {
            Ok(bytes) => marker_encodes(name@, utf8, bytes@),
            Err(_) => !utf8 && ansi_outcome(slashed(name@), None),
        },
        name@.len() == 0 ==> (r matches Ok(bytes) && bytes@.len() == 0),
{
    if utf8 {
        Ok(vstd::slice::slice_to_vec(name.as_bytes()))
    } else {
        let text: String = forward_slashes(name);
        ansi_to_bytes(&text)
    }
}

/// Whether more bytes are needed to see if a text has a byte order mark.
pub open spec fn bom_open(s: Seq<u8>) -> bool {
    s.len() < 3 && bom_len(s) == s.len()
}

/// How many bytes of a byte order mark a text starts with.
fn bom_prefix(s: &[u8]) -> (n: usize)
    ensures
        n == bom_len(s@),
{
    if s.len() >= 1 && s[0] == 0xEF {
        if s.len() >= 2 && s[1] == 0xBB {
            if s.len() >= 3 && s[2] == 0xBF {
                3
            } else {
                2
            }
        } else {
            1
        }
    } else {
        0
    }
}

/// Whether more bytes are needed to see if a text has a byte order mark.
pub fn bom_undecided(head: &[u8]) -> (r: bool)
    ensures
        r == bom_open(head@),
{
    head.len() < 3 && bom_prefix(head) == head.len()
}

/// Whether a text has a byte order mark.
pub fn has_bom(text: &[u8]) -> (r: bool)
    ensures
        r == (bom_len(text@) == 3),
{
    bom_prefix(text) == 3
}

/// More bytes are needed to see if a text has a byte order mark as long as it is a beginning of
/// one: nothing, `EF`, or `EF BB`.
pub proof fn law_bom_open(s: Seq<u8>)
    ensures
        bom_open(s) <==> s == Seq::<u8>::empty() || s == seq![0xEFu8] || s == seq![0xEFu8, 0xBBu8],
{
    if bom_open(s) {
        assert(s =~= Seq::<u8>::empty() || s =~= seq![0xEFu8] || s =~= seq![0xEFu8, 0xBBu8]);
    }
}

/// Once its first bytes show whether a text has a byte order mark, what follows does not matter.
pub proof fn law_bom_decided(head: Seq<u8>, text: Seq<u8>)
    requires
        extends(text, head),
        !bom_open(head),
    ensures
        bom_len(text) == bom_len(head),
{
    if head.len() >= 1 {
        assert(text[0] == head[0]);
    }
    if head.len() >= 2 {
        assert(text[1] == head[1]);
    }
    if head.len() >= 3 {
        assert(text[2] == head[2]);
    }
}

/// Filters a text, given the bytes that stand for the marker in it. There is no answer, `None`,
/// if the text ends where the path of a `#line` is due, or within the headers when there is no
/// marker that could be missing.
pub fn filter_with_marker(
    text: &[u8],
    marker: Option<Marker>,
    keep_headers: bool,
) -> (r: Option<Result<Vec<u8>, PostprocessError>>)
    ensures
        ({
            let rules = Rules {
                marker: match marker {
                    Some(marker) => Some(marker.bytes@),
                    None => None,
                },
                keep: keep_headers,
            };
            let name = match marker {
                Some(marker) => Some(marker.name@),
                None => None,
            };
            match r {
                None => !answerable(rules, name, text@),
                Some(Ok(out)) => answers(rules, name, text@, Ok(out@)),
                Some(Err(e)) => answers(rules, name, text@, Err(e)),
            }
        }),
{
    let scanner: Scanner = Scanner::new(marker, keep_headers);
    let ghost rules: Rules = scanner.rules();
    let ghost start: Seq<u8> = scanner.seen();
    assert(start + text@ =~= text@);
    match scanner.feed(text) {
        Ok((next, out)) => {
            if !next.can_finish() {
                return None;
            }
            match next.finish() {
                Ok(rest) => {
                    let mut out: Vec<u8> = out;
                    let ghost given: Seq<u8> = out@;
                    append_bytes(&mut out, &rest);
                    proof {
                        lemma_nothing_written(rules, start);
                        assert(written(rules, start) + given =~= given);
                    }
                    Some(Ok(out))
                },
                Err(e) => Some(Err(e)),
            }
        },
        Err(e) => Some(Err(e)),
    }
}

/// Nothing is written before anything is read.
proof fn lemma_nothing_written(rules: Rules, s: Seq<u8>)
    requires
        s.len() == 0,
    ensures
        written(rules, s) == Seq::<u8>::empty(),
{
    lemma_scan(rules, Progress { entry: None, found: false }, s, 0);
    assert(outcome(rules, s) is NoMarker);
}

/// Whether `r` is the reply to a text, where the marker has the name `name` and the bytes in
/// `rules`.
pub open spec fn replies(
    rules: Rules,
    name: Option<Seq<char>>,
    s: Seq<u8>,
    r: Option<Result<Vec<u8>, FilterError>>,
) -> bool {
    match r {
        None => !answerable(rules, name, s),
        Some(Ok(out)) => answers(rules, name, s, Ok(out@)),
        Some(Err(FilterError::Postprocess(e))) => answers(rules, name, s, Err(e)),
        Some(Err(FilterError::Encoding(_))) => false,
    }
}

/// Filters a text. There is no answer, `None`, if the text ends where the path of a `#line` is
/// due, or within the headers when there is no marker that could be missing.
pub fn filter_preprocessed(
    text: &[u8],
    marker: &Option<String>,
    keep_headers: bool,
) -> (r: Option<Result<Vec<u8>, FilterError>>)
    ensures
        match marker {
            None => replies(Rules { marker: None, keep: keep_headers }, None, text@, r),
            Some(name) => {
                let utf8 = bom_len(text@) == 3;
                ||| exists|bytes: Seq<u8>| #[trigger]
                    marker_encodes(name@, utf8, bytes) && replies(
                        Rules { marker: Some(bytes), keep: keep_headers },
                        Some(name@),
                        text@,
                        r,
                    )
                ||| {
                    &&& !utf8
                    &&& ansi_outcome(slashed(name@), None)
                    &&& r matches Some(Err(FilterError::Encoding(_)))
                }
            },
        },
        marker matches Some(name) ==> (name@.len() == 0 ==> replies(
            Rules { marker: Some(Seq::empty()), keep: keep_headers },
            Some(name@),
            text@,
            r,
        )),
{
    let encoded: Option<Marker> = match marker {
        Some(name) => match encode_marker(name, has_bom(text)) {
            Ok(bytes) => {
                assert(name@.len() == 0 ==> bytes@ =~= Seq::empty());
                Some(Marker { name: name.clone(), bytes })
            },
            Err(e) => {
                return Some(Err(FilterError::Encoding(e)));
            },
        },
        None => None,
    };
    match filter_with_marker(text, encoded, keep_headers) {
        Some(Ok(out)) => Some(Ok(out)),
        Some(Err(e)) => Some(Err(FilterError::Postprocess(e))),
        None => None,
    }
}

/// A reply is the answer to the text, of whatever kind, and there is none only where the text has
/// no answer. That a marker has no bytes is no reply to a text.
pub proof fn law_replies(
    rules: Rules,
    name: Option<Seq<char>>,
    s: Seq<u8>,
    r: Option<Result<Vec<u8>, FilterError>>,
)
    ensures
        r is None ==> (replies(rules, name, s, r) <==> !answerable(rules, name, s)),
        r matches Some(Ok(out)) ==> (replies(rules, name, s, r) <==> answers(
            rules,
            name,
            s,
            Ok(out@),
        )),
        r matches Some(Err(FilterError::Postprocess(e))) ==> (replies(rules, name, s, r)
            <==> answers(rules, name, s, Err(e))),
        r matches Some(Err(FilterError::Encoding(_))) ==> !replies(rules, name, s, r),
{
}

/// The direction of the slashes in the name of a marker makes no difference to a text without a
/// byte order mark: two such names have the same bytes, and with them the same output.
pub proof fn law_marker_ignores_slashes(
    n1: Seq<char>,
    n2: Seq<char>,
    bytes: Seq<u8>,
    keep: bool,
    s: Seq<u8>,
    out: Vec<u8>,
)
    requires
        slashed(n1) == slashed(n2),
    ensures
        marker_encodes(n1, false, bytes) == marker_encodes(n2, false, bytes),
        ({
            let rules = Rules { marker: Some(bytes), keep };
            replies(rules, Some(n1), s, Some(Ok(out))) == replies(rules, Some(n2), s, Some(Ok(out)))
        }),
{
}

/// Where the ANSI encoding is UTF-8, neither the direction of the slashes nor the case of the
/// letters in an ASCII marker name makes a difference to a text without a byte order mark: the
/// output is the same, if there is one.
pub proof fn law_ascii_marker_name(
    n1: Seq<char>,
    n2: Seq<char>,
    keep: bool,
    s: Seq<u8>,
    out: Vec<u8>,
)
    requires
        is_ascii_chars(n1),
        is_ascii_chars(n2),
        same_letters(ascii(slashed(n1)), ascii(slashed(n2))),
    ensures
        ({
            let r1 = Rules { marker: Some(encode_utf8(slashed(n1))), keep };
            let r2 = Rules { marker: Some(encode_utf8(slashed(n2))), keep };
            &&& outcome(r1, s) == outcome(r2, s)
            &&& replies(r1, Some(n1), s, Some(Ok(out))) == replies(r2, Some(n2), s, Some(Ok(out)))
        }),
{
    lemma_slashed_ascii(n1);
    lemma_slashed_ascii(n2);
    law_marker_ignores_case(ascii(slashed(n1)), ascii(slashed(n2)), keep, s);
}

proof fn lemma_slashed_ascii(name: Seq<char>)
    requires
        is_ascii_chars(name),
    ensures
        encode_utf8(slashed(name)) == ascii(slashed(name)),
{
    assert(is_ascii_chars(slashed(name)));
    is_ascii_chars_encode_utf8(slashed(name));
    assert(encode_utf8(slashed(name)) =~= ascii(slashed(name)));
}

} // verus!
