//! What the filter of preprocessed source makes of a text, told by how the text is written.
//!
//! Each law takes the places at which the parts of a line stand, says of the bytes there what
//! they are, and gives what the line comes to. Together they cover every line.

use vstd::prelude::*;
use crate::bytes::{ascii, lemma_skip, lemma_skip_run, lower, same_letters, skip, subpath, Class};
use crate::grammar::{Literal, Outcome, PostprocessError, Progress, Rules, Step};
use crate::grammar::{
    answerable, answers, bom_len, cut, directive_name, extends, line, line_ending, line_mark,
    line_number, line_path, line_tail, literal, next_line, outcome, scan, settled, unescape,
    written,
};
use crate::grammar::{lemma_line_leads_on, lemma_literal_end, lemma_scan};
use crate::laws::{law_cut_in_text, law_cut_is_final};

verus! {

/// The bytes of a text of ASCII characters are the numbers of its characters, one for one.
pub proof fn law_ascii(text: Seq<char>)
    requires
        forall|i: int| 0 <= i < text.len() ==> '\0' <= #[trigger] text[i] <= '\u{7f}',
    ensures
        ascii(text).len() == text.len(),
        forall|i: int| 0 <= i < text.len() ==> #[trigger] ascii(text)[i] == text[i] as u32,
{
}

/// The members of the classes of bytes, by their characters: blanks are the space, the tab and
/// the form feed; a gap may have line ending bytes too; words are made of the letters, the digits
/// and the underscore; and the newline alone ends a line.
pub proof fn law_classes(c: u8)
    ensures
        Class::Blank.has(c) <==> " \t\u{c}"@.contains(c as char),
        Class::Gap.has(c) <==> " \t\u{c}\r\n"@.contains(c as char),
        Class::Word.has(c)
            <==> "abcdefghijklmnopqrstuvwxyzABCDEFGHIJKLMNOPQRSTUVWXYZ0123456789_"@.contains(
            c as char,
        ),
        Class::Inline.has(c) <==> !"\n"@.contains(c as char),
{
    reveal_strlit(" \t\u{c}");
    reveal_strlit(" \t\u{c}\r\n");
    reveal_strlit("abcdefghijklmnopqrstuvwxyzABCDEFGHIJKLMNOPQRSTUVWXYZ0123456789_");
    reveal_strlit("\n");
    let blank = " \t\u{c}"@;
    let gap = " \t\u{c}\r\n"@;
    let word = "abcdefghijklmnopqrstuvwxyzABCDEFGHIJKLMNOPQRSTUVWXYZ0123456789_"@;
    if Class::Blank.has(c) {
        assert(blank[0] == c as char || blank[1] == c as char || blank[2] == c as char);
    }
    if Class::Gap.has(c) {
        assert(gap[0] == c as char || gap[1] == c as char || gap[2] == c as char || gap[3]
            == c as char || gap[4] == c as char);
    }
    if Class::Word.has(c) {
        let k: int = if 0x61 <= c <= 0x7A {
            c - 0x61
        } else if 0x41 <= c <= 0x5A {
            c - 0x41 + 26
        } else if 0x30 <= c <= 0x39 {
            c - 0x30 + 52
        } else {
            62
        };
        assert(word[k] == c as char);
    }
    if c == 0x0A {
        assert("\n"@[0] == c as char);
    }
}

/// The lower case form of each capital letter is the small letter; every other byte is its own.
pub proof fn law_lower(c: u8)
    ensures
        ({
            let capitals = "ABCDEFGHIJKLMNOPQRSTUVWXYZ"@;
            let small = "abcdefghijklmnopqrstuvwxyz"@;
            &&& forall|k: int|
                0 <= k < 26 && #[trigger] capitals[k] == c as char ==> lower(c) as char == small[k]
            &&& !capitals.contains(c as char) ==> lower(c) == c
        }),
{
    reveal_strlit("ABCDEFGHIJKLMNOPQRSTUVWXYZ");
    reveal_strlit("abcdefghijklmnopqrstuvwxyz");
    let capitals = "ABCDEFGHIJKLMNOPQRSTUVWXYZ"@;
    if 0x41 <= c <= 0x5A {
        assert(capitals[c - 0x41] == c as char);
    }
}

/// Two bytes have the same lower case form if they are the same, or the capital and the small
/// form of one letter, which stand 32 apart; and in no other case.
pub proof fn law_same_letter(a: u8, b: u8)
    ensures
        lower(a) == lower(b) <==> a == b || (0x41 <= a <= 0x5A && b == a + 32) || (0x41 <= b <= 0x5A
            && a == b + 32),
{
}

/// Two byte strings have the same letters if they have the same length and at each place the same
/// byte, or the two forms of one letter.
pub proof fn law_same_letters(a: Seq<u8>, b: Seq<u8>)
    ensures
        same_letters(a, b) <==> a.len() == b.len() && forall|i: int|
            0 <= i < a.len() ==> #[trigger] a[i] == b[i] || (0x41 <= a[i] <= 0x5A && b[i] == a[i]
                + 32) || (0x41 <= b[i] <= 0x5A && a[i] == b[i] + 32),
{
    if same_letters(a, b) {
        assert forall|i: int| 0 <= i < a.len() implies #[trigger] a[i] == b[i] || (0x41 <= a[i]
            <= 0x5A && b[i] == a[i] + 32) || (0x41 <= b[i] <= 0x5A && a[i] == b[i] + 32) by {
            assert(lower(a[i]) == lower(b[i]));
        }
    }
}

/// A path is a subpath of another if the other ends in it, but for the case of letters, and has
/// nothing or a slash in front of it there; and in no other case.
pub proof fn law_subpath(parent: Seq<u8>, child: Seq<u8>)
    ensures
        ({
            let k = parent.len() - child.len();
            subpath(parent, child) <==> k >= 0 && (k > 0 ==> parent[k - 1] == 0x2F) && forall|
                j: int,
            |
                k <= j < parent.len() ==> #[trigger] parent[j] == child[j - k] || (0x41 <= parent[j]
                    <= 0x5A && child[j - k] == parent[j] + 32) || (0x41 <= child[j - k] <= 0x5A
                    && parent[j] == child[j - k] + 32)
        }),
{
    let k = parent.len() - child.len();
    if k >= 0 {
        let tail = parent.skip(k);
        law_same_letters(tail, child);
        if subpath(parent, child) {
            assert forall|j: int| k <= j < parent.len() implies #[trigger] parent[j] == child[j - k]
                || (0x41 <= parent[j] <= 0x5A && child[j - k] == parent[j] + 32) || (0x41
                <= child[j - k] <= 0x5A && parent[j] == child[j - k] + 32) by {
                assert(tail[j - k] == parent[j]);
            }
        } else if k > 0 ==> parent[k - 1] == 0x2F {
            let i = choose|i: int|
                0 <= i < tail.len() && !(#[trigger] tail[i] == child[i] || (0x41 <= tail[i] <= 0x5A
                    && child[i] == tail[i] + 32) || (0x41 <= child[i] <= 0x5A && tail[i] == child[i]
                    + 32));
            assert(tail[i] == parent[i + k]);
        }
    }
}

proof fn lemma_skip_to(s: Seq<u8>, i: int, m: int, k: Class)
    requires
        0 <= i <= m <= s.len(),
        forall|j: int| i <= j < m ==> k.has(#[trigger] s[j]),
        m == s.len() || !k.has(s[m]),
    ensures
        skip(s, i, k) == m,
{
    lemma_skip_run(s, i, m, k);
}

proof fn lemma_line_end(s: Seq<u8>, from: int, e: int)
    requires
        0 <= from <= e <= s.len(),
        forall|j: int| from <= j < e - 1 ==> #[trigger] s[j] != 0x0A,
        e == s.len() || (from < e && s[e - 1] == 0x0A),
    ensures
        next_line(s, from) == e,
        skip(s, from, Class::Inline) == if from < e && s[e - 1] == 0x0A {
            e - 1
        } else {
            e
        },
{
    if from < e && s[e - 1] == 0x0A {
        lemma_skip_to(s, from, e - 1, Class::Inline);
    } else {
        lemma_skip_to(s, from, e, Class::Inline);
    }
}

/// White space up to the end of a text: the text ends within the headers.
pub proof fn law_nothing_more(rules: Rules, progress: Progress, s: Seq<u8>, i: int)
    requires
        0 <= i <= s.len(),
        forall|j: int| i <= j < s.len() ==> Class::Gap.has(#[trigger] s[j]),
    ensures
        line(rules, progress, s, i) == Step::Stop(Outcome::NoMarker),
{
    lemma_skip_to(s, i, s.len() as int, Class::Gap);
}

/// White space from `i` to `h`, and then a byte other than a hash: the line is passed over, and
/// nothing is learned from it. The next line starts at `e`, behind the first newline or at the end
/// of the text.
pub proof fn law_ordinary_line(
    rules: Rules,
    progress: Progress,
    s: Seq<u8>,
    i: int,
    h: int,
    e: int,
)
    requires
        0 <= i <= h < e <= s.len(),
        forall|j: int| i <= j < h ==> Class::Gap.has(#[trigger] s[j]),
        !Class::Gap.has(s[h]),
        s[h] != 0x23,
        forall|j: int| h <= j < e - 1 ==> #[trigger] s[j] != 0x0A,
        e == s.len() || s[e - 1] == 0x0A,
    ensures
        line(rules, progress, s, i) == (Step::Next { progress, at: e }),
{
    lemma_skip_to(s, i, h, Class::Gap);
    lemma_line_end(s, h, e);
}

/// A hash at `h`, blanks up to `b`, and a word up to `n` that is not `line` or `pragma` and no
/// longer than sixteen bytes, or whatever word at the end of the text: the line is passed over,
/// and nothing is learned from it. The next line starts at `e`.
pub proof fn law_other_directive(
    rules: Rules,
    progress: Progress,
    s: Seq<u8>,
    i: int,
    h: int,
    b: int,
    n: int,
    e: int,
)
    requires
        0 <= i <= h < b <= n <= e <= s.len(),
        forall|j: int| i <= j < h ==> Class::Gap.has(#[trigger] s[j]),
        s[h] == 0x23,
        forall|j: int| h < j < b ==> Class::Blank.has(#[trigger] s[j]),
        b == s.len() || !Class::Blank.has(s[b]),
        forall|j: int| b <= j < n ==> Class::Word.has(#[trigger] s[j]),
        n == s.len() || !Class::Word.has(s[n]),
        n - b <= 16,
        n == s.len() || (s.subrange(b, n) != ascii("line"@) && s.subrange(b, n) != ascii(
            "pragma"@,
        )),
        forall|j: int| n <= j < e - 1 ==> #[trigger] s[j] != 0x0A,
        e == s.len() || (n < e && s[e - 1] == 0x0A),
    ensures
        line(rules, progress, s, i) == (Step::Next { progress, at: e }),
{
    reveal(directive_name);
    lemma_skip_to(s, i, h, Class::Gap);
    lemma_skip_to(s, h + 1, b, Class::Blank);
    lemma_skip_to(s, b, n, Class::Word);
    lemma_line_end(s, n, e);
}

/// A hash at `h`, blanks up to `b`, and more than sixteen word bytes: the text is refused.
pub proof fn law_long_directive(
    rules: Rules,
    progress: Progress,
    s: Seq<u8>,
    i: int,
    h: int,
    b: int,
)
    requires
        0 <= i <= h < b,
        b + 17 <= s.len(),
        forall|j: int| i <= j < h ==> Class::Gap.has(#[trigger] s[j]),
        s[h] == 0x23,
        forall|j: int| h < j < b ==> Class::Blank.has(#[trigger] s[j]),
        forall|j: int| b <= j < b + 17 ==> Class::Word.has(#[trigger] s[j]),
    ensures
        line(rules, progress, s, i) == Step::Stop(Outcome::Fail(PostprocessError::TokenTooLong)),
{
    reveal(directive_name);
    lemma_skip_to(s, i, h, Class::Gap);
    assert(Class::Word.has(s[b]));
    lemma_skip_to(s, h + 1, b, Class::Blank);
    lemma_skip_run(s, b, b + 17, Class::Word);
    lemma_skip(s, b + 17, Class::Word);
}

/// A hash at `h`, blanks up to `b`, `pragma`, blanks up to `c`, and a word up to `n`. If the word
/// is `hdrstop`, and not cut off by the end of the text, the headers end behind it. If it has more
/// than thirty-two bytes, the text is refused. Every other pragma is passed over, and nothing is
/// learned from it; the next line starts at `e`.
pub proof fn law_pragma(
    rules: Rules,
    progress: Progress,
    s: Seq<u8>,
    i: int,
    h: int,
    b: int,
    c: int,
    n: int,
    e: int,
)
    requires
        0 <= i <= h < b,
        b + 6 <= c <= n <= e <= s.len(),
        b + 6 < s.len(),
        forall|j: int| i <= j < h ==> Class::Gap.has(#[trigger] s[j]),
        s[h] == 0x23,
        forall|j: int| h < j < b ==> Class::Blank.has(#[trigger] s[j]),
        s.subrange(b, b + 6) == ascii("pragma"@),
        !Class::Word.has(s[b + 6]),
        forall|j: int| b + 6 <= j < c ==> Class::Blank.has(#[trigger] s[j]),
        c == s.len() || !Class::Blank.has(s[c]),
        forall|j: int| c <= j < n ==> Class::Word.has(#[trigger] s[j]),
        n == s.len() || !Class::Word.has(s[n]),
        forall|j: int| n <= j < e - 1 ==> #[trigger] s[j] != 0x0A,
        e == s.len() || (n < e && s[e - 1] == 0x0A),
    ensures
        n - c > 32 ==> line(rules, progress, s, i) == Step::Stop(
            Outcome::Fail(PostprocessError::TokenTooLong),
        ),
        n < s.len() && s.subrange(c, n) == ascii("hdrstop"@) && rules.keep ==> line(
            rules,
            progress,
            s,
            i,
        ) == Step::Stop(Outcome::Split { at: n, mark: Seq::empty() }),
        n < s.len() && s.subrange(c, n) == ascii("hdrstop"@) && !rules.keep ==> line(
            rules,
            progress,
            s,
            i,
        ) == Step::Stop(Outcome::Split { at: n, mark: ascii("#pragma hdrstop"@) }),
        n - c <= 32 && (n == s.len() || s.subrange(c, n) != ascii("hdrstop"@)) ==> line(
            rules,
            progress,
            s,
            i,
        ) == (Step::Next { progress, at: e }),
{
    reveal(directive_name);
    reveal_strlit("pragma");
    reveal_strlit("hdrstop");
    reveal_strlit("line");
    lemma_skip_to(s, i, h, Class::Gap);
    assert forall|j: int| b <= j < b + 6 implies Class::Word.has(#[trigger] s[j]) by {
        assert(s[j] == s.subrange(b, b + 6)[j - b]);
    }
    assert(Class::Word.has(s[b]));
    lemma_skip_to(s, h + 1, b, Class::Blank);
    lemma_skip_to(s, b, b + 6, Class::Word);
    assert(ascii("line"@).len() != ascii("pragma"@).len());
    lemma_skip_to(s, b + 6, c, Class::Blank);
    lemma_skip_to(s, c, n, Class::Word);
    lemma_line_end(s, n, e);
    assert(s.subrange(c, n).len() == n - c);
    assert(ascii("hdrstop"@).len() == 7);
}

proof fn lemma_line_at(
    rules: Rules,
    progress: Progress,
    s: Seq<u8>,
    i: int,
    h: int,
    b: int,
    c: int,
    n: int,
    q: int,
)
    requires
        0 <= i <= h < b,
        b + 4 <= c <= n <= q <= s.len(),
        b + 4 < s.len(),
        forall|j: int| i <= j < h ==> Class::Gap.has(#[trigger] s[j]),
        s[h] == 0x23,
        forall|j: int| h < j < b ==> Class::Blank.has(#[trigger] s[j]),
        s.subrange(b, b + 4) == ascii("line"@),
        !Class::Word.has(s[b + 4]),
        forall|j: int| b + 4 <= j < c ==> Class::Blank.has(#[trigger] s[j]),
        c == s.len() || !Class::Blank.has(s[c]),
        forall|j: int| c <= j < n ==> Class::Word.has(#[trigger] s[j]),
        n == s.len() || !Class::Word.has(s[n]),
        forall|j: int| n <= j < q ==> Class::Blank.has(#[trigger] s[j]),
        q == s.len() || !Class::Blank.has(s[q]),
    ensures
        line(rules, progress, s, i) == line_number(rules, progress, s, c),
        skip(s, c, Class::Word) == n,
        skip(s, n, Class::Blank) == q,
{
    reveal(directive_name);
    reveal_strlit("line");
    lemma_skip_to(s, i, h, Class::Gap);
    assert forall|j: int| b <= j < b + 4 implies Class::Word.has(#[trigger] s[j]) by {
        assert(s[j] == s.subrange(b, b + 4)[j - b]);
    }
    assert(Class::Word.has(s[b]));
    lemma_skip_to(s, h + 1, b, Class::Blank);
    lemma_skip_to(s, b, b + 4, Class::Word);
    lemma_skip_to(s, b + 4, c, Class::Blank);
    lemma_skip_to(s, c, n, Class::Word);
    lemma_skip_to(s, n, q, Class::Blank);
}

/// A hash at `h`, blanks up to `b`, `line`, blanks up to `c`, a word up to `n` and blanks up to
/// `q`. If the word has more than sixteen bytes, the text is refused; else, if it ends at `q`, the
/// path is missing; else the byte at `q` opens the path, and what is wrong with that is wrong with
/// the text.
pub proof fn law_line_without_path(
    rules: Rules,
    progress: Progress,
    s: Seq<u8>,
    i: int,
    h: int,
    b: int,
    c: int,
    n: int,
    q: int,
)
    requires
        0 <= i <= h < b,
        b + 4 <= c <= n <= q <= s.len(),
        b + 4 < s.len(),
        forall|j: int| i <= j < h ==> Class::Gap.has(#[trigger] s[j]),
        s[h] == 0x23,
        forall|j: int| h < j < b ==> Class::Blank.has(#[trigger] s[j]),
        s.subrange(b, b + 4) == ascii("line"@),
        !Class::Word.has(s[b + 4]),
        forall|j: int| b + 4 <= j < c ==> Class::Blank.has(#[trigger] s[j]),
        c == s.len() || !Class::Blank.has(s[c]),
        forall|j: int| c <= j < n ==> Class::Word.has(#[trigger] s[j]),
        n == s.len() || !Class::Word.has(s[n]),
        forall|j: int| n <= j < q ==> Class::Blank.has(#[trigger] s[j]),
        q == s.len() || !Class::Blank.has(s[q]),
    ensures
        n - c > 16 ==> line(rules, progress, s, i) == Step::Stop(
            Outcome::Fail(PostprocessError::TokenTooLong),
        ),
        n - c <= 16 && q == s.len() ==> line(rules, progress, s, i) == Step::Stop(Outcome::NoPath),
        n - c <= 16 && q < s.len() ==> (literal(
            s,
            q + 1,
            s[q],
            Seq::empty(),
            seq![s[q]],
        ) matches Literal::Broken(wrong) ==> line(rules, progress, s, i) == Step::Stop(
            Outcome::Fail(wrong),
        )),
{
    lemma_line_at(rules, progress, s, i, h, b, c, n, q);
    reveal(line_path);
}

/// A hash at `h`, blanks up to `b`, `line`, blanks up to `c`, a word up to `n` of at most sixteen
/// bytes, blanks up to `q` and a path that is closed in front of `end`; the next line starts at
/// `e`. The first such line of a text names the entry file, and does nothing else. A later one
/// ends the headers if the marker has been found and it names the entry file. Every other finds
/// the marker if that is a subpath of its file.
pub proof fn law_line_with_path(
    rules: Rules,
    progress: Progress,
    s: Seq<u8>,
    i: int,
    h: int,
    b: int,
    c: int,
    n: int,
    q: int,
    file: Seq<u8>,
    raw: Seq<u8>,
    end: int,
    e: int,
)
    requires
        0 <= i <= h < b,
        b + 4 <= c <= n <= q <= s.len(),
        b + 4 < s.len(),
        forall|j: int| i <= j < h ==> Class::Gap.has(#[trigger] s[j]),
        s[h] == 0x23,
        forall|j: int| h < j < b ==> Class::Blank.has(#[trigger] s[j]),
        s.subrange(b, b + 4) == ascii("line"@),
        !Class::Word.has(s[b + 4]),
        forall|j: int| b + 4 <= j < c ==> Class::Blank.has(#[trigger] s[j]),
        c == s.len() || !Class::Blank.has(s[c]),
        forall|j: int| c <= j < n ==> Class::Word.has(#[trigger] s[j]),
        n == s.len() || !Class::Word.has(s[n]),
        forall|j: int| n <= j < q ==> Class::Blank.has(#[trigger] s[j]),
        q == s.len() || !Class::Blank.has(s[q]),
        n - c <= 16,
        q < s.len(),
        literal(s, q + 1, s[q], Seq::empty(), seq![s[q]]) == (Literal::Closed { file, raw, end }),
        end <= e <= s.len(),
        forall|j: int| end <= j < e - 1 ==> #[trigger] s[j] != 0x0A,
        e == s.len() || (end < e && s[e - 1] == 0x0A),
    ensures
        progress.entry is None ==> line(rules, progress, s, i) == (Step::Next {
            progress: Progress { entry: Some(file), found: progress.found },
            at: e,
        }),
        progress.found && progress.entry == Some(file) ==> line(rules, progress, s, i)
            == Step::Stop(
            Outcome::Split {
                at: e,
                mark: line_mark(
                    s.subrange(c, n),
                    raw,
                    if end == e || s[e - 1] != 0x0A {
                        seq![]
                    } else if s[e - 2] != 0x0D {
                        seq![0x0A]
                    } else {
                        seq![0x0D, 0x0A]
                    },
                ),
            },
        ),
        progress.entry is Some && progress.entry != Some(file) && progress.found ==> line(
            rules,
            progress,
            s,
            i,
        ) == (Step::Next { progress, at: e }),
        progress.entry is Some && !progress.found && rules.marker is None ==> line(
            rules,
            progress,
            s,
            i,
        ) == (Step::Next { progress, at: e }),
        progress.entry is Some && !progress.found && rules.marker is Some ==> line(
            rules,
            progress,
            s,
            i,
        ) == (Step::Next {
            progress: Progress {
                entry: progress.entry,
                found: subpath(file, rules.marker->Some_0),
            },
            at: e,
        }),
{
    lemma_line_at(rules, progress, s, i, h, b, c, n, q);
    reveal(line_path);
    reveal(line_tail);
    lemma_literal_end(s, q + 1, s[q], Seq::empty(), seq![s[q]]);
    lemma_line_end(s, end, e);
}

/// Whether a part goes from one of the `cuts` to the next: it is one byte that does not end the
/// path, or a backslash and one byte.
spec fn part(s: Seq<u8>, q: int, cuts: Seq<int>, k: int, m: int) -> bool {
    &&& cuts[k] < s.len()
    &&& s[cuts[k]] != 0x0A
    &&& s[cuts[k]] != 0x0D
    &&& s[cuts[k]] == 0x5C ==> cuts[m] == cuts[k] + 2 && cuts[k] + 1 < s.len()
    &&& s[cuts[k]] != 0x5C ==> cuts[m] == cuts[k] + 1 && s[cuts[k]] != s[q]
}

/// Whether `cuts` are the places at which the parts of the path that `q` opens start: each part
/// but the last, which has not been read, is one byte, or a backslash and one byte.
spec fn parted(s: Seq<u8>, q: int, cuts: Seq<int>) -> bool {
    &&& cuts.len() > 0
    &&& cuts[0] == q + 1
    &&& cuts.last() - q < 1022
    &&& forall|k: int| 0 <= k < cuts.len() ==> q < #[trigger] cuts[k] <= cuts.last()
    &&& forall|k: int, m: int|
        0 <= k && m == k + 1 && m < cuts.len() ==> #[trigger] part(s, q, cuts, k, m)
}

/// Whether the parts of a path stand for `file` and are repeated as `raw`.
spec fn read_as(s: Seq<u8>, q: int, cuts: Seq<int>, file: Seq<u8>, raw: Seq<u8>) -> bool {
    &&& file.len() == cuts.len() - 1
    &&& forall|k: int|
        0 <= k < file.len() ==> #[trigger] file[k] == if s[cuts[k]] != 0x5C {
            s[cuts[k]]
        } else {
            unescape(s[cuts[k] + 1])
        }
    &&& raw.len() == cuts.last() - q
    &&& raw[0] == s[q]
    &&& forall|k: int|
        0 <= k < file.len() ==> raw[#[trigger] cuts[k] - q] == s[cuts[k]] && (s[cuts[k]] == 0x5C
            ==> cuts[k] + 1 - q < raw.len() && raw[cuts[k] + 1 - q] == 0x5C)
}

proof fn lemma_parted(s: Seq<u8>, q: int, cuts: Seq<int>, next: Seq<int>)
    requires
        parted(s, q, cuts),
        next == cuts.push(next.last()),
        next.last() > cuts.last(),
        next.last() - q < 1022,
        part(s, q, next, cuts.len() - 1, cuts.len() as int),
    ensures
        parted(s, q, next),
{
    assert forall|k: int, m: int| 0 <= k && m == k + 1 && m < next.len() implies #[trigger] part(
        s,
        q,
        next,
        k,
        m,
    ) by {
        if m < cuts.len() {
            assert(part(s, q, cuts, k, m));
        }
    }
}

proof fn lemma_path(
    s: Seq<u8>,
    q: int,
    cuts: Seq<int>,
    file: Seq<u8>,
    raw: Seq<u8>,
) -> (all: Seq<int>)
    requires
        0 <= q < s.len(),
        parted(s, q, cuts),
        read_as(s, q, cuts, file, raw),
        cuts.last() <= s.len(),
    ensures
        parted(s, q, all),
        all.last() <= s.len(),
        match literal(s, cuts.last(), s[q], file, raw) {
            Literal::Closed { file, raw, end } => {
                &&& all.last() < s.len()
                &&& s[all.last()] == s[q]
                &&& s[q] != 0x0A && s[q] != 0x0D && s[q] != 0x5C
                &&& end == all.last() + 1
                &&& raw.last() == s[q]
                &&& raw.len() > 0
                &&& read_as(s, q, all, file, raw.drop_last())
            },
            Literal::Broken(wrong) => ends_badly(s, q, all.last(), wrong),
        },
    decreases s.len() - cuts.last(),
{
    let i = cuts.last();
    if i >= s.len() || s[i] == 0x0A || s[i] == 0x0D {
        cuts
    } else if s[i] == 0x5C {
        if i + 1 >= s.len() || raw.len() + 2 >= 1022 {
            cuts
        } else {
            let next = cuts.push(i + 2);
            let next_file = file.push(unescape(s[i + 1]));
            let next_raw = raw.push(0x5C).push(0x5C);
            lemma_parted(s, q, cuts, next);
            assert(read_as(s, q, next, next_file, next_raw));
            lemma_path(s, q, next, next_file, next_raw)
        }
    } else if s[i] == s[q] {
        assert(raw.push(s[q]).drop_last() =~= raw);
        cuts
    } else if raw.len() + 1 >= 1022 {
        cuts
    } else {
        let next = cuts.push(i + 1);
        let next_file = file.push(s[i]);
        let next_raw = raw.push(s[i]);
        lemma_parted(s, q, cuts, next);
        assert(read_as(s, q, next, next_file, next_raw));
        lemma_path(s, q, next, next_file, next_raw)
    }
}

/// Whether a path that `q` opens can be read up to `c` and has there what is wrong.
spec fn ends_badly(s: Seq<u8>, q: int, c: int, wrong: PostprocessError) -> bool {
    match wrong {
        PostprocessError::LiteralEof => c == s.len(),
        PostprocessError::LiteralEol => c < s.len() && (s[c] == 0x0A || s[c] == 0x0D),
        PostprocessError::EscapeEof => c + 1 == s.len() && s[c] == 0x5C,
        PostprocessError::LiteralTooLong => {
            &&& c < s.len()
            &&& s[c] != 0x0A && s[c] != 0x0D
            &&& s[c] == 0x5C ==> c + 1 < s.len() && c - q + 2 >= 1022
            &&& s[c] != 0x5C ==> s[c] != s[q] && c - q + 1 >= 1022
        },
        _ => false,
    }
}

/// How a path is read that the byte at `q` opens: part by part, where a part is one byte, or a
/// backslash and one byte; `cuts` are the places at which the parts start, and the last of them
/// is where the reading ends.
///
/// It ends well at the byte that opened the path. The file then has one byte for each part: the
/// byte itself, or what the one behind the backslash stands for: `n`, `r` and `t` for a newline, a
/// carriage return and a tab, a backslash for a slash, and every other for itself. What is
/// repeated is the path with both quotes, but with a backslash for the second byte of each pair.
///
/// It ends badly at the end of the text, at a line ending byte, at a backslash that ends the
/// text, and at a part that would bring what is repeated to 1022 bytes; and nowhere else.
pub proof fn law_path(s: Seq<u8>, q: int) -> (cuts: Seq<int>)
    requires
        0 <= q < s.len(),
    ensures
        cuts.len() > 0,
        cuts[0] == q + 1,
        cuts.last() - q < 1022,
        forall|k: int| 0 <= k < cuts.len() ==> q < #[trigger] cuts[k] <= cuts.last() <= s.len(),
        forall|k: int|
            #![trigger cuts[k]]
            0 <= k < cuts.len() - 1 ==> {
                &&& cuts[k] < s.len()
                &&& s[cuts[k]] != 0x0A
                &&& s[cuts[k]] != 0x0D
                &&& s[cuts[k]] == 0x5C ==> cuts[k + 1] == cuts[k] + 2 && cuts[k] + 1 < s.len()
                &&& s[cuts[k]] != 0x5C ==> cuts[k + 1] == cuts[k] + 1 && s[cuts[k]] != s[q]
            },
        ({
            let c = cuts.last();
            match literal(s, q + 1, s[q], Seq::empty(), seq![s[q]]) {
                Literal::Closed { file, raw, end } => {
                    &&& c < s.len()
                    &&& s[c] == s[q]
                    &&& s[q] != 0x0A && s[q] != 0x0D && s[q] != 0x5C
                    &&& end == c + 1
                    &&& file.len() == cuts.len() - 1
                    &&& forall|k: int|
                        #![trigger file[k]]
                        #![trigger cuts[k]]
                        0 <= k < file.len() ==> file[k] == if s[cuts[k]] != 0x5C {
                            s[cuts[k]]
                        } else if s[cuts[k] + 1] == 0x6E {
                            0x0A
                        } else if s[cuts[k] + 1] == 0x72 {
                            0x0D
                        } else if s[cuts[k] + 1] == 0x74 {
                            0x09
                        } else if s[cuts[k] + 1] == 0x5C {
                            0x2F
                        } else {
                            s[cuts[k] + 1]
                        }
                    &&& raw.len() == c + 1 - q
                    &&& raw[0] == s[q]
                    &&& raw.last() == s[q]
                    &&& forall|k: int|
                        #![trigger file[k]]
                        #![trigger cuts[k]]
                        0 <= k < file.len() ==> raw[cuts[k] - q] == s[cuts[k]] && (s[cuts[k]]
                            == 0x5C ==> raw[cuts[k] + 1 - q] == 0x5C)
                },
                Literal::Broken(PostprocessError::LiteralEof) => c == s.len(),
                Literal::Broken(PostprocessError::LiteralEol) => c < s.len() && (s[c] == 0x0A
                    || s[c] == 0x0D),
                Literal::Broken(PostprocessError::EscapeEof) => c + 1 == s.len() && s[c] == 0x5C,
                Literal::Broken(PostprocessError::LiteralTooLong) => {
                    &&& c < s.len()
                    &&& s[c] != 0x0A && s[c] != 0x0D
                    &&& s[c] == 0x5C ==> c + 1 < s.len() && c - q + 2 >= 1022
                    &&& s[c] != 0x5C ==> s[c] != s[q] && c - q + 1 >= 1022
                },
                _ => false,
            }
        }),
{
    let cuts = lemma_path(s, q, seq![q + 1], Seq::empty(), seq![s[q]]);
    match literal(s, q + 1, s[q], Seq::empty(), seq![s[q]]) {
        Literal::Closed { file, raw, .. } => {
            let open = raw.drop_last();
            assert(open[0] == raw[0]);
            assert forall|k: int|
                #![trigger file[k]]
                #![trigger cuts[k]]
                0 <= k < file.len() implies file[k] == if s[cuts[k]] != 0x5C {
                s[cuts[k]]
            } else if s[cuts[k] + 1] == 0x6E {
                0x0A
            } else if s[cuts[k] + 1] == 0x72 {
                0x0D
            } else if s[cuts[k] + 1] == 0x74 {
                0x09
            } else if s[cuts[k] + 1] == 0x5C {
                0x2F
            } else {
                s[cuts[k] + 1]
            } by {}
            assert forall|k: int|
                #![trigger file[k]]
                #![trigger cuts[k]]
                0 <= k < file.len() implies raw[cuts[k] - q] == s[cuts[k]] && (s[cuts[k]] == 0x5C
                ==> raw[cuts[k] + 1 - q] == 0x5C) by {
                let m: int = k + 1;
                assert(cuts[m] <= cuts.last());
                assert(open[cuts[k] - q] == s[cuts[k]]);
                assert(open[cuts[k] - q] == raw[cuts[k] - q]);
                if s[cuts[k]] == 0x5C {
                    assert(open[cuts[k] + 1 - q] == raw[cuts[k] + 1 - q]);
                }
            }
        },
        _ => {},
    }
    assert forall|k: int| #![trigger cuts[k]] 0 <= k < cuts.len() - 1 implies {
        &&& cuts[k] < s.len()
        &&& s[cuts[k]] != 0x0A
        &&& s[cuts[k]] != 0x0D
        &&& s[cuts[k]] == 0x5C ==> cuts[k + 1] == cuts[k] + 2 && cuts[k] + 1 < s.len()
        &&& s[cuts[k]] != 0x5C ==> cuts[k + 1] == cuts[k] + 1 && s[cuts[k]] != s[q]
    } by {
        assert(part(s, q, cuts, k, k + 1));
    }
    cuts
}

proof fn lemma_plain_path(s: Seq<u8>, q: int, p: Seq<u8>, k: int)
    requires
        0 <= q,
        0 <= k <= p.len() < 1021,
        q + p.len() + 1 < s.len(),
        s.subrange(q + 1, q + 1 + p.len()) == p,
        s[q] == s[q + 1 + p.len()],
        s[q] != 0x0A && s[q] != 0x0D && s[q] != 0x5C,
        forall|j: int|
            0 <= j < p.len() ==> #[trigger] p[j] != 0x0A && p[j] != 0x0D && p[j] != 0x5C && p[j]
                != s[q],
    ensures
        literal(s, q + 1 + k, s[q], p.take(k), s.subrange(q, q + 1 + k)) == (Literal::Closed {
            file: p,
            raw: s.subrange(q, q + 2 + p.len()),
            end: q + 2 + p.len(),
        }),
    decreases p.len() - k,
{
    if k < p.len() {
        lemma_plain_path(s, q, p, k + 1);
        assert(p[k] == s.subrange(q + 1, q + 1 + p.len())[k]);
        assert(p.take(k).push(p[k]) =~= p.take(k + 1));
        assert(s.subrange(q, q + 1 + k).push(p[k]) =~= s.subrange(q, q + 2 + k));
    } else {
        assert(p.take(k) =~= p);
        assert(s.subrange(q, q + 1 + k).push(s[q]) =~= s.subrange(q, q + 2 + p.len()));
    }
}

/// A path without a line ending byte, a backslash or its quote, and with less than 1021 bytes,
/// is read as itself and repeated as itself, whatever its bytes are and whatever follows it.
pub proof fn law_plain_path(quote: u8, p: Seq<u8>, rest: Seq<u8>)
    requires
        p.len() < 1021,
        quote != 0x0A && quote != 0x0D && quote != 0x5C,
        forall|j: int|
            0 <= j < p.len() ==> #[trigger] p[j] != 0x0A && p[j] != 0x0D && p[j] != 0x5C && p[j]
                != quote,
    ensures
        literal(seq![quote] + p + seq![quote] + rest, 1, quote, Seq::empty(), seq![quote]) == (
        Literal::Closed { file: p, raw: seq![quote] + p + seq![quote], end: 2int + p.len() }),
{
    let s = seq![quote] + p + seq![quote] + rest;
    assert(s.subrange(1, 1int + p.len()) =~= p);
    lemma_plain_path(s, 0, p, 0);
    assert(p.take(0) =~= Seq::empty());
    assert(s.subrange(0, 1) =~= seq![quote]);
    assert(s.subrange(0, 2int + p.len()) =~= seq![quote] + p + seq![quote]);
}

/// What is put in where a `#line` ends the headers, byte for byte: `#pragma hdrstop` and a line
/// ending; `#line `, the number, a space, the path and a line ending; and nothing else.
pub proof fn law_line_mark(number: Seq<u8>, raw: Seq<u8>, eol: Seq<u8>)
    ensures
        ({
            let mark = line_mark(number, raw, eol);
            let second = 15int + eol.len();
            let path = second + 7 + number.len();
            &&& mark.len() == 22 + number.len() + raw.len() + 2 * eol.len()
            &&& mark.subrange(0, 15) == ascii("#pragma hdrstop"@)
            &&& mark.subrange(15, second) == eol
            &&& mark.subrange(second, second + 6) == ascii("#line "@)
            &&& mark.subrange(second + 6, second + 6 + number.len()) == number
            &&& mark[path - 1] == 0x20
            &&& mark.subrange(path, path + raw.len()) == raw
            &&& mark.subrange(path + raw.len(), mark.len() as int) == eol
        }),
{
    reveal_strlit("#pragma hdrstop");
    reveal_strlit("#line ");
    reveal_strlit(" ");
}

/// How many bytes of a byte order mark a text starts with: three, if it is complete; else those
/// in front of the first byte that is missing or another.
pub proof fn law_bom_len(s: Seq<u8>)
    ensures
        0 <= bom_len(s) <= 3,
        bom_len(s) <= s.len(),
        bom_len(s) >= 1 <==> s.len() >= 1 && s[0] == 0xEF,
        bom_len(s) >= 2 <==> s.len() >= 2 && s[0] == 0xEF && s[1] == 0xBB,
        bom_len(s) == 3 <==> s.len() >= 3 && s[0] == 0xEF && s[1] == 0xBB && s[2] == 0xBF,
{
}

proof fn lemma_course(
    rules: Rules,
    s: Seq<u8>,
    starts: Seq<int>,
    known: Seq<Progress>,
    end: Outcome,
    k: int,
)
    requires
        starts.len() == known.len(),
        0 <= k < starts.len(),
        0 <= starts[k] <= s.len(),
        forall|k: int, m: int|
            #![trigger starts[k], starts[m]]
            0 <= k < m < starts.len() && m == k + 1 ==> line(rules, known[k], s, starts[k]) == (
            Step::Next { progress: known[m], at: starts[m] }),
        line(rules, known.last(), s, starts.last()) == Step::Stop(end),
    ensures
        scan(rules, known[k], s, starts[k]) == end,
    decreases starts.len() - k,
{
    lemma_scan(rules, known[k], s, starts[k]);
    lemma_line_leads_on(rules, known[k], s, starts[k]);
    let m: int = k + 1;
    if m < starts.len() {
        assert(line(rules, known[k], s, starts[k]) == (Step::Next {
            progress: known[m],
            at: starts[m],
        }));
        lemma_course(rules, s, starts, known, end, m);
    }
}

/// A text is read line by line from behind what it has of a byte order mark, and at first nothing
/// is known: `starts` are where the lines start and `known` what is known in front of each. What
/// the first line comes to that does not lead on is what becomes of the text.
pub proof fn law_course(
    rules: Rules,
    s: Seq<u8>,
    starts: Seq<int>,
    known: Seq<Progress>,
    end: Outcome,
)
    requires
        starts.len() == known.len(),
        starts.len() > 0,
        starts[0] == bom_len(s),
        known[0].entry is None,
        !known[0].found,
        forall|k: int, m: int|
            #![trigger starts[k], starts[m]]
            0 <= k < m < starts.len() && m == k + 1 ==> line(rules, known[k], s, starts[k]) == (
            Step::Next { progress: known[m], at: starts[m] }),
        line(rules, known.last(), s, starts.last()) == Step::Stop(end),
    ensures
        outcome(rules, s) == end,
{
    lemma_course(rules, s, starts, known, end, 0);
}

/// What a cut leaves, byte for byte. If the headers are kept: the text up to the cut, the mark,
/// and the text from the cut on. If not: the mark, and the text from the cut on.
pub proof fn law_cut(s: Seq<u8>, at: int, mark: Seq<u8>)
    requires
        0 <= at <= s.len(),
    ensures
        cut(true, s, at, mark).len() == s.len() + mark.len(),
        cut(true, s, at, mark).subrange(0, at) == s.subrange(0, at),
        cut(true, s, at, mark).subrange(at, (at + mark.len()) as int) == mark,
        cut(true, s, at, mark).subrange((at + mark.len()) as int, (s.len() + mark.len()) as int)
            == s.subrange(at, s.len() as int),
        cut(false, s, at, mark).len() == mark.len() + s.len() - at,
        cut(false, s, at, mark).subrange(0, mark.len() as int) == mark,
        cut(false, s, at, mark).subrange(mark.len() as int, mark.len() + s.len() - at)
            == s.subrange(at, s.len() as int),
{
}

/// Whether a `#pragma hdrstop` has its hash at `h`, its first word at `b` and its second at `c`,
/// and ends at `at`.
spec fn is_hdrstop(s: Seq<u8>, h: int, b: int, c: int, at: int) -> bool {
    &&& 0 <= h < b
    &&& b + 6 < c
    &&& c + 7 == at
    &&& at < s.len()
    &&& s[h] == 0x23
    &&& forall|j: int| h < j < b ==> Class::Blank.has(#[trigger] s[j])
    &&& s.subrange(b, b + 6) == ascii("pragma"@)
    &&& forall|j: int| b + 6 <= j < c ==> Class::Blank.has(#[trigger] s[j])
    &&& s.subrange(c, at) == ascii("hdrstop"@)
    &&& !Class::Word.has(s[at])
}

/// Whether a cut is made by a `#pragma hdrstop`, or by a `#line` at the end of its line.
spec fn cut_by(rules: Rules, s: Seq<u8>, end: Outcome) -> bool {
    match end {
        Outcome::Split { at, mark } => pragma_cut(rules, s, at, mark) || line_cut(s, at, mark),
        _ => true,
    }
}

/// Whether a `#pragma hdrstop` cuts a text at `at` and puts in `mark`.
spec fn pragma_cut(rules: Rules, s: Seq<u8>, at: int, mark: Seq<u8>) -> bool {
    &&& exists|h: int, b: int, c: int| #[trigger] is_hdrstop(s, h, b, c, at)
    &&& rules.keep ==> mark == Seq::<u8>::empty()
    &&& !rules.keep ==> mark == ascii("#pragma hdrstop"@)
}

/// Whether a text may be cut at `at` by a `#line` that puts in `mark`.
spec fn line_cut(s: Seq<u8>, at: int, mark: Seq<u8>) -> bool {
    &&& mark.len() >= 22
    &&& 0 < at <= s.len()
    &&& at < s.len() ==> s[at - 1] == 0x0A
}

proof fn lemma_line_cut_by(rules: Rules, progress: Progress, s: Seq<u8>, i: int)
    requires
        0 <= i <= s.len(),
    ensures
        line(rules, progress, s, i) matches Step::Stop(end) ==> cut_by(rules, s, end),
{
    reveal(directive_name);
    reveal(line_path);
    reveal(line_tail);
    reveal_strlit("pragma");
    reveal_strlit("hdrstop");
    lemma_skip(s, i, Class::Gap);
    let h = skip(s, i, Class::Gap);
    if h < s.len() && s[h] == 0x23 {
        lemma_skip(s, h + 1, Class::Blank);
        let b = skip(s, h + 1, Class::Blank);
        lemma_skip(s, b, Class::Word);
        let n = skip(s, b, Class::Word);
        lemma_skip(s, n, Class::Blank);
        let c = skip(s, n, Class::Blank);
        lemma_skip(s, c, Class::Word);
        let e = skip(s, c, Class::Word);
        assert(s.subrange(b, n).len() == n - b);
        assert(s.subrange(c, e).len() == e - c);
        if s.subrange(b, n) == ascii("pragma"@) && s.subrange(c, e) == ascii("hdrstop"@) && n
            < s.len() && e < s.len() {
            if c == n {
                assert(Class::Word.has(s[c]));
            }
            assert(is_hdrstop(s, h, b, c, e));
        }
        lemma_skip(s, e, Class::Blank);
        let q = skip(s, e, Class::Blank);
        if q < s.len() {
            lemma_literal_end(s, q + 1, s[q], Seq::empty(), seq![s[q]]);
            match literal(s, q + 1, s[q], Seq::empty(), seq![s[q]]) {
                Literal::Closed { raw, end, .. } => {
                    lemma_skip(s, end, Class::Inline);
                    let eol = line_ending(s, skip(s, end, Class::Inline));
                    law_line_mark(s.subrange(c, e), raw, eol);
                },
                Literal::Broken(_) => {},
            }
        }
    }
}

proof fn lemma_scan_cut_by(rules: Rules, progress: Progress, s: Seq<u8>, i: int)
    requires
        0 <= i <= s.len(),
    ensures
        cut_by(rules, s, scan(rules, progress, s, i)),
    decreases s.len() - i,
{
    lemma_scan(rules, progress, s, i);
    lemma_line_cut_by(rules, progress, s, i);
    lemma_line_leads_on(rules, progress, s, i);
    match line(rules, progress, s, i) {
        Step::Next { progress: next, at } => {
            lemma_scan_cut_by(rules, next, s, at);
        },
        Step::Stop(_) => {},
    }
}

/// Every text is cut behind the word `hdrstop` of a `#pragma hdrstop`, or at the end of a line.
/// Which of the two shows in the mark: the first puts in nothing more than a pragma of its own,
/// and that only if the headers are removed, and the second never less than 22 bytes. In the
/// first case the hash stands at the first of the places that are given, `pragma` at the second
/// and `hdrstop` at the third, with nothing but blanks between them and no word behind them.
pub proof fn law_where_cut(rules: Rules, s: Seq<u8>, at: int, mark: Seq<u8>) -> (places: (
    int,
    int,
    int,
))
    requires
        outcome(rules, s) == (Outcome::Split { at, mark }),
    ensures
        mark.len() < 22 ==> {
            let (h, b, c) = places;
            &&& 0 <= h < b
            &&& b + 6 < c
            &&& c == at - 7
            &&& at < s.len()
            &&& s[h] == 0x23
            &&& forall|j: int| h < j < b ==> Class::Blank.has(#[trigger] s[j])
            &&& s.subrange(b, b + 6) == ascii("pragma"@)
            &&& forall|j: int| b + 6 <= j < c ==> Class::Blank.has(#[trigger] s[j])
            &&& s.subrange(at - 7, at) == ascii("hdrstop"@)
            &&& !Class::Word.has(s[at])
        },
        mark.len() < 22 && rules.keep ==> mark.len() == 0,
        mark.len() < 22 && !rules.keep ==> mark == ascii("#pragma hdrstop"@),
        mark.len() >= 22 ==> 0 < at <= s.len(),
        mark.len() >= 22 && at < s.len() ==> s[at - 1] == 0x0A,
{
    reveal_strlit("#pragma hdrstop");
    lemma_scan_cut_by(rules, Progress { entry: None, found: false }, s, bom_len(s));
    if mark.len() < 22 {
        choose|h: int, b: int, c: int| #[trigger] is_hdrstop(s, h, b, c, at)
    } else {
        (0, 0, 0)
    }
}

/// One text extends another if it is the other with something behind it.
pub proof fn law_extends(s: Seq<u8>, t: Seq<u8>, rest: Seq<u8>)
    ensures
        extends(s + rest, s),
        extends(t, s) ==> t == s + t.skip(s.len() as int),
        extends(t, s) ==> s.len() <= t.len(),
{
    if extends(t, s) {
        assert(t =~= s + t.skip(s.len() as int));
    }
}

/// A text is settled if it is cut or refused, and so is every text that starts with it, in the
/// same way.
pub proof fn law_settled(rules: Rules, s: Seq<u8>)
    ensures
        settled(rules, s) <==> (outcome(rules, s) is Split || outcome(rules, s) is Fail)
            && forall|rest: Seq<u8>| #[trigger] outcome(rules, s + rest) == outcome(rules, s),
{
    if settled(rules, s) {
        assert forall|rest: Seq<u8>| #[trigger] outcome(rules, s + rest) == outcome(rules, s) by {
            assert(extends(s + rest, s));
        }
    }
    if forall|rest: Seq<u8>| #[trigger] outcome(rules, s + rest) == outcome(rules, s) {
        assert forall|t: Seq<u8>| #[trigger] extends(t, s) implies outcome(rules, t) == outcome(
            rules,
            s,
        ) by {
            let rest = t.skip(s.len() as int);
            assert(t =~= s + rest);
            assert(outcome(rules, s + rest) == outcome(rules, s));
        }
    }
}

/// What has been written once a text has been read, byte for byte. A cut is made as soon as it
/// can be seen, which is when the text goes on behind it or has ended its line. As long as none
/// is made, the text is written as it is if the headers are kept, and nothing of it if not.
pub proof fn law_written(rules: Rules, s: Seq<u8>)
    ensures
        ({
            let early = outcome(rules, s) matches Outcome::Split { at, .. } && (at < s.len()
                || s.last() == 0x0A);
            &&& !early && rules.keep ==> written(rules, s) == s
            &&& !early && !rules.keep ==> written(rules, s).len() == 0
            &&& early && rules.keep ==> (outcome(rules, s) matches Outcome::Split { at, mark }
                && written(rules, s) == s.subrange(0, at) + mark + s.subrange(at, s.len() as int))
            &&& early && !rules.keep ==> (outcome(rules, s) matches Outcome::Split { at, mark }
                && written(rules, s) == mark + s.subrange(at, s.len() as int))
        }),
{
    match outcome(rules, s) {
        Outcome::Split { at, mark } => {
            let _ = law_where_cut(rules, s, at, mark);
            if at < s.len() || s.last() == 0x0A {
                assert(extends(s, s));
                law_cut_is_final(rules, s, s);
                assert(written(rules, s) == cut(rules.keep, s, at, mark));
                if rules.keep {
                    assert(cut(true, s, at, mark) =~= s.subrange(0, at) + mark + s.subrange(
                        at,
                        s.len() as int,
                    ));
                } else {
                    assert(cut(false, s, at, mark) =~= mark + s.subrange(at, s.len() as int));
                }
            } else if settled(rules, s) {
                let t = s.push(0x20);
                assert(extends(t, s));
                let _ = law_where_cut(rules, t, at, mark);
                assert(t[at - 1] == s[at - 1]);
                assert(false);
            }
        },
        _ => {},
    }
}

/// What a text is answered when it ends. If it is cut: what it had in front of the cut, unless
/// the headers are removed, the mark, and what it has behind the cut. If it is refused: the
/// error. If it ends within the headers: that the marker is missing, by the name it was given,
/// and if it was given none, there is no answer; nor is there one if it ends where a path is due.
pub proof fn law_answers(
    rules: Rules,
    name: Option<Seq<char>>,
    s: Seq<u8>,
    r: Result<Seq<u8>, PostprocessError>,
)
    ensures
        match outcome(rules, s) {
            Outcome::Split { at, mark } => {
                &&& answerable(rules, name, s)
                &&& answers(rules, name, s, r) <==> {
                    let out = r->Ok_0;
                    let from = if rules.keep {
                        at
                    } else {
                        0
                    };
                    &&& r is Ok
                    &&& out.len() == from + mark.len() + s.len() - at
                    &&& forall|j: int| 0 <= j < from ==> #[trigger] out[j] == s[j]
                    &&& forall|j: int|
                        from <= j < from + mark.len() ==> #[trigger] out[j] == mark[j - from]
                    &&& forall|j: int|
                        from + mark.len() <= j < out.len() ==> #[trigger] out[j] == s[j - from
                            - mark.len() + at]
                }
            },
            Outcome::Fail(wrong) => {
                &&& answerable(rules, name, s)
                &&& answers(rules, name, s, r) <==> r is Err && r->Err_0 == wrong
            },
            Outcome::NoMarker => {
                &&& answerable(rules, name, s) <==> name is Some
                &&& answers(rules, name, s, r) <==> {
                    &&& r is Err
                    &&& r->Err_0 is MarkerNotFound
                    &&& name is Some
                    &&& name->Some_0 == r->Err_0->MarkerNotFound_0@
                }
            },
            Outcome::NoPath => !answerable(rules, name, s) && !answers(rules, name, s, r),
        },
{
    match outcome(rules, s) {
        Outcome::Split { at, mark } => {
            law_cut_in_text(rules, s);
            let whole = cut(rules.keep, s, at, mark);
            let from = if rules.keep {
                at
            } else {
                0
            };
            if r is Ok && r->Ok_0.len() == whole.len() && (forall|j: int|
                0 <= j < from ==> #[trigger] r->Ok_0[j] == s[j]) && (forall|j: int|
                from <= j < from + mark.len() ==> #[trigger] r->Ok_0[j] == mark[j - from]) && (
            forall|j: int|
                from + mark.len() <= j < whole.len() ==> #[trigger] r->Ok_0[j] == s[j - from
                    - mark.len() + at]) {
                assert(r->Ok_0 =~= whole);
            }
        },
        _ => {},
    }
}

} // verus!
