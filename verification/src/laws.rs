//! What holds of the filter of preprocessed source for all texts.

use vstd::prelude::*;
use crate::bytes::{Class, BACKSLASH, CARRIAGE_RETURN, NEWLINE};
use crate::bytes::{
    ascii, law_subpath_ignores_case, lemma_skip, lemma_skip_run, same_letters, skip,
};
use crate::grammar::{Literal, Outcome, Progress, Rules, Step};
use crate::grammar::{
    bom_len, byte_order_mark, cut, directive_name, extends, is_marked, line, line_ending, line_mark,
    line_path, line_tail, literal, next_line, pragma_name, scan, settled, unescape,
    outcome, written,
};
use crate::grammar::{lemma_line_leads_on, lemma_literal_end, lemma_next_line, lemma_scan};

verus! {

/// What is known before the first line: no file has been named.
spec fn nothing() -> Progress {
    Progress { entry: None, found: false }
}

/// Whether `mark` is one that a `#pragma hdrstop` at `at` leaves.
spec fn is_pragma_cut(rules: Rules, s: Seq<u8>, at: int, mark: Seq<u8>) -> bool {
    &&& 0 <= at < s.len()
    &&& !Class::Word.has(s[at])
    &&& mark == if rules.keep {
        Seq::empty()
    } else {
        ascii("#pragma hdrstop"@)
    }
}

/// Whether `eol` is a line ending.
pub open spec fn is_line_ending(eol: Seq<u8>) -> bool {
    eol == Seq::<u8>::empty() || eol == seq![NEWLINE] || eol == seq![CARRIAGE_RETURN, NEWLINE]
}

/// Whether `mark` is one that a `#line` directive leaves.
spec fn is_line_cut(s: Seq<u8>, at: int, mark: Seq<u8>) -> bool {
    &&& 0 <= at <= s.len()
    &&& exists|number: Seq<u8>, raw: Seq<u8>, eol: Seq<u8>|
        is_line_ending(eol) && mark == #[trigger] line_mark(number, raw, eol)
}

/// What is known of a cut that a step makes, and of what a step finds without a marker.
spec fn shaped(rules: Rules, progress: Progress, s: Seq<u8>, step: Step) -> bool {
    match step {
        Step::Next { progress: next, .. } => rules.marker is None && !progress.found
            ==> !next.found,
        Step::Stop(Outcome::Split { at, mark }) => {
            ||| is_pragma_cut(rules, s, at, mark)
            ||| is_line_cut(s, at, mark) && (rules.marker is Some || progress.found)
        },
        _ => true,
    }
}

proof fn lemma_line_path_shaped(
    rules: Rules,
    progress: Progress,
    s: Seq<u8>,
    number: Seq<u8>,
    i: int,
)
    requires
        0 <= i <= s.len(),
    ensures
        shaped(rules, progress, s, line_path(rules, progress, s, number, i)),
{
    reveal(line_path);
    reveal(line_tail);
    let q = skip(s, i, Class::Blank);
    lemma_skip(s, i, Class::Blank);
    if q < s.len() {
        lemma_literal_end(s, q + 1, s[q], Seq::empty(), seq![s[q]]);
        match literal(s, q + 1, s[q], Seq::empty(), seq![s[q]]) {
            Literal::Closed { file, raw, end } => {
                lemma_next_line(s, end);
                let eol = line_ending(s, skip(s, end, Class::Inline));
                assert(is_line_ending(eol));
                assert(line_mark(number, raw, eol) == line_mark(number, raw, eol));
            },
            Literal::Broken(_) => {},
        }
    }
}

proof fn lemma_line_shaped(rules: Rules, progress: Progress, s: Seq<u8>, i: int)
    requires
        0 <= i <= s.len(),
    ensures
        shaped(rules, progress, s, line(rules, progress, s, i)),
{
    reveal(directive_name);
    lemma_skip(s, i, Class::Gap);
    let h = skip(s, i, Class::Gap);
    if h < s.len() {
        lemma_skip(s, h + 1, Class::Blank);
        let b = skip(s, h + 1, Class::Blank);
        lemma_skip(s, b, Class::Word);
        let n = skip(s, b, Class::Word);
        lemma_skip(s, n, Class::Blank);
        let c = skip(s, n, Class::Blank);
        lemma_skip(s, c, Class::Word);
        let e = skip(s, c, Class::Word);
        lemma_line_path_shaped(rules, progress, s, s.subrange(c, e), e);
    }
}

proof fn lemma_scan_shaped(rules: Rules, progress: Progress, s: Seq<u8>, i: int)
    requires
        0 <= i <= s.len(),
    ensures
        shaped(rules, progress, s, Step::Stop(scan(rules, progress, s, i))) || rules.marker is None
            && progress.found,
    decreases s.len() - i,
{
    lemma_scan(rules, progress, s, i);
    lemma_line_shaped(rules, progress, s, i);
    lemma_line_leads_on(rules, progress, s, i);
    match line(rules, progress, s, i) {
        Step::Next { progress: next, at } => {
            lemma_scan_shaped(rules, next, s, at);
        },
        Step::Stop(_) => {},
    }
}

/// A text is cut at one of its bytes, or at its end.
pub proof fn law_cut_in_text(rules: Rules, s: Seq<u8>)
    ensures
        outcome(rules, s) matches Outcome::Split { at, .. } ==> 0 <= at <= s.len(),
{
    lemma_scan_shaped(rules, nothing(), s, bom_len(s));
}

/// Without a marker only a `#pragma hdrstop` ends the headers.
pub proof fn law_no_marker_no_line_cut(rules: Rules, s: Seq<u8>)
    requires
        rules.marker is None,
    ensures
        outcome(rules, s) matches Outcome::Split { mark, .. } ==> mark == if rules.keep {
            Seq::<u8>::empty()
        } else {
            ascii("#pragma hdrstop"@)
        },
{
    lemma_scan_shaped(rules, nothing(), s, bom_len(s));
}

/// Nothing but the headers is ever lost: what follows the cut ends the output as it is, and if
/// the headers are kept, the output without the mark is the text.
pub proof fn law_nothing_lost(rules: Rules, s: Seq<u8>)
    ensures
        outcome(rules, s) matches Outcome::Split { at, mark } ==> {
            let out = cut(rules.keep, s, at, mark);
            &&& out.skip(out.len() - (s.len() - at)) == s.skip(at)
            &&& rules.keep ==> out.take(at) + out.skip(at + mark.len()) == s
        },
{
    law_cut_in_text(rules, s);
    match outcome(rules, s) {
        Outcome::Split { at, mark } => {
            let out = cut(rules.keep, s, at, mark);
            assert(out.skip(out.len() - (s.len() - at)) =~= s.skip(at));
            if rules.keep {
                assert(out.take(at) + out.skip((at + mark.len()) as int) =~= s);
            }
        },
        _ => {},
    }
}

/// What is known of the outcomes of one text with the headers kept and with the headers removed.
pub open spec fn same_course(kept: Outcome, removed: Outcome) -> bool {
    ||| kept == removed
    ||| {
        &&& kept matches Outcome::Split { at, mark }
        &&& mark == Seq::<u8>::empty()
        &&& removed == (Outcome::Split { at, mark: ascii("#pragma hdrstop"@) })
    }
}

spec fn same_step(kept: Step, removed: Step) -> bool {
    match (kept, removed) {
        (Step::Stop(v), Step::Stop(w)) => same_course(v, w),
        _ => kept == removed,
    }
}

proof fn lemma_line_same_step(marker: Option<Seq<u8>>, progress: Progress, s: Seq<u8>, i: int)
    ensures
        same_step(
            line(Rules { marker, keep: true }, progress, s, i),
            line(Rules { marker, keep: false }, progress, s, i),
        ),
{
    reveal(directive_name);
    reveal(line_path);
    reveal(line_tail);
}

proof fn lemma_scan_same_course(marker: Option<Seq<u8>>, progress: Progress, s: Seq<u8>, i: int)
    requires
        0 <= i <= s.len(),
    ensures
        same_course(
            scan(Rules { marker, keep: true }, progress, s, i),
            scan(Rules { marker, keep: false }, progress, s, i),
        ),
    decreases s.len() - i,
{
    let kept = Rules { marker, keep: true };
    let removed = Rules { marker, keep: false };
    lemma_scan(kept, progress, s, i);
    lemma_scan(removed, progress, s, i);
    lemma_line_same_step(marker, progress, s, i);
    lemma_line_leads_on(kept, progress, s, i);
    match line(kept, progress, s, i) {
        Step::Next { progress: next, at } => {
            lemma_scan_same_course(marker, next, s, at);
        },
        Step::Stop(_) => {},
    }
}

/// Whether the headers are kept or removed makes no difference to where a text is cut or why it
/// is refused; and no mark is put in behind a `#pragma hdrstop` that is kept.
pub proof fn law_keep_same_course(marker: Option<Seq<u8>>, s: Seq<u8>)
    ensures
        same_course(
            outcome(Rules { marker, keep: true }, s),
            outcome(Rules { marker, keep: false }, s),
        ),
{
    lemma_scan_same_course(marker, nothing(), s, bom_len(s));
}

/// A text that a `#pragma hdrstop` cuts comes out as it is if the headers are kept.
pub proof fn law_kept_pragma_unchanged(marker: Option<Seq<u8>>, s: Seq<u8>, at: int)
    requires
        outcome(Rules { marker, keep: false }, s) == (Outcome::Split {
            at,
            mark: ascii("#pragma hdrstop"@),
        }),
    ensures
        outcome(Rules { marker, keep: true }, s) == (Outcome::Split { at, mark: Seq::empty() }),
        cut(true, s, at, Seq::empty()) == s,
{
    let kept = Rules { marker, keep: true };
    law_keep_same_course(marker, s);
    law_cut_in_text(kept, s);
    lemma_scan_shaped(kept, nothing(), s, bom_len(s));
    reveal_strlit("#pragma hdrstop");
    reveal_strlit("#line ");
    assert(cut(true, s, at, Seq::empty()) =~= s);
}

/// A text that starts with a `#pragma hdrstop` is cut behind it.
proof fn lemma_starts_with_hdrstop(rules: Rules, s: Seq<u8>)
    requires
        s.len() > 15,
        s.take(15) == ascii("#pragma hdrstop"@),
        !Class::Word.has(s[15]),
    ensures
        outcome(rules, s) == (Outcome::Split {
            at: 15,
            mark: if rules.keep {
                Seq::empty()
            } else {
                ascii("#pragma hdrstop"@)
            },
        }),
{
    reveal_strlit("#pragma hdrstop");
    reveal_strlit("pragma");
    reveal_strlit("hdrstop");
    reveal_strlit("line");
    let head = ascii("#pragma hdrstop"@);
    assert forall|j: int| 0 <= j < 15 implies #[trigger] s[j] == head[j] by {
        assert(s[j] == s.take(15)[j]);
    }
    assert(bom_len(s) == 0);
    assert(skip(s, 0, Class::Gap) == 0);
    assert(skip(s, 1, Class::Blank) == 1);
    assert forall|j: int| 1 <= j < 7 implies Class::Word.has(#[trigger] s[j]) by {
        assert(s[j] == head[j]);
    }
    lemma_skip_run(s, 1, 7, Class::Word);
    assert(skip(s, 7, Class::Word) == 7);
    assert(s.subrange(1, 7) =~= ascii("pragma"@));
    assert(ascii("line"@).len() != ascii("pragma"@).len());
    assert(skip(s, 8, Class::Blank) == 8);
    assert(skip(s, 7, Class::Blank) == 8);
    assert forall|j: int| 8 <= j < 15 implies Class::Word.has(#[trigger] s[j]) by {
        assert(s[j] == head[j]);
    }
    lemma_skip_run(s, 8, 15, Class::Word);
    assert(skip(s, 15, Class::Word) == 15);
    assert(s.subrange(8, 15) =~= ascii("hdrstop"@));
    reveal(directive_name);
    lemma_scan(rules, nothing(), s, 0);
}

/// Without its headers a text starts with a `#pragma hdrstop`, and to filter it once more, with
/// whatever marker, changes nothing.
pub proof fn law_remove_twice(rules: Rules, s: Seq<u8>, at: int, mark: Seq<u8>, again: Rules)
    requires
        !rules.keep,
        !again.keep,
        outcome(rules, s) == (Outcome::Split { at, mark }),
    ensures
        ({
            let out = cut(false, s, at, mark);
            &&& out.take(15) == ascii("#pragma hdrstop"@)
            &&& outcome(again, out) == (Outcome::Split {
                at: 15,
                mark: ascii("#pragma hdrstop"@),
            })
            &&& cut(false, out, 15, ascii("#pragma hdrstop"@)) == out
        }),
{
    lemma_scan_shaped(rules, nothing(), s, bom_len(s));
    law_cut_in_text(rules, s);
    reveal_strlit("#pragma hdrstop");
    reveal_strlit("#line ");
    let head = ascii("#pragma hdrstop"@);
    let out = cut(false, s, at, mark);
    assert(out =~= mark + s.skip(at));
    if is_pragma_cut(rules, s, at, mark) {
        assert(out.take(15) =~= head);
        assert(out[15] == s[at]);
    } else {
        let (number, raw, eol) = choose|number: Seq<u8>, raw: Seq<u8>, eol: Seq<u8>|
            is_line_ending(eol) && mark == #[trigger] line_mark(number, raw, eol);
        assert(out.take(15) =~= head);
        if eol.len() == 0 {
            assert(out[15] == ascii("#line "@)[0]);
        } else {
            assert(out[15] == eol[0]);
        }
    }
    lemma_starts_with_hdrstop(again, out);
    assert(cut(false, out, 15, head) =~= out);
}

proof fn lemma_scan_ignores_case(
    m1: Seq<u8>,
    m2: Seq<u8>,
    keep: bool,
    progress: Progress,
    s: Seq<u8>,
    i: int,
)
    requires
        same_letters(m1, m2),
        0 <= i <= s.len(),
    ensures
        scan(Rules { marker: Some(m1), keep }, progress, s, i) == scan(
            Rules { marker: Some(m2), keep },
            progress,
            s,
            i,
        ),
    decreases s.len() - i,
{
    let r1 = Rules { marker: Some(m1), keep };
    let r2 = Rules { marker: Some(m2), keep };
    lemma_scan(r1, progress, s, i);
    lemma_scan(r2, progress, s, i);
    lemma_line_leads_on(r1, progress, s, i);
    assert(line(r1, progress, s, i) == line(r2, progress, s, i)) by {
        reveal(directive_name);
        reveal(line_path);
        reveal(line_tail);
        assert forall|file: Seq<u8>| #[trigger] is_marked(r1, file) == is_marked(r2, file) by {
            assert(same_letters(file, file));
            law_subpath_ignores_case(file, file, m1, m2);
        }
    }
    match line(r1, progress, s, i) {
        Step::Next { progress: next, at } => {
            lemma_scan_ignores_case(m1, m2, keep, next, s, at);
        },
        Step::Stop(_) => {},
    }
}

/// The case of the letters of the marker makes no difference.
pub proof fn law_marker_ignores_case(m1: Seq<u8>, m2: Seq<u8>, keep: bool, s: Seq<u8>)
    requires
        same_letters(m1, m2),
    ensures
        outcome(Rules { marker: Some(m1), keep }, s) == outcome(
            Rules { marker: Some(m2), keep },
            s,
        ),
{
    lemma_scan_ignores_case(m1, m2, keep, nothing(), s, bom_len(s));
}

/// An outcome of a text that stands `d` bytes later.
pub open spec fn moved(v: Outcome, d: int) -> Outcome {
    match v {
        Outcome::Split { at, mark } => Outcome::Split { at: at + d, mark },
        _ => v,
    }
}

spec fn moved_step(step: Step, d: int) -> Step {
    match step {
        Step::Next { progress, at } => Step::Next { progress, at: at + d },
        Step::Stop(v) => Step::Stop(moved(v, d)),
    }
}

spec fn moved_literal(path: Literal, d: int) -> Literal {
    match path {
        Literal::Closed { file, raw, end } => Literal::Closed { file, raw, end: end + d },
        Literal::Broken(e) => Literal::Broken(e),
    }
}

proof fn lemma_skip_moved(t: Seq<u8>, s: Seq<u8>, i: int, k: Class)
    requires
        0 <= i <= s.len(),
    ensures
        skip(t + s, i + t.len(), k) == skip(s, i, k) + t.len(),
    decreases s.len() - i,
{
    if i < s.len() {
        assert((t + s)[i + t.len()] == s[i]);
        lemma_skip_moved(t, s, i + 1, k);
    }
}

proof fn lemma_literal_moved(
    t: Seq<u8>,
    s: Seq<u8>,
    i: int,
    quote: u8,
    file: Seq<u8>,
    raw: Seq<u8>,
)
    requires
        0 <= i,
    ensures
        literal(t + s, i + t.len(), quote, file, raw) == moved_literal(
            literal(s, i, quote, file, raw),
            t.len() as int,
        ),
    decreases s.len() - i,
{
    let u = t + s;
    let d = t.len() as int;
    if i < s.len() {
        assert(u[i + d] == s[i]);
        if i + 1 < s.len() {
            assert(u[i + 1 + d] == s[i + 1]);
            lemma_literal_moved(
                t,
                s,
                i + 2,
                quote,
                file.push(unescape(s[i + 1])),
                raw.push(BACKSLASH).push(BACKSLASH),
            );
        }
        lemma_literal_moved(t, s, i + 1, quote, file.push(s[i]), raw.push(s[i]));
    }
}

proof fn lemma_next_line_moved(t: Seq<u8>, s: Seq<u8>, i: int)
    requires
        0 <= i <= s.len(),
    ensures
        next_line(t + s, i + t.len()) == next_line(s, i) + t.len(),
{
    lemma_skip_moved(t, s, i, Class::Inline);
}

proof fn lemma_line_path_moved(
    rules: Rules,
    progress: Progress,
    t: Seq<u8>,
    s: Seq<u8>,
    number: Seq<u8>,
    i: int,
)
    requires
        0 <= i <= s.len(),
    ensures
        line_path(rules, progress, t + s, number, i + t.len()) == moved_step(
            line_path(rules, progress, s, number, i),
            t.len() as int,
        ),
{
    reveal(line_path);
    reveal(line_tail);
    let u = t + s;
    let d = t.len() as int;
    let q = skip(s, i, Class::Blank);
    lemma_skip(s, i, Class::Blank);
    lemma_skip_moved(t, s, i, Class::Blank);
    if q < s.len() {
        assert(u[q + d] == s[q]);
        let empty = Seq::<u8>::empty();
        lemma_literal_moved(t, s, q + 1, s[q], empty, seq![s[q]]);
        lemma_literal_end(s, q + 1, s[q], empty, seq![s[q]]);
        match literal(s, q + 1, s[q], empty, seq![s[q]]) {
            Literal::Closed { file, raw, end } => {
                let n = skip(s, end, Class::Inline);
                lemma_skip(s, end, Class::Inline);
                lemma_skip_moved(t, s, end, Class::Inline);
                assert(u[n - 1 + d] == s[n - 1]);
                assert(line_ending(u, n + d) == line_ending(s, n));
            },
            Literal::Broken(_) => {},
        }
    }
}

proof fn lemma_line_moved(rules: Rules, progress: Progress, t: Seq<u8>, s: Seq<u8>, i: int)
    requires
        0 <= i <= s.len(),
    ensures
        line(rules, progress, t + s, i + t.len()) == moved_step(
            line(rules, progress, s, i),
            t.len() as int,
        ),
{
    reveal(directive_name);
    let u = t + s;
    let d = t.len() as int;
    lemma_skip(s, i, Class::Gap);
    lemma_skip_moved(t, s, i, Class::Gap);
    let h = skip(s, i, Class::Gap);
    if h < s.len() {
        assert(u[h + d] == s[h]);
        lemma_next_line_moved(t, s, h);
        lemma_skip(s, h + 1, Class::Blank);
        lemma_skip_moved(t, s, h + 1, Class::Blank);
        let b = skip(s, h + 1, Class::Blank);
        lemma_skip(s, b, Class::Word);
        lemma_skip_moved(t, s, b, Class::Word);
        let n = skip(s, b, Class::Word);
        assert(u.subrange(b + d, n + d) =~= s.subrange(b, n));
        lemma_next_line_moved(t, s, n);
        lemma_skip(s, n, Class::Blank);
        lemma_skip_moved(t, s, n, Class::Blank);
        let c = skip(s, n, Class::Blank);
        lemma_skip(s, c, Class::Word);
        lemma_skip_moved(t, s, c, Class::Word);
        let e = skip(s, c, Class::Word);
        assert(u.subrange(c + d, e + d) =~= s.subrange(c, e));
        lemma_next_line_moved(t, s, e);
        lemma_line_path_moved(rules, progress, t, s, s.subrange(c, e), e);
    }
}

proof fn lemma_scan_moved(rules: Rules, progress: Progress, t: Seq<u8>, s: Seq<u8>, i: int)
    requires
        0 <= i <= s.len(),
    ensures
        scan(rules, progress, t + s, i + t.len()) == moved(
            scan(rules, progress, s, i),
            t.len() as int,
        ),
    decreases s.len() - i,
{
    lemma_scan(rules, progress, s, i);
    lemma_scan(rules, progress, t + s, i + t.len());
    lemma_line_moved(rules, progress, t, s, i);
    lemma_line_leads_on(rules, progress, s, i);
    match line(rules, progress, s, i) {
        Step::Next { progress: next, at } => {
            lemma_scan_moved(rules, next, t, s, at);
        },
        Step::Stop(_) => {},
    }
}

/// With the same bytes for the marker, a text behind a byte order mark is read from its first
/// byte on, and what becomes of it stands three bytes later. So a byte order mark makes no
/// difference to a text, unless the text itself starts like one.
pub proof fn law_bom_in_front(rules: Rules, s: Seq<u8>)
    ensures
        outcome(rules, byte_order_mark() + s) == moved(
            scan(rules, Progress { entry: None, found: false }, s, 0),
            3,
        ),
        bom_len(s) == 0 ==> outcome(rules, byte_order_mark() + s) == moved(outcome(rules, s), 3),
{
    let u = byte_order_mark() + s;
    assert(u[0] == 0xEF && u[1] == 0xBB && u[2] == 0xBF);
    lemma_scan_moved(rules, nothing(), byte_order_mark(), s, 0);
}

/// A text that is cut or refused stays so, whatever follows.
pub proof fn law_settled_stays(rules: Rules, s: Seq<u8>, t: Seq<u8>)
    requires
        settled(rules, s),
        extends(t, s),
    ensures
        settled(rules, t),
        outcome(rules, t) == outcome(rules, s),
{
    assert forall|u: Seq<u8>| #[trigger] extends(u, t) implies outcome(rules, u) == outcome(
        rules,
        t,
    ) by {
        assert forall|i: int| 0 <= i < s.len() implies #[trigger] u[i] == s[i] by {
            assert(u[i] == t[i]);
        }
        assert(extends(u, s));
    }
}

/// Where a step leads to, if it does not refuse the text or reach its end.
spec fn target(step: Step) -> Option<int> {
    match step {
        Step::Next { at, .. } => Some(at),
        Step::Stop(Outcome::Split { at, .. }) => Some(at),
        _ => None,
    }
}

/// Whether `s` shows that something ends at `at`: it goes on behind it, or ends in a newline.
spec fn shows_end(s: Seq<u8>, at: int) -> bool {
    at < s.len() || (at == s.len() && s.len() > 0 && s.last() == NEWLINE)
}

/// A step that leads to `at` leads there in `u` too, if what `u` has in common shows that.
spec fn local(before: int, s: Seq<u8>, in_t: Step, in_u: Step) -> bool {
    target(in_t) matches Some(at) ==> before <= at && (shows_end(s, at) ==> in_u == in_t)
}

proof fn lemma_skip_local(s: Seq<u8>, t: Seq<u8>, u: Seq<u8>, i: int, k: Class)
    requires
        extends(t, s),
        extends(u, s),
        0 <= i,
        skip(t, i, k) < s.len(),
    ensures
        skip(u, i, k) == skip(t, i, k),
    decreases s.len() - i,
{
    if i < s.len() {
        assert(t[i] == s[i]);
        assert(u[i] == s[i]);
        if k.has(t[i]) {
            lemma_skip_local(s, t, u, i + 1, k);
        }
    } else if i < t.len() {
        lemma_skip(t, i, k);
    }
}

proof fn lemma_next_line_local(s: Seq<u8>, t: Seq<u8>, u: Seq<u8>, i: int)
    requires
        extends(t, s),
        extends(u, s),
        0 <= i < s.len(),
        shows_end(s, next_line(t, i)),
    ensures
        skip(t, i, Class::Inline) < s.len(),
        skip(u, i, Class::Inline) == skip(t, i, Class::Inline),
        next_line(u, i) == next_line(t, i),
{
    lemma_skip(t, i, Class::Inline);
    if skip(t, i, Class::Inline) >= s.len() {
        let last = s.len() - 1;
        assert(t[last] == s[last]);
        assert(Class::Inline.has(t[last]));
    }
    lemma_skip_local(s, t, u, i, Class::Inline);
}

/// A literal is closed by its quote, which is not a newline.
proof fn lemma_literal_close(s: Seq<u8>, i: int, quote: u8, file: Seq<u8>, raw: Seq<u8>)
    requires
        0 <= i <= s.len(),
    ensures
        literal(s, i, quote, file, raw) matches Literal::Closed { end, .. } ==> i < end <= s.len()
            && s[end - 1] == quote && quote != NEWLINE,
    decreases s.len() - i,
{
    if i < s.len() {
        if i + 1 < s.len() {
            lemma_literal_close(
                s,
                i + 2,
                quote,
                file.push(unescape(s[i + 1])),
                raw.push(BACKSLASH).push(BACKSLASH),
            );
        }
        lemma_literal_close(s, i + 1, quote, file.push(s[i]), raw.push(s[i]));
    }
}

proof fn lemma_literal_local(
    s: Seq<u8>,
    t: Seq<u8>,
    u: Seq<u8>,
    i: int,
    quote: u8,
    file: Seq<u8>,
    raw: Seq<u8>,
)
    requires
        extends(t, s),
        extends(u, s),
        0 <= i <= t.len(),
    ensures
        literal(t, i, quote, file, raw) matches Literal::Closed { end, .. } ==> (end < s.len()
            ==> literal(u, i, quote, file, raw) == literal(t, i, quote, file, raw)),
    decreases t.len() - i,
{
    lemma_literal_end(t, i, quote, file, raw);
    if i + 1 < s.len() {
        assert(t[i] == s[i]);
        assert(u[i] == s[i]);
        assert(t[i + 1] == s[i + 1]);
        assert(u[i + 1] == s[i + 1]);
        lemma_literal_local(
            s,
            t,
            u,
            i + 2,
            quote,
            file.push(unescape(s[i + 1])),
            raw.push(BACKSLASH).push(BACKSLASH),
        );
        lemma_literal_local(s, t, u, i + 1, quote, file.push(s[i]), raw.push(s[i]));
    }
}

proof fn lemma_line_path_local(
    rules: Rules,
    progress: Progress,
    s: Seq<u8>,
    t: Seq<u8>,
    u: Seq<u8>,
    number: Seq<u8>,
    i: int,
)
    requires
        extends(t, s),
        extends(u, s),
        0 <= i <= t.len(),
    ensures
        local(
            i + 1,
            s,
            line_path(rules, progress, t, number, i),
            line_path(rules, progress, u, number, i),
        ),
{
    reveal(line_path);
    reveal(line_tail);
    let m = s.len() as int;
    let empty = Seq::<u8>::empty();
    lemma_skip(t, i, Class::Blank);
    let q = skip(t, i, Class::Blank);
    if q < t.len() {
        lemma_literal_close(t, q + 1, t[q], empty, seq![t[q]]);
        lemma_literal_local(s, t, u, q + 1, t[q], empty, seq![t[q]]);
        match literal(t, q + 1, t[q], empty, seq![t[q]]) {
            Literal::Closed { file, raw, end } => {
                lemma_next_line(t, end);
                lemma_skip(t, end, Class::Inline);
                if shows_end(s, next_line(t, end)) {
                    if end >= m {
                        assert(t[m - 1] == s[m - 1]);
                    }
                    lemma_next_line_local(s, t, u, end);
                    lemma_skip_local(s, t, u, i, Class::Blank);
                    assert(t[q] == s[q] && u[q] == s[q]);
                    let n = skip(t, end, Class::Inline);
                    assert(t[n - 1] == s[n - 1] && u[n - 1] == s[n - 1]);
                    assert(line_ending(u, n) == line_ending(t, n));
                }
            },
            Literal::Broken(_) => {},
        }
    }
}

proof fn lemma_subrange_local(s: Seq<u8>, t: Seq<u8>, u: Seq<u8>, a: int, b: int)
    requires
        extends(t, s),
        extends(u, s),
        0 <= a <= b <= s.len(),
    ensures
        t.subrange(a, b) == u.subrange(a, b),
{
    assert forall|j: int| a <= j < b implies t[j] == #[trigger] u[j] by {
        assert(t[j] == s[j]);
    }
    assert(t.subrange(a, b) =~= u.subrange(a, b));
}

proof fn lemma_pragma_local(
    rules: Rules,
    progress: Progress,
    s: Seq<u8>,
    t: Seq<u8>,
    u: Seq<u8>,
    i: int,
)
    requires
        extends(t, s),
        extends(u, s),
        1 <= i <= t.len(),
        t[i - 1] != NEWLINE,
    ensures
        local(
            i,
            s,
            pragma_name(rules, progress, t, i),
            pragma_name(rules, progress, u, i),
        ),
{
    let m = s.len() as int;
    lemma_skip(t, i, Class::Word);
    let n = skip(t, i, Class::Word);
    lemma_next_line(t, n);
    if i < n {
        assert(Class::Word.has(t[n - 1]));
    }
    if n < m {
        lemma_skip_local(s, t, u, i, Class::Word);
        lemma_subrange_local(s, t, u, i, n);
        if shows_end(s, next_line(t, n)) {
            lemma_next_line_local(s, t, u, n);
        }
    } else if n == m {
        assert(t[m - 1] == s[m - 1]);
    }
}

proof fn lemma_line_local(
    rules: Rules,
    progress: Progress,
    s: Seq<u8>,
    t: Seq<u8>,
    u: Seq<u8>,
    i: int,
)
    requires
        extends(t, s),
        extends(u, s),
        0 <= i <= t.len(),
    ensures
        local(
            i + 1,
            s,
            line(rules, progress, t, i),
            line(rules, progress, u, i),
        ),
{
    reveal(directive_name);
    let m = s.len() as int;
    lemma_skip(t, i, Class::Gap);
    let h = skip(t, i, Class::Gap);
    if h < t.len() {
        lemma_next_line(t, h);
        lemma_skip(t, h + 1, Class::Blank);
        let b = skip(t, h + 1, Class::Blank);
        lemma_skip(t, b, Class::Word);
        let n = skip(t, b, Class::Word);
        lemma_next_line(t, n);
        lemma_skip(t, n, Class::Blank);
        let c = skip(t, n, Class::Blank);
        assert(t[b - 1] != NEWLINE) by {
            if h + 1 < b {
                assert(Class::Blank.has(t[b - 1]));
            }
        }
        assert(t[n - 1] != NEWLINE) by {
            if b < n {
                assert(Class::Word.has(t[n - 1]));
            }
        }
        assert(t[c - 1] != NEWLINE) by {
            if n < c {
                assert(Class::Blank.has(t[c - 1]));
            }
        }
        if n == m || c == m {
            assert(t[m - 1] == s[m - 1]);
        }
        lemma_pragma_local(rules, progress, s, t, u, c);
        lemma_skip(t, c, Class::Word);
        let e = skip(t, c, Class::Word);
        lemma_line_path_local(rules, progress, s, t, u, t.subrange(c, e), e);
        if h < m {
            lemma_skip_local(s, t, u, i, Class::Gap);
            assert(t[h] == s[h] && u[h] == s[h]);
            if shows_end(s, next_line(t, h)) {
                lemma_next_line_local(s, t, u, h);
            }
        }
        if b < m {
            lemma_skip_local(s, t, u, h + 1, Class::Blank);
        }
        if n < m {
            lemma_skip_local(s, t, u, b, Class::Word);
            lemma_subrange_local(s, t, u, b, n);
            if shows_end(s, next_line(t, n)) {
                lemma_next_line_local(s, t, u, n);
            }
        }
        if c < m {
            lemma_skip_local(s, t, u, n, Class::Blank);
        }
        if e < m {
            lemma_skip_local(s, t, u, c, Class::Word);
            lemma_subrange_local(s, t, u, c, e);
        }
    }
}

proof fn lemma_scan_local(
    rules: Rules,
    progress: Progress,
    s: Seq<u8>,
    t: Seq<u8>,
    u: Seq<u8>,
    i: int,
)
    requires
        extends(t, s),
        extends(u, s),
        0 <= i <= t.len(),
    ensures
        scan(rules, progress, t, i) matches Outcome::Split { at, .. } ==> i < at && (shows_end(
            s,
            at,
        ) ==> scan(rules, progress, u, i) == scan(rules, progress, t, i)),
    decreases t.len() - i,
{
    lemma_scan(rules, progress, t, i);
    lemma_line_local(rules, progress, s, t, u, i);
    lemma_line_leads_on(rules, progress, t, i);
    match line(rules, progress, t, i) {
        Step::Next { progress: next, at } => {
            lemma_scan_local(rules, next, s, t, u, at);
            if at < s.len() {
                lemma_scan(rules, progress, u, i);
            }
        },
        Step::Stop(_) => {
            if i <= u.len() {
                lemma_scan(rules, progress, u, i);
            }
        },
    }
}

/// A cut depends on nothing that comes after the byte behind it, and not on that byte if it comes
/// at the end of a line: a text that was cut in front of its end, or at its end behind a newline,
/// is cut there whatever follows.
pub proof fn law_cut_is_final(rules: Rules, s: Seq<u8>, t: Seq<u8>)
    requires
        extends(t, s),
        outcome(rules, t) matches Outcome::Split { at, .. } && (at < s.len() || (at == s.len()
            && s.len() > 0 && s.last() == NEWLINE)),
    ensures
        settled(rules, s),
        outcome(rules, s) == outcome(rules, t),
{
    let at = outcome(rules, t)->at;
    assert forall|u: Seq<u8>| #[trigger] extends(u, s) implies outcome(rules, u) == outcome(
        rules,
        t,
    ) by {
        lemma_scan_local(rules, nothing(), s, t, u, bom_len(t));
        if s.len() >= 1 {
            assert(t[0] == s[0] && u[0] == s[0]);
        }
        if s.len() >= 2 {
            assert(t[1] == s[1] && u[1] == s[1]);
        }
        if s.len() >= 3 {
            assert(t[2] == s[2] && u[2] == s[2]);
        }
        assert(bom_len(t) < s.len());
        assert(bom_len(u) == bom_len(t));
    }
    assert(extends(s, s));
}

/// What has been written is not taken back: what is written of a text starts with what was
/// written when less of it had been read.
pub proof fn law_written_grows(rules: Rules, s: Seq<u8>, t: Seq<u8>)
    requires
        extends(t, s),
    ensures
        written(rules, s).len() <= written(rules, t).len(),
        written(rules, t).take(written(rules, s).len() as int) == written(rules, s),
{
    let before = written(rules, s);
    let later = written(rules, t);
    law_cut_in_text(rules, s);
    law_cut_in_text(rules, t);
    if settled(rules, s) {
        law_settled_stays(rules, s, t);
    } else if outcome(rules, t) is Split && outcome(rules, t)->at < s.len() {
        law_cut_is_final(rules, s, t);
    }
    assert(s.len() <= t.len());
    assert forall|j: int| 0 <= j < s.len() implies #[trigger] t[j] == s[j] by {}
    assert(later.take(before.len() as int) =~= before);
}

/// What is written when a text ends starts with what had been written before.
pub proof fn law_written_starts_output(rules: Rules, s: Seq<u8>, at: int, mark: Seq<u8>)
    requires
        outcome(rules, s) == (Outcome::Split { at, mark }),
    ensures
        ({
            let out = cut(rules.keep, s, at, mark);
            let before = written(rules, s);
            &&& before.len() <= out.len()
            &&& out.take(before.len() as int) == before
        }),
{
    let out = cut(rules.keep, s, at, mark);
    let before = written(rules, s);
    law_cut_in_text(rules, s);
    if !settled(rules, s) && at < s.len() {
        assert(extends(s, s));
        law_cut_is_final(rules, s, s);
    }
    assert(out.take(before.len() as int) =~= before);
}

/// Whether every escape sequence in the path literal that is read on from `i` is a doubled
/// backslash.
pub open spec fn doubled_escapes(s: Seq<u8>, i: int, quote: u8) -> bool
    decreases s.len() - i,
{
    if i < 0 || i >= s.len() || s[i] == NEWLINE || s[i] == CARRIAGE_RETURN {
        true
    } else if s[i] == BACKSLASH {
        i + 1 < s.len() && s[i + 1] == BACKSLASH && doubled_escapes(s, i + 2, quote)
    } else if s[i] == quote {
        true
    } else {
        doubled_escapes(s, i + 1, quote)
    }
}

proof fn lemma_raw_is_source(
    s: Seq<u8>,
    q: int,
    i: int,
    quote: u8,
    file: Seq<u8>,
    raw: Seq<u8>,
)
    requires
        0 <= q <= i <= s.len(),
        raw == s.subrange(q, i),
        doubled_escapes(s, i, quote),
    ensures
        literal(s, i, quote, file, raw) matches Literal::Closed { raw: r, end, .. } ==> i < end
            <= s.len() && r == s.subrange(q, end),
    decreases s.len() - i,
{
    if i < s.len() && s[i] != NEWLINE && s[i] != CARRIAGE_RETURN {
        if s[i] == BACKSLASH {
            let longer = raw.push(BACKSLASH).push(BACKSLASH);
            assert(longer =~= s.subrange(q, i + 2));
            lemma_raw_is_source(s, q, i + 2, quote, file.push(unescape(s[i + 1])), longer);
        } else {
            assert(raw.push(s[i]) =~= s.subrange(q, i + 1));
            if s[i] != quote {
                lemma_raw_is_source(s, q, i + 1, quote, file.push(s[i]), raw.push(s[i]));
            }
        }
    }
}

/// A literal that is closed at `end` reads the same wherever its bytes stand.
proof fn lemma_literal_copied(
    s: Seq<u8>,
    t: Seq<u8>,
    q: int,
    i: int,
    quote: u8,
    file: Seq<u8>,
    raw: Seq<u8>,
    end: int,
)
    requires
        0 <= q <= i <= s.len(),
        literal(s, i, quote, file, raw) matches Literal::Closed { end: e, .. } && e == end,
        end <= s.len(),
        end - q <= t.len(),
        forall|j: int| 0 <= j < end - q ==> #[trigger] t[j] == s[q + j],
    ensures
        literal(t, i - q, quote, file, raw) == moved_literal(
            literal(s, i, quote, file, raw),
            -q,
        ),
    decreases s.len() - i,
{
    lemma_literal_end(s, i, quote, file, raw);
    assert(t[i - q] == s[i]);
    if s[i] == BACKSLASH {
        let next = file.push(unescape(s[i + 1]));
        let longer = raw.push(BACKSLASH).push(BACKSLASH);
        lemma_literal_end(s, i + 2, quote, next, longer);
        assert(t[i + 1 - q] == s[q + (i + 1 - q)]);
        lemma_literal_copied(s, t, q, i + 2, quote, next, longer, end);
    } else if s[i] != quote {
        lemma_literal_copied(s, t, q, i + 1, quote, file.push(s[i]), raw.push(s[i]), end);
    }
}

/// What is repeated of a path whose escape sequences are all doubled backslashes is its source,
/// byte for byte, and reads back, whatever follows it: as a path that stands for the same file
/// and is repeated in the same way.
pub proof fn law_raw_reads_back(
    s: Seq<u8>,
    q: int,
    file: Seq<u8>,
    raw: Seq<u8>,
    end: int,
    rest: Seq<u8>,
)
    requires
        0 <= q < s.len(),
        literal(s, q + 1, s[q], Seq::empty(), seq![s[q]]) == (Literal::Closed { file, raw, end }),
        doubled_escapes(s, q + 1, s[q]),
    ensures
        raw == s.subrange(q, end),
        (raw + rest)[0] == s[q],
        literal(raw + rest, 1, s[q], Seq::empty(), seq![s[q]]) == (Literal::Closed {
            file,
            raw,
            end: raw.len() as int,
        }),
{
    let empty = Seq::<u8>::empty();
    assert(seq![s[q]] =~= s.subrange(q, q + 1));
    lemma_raw_is_source(s, q, q + 1, s[q], empty, seq![s[q]]);
    lemma_literal_copied(s, raw + rest, q, q + 1, s[q], empty, seq![s[q]], end);
}

/// What is known of the files that were named, once so many lines have been read from `i` on.
pub open spec fn progress_after(
    rules: Rules,
    progress: Progress,
    s: Seq<u8>,
    i: int,
    lines: nat,
) -> Progress
    decreases lines,
{
    if lines == 0 {
        progress
    } else {
        match line(rules, progress, s, i) {
            Step::Next { progress: next, at } => progress_after(
                rules,
                next,
                s,
                at,
                (lines - 1) as nat,
            ),
            Step::Stop(_) => progress,
        }
    }
}

/// A line that leads on leaves the entry file as it is once there is one, and a header that was
/// found stays found. The line that names the entry file finds no header, and none finds one
/// without a marker.
pub proof fn law_line_keeps_entry(rules: Rules, progress: Progress, s: Seq<u8>, i: int)
    ensures
        line(rules, progress, s, i) matches Step::Next { progress: next, .. } ==> {
            &&& progress.entry is Some ==> next.entry == progress.entry
            &&& progress.found ==> next.found
            &&& progress.entry is None || rules.marker is None ==> next.found == progress.found
        },
{
    reveal(directive_name);
    reveal(line_path);
    reveal(line_tail);
}

/// The first `#line` fixes the entry file: however many lines follow, no other replaces it. A
/// header that was found stays found.
pub proof fn law_entry_file_fixed(
    rules: Rules,
    progress: Progress,
    s: Seq<u8>,
    i: int,
    lines: nat,
    file: Seq<u8>,
)
    requires
        progress.entry == Some(file),
    ensures
        progress_after(rules, progress, s, i, lines).entry == Some(file),
        progress.found ==> progress_after(rules, progress, s, i, lines).found,
    decreases lines,
{
    if lines > 0 {
        law_line_keeps_entry(rules, progress, s, i);
        match line(rules, progress, s, i) {
            Step::Next { progress: next, at } => {
                law_entry_file_fixed(rules, next, s, at, (lines - 1) as nat, file);
            },
            Step::Stop(_) => {},
        }
    }
}

} // verus!
