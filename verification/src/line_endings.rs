//! Line endings make no difference to the filter: a text with the line endings of Windows is
//! filtered as the same text with plain newlines is.

use vstd::prelude::*;
use crate::bytes::{Class, BACKSLASH, CARRIAGE_RETURN, HASH, NEWLINE};
use crate::bytes::{ascii, lemma_skip, skip};
use crate::grammar::{Literal, Outcome, Progress, Rules, Step};
use crate::grammar::{
    bom_len, cut, directive_name, line, line_ending, line_mark, line_path, line_tail, literal,
    next_line, pragma_name, scan, unescape, outcome,
};
use crate::grammar::{lemma_line_leads_on, lemma_literal_end, lemma_scan};
use crate::laws::law_cut_in_text;

verus! {

/// A text with a carriage return put in front of every newline.
pub open spec fn with_crlf(s: Seq<u8>) -> Seq<u8>
    decreases s.len(),
{
    if s.len() == 0 {
        Seq::empty()
    } else if s.last() == NEWLINE {
        with_crlf(s.drop_last()).push(CARRIAGE_RETURN).push(NEWLINE)
    } else {
        with_crlf(s.drop_last()).push(s.last())
    }
}

/// Where the byte at `i` of a text comes to stand.
pub open spec fn crlf_pos(s: Seq<u8>, i: int) -> int {
    with_crlf(s.take(i)).len() as int
}

/// Whether a path literal that is read on from `i` runs over the end of a line, by an escape
/// sequence that is made of a backslash and a newline.
pub open spec fn literal_crosses(s: Seq<u8>, i: int, quote: u8) -> bool
    decreases s.len() - i,
{
    if i < 0 || i >= s.len() || s[i] == NEWLINE || s[i] == CARRIAGE_RETURN {
        false
    } else if s[i] == BACKSLASH {
        i + 1 < s.len() && (s[i + 1] == NEWLINE || literal_crosses(s, i + 2, quote))
    } else if s[i] == quote {
        false
    } else {
        literal_crosses(s, i + 1, quote)
    }
}

/// Whether the line that `i` is at the start of is a `#line` whose path runs over its end.
pub open spec fn line_crosses(s: Seq<u8>, i: int) -> bool {
    let h = skip(s, i, Class::Gap);
    let b = skip(s, h + 1, Class::Blank);
    let n = skip(s, b, Class::Word);
    let c = skip(s, n, Class::Blank);
    let q = skip(s, skip(s, c, Class::Word), Class::Blank);
    &&& h < s.len() && s[h] == HASH
    &&& n < s.len() && s.subrange(b, n) == ascii("line"@)
    &&& q < s.len() && literal_crosses(s, q + 1, s[q])
}

/// Whether one of the lines that are read from `i` on is a `#line` whose path runs over its end.
pub open spec fn crosses(rules: Rules, progress: Progress, s: Seq<u8>, i: int) -> bool
    decreases s.len() - i,
    when 0 <= i <= s.len()
{
    proof {
        lemma_line_leads_on(rules, progress, s, i);
    }
    line_crosses(s, i) || match line(rules, progress, s, i) {
        Step::Next { progress: next, at } => crosses(rules, next, s, at),
        Step::Stop(_) => false,
    }
}

/// The line endings of a text can be changed piece by piece.
pub proof fn lemma_with_crlf_add(a: Seq<u8>, b: Seq<u8>)
    ensures
        with_crlf(a + b) == with_crlf(a) + with_crlf(b),
    decreases b.len(),
{
    if b.len() == 0 {
        assert(a + b =~= a);
        assert(with_crlf(a) + with_crlf(b) =~= with_crlf(a));
    } else {
        assert((a + b).drop_last() =~= a + b.drop_last());
        assert((a + b).last() == b.last());
        lemma_with_crlf_add(a, b.drop_last());
        assert(with_crlf(a + b) =~= with_crlf(a) + with_crlf(b));
    }
}

/// A text without newlines stays as it is.
proof fn lemma_with_crlf_same(s: Seq<u8>)
    requires
        forall|j: int| 0 <= j < s.len() ==> #[trigger] s[j] != NEWLINE,
    ensures
        with_crlf(s) == s,
    decreases s.len(),
{
    if s.len() > 0 {
        lemma_with_crlf_same(s.drop_last());
        assert(s.drop_last().push(s.last()) =~= s);
    }
}

proof fn lemma_pos(s: Seq<u8>, i: int)
    requires
        0 <= i <= s.len(),
    ensures
        0 <= crlf_pos(s, i) <= with_crlf(s).len(),
        i == 0 ==> crlf_pos(s, i) == 0,
        i == s.len() ==> crlf_pos(s, i) == with_crlf(s).len(),
        i < s.len() ==> crlf_pos(s, i) < with_crlf(s).len(),
        i < s.len() && s[i] != NEWLINE ==> {
            &&& with_crlf(s)[crlf_pos(s, i)] == s[i]
            &&& crlf_pos(s, i + 1) == crlf_pos(s, i) + 1
        },
        i < s.len() && s[i] == NEWLINE ==> {
            &&& with_crlf(s)[crlf_pos(s, i)] == CARRIAGE_RETURN
            &&& with_crlf(s)[crlf_pos(s, i) + 1] == NEWLINE
            &&& crlf_pos(s, i) + 1 < with_crlf(s).len()
            &&& crlf_pos(s, i + 1) == crlf_pos(s, i) + 2
        },
{
    assert(s.take(i) + s.skip(i) =~= s);
    lemma_with_crlf_add(s.take(i), s.skip(i));
    if i == 0 {
        assert(s.take(i) =~= Seq::empty());
    }
    if i == s.len() {
        assert(s.take(i) =~= s);
    }
    if i < s.len() {
        assert(s.take(i + 1).drop_last() =~= s.take(i));
        assert(s.take(i + 1) + s.skip(i + 1) =~= s);
        lemma_with_crlf_add(s.take(i + 1), s.skip(i + 1));
        assert(s.take(i + 1).last() == s[i]);
    }
}

proof fn lemma_skip_crlf(s: Seq<u8>, i: int, k: Class)
    requires
        0 <= i <= s.len(),
        k != Class::Inline,
    ensures
        skip(with_crlf(s), crlf_pos(s, i), k) == crlf_pos(s, skip(s, i, k)),
    decreases s.len() - i,
{
    lemma_pos(s, i);
    if i < s.len() && k.has(s[i]) {
        lemma_skip_crlf(s, i + 1, k);
        if s[i] == NEWLINE {
            let y = with_crlf(s);
            let p = crlf_pos(s, i);
            assert(skip(y, p, k) == skip(y, p + 1, k));
            assert(skip(y, p + 1, k) == skip(y, p + 2, k));
        }
    }
}

proof fn lemma_skip_inline_crlf(s: Seq<u8>, i: int)
    requires
        0 <= i <= s.len(),
    ensures
        ({
            let n = skip(s, i, Class::Inline);
            skip(with_crlf(s), crlf_pos(s, i), Class::Inline) == if n < s.len() {
                crlf_pos(s, n) + 1
            } else {
                crlf_pos(s, n)
            }
        }),
        next_line(with_crlf(s), crlf_pos(s, i)) == crlf_pos(s, next_line(s, i)),
    decreases s.len() - i,
{
    lemma_pos(s, i);
    if i < s.len() {
        if s[i] == NEWLINE {
            let y = with_crlf(s);
            let p = crlf_pos(s, i);
            assert(skip(y, p, Class::Inline) == skip(y, p + 1, Class::Inline));
            assert(skip(y, p + 1, Class::Inline) == p + 1);
        } else {
            lemma_skip_inline_crlf(s, i + 1);
        }
    }
}

/// A stretch of a text without newlines stands as it is in the text with changed line endings.
proof fn lemma_subrange_crlf(s: Seq<u8>, a: int, b: int)
    requires
        0 <= a <= b <= s.len(),
        forall|j: int| a <= j < b ==> #[trigger] s[j] != NEWLINE,
    ensures
        crlf_pos(s, b) == crlf_pos(s, a) + (b - a),
        with_crlf(s).subrange(crlf_pos(s, a), crlf_pos(s, b)) == s.subrange(a, b),
    decreases b - a,
{
    let y = with_crlf(s);
    lemma_pos(s, a);
    lemma_pos(s, b);
    if a < b {
        lemma_pos(s, b - 1);
        lemma_subrange_crlf(s, a, b - 1);
        assert(s[b - 1] != NEWLINE);
        let short = y.subrange(crlf_pos(s, a), crlf_pos(s, b - 1));
        assert(y.subrange(crlf_pos(s, a), crlf_pos(s, b)) =~= short.push(s[b - 1]));
        assert(s.subrange(a, b) =~= s.subrange(a, b - 1).push(s[b - 1]));
    } else {
        assert(y.subrange(crlf_pos(s, a), crlf_pos(s, b)) =~= s.subrange(a, b));
    }
}

proof fn lemma_literal_crlf(s: Seq<u8>, i: int, quote: u8, file: Seq<u8>, raw: Seq<u8>)
    requires
        0 <= i <= s.len(),
        quote != NEWLINE,
        !literal_crosses(s, i, quote),
    ensures
        literal(with_crlf(s), crlf_pos(s, i), quote, file, raw) == match literal(
            s,
            i,
            quote,
            file,
            raw,
        ) {
            Literal::Closed { file: f, raw: r, end } => Literal::Closed {
                file: f,
                raw: r,
                end: crlf_pos(s, end),
            },
            Literal::Broken(e) => Literal::Broken(e),
        },
    decreases s.len() - i,
{
    lemma_pos(s, i);
    if i < s.len() && s[i] != NEWLINE && s[i] != CARRIAGE_RETURN {
        lemma_pos(s, i + 1);
        if s[i] == BACKSLASH {
            if i + 1 < s.len() {
                lemma_literal_crlf(
                    s,
                    i + 2,
                    quote,
                    file.push(unescape(s[i + 1])),
                    raw.push(BACKSLASH).push(BACKSLASH),
                );
            }
        } else if s[i] != quote {
            lemma_literal_crlf(s, i + 1, quote, file.push(s[i]), raw.push(s[i]));
        }
    }
}

/// A literal is not closed by a newline, and no newline is in what is repeated of it.
proof fn lemma_literal_raw(s: Seq<u8>, i: int, quote: u8, file: Seq<u8>, raw: Seq<u8>)
    requires
        0 <= i <= s.len(),
        quote != NEWLINE ==> forall|j: int| 0 <= j < raw.len() ==> #[trigger] raw[j] != NEWLINE,
    ensures
        literal(s, i, quote, file, raw) matches Literal::Closed { raw: r, .. } ==> quote != NEWLINE
            && forall|j: int| 0 <= j < r.len() ==> #[trigger] r[j] != NEWLINE,
    decreases s.len() - i,
{
    if i < s.len() && s[i] != NEWLINE && s[i] != CARRIAGE_RETURN {
        if s[i] == BACKSLASH {
            if i + 1 < s.len() {
                lemma_literal_raw(
                    s,
                    i + 2,
                    quote,
                    file.push(unescape(s[i + 1])),
                    raw.push(BACKSLASH).push(BACKSLASH),
                );
            }
        } else if s[i] != quote {
            lemma_literal_raw(s, i + 1, quote, file.push(s[i]), raw.push(s[i]));
        }
    }
}

/// What becomes of an outcome when the line endings of a text are changed. A mark with a carriage
/// return is one that copies a line ending which has one already.
pub open spec fn same_outcome(s: Seq<u8>, before: Outcome, changed: Outcome) -> bool {
    match before {
        Outcome::Split { at, mark } => mark.contains(CARRIAGE_RETURN) || changed == (
        Outcome::Split { at: crlf_pos(s, at), mark: with_crlf(mark) }),
        Outcome::Fail(_) => changed is Fail,
        _ => changed == before,
    }
}

spec fn same_step(s: Seq<u8>, before: Step, changed: Step) -> bool {
    match (before, changed) {
        (
            Step::Next { progress: p1, at: a1 },
            Step::Next { progress: p2, at: a2 },
        ) => p1 == p2 && a2 == crlf_pos(s, a1),
        (Step::Stop(v), Step::Stop(w)) => same_outcome(s, v, w),
        _ => false,
    }
}

proof fn lemma_mark_crlf(number: Seq<u8>, raw: Seq<u8>, eol: Seq<u8>)
    requires
        forall|j: int| 0 <= j < number.len() ==> #[trigger] number[j] != NEWLINE,
        forall|j: int| 0 <= j < raw.len() ==> #[trigger] raw[j] != NEWLINE,
    ensures
        with_crlf(line_mark(number, raw, eol)) == line_mark(number, raw, with_crlf(eol)),
{
    reveal_strlit("#pragma hdrstop");
    reveal_strlit("#line ");
    reveal_strlit(" ");
    let a = ascii("#pragma hdrstop"@);
    let b = ascii("#line "@);
    let c = ascii(" "@);
    lemma_with_crlf_same(a);
    lemma_with_crlf_same(b);
    lemma_with_crlf_same(c);
    lemma_with_crlf_same(number);
    lemma_with_crlf_same(raw);
    lemma_with_crlf_add(a, eol);
    lemma_with_crlf_add(a + eol, b);
    lemma_with_crlf_add(a + eol + b, number);
    lemma_with_crlf_add(a + eol + b + number, c);
    lemma_with_crlf_add(a + eol + b + number + c, raw);
    lemma_with_crlf_add(a + eol + b + number + c + raw, eol);
}

proof fn lemma_line_tail_crlf(
    rules: Rules,
    progress: Progress,
    s: Seq<u8>,
    number: Seq<u8>,
    file: Seq<u8>,
    raw: Seq<u8>,
    end: int,
)
    requires
        1 <= end <= s.len(),
        forall|j: int| 0 <= j < number.len() ==> #[trigger] number[j] != NEWLINE,
        forall|j: int| 0 <= j < raw.len() ==> #[trigger] raw[j] != NEWLINE,
    ensures
        same_step(
            s,
            line_tail(rules, progress, s, number, file, raw, end),
            line_tail(rules, progress, with_crlf(s), number, file, raw, crlf_pos(s, end)),
        ),
{
    reveal(line_tail);
    let y = with_crlf(s);
    let n = skip(s, end, Class::Inline);
    lemma_skip(s, end, Class::Inline);
    lemma_skip_inline_crlf(s, end);
    lemma_pos(s, n);
    let eol = line_ending(s, n);
    let m = skip(y, crlf_pos(s, end), Class::Inline);
    if n < s.len() {
        if s[n - 1] == CARRIAGE_RETURN {
            let mark = line_mark(number, raw, eol);
            let head = ascii("#pragma hdrstop"@);
            assert(mark[head.len() as int] == eol[0]);
        } else {
            reveal_with_fuel(with_crlf, 2);
            assert(eol.drop_last() =~= Seq::empty());
            assert(with_crlf(eol) =~= seq![CARRIAGE_RETURN, NEWLINE]);
            assert(line_ending(y, m) =~= with_crlf(eol));
        }
    } else {
        assert(line_ending(y, m) =~= with_crlf(eol));
    }
    lemma_mark_crlf(number, raw, eol);
}

proof fn lemma_line_path_crlf(
    rules: Rules,
    progress: Progress,
    s: Seq<u8>,
    number: Seq<u8>,
    i: int,
)
    requires
        0 <= i <= s.len(),
        forall|j: int| 0 <= j < number.len() ==> #[trigger] number[j] != NEWLINE,
        ({
            let q = skip(s, i, Class::Blank);
            q < s.len() ==> !literal_crosses(s, q + 1, s[q])
        }),
    ensures
        same_step(
            s,
            line_path(rules, progress, s, number, i),
            line_path(rules, progress, with_crlf(s), number, crlf_pos(s, i)),
        ),
{
    reveal(line_path);
    let y = with_crlf(s);
    let empty = Seq::<u8>::empty();
    lemma_skip(s, i, Class::Blank);
    lemma_skip_crlf(s, i, Class::Blank);
    let q = skip(s, i, Class::Blank);
    lemma_pos(s, q);
    if q < s.len() {
        lemma_literal_end(s, q + 1, s[q], empty, seq![s[q]]);
        lemma_literal_raw(s, q + 1, s[q], empty, seq![s[q]]);
        if s[q] == NEWLINE {
            let p = crlf_pos(s, q);
            assert(literal(y, p + 1, CARRIAGE_RETURN, empty, seq![CARRIAGE_RETURN]) is Broken);
        } else {
            lemma_literal_crlf(s, q + 1, s[q], empty, seq![s[q]]);
            match literal(s, q + 1, s[q], empty, seq![s[q]]) {
                Literal::Closed { file, raw, end } => {
                    lemma_line_tail_crlf(rules, progress, s, number, file, raw, end);
                },
                Literal::Broken(_) => {},
            }
        }
    }
}

proof fn lemma_pragma_crlf(rules: Rules, progress: Progress, s: Seq<u8>, i: int)
    requires
        0 <= i <= s.len(),
    ensures
        same_step(
            s,
            pragma_name(rules, progress, s, i),
            pragma_name(rules, progress, with_crlf(s), crlf_pos(s, i)),
        ),
{
    lemma_skip(s, i, Class::Word);
    lemma_skip_crlf(s, i, Class::Word);
    let n = skip(s, i, Class::Word);
    lemma_pos(s, n);
    assert forall|j: int| i <= j < n implies #[trigger] s[j] != NEWLINE by {
        assert(Class::Word.has(s[j]));
    }
    lemma_subrange_crlf(s, i, n);
    lemma_skip_inline_crlf(s, n);
    reveal_strlit("#pragma hdrstop");
    lemma_with_crlf_same(ascii("#pragma hdrstop"@));
    lemma_with_crlf_same(Seq::empty());
}

proof fn lemma_line_crlf(rules: Rules, progress: Progress, s: Seq<u8>, i: int)
    requires
        0 <= i <= s.len(),
        !line_crosses(s, i),
    ensures
        same_step(
            s,
            line(rules, progress, s, i),
            line(rules, progress, with_crlf(s), crlf_pos(s, i)),
        ),
{
    reveal(directive_name);
    lemma_skip(s, i, Class::Gap);
    lemma_skip_crlf(s, i, Class::Gap);
    let h = skip(s, i, Class::Gap);
    lemma_pos(s, h);
    if h < s.len() {
        lemma_skip_inline_crlf(s, h);
        lemma_skip(s, h + 1, Class::Blank);
        lemma_skip_crlf(s, h + 1, Class::Blank);
        let b = skip(s, h + 1, Class::Blank);
        lemma_skip(s, b, Class::Word);
        lemma_skip_crlf(s, b, Class::Word);
        let n = skip(s, b, Class::Word);
        lemma_pos(s, n);
        assert forall|j: int| b <= j < n implies #[trigger] s[j] != NEWLINE by {
            assert(Class::Word.has(s[j]));
        }
        lemma_subrange_crlf(s, b, n);
        lemma_skip_inline_crlf(s, n);
        lemma_skip(s, n, Class::Blank);
        lemma_skip_crlf(s, n, Class::Blank);
        let c = skip(s, n, Class::Blank);
        lemma_pragma_crlf(rules, progress, s, c);
        lemma_skip(s, c, Class::Word);
        lemma_skip_crlf(s, c, Class::Word);
        let e = skip(s, c, Class::Word);
        assert forall|j: int| c <= j < e implies #[trigger] s[j] != NEWLINE by {
            assert(Class::Word.has(s[j]));
        }
        lemma_subrange_crlf(s, c, e);
        if s[h] == HASH && n < s.len() && s.subrange(b, n) == ascii("line"@) {
            lemma_line_path_crlf(rules, progress, s, s.subrange(c, e), e);
        }
    }
}

proof fn lemma_scan_crlf(rules: Rules, progress: Progress, s: Seq<u8>, i: int)
    requires
        0 <= i <= s.len(),
        !crosses(rules, progress, s, i),
    ensures
        same_outcome(
            s,
            scan(rules, progress, s, i),
            scan(rules, progress, with_crlf(s), crlf_pos(s, i)),
        ),
    decreases s.len() - i,
{
    lemma_pos(s, i);
    lemma_line_leads_on(rules, progress, s, i);
    lemma_scan(rules, progress, s, i);
    lemma_scan(rules, progress, with_crlf(s), crlf_pos(s, i));
    lemma_line_crlf(rules, progress, s, i);
    match line(rules, progress, s, i) {
        Step::Next { progress: next, at } => {
            lemma_scan_crlf(rules, next, s, at);
        },
        Step::Stop(_) => {},
    }
}

/// With a carriage return in front of its newlines, a path that runs over the end of a line is
/// broken.
proof fn lemma_literal_crosses(s: Seq<u8>, i: int, quote: u8, file: Seq<u8>, raw: Seq<u8>)
    requires
        0 <= i <= s.len(),
        quote != NEWLINE,
        literal_crosses(s, i, quote),
    ensures
        literal(with_crlf(s), crlf_pos(s, i), quote, file, raw) is Broken,
    decreases s.len() - i,
{
    let y = with_crlf(s);
    lemma_pos(s, i);
    lemma_pos(s, i + 1);
    if s[i] == BACKSLASH {
        let longer = raw.push(BACKSLASH).push(BACKSLASH);
        if s[i + 1] == NEWLINE {
            let p = crlf_pos(s, i);
            assert(literal(y, p + 2, quote, file.push(unescape(y[p + 1])), longer) is Broken);
        } else {
            lemma_literal_crosses(s, i + 2, quote, file.push(unescape(s[i + 1])), longer);
        }
    } else {
        lemma_literal_crosses(s, i + 1, quote, file.push(s[i]), raw.push(s[i]));
    }
}

proof fn lemma_line_crosses(rules: Rules, progress: Progress, s: Seq<u8>, i: int)
    requires
        0 <= i <= s.len(),
        line_crosses(s, i),
    ensures
        line(rules, progress, with_crlf(s), crlf_pos(s, i)) matches Step::Stop(Outcome::Fail(_)),
{
    reveal(directive_name);
    reveal(line_path);
    let y = with_crlf(s);
    let empty = Seq::<u8>::empty();
    lemma_skip(s, i, Class::Gap);
    lemma_skip_crlf(s, i, Class::Gap);
    let h = skip(s, i, Class::Gap);
    lemma_pos(s, h);
    lemma_skip(s, h + 1, Class::Blank);
    lemma_skip_crlf(s, h + 1, Class::Blank);
    let b = skip(s, h + 1, Class::Blank);
    lemma_skip(s, b, Class::Word);
    lemma_skip_crlf(s, b, Class::Word);
    let n = skip(s, b, Class::Word);
    lemma_pos(s, n);
    assert forall|j: int| b <= j < n implies #[trigger] s[j] != NEWLINE by {
        assert(Class::Word.has(s[j]));
    }
    lemma_subrange_crlf(s, b, n);
    reveal_strlit("line");
    lemma_skip(s, n, Class::Blank);
    lemma_skip_crlf(s, n, Class::Blank);
    let c = skip(s, n, Class::Blank);
    lemma_skip(s, c, Class::Word);
    lemma_skip_crlf(s, c, Class::Word);
    let e = skip(s, c, Class::Word);
    lemma_skip(s, e, Class::Blank);
    lemma_skip_crlf(s, e, Class::Blank);
    let q = skip(s, e, Class::Blank);
    lemma_pos(s, q);
    let p = crlf_pos(s, q);
    if s[q] == NEWLINE {
        assert(literal(y, p + 1, CARRIAGE_RETURN, empty, seq![CARRIAGE_RETURN]) is Broken);
    } else {
        lemma_literal_crosses(s, q + 1, s[q], empty, seq![s[q]]);
    }
    assert(literal(y, p + 1, y[p], empty, seq![y[p]]) is Broken);
}

proof fn lemma_scan_crosses(rules: Rules, progress: Progress, s: Seq<u8>, i: int)
    requires
        0 <= i <= s.len(),
        crosses(rules, progress, s, i),
    ensures
        scan(rules, progress, with_crlf(s), crlf_pos(s, i)) is Fail,
    decreases s.len() - i,
{
    lemma_pos(s, i);
    lemma_line_leads_on(rules, progress, s, i);
    lemma_scan(rules, progress, with_crlf(s), crlf_pos(s, i));
    if line_crosses(s, i) {
        lemma_line_crosses(rules, progress, s, i);
    } else {
        lemma_line_crlf(rules, progress, s, i);
        match line(rules, progress, s, i) {
            Step::Next { progress: next, at } => {
                lemma_scan_crosses(rules, next, s, at);
            },
            Step::Stop(_) => {},
        }
    }
}

/// A carriage return in front of every newline makes no difference to a text. It is cut at the
/// same place, with the same mark but for its line endings; or it is refused too, or ends in the
/// headers too. Only a text in which the path of a `#line` runs over the end of a line is refused
/// whatever became of it before; and a cut at a line that ends in a carriage return and a newline
/// already is left out.
pub proof fn law_line_endings(rules: Rules, s: Seq<u8>)
    ensures
        ({
            let refused = crosses(rules, Progress { entry: None, found: false }, s, bom_len(s));
            &&& refused ==> outcome(rules, with_crlf(s)) is Fail
            &&& !refused ==> same_outcome(s, outcome(rules, s), outcome(rules, with_crlf(s)))
        }),
{
    let y = with_crlf(s);
    let b = bom_len(s);
    let start = Progress { entry: None, found: false };
    lemma_pos(s, 0);
    if s.len() >= 1 {
        lemma_pos(s, 1);
    }
    if s.len() >= 2 {
        lemma_pos(s, 2);
    }
    if s.len() >= 3 {
        lemma_pos(s, 3);
    }
    assert(crlf_pos(s, b) == b);
    assert(bom_len(y) == b);
    if crosses(rules, start, s, b) {
        lemma_scan_crosses(rules, start, s, b);
    } else {
        lemma_scan_crlf(rules, start, s, b);
    }
}

/// What comes out for a text whose newlines get a carriage return in front of them is what comes
/// out for the text, with its newlines changed likewise.
pub proof fn law_line_endings_output(rules: Rules, s: Seq<u8>, at: int, mark: Seq<u8>)
    requires
        !crosses(rules, Progress { entry: None, found: false }, s, bom_len(s)),
        outcome(rules, s) == (Outcome::Split { at, mark }),
        !mark.contains(CARRIAGE_RETURN),
    ensures
        outcome(rules, with_crlf(s)) matches Outcome::Split { at: a, mark: m } && cut(
            rules.keep,
            with_crlf(s),
            a,
            m,
        ) == with_crlf(cut(rules.keep, s, at, mark)),
{
    law_line_endings(rules, s);
    law_cut_in_text(rules, s);
    let y = with_crlf(s);
    let head = s.take(at);
    let tail = s.skip(at);
    let a = crlf_pos(s, at);
    assert(head + tail =~= s);
    lemma_with_crlf_add(head, tail);
    assert(y.take(a) =~= with_crlf(head));
    assert(y.skip(a) =~= with_crlf(tail));
    let kept = if rules.keep {
        head
    } else {
        Seq::empty()
    };
    lemma_with_crlf_same(Seq::empty());
    lemma_with_crlf_add(kept, mark);
    lemma_with_crlf_add(kept + mark, tail);
    assert(cut(rules.keep, y, a, with_crlf(mark)) =~= with_crlf(kept) + with_crlf(mark)
        + with_crlf(tail));
}

} // verus!
