//! What the filter of preprocessed source decides, stated on whole texts.
//!
//! A text is read line by line. Two directives matter. `#pragma hdrstop` ends the headers where
//! it stands. `#line N "path"` names the file that the following lines come from: the first one
//! names the unit itself, and the headers end where the unit is named again after a file that the
//! marker stands for.

use vstd::prelude::*;
use crate::bytes::{Class, BACKSLASH, CARRIAGE_RETURN, HASH, NEWLINE, SLASH};
use crate::bytes::{ascii, lemma_skip, skip, subpath};

verus! {

/// The errors of the filter.
#[derive(Clone, Debug)]
pub enum PostprocessError {
    /// Unexpected end of line in a literal.
    LiteralEol,
    /// Unexpected end of stream in a literal.
    LiteralEof,
    /// A literal is too long.
    LiteralTooLong,
    /// Unexpected end of an escape sequence.
    EscapeEof,
    /// The precompiled header marker was not found.
    MarkerNotFound(String),
    /// A token is too long.
    TokenTooLong,
}

/// The most bytes that the name of a directive, or the number of a `#line`, may have.
pub const NAME_LIMIT: usize = 0x10;

/// The most bytes that the name of a pragma may have.
pub const PRAGMA_LIMIT: usize = 0x20;

/// A path literal that has this many bytes and is not closed is too long.
pub const LITERAL_LIMIT: usize = 0x3FE;

/// What the filter was asked for: the bytes of the marker, and whether the headers are kept.
pub struct Rules {
    pub marker: Option<Seq<u8>>,
    pub keep: bool,
}

/// What the `#line` directives read so far have established: the file that the first of them
/// named, and whether a later one named a file that the marker stands for.
pub struct Progress {
    pub entry: Option<Seq<u8>>,
    pub found: bool,
}

/// What becomes of a text.
pub enum Outcome {
    /// The headers end at `at`, where `mark` is put in.
    Split { at: int, mark: Seq<u8> },
    /// The text cannot be read.
    Fail(PostprocessError),
    /// The text ends where the path of a `#line` is due.
    NoPath,
    /// The text ends within the headers.
    NoMarker,
}

/// What one line comes to: the next line to read, or the outcome of the text.
pub enum Step {
    Next { progress: Progress, at: int },
    Stop(Outcome),
}

/// What a quoted path comes to: what it stands for, how it is repeated in the output, and where
/// it ends; or what is wrong with it.
pub enum Literal {
    Closed { file: Seq<u8>, raw: Seq<u8>, end: int },
    Broken(PostprocessError),
}

/// The start of the line after the one that `i` is in.
pub open spec fn next_line(s: Seq<u8>, i: int) -> int {
    let n = skip(s, i, Class::Inline);
    if n < s.len() {
        n + 1
    } else {
        n
    }
}

/// What the byte behind a backslash stands for in a path; a backslash becomes a slash.
pub open spec fn unescape(c: u8) -> u8 {
    if c == 0x6E {
        NEWLINE
    } else if c == 0x72 {
        CARRIAGE_RETURN
    } else if c == 0x74 {
        0x09
    } else if c == BACKSLASH {
        SLASH
    } else {
        c
    }
}

/// Reads a path literal on from `i`, where `file` and `raw` have been read of it. An escape
/// sequence counts, and is repeated, as two backslashes.
pub open spec fn literal(s: Seq<u8>, i: int, quote: u8, file: Seq<u8>, raw: Seq<u8>) -> Literal
    decreases s.len() - i,
{
    if i < 0 || i >= s.len() {
        Literal::Broken(PostprocessError::LiteralEof)
    } else if s[i] == NEWLINE || s[i] == CARRIAGE_RETURN {
        Literal::Broken(PostprocessError::LiteralEol)
    } else if s[i] == BACKSLASH {
        if i + 1 >= s.len() {
            Literal::Broken(PostprocessError::EscapeEof)
        } else if raw.len() + 2 >= LITERAL_LIMIT {
            Literal::Broken(PostprocessError::LiteralTooLong)
        } else {
            literal(
                s,
                i + 2,
                quote,
                file.push(unescape(s[i + 1])),
                raw.push(BACKSLASH).push(BACKSLASH),
            )
        }
    } else if s[i] == quote {
        Literal::Closed { file, raw: raw.push(quote), end: i + 1 }
    } else if raw.len() + 1 >= LITERAL_LIMIT {
        Literal::Broken(PostprocessError::LiteralTooLong)
    } else {
        literal(s, i + 1, quote, file.push(s[i]), raw.push(s[i]))
    }
}

/// The line ending at `n`, the end of a line: a newline with the carriage return in front of it,
/// if there is one; nothing at the end of the text.
pub open spec fn line_ending(s: Seq<u8>, n: int) -> Seq<u8> {
    if n >= s.len() {
        Seq::empty()
    } else if s[n - 1] == CARRIAGE_RETURN {
        seq![CARRIAGE_RETURN, NEWLINE]
    } else {
        seq![NEWLINE]
    }
}

/// The lines that are put in where a `#line` ends the headers: a `#pragma hdrstop` and the
/// directive once more.
pub open spec fn line_mark(number: Seq<u8>, raw: Seq<u8>, eol: Seq<u8>) -> Seq<u8> {
    ascii("#pragma hdrstop"@) + eol + ascii("#line "@) + number + ascii(" "@) + raw + eol
}

/// Whether a file is one that the marker stands for.
pub open spec fn is_marked(rules: Rules, file: Seq<u8>) -> bool {
    match rules.marker {
        Some(marker) => subpath(file, marker),
        None => false,
    }
}

/// A `#line` directive whose path ends at `i`.
#[verifier::opaque]
pub open spec fn line_tail(
    rules: Rules,
    progress: Progress,
    s: Seq<u8>,
    number: Seq<u8>,
    file: Seq<u8>,
    raw: Seq<u8>,
    i: int,
) -> Step {
    let eol = line_ending(s, skip(s, i, Class::Inline));
    let at = next_line(s, i);
    match progress.entry {
        None => Step::Next { progress: Progress { entry: Some(file), found: progress.found }, at },
        Some(entry) => if progress.found && entry == file {
            Step::Stop(Outcome::Split { at, mark: line_mark(number, raw, eol) })
        } else {
            let found = progress.found || is_marked(rules, file);
            Step::Next { progress: Progress { entry: Some(entry), found }, at }
        },
    }
}

/// A `#line` directive whose path has been read.
pub open spec fn line_path_end(
    rules: Rules,
    progress: Progress,
    s: Seq<u8>,
    number: Seq<u8>,
    path: Literal,
) -> Step {
    match path {
        Literal::Closed { file, raw, end } => line_tail(
            rules,
            progress,
            s,
            number,
            file,
            raw,
            end,
        ),
        Literal::Broken(e) => Step::Stop(Outcome::Fail(e)),
    }
}

/// A `#line` directive whose number ends at `i`. Whatever byte comes next but blanks opens the
/// path, and the same byte closes it.
#[verifier::opaque]
pub open spec fn line_path(
    rules: Rules,
    progress: Progress,
    s: Seq<u8>,
    number: Seq<u8>,
    i: int,
) -> Step {
    let q = skip(s, i, Class::Blank);
    if q >= s.len() {
        Step::Stop(Outcome::NoPath)
    } else {
        let path = literal(s, q + 1, s[q], Seq::empty(), seq![s[q]]);
        line_path_end(rules, progress, s, number, path)
    }
}

/// A `#line` directive whose number starts at `i`.
pub open spec fn line_number(rules: Rules, progress: Progress, s: Seq<u8>, i: int) -> Step {
    let n = skip(s, i, Class::Word);
    if n - i > NAME_LIMIT {
        Step::Stop(Outcome::Fail(PostprocessError::TokenTooLong))
    } else {
        line_path(rules, progress, s, s.subrange(i, n), n)
    }
}

/// A pragma whose name starts at `i`. A name that the end of the text cuts off is no name.
pub open spec fn pragma_name(rules: Rules, progress: Progress, s: Seq<u8>, i: int) -> Step {
    let n = skip(s, i, Class::Word);
    if n - i > PRAGMA_LIMIT {
        Step::Stop(Outcome::Fail(PostprocessError::TokenTooLong))
    } else if n < s.len() && s.subrange(i, n) == ascii("hdrstop"@) {
        let mark = if rules.keep {
            Seq::empty()
        } else {
            ascii("#pragma hdrstop"@)
        };
        Step::Stop(Outcome::Split { at: n, mark })
    } else {
        Step::Next { progress, at: next_line(s, n) }
    }
}

/// A directive whose name starts at `i`. A name that the end of the text cuts off is no name.
#[verifier::opaque]
pub open spec fn directive_name(rules: Rules, progress: Progress, s: Seq<u8>, i: int) -> Step {
    let n = skip(s, i, Class::Word);
    if n - i > NAME_LIMIT {
        Step::Stop(Outcome::Fail(PostprocessError::TokenTooLong))
    } else if n < s.len() && s.subrange(i, n) == ascii("line"@) {
        line_number(rules, progress, s, skip(s, n, Class::Blank))
    } else if n < s.len() && s.subrange(i, n) == ascii("pragma"@) {
        pragma_name(rules, progress, s, skip(s, n, Class::Blank))
    } else {
        Step::Next { progress, at: next_line(s, n) }
    }
}

/// The line that `i` is at the start of, with the white space in front of it.
pub open spec fn line(rules: Rules, progress: Progress, s: Seq<u8>, i: int) -> Step {
    let h = skip(s, i, Class::Gap);
    if h >= s.len() {
        Step::Stop(Outcome::NoMarker)
    } else if s[h] == HASH {
        directive_name(rules, progress, s, skip(s, h + 1, Class::Blank))
    } else {
        Step::Next { progress, at: next_line(s, h) }
    }
}

/// The next line starts behind `i`, and within the text or at its end.
pub proof fn lemma_next_line(s: Seq<u8>, i: int)
    requires
        0 <= i <= s.len(),
    ensures
        i <= next_line(s, i) <= s.len(),
        i < s.len() ==> i < next_line(s, i),
{
    lemma_skip(s, i, Class::Inline);
}

/// A literal that is closed ends behind where it was read on from.
pub proof fn lemma_literal_end(s: Seq<u8>, i: int, quote: u8, file: Seq<u8>, raw: Seq<u8>)
    requires
        0 <= i <= s.len(),
    ensures
        literal(s, i, quote, file, raw) matches Literal::Closed { end, .. } ==> i < end <= s.len(),
    decreases s.len() - i,
{
    if i < s.len() {
        if s[i] == BACKSLASH {
            if i + 1 < s.len() {
                lemma_literal_end(
                    s,
                    i + 2,
                    quote,
                    file.push(unescape(s[i + 1])),
                    raw.push(BACKSLASH).push(BACKSLASH),
                );
            }
        } else {
            lemma_literal_end(s, i + 1, quote, file.push(s[i]), raw.push(s[i]));
        }
    }
}

/// Whether the line that comes next, if one does, starts at `i` or later.
pub open spec fn leads_on(step: Step, i: int, s: Seq<u8>) -> bool {
    step matches Step::Next { at, .. } ==> i <= at <= s.len()
}

/// A `#line` directive leads on.
pub proof fn lemma_line_path_leads_on(
    rules: Rules,
    progress: Progress,
    s: Seq<u8>,
    number: Seq<u8>,
    i: int,
)
    requires
        0 <= i <= s.len(),
    ensures
        leads_on(line_path(rules, progress, s, number, i), i, s),
{
    reveal(line_path);
    reveal(line_tail);
    let q = skip(s, i, Class::Blank);
    lemma_skip(s, i, Class::Blank);
    if q < s.len() {
        lemma_literal_end(s, q + 1, s[q], Seq::empty(), seq![s[q]]);
        match literal(s, q + 1, s[q], Seq::empty(), seq![s[q]]) {
            Literal::Closed { end, .. } => {
                lemma_next_line(s, end);
            },
            Literal::Broken(_) => {},
        }
    }
}

/// A directive leads on.
pub proof fn lemma_directive_leads_on(rules: Rules, progress: Progress, s: Seq<u8>, i: int)
    requires
        0 <= i <= s.len(),
    ensures
        leads_on(directive_name(rules, progress, s, i), i, s),
{
    reveal(directive_name);
    lemma_skip(s, i, Class::Word);
    let n = skip(s, i, Class::Word);
    lemma_next_line(s, n);
    lemma_skip(s, n, Class::Blank);
    let b = skip(s, n, Class::Blank);
    lemma_skip(s, b, Class::Word);
    let e = skip(s, b, Class::Word);
    lemma_next_line(s, e);
    lemma_line_path_leads_on(rules, progress, s, s.subrange(b, e), e);
}

/// Every line leads on to a line that starts behind it.
pub proof fn lemma_line_leads_on(rules: Rules, progress: Progress, s: Seq<u8>, i: int)
    requires
        0 <= i <= s.len(),
    ensures
        leads_on(line(rules, progress, s, i), i + 1, s),
{
    lemma_skip(s, i, Class::Gap);
    let h = skip(s, i, Class::Gap);
    if h < s.len() {
        lemma_next_line(s, h);
        lemma_skip(s, h + 1, Class::Blank);
        lemma_directive_leads_on(rules, progress, s, skip(s, h + 1, Class::Blank));
    }
}

/// The outcome of a text of which the lines in front of `i` have been read.
pub open spec fn scan(rules: Rules, progress: Progress, s: Seq<u8>, i: int) -> Outcome
    decreases s.len() - i,
    when 0 <= i <= s.len()
{
    proof {
        lemma_line_leads_on(rules, progress, s, i);
    }
    match line(rules, progress, s, i) {
        Step::Stop(outcome) => outcome,
        Step::Next { progress: next, at } => scan(rules, next, s, at),
    }
}

/// The outcome of a text of which one line came to `step`.
pub open spec fn after(rules: Rules, step: Step, s: Seq<u8>) -> Outcome {
    match step {
        Step::Stop(outcome) => outcome,
        Step::Next { progress, at } => scan(rules, progress, s, at),
    }
}

/// The outcome of a text is settled by its next line, or by what comes after it.
pub proof fn lemma_scan(rules: Rules, progress: Progress, s: Seq<u8>, i: int)
    requires
        0 <= i <= s.len(),
    ensures
        scan(rules, progress, s, i) == after(rules, line(rules, progress, s, i), s),
{
    lemma_line_leads_on(rules, progress, s, i);
}

/// The byte order mark of UTF-8.
pub open spec fn byte_order_mark() -> Seq<u8> {
    seq![0xEF, 0xBB, 0xBF]
}

/// How many bytes of a byte order mark a text starts with.
pub open spec fn bom_len(s: Seq<u8>) -> int {
    if s.len() >= 1 && s[0] == 0xEF {
        if s.len() >= 2 && s[1] == 0xBB {
            if s.len() >= 3 && s[2] == 0xBF {
                3
            } else {
                2
            }
        } else {
            1
        }
    } else {
        0
    }
}

/// The outcome of a text.
pub open spec fn outcome(rules: Rules, s: Seq<u8>) -> Outcome {
    scan(rules, Progress { entry: None, found: false }, s, bom_len(s))
}

/// Whether `t` starts with `s`.
pub open spec fn extends(t: Seq<u8>, s: Seq<u8>) -> bool {
    &&& s.len() <= t.len()
    &&& forall|i: int| 0 <= i < s.len() ==> #[trigger] t[i] == s[i]
}

/// Whether a text is cut or refused already, whatever follows it.
pub open spec fn settled(rules: Rules, s: Seq<u8>) -> bool {
    &&& outcome(rules, s) is Split || outcome(rules, s) is Fail
    &&& forall|t: Seq<u8>| #[trigger] extends(t, s) ==> outcome(rules, t) == outcome(rules, s)
}

/// The text that a cut leaves: the headers, if they are kept, the mark, and all that follows.
pub open spec fn cut(keep: bool, s: Seq<u8>, at: int, mark: Seq<u8>) -> Seq<u8> {
    let headers = if keep {
        s.take(at)
    } else {
        Seq::empty()
    };
    headers + mark + s.skip(at)
}

/// What has been written once `s` has been read and nothing is known of what follows.
pub open spec fn written(rules: Rules, s: Seq<u8>) -> Seq<u8> {
    match outcome(rules, s) {
        Outcome::Split { at, mark } if settled(rules, s) => cut(rules.keep, s, at, mark),
        _ => if rules.keep {
            s
        } else {
            Seq::empty()
        },
    }
}

/// Whether there is an answer to a text that ends here: the path of its last `#line` is not
/// missing, and if it ends within the headers, there is a marker to name.
pub open spec fn answerable(rules: Rules, name: Option<Seq<char>>, s: Seq<u8>) -> bool {
    match outcome(rules, s) {
        Outcome::NoPath => false,
        Outcome::NoMarker => name is Some,
        _ => true,
    }
}

/// Whether `r` is the answer to a text that ends here: what a cut leaves of it, the error that
/// is in it, or the marker that is not.
pub open spec fn answers(
    rules: Rules,
    name: Option<Seq<char>>,
    s: Seq<u8>,
    r: Result<Seq<u8>, PostprocessError>,
) -> bool {
    match outcome(rules, s) {
        Outcome::Split { at, mark } => r == Ok::<Seq<u8>, PostprocessError>(
            cut(rules.keep, s, at, mark),
        ),
        Outcome::Fail(e) => r == Err::<Seq<u8>, PostprocessError>(e),
        Outcome::NoMarker => {
            &&& r matches Err(PostprocessError::MarkerNotFound(missing))
            &&& Some(missing@) == name
        },
        Outcome::NoPath => false,
    }
}

} // verus!
