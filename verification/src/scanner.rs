//! The filter of preprocessed source as a machine that is fed a text piece by piece.

use vstd::prelude::*;
use crate::bytes::{Class, BACKSLASH, CARRIAGE_RETURN, HASH, NEWLINE, SLASH, TAB};
use crate::bytes::{
    append_bytes, ascii, ascii_bytes, is_subpath, lemma_skip, lemma_skip_run, memchr, same_bytes,
    skip, skip_class,
};
use crate::grammar::{Literal, Outcome, PostprocessError, Progress, Rules, Step};
use crate::grammar::{LITERAL_LIMIT, NAME_LIMIT, PRAGMA_LIMIT};
use crate::grammar::{
    after, answerable, answers, bom_len, byte_order_mark, cut, directive_name, extends, is_marked,
    lemma_scan, line, line_ending, line_mark, line_number, line_path, line_path_end, line_tail,
    literal, next_line, outcome, pragma_name, scan, settled, unescape, written,
};
use crate::laws::law_settled_stays;

verus! {

/// A marker: the name that a user gave for it, and the bytes that stand for it in the text.
pub struct Marker {
    pub name: String,
    pub bytes: Vec<u8>,
}

/// The path literal of a `#line` directive, as far as it has been read, and the number in front
/// of it.
struct Path {
    number: Vec<u8>,
    quote: u8,
    file: Vec<u8>,
    raw: Vec<u8>,
}

/// What the machine carries from line to line.
struct Context {
    marker: Option<Marker>,
    keep_headers: bool,
    entry_file: Option<Vec<u8>>,
    header_found: bool,
}

/// Where in a line the machine stands.
enum State {
    /// Behind so many bytes of a byte order mark.
    Bom(usize),
    /// In the white space in front of a line.
    LineStart,
    /// In the blanks behind a hash.
    DirectiveGap,
    /// In the name of a directive.
    DirectiveName(Vec<u8>),
    /// In the blanks behind `#line`.
    NumberGap,
    /// In the number of a `#line`.
    Number(Vec<u8>),
    /// In the blanks behind the number of a `#line`.
    PathGap(Vec<u8>),
    /// In the path of a `#line`.
    Path(Path),
    /// Behind a backslash in the path of a `#line`.
    Escape(Path),
    /// Behind the path of a `#line`; the byte that was read last.
    Tail(Path, u8),
    /// In the blanks behind `#pragma`.
    PragmaGap,
    /// In the name of a pragma.
    PragmaName(Vec<u8>),
    /// In a line of which nothing more matters.
    SkipLine,
}

/// What a step of the machine comes to: a state and how far it has read, or the end of the
/// headers and the mark to put in there.
enum Move {
    Go { state: State, pos: usize },
    Stop { pos: usize, mark: Vec<u8> },
}

/// What the end of a text comes to.
enum End {
    NoMarker,
    NoPath,
    Fail(PostprocessError),
    Split(Vec<u8>),
}

/// The outcome of a text whose bytes in front of `i` have brought the machine to `state`.
spec fn resume(rules: Rules, progress: Progress, state: State, s: Seq<u8>, i: int) -> Outcome {
    match state {
        State::Bom(_) => outcome(rules, s),
        State::LineStart => scan(rules, progress, s, i),
        State::DirectiveGap => after(
            rules,
            directive_name(rules, progress, s, skip(s, i, Class::Blank)),
            s,
        ),
        State::DirectiveName(name) => after(
            rules,
            directive_name(rules, progress, s, i - name@.len()),
            s,
        ),
        State::NumberGap => after(
            rules,
            line_number(rules, progress, s, skip(s, i, Class::Blank)),
            s,
        ),
        State::Number(number) => after(
            rules,
            line_number(rules, progress, s, i - number@.len()),
            s,
        ),
        State::PathGap(number) => after(rules, line_path(rules, progress, s, number@, i), s),
        State::Path(path) => after(
            rules,
            line_path_end(
                rules,
                progress,
                s,
                path.number@,
                literal(s, i, path.quote, path.file@, path.raw@),
            ),
            s,
        ),
        State::Escape(path) => after(
            rules,
            line_path_end(
                rules,
                progress,
                s,
                path.number@,
                literal(s, i - 1, path.quote, path.file@, path.raw@),
            ),
            s,
        ),
        State::Tail(path, _) => after(
            rules,
            line_tail(rules, progress, s, path.number@, path.file@, path.raw@, i),
            s,
        ),
        State::PragmaGap => after(
            rules,
            pragma_name(rules, progress, s, skip(s, i, Class::Blank)),
            s,
        ),
        State::PragmaName(name) => after(
            rules,
            pragma_name(rules, progress, s, i - name@.len()),
            s,
        ),
        State::SkipLine => scan(rules, progress, s, next_line(s, i)),
    }
}

/// Whether `token` is the run of word bytes that ends at `i`, and not too long.
spec fn token_read(token: Seq<u8>, p: Seq<u8>, i: int, limit: usize) -> bool {
    &&& token.len() <= limit
    &&& token.len() <= i
    &&& token == p.subrange(i - token.len(), i)
    &&& forall|j: int| i - token.len() <= j < i ==> Class::Word.has(#[trigger] p[j])
}

/// Whether the machine can be in `state` when it has read `p` up to `i`.
spec fn well_placed(state: State, progress: Progress, p: Seq<u8>, i: int) -> bool {
    &&& 0 <= i <= p.len()
    &&& match state {
        State::Bom(n) => {
            &&& i == n < 3
            &&& forall|j: int| 0 <= j < n ==> #[trigger] p[j] == byte_order_mark()[j]
            &&& progress == (Progress { entry: None, found: false })
        },
        State::DirectiveName(name) => token_read(name@, p, i, NAME_LIMIT),
        State::Number(number) => token_read(number@, p, i, NAME_LIMIT),
        State::PragmaName(name) => token_read(name@, p, i, PRAGMA_LIMIT),
        State::Escape(_) => i >= 1 && p[i - 1] == BACKSLASH,
        State::Tail(_, last) => i >= 1 && p[i - 1] == last,
        _ => true,
    }
}

/// How many steps without reading a byte may follow.
spec fn rank(state: State) -> int {
    match state {
        State::Bom(_) => 7,
        State::LineStart => 6,
        State::DirectiveGap => 5,
        State::DirectiveName(_) => 4,
        State::NumberGap => 3,
        State::PragmaGap => 3,
        State::Number(_) => 2,
        State::PragmaName(_) => 2,
        _ => 1,
    }
}

/// What is true of a step from `state` at `pos` in `chunk`, which follows `seen`: on every text
/// that goes on from there the outcome is that from the new place, or it is given.
spec fn follows(
    rules: Rules,
    progress: Progress,
    state: State,
    next_progress: Progress,
    seen: Seq<u8>,
    chunk: Seq<u8>,
    pos: int,
    r: Result<Move, PostprocessError>,
) -> bool {
    let p = seen + chunk;
    let i = seen.len() + pos;
    match r {
        Ok(Move::Go { state: next, pos: j }) => {
            &&& pos <= j <= chunk.len()
            &&& j > pos || rank(next) < rank(state)
            &&& well_placed(next, next_progress, p, seen.len() + j)
            &&& forall|s: Seq<u8>| #[trigger]
                extends(s, p) ==> resume(rules, progress, state, s, i) == resume(
                    rules,
                    next_progress,
                    next,
                    s,
                    seen.len() + j,
                )
        },
        Ok(Move::Stop { pos: j, mark }) => {
            &&& pos <= j <= chunk.len()
            &&& next_progress == progress
            &&& forall|s: Seq<u8>| #[trigger]
                extends(s, p) ==> resume(rules, progress, state, s, i) == (Outcome::Split {
                    at: seen.len() + j,
                    mark: mark@,
                })
        },
        Err(e) => forall|s: Seq<u8>| #[trigger]
            extends(s, p) ==> resume(rules, progress, state, s, i) == Outcome::Fail(e),
    }
}

/// A run of bytes of the class in the piece read can be stepped over first.
proof fn lemma_skip_chunk(s: Seq<u8>, seen: Seq<u8>, chunk: Seq<u8>, pos: int, end: int, k: Class)
    requires
        extends(s, seen + chunk),
        0 <= pos <= end <= chunk.len(),
        forall|j: int| pos <= j < end ==> k.has(#[trigger] chunk[j]),
    ensures
        seen.len() + end <= s.len(),
        skip(s, seen.len() + pos, k) == skip(s, seen.len() + end, k),
        end < chunk.len() ==> s[seen.len() + end] == chunk[end],
        end < chunk.len() && !k.has(chunk[end]) ==> skip(s, seen.len() + pos, k) == seen.len()
            + end,
{
    assert forall|j: int| seen.len() + pos <= j < seen.len() + end implies k.has(
        #[trigger] s[j],
    ) by {
        assert(s[j] == (seen + chunk)[j]);
        assert(k.has(chunk[j - seen.len()]));
    }
    lemma_skip_run(s, seen.len() + pos, seen.len() + end, k);
    if end < chunk.len() {
        assert(s[seen.len() + end] == (seen + chunk)[seen.len() + end]);
    }
}

/// Reads the run of word bytes at `pos` into `token`.
fn parse_token(
    token: Vec<u8>,
    chunk: &[u8],
    pos: usize,
    limit: usize,
    Ghost(seen): Ghost<Seq<u8>>,
) -> (r: Result<(Vec<u8>, usize), PostprocessError>)
    requires
        pos <= chunk@.len(),
        token_read(token@, seen + chunk@, seen.len() + pos, limit),
    ensures
        match r {
            Ok((read, end)) => {
                &&& pos <= end <= chunk@.len()
                &&& end - read@.len() == pos - token@.len()
                &&& token_read(read@, seen + chunk@, seen.len() + end, limit)
                &&& end < chunk@.len() ==> !Class::Word.has(chunk@[end as int])
            },
            Err(e) => {
                &&& e == PostprocessError::TokenTooLong
                &&& forall|s: Seq<u8>| #[trigger]
                    extends(s, seen + chunk@) ==> skip(
                        s,
                        seen.len() + pos - token@.len(),
                        Class::Word,
                    ) - (seen.len() + pos - token@.len()) > limit
            },
        },
{
    let ghost p: Seq<u8> = seen + chunk@;
    let ghost start: int = seen.len() + pos - token@.len();
    let mut read: Vec<u8> = token;
    let mut i: usize = pos;
    while i < chunk.len() && Class::Word.holds(chunk[i])
        invariant
            pos <= i <= chunk@.len(),
            p == seen + chunk@,
            start == seen.len() + pos - token@.len(),
            start == seen.len() + i - read@.len(),
            token_read(read@, p, seen.len() + i, limit),
        decreases chunk@.len() - i,
    {
        assert(p[seen.len() + i] == chunk@[i as int]);
        if read.len() >= limit {
            proof {
                assert forall|s: Seq<u8>| #[trigger] extends(s, p) implies skip(
                    s,
                    start,
                    Class::Word,
                ) - start > limit by {
                    let m: int = seen.len() + i + 1;
                    assert forall|j: int| start <= j < m implies Class::Word.has(
                        #[trigger] s[j],
                    ) by {
                        assert(s[j] == p[j]);
                    }
                    lemma_skip_run(s, start, m, Class::Word);
                    lemma_skip(s, m, Class::Word);
                }
            }
            return Err(PostprocessError::TokenTooLong);
        }
        read.push(chunk[i]);
        i = i + 1;
        assert(read@ =~= p.subrange(seen.len() + i - read@.len(), seen.len() + i));
    }
    Ok((read, i))
}

/// A token that ends in the piece read ends there in every text that goes on from it.
proof fn lemma_token_end(
    s: Seq<u8>,
    seen: Seq<u8>,
    chunk: Seq<u8>,
    token: Seq<u8>,
    end: int,
    limit: usize,
)
    requires
        0 <= end < chunk.len(),
        token_read(token, seen + chunk, seen.len() + end, limit),
        !Class::Word.has(chunk[end]),
        extends(s, seen + chunk),
    ensures
        seen.len() + end < s.len(),
        skip(s, seen.len() + end - token.len(), Class::Word) == seen.len() + end,
        s.subrange(seen.len() + end - token.len(), seen.len() + end) == token,
{
    let p = seen + chunk;
    let start = seen.len() + end - token.len();
    let m = seen.len() + end;
    assert forall|j: int| start <= j < m implies Class::Word.has(#[trigger] s[j]) by {
        assert(s[j] == p[j]);
    }
    assert(s[m] == p[m]);
    lemma_skip_run(s, start, m, Class::Word);
    assert(s.subrange(start, m) =~= p.subrange(start, m));
}

/// A token of no bytes can start anywhere.
proof fn lemma_empty_token(token: Seq<u8>, p: Seq<u8>, i: int, limit: usize)
    requires
        token.len() == 0,
        0 <= i <= p.len(),
    ensures
        token_read(token, p, i, limit),
{
    assert(token =~= p.subrange(i, i));
}

/// What the white space in front of a line, from `pos` to `end` of the piece read, leads to.
spec fn at_line_start(
    rules: Rules,
    progress: Progress,
    s: Seq<u8>,
    seen: Seq<u8>,
    chunk: Seq<u8>,
    pos: int,
    end: int,
) -> bool {
    scan(rules, progress, s, seen.len() + pos) == if end == chunk.len() {
        scan(rules, progress, s, seen.len() + end)
    } else if chunk[end] == HASH {
        resume(rules, progress, State::DirectiveGap, s, seen.len() + end + 1)
    } else {
        resume(rules, progress, State::SkipLine, s, seen.len() + end)
    }
}

proof fn lemma_line_start(
    rules: Rules,
    progress: Progress,
    s: Seq<u8>,
    seen: Seq<u8>,
    chunk: Seq<u8>,
    pos: int,
    end: int,
)
    requires
        extends(s, seen + chunk),
        0 <= pos <= end <= chunk.len(),
        forall|j: int| pos <= j < end ==> Class::Gap.has(#[trigger] chunk[j]),
        end < chunk.len() ==> !Class::Gap.has(chunk[end]),
    ensures
        at_line_start(rules, progress, s, seen, chunk, pos, end),
{
    lemma_skip_chunk(s, seen, chunk, pos, end, Class::Gap);
    let i = seen.len() + pos;
    let m = seen.len() + end;
    assert(line(rules, progress, s, i) == line(rules, progress, s, m));
    assert(skip(s, m, Class::Gap) == skip(s, i, Class::Gap));
    lemma_scan(rules, progress, s, i);
    lemma_scan(rules, progress, s, m);
}

/// What is put in behind a `#line` directive that ends the headers.
fn make_mark(number: &[u8], raw: &[u8], eol: &[u8]) -> (mark: Vec<u8>)
    ensures
        mark@ == line_mark(number@, raw@, eol@),
{
    let mut mark: Vec<u8> = Vec::new();
    proof {
        reveal_strlit("#pragma hdrstop");
        reveal_strlit("#line ");
        reveal_strlit(" ");
    }
    append_bytes(&mut mark, ascii_bytes("#pragma hdrstop"));
    append_bytes(&mut mark, eol);
    append_bytes(&mut mark, ascii_bytes("#line "));
    append_bytes(&mut mark, number);
    append_bytes(&mut mark, ascii_bytes(" "));
    append_bytes(&mut mark, raw);
    append_bytes(&mut mark, eol);
    assert(mark@ =~= line_mark(number@, raw@, eol@));
    mark
}

/// The outcome of a text that ends when it has brought the machine to `state`; its length is `n`.
spec fn end_outcome(progress: Progress, state: State, n: int) -> Outcome {
    match state {
        State::NumberGap | State::Number(_) | State::PathGap(_) => Outcome::NoPath,
        State::Path(_) => Outcome::Fail(PostprocessError::LiteralEof),
        State::Escape(_) => Outcome::Fail(PostprocessError::EscapeEof),
        State::Tail(path, _) => if progress.found && progress.entry == Some(path.file@) {
            Outcome::Split { at: n, mark: line_mark(path.number@, path.raw@, Seq::empty()) }
        } else {
            Outcome::NoMarker
        },
        _ => Outcome::NoMarker,
    }
}

proof fn lemma_end(rules: Rules, progress: Progress, state: State, p: Seq<u8>)
    requires
        well_placed(state, progress, p, p.len() as int),
    ensures
        resume(rules, progress, state, p, p.len() as int) == end_outcome(
            progress,
            state,
            p.len() as int,
        ),
{
    reveal(directive_name);
    reveal(line_path);
    reveal(line_tail);
    let n = p.len() as int;
    assert forall|other: Progress| #[trigger] scan(rules, other, p, n) == Outcome::NoMarker by {
        lemma_scan(rules, other, p, n);
    }
    assert(next_line(p, n) == n);
    match state {
        State::Bom(_) => {
            assert(bom_len(p) == n) by {
                if n >= 1 {
                    assert(p[0] == byte_order_mark()[0]);
                }
                if n >= 2 {
                    assert(p[1] == byte_order_mark()[1]);
                }
            }
        },
        State::DirectiveName(token) => {
            lemma_skip_run(p, n - token@.len(), n, Class::Word);
        },
        State::Number(token) => {
            lemma_skip_run(p, n - token@.len(), n, Class::Word);
        },
        State::PragmaName(token) => {
            lemma_skip_run(p, n - token@.len(), n, Class::Word);
        },
        _ => {},
    }
}

/// A text that has brought the machine to a state, rather than to an end, may go on in ways that
/// lead to different outcomes.
proof fn lemma_unsettled(rules: Rules, progress: Progress, state: State, p: Seq<u8>)
    requires
        well_placed(state, progress, p, p.len() as int),
        forall|s: Seq<u8>| #[trigger]
            extends(s, p) ==> outcome(rules, s) == resume(
                rules,
                progress,
                state,
                s,
                p.len() as int,
            ),
    ensures
        outcome(rules, p) == end_outcome(progress, state, p.len() as int),
        !settled(rules, p),
{
    let n = p.len() as int;
    assert(extends(p, p));
    lemma_end(rules, progress, state, p);
    match state {
        State::Path(path) => {
            let t = p.push(NEWLINE);
            assert(extends(t, p));
            assert(literal(t, n, path.quote, path.file@, path.raw@) == Literal::Broken(
                PostprocessError::LiteralEol,
            ));
        },
        State::Escape(path) => {
            let t = p.push(SLASH);
            assert(extends(t, p));
            assert(t[n - 1] == BACKSLASH);
            let file = path.file@.push(unescape(SLASH));
            let raw = path.raw@.push(BACKSLASH).push(BACKSLASH);
            assert(literal(t, n + 1, path.quote, file, raw) == Literal::Broken(
                PostprocessError::LiteralEof,
            ));
        },
        State::Tail(path, _) => {
            reveal(line_tail);
            let t = p.push(NEWLINE);
            assert(extends(t, p));
            assert(next_line(t, n) == n + 1);
        },
        _ => {},
    }
}

/// What has been read of a text stays as it is when more of it comes.
proof fn lemma_well_placed(state: State, progress: Progress, seen: Seq<u8>, p: Seq<u8>)
    requires
        well_placed(state, progress, seen, seen.len() as int),
        extends(p, seen),
    ensures
        well_placed(state, progress, p, seen.len() as int),
{
    let n = seen.len() as int;
    assert forall|i: int| 0 <= i < n implies #[trigger] p[i] == seen[i] by {}
    match state {
        State::DirectiveName(token) | State::Number(token) | State::PragmaName(token) => {
            assert(p.subrange(n - token@.len(), n) =~= seen.subrange(n - token@.len(), n));
        },
        _ => {},
    }
}

impl Context {
    spec fn rules(self) -> Rules {
        Rules {
            marker: match self.marker {
                Some(marker) => Some(marker.bytes@),
                None => None,
            },
            keep: self.keep_headers,
        }
    }

    spec fn progress(self) -> Progress {
        Progress {
            entry: match self.entry_file {
                Some(file) => Some(file@),
                None => None,
            },
            found: self.header_found,
        }
    }

    /// A step of this machine that leaves what it carries unchanged.
    spec fn steps(
        self,
        state: State,
        seen: Seq<u8>,
        chunk: Seq<u8>,
        pos: int,
        r: Result<Move, PostprocessError>,
    ) -> bool {
        follows(self.rules(), self.progress(), state, self.progress(), seen, chunk, pos, r)
    }

    /// A byte order mark, behind its first `n` bytes.
    fn parse_bom(
        &self,
        n: usize,
        chunk: &[u8],
        pos: usize,
        Ghost(seen): Ghost<Seq<u8>>,
    ) -> (r: Move)
        requires
            pos < chunk@.len(),
            well_placed(State::Bom(n), self.progress(), seen + chunk@, seen.len() + pos),
        ensures
            self.steps(State::Bom(n), seen, chunk@, pos as int, Ok(r)),
    {
        let c: u8 = chunk[pos];
        let expected: u8 = if n == 0 {
            0xEF
        } else if n == 1 {
            0xBB
        } else {
            0xBF
        };
        let ghost p: Seq<u8> = seen + chunk@;
        let (state, end): (State, usize) = if c == expected {
            if n == 2 {
                (State::LineStart, pos + 1)
            } else {
                (State::Bom(n + 1), pos + 1)
            }
        } else {
            (State::LineStart, pos)
        };
        proof {
            assert(p[n as int] == c);
            assert forall|s: Seq<u8>| #[trigger]
                extends(s, p) && state is LineStart implies bom_len(s) == seen.len() + end by {
                if n >= 1 {
                    assert(s[0] == p[0]);
                }
                if n >= 2 {
                    assert(s[1] == p[1]);
                }
                assert(s[n as int] == p[n as int]);
            }
        }
        Move::Go { state, pos: end }
    }

    /// The white space in front of a line, and what the line starts with.
    fn parse_line(&self, chunk: &[u8], pos: usize, Ghost(seen): Ghost<Seq<u8>>) -> (r: Move)
        requires
            pos < chunk@.len(),
        ensures
            self.steps(State::LineStart, seen, chunk@, pos as int, Ok(r)),
    {
        let end: usize = skip_class(chunk, pos, Class::Gap);
        proof {
            assert forall|s: Seq<u8>| #[trigger] extends(s, seen + chunk@) implies at_line_start(
                self.rules(),
                self.progress(),
                s,
                seen,
                chunk@,
                pos as int,
                end as int,
            ) by {
                lemma_line_start(
                    self.rules(),
                    self.progress(),
                    s,
                    seen,
                    chunk@,
                    pos as int,
                    end as int,
                );
            }
        }
        if end == chunk.len() {
            Move::Go { state: State::LineStart, pos: end }
        } else if chunk[end] == HASH {
            Move::Go { state: State::DirectiveGap, pos: end + 1 }
        } else {
            Move::Go { state: State::SkipLine, pos: end }
        }
    }

    /// The rest of a line of which nothing more matters.
    fn next_line(&self, chunk: &[u8], pos: usize, Ghost(seen): Ghost<Seq<u8>>) -> (r: Move)
        requires
            pos < chunk@.len(),
        ensures
            self.steps(State::SkipLine, seen, chunk@, pos as int, Ok(r)),
    {
        let found: Option<usize> = memchr(chunk, pos, NEWLINE);
        assert(chunk.len() == chunk@.len());
        match found {
            Some(at) => {
                proof {
                    let p: Seq<u8> = seen + chunk@;
                    assert forall|s: Seq<u8>| #[trigger] extends(s, p) implies next_line(
                        s,
                        seen.len() + pos,
                    ) == seen.len() + at + 1 by {
                        lemma_skip_chunk(s, seen, chunk@, pos as int, at as int, Class::Inline);
                    }
                }
                Move::Go { state: State::LineStart, pos: at + 1 }
            },
            None => {
                proof {
                    let p: Seq<u8> = seen + chunk@;
                    assert forall|s: Seq<u8>| #[trigger] extends(s, p) implies next_line(
                        s,
                        seen.len() + pos,
                    ) == next_line(s, (seen.len() + chunk@.len()) as int) by {
                        lemma_skip_chunk(
                            s,
                            seen,
                            chunk@,
                            pos as int,
                            chunk@.len() as int,
                            Class::Inline,
                        );
                    }
                }
                Move::Go { state: State::SkipLine, pos: chunk.len() }
            },
        }
    }

    /// The blanks in front of a token.
    fn parse_spaces(
        &self,
        gap: State,
        chunk: &[u8],
        pos: usize,
        Ghost(seen): Ghost<Seq<u8>>,
    ) -> (r: Move)
        requires
            pos < chunk@.len(),
            gap is DirectiveGap || gap is NumberGap || gap is PragmaGap,
        ensures
            self.steps(gap, seen, chunk@, pos as int, Ok(r)),
    {
        let end: usize = skip_class(chunk, pos, Class::Blank);
        proof {
            assert forall|s: Seq<u8>| #[trigger] extends(s, seen + chunk@) implies skip(
                s,
                seen.len() + pos,
                Class::Blank,
            ) == skip(s, seen.len() + end, Class::Blank) && (end < chunk@.len() ==> skip(
                s,
                seen.len() + pos,
                Class::Blank,
            ) == seen.len() + end) by {
                lemma_skip_chunk(s, seen, chunk@, pos as int, end as int, Class::Blank);
            }
        }
        if end == chunk.len() {
            return Move::Go { state: gap, pos: end };
        }
        let token: Vec<u8> = Vec::new();
        proof {
            lemma_empty_token(token@, seen + chunk@, seen.len() + end, NAME_LIMIT);
            lemma_empty_token(token@, seen + chunk@, seen.len() + end, PRAGMA_LIMIT);
        }
        match gap {
            State::DirectiveGap => Move::Go { state: State::DirectiveName(token), pos: end },
            State::NumberGap => Move::Go { state: State::Number(token), pos: end },
            _ => Move::Go { state: State::PragmaName(token), pos: end },
        }
    }

    /// The name of a directive, behind its bytes in `name`.
    fn parse_directive(
        &self,
        name: Vec<u8>,
        chunk: &[u8],
        pos: usize,
        Ghost(seen): Ghost<Seq<u8>>,
    ) -> (r: Result<Move, PostprocessError>)
        requires
            pos < chunk@.len(),
            token_read(name@, seen + chunk@, seen.len() + pos, NAME_LIMIT),
        ensures
            self.steps(State::DirectiveName(name), seen, chunk@, pos as int, r),
    {
        let ghost p: Seq<u8> = seen + chunk@;
        let ghost start: int = seen.len() + pos - name@.len();
        let (read, end): (Vec<u8>, usize) = match parse_token(
            name,
            chunk,
            pos,
            NAME_LIMIT,
            Ghost(seen),
        ) {
            Ok(token) => token,
            Err(e) => {
                proof {
                    reveal(directive_name);
                }
                return Err(e);
            },
        };
        if end == chunk.len() {
            return Ok(Move::Go { state: State::DirectiveName(read), pos: end });
        }
        proof {
            reveal_strlit("line");
            reveal_strlit("pragma");
        }
        let is_line: bool = same_bytes(&read, ascii_bytes("line"));
        let is_pragma: bool = same_bytes(&read, ascii_bytes("pragma"));
        let state: State = if is_line {
            State::NumberGap
        } else if is_pragma {
            State::PragmaGap
        } else {
            State::SkipLine
        };
        proof {
            let m: int = seen.len() + end;
            assert(is_line ==> !is_pragma) by {
                assert(ascii("line"@).len() != ascii("pragma"@).len());
            }
            assert forall|s: Seq<u8>| #[trigger] extends(s, p) implies after(
                self.rules(),
                directive_name(self.rules(), self.progress(), s, start),
                s,
            ) == resume(self.rules(), self.progress(), state, s, m) by {
                reveal(directive_name);
                lemma_token_end(s, seen, chunk@, read@, end as int, NAME_LIMIT);
            }
        }
        Ok(Move::Go { state, pos: end })
    }

    /// The number of a `#line`, behind its bytes in `number`.
    fn parse_number(
        &self,
        number: Vec<u8>,
        chunk: &[u8],
        pos: usize,
        Ghost(seen): Ghost<Seq<u8>>,
    ) -> (r: Result<Move, PostprocessError>)
        requires
            pos < chunk@.len(),
            token_read(number@, seen + chunk@, seen.len() + pos, NAME_LIMIT),
        ensures
            self.steps(State::Number(number), seen, chunk@, pos as int, r),
    {
        let ghost start: int = seen.len() + pos - number@.len();
        let (read, end): (Vec<u8>, usize) = match parse_token(
            number,
            chunk,
            pos,
            NAME_LIMIT,
            Ghost(seen),
        ) {
            Ok(token) => token,
            Err(e) => {
                return Err(e);
            },
        };
        if end == chunk.len() {
            return Ok(Move::Go { state: State::Number(read), pos: end });
        }
        let state: State = State::PathGap(read);
        proof {
            assert forall|s: Seq<u8>| #[trigger] extends(s, seen + chunk@) implies after(
                self.rules(),
                line_number(self.rules(), self.progress(), s, start),
                s,
            ) == resume(self.rules(), self.progress(), state, s, seen.len() + end) by {
                lemma_token_end(s, seen, chunk@, read@, end as int, NAME_LIMIT);
            }
        }
        Ok(Move::Go { state, pos: end })
    }

    /// The name of a pragma, behind its bytes in `name`.
    fn parse_directive_pragma(
        &self,
        name: Vec<u8>,
        chunk: &[u8],
        pos: usize,
        Ghost(seen): Ghost<Seq<u8>>,
    ) -> (r: Result<Move, PostprocessError>)
        requires
            pos < chunk@.len(),
            token_read(name@, seen + chunk@, seen.len() + pos, PRAGMA_LIMIT),
        ensures
            self.steps(State::PragmaName(name), seen, chunk@, pos as int, r),
    {
        let ghost start: int = seen.len() + pos - name@.len();
        let (read, end): (Vec<u8>, usize) = match parse_token(
            name,
            chunk,
            pos,
            PRAGMA_LIMIT,
            Ghost(seen),
        ) {
            Ok(token) => token,
            Err(e) => {
                return Err(e);
            },
        };
        if end == chunk.len() {
            return Ok(Move::Go { state: State::PragmaName(read), pos: end });
        }
        proof {
            reveal_strlit("hdrstop");
            reveal_strlit("#pragma hdrstop");
            assert forall|s: Seq<u8>| #[trigger] extends(s, seen + chunk@) implies pragma_name(
                self.rules(),
                self.progress(),
                s,
                start,
            ) == if read@ == ascii("hdrstop"@) {
                Step::Stop(
                    Outcome::Split {
                        at: seen.len() + end,
                        mark: if self.keep_headers {
                            Seq::empty()
                        } else {
                            ascii("#pragma hdrstop"@)
                        },
                    },
                )
            } else {
                Step::Next { progress: self.progress(), at: next_line(s, seen.len() + end) }
            } by {
                lemma_token_end(s, seen, chunk@, read@, end as int, PRAGMA_LIMIT);
            }
        }
        if same_bytes(&read, ascii_bytes("hdrstop")) {
            let mut mark: Vec<u8> = Vec::new();
            if !self.keep_headers {
                append_bytes(&mut mark, ascii_bytes("#pragma hdrstop"));
            }
            assert(mark@ =~= if self.keep_headers {
                Seq::empty()
            } else {
                ascii("#pragma hdrstop"@)
            });
            Ok(Move::Stop { pos: end, mark })
        } else {
            Ok(Move::Go { state: State::SkipLine, pos: end })
        }
    }

    /// The blanks in front of the path of a `#line`, and the byte that opens it.
    fn open_path(
        &self,
        number: Vec<u8>,
        chunk: &[u8],
        pos: usize,
        Ghost(seen): Ghost<Seq<u8>>,
    ) -> (r: Move)
        requires
            pos < chunk@.len(),
        ensures
            self.steps(State::PathGap(number), seen, chunk@, pos as int, Ok(r)),
    {
        let end: usize = skip_class(chunk, pos, Class::Blank);
        let ghost before: Seq<u8> = number@;
        if end == chunk.len() {
            let state: State = State::PathGap(number);
            proof {
                assert forall|s: Seq<u8>| #[trigger] extends(s, seen + chunk@) implies line_path(
                    self.rules(),
                    self.progress(),
                    s,
                    before,
                    seen.len() + pos,
                ) == line_path(self.rules(), self.progress(), s, before, seen.len() + end) by {
                    reveal(line_path);
                    lemma_skip_chunk(s, seen, chunk@, pos as int, end as int, Class::Blank);
                }
            }
            return Move::Go { state, pos: end };
        }
        let quote: u8 = chunk[end];
        let file: Vec<u8> = Vec::new();
        let mut raw: Vec<u8> = Vec::new();
        raw.push(quote);
        let state: State = State::Path(Path { number, quote, file, raw });
        proof {
            assert forall|s: Seq<u8>| #[trigger] extends(s, seen + chunk@) implies after(
                self.rules(),
                line_path(self.rules(), self.progress(), s, before, seen.len() + pos),
                s,
            ) == resume(self.rules(), self.progress(), state, s, seen.len() + end + 1) by {
                reveal(line_path);
                lemma_skip_chunk(s, seen, chunk@, pos as int, end as int, Class::Blank);
                assert(raw@ =~= seq![quote]);
                assert(file@ =~= Seq::<u8>::empty());
            }
        }
        Move::Go { state, pos: end + 1 }
    }

    /// The path of a `#line`, behind what `path` holds of it.
    fn parse_path(
        &self,
        path: Path,
        chunk: &[u8],
        pos: usize,
        Ghost(seen): Ghost<Seq<u8>>,
    ) -> (r: Result<Move, PostprocessError>)
        requires
            pos < chunk@.len(),
        ensures
            self.steps(State::Path(path), seen, chunk@, pos as int, r),
    {
        let ghost p: Seq<u8> = seen + chunk@;
        let ghost start: int = seen.len() + pos;
        let ghost given: Path = path;
        let Path { number, quote, file, raw } = path;
        let mut file: Vec<u8> = file;
        let mut raw: Vec<u8> = raw;
        let mut i: usize = pos;
        while i < chunk.len()
            invariant
                pos <= i <= chunk@.len(),
                p == seen + chunk@,
                start == seen.len() + pos,
                given == path,
                pos < chunk@.len(),
                number == given.number,
                quote == given.quote,
                forall|s: Seq<u8>| #[trigger]
                    extends(s, p) ==> literal(s, start, quote, given.file@, given.raw@) == literal(
                        s,
                        seen.len() + i,
                        quote,
                        file@,
                        raw@,
                    ),
            decreases chunk@.len() - i,
        {
            let c: u8 = chunk[i];
            assert(p[seen.len() + i] == c);
            if c == NEWLINE || c == CARRIAGE_RETURN {
                return Err(PostprocessError::LiteralEol);
            }
            if c == BACKSLASH {
                let path: Path = Path { number, quote, file, raw };
                return Ok(Move::Go { state: State::Escape(path), pos: i + 1 });
            }
            if c == quote {
                raw.push(c);
                let path: Path = Path { number, quote, file, raw };
                return Ok(Move::Go { state: State::Tail(path, c), pos: i + 1 });
            }
            if raw.len() >= LITERAL_LIMIT - 1 {
                return Err(PostprocessError::LiteralTooLong);
            }
            file.push(c);
            raw.push(c);
            i = i + 1;
        }
        let path: Path = Path { number, quote, file, raw };
        Ok(Move::Go { state: State::Path(path), pos: i })
    }

    /// The byte behind a backslash in the path of a `#line`.
    fn parse_escape(
        &self,
        path: Path,
        chunk: &[u8],
        pos: usize,
        Ghost(seen): Ghost<Seq<u8>>,
    ) -> (r: Result<Move, PostprocessError>)
        requires
            pos < chunk@.len(),
            well_placed(State::Escape(path), self.progress(), seen + chunk@, seen.len() + pos),
        ensures
            self.steps(State::Escape(path), seen, chunk@, pos as int, r),
    {
        let ghost p: Seq<u8> = seen + chunk@;
        let c: u8 = chunk[pos];
        assert(p[seen.len() + pos] == c);
        let meant: u8 = match c {
            0x6E => NEWLINE,
            0x72 => CARRIAGE_RETURN,
            0x74 => TAB,
            BACKSLASH => SLASH,
            _ => c,
        };
        let Path { number, quote, file, raw } = path;
        let mut file: Vec<u8> = file;
        let mut raw: Vec<u8> = raw;
        if raw.len() >= LITERAL_LIMIT - 2 {
            return Err(PostprocessError::LiteralTooLong);
        }
        file.push(meant);
        raw.push(BACKSLASH);
        raw.push(BACKSLASH);
        let path: Path = Path { number, quote, file, raw };
        Ok(Move::Go { state: State::Path(path), pos: pos + 1 })
    }

    /// Whether a `#line` directive that names `file` ends the headers.
    fn ends_headers(&self, file: &Vec<u8>) -> (r: bool)
        ensures
            r == (self.progress().found && self.progress().entry == Some(file@)),
    {
        match &self.entry_file {
            Some(entry) => self.header_found && same_bytes(entry, file),
            None => false,
        }
    }

    /// Takes in a `#line` directive that has been read to the end of its line: what to put in
    /// behind it, if it ends the headers.
    fn parse_directive_line(&mut self, path: Path, eol: &[u8]) -> (r: Option<Vec<u8>>)
        ensures
            final(self).rules() == old(self).rules(),
            final(self).marker == old(self).marker,
            final(self).keep_headers == old(self).keep_headers,
            final(self).progress() == (Progress {
                entry: match old(self).progress().entry {
                    Some(entry) => Some(entry),
                    None => Some(path.file@),
                },
                found: old(self).progress().found || (old(self).progress().entry is Some
                    && is_marked(old(self).rules(), path.file@)),
            }),
            r is Some <==> old(self).progress().found && old(self).progress().entry == Some(
                path.file@,
            ),
            r matches Some(mark) ==> mark@ == line_mark(path.number@, path.raw@, eol@),
    {
        if self.ends_headers(&path.file) {
            return Some(make_mark(&path.number, &path.raw, eol));
        }
        let Path { number: _, quote: _, file, raw: _ } = path;
        if self.entry_file.is_none() {
            self.entry_file = Some(file);
            return None;
        }
        let marked: bool = match &self.marker {
            Some(marker) => is_subpath(&file, &marker.bytes),
            None => false,
        };
        if marked {
            self.header_found = true;
        }
        None
    }

    /// The rest of the line behind the path of a `#line`; `last` is the byte in front of it.
    fn next_line_eol(
        &mut self,
        path: Path,
        last: u8,
        chunk: &[u8],
        pos: usize,
        Ghost(seen): Ghost<Seq<u8>>,
    ) -> (r: Move)
        requires
            pos < chunk@.len(),
            well_placed(
                State::Tail(path, last),
                old(self).progress(),
                seen + chunk@,
                seen.len() + pos,
            ),
        ensures
            final(self).rules() == old(self).rules(),
            final(self).marker == old(self).marker,
            final(self).keep_headers == old(self).keep_headers,
            follows(
                old(self).rules(),
                old(self).progress(),
                State::Tail(path, last),
                final(self).progress(),
                seen,
                chunk@,
                pos as int,
                Ok(r),
            ),
    {
        let ghost p: Seq<u8> = seen + chunk@;
        let ghost rules: Rules = self.rules();
        let ghost progress: Progress = self.progress();
        let ghost given: Path = path;
        let found: Option<usize> = memchr(chunk, pos, NEWLINE);
        assert(chunk.len() == chunk@.len());
        match found {
            Some(at) => {
                let before: u8 = if at > 0 {
                    chunk[at - 1]
                } else {
                    last
                };
                let ghost n: int = seen.len() + at;
                let mut eol: Vec<u8> = Vec::new();
                if before == CARRIAGE_RETURN {
                    eol.push(CARRIAGE_RETURN);
                }
                eol.push(NEWLINE);
                assert(before == p[n - 1]);
                assert forall|s: Seq<u8>| #[trigger] extends(s, p) implies line_ending(
                    s,
                    skip(s, seen.len() + pos, Class::Inline),
                ) == eol@ && next_line(s, seen.len() + pos) == n + 1 by {
                    lemma_skip_chunk(s, seen, chunk@, pos as int, at as int, Class::Inline);
                    assert(s[n - 1] == p[n - 1]);
                    assert(line_ending(s, n) =~= eol@);
                }
                let mark: Option<Vec<u8>> = self.parse_directive_line(path, &eol);
                proof {
                    assert forall|s: Seq<u8>| #[trigger] extends(s, p) implies line_tail(
                        rules,
                        progress,
                        s,
                        given.number@,
                        given.file@,
                        given.raw@,
                        seen.len() + pos,
                    ) == match mark {
                        Some(mark) => Step::Stop(Outcome::Split { at: n + 1, mark: mark@ }),
                        None => Step::Next { progress: self.progress(), at: n + 1 },
                    } by {
                        reveal(line_tail);
                    }
                }
                match mark {
                    Some(mark) => Move::Stop { pos: at + 1, mark },
                    None => Move::Go { state: State::LineStart, pos: at + 1 },
                }
            },
            None => {
                let end: usize = chunk.len();
                proof {
                    assert forall|s: Seq<u8>| #[trigger] extends(s, p) implies line_tail(
                        rules,
                        progress,
                        s,
                        given.number@,
                        given.file@,
                        given.raw@,
                        seen.len() + pos,
                    ) == line_tail(
                        rules,
                        progress,
                        s,
                        given.number@,
                        given.file@,
                        given.raw@,
                        seen.len() + end,
                    ) by {
                        reveal(line_tail);
                        lemma_skip_chunk(s, seen, chunk@, pos as int, end as int, Class::Inline);
                    }
                }
                Move::Go { state: State::Tail(path, chunk[end - 1]), pos: end }
            },
        }
    }

    /// One step of the machine.
    fn step(
        &mut self,
        state: State,
        chunk: &[u8],
        pos: usize,
        Ghost(seen): Ghost<Seq<u8>>,
    ) -> (r: Result<Move, PostprocessError>)
        requires
            pos < chunk@.len(),
            well_placed(state, old(self).progress(), seen + chunk@, seen.len() + pos),
        ensures
            final(self).rules() == old(self).rules(),
            final(self).marker == old(self).marker,
            final(self).keep_headers == old(self).keep_headers,
            follows(
                old(self).rules(),
                old(self).progress(),
                state,
                final(self).progress(),
                seen,
                chunk@,
                pos as int,
                r,
            ),
    {
        match state {
            State::Bom(n) => Ok(self.parse_bom(n, chunk, pos, Ghost(seen))),
            State::LineStart => Ok(self.parse_line(chunk, pos, Ghost(seen))),
            State::DirectiveGap => Ok(
                self.parse_spaces(State::DirectiveGap, chunk, pos, Ghost(seen)),
            ),
            State::DirectiveName(name) => self.parse_directive(name, chunk, pos, Ghost(seen)),
            State::NumberGap => Ok(self.parse_spaces(State::NumberGap, chunk, pos, Ghost(seen))),
            State::Number(number) => self.parse_number(number, chunk, pos, Ghost(seen)),
            State::PathGap(number) => Ok(self.open_path(number, chunk, pos, Ghost(seen))),
            State::Path(path) => self.parse_path(path, chunk, pos, Ghost(seen)),
            State::Escape(path) => self.parse_escape(path, chunk, pos, Ghost(seen)),
            State::Tail(path, last) => Ok(
                self.next_line_eol(path, last, chunk, pos, Ghost(seen)),
            ),
            State::PragmaGap => Ok(self.parse_spaces(State::PragmaGap, chunk, pos, Ghost(seen))),
            State::PragmaName(name) => self.parse_directive_pragma(name, chunk, pos, Ghost(seen)),
            State::SkipLine => Ok(self.next_line(chunk, pos, Ghost(seen))),
        }
    }
}

/// The filter of preprocessed source, fed piece by piece.
pub struct Scanner {
    context: Context,
    state: State,
    done: bool,
    seen: Ghost<Seq<u8>>,
}

impl Scanner {
    /// What this filter was asked for.
    pub closed spec fn rules(self) -> Rules {
        self.context.rules()
    }

    /// The name that the user gave for the marker.
    pub closed spec fn marker_name(self) -> Option<Seq<char>> {
        match self.context.marker {
            Some(marker) => Some(marker.name@),
            None => None,
        }
    }

    /// All that this filter has been fed.
    pub closed spec fn seen(self) -> Seq<u8> {
        self.seen@
    }

    /// Whether the machine stands where what it has been fed leads to.
    pub closed spec fn wf(self) -> bool {
        if self.done {
            &&& settled(self.rules(), self.seen())
            &&& outcome(self.rules(), self.seen()) matches Outcome::Split { at, .. } && 0 <= at
                <= self.seen().len()
        } else {
            &&& well_placed(
                self.state,
                self.context.progress(),
                self.seen(),
                self.seen().len() as int,
            )
            &&& forall|s: Seq<u8>| #[trigger]
                extends(s, self.seen()) ==> outcome(self.rules(), s) == resume(
                    self.rules(),
                    self.context.progress(),
                    self.state,
                    s,
                    self.seen().len() as int,
                )
        }
    }

    /// A filter that has been fed nothing.
    pub fn new(marker: Option<Marker>, keep_headers: bool) -> (r: Scanner)
        ensures
            r.wf(),
            r.seen() == Seq::<u8>::empty(),
            r.rules() == (Rules {
                marker: match marker {
                    Some(marker) => Some(marker.bytes@),
                    None => None,
                },
                keep: keep_headers,
            }),
            r.marker_name() == match marker {
                Some(marker) => Some(marker.name@),
                None => None,
            },
    {
        Scanner {
            context: Context { marker, keep_headers, entry_file: None, header_found: false },
            state: State::Bom(0),
            done: false,
            seen: Ghost(Seq::empty()),
        }
    }

    /// Feeds a piece of the text, and gives what is to be written for it.
    pub fn feed(self, chunk: &[u8]) -> (r: Result<(Scanner, Vec<u8>), PostprocessError>)
        requires
            self.wf(),
        ensures
            match r {
                Ok((next, out)) => {
                    &&& next.wf()
                    &&& next.rules() == self.rules()
                    &&& next.marker_name() == self.marker_name()
                    &&& next.seen() == self.seen() + chunk@
                    &&& !(settled(self.rules(), next.seen()) && outcome(
                        self.rules(),
                        next.seen(),
                    ) is Fail)
                    &&& written(self.rules(), self.seen()) + out@ == written(
                        self.rules(),
                        next.seen(),
                    )
                },
                Err(e) => {
                    &&& settled(self.rules(), self.seen() + chunk@)
                    &&& outcome(self.rules(), self.seen() + chunk@) == Outcome::Fail(e)
                },
            },
    {
        let ghost seen: Seq<u8> = self.seen@;
        let ghost p: Seq<u8> = seen + chunk@;
        let ghost rules: Rules = self.rules();
        let ghost name: Option<Seq<char>> = self.marker_name();
        let Scanner { context, state, done, seen: _ } = self;
        let mut context: Context = context;
        let mut out: Vec<u8> = Vec::new();
        if done {
            append_bytes(&mut out, chunk);
            proof {
                law_settled_stays(rules, seen, p);
                assert(p.take(outcome(rules, p)->at) =~= seen.take(outcome(rules, seen)->at));
                assert(p.skip(outcome(rules, p)->at) =~= seen.skip(outcome(rules, seen)->at)
                    + chunk@);
                assert(written(rules, seen) + out@ =~= written(rules, p));
            }
            return Ok((Scanner { context, state, done, seen: Ghost(p) }, out));
        }
        let mut state: State = state;
        let mut pos: usize = 0;
        proof {
            lemma_unsettled(rules, context.progress(), state, seen);
            assert forall|s: Seq<u8>| #[trigger] extends(s, p) implies extends(s, seen) by {
                assert forall|i: int| 0 <= i < seen.len() implies #[trigger] s[i] == seen[i] by {
                    assert(s[i] == p[i]);
                }
            }
            lemma_well_placed(state, context.progress(), seen, p);
        }
        while pos < chunk.len()
            invariant
                pos <= chunk@.len(),
                p == seen + chunk@,
                seen == self.seen(),
                rules == self.rules(),
                name == self.marker_name(),
                context.rules() == rules,
                name == (match context.marker {
                    Some(marker) => Some(marker.name@),
                    None => None,
                }),
                written(rules, seen) == (if rules.keep {
                    seen
                } else {
                    Seq::empty()
                }),
                out@ == Seq::<u8>::empty(),
                well_placed(state, context.progress(), p, seen.len() + pos),
                forall|s: Seq<u8>| #[trigger]
                    extends(s, p) ==> outcome(rules, s) == resume(
                        rules,
                        context.progress(),
                        state,
                        s,
                        seen.len() + pos,
                    ),
            decreases chunk@.len() - pos, rank(state),
        {
            match context.step(state, chunk, pos, Ghost(seen)) {
                Ok(Move::Go { state: next, pos: at }) => {
                    state = next;
                    pos = at;
                },
                Ok(Move::Stop { pos: at, mark }) => {
                    if context.keep_headers {
                        append_bytes(&mut out, vstd::slice::slice_subrange(chunk, 0, at));
                    }
                    append_bytes(&mut out, &mark);
                    append_bytes(&mut out, vstd::slice::slice_subrange(chunk, at, chunk.len()));
                    proof {
                        assert(extends(p, p));
                        let cut_at: int = seen.len() + at;
                        assert(p.take(cut_at) =~= seen + chunk@.subrange(0, at as int));
                        assert(p.skip(cut_at) =~= chunk@.subrange(at as int, chunk@.len() as int));
                        assert(written(rules, seen) + out@ =~= cut(rules.keep, p, cut_at, mark@));
                    }
                    return Ok(
                        (
                            Scanner {
                                context,
                                state: State::LineStart,
                                done: true,
                                seen: Ghost(p),
                            },
                            out,
                        ),
                    );
                },
                Err(e) => {
                    assert(extends(p, p));
                    return Err(e);
                },
            }
        }
        proof {
            lemma_unsettled(rules, context.progress(), state, p);
        }
        if context.keep_headers {
            append_bytes(&mut out, chunk);
        }
        assert(written(rules, seen) + out@ =~= written(rules, p));
        Ok((Scanner { context, state, done: false, seen: Ghost(p) }, out))
    }

    /// What it comes to if the text ends here.
    fn end(&self) -> (r: End)
        requires
            self.wf(),
            !self.done,
        ensures
            outcome(self.rules(), self.seen()) == match r {
                End::NoMarker => Outcome::NoMarker,
                End::NoPath => Outcome::NoPath,
                End::Fail(e) => Outcome::Fail(e),
                End::Split(mark) => Outcome::Split {
                    at: self.seen().len() as int,
                    mark: mark@,
                },
            },
    {
        proof {
            lemma_unsettled(self.rules(), self.context.progress(), self.state, self.seen());
        }
        match &self.state {
            State::NumberGap | State::Number(_) | State::PathGap(_) => End::NoPath,
            State::Path(_) => End::Fail(PostprocessError::LiteralEof),
            State::Escape(_) => End::Fail(PostprocessError::EscapeEof),
            State::Tail(path, _) => if self.context.ends_headers(&path.file) {
                let eol: Vec<u8> = Vec::new();
                End::Split(make_mark(&path.number, &path.raw, &eol))
            } else {
                End::NoMarker
            },
            _ => End::NoMarker,
        }
    }

    /// Whether the text may end here.
    pub fn can_finish(&self) -> (r: bool)
        requires
            self.wf(),
        ensures
            r == answerable(self.rules(), self.marker_name(), self.seen()),
    {
        if self.done {
            return true;
        }
        match self.end() {
            End::NoMarker => self.context.marker.is_some(),
            End::NoPath => false,
            _ => true,
        }
    }

    /// Ends the text, and gives what is still to be written, or what is wrong with it.
    pub fn finish(self) -> (r: Result<Vec<u8>, PostprocessError>)
        requires
            self.wf(),
            answerable(self.rules(), self.marker_name(), self.seen()),
        ensures
            answers(
                self.rules(),
                self.marker_name(),
                self.seen(),
                match r {
                    Ok(rest) => Ok(written(self.rules(), self.seen()) + rest@),
                    Err(e) => Err(e),
                },
            ),
    {
        let ghost s: Seq<u8> = self.seen();
        let ghost rules: Rules = self.rules();
        if self.done {
            let out: Vec<u8> = Vec::new();
            assert(written(rules, s) + out@ =~= written(rules, s));
            return Ok(out);
        }
        proof {
            lemma_unsettled(rules, self.context.progress(), self.state, s);
        }
        match self.end() {
            End::Split(mark) => {
                assert(s.take(s.len() as int) =~= s);
                assert(s.skip(s.len() as int) =~= Seq::empty());
                assert(written(rules, s) + mark@ =~= cut(rules.keep, s, s.len() as int, mark@));
                Ok(mark)
            },
            End::Fail(e) => Err(e),
            _ => {
                let Scanner { context, state: _, done: _, seen: _ } = self;
                match context.marker {
                    Some(marker) => Err(PostprocessError::MarkerNotFound(marker.name)),
                    None => vstd::pervasive::unreached(),
                }
            },
        }
    }
}

} // verus!
