//! Command lines of POSIX shells: into words, and from words.

use vstd::prelude::*;

verus! {

/// Why a command line was not split or made.
#[derive(Debug)]
pub enum Error {
    /// What went wrong, in words.
    Generic(String),
    /// A word holds a nul character, and no quoting makes a shell take one.
    Nul,
}

/// The error of the quoting functions of `shlex`.
#[verifier::external_type_specification]
#[verifier::external_body]
pub struct ExQuoteError(shlex::QuoteError);

/// The words that `shlex::split` finds in a text, or `None` if it finds the text erroneous.
pub uninterp spec fn shell_words(text: Seq<char>) -> Option<Seq<Seq<char>>>;

/// What `shlex::try_quote` makes of a word without nul characters.
pub uninterp spec fn shell_quoted(word: Seq<char>) -> Seq<char>;

/// The texts of strings.
pub open spec fn texts(words: Seq<String>) -> Seq<Seq<char>> {
    Seq::new(words.len(), |i: int| words[i]@)
}

/// Whether a word holds a nul character.
pub open spec fn has_nul(word: Seq<char>) -> bool {
    word.contains('\0')
}

/// Whether a character means nothing to a shell: an ASCII letter or digit, or one of a few marks.
pub open spec fn is_plain_char(c: char) -> bool {
    ||| 'a' <= c <= 'z'
    ||| 'A' <= c <= 'Z'
    ||| '0' <= c <= '9'
    ||| c == '+' || c == '-' || c == '.' || c == '/' || c == ':' || c == '@' || c == ']' || c == '_'
}

/// Whether a word is not empty and means nothing but itself to a shell.
pub open spec fn is_plain(word: Seq<char>) -> bool {
    word.len() > 0 && forall|i: int| 0 <= i < word.len() ==> is_plain_char(#[trigger] word[i])
}

/// Whether one of the words holds a nul character.
pub open spec fn any_nul(words: Seq<Seq<char>>) -> bool {
    exists|i: int| 0 <= i < words.len() && has_nul(#[trigger] words[i])
}

/// The quoted words, with a space between each two of them.
pub open spec fn shell_joined(words: Seq<Seq<char>>) -> Seq<char>
    decreases words.len(),
{
    if words.len() == 0 {
        Seq::empty()
    } else if words.len() == 1 {
        shell_quoted(words[0])
    } else {
        shell_joined(words.drop_last()).push(' ') + shell_quoted(words.last())
    }
}

/// `shlex::split` gives the words of a text, or `None` if the text is erroneous; the text alone
/// decides which.
pub assume_specification[ shlex::split ](in_str: &str) -> (r: Option<Vec<String>>)
    ensures
        r is Some <==> shell_words(in_str@) is Some,
        r is Some ==> shell_words(in_str@) == Some(texts(r->Some_0@)),
;

/// `shlex::try_quote` refuses a word with a nul character, and no other. What it makes of a word
/// depends on the word alone, and `shlex::split` finds in it the word, and nothing else. A word of
/// letters, digits and the marks that a shell takes as they are stays as it is.
#[verifier::external_body]
fn try_quote(word: &str) -> (r: Result<String, shlex::QuoteError>)
    ensures
        r is Err <==> has_nul(word@),
        r is Ok ==> r->Ok_0@ == shell_quoted(word@),
        r is Ok ==> shell_words(r->Ok_0@) == Some(seq![word@]),
        r is Ok && is_plain(word@) ==> r->Ok_0@ == word@,
{
    Ok(shlex::try_quote(word)?.into_owned())
}

/// `shlex::try_join` refuses words of which one has a nul character, and no others. It quotes
/// each word and puts a space between each two of them, and `shlex::split` finds in the result
/// these words, in this order.
#[verifier::external_body]
fn try_join(words: &[String]) -> (r: Result<String, shlex::QuoteError>)
    ensures
        r is Err <==> any_nul(texts(words@)),
        r is Ok ==> r->Ok_0@ == shell_joined(texts(words@)),
        r is Ok ==> shell_words(r->Ok_0@) == Some(texts(words@)),
{
    shlex::try_join(words.iter().map(|word| word.as_str()))
}

/// The words of a command line, or the error that says that it has none.
pub fn words_or_error(cmd: &str, words: Option<Vec<String>>) -> (r: Result<Vec<String>, Error>)
    ensures
        match words {
            Some(words) => r == Ok::<Vec<String>, Error>(words),
            None => r matches Err(Error::Generic(message)) && message@
                == "Unable to parse commandline: "@ + cmd@,
        },
{
    match words {
        Some(words) => Ok(words),
        None => {
            let mut message: String = "Unable to parse commandline: ".to_string();
            message.append(cmd);
            Err(Error::Generic(message))
        },
    }
}

/// A quoted text, or the error that says that it cannot be had.
pub fn quoted_or_error(quoted: Result<String, shlex::QuoteError>) -> (r: Result<String, Error>)
    ensures
        match quoted {
            Ok(text) => r == Ok::<String, Error>(text),
            Err(_) => r == Err::<String, Error>(Error::Nul),
        },
{
    match quoted {
        Ok(text) => Ok(text),
        Err(_) => Err(Error::Nul),
    }
}

/// Splits a command line into its words, as a shell does.
pub fn parse(cmd: &str) -> (r: Result<Vec<String>, Error>)
    ensures
        match shell_words(cmd@) {
            Some(words) => r matches Ok(found) && texts(found@) == words,
            None => r matches Err(Error::Generic(message)) && message@
                == "Unable to parse commandline: "@ + cmd@,
        },
{
    words_or_error(cmd, shlex::split(cmd))
}

/// Quotes a word for a command line: `parse` of the result gives back the word.
pub fn quote(arg: &str) -> (r: Result<String, Error>)
    ensures
        has_nul(arg@) ==> r == Err::<String, Error>(Error::Nul),
        !has_nul(arg@) ==> (r matches Ok(quoted) && quoted@ == shell_quoted(arg@) && shell_words(
            quoted@,
        ) == Some(seq![arg@])),
        is_plain(arg@) ==> (r matches Ok(quoted) && quoted@ == arg@),
{
    quoted_or_error(try_quote(arg))
}

/// Makes a command line of words: `parse` of the result gives back the words.
pub fn join(words: &[String]) -> (r: Result<String, Error>)
    ensures
        any_nul(texts(words@)) ==> r == Err::<String, Error>(Error::Nul),
        !any_nul(texts(words@)) ==> (
        r matches Ok(line) && line@ == shell_joined(texts(words@)) && shell_words(line@) == Some(
            texts(words@),
        )),
{
    quoted_or_error(try_join(words))
}

/// A word holds a nul character if one of its characters is the one with the number 0.
pub proof fn law_has_nul(word: Seq<char>)
    ensures
        has_nul(word) <==> exists|i: int| 0 <= i < word.len() && #[trigger] word[i] == '\u{0}',
{
}

/// The texts of strings are those of each of them, in their order; and one of them holds a nul
/// character if one of the strings does.
pub proof fn law_texts(words: Seq<String>)
    ensures
        texts(words).len() == words.len(),
        forall|i: int| 0 <= i < words.len() ==> #[trigger] texts(words)[i] == words[i]@,
        any_nul(texts(words)) <==> exists|i: int, j: int|
            0 <= i < words.len() && 0 <= j < words[i]@.len() && #[trigger] words[i]@[j] == '\u{0}',
{
    if any_nul(texts(words)) {
        let i = choose|i: int| 0 <= i < words.len() && has_nul(#[trigger] texts(words)[i]);
        let j = choose|j: int| 0 <= j < words[i]@.len() && words[i]@[j] == '\u{0}';
        assert(words[i]@[j] == '\u{0}');
    }
    if exists|i: int, j: int|
        0 <= i < words.len() && 0 <= j < words[i]@.len() && #[trigger] words[i]@[j] == '\u{0}' {
        let (i, j) = choose|i: int, j: int|
            0 <= i < words.len() && 0 <= j < words[i]@.len() && #[trigger] words[i]@[j] == '\u{0}';
        assert(texts(words)[i][j] == '\u{0}');
        assert(has_nul(texts(words)[i]));
    }
}

/// A word means nothing but itself to a shell if it is not empty and has no characters but these.
pub proof fn law_is_plain(word: Seq<char>)
    ensures
        is_plain(word) <==> word.len() > 0 && forall|i: int|
            0 <= i < word.len() ==> {
                let plain =
                    "abcdefghijklmnopqrstuvwxyzABCDEFGHIJKLMNOPQRSTUVWXYZ0123456789+-./:@]_"@;
                plain.contains(#[trigger] word[i])
            },
{
    let plain = "abcdefghijklmnopqrstuvwxyzABCDEFGHIJKLMNOPQRSTUVWXYZ0123456789+-./:@]_"@;
    assert forall|i: int| 0 <= i < word.len() implies is_plain_char(#[trigger] word[i])
        == plain.contains(word[i]) by {
        law_is_plain_char(word[i]);
    }
}

/// The characters that mean nothing to a shell.
pub proof fn law_is_plain_char(c: char)
    ensures
        is_plain_char(c)
            <==> "abcdefghijklmnopqrstuvwxyzABCDEFGHIJKLMNOPQRSTUVWXYZ0123456789+-./:@]_"@.contains(
            c,
        ),
{
    reveal_strlit("abcdefghijklmnopqrstuvwxyzABCDEFGHIJKLMNOPQRSTUVWXYZ0123456789+-./:@]_");
    let plain = "abcdefghijklmnopqrstuvwxyzABCDEFGHIJKLMNOPQRSTUVWXYZ0123456789+-./:@]_"@;
    if is_plain_char(c) {
        let k: int = if 'a' <= c <= 'z' {
            c as u32 - 0x61
        } else if 'A' <= c <= 'Z' {
            c as u32 - 0x41 + 26
        } else if '0' <= c <= '9' {
            c as u32 - 0x30 + 52
        } else if c == '+' {
            62
        } else if c == '-' {
            63
        } else if c == '.' {
            64
        } else if c == '/' {
            65
        } else if c == ':' {
            66
        } else if c == '@' {
            67
        } else if c == ']' {
            68
        } else {
            69
        };
        assert(plain[k] == c);
    }
}

/// No two words share a quoted form: `qa` and `qb` are what `quote` gives for `a` and `b`.
pub proof fn law_quote_tells_words_apart(
    a: Seq<char>,
    b: Seq<char>,
    qa: Seq<char>,
    qb: Seq<char>,
)
    requires
        shell_words(qa) == Some(seq![a]),
        shell_words(qb) == Some(seq![b]),
    ensures
        qa == qb ==> a == b,
{
    if qa == qb {
        assert(seq![a][0] == seq![b][0]);
    }
}

/// To join one word is to quote it, and to join none gives nothing.
pub proof fn law_join_one(word: Seq<char>)
    ensures
        shell_joined(seq![word]) == shell_quoted(word),
        shell_joined(seq![]).len() == 0,
{
}

/// The command line of two lists of words is that of the first, a space and that of the second.
pub proof fn law_join_lists(first: Seq<Seq<char>>, second: Seq<Seq<char>>)
    requires
        first.len() > 0,
        second.len() > 0,
    ensures
        shell_joined(first + second) == shell_joined(first).push(' ') + shell_joined(second),
    decreases second.len(),
{
    let all = first + second;
    assert(all.last() == second.last());
    if second.len() == 1 {
        assert(all.drop_last() =~= first);
    } else {
        assert(all.drop_last() =~= first + second.drop_last());
        law_join_lists(first, second.drop_last());
        assert(shell_joined(all) =~= shell_joined(first).push(' ') + shell_joined(second));
    }
}

} // verus!
