use octobuild::command::{join, parse, quote, quoted_or_error, words_or_error, Error};

#[test]
fn test_parse_1() {
    assert_eq!(parse(r#""abc" d e"#).unwrap(), ["abc", "d", "e"]);
}

#[test]
fn test_parse_2() {
    assert_eq!(parse(r#" "abc" d e "#).unwrap(), ["abc", "d", "e"]);
}

#[test]
fn test_parse_3() {
    assert_eq!(
        parse(r#""" "abc" d e """#).unwrap(),
        ["", "abc", "d", "e", ""]
    );
}

#[test]
fn test_parse_4() {
    assert_eq!(parse(r#"a\\b d"e f"g h"#).unwrap(), [r"a\b", "de fg", "h"]);
}

#[test]
fn test_parse_5() {
    assert_eq!(parse(r#"a\\\"b c d"#).unwrap(), [r#"a\"b"#, "c", "d"]);
}

#[test]
fn test_parse_6() {
    assert_eq!(parse(r#"a\\\\"b c" d e"#).unwrap(), [r"a\\b c", "d", "e"]);
}

#[test]
fn test_parse_7() {
    assert_eq!(
        parse(r"C:\\Windows\\System32 d e").unwrap(),
        [r"C:\Windows\System32", "d", "e"]
    );
}

#[test]
fn test_parse_8() {
    assert_eq!(
        parse(r#"/TEST"C:\Windows\System32" d e"#).unwrap(),
        [r"/TESTC:\Windows\System32", "d", "e"]
    );
}

#[test]
fn test_parse_9() {
    assert_eq!(
        parse(r#"begin ' some text " foo\ bar\' end"#).unwrap(),
        ["begin", r#" some text " foo\ bar\"#, "end"]
    );
}

#[test]
fn test_parse_10() {
    assert_eq!(
        parse(r"begin some\ text end").unwrap(),
        ["begin", "some text", "end"]
    );
}

#[test]
fn unclosed_quote_is_reported() {
    match parse("a 'b") {
        Err(Error::Generic(message)) => {
            assert_eq!(message, "Unable to parse commandline: a 'b");
        }
        _ => panic!("an unclosed quote was accepted"),
    }
}

#[test]
fn empty_line_has_no_words() {
    assert_eq!(parse("").unwrap(), Vec::<String>::new());
    assert_eq!(parse(" # nothing here").unwrap(), Vec::<String>::new());
}

#[test]
fn words_are_handed_on() {
    let words = vec!["a".to_string(), "b c".to_string()];
    assert_eq!(words_or_error("x", Some(words.clone())).unwrap(), words);
    match words_or_error("x", None) {
        Err(Error::Generic(message)) => assert_eq!(message, "Unable to parse commandline: x"),
        _ => panic!("an erroneous line was accepted"),
    }
}

#[test]
fn quoting_error_is_mapped() {
    assert_eq!(quoted_or_error(Ok("'x y'".to_string())).unwrap(), "'x y'");
    assert!(matches!(
        quoted_or_error(Err(shlex::QuoteError::Nul)),
        Err(Error::Nul)
    ));
}

#[test]
fn quote_of_plain_and_other_words() {
    assert_eq!(quote("foobar").unwrap(), "foobar");
    assert_eq!(quote("").unwrap(), "''");
    assert_eq!(quote("foo bar").unwrap(), "'foo bar'");
    assert_eq!(quote("'foo bar'").unwrap(), "\"'foo bar'\"");
}

#[test]
fn quote_refuses_nul() {
    assert!(matches!(quote("a\0b"), Err(Error::Nul)));
}

#[test]
fn join_separates_by_one_space() {
    let words = vec!["foo bar".to_string(), "baz".to_string()];
    assert_eq!(join(&words).unwrap(), "'foo bar' baz");
    assert_eq!(join(&[]).unwrap(), "");
}

#[test]
fn join_refuses_nul() {
    let words = vec!["a".to_string(), "\0".to_string()];
    assert!(matches!(join(&words), Err(Error::Nul)));
}

#[test]
fn parse_gives_back_what_was_quoted() {
    for word in [
        "", "a", "a b", "'", "\"", "\\", "#", "a\nb", "^x", "!'^\\\"$`", "\t", "\u{44f} z",
    ] {
        let quoted = quote(word).unwrap();
        assert_eq!(parse(&quoted).unwrap(), [word]);
    }
}

#[test]
fn parse_gives_back_what_was_joined() {
    let words: Vec<String> = vec![
        "cl.exe".to_string(),
        "".to_string(),
        "/DNAME=\"a b\"".to_string(),
        "C:\\Program Files\\x".to_string(),
        "#".to_string(),
    ];
    let line = join(&words).unwrap();
    assert_eq!(parse(&line).unwrap(), words);
}

#[test]
fn joined_lists_are_joined_by_a_space() {
    let first = vec!["a".to_string(), "b c".to_string()];
    let second = vec!["d".to_string()];
    let all = vec!["a".to_string(), "b c".to_string(), "d".to_string()];
    assert_eq!(
        join(&all).unwrap(),
        format!("{} {}", join(&first).unwrap(), join(&second).unwrap())
    );
    assert_eq!(join(&second).unwrap(), quote("d").unwrap());
}

#[test]
fn plain_words_are_quoted_as_themselves() {
    for word in ["abc", "0", "Zz9", "a/b.c:d@e_f+g-h]"] {
        assert_eq!(quote(word).unwrap(), word);
    }
    assert_ne!(quote("a=b").unwrap(), "a=b");
}

#[test]
fn different_words_are_quoted_differently() {
    let words = ["", "''", "a", "'a'", "\"a\"", "a ", " a"];
    for a in words {
        for b in words {
            assert_eq!(quote(a).unwrap() == quote(b).unwrap(), a == b);
        }
    }
}
