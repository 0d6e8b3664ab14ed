use octobuild::bytes::{is_subpath, memchr, same_bytes};
use octobuild::grammar::PostprocessError;
use octobuild::postprocess::{
    bom_undecided, encode_marker, filter_preprocessed, filter_with_marker, forward_slashes,
    has_bom, FilterError,
};
use octobuild::scanner::{Marker, Scanner};

const UNIT: &str = "#line 1 \"a.cpp\"\n#line 1 \"inc/stdafx.h\"\nint h;\n#line 2 \"a.cpp\"\nint x;\n";

fn marker(name: &str) -> Option<Marker> {
    Some(Marker {
        name: name.to_string(),
        bytes: name.as_bytes().to_vec(),
    })
}

fn run(text: &[u8], name: Option<&str>, keep: bool) -> Option<Result<Vec<u8>, PostprocessError>> {
    filter_with_marker(text, name.and_then(marker), keep)
}

fn output(text: &str, name: Option<&str>, keep: bool) -> String {
    String::from_utf8(run(text.as_bytes(), name, keep).unwrap().unwrap()).unwrap()
}

fn error(text: &[u8]) -> PostprocessError {
    run(text, Some("stdafx.h"), false).unwrap().unwrap_err()
}

fn fed_in_pieces(text: &[u8], name: Option<&str>, keep: bool, size: usize) -> Vec<u8> {
    let mut scanner = Scanner::new(name.and_then(marker), keep);
    let mut out = Vec::new();
    for piece in text.chunks(size) {
        let (next, written) = scanner.feed(piece).unwrap();
        scanner = next;
        out.extend_from_slice(&written);
    }
    assert!(scanner.can_finish());
    out.extend_from_slice(&scanner.finish().unwrap());
    out
}

#[test]
fn pieces_make_no_difference() {
    for eol in ["\n", "\r\n"] {
        let text = UNIT.replace('\n', eol);
        for keep in [false, true] {
            let whole = run(text.as_bytes(), Some("stdafx.h"), keep).unwrap().unwrap();
            for size in 1..=text.len() {
                assert_eq!(
                    fed_in_pieces(text.as_bytes(), Some("stdafx.h"), keep, size),
                    whole
                );
            }
        }
    }
}

#[test]
fn pieces_of_a_pragma() {
    let text = b"\xEF\xBB\xBFint h;\n#  pragma\thdrstop\nint x;\n";
    for size in 1..=text.len() {
        assert_eq!(fed_in_pieces(text, None, true, size), text);
        assert_eq!(
            fed_in_pieces(text, None, false, size),
            b"#pragma hdrstop\nint x;\n"
        );
    }
}

#[test]
fn kept_headers_are_written_as_they_are_read() {
    let scanner = Scanner::new(marker("stdafx.h"), true);
    let (scanner, first) = scanner.feed(b"int a;\n#prag").unwrap();
    assert_eq!(first, b"int a;\n#prag");
    let (scanner, second) = scanner.feed(b"ma hdrstop").unwrap();
    assert_eq!(second, b"ma hdrstop");
    let (scanner, third) = scanner.feed(b"\nint b;").unwrap();
    assert_eq!(third, b"\nint b;");
    let (scanner, fourth) = scanner.feed(b"#line").unwrap();
    assert_eq!(fourth, b"#line");
    assert_eq!(scanner.finish().unwrap(), b"");
}

#[test]
fn removed_headers_are_not_written() {
    let scanner = Scanner::new(None, false);
    let (scanner, first) = scanner.feed(b"int a;\n#pragma hdrstop").unwrap();
    assert_eq!(first, b"");
    let (_, second) = scanner.feed(b"\nint b;").unwrap();
    assert_eq!(second, b"#pragma hdrstop\nint b;");
}

#[test]
fn error_comes_with_the_piece_that_holds_it() {
    let scanner = Scanner::new(None, true);
    let (scanner, _) = scanner.feed(b"#line 1 \"a").unwrap();
    assert!(matches!(
        scanner.feed(b"b\n"),
        Err(PostprocessError::LiteralEol)
    ));
}

#[test]
fn line_cut_at_the_end_of_the_text() {
    let text = "#line 1 \"a\"\n#line 1 \"m\"\n#line 7 \"a\"";
    assert_eq!(
        output(text, Some("m"), false),
        "#pragma hdrstop#line 7 \"a\""
    );
    assert_eq!(
        output(text, Some("m"), true),
        "#line 1 \"a\"\n#line 1 \"m\"\n#line 7 \"a\"#pragma hdrstop#line 7 \"a\""
    );
}

#[test]
fn unit_itself_may_not_be_the_marker() {
    let text = "#line 1 \"m\"\n#line 2 \"m\"\n#line 3 \"m\"\nx\n";
    assert_eq!(
        output(text, Some("m"), false),
        "#pragma hdrstop\n#line 3 \"m\"\nx\n"
    );
}

#[test]
fn escapes_in_a_path() {
    let text = "#line 1 \"d\\\\a\"\n#line 1 \"m\"\n#line 2 \"d/a\"\nx\n";
    assert_eq!(
        output(text, Some("m"), false),
        "#pragma hdrstop\n#line 2 \"d/a\"\nx\n"
    );
    let text = "#line 1 \"d/a\"\n#line 1 \"m\"\n#line 2 \"d\\\\a\"\nx\n";
    assert_eq!(
        output(text, Some("m"), false),
        "#pragma hdrstop\n#line 2 \"d\\\\a\"\nx\n"
    );
    let text = "#line 1 \"\\n\\r\\t\\q\"\n#line 1 \"m\"\n#line 2 '\\n\\r\\t\\q'\nx\n";
    assert_eq!(
        output(text, Some("m"), false),
        "#pragma hdrstop\n#line 2 '\\\\\\\\\\\\\\\\'\nx\n"
    );
}

#[test]
fn rest_of_the_line_is_passed_over() {
    let text = "#line 1 \"a\" 1\n#line 1 \"m\" 2\n  # line\t2\x0C\"a\" 3 4\r\nx\n";
    assert_eq!(
        output(text, Some("m"), false),
        "#pragma hdrstop\r\n#line 2 \"a\"\r\nx\n"
    );
}

#[test]
fn literal_eol() {
    assert!(matches!(error(b"#line 1 \"a\n"), PostprocessError::LiteralEol));
    assert!(matches!(error(b"#line 1 \"a\r"), PostprocessError::LiteralEol));
    assert!(matches!(error(b"#line 1 a\n"), PostprocessError::LiteralEol));
}

#[test]
fn literal_eof() {
    assert!(matches!(error(b"#line 1 \"a"), PostprocessError::LiteralEof));
    assert!(matches!(error(b"#line 1 \""), PostprocessError::LiteralEof));
}

#[test]
fn escape_eof() {
    assert!(matches!(error(b"#line 1 \"a\\"), PostprocessError::EscapeEof));
}

#[test]
fn literal_too_long() {
    let text = format!("#line 1 \"{}\"\n", "x".repeat(1021));
    assert!(matches!(
        error(text.as_bytes()),
        PostprocessError::LiteralTooLong
    ));
    let text = format!("#line 1 \"{}\"\n", "x".repeat(1020));
    assert!(matches!(
        error(text.as_bytes()),
        PostprocessError::MarkerNotFound(_)
    ));
    let text = format!("#line 1 \"x{}\"\n", "\\\\".repeat(510));
    assert!(matches!(
        error(text.as_bytes()),
        PostprocessError::LiteralTooLong
    ));
    let text = format!("#line 1 \"{}\"\n", "\\\\".repeat(510));
    assert!(matches!(
        error(text.as_bytes()),
        PostprocessError::MarkerNotFound(_)
    ));
}

#[test]
fn token_too_long() {
    assert!(matches!(
        error(b"#abcdefghijklmnopq\n"),
        PostprocessError::TokenTooLong
    ));
    assert!(matches!(
        error(b"#abcdefghijklmnop\n"),
        PostprocessError::MarkerNotFound(_)
    ));
    assert!(matches!(
        error(b"#line 12345678901234567 \"a\"\n"),
        PostprocessError::TokenTooLong
    ));
    assert!(matches!(
        error(b"#pragma abcdefghijklmnopabcdefghijklmnopq\n"),
        PostprocessError::TokenTooLong
    ));
    assert!(matches!(
        error(b"#pragma abcdefghijklmnopabcdefghijklmnop\n"),
        PostprocessError::MarkerNotFound(_)
    ));
}

#[test]
fn marker_not_found() {
    match error(b"int x;\n") {
        PostprocessError::MarkerNotFound(name) => assert_eq!(name, "stdafx.h"),
        e => panic!("{:?}", e),
    }
    assert!(matches!(error(b""), PostprocessError::MarkerNotFound(_)));
}

#[test]
fn no_answer() {
    assert!(run(b"int x;\n", None, false).is_none());
    assert!(run(b"#line 1 ", Some("m"), false).is_none());
    assert!(run(b"#line 1", Some("m"), false).is_none());
    assert!(run(b"#line ", Some("m"), false).is_none());
    let (scanner, _) = Scanner::new(marker("m"), true).feed(b"#line 1").unwrap();
    assert!(!scanner.can_finish());
}

#[test]
fn name_at_the_end_of_the_text_is_no_name() {
    assert!(matches!(
        error(b"#pragma hdrstop"),
        PostprocessError::MarkerNotFound(_)
    ));
    assert!(matches!(error(b"#line"), PostprocessError::MarkerNotFound(_)));
}

#[test]
fn part_of_a_byte_order_mark_is_passed_over() {
    assert_eq!(
        run(b"\xEF\xBB#pragma hdrstop\nx", None, false).unwrap().unwrap(),
        b"#pragma hdrstop\nx"
    );
    assert!(bom_undecided(b""));
    assert!(bom_undecided(b"\xEF\xBB"));
    assert!(!bom_undecided(b"\xEFx"));
    assert!(!bom_undecided(b"\xEF\xBB\xBF"));
    assert!(has_bom(b"\xEF\xBB\xBFx"));
    assert!(!has_bom(b"\xEF\xBB"));
}

#[test]
fn byte_order_mark_makes_no_other_difference() {
    let mut text = b"\xEF\xBB\xBF".to_vec();
    text.extend_from_slice(UNIT.as_bytes());
    let mut expected = b"\xEF\xBB\xBF".to_vec();
    expected.extend_from_slice(output(UNIT, Some("stdafx.h"), true).as_bytes());
    assert_eq!(run(&text, Some("stdafx.h"), true).unwrap().unwrap(), expected);
    assert_eq!(
        run(&text, Some("stdafx.h"), false).unwrap().unwrap(),
        output(UNIT, Some("stdafx.h"), false).into_bytes()
    );
}

#[test]
fn backslashes_of_the_marker() {
    assert_eq!(forward_slashes("a\\b\\\u{44f}/c"), "a/b/\u{44f}/c");
    assert_eq!(encode_marker("a\\b", false).unwrap(), b"a/b");
    assert_eq!(encode_marker("a\\b", true).unwrap(), b"a\\b");
    assert_eq!(encode_marker("\u{44f}", true).unwrap(), b"\xD1\x8F");
    let plain = filter_preprocessed(
        UNIT.as_bytes(),
        &Some("inc\\stdafx.h".to_string()),
        false,
    );
    assert_eq!(
        plain.unwrap().unwrap(),
        b"#pragma hdrstop\n#line 2 \"a.cpp\"\nint x;\n"
    );
    let mut text = b"\xEF\xBB\xBF".to_vec();
    text.extend_from_slice(UNIT.as_bytes());
    let with_mark = filter_preprocessed(&text, &Some("inc\\stdafx.h".to_string()), false);
    match with_mark.unwrap() {
        Err(FilterError::Postprocess(PostprocessError::MarkerNotFound(name))) => {
            assert_eq!(name, "inc\\stdafx.h");
        }
        other => panic!("{:?}", other),
    }
    assert!(filter_preprocessed(b"int x;", &None, false).is_none());
}

#[test]
fn removing_twice_changes_nothing() {
    let once = output(UNIT, Some("stdafx.h"), false);
    assert_eq!(output(&once, Some("other.h"), false), once);
    assert_eq!(output(&once, None, false), once);
}

#[test]
fn kept_and_removed_are_cut_at_the_same_place() {
    let kept = output(UNIT, Some("stdafx.h"), true);
    let removed = output(UNIT, Some("stdafx.h"), false);
    let headers = "#line 1 \"a.cpp\"\n#line 1 \"inc/stdafx.h\"\nint h;\n#line 2 \"a.cpp\"\n";
    assert_eq!(kept, format!("{}{}", headers, removed));
    assert_eq!(
        removed,
        "#pragma hdrstop\n#line 2 \"a.cpp\"\nint x;\n"
    );
}

#[test]
fn without_a_marker_only_a_pragma_cuts() {
    let text = format!("{}#pragma hdrstop\ny\n", UNIT);
    assert_eq!(output(&text, None, false), "#pragma hdrstop\ny\n");
}

#[test]
fn case_of_the_marker_makes_no_difference() {
    assert_eq!(
        output(UNIT, Some("StdAfx.H"), false),
        output(UNIT, Some("stdafx.h"), false)
    );
}

#[test]
fn path_over_a_line_end_depends_on_the_line_ending() {
    let text = "#line 1 \"a\\\nb\"\n#pragma hdrstop\nx\n";
    assert_eq!(output(text, None, false), "#pragma hdrstop\nx\n");
    let crlf = text.replace('\n', "\r\n");
    assert!(matches!(
        run(crlf.as_bytes(), None, false),
        Some(Err(PostprocessError::LiteralEol))
    ));
}

#[test]
fn subpaths() {
    assert!(is_subpath(b"d/a.h", b"a.h"));
    assert!(is_subpath(b"d/a.h", b"D/A.h"));
    assert!(is_subpath(b"a.h", b"a.h"));
    assert!(!is_subpath(b"d/xa.h", b"a.h"));
    assert!(!is_subpath(b"a.h", b"d/a.h"));
    assert!(!is_subpath(b"d/a.h", b"b.h"));
    assert!(!is_subpath(b"d/[.h", b"{.h"));
    assert!(is_subpath(b"d/", b""));
    assert!(!is_subpath(b"d", b""));
}

#[test]
fn searches_and_comparisons() {
    assert_eq!(memchr(b"a\nb\n", 0, 10), Some(1));
    assert_eq!(memchr(b"a\nb\n", 2, 10), Some(3));
    assert_eq!(memchr(b"ab", 0, 10), None);
    assert!(same_bytes(b"ab", b"ab"));
    assert!(!same_bytes(b"ab", b"ac"));
    assert!(!same_bytes(b"ab", b"abc"));
}

#[test]
fn empty_marker_has_no_bytes() {
    assert_eq!(encode_marker("", false).unwrap(), b"");
    assert_eq!(encode_marker("", true).unwrap(), b"");
    let text = "#line 1 \"a\"\n#line 1 \"d/\"\n#line 2 \"a\"\nx\n";
    let out = filter_preprocessed(text.as_bytes(), &Some(String::new()), false);
    assert_eq!(
        out.unwrap().unwrap(),
        b"#pragma hdrstop\n#line 2 \"a\"\nx\n"
    );
}

#[test]
fn slashes_of_the_marker_make_no_difference() {
    for name in ["inc\\stdafx.h", "inc/stdafx.h", "INC\\StdAfx.h"] {
        let out = filter_preprocessed(UNIT.as_bytes(), &Some(name.to_string()), false);
        assert_eq!(
            out.unwrap().unwrap(),
            b"#pragma hdrstop\n#line 2 \"a.cpp\"\nint x;\n"
        );
    }
}

#[test]
fn cut_behind_a_newline_is_written_at_once() {
    let head = "#line 1 \"a\"\n#line 1 \"m\"\n#line 2 \"a\"\n";
    let (scanner, out) = Scanner::new(marker("m"), false).feed(head.as_bytes()).unwrap();
    assert_eq!(out, b"#pragma hdrstop\n#line 2 \"a\"\n");
    let (scanner, out) = scanner.feed(b"#line 3 \"a\"\n").unwrap();
    assert_eq!(out, b"#line 3 \"a\"\n");
    assert_eq!(scanner.finish().unwrap(), b"");
}

#[test]
fn repeated_path_reads_back() {
    let text = "#line 1 \"d\\\\a\"\n#line 1 \"m\"\n#line 2 \"d\\\\a\"\nx\n";
    let once = output(text, Some("m"), false);
    assert_eq!(once, "#pragma hdrstop\n#line 2 \"d\\\\a\"\nx\n");
    let again = once.replace("#pragma hdrstop\n", "#line 1 \"d/a\"\n#line 1 \"m\"\n");
    assert_eq!(output(&again, Some("m"), false), once);
}

#[test]
fn first_line_fixes_the_entry_file() {
    let text = "#line 1 \"a\"\n#line 1 \"b\"\n#line 1 \"m\"\n#line 2 \"b\"\n#line 5 \"a\"\nx\n";
    assert_eq!(
        output(text, Some("m"), false),
        "#pragma hdrstop\n#line 5 \"a\"\nx\n"
    );
}
