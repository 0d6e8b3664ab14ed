use octobuild::postprocess::filter_preprocessed;

fn check_filter_pass(
    original: &str,
    expected: &str,
    marker: &Option<String>,
    keep_headers: bool,
    eol: &str,
) {
    let stream = original.replace('\n', eol);
    match filter_preprocessed(stream.as_bytes(), marker, keep_headers) {
        Some(Ok(writer)) => assert_eq!(
            String::from_utf8_lossy(&writer),
            expected.replace('\n', eol)
        ),
        Some(Err(e)) => {
            panic!("{:?}", e);
        }
        None => {
            panic!("no answer");
        }
    }
}

fn check_filter(original: &str, expected: &str, marker: Option<String>, keep_headers: bool) {
    check_filter_pass(original, expected, &marker, keep_headers, "\n");
    check_filter_pass(original, expected, &marker, keep_headers, "\r\n");
}

#[test]
fn test_filter_precompiled_keep() {
    check_filter(
        r#"#line 1 "sample.cpp"
#line 1 "e:/work/octobuild/test_cl/sample header.h"
# pragma once
void hello();
#line 2 "sample.cpp"

int main(int argc, char **argv) {
	return 0;
}
"#,
        r#"#line 1 "sample.cpp"
#line 1 "e:/work/octobuild/test_cl/sample header.h"
# pragma once
void hello();
#line 2 "sample.cpp"
#pragma hdrstop
#line 2 "sample.cpp"

int main(int argc, char **argv) {
	return 0;
}
"#,
        Some(String::from("sample header.h")),
        true,
    )
}

#[test]
fn test_filter_precompiled_remove() {
    check_filter(
        r#"#line 1 "sample.cpp"
#line 1 "e:/work/octobuild/test_cl/sample header.h"
# pragma once
void hello1();
void hello2();
#line 2 "sample.cpp"

int main(int argc, char **argv) {
	return 0;
}
"#,
        r#"#pragma hdrstop
#line 2 "sample.cpp"

int main(int argc, char **argv) {
	return 0;
}
"#,
        Some(String::from("sample header.h")),
        false,
    );
}

#[test]
fn test_filter_precompiled_case() {
    check_filter(
        r#"#line 1 "sample.cpp"
#line 1 "e:/work/octobuild/test_cl/StdAfx.h"
# pragma once
void hello1();
void hello2();
#line 2 "sample.cpp"

int main(int argc, char **argv) {
    return 0;
}
"#,
        r#"#pragma hdrstop
#line 2 "sample.cpp"

int main(int argc, char **argv) {
    return 0;
}
"#,
        Some(String::from("STDafx.h")),
        false,
    );
}

#[test]
fn test_filter_precompiled_hdrstop() {
    check_filter(
        r#"#line 1 "sample.cpp"
 #line 1 "e:/work/octobuild/test_cl/sample header.h"
void hello();
# pragma  hdrstop
void data();
# pragma once
#line 2 "sample.cpp"

int main(int argc, char **argv) {
	return 0;
}
"#,
        r#"#pragma hdrstop
void data();
# pragma once
#line 2 "sample.cpp"

int main(int argc, char **argv) {
	return 0;
}
"#,
        None,
        false,
    );
}

#[test]
fn test_filter_precompiled_hdrstop_keep() {
    check_filter(
        r#"#line 1 "sample.cpp"
 #line 1 "e:/work/octobuild/test_cl/sample header.h"
void hello();
# pragma  hdrstop
void data();
# pragma once
#line 2 "sample.cpp"

int main(int argc, char **argv) {
	return 0;
}
"#,
        r#"#line 1 "sample.cpp"
 #line 1 "e:/work/octobuild/test_cl/sample header.h"
void hello();
# pragma  hdrstop
void data();
# pragma once
#line 2 "sample.cpp"

int main(int argc, char **argv) {
	return 0;
}
"#,
        None,
        true,
    );
}

#[test]
fn test_filter_precompiled_winpath() {
    check_filter(
        r#"#line 1 "sample.cpp"
#line 1 "e:\\work\\octobuild\\test_cl\\sample header.h"
# pragma once
void hello();
#line 2 "sample.cpp"

int main(int argc, char **argv) {
	return 0;
}
"#,
        r#"#line 1 "sample.cpp"
#line 1 "e:\\work\\octobuild\\test_cl\\sample header.h"
# pragma once
void hello();
#line 2 "sample.cpp"
#pragma hdrstop
#line 2 "sample.cpp"

int main(int argc, char **argv) {
	return 0;
}
"#,
        Some(String::from(
            "e:\\work\\octobuild\\test_cl\\sample header.h",
        )),
        true,
    );
}
