use octobuild::postprocess::{filter_preprocessed, PostprocessWrite};

use std::collections::HashSet;
use std::io::{Error, Write};

struct OutputWrapper<'a> {
    content: Vec<u8>,
    sources: HashSet<&'a [u8]>,
    eol: &'a [u8],
}

impl<'a> PostprocessWrite for OutputWrapper<'a> {
    fn write(&mut self, buf: &[u8]) -> Result<usize, Error> {
        self.content.write(buf)
    }

    fn is_source_separator(&mut self, marker: &[u8]) -> Result<bool, Error> {
        if self.sources.remove(marker) {
            self.content.write(b"/// ")?;
            self.content.write(marker)?;
            self.content.write(self.eol)?;
            Ok(true)
        } else {
            Ok(false)
        }
    }
}

fn check_filter_pass(
    stream_text: &str,
    expected: &str,
    sources: &[&str],
    marker: &Option<String>,
    keep_headers: bool,
    eol: &str,
) {
    let mut stream: Vec<u8> = Vec::new();
    stream.write(&stream_text.replace("\n", eol).as_bytes()[..]).unwrap();
    let mut wrapper = OutputWrapper { content: Vec::new(), sources: HashSet::new(), eol: eol.as_bytes() };
    for source in sources.iter() {
        wrapper.sources.insert(source.as_bytes());
    }
    match filter_preprocessed(&stream, &mut wrapper, marker, keep_headers) {
        Ok(_) => {
            let actual = String::from_utf8_lossy(&wrapper.content);
            if actual != expected.replace("\n", eol) {
                println!("==== ACTUAL ====\n{}\n", actual.replace("\r", ""));
                println!("=== EXPECTED ===\n{}\n", expected.replace("\r", ""));
            }
            assert_eq!(actual, expected.replace("\n", eol));
            assert_eq!(wrapper.sources.len(), 0);
        }
        Err(e) => {
            println!("{:?}", e);
            panic!("{:?}", e);
        }
    }
}

fn check_filter(stream_text: &str, expected: &str, source: &str, marker: Option<String>, keep_headers: bool) {
    check_filter_pass(stream_text, expected, &[source], &marker, keep_headers, "\n");
    check_filter_pass(stream_text, expected, &[source], &marker, keep_headers, "\r\n");

    let second = "./sample.foo.cpp";
    let stream_multi = stream_text.to_string() + &stream_text.replace(source, second);
    let expected_multi = expected.to_string() + &expected.replace(source, second);
    check_filter_pass(&stream_multi, &expected_multi, &[source, second], &marker, keep_headers, "\n");
    check_filter_pass(&stream_multi, &expected_multi, &[source, second], &marker, keep_headers, "\r\n");
}

#[test]
fn test_filter_precompiled_keep() {
    check_filter(
        r#"#line 1 "./sample.cpp"
#line 1 "e:/work/octobuild/test_cl/sample header.h"
# pragma once
void hello();
#line 2 "./sample.cpp"

int main(int argc, char **argv) {
	return 0;
}
"#,
        r#"/// ./sample.cpp
#line 1 "./sample.cpp"
#line 1 "e:/work/octobuild/test_cl/sample header.h"
# pragma once
void hello();
#line 2 "./sample.cpp"
#pragma hdrstop
#line 2 "./sample.cpp"

int main(int argc, char **argv) {
	return 0;
}
"#,
        "./sample.cpp",
        Some("sample header.h".to_string()),
        true,
    )
}

#[test]
fn test_filter_precompiled_remove() {
    check_filter(
        r#"#line 1 "sample.cpp"
#line 1 "e:/work/octobuild/test_cl/sample header.h"
# pragma once
void hello1();
void hello2();
#line 2 "sample.cpp"

int main(int argc, char **argv) {
	return 0;
}
"#,
        r#"/// sample.cpp
#pragma hdrstop
#line 2 "sample.cpp"

int main(int argc, char **argv) {
	return 0;
}
"#,
        "sample.cpp",
        Some("sample header.h".to_string()),
        false,
    );
}

#[test]
fn test_filter_precompiled_case() {
    check_filter(
        r#"#line 1 "sample.cpp"
#line 1 "e:/work/octobuild/test_cl/StdAfx.h"
# pragma once
void hello1();
void hello2();
#line 2 "sample.cpp"

int main(int argc, char **argv) {
    return 0;
}
"#,
        r#"/// sample.cpp
#pragma hdrstop
#line 2 "sample.cpp"

int main(int argc, char **argv) {
    return 0;
}
"#,
        "sample.cpp",
        Some("STDafx.h".to_string()),
        false,
    );
}

#[test]
fn test_filter_precompiled_hdrstop() {
    check_filter(
        r#"#line 1 "sample.cpp"
 #line 1 "e:/work/octobuild/test_cl/sample header.h"
void hello();
# pragma  hdrstop
void data();
# pragma once
#line 2 "sample.cpp"

int main(int argc, char **argv) {
	return 0;
}
"#,
        r#"/// sample.cpp
#pragma hdrstop
void data();
# pragma once
#line 2 "sample.cpp"

int main(int argc, char **argv) {
	return 0;
}
"#,
        "sample.cpp",
        None,
        false,
    );
}

#[test]
fn test_filter_precompiled_hdrstop_keep() {
    check_filter(
        r#"#line 1 "sample.cpp"
 #line 1 "e:/work/octobuild/test_cl/sample header.h"
void hello();
# pragma  hdrstop
void data();
# pragma once
#line 2 "sample.cpp"

int main(int argc, char **argv) {
	return 0;
}
"#,
        r#"/// sample.cpp
#line 1 "sample.cpp"
 #line 1 "e:/work/octobuild/test_cl/sample header.h"
void hello();
# pragma  hdrstop
void data();
# pragma once
#line 2 "sample.cpp"

int main(int argc, char **argv) {
	return 0;
}
"#,
        "sample.cpp",
        None,
        true,
    );
}

#[test]
fn test_filter_precompiled_winpath() {
    check_filter(
        r#"#line 1 "sample.cpp"
#line 1 "e:\\work\\octobuild\\test_cl\\sample header.h"
# pragma once
void hello();
#line 2 "sample.cpp"

int main(int argc, char **argv) {
	return 0;
}
"#,
        r#"/// sample.cpp
#line 1 "sample.cpp"
#line 1 "e:\\work\\octobuild\\test_cl\\sample header.h"
# pragma once
void hello();
#line 2 "sample.cpp"
#pragma hdrstop
#line 2 "sample.cpp"

int main(int argc, char **argv) {
	return 0;
}
"#,
        "sample.cpp",
        Some("e:\\work\\octobuild\\test_cl\\sample header.h".to_string()),
        true,
    );
}
