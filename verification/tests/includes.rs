use octobuild::includes::{
    code_double_quote, code_line, find_includes, source_includes, Found, Include, InvalidSource, Lexed,
};

fn rest<'a>(input: &'a [u8], result: Lexed) -> &'a [u8] {
    match result {
        Lexed::Done(next) => &input[next..],
        other => panic!("{:?}", other),
    }
}

#[test]
fn find_includes_simple() {
    let source = b"\xEF\xBB\xBF#include <stdio.h>\n#include <stdlib.h>\n";
    let res = find_includes(source);
    println!("{:?}", res);
    assert_eq!(
        res,
        Found::Done(
            source.len(),
            (true, vec!(Include::Bracket(b"stdio.h".to_vec()), Include::Bracket(b"stdlib.h".to_vec())))
        )
    );
}

#[test]
fn code_line_test() {
    assert_eq!(rest(b"void f() {}", code_line(b"void f() {}", 0)), &b""[..]);
    assert_eq!(rest(b"void f() {}\n", code_line(b"void f() {}\n", 0)), &b"\n"[..]);
    assert_eq!(rest(b"void f() //{}\n", code_line(b"void f() //{}\n", 0)), &b"\n"[..]);
    assert_eq!(rest(b"void f() {}\r", code_line(b"void f() {}\r", 0)), &b"\r"[..]);
    assert_eq!(
        rest(
            b"char* f() /**\n* Bar\n*/ {return \"FOO\"}\n",
            code_line(b"char* f() /**\n* Bar\n*/ {return \"FOO\"}\n", 0)
        ),
        &b"\n"[..]
    );
    assert_eq!(
        rest(b"int f() {return 40 / 5;}\n", code_line(b"int f() {return 40 / 5;}\n", 0)),
        &b"\n"[..]
    );
}

#[test]
fn code_double_quote_test() {
    assert_eq!(rest(b"\"\"", code_double_quote(b"\"\"", 0)), &b""[..]);
    assert_eq!(rest(b"\"Foo\"", code_double_quote(b"\"Foo\"", 0)), &b""[..]);
    assert_eq!(rest(b"\"Foo\\nBar\"", code_double_quote(b"\"Foo\\nBar\"", 0)), &b""[..]);
    assert_eq!(rest(b"\"\\\"\"", code_double_quote(b"\"\\\"\"", 0)), &b""[..]);
    assert!(code_double_quote(b"\"Foo\nBar\"", 0) == Lexed::Error);
    assert!(code_double_quote(b"\"Foo Bar", 0) == Lexed::Incomplete);
}

#[test]
fn find_includes_test() {
    let source = br#"#include <iostream>
//#define FOO
#include <cstdlib> // For system
/* #include <stdafx.h> */
#include "stdio.h"
using namespace std;

int main()
{
    cout << "Hello, world!\n";
    cout << 10 / 2 /** Foo */;
    system("pause"); // MS Visual Studio
    return 0;
}"#;
    let res = find_includes(source);

    println!("{:?}", res);
    assert_eq!(
        res,
        Found::Done(
            source.len(),
            (
                false,
                vec!(
                    Include::Bracket(b"iostream".to_vec()),
                    Include::Bracket(b"cstdlib".to_vec()),
                    Include::Quote(b"stdio.h".to_vec())
                )
            )
        )
    );
}

#[test]
fn find_includes_cry1_test() {
    let r = find_includes(
        br#"////////////////////////////////////////////////////////////////////////////
#include DEVIRTUALIZE_HEADER_FIX(ITacticalPointSystem.h)

#ifndef __ITacticalPointSystem_h__
#define __ITacticalPointSystem_h__
#pragma once"#,
    );
    println!("{:?}", r);
    assert!(!matches!(r, Found::Done(_, _)));
}

#[test]
fn find_includes_cry2_test() {
    let source = br#"////////////////////////////////////////////////////////////////////////////
#include "ITacticalPointSystem.h"

#ifndef __ITacticalPointSystem_h__
#define __ITacticalPointSystem_h__
#pragma once"#;
    assert_eq!(
        find_includes(source),
        Found::Done(source.len(), (false, vec!(Include::Quote(b"ITacticalPointSystem.h".to_vec()))))
    );
}

#[test]
fn include_inside_string_is_no_directive() {
    let source = b"const char* s = \"#include <evil>\";\n#include <good>\n";
    assert_eq!(source_includes(source), Ok(vec![Include::Bracket("good".to_string())]));
}

#[test]
fn bom_only_source_has_no_includes() {
    assert_eq!(find_includes(b"\xEF\xBB\xBF"), Found::Done(3, (true, vec![])));
    assert_eq!(source_includes(b"\xEF\xBB\xBF"), Ok(vec![]));
}

#[test]
fn empty_source_has_no_includes() {
    assert_eq!(find_includes(b""), Found::Done(0, (false, vec![])));
}

#[test]
fn unterminated_string_is_refused() {
    assert_eq!(source_includes(b"const char* s = \"abc"), Err(InvalidSource::UnexpectedEof));
    assert_eq!(source_includes(b"const char* s = \"abc\nint x;\n"), Err(InvalidSource::InvalidData));
}

#[test]
fn unterminated_comment_is_refused() {
    assert_eq!(source_includes(b"int x; /* no end"), Err(InvalidSource::UnexpectedEof));
    assert_eq!(source_includes(b"/* no end\n#include <a.h>\n"), Err(InvalidSource::UnexpectedEof));
}

#[test]
fn include_names_are_decoded() {
    let source = b"\xEF\xBB\xBF#include \"caf\xC3\xA9.h\"\n#include <a\xFFb.h>\n";
    assert_eq!(
        source_includes(source),
        Ok(vec![Include::Quote("caf\u{e9}.h".to_string()), Include::Bracket("a\u{fffd}b.h".to_string())])
    );
}

#[test]
fn include_map_keeps_the_kind() {
    assert_eq!(Include::Quote(2u32).map(|v| v + 1), Include::Quote(3u32));
    assert_eq!(Include::Bracket("a").map(|v| v.len()), Include::Bracket(1usize));
    let failed: Result<Include<u32>, &str> = Include::Quote(2u32).map_or(|_| Err("no"));
    assert_eq!(failed, Err("no"));
    let made: Result<Include<u32>, &str> = Include::Bracket(2u32).map_or(|v| Ok(v * 2));
    assert_eq!(made, Ok(Include::Bracket(4u32)));
}

#[test]
fn include_as_text() {
    assert_eq!(Include::Quote("a b.h".to_string()).to_text(), "\"a b.h\"");
    assert_eq!(Include::Bracket("stdio.h".to_string()).to_text(), "<stdio.h>");
}

#[test]
fn a_name_is_what_the_code_page_made_of_it_or_lossy_utf8() {
    let made: Result<String, std::io::Error> = Ok("stdafx.h".to_string());
    assert_eq!(octobuild::includes::name_from_local(made, b"other.h"), "stdafx.h");
    let failed: Result<String, std::io::Error> = Err(std::io::Error::new(std::io::ErrorKind::InvalidData, "no"));
    assert_eq!(octobuild::includes::name_from_local(failed, b"a\xFFb.h"), "a\u{FFFD}b.h");
    let failed: Result<String, std::io::Error> = Err(std::io::Error::new(std::io::ErrorKind::InvalidData, "no"));
    assert_eq!(octobuild::includes::name_from_local(failed, "h\u{E9}.h".as_bytes()), "h\u{E9}.h");
}
