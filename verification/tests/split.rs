use octobuild::postprocess::{
    filter_preprocessed, filter_sources, is_subpath, marker_bytes, next_line, next_line_eol, parse_directive,
    parse_empty, parse_escape, parse_path, parse_spaces, parse_token, replace_backslashes, Directive, FilterError,
    LineDirective, LineKind, PostprocessError, PostprocessWrite, ScannerState,
};
use octobuild::vs::{split_preprocessed, SplitError, VsPreprocessor};

use std::io::{Error, ErrorKind};

fn sink_for(paths: &[&str]) -> VsPreprocessor {
    let mut sink = VsPreprocessor::new(paths.len());
    for (index, path) in paths.iter().enumerate() {
        sink.add_source(path.as_bytes().to_vec(), index);
    }
    sink
}

fn text(streams: Vec<(usize, Vec<u8>)>) -> Vec<(usize, String)> {
    streams.into_iter().map(|(i, s)| (i, String::from_utf8(s).unwrap())).collect()
}

#[test]
fn precompiled_cut_drops_the_headers() {
    let input = b"#line 1 \"sample.cpp\"\n#line 1 \"e:/p/stdafx.h\"\nvoid hello();\n#line 2 \"sample.cpp\"\nint main(){return 0;}\n";
    let streams =
        split_preprocessed(input, sink_for(&["sample.cpp"]), true, Some(b"stdafx.h".to_vec()), false).unwrap();
    assert_eq!(
        text(streams),
        vec![(0, "#pragma hdrstop\n#line 2 \"sample.cpp\"\nint main(){return 0;}\n".to_string())]
    );
}

#[test]
fn sources_without_precompiled_part_are_split_at_their_first_lines() {
    let input = b"#line 1 \"a.cpp\"\nint a;\n#line 3 \"a.cpp\"\nint a2;\n#line 1 \"b.cpp\"\nint b;\n";
    let streams = split_preprocessed(input, sink_for(&["a.cpp", "b.cpp"]), false, None, false).unwrap();
    assert_eq!(
        text(streams),
        vec![(0, "int a;\n#line 3 \"a.cpp\"\nint a2;\n".to_string()), (1, "int b;\n".to_string())]
    );

    let streams = split_preprocessed(input, sink_for(&["a.cpp", "b.cpp"]), false, None, true).unwrap();
    assert_eq!(
        text(streams),
        vec![
            (0, "#line 1 \"a.cpp\"\nint a;\n#line 3 \"a.cpp\"\nint a2;\n".to_string()),
            (1, "#line 1 \"b.cpp\"\nint b;\n".to_string())
        ]
    );
}

#[test]
fn sources_come_in_the_order_of_the_stream() {
    let input = b"#line 1 \"b.cpp\"\nint b;\n#line 1 \"a.cpp\"\nint a;\n#line 1 \"b.cpp\"\nint again;\n";
    let streams = split_preprocessed(input, sink_for(&["a.cpp", "b.cpp"]), false, None, false).unwrap();
    assert_eq!(
        text(streams),
        vec![(1, "int b;\n".to_string()), (0, "int a;\n#line 1 \"b.cpp\"\nint again;\n".to_string())]
    );
}

#[test]
fn multi_source_with_precompiled_part() {
    let one = "#line 1 \"a.cpp\"\n#line 1 \"x/StdAfx.h\"\nvoid h();\n#line 2 \"a.cpp\"\nint a;\n";
    let input = one.to_string() + &one.replace("a.cpp", "b.cpp").replace("int a", "int b");
    let streams = split_preprocessed(
        input.as_bytes(),
        sink_for(&["a.cpp", "b.cpp"]),
        true,
        Some(b"stdafx.h".to_vec()),
        false,
    )
    .unwrap();
    assert_eq!(
        text(streams),
        vec![
            (0, "#pragma hdrstop\n#line 2 \"a.cpp\"\nint a;\n".to_string()),
            (1, "#pragma hdrstop\n#line 2 \"b.cpp\"\nint b;\n".to_string())
        ]
    );
}

#[test]
fn a_source_that_never_comes_is_missed() {
    let input = b"#line 1 \"a.cpp\"\nint a;\n";
    assert_eq!(
        split_preprocessed(input, sink_for(&["a.cpp", "b.cpp"]), false, None, false),
        Err(SplitError::MissingSource)
    );
}

#[test]
fn a_marker_that_never_comes_is_missed() {
    let input = b"#line 1 \"a.cpp\"\nint a;\n";
    assert_eq!(
        split_preprocessed(input, sink_for(&["a.cpp"]), true, Some(b"stdafx.h".to_vec()), false),
        Err(SplitError::Syntax(PostprocessError::MarkerNotFound))
    );
    assert_eq!(split_preprocessed(input, sink_for(&["a.cpp"]), true, None, false), Ok(vec![(0, Vec::new())]));
    assert_eq!(
        split_preprocessed(input, sink_for(&["a.cpp"]), false, Some(b"stdafx.h".to_vec()), false),
        Ok(vec![(0, b"int a;\n".to_vec())])
    );
}

#[test]
fn empty_stream_has_no_sources() {
    assert_eq!(split_preprocessed(b"", sink_for(&[]), false, None, false), Ok(vec![]));
    assert_eq!(split_preprocessed(b"\xEF\xBB\xBF", sink_for(&[]), true, None, true), Ok(vec![]));
}

fn line_with_path(length: usize) -> Vec<u8> {
    let mut input = b"#line 1 \"".to_vec();
    input.extend(std::iter::repeat(b'a').take(length));
    input.extend_from_slice(b"\"\n");
    input
}

#[test]
fn path_just_under_the_limit_parses_and_longer_does_not() {
    let input = line_with_path(1020);
    match parse_path(&input, 8) {
        Ok((file, raw, next)) => {
            assert_eq!(file.len(), 1020);
            assert_eq!(raw.len(), 1022);
            assert_eq!(next, 8 + 1022);
        }
        Err(e) => panic!("{:?}", e),
    }
    assert_eq!(parse_path(&line_with_path(1021), 8), Err(PostprocessError::LiteralTooLong));
    assert_eq!(parse_path(&line_with_path(1025), 8), Err(PostprocessError::LiteralTooLong));
    assert_eq!(
        split_preprocessed(&line_with_path(1025), sink_for(&[]), false, None, true),
        Err(SplitError::Syntax(PostprocessError::LiteralTooLong))
    );
    assert_eq!(split_preprocessed(&line_with_path(1020), sink_for(&[]), false, None, true), Ok(vec![]));
}

#[test]
fn literal_errors() {
    assert_eq!(parse_path(b"\"abc\ndef\"", 0), Err(PostprocessError::LiteralEol));
    assert_eq!(parse_path(b"\"abc", 0), Err(PostprocessError::LiteralEof));
    assert_eq!(parse_path(b"", 0), Err(PostprocessError::LiteralEof));
    assert_eq!(parse_path(b"\"abc\\", 0), Err(PostprocessError::EscapeEof));
    assert_eq!(parse_escape(b"\\", 0), Err(PostprocessError::EscapeEof));
    assert_eq!(parse_escape(b"\\n", 0), Ok((b'\n', 2)));
    assert_eq!(parse_escape(b"\\r", 0), Ok((b'\r', 2)));
    assert_eq!(parse_escape(b"\\t", 0), Ok((b'\t', 2)));
    assert_eq!(parse_escape(b"\\\"", 0), Ok((b'"', 2)));
    assert_eq!(
        parse_path(b"\"e:\\\\work\\\\a.h\" rest", 0),
        Ok((b"e:/work/a.h".to_vec(), b"\"e:\\\\work\\\\a.h\"".to_vec(), 15))
    );
}

#[test]
fn token_limits() {
    assert_eq!(parse_token(b"pragma once", 0, 16), Ok((b"pragma".to_vec(), 6)));
    assert_eq!(parse_token(b"1234567890123456 ", 0, 16), Ok((b"1234567890123456".to_vec(), 16)));
    assert_eq!(parse_token(b"12345678901234567 ", 0, 16), Err(PostprocessError::TokenTooLong));
    assert_eq!(parse_token(b"+", 0, 16), Ok((Vec::new(), 0)));
    let mut sink = sink_for(&[]);
    assert_eq!(
        filter_sources(b"#abcdefghijklmnopqrstuvwxyz\n", &mut sink, false, &None, true).map_err(|e| format!("{:?}", e)),
        Err("Syntax(TokenTooLong)".to_string())
    );
}

#[test]
fn skipping() {
    assert_eq!(parse_spaces(b" \t\x0C\nx", 0), 3);
    assert_eq!(parse_empty(b" \t\x0C\r\n x", 0), 6);
    assert_eq!(next_line(b"ab\ncd", 0), 3);
    assert_eq!(next_line(b"ab\ncd", 3), 5);
    assert_eq!(next_line_eol(b"ab\r\ncd", 0), (b"\r\n".to_vec(), 4));
    assert_eq!(next_line_eol(b"ab\ncd", 1), (b"\n".to_vec(), 3));
    assert_eq!(next_line_eol(b"abcd", 1), (Vec::new(), 4));
    assert_eq!(next_line_eol(b"\n", 0), (b"\n".to_vec(), 1));
}

#[test]
fn directives() {
    assert_eq!(
        parse_directive(b"# line  12  \"a b.h\" // x\r\nrest", 0),
        Ok((
            Directive::Line(LineDirective {
                line: b"12".to_vec(),
                file: b"a b.h".to_vec(),
                raw: b"\"a b.h\"".to_vec(),
                eol: b"\r\n".to_vec()
            }),
            26
        ))
    );
    assert_eq!(parse_directive(b"#pragma hdrstop\n", 0), Ok((Directive::Hdrstop, 15)));
    assert_eq!(parse_directive(b"#pragma hdrstop", 0), Ok((Directive::Hdrstop, 15)));
    assert_eq!(parse_directive(b"#pragma once\nx", 0), Ok((Directive::Other, 13)));
    assert_eq!(parse_directive(b"#define X\nx", 0), Ok((Directive::Other, 10)));
    assert_eq!(parse_directive(b"#line 1", 0), Err(PostprocessError::LiteralEof));
}

#[test]
fn subpaths() {
    assert!(is_subpath(b"e:/work/StdAfx.h", b"stdafx.h"));
    assert!(is_subpath(b"stdafx.h", b"STDAFX.H"));
    assert!(!is_subpath(b"e:/work/mystdafx.h", b"stdafx.h"));
    assert!(!is_subpath(b"afx.h", b"stdafx.h"));
    assert!(is_subpath(b"a/", b""));
    assert!(!is_subpath(b"ab", b""));
}

#[test]
fn markers() {
    assert_eq!(replace_backslashes("e:\\work\\a b.h"), "e:/work/a b.h");
    assert_eq!(marker_bytes("e:\\a.h", true).unwrap(), b"e:\\a.h".to_vec());
    assert_eq!(marker_bytes("e:\\a.h", false).unwrap(), b"e:/a.h".to_vec());
}

#[test]
fn byte_order_mark_is_read_byte_by_byte() {
    let mut state = ScannerState::new(true, false);
    state.parse_bom(b"\xEF\xBB\xBFint x;");
    assert_eq!((state.read, state.utf8), (3, true));
    let mut state = ScannerState::new(true, false);
    state.parse_bom(b"\xEF\xBBint x;");
    assert_eq!((state.read, state.utf8), (2, false));
    let mut state = ScannerState::new(true, false);
    state.parse_bom(b"int x;");
    assert_eq!((state.read, state.utf8), (0, false));
}

struct Failing {
    writes_left: usize,
    written: Vec<u8>,
}

impl PostprocessWrite for Failing {
    fn write(&mut self, buf: &[u8]) -> Result<usize, Error> {
        if self.writes_left == 0 {
            return Err(Error::new(ErrorKind::Other, "full"));
        }
        self.writes_left -= 1;
        self.written.extend_from_slice(buf);
        Ok(buf.len())
    }

    fn is_source_separator(&mut self, _: &[u8]) -> Result<bool, Error> {
        Ok(false)
    }
}

#[test]
fn a_failing_sink_stops_the_filter() {
    let mut sink = Failing { writes_left: 0, written: Vec::new() };
    match filter_preprocessed(b"int x;\n#pragma hdrstop\nint y;\n", &mut sink, &None, true) {
        Err(FilterError::Io(e)) => assert_eq!(e.kind(), ErrorKind::Other),
        other => panic!("{:?}", other),
    }
    let mut sink = Failing { writes_left: 10, written: Vec::new() };
    assert!(filter_preprocessed(b"int x;\n#pragma hdrstop\nint y;\n", &mut sink, &None, true).is_ok());
    assert_eq!(sink.written, b"int x;\n#pragma hdrstop\nint y;\n".to_vec());
}

#[test]
fn kept_stream_without_marker_passes_unchanged() {
    let input = b"\xEF\xBB\xBF  \n#line 1 \"a.cpp\"\n #line 1 \"h.h\"\nint h;\n# pragma hdrstop\n#line 2 \"a.cpp\"\nint a;";
    for precompiled in [true, false] {
        let mut sink = Failing { writes_left: 100, written: Vec::new() };
        assert!(filter_sources(input, &mut sink, precompiled, &None, true).is_ok());
        assert_eq!(sink.written, input.to_vec());
    }
}

#[test]
fn errors_in_words() {
    assert_eq!(PostprocessError::LiteralEol.description(), "unexpected end of line in literal");
    assert_eq!(PostprocessError::LiteralEof.description(), "unexpected end of stream in literal");
    assert_eq!(PostprocessError::LiteralTooLong.description(), "literal too long");
    assert_eq!(PostprocessError::EscapeEof.description(), "unexpected end of escape sequence");
    assert_eq!(
        PostprocessError::MarkerNotFound.description(),
        "can't find precompiled header marker in preprocessed file"
    );
    assert_eq!(PostprocessError::InvalidLiteral.description(), "can't create string from literal");
    assert_eq!(PostprocessError::TokenTooLong.description(), "token too long");
}

#[test]
fn sink_for_sources_knows_their_separator_paths() {
    let sources = vec!["src/a.cpp".to_string(), "C:\\src\\b.cpp".to_string()];
    let mut sink = VsPreprocessor::for_sources(&sources);
    assert_eq!(sink.pending, vec![true, true]);
    assert!(!sink.separator(b"src/a.cpp"));
    assert!(sink.separator(b"C:/src/./b.cpp"));
    assert!(!sink.separator(b"C:/src/./b.cpp"));
    assert!(sink.separator(b"src/./a.cpp"));
    assert_eq!(sink.finished, vec![(1, Vec::new())]);
    assert_eq!(sink.pending, vec![false, false]);
}

#[test]
fn sink_takes_bytes_for_the_open_source_only() {
    let mut sink = sink_for(&["a.cpp"]);
    sink.put(b"dropped");
    assert_eq!(sink.content, None);
    assert!(sink.is_source_separator(b"a.cpp").unwrap());
    assert_eq!(sink.write(b"kept").unwrap(), 4);
    sink.put(b" too");
    sink.exec();
    sink.exec();
    assert_eq!(sink.finished, vec![(0, b"kept too".to_vec())]);
}

#[test]
fn scanner_steps() {
    let input = b"int x;\n#line 1 \"a.cpp\"\nint a;\n#pragma hdrstop\nint b;\n";
    let mut state = ScannerState::new(true, false);
    state.parse_bom(input);
    let mut out = Vec::new();

    assert!(matches!(state.parse_line(input, &mut out), Ok(LineKind::Plain)));
    assert_eq!((state.copy, state.read, out.len()), (0, 7, 0));

    let directive = match state.parse_line(input, &mut out) {
        Ok(LineKind::Line(directive)) => directive,
        _ => panic!("no directive"),
    };
    assert_eq!(directive.file, b"a.cpp".to_vec());
    assert_eq!((state.copy, state.read, out.len()), (0, 23, 0));
    state.parse_directive_line(input, &directive, true, &mut out);
    assert_eq!((state.copy, state.read, state.done), (23, 23, false));
    assert_eq!(state.entry_file, Some(b"a.cpp".to_vec()));
    assert!(out.is_empty());

    assert!(matches!(state.parse_line(input, &mut out), Ok(LineKind::Plain)));
    assert!(matches!(state.parse_line(input, &mut out), Ok(LineKind::Plain)));
    assert_eq!(out, vec![b"#pragma hdrstop".to_vec()]);
    assert_eq!((state.copy, state.read, state.done), (45, 45, true));

    out.clear();
    assert!(matches!(state.parse_line(input, &mut out), Ok(LineKind::Plain)));
    assert!(matches!(state.parse_line(input, &mut out), Ok(LineKind::Eof)));
    assert_eq!(out, vec![b"\nint b;\n".to_vec()]);
    assert_eq!(state.finish(), Ok(()));
    state.flush(input, &mut out);
    assert_eq!(out.len(), 1);
}
