use octobuild::compiler::CommandInfo;
use octobuild::postprocess::{
    filter_preprocessed, filter_sources, FilterError, PostprocessError, PostprocessWrite,
};
use octobuild::prepare::create_task;

use std::io::Error;

/// A sink that keeps what it is handed, one part for each source that it
/// opened, and what it was asked.
struct Recorder {
    sources: Vec<Vec<u8>>,
    asked: Vec<Vec<u8>>,
    parts: Vec<Vec<u8>>,
}

impl Recorder {
    fn new(sources: &[&[u8]]) -> Self {
        Recorder {
            sources: sources.iter().map(|s| s.to_vec()).collect(),
            asked: Vec::new(),
            parts: vec![Vec::new()],
        }
    }

    fn all(&self) -> Vec<u8> {
        self.parts.concat()
    }
}

impl PostprocessWrite for Recorder {
    fn write(&mut self, buf: &[u8]) -> Result<usize, Error> {
        self.parts.last_mut().unwrap().extend_from_slice(buf);
        Ok(buf.len())
    }

    fn is_source_separator(&mut self, marker: &[u8]) -> Result<bool, Error> {
        self.asked.push(marker.to_vec());
        if self.sources.iter().any(|s| &s[..] == marker) {
            self.parts.push(Vec::new());
            Ok(true)
        } else {
            Ok(false)
        }
    }
}

fn line_one(path: &[u8]) -> Vec<u8> {
    let mut line = b"#line 1 \"".to_vec();
    line.extend_from_slice(path);
    line.extend_from_slice(b"\"\n");
    line
}

#[test]
fn a_long_path_is_read_and_the_sink_is_asked_once() {
    let path = vec![b'a'; 1000];
    let mut stream = line_one(&path);
    stream.extend_from_slice(b"#pragma hdrstop\nint x;\n");
    let mut sink = Recorder::new(&[&path[..]]);
    assert!(filter_preprocessed(&stream, &mut sink, &None, false).is_ok());
    assert_eq!(sink.asked, vec![path]);
    assert_eq!(sink.all(), b"#pragma hdrstop\nint x;\n".to_vec());
}

#[test]
fn a_path_that_is_too_long_is_an_error_of_form_and_the_sink_is_not_called() {
    let path = vec![b'a'; 1025];
    let stream = line_one(&path);
    let mut sink = Recorder::new(&[&path[..]]);
    match filter_preprocessed(&stream, &mut sink, &None, false) {
        Err(FilterError::Syntax(PostprocessError::LiteralTooLong)) => {},
        other => panic!("{:?}", other),
    }
    assert!(sink.asked.is_empty());
    assert!(sink.all().is_empty());
}

#[test]
fn the_cut_is_made_where_the_marker_header_is_left() {
    let stream = b"#line 1 \"sample.cpp\"\n#line 1 \"e:/p/stdafx.h\"\nvoid hello();\n#line 2 \"sample.cpp\"\nint main(){return 0;}\n";
    let mut sink = Recorder::new(&[b"sample.cpp"]);
    assert!(filter_preprocessed(stream, &mut sink, &Some("stdafx.h".to_string()), false).is_ok());
    assert_eq!(
        sink.all(),
        b"#pragma hdrstop\n#line 2 \"sample.cpp\"\nint main(){return 0;}\n".to_vec()
    );
    assert_eq!(sink.asked, vec![b"sample.cpp".to_vec(), b"e:/p/stdafx.h".to_vec()]);
}

#[test]
fn a_header_that_only_ends_in_the_marker_is_not_the_marker() {
    let stream = b"#line 1 \"sample.cpp\"\n#line 1 \"e:/p/stdafx.h\"\nvoid hello();\n#line 2 \"sample.cpp\"\nint main(){return 0;}\n";
    let mut sink = Recorder::new(&[b"sample.cpp"]);
    match filter_preprocessed(stream, &mut sink, &Some("afx.h".to_string()), false) {
        Err(FilterError::Syntax(PostprocessError::MarkerNotFound)) => {},
        other => panic!("{:?}", other),
    }
    assert!(sink.all().is_empty());
}

#[test]
fn the_sink_is_asked_at_line_one_and_at_no_other() {
    let stream = b"#line 1 \"a.cpp\"\nint a;\n#line 7 \"b.h\"\n#line 11 \"a.cpp\"\n#line 1 \"c.h\"\n";
    let mut sink = Recorder::new(&[b"a.cpp"]);
    assert!(filter_sources(stream, &mut sink, false, &None, true).is_ok());
    assert_eq!(sink.asked, vec![b"a.cpp".to_vec(), b"c.h".to_vec()]);
    assert_eq!(sink.all(), stream.to_vec());
}

#[test]
fn two_sources_in_a_row_go_to_two_sinks() {
    let stream = b"#line 1 \"a.cpp\"\nint a;\n#line 1 \"b.cpp\"\nint b;\n";
    let mut sink = Recorder::new(&[b"a.cpp", b"b.cpp"]);
    assert!(filter_sources(stream, &mut sink, false, &None, false).is_ok());
    assert_eq!(sink.parts, vec![b"".to_vec(), b"int a;\n".to_vec(), b"int b;\n".to_vec()]);
    let mut restored: Vec<u8> = Vec::new();
    for (i, path) in [&b"a.cpp"[..], &b"b.cpp"[..]].iter().enumerate() {
        restored.extend_from_slice(&line_one(path));
        restored.extend_from_slice(&sink.parts[i + 1]);
    }
    assert_eq!(restored, stream.to_vec());
}

#[test]
fn sources_that_never_reach_a_cut_give_nothing_where_headers_are_dropped() {
    let stream = b"#line 1 \"a.cpp\"\nint a;\n#line 1 \"b.cpp\"\nint b;\n";
    let mut sink = Recorder::new(&[b"a.cpp", b"b.cpp"]);
    assert!(filter_preprocessed(stream, &mut sink, &None, false).is_ok());
    assert!(sink.all().is_empty());
    assert_eq!(sink.asked, vec![b"a.cpp".to_vec(), b"b.cpp".to_vec()]);
    let mut kept = Recorder::new(&[b"a.cpp", b"b.cpp"]);
    assert!(filter_preprocessed(stream, &mut kept, &None, true).is_ok());
    assert_eq!(kept.all(), stream.to_vec());
}

fn words(line: &str) -> Vec<String> {
    line.split(' ').map(|x| x.to_string()).collect()
}

fn cl() -> CommandInfo {
    CommandInfo { program: "cl.exe".to_string(), current_dir: None }
}

#[test]
fn a_command_line_without_a_source_asks_for_no_task() {
    assert_eq!(create_task(cl(), &words("/c /nologo")), Ok(None));
    assert_eq!(create_task(cl(), &Vec::new()), Ok(None));
    assert_eq!(create_task(cl(), &words("/Ycstdafx.h /Yustdafx.h")), Ok(None));
}

#[test]
fn an_object_file_apart_from_its_switch_is_a_second_source() {
    assert_eq!(
        create_task(cl(), &words("/c /TP /Fo out.obj sample.cpp")),
        Err("Found too many source files: [\"out.obj\", \"sample.cpp\"]".to_string())
    );
    let joined = create_task(cl(), &words("/c /TP /Foout.obj sample.cpp")).unwrap().unwrap();
    assert_eq!(joined.input_source, "sample.cpp");
    assert_eq!(joined.output_object, "out.obj");
    assert_eq!(joined.language, "P");
}

#[test]
fn a_path_literal_is_written_out_as_it_stood() {
    let input = b"\"e:\\\\p\\ta\\\"b.h\" rest";
    let (file, raw, next) = octobuild::postprocess::parse_path(input, 0).unwrap();
    assert_eq!(next, 15);
    assert_eq!(raw, input[..15].to_vec());
    assert_eq!(file, b"e:/p\ta\"b.h".to_vec());
}

#[test]
fn the_mark_at_the_cut_repeats_the_path_with_its_escapes() {
    let stream = b"#line 1 \"e:\\\\s\\\\a.cpp\"\n#line 1 \"e:\\\\p\\\\stdafx.h\"\nvoid hello();\n#line 2 \"e:\\\\s\\\\a.cpp\"\nint x;\n";
    let mut sink = Recorder::new(&[b"e:/s/a.cpp"]);
    assert!(filter_preprocessed(stream, &mut sink, &Some("stdafx.h".to_string()), false).is_ok());
    assert_eq!(sink.all(), b"#pragma hdrstop\n#line 2 \"e:\\\\s\\\\a.cpp\"\nint x;\n".to_vec());
    assert_eq!(sink.asked, vec![b"e:/s/a.cpp".to_vec(), b"e:/p/stdafx.h".to_vec()]);
}

#[test]
fn the_plan_for_a_command_line() {
    let gcc = CommandInfo { program: "/usr/bin/gcc".to_string(), current_dir: None };
    assert!(matches!(octobuild::vs::plan_build(&gcc, &words("/c a.cpp")), octobuild::vs::Plan::NotCompiler));
    match octobuild::vs::plan_build(&cl(), &words("/foo a.cpp")) {
        octobuild::vs::Plan::Refused(message) => {
            assert_eq!(message, "Found unknown command line arguments: [\"/foo\"]")
        },
        _ => panic!("the arguments were to be refused"),
    }
    match octobuild::vs::plan_build(&cl(), &words("/c /nologo")) {
        octobuild::vs::Plan::Build(tasks) => {
            assert!(tasks.is_empty());
            assert_eq!(octobuild::cache::exit_code(&Vec::new()), 0);
        },
        _ => panic!("a command line without a source is no error"),
    }
    let upper = CommandInfo { program: "C:\\VS\\bin\\CL.EXE".to_string(), current_dir: None };
    match octobuild::vs::plan_build(&upper, &words("/c a.cpp b.c")) {
        octobuild::vs::Plan::Build(tasks) => {
            assert_eq!(tasks.len(), 2);
            assert_eq!(tasks[0].input_source, "a.cpp");
            assert_eq!(tasks[1].input_source, "b.c");
            assert_eq!(tasks[1].command, upper);
        },
        _ => panic!("two sources give two tasks"),
    }
}

#[test]
fn kept_headers_go_to_the_source_they_belong_to() {
    let stream = b"#line 1 \"a.cpp\"\nint a;\n#line 1 \"b.cpp\"\nint b;\n";
    let mut sink = Recorder::new(&[b"a.cpp", b"b.cpp"]);
    assert!(filter_preprocessed(stream, &mut sink, &None, true).is_ok());
    assert_eq!(
        sink.parts,
        vec![b"".to_vec(), b"#line 1 \"a.cpp\"\nint a;\n".to_vec(), b"#line 1 \"b.cpp\"\nint b;\n".to_vec()]
    );
    let mut marked = Recorder::new(&[b"a.cpp", b"b.cpp"]);
    let with_header = b"#line 1 \"a.cpp\"\n#line 1 \"x/stdafx.h\"\nint h;\n#line 2 \"a.cpp\"\nint a;\n#line 1 \"b.cpp\"\nint b;\n";
    match filter_preprocessed(with_header, &mut marked, &Some("stdafx.h".to_string()), true) {
        Err(FilterError::Syntax(PostprocessError::MarkerNotFound)) => {},
        other => panic!("{:?}", other),
    }
    assert_eq!(
        marked.parts[1],
        b"#line 1 \"a.cpp\"\n#line 1 \"x/stdafx.h\"\nint h;\n#line 2 \"a.cpp\"\n#pragma hdrstop\n#line 2 \"a.cpp\"\nint a;\n"
            .to_vec()
    );
    assert_eq!(marked.parts[2], b"#line 1 \"b.cpp\"\nint b;\n".to_vec());
}

#[test]
fn how_a_build_ends() {
    let done = |code: Option<i32>| octobuild::compiler::OutputInfo { status: code, stdout: Vec::new(), stderr: Vec::new() };
    let well: Result<Vec<octobuild::compiler::OutputInfo>, octobuild::vs::BuildFailure> =
        Ok(vec![done(Some(0)), done(Some(0))]);
    assert_eq!(octobuild::vs::end_build(&well), octobuild::vs::Ending::Exit(0));
    let failed: Result<Vec<octobuild::compiler::OutputInfo>, octobuild::vs::BuildFailure> =
        Ok(vec![done(Some(0)), done(Some(2)), done(Some(3))]);
    assert_eq!(octobuild::vs::end_build(&failed), octobuild::vs::Ending::Exit(2));
    let killed: Result<Vec<octobuild::compiler::OutputInfo>, octobuild::vs::BuildFailure> = Ok(vec![done(None)]);
    assert_eq!(octobuild::vs::end_build(&killed), octobuild::vs::Ending::Exit(1));
    let none: Result<Vec<octobuild::compiler::OutputInfo>, octobuild::vs::BuildFailure> = Ok(Vec::new());
    assert_eq!(octobuild::vs::end_build(&none), octobuild::vs::Ending::Exit(0));
    let unreadable = Err(octobuild::vs::BuildFailure::Source(octobuild::vs::SplitError::MissingSource));
    assert_eq!(octobuild::vs::end_build(&unreadable), octobuild::vs::Ending::Exit(1));
    let broken = Err(octobuild::vs::BuildFailure::Machine);
    assert_eq!(octobuild::vs::end_build(&broken), octobuild::vs::Ending::PassThrough);
}
