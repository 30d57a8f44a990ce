use octobuild::compiler::{Arg, InputKind, OutputKind, Scope};
use octobuild::prepare::parse_arguments;

#[test]
fn test_parse_argument() {
    let args: Vec<String> =
        "/TP /c /Yusample.h /Fpsample.h.pch /Fosample.cpp.o /DTEST /D TEST2 /arch:AVX sample.cpp"
            .split(" ")
            .map(|x| x.to_string())
            .collect();
    assert_eq!(
        parse_arguments(&args).unwrap(),
        [
            Arg::Param { scope: Scope::Ignore, flag: "T".to_string(), value: "P".to_string() },
            Arg::Flag { scope: Scope::Ignore, flag: "c".to_string() },
            Arg::Input { kind: InputKind::Marker, flag: "Yu".to_string(), file: "sample.h".to_string() },
            Arg::Input {
                kind: InputKind::Precompiled,
                flag: "Fp".to_string(),
                file: "sample.h.pch".to_string()
            },
            Arg::Output {
                kind: OutputKind::Object,
                flag: "Fo".to_string(),
                file: "sample.cpp.o".to_string()
            },
            Arg::Param { scope: Scope::Shared, flag: "D".to_string(), value: "TEST".to_string() },
            Arg::Param { scope: Scope::Shared, flag: "D".to_string(), value: "TEST2".to_string() },
            Arg::Flag { scope: Scope::Shared, flag: "arch:AVX".to_string() },
            Arg::Input { kind: InputKind::Source, flag: "".to_string(), file: "sample.cpp".to_string() }
        ]
    )
}

use octobuild::compiler::{CommandInfo, CompilationTask};
use octobuild::prepare::{create_task, has_param_prefix, is_spaceable_param};

fn command() -> CommandInfo {
    CommandInfo { program: "cl.exe".to_string(), current_dir: None }
}

fn task(line: &str) -> Result<Option<CompilationTask>, String> {
    let args: Vec<String> = line.split(" ").map(|x| x.to_string()).collect();
    create_task(command(), &args)
}

#[test]
fn switches_open_with_slash_or_dash() {
    assert!(has_param_prefix("/c"));
    assert!(has_param_prefix("-c"));
    assert!(!has_param_prefix("sample.cpp"));
    assert!(!has_param_prefix(""));
}

#[test]
fn spaceable_switches() {
    assert_eq!(is_spaceable_param("DTEST"), Some(("D", Scope::Shared)));
    assert_eq!(is_spaceable_param("I"), Some(("I", Scope::Preprocessor)));
    assert_eq!(is_spaceable_param("W4"), Some(("W", Scope::Compiler)));
    assert_eq!(is_spaceable_param("wd4100"), Some(("wd", Scope::Compiler)));
    assert_eq!(is_spaceable_param("we4100"), Some(("we", Scope::Compiler)));
    assert_eq!(is_spaceable_param("wo4100"), Some(("wo", Scope::Compiler)));
    assert_eq!(is_spaceable_param("w"), Some(("w", Scope::Compiler)));
    assert_eq!(is_spaceable_param("nologo"), None);
}

#[test]
fn unknown_switches_are_all_named() {
    let args: Vec<String> = "/c /foo sample.cpp -bar /D".split(" ").map(|x| x.to_string()).collect();
    assert_eq!(
        parse_arguments(&args),
        Err("Found unknown command line arguments: [\"/foo\", \"-bar\", \"/D\"]".to_string())
    );
}

#[test]
fn spaced_value_that_is_a_switch_is_refused_and_used_up() {
    let args: Vec<String> = "/I /c sample.cpp".split(" ").map(|x| x.to_string()).collect();
    assert_eq!(parse_arguments(&args), Err("Found unknown command line arguments: [\"/I\"]".to_string()));
}

#[test]
fn classification_of_the_switch_table() {
    let args: Vec<String> = "/nologo /bigobj /Ox /GR- /RTC1 /Zi /d2Zi+ /MDd /MT /EHsc /fp:fast /errorReport:none /Ylsym /FIpre.h /Ipath /I inc /W4 /wd4100 -Ycstdafx.h"
        .split(" ")
        .map(|x| x.to_string())
        .collect();
    let flag = |scope, flag: &str| Arg::Flag { scope, flag: flag.to_string() };
    let param =
        |scope, flag: &str, value: &str| Arg::Param { scope, flag: flag.to_string(), value: value.to_string() };
    assert_eq!(
        parse_arguments(&args).unwrap(),
        vec![
            flag(Scope::Ignore, "nologo"),
            flag(Scope::Compiler, "bigobj"),
            flag(Scope::Shared, "Ox"),
            flag(Scope::Shared, "GR-"),
            flag(Scope::Shared, "RTC1"),
            flag(Scope::Shared, "Zi"),
            flag(Scope::Shared, "d2Zi+"),
            flag(Scope::Shared, "MDd"),
            flag(Scope::Shared, "MT"),
            flag(Scope::Shared, "EHsc"),
            flag(Scope::Shared, "fp:fast"),
            flag(Scope::Shared, "errorReport:none"),
            flag(Scope::Shared, "Ylsym"),
            param(Scope::Preprocessor, "FI", "pre.h"),
            param(Scope::Preprocessor, "I", "path"),
            param(Scope::Preprocessor, "I", "inc"),
            param(Scope::Compiler, "W", "4"),
            param(Scope::Compiler, "wd", "4100"),
            Arg::Output { kind: OutputKind::Marker, flag: "Yc".to_string(), file: "stdafx.h".to_string() },
        ]
    );
}

#[test]
fn task_of_a_plain_compile() {
    let made = task("/c /TP /Foout.obj sample.cpp").unwrap().unwrap();
    assert_eq!(made.command, command());
    assert_eq!(made.language, "P");
    assert_eq!(made.input_source, "sample.cpp");
    assert_eq!(made.output_object, "out.obj");
    assert_eq!(made.input_precompiled, None);
    assert_eq!(made.output_precompiled, None);
    assert_eq!(made.marker_precompiled, None);
    assert_eq!(made.args.len(), 4);
}

#[test]
fn task_defaults() {
    let made = task("/c dir.x/Sample.CPP").unwrap().unwrap();
    assert_eq!(made.language, "P");
    assert_eq!(made.output_object, "dir.x/Sample.obj");
    assert_eq!(task("a.cxx").unwrap().unwrap().language, "P");
    assert_eq!(task("a.cc").unwrap().unwrap().language, "P");
    assert_eq!(task("a.C").unwrap().unwrap().language, "C");
    assert_eq!(task("/TC a.cpp").unwrap().unwrap().language, "C");
}

#[test]
fn task_with_precompiled_header() {
    let used = task("/Yustdafx.h /Fpout.pch a.cpp").unwrap().unwrap();
    assert_eq!(used.marker_precompiled, Some("stdafx.h".to_string()));
    assert_eq!(used.input_precompiled, Some("out.pch".to_string()));
    assert_eq!(used.output_precompiled, None);

    let made = task("/Ycstdafx.h a.cpp").unwrap().unwrap();
    assert_eq!(made.marker_precompiled, Some("stdafx.h".to_string()));
    assert_eq!(made.input_precompiled, None);
    assert_eq!(made.output_precompiled, Some("stdafx.h.pch".to_string()));

    let unnamed = task("/Yc a.cpp").unwrap().unwrap();
    assert_eq!(unnamed.marker_precompiled, None);
    assert_eq!(unnamed.output_precompiled, Some(".pch".to_string()));
}

#[test]
fn task_errors() {
    assert_eq!(task("/c"), Ok(None));
    assert_eq!(task("a.cpp b.cpp"), Err("Found too many source files: [\"a.cpp\", \"b.cpp\"]".to_string()));
    assert_eq!(
        task("/Fpa.pch /Fpb.pch a.cpp"),
        Err("Found too many precompiled header files: [\"a.pch\", \"b.pch\"]".to_string())
    );
    assert_eq!(
        task("/Foa.obj /Fob.obj a.cpp"),
        Err("Found too many output object files: [\"a.obj\", \"b.obj\"]".to_string())
    );
    assert_eq!(task("/TX a.cpp"), Err("Unknown source language type: X".to_string()));
    assert_eq!(task("/TP /TC a.cpp"), Err("Found too many source language types: [\"P\", \"C\"]".to_string()));
    assert_eq!(task("a.txt"), Err("Can't detect file language by extension: a.txt".to_string()));
    assert_eq!(task("a"), Err("Can't detect file language by extension: a".to_string()));
    assert_eq!(task("/foo a.cpp"), Err("Found unknown command line arguments: [\"/foo\"]".to_string()));
}

#[test]
fn producing_and_consuming_a_precompiled_header_at_once_is_refused() {
    assert_eq!(
        task("/Ycstdafx.h /Yustdafx.h a.cpp"),
        Err("Found too many precompiled header markers: \"stdafx.hstdafx.h\"".to_string())
    );
}

use octobuild::prepare::create_tasks;
use octobuild::vs::VsToolchain;

fn tasks(line: &str) -> Result<Vec<CompilationTask>, String> {
    let args: Vec<String> = line.split(" ").filter(|x| !x.is_empty()).map(|x| x.to_string()).collect();
    create_tasks(&command(), &args)
}

#[test]
fn one_task_for_each_source() {
    let made = tasks("/c /DX a.cpp /Foout b.c /Yustdafx.h").unwrap();
    assert_eq!(made.len(), 2);
    assert_eq!(made[0].input_source, "a.cpp");
    assert_eq!(made[0].language, "P");
    assert_eq!(made[1].input_source, "b.c");
    assert_eq!(made[1].language, "C");
    for task in made.iter() {
        assert_eq!(task.command, command());
        assert_eq!(task.output_object, "out");
        assert_eq!(task.marker_precompiled, Some("stdafx.h".to_string()));
        assert_eq!(task.input_precompiled, Some("stdafx.h.pch".to_string()));
        assert_eq!(task.args.len(), 5);
        let sources: Vec<&Arg> =
            task.args.iter().filter(|arg| matches!(arg, Arg::Input { kind: InputKind::Source, .. })).collect();
        assert_eq!(
            sources,
            vec![&Arg::Input { kind: InputKind::Source, flag: "".to_string(), file: task.input_source.clone() }]
        );
    }
    assert_eq!(made[0].args[0], Arg::Flag { scope: Scope::Ignore, flag: "c".to_string() });
    assert_eq!(
        made[1].args[4],
        Arg::Input { kind: InputKind::Marker, flag: "Yu".to_string(), file: "stdafx.h".to_string() }
    );
}

#[test]
fn no_source_gives_no_task_and_nothing_to_run() {
    assert_eq!(tasks("/c /nologo"), Ok(vec![]));
    assert_eq!(tasks(""), Ok(vec![]));
    assert_eq!(VsToolchain::preprocess_sources(&vec![]), None);
}

#[test]
fn one_bad_source_gives_no_tasks() {
    assert_eq!(tasks("a.cpp b.txt c.cpp"), Err("Can't detect file language by extension: b.txt".to_string()));
    assert_eq!(tasks("a.cpp /foo"), Err("Found unknown command line arguments: [\"/foo\"]".to_string()));
    assert_eq!(
        tasks("/Yca.h /Yua.h a.cpp b.cpp"),
        Err("Found too many precompiled header markers: \"a.ha.h\"".to_string())
    );
}

#[test]
fn all_sources_are_preprocessed_in_one_run() {
    let made = tasks("/c /DX src/a.cpp /Foout /Iinc b.cpp").unwrap();
    assert_eq!(
        VsToolchain::preprocess_sources(&made),
        Some(
            ["/DX", "/Iinc", "/nologo", "/TP", "/E", "/we4002", "/Foout", "src/./a.cpp", "./b.cpp"]
                .iter()
                .map(|s| s.to_string())
                .collect()
        )
    );
    let mixed = tasks("a.cpp b.c").unwrap();
    assert_eq!(VsToolchain::preprocess_sources(&mixed), None);
}
