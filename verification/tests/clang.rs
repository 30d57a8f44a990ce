use octobuild::clang::{clang_base_name, clang_identifier, clang_parse_version, ClangCompiler, ClangToolchain};
use octobuild::compiler::{Arg, CommandInfo, CompilationTask, InputKind, Scope};

#[test]
fn test_ubuntu_14_04_clang_3_5() {
    assert_eq!(
        clang_parse_version(
            "prefix",
            r#"Ubuntu clang version 3.5.0-4ubuntu2~trusty2 (tags/RELEASE_350/final) (based on LLVM 3.5.0)
Target: x86_64-pc-linux-gnu
Thread model: posix
"#
        ),
        Some("prefix tags/RELEASE_350/final x86_64-pc-linux-gnu".to_string())
    )
}

#[test]
fn test_ubuntu_14_04_clang_3_6() {
    assert_eq!(
        clang_parse_version(
            "prefix",
            r#"Ubuntu clang version 3.6.0-2ubuntu1~trusty1 (tags/RELEASE_360/final) (based on LLVM 3.6.0)
Target: x86_64-pc-linux-gnu
Thread model: posix
"#
        ),
        Some("prefix tags/RELEASE_360/final x86_64-pc-linux-gnu".to_string())
    )
}

#[test]
fn test_ubuntu_16_04_clang_3_5() {
    assert_eq!(
        clang_parse_version(
            "prefix",
            r#"Ubuntu clang version 3.5.2-3ubuntu1 (tags/RELEASE_352/final) (based on LLVM 3.5.2)
Target: x86_64-pc-linux-gnu
Thread model: posix
"#
        ),
        Some("prefix tags/RELEASE_352/final x86_64-pc-linux-gnu".to_string())
    )
}

#[test]
fn test_ubuntu_16_04_clang_3_6() {
    assert_eq!(
        clang_parse_version(
            "prefix",
            r#"Ubuntu clang version 3.6.2-3ubuntu2 (tags/RELEASE_362/final) (based on LLVM 3.6.2)
Target: x86_64-pc-linux-gnu
Thread model: posix
"#
        ),
        Some("prefix tags/RELEASE_362/final x86_64-pc-linux-gnu".to_string())
    )
}

#[test]
fn test_ubuntu_16_04_clang_3_7() {
    assert_eq!(
        clang_parse_version(
            "prefix",
            r#"Ubuntu clang version 3.7.1-2ubuntu2 (tags/RELEASE_371/final) (based on LLVM 3.7.1)
Target: x86_64-pc-linux-gnu
Thread model: posix
"#
        ),
        Some("prefix tags/RELEASE_371/final x86_64-pc-linux-gnu".to_string())
    )
}

#[test]
fn test_ubuntu_16_04_clang_3_8() {
    assert_eq!(
        clang_parse_version(
            "prefix",
            r#"clang version 3.8.0-2ubuntu3 (tags/RELEASE_380/final)
Target: x86_64-pc-linux-gnu
Thread model: posix
InstalledDir: /usr/bin
"#
        ),
        Some("prefix tags/RELEASE_380/final x86_64-pc-linux-gnu".to_string())
    )
}

#[test]
fn version_output_without_a_build_gives_no_identifier() {
    assert_eq!(clang_parse_version("clang", "gcc (GCC) 5.4.0\n"), None);
    assert_eq!(clang_parse_version("clang", ""), None);
}

#[test]
fn clang_names() {
    assert_eq!(clang_base_name("/usr/bin/clang"), Some("clang".to_string()));
    assert_eq!(clang_base_name("/usr/bin/clang++"), Some("clang++".to_string()));
    assert_eq!(clang_base_name("/usr/bin/clang-3.8"), Some("clang".to_string()));
    assert_eq!(clang_base_name("C:\\llvm\\bin\\Clang++.EXE"), Some("Clang++".to_string()));
    assert_eq!(clang_base_name("/usr/bin/gcc"), None);
    assert_eq!(clang_base_name("/usr/bin/clang/"), None);
    assert_eq!(clang_base_name("/usr/clang/cc"), None);
}

#[test]
fn clang_identifier_needs_name_and_output() {
    let output = Some("clang version 3.8.0-2ubuntu3 (tags/RELEASE_380/final)\nTarget: x86_64-pc-linux-gnu\n".to_string());
    assert_eq!(
        clang_identifier("/usr/bin/clang++-3.8", &output),
        Some("clang++ tags/RELEASE_380/final x86_64-pc-linux-gnu".to_string())
    );
    assert_eq!(clang_identifier("/usr/bin/gcc", &output), None);
    assert_eq!(clang_identifier("/usr/bin/clang", &None), None);
}

#[test]
fn clang_registry_keeps_each_path_once() {
    let mut compiler = ClangCompiler::new();
    assert_eq!(compiler.resolve_toolchain("/usr/bin/clang"), Some(0));
    assert_eq!(compiler.resolve_toolchain("/usr/bin/gcc"), None);
    assert_eq!(compiler.resolve_toolchain("/usr/bin/clang++"), Some(1));
    assert_eq!(compiler.resolve_toolchain("/usr/bin/clang"), Some(0));
    assert_eq!(
        compiler.toolchains,
        vec![ClangToolchain::new("/usr/bin/clang".to_string()), ClangToolchain::new("/usr/bin/clang++".to_string())]
    );
}

fn sample_task() -> CompilationTask {
    CompilationTask {
        command: CommandInfo { program: "clang".to_string(), current_dir: None },
        args: vec![
            Arg::Flag { scope: Scope::Shared, flag: "O2".to_string() },
            Arg::Flag { scope: Scope::Ignore, flag: "c".to_string() },
            Arg::Param { scope: Scope::Preprocessor, flag: "I".to_string(), value: "inc".to_string() },
            Arg::Param { scope: Scope::Compiler, flag: "W".to_string(), value: "all".to_string() },
            Arg::Input { kind: InputKind::Source, flag: "".to_string(), file: "a.cpp".to_string() },
        ],
        language: "c++".to_string(),
        input_source: "a.cpp".to_string(),
        input_precompiled: None,
        output_object: "a.o".to_string(),
        output_precompiled: None,
        marker_precompiled: None,
    }
}

#[test]
fn clang_preprocess_command_line() {
    assert_eq!(
        ClangCompiler::preprocess_step(&sample_task()),
        vec!["-E", "-x", "c++", "-frewrite-includes", "-O2", "-I", "inc", "a.cpp", "-o", "-"]
    );
}

#[test]
fn clang_compile_command_line() {
    let step = ClangCompiler::compile_prepare_step(&sample_task(), b"int x;".to_vec());
    assert_eq!(step.args, vec!["-c", "-x", "c++", "-O2", "-W", "all"]);
    assert_eq!(step.preprocessed, b"int x;".to_vec());
    assert_eq!(step.output_object, Some("a.o".to_string()));
}

#[test]
fn clang_backend_command_line() {
    let step = ClangCompiler::compile_prepare_step(&sample_task(), b"int x;".to_vec());
    assert_eq!(
        ClangToolchain::compile_step(&step).unwrap(),
        vec!["-c", "-x", "c++", "-O2", "-W", "all", "-", "-o", "a.o"]
    );
}

#[test]
fn clang_discovery_takes_the_clang_programs_of_a_directory() {
    let mut compiler = ClangCompiler::new();
    let names: Vec<String> =
        ["gcc", "clang", "clang++-3.8", "clang-format", "clang"].iter().map(|s| s.to_string()).collect();
    compiler.discovery_at("/usr/bin", &names);
    assert_eq!(compiler.toolchains.len(), 2);
    assert_eq!(compiler.toolchains[0].path, "/usr/bin/clang");
    assert_eq!(compiler.toolchains[1].path, "/usr/bin/clang++-3.8");
}

#[test]
fn clang_identifier_is_made_once() {
    let mut toolchain = ClangToolchain::new("/usr/bin/clang".to_string());
    let output = Some("clang version 3.8.0 (tags/RELEASE_380/final)\nTarget: x86_64-pc-linux-gnu\n".to_string());
    let made = toolchain.identifier(&output);
    assert_eq!(made, Some("clang tags/RELEASE_380/final x86_64-pc-linux-gnu".to_string()));
    assert_eq!(toolchain.identifier(&None), made);
    let mut unknown = ClangToolchain::new("/usr/bin/clang".to_string());
    assert_eq!(unknown.identifier(&None), None);
    assert_eq!(unknown.identifier(&output), None);
}
