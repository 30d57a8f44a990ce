use octobuild::compiler::{Arg, CommandInfo, CompilationTask, CompileStep, InputKind, OutputKind, Scope};
use octobuild::vs::{
    VsCompiler, get_output_object, is_cl_program, is_eol, join_flag, pe_header_offset, prepare_output, read_executable_id,
    source_separator_path, to_hex, trim_output, vs_identifier, ExecutableError, VsToolchain,
};

fn check_prepare_output(output: &str, expected: &str, line: &str, success: bool) {
    let stream: Vec<u8> = output.as_bytes().to_vec();

    let result = prepare_output(line.as_bytes(), stream, success);
    assert_eq!(String::from_utf8_lossy(&result), expected);
}

#[test]
fn test_prepare_output_simple() {
    check_prepare_output(
        r#"BLABLABLA
foo.c : warning C4411: foo bar
"#,
        r#"foo.c : warning C4411: foo bar
"#,
        "BLABLABLA",
        true,
    );
}

#[test]
fn test_prepare_output_c4628_remove() {
    check_prepare_output(
        r#"BLABLABLA
foo.c(41) : warning C4411: foo bar
foo.c(42) : warning C4628: foo bar
foo.c(43) : warning C4433: foo bar
"#,
        r#"foo.c(41) : warning C4411: foo bar
foo.c(43) : warning C4433: foo bar
"#,
        "BLABLABLA",
        true,
    );
}

#[test]
fn test_prepare_output_c4628_keep() {
    check_prepare_output(
        r#"BLABLABLA
foo.c(41) : warning C4411: foo bar
foo.c(42) : warning C4628: foo bar
foo.c(43) : warning C4433: foo bar
"#,
        r#"foo.c(41) : warning C4411: foo bar
foo.c(42) : warning C4628: foo bar
foo.c(43) : warning C4433: foo bar
"#,
        "BLABLABLA",
        false,
    );
}

#[test]
fn trim_output_edges() {
    assert_eq!(trim_output(b"name", b"name"), b"name".to_vec());
    assert_eq!(trim_output(b"name", b"name\r\n\r\nrest\n"), b"rest\n".to_vec());
    assert_eq!(trim_output(b"name", b"names\nrest"), b"names\nrest".to_vec());
    assert_eq!(trim_output(b"name", b"\n\nname\nrest"), b"name\nrest".to_vec());
    assert_eq!(trim_output(b"", b""), b"".to_vec());
    assert_eq!(trim_output(b"x", b"\r\n"), b"".to_vec());
}

#[test]
fn line_ends() {
    assert!(is_eol(b'\r'));
    assert!(is_eol(b'\n'));
    assert!(!is_eol(b' '));
}

#[test]
fn cl_program_names() {
    assert!(is_cl_program("cl.exe"));
    assert!(is_cl_program("C:\\VC\\bin\\CL.EXE"));
    assert!(is_cl_program("/opt/msvc/Cl"));
    assert!(!is_cl_program("clang"));
    assert!(!is_cl_program("cl.exe/"));
    assert!(!is_cl_program("xcl.exe"));
}

#[test]
fn output_object_in_a_directory() {
    assert_eq!(get_output_object("src/a.cpp", "out", true), Ok("out/a.obj".to_string()));
    assert_eq!(get_output_object("src/a.cpp", "out/", true), Ok("out/a.obj".to_string()));
    assert_eq!(get_output_object("src/a.cpp", "out/b.o", false), Ok("out/b.o".to_string()));
    assert_eq!(
        get_output_object("src/..", "out", true),
        Err("Input file path does not contains file name: src/..".to_string())
    );
    assert_eq!(join_flag("/Fo", "out/a.obj"), "/Foout/a.obj");
}

#[test]
fn separator_paths() {
    assert_eq!(source_separator_path("src/a.cpp"), "src/./a.cpp");
    assert_eq!(source_separator_path("C:\\src\\a.cpp"), "C:/src/./a.cpp");
    assert_eq!(source_separator_path("a.cpp"), "./a.cpp");
    assert_eq!(source_separator_path("src/"), "src/");
    assert_eq!(source_separator_path("/a.cpp"), "/./a.cpp");
}

fn sample_task(output_precompiled: Option<&str>, input_precompiled: Option<&str>) -> CompilationTask {
    CompilationTask {
        command: CommandInfo { program: "cl.exe".to_string(), current_dir: None },
        args: vec![
            Arg::Flag { scope: Scope::Shared, flag: "O2".to_string() },
            Arg::Flag { scope: Scope::Ignore, flag: "c".to_string() },
            Arg::Param { scope: Scope::Preprocessor, flag: "I".to_string(), value: "inc".to_string() },
            Arg::Param { scope: Scope::Compiler, flag: "W".to_string(), value: "4".to_string() },
            Arg::Flag { scope: Scope::Compiler, flag: "bigobj".to_string() },
            Arg::Output { kind: OutputKind::Object, flag: "Fo".to_string(), file: "out".to_string() },
            Arg::Input { kind: InputKind::Source, flag: "".to_string(), file: "src/a.cpp".to_string() },
        ],
        language: "P".to_string(),
        input_source: "src/a.cpp".to_string(),
        input_precompiled: input_precompiled.map(|s| s.to_string()),
        output_object: "out".to_string(),
        output_precompiled: output_precompiled.map(|s| s.to_string()),
        marker_precompiled: None,
    }
}

#[test]
fn vs_preprocess_command_line() {
    assert_eq!(
        VsToolchain::preprocess_step(&sample_task(None, None)),
        vec!["/O2", "/Iinc", "/nologo", "/TP", "/E", "/we4002", "/Foout", "src/./a.cpp"]
    );
}

#[test]
fn vs_compile_command_line() {
    let step = VsToolchain::compile_prepare_step(&sample_task(None, Some("/p/a.pch")), b"int x;".to_vec(), true)
        .unwrap();
    assert_eq!(step.args, vec!["/O2", "/W4", "/bigobj", "/nologo", "/TP"]);
    assert_eq!(step.output_object, Some("out/a.obj".to_string()));
    assert_eq!(
        VsToolchain::compile_step(&step, "tmp/1.i").unwrap(),
        vec!["/c", "/O2", "/W4", "/bigobj", "/nologo", "/TP", "tmp/1.i", "/Foout/a.obj", "/Yu", "/Fp/p/a.pch"]
    );

    let step = VsToolchain::compile_prepare_step(&sample_task(Some("/p/a.pch"), None), Vec::new(), false).unwrap();
    assert_eq!(step.args, vec!["/O2", "/Iinc", "/W4", "/bigobj", "/nologo", "/TP", "/Yc"]);
    assert_eq!(
        VsToolchain::compile_step(&step, "1.i").unwrap(),
        vec!["/c", "/O2", "/Iinc", "/W4", "/bigobj", "/nologo", "/TP", "/Yc", "1.i", "/Foout", "/Fp/p/a.pch"]
    );
    let bare = CompileStep {
        output_object: Some("a.obj".to_string()),
        output_precompiled: None,
        input_precompiled: None,
        args: Vec::new(),
        preprocessed: Vec::new(),
    };
    assert_eq!(VsToolchain::compile_step(&bare, "1.i").unwrap(), vec!["/c", "1.i", "/Foa.obj"]);
    let nowhere = CompileStep { output_object: None, ..bare };
    assert_eq!(VsToolchain::compile_step(&nowhere, "1.i"), None);
}

#[test]
fn hex_numbers() {
    assert_eq!(to_hex(0, true), "0");
    assert_eq!(to_hex(0x5A3B_00FF, true), "5A3B00FF");
    assert_eq!(to_hex(0x5A3B_00FF, false), "5a3b00ff");
    assert_eq!(to_hex(u32::MAX, false), "ffffffff");
    assert_eq!(to_hex(16, true), "10");
}

fn pe_header(stamp: u32, size: u32) -> Vec<u8> {
    let mut pe = vec![0u8; 0x54];
    pe[0] = b'P';
    pe[1] = b'E';
    pe[8..12].copy_from_slice(&stamp.to_le_bytes());
    pe[0x50..0x54].copy_from_slice(&size.to_le_bytes());
    pe
}

#[test]
fn executable_identity() {
    let mut mz = vec![0u8; 0x40];
    mz[0] = b'M';
    mz[1] = b'Z';
    mz[0x3C..0x40].copy_from_slice(&0x0102_0380u32.to_le_bytes());
    assert_eq!(pe_header_offset(&mz), Ok(0x0102_0380));
    assert_eq!(pe_header_offset(&mz[..0x3F]), Err(ExecutableError::Truncated));
    mz[1] = b'X';
    assert_eq!(pe_header_offset(&mz), Err(ExecutableError::NoMzSignature));

    let pe = pe_header(0x5A3B_C0DE, 0x0001_F000);
    assert_eq!(read_executable_id(&pe), Ok("5A3BC0DE1f000".to_string()));
    assert_eq!(read_executable_id(&pe[..0x53]), Err(ExecutableError::Truncated));
    let mut bad = pe.clone();
    bad[2] = 1;
    assert_eq!(read_executable_id(&bad), Err(ExecutableError::NoPeSignature));
    assert_eq!(vs_identifier("19.00.24215.1", &pe), Some("cl 19.00.24215.1 5A3BC0DE1f000".to_string()));
    assert_eq!(vs_identifier("19.00.24215.1", &bad), None);
}

#[test]
fn vs_registry_keeps_each_path_once() {
    let mut compiler = VsCompiler::new("tmp");
    assert_eq!(compiler.resolve_toolchain("C:\\VC\\bin\\cl.exe"), Some(0));
    assert_eq!(compiler.resolve_toolchain("/usr/bin/clang"), None);
    assert_eq!(compiler.resolve_toolchain("D:\\VC\\bin\\CL.EXE"), Some(1));
    assert_eq!(compiler.resolve_toolchain("C:\\VC\\bin\\cl.exe"), Some(0));
    assert_eq!(compiler.toolchains.len(), 2);
    assert_eq!(compiler.temp_dir, "tmp");
}
