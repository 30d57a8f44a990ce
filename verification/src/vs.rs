//! The Microsoft compiler: what identifies one, the command lines of its
//! steps, what its backend writes, and the sink that parts the output of its
//! preprocessor into the streams of the sources.

use byteorder::{ByteOrder, LittleEndian};
use vstd::prelude::*;
use vstd::slice::{slice_subrange, slice_to_vec};
use vstd::string::StrSliceExecFns;
use vstd::string::StringExecFns;
use crate::cache::{exit_code, exit_code_of};
use crate::compiler::{
    Arg, ArgView, CommandInfo, CompilationTask, CompileStep, OutputInfo, Scope, TaskView, arg_views,
    opt_view, text_views,
};
use crate::prepare::{create_tasks, task_views, tasks_of};
use crate::paths::{
    file_name_start, has_file_name, joined_path, last_component, parent, path_join, path_parent,
    path_with_extension, with_extension,
};
use crate::pattern::{regex_replaced, replace_all};
use crate::postprocess::{
    opt_bytes, LineKind, LineKindView, PostprocessError, PostprocessWrite, ScanView, ScannerState,
    chunk_views, enters_file, line_applied, line_step, marker_bytes, replace_backslashes,
    scan_result, scan_start, slashed,
};
use crate::text::{eq_ignore_ascii_case, join2, same_ignoring_ascii_case, skip_chars, text_eq};

verus! {

/// The lines that the backend writes for warning C4628, one match each.
pub const WARNING_C4628: &'static str = r"(?m)^\S+[^:]*\(\d+\) : warning C4628: .*$\n?";

/// A carriage return or a line feed.
pub open spec fn is_line_end(c: u8) -> bool {
    c == 0x0D || c == 0x0A
}

pub fn is_eol(c: u8) -> (r: bool)
    ensures
        r == is_line_end(c),
{
    c == 0x0D || c == 0x0A
}

/// The switch `flag` with the path `path` as its value.
pub fn join_flag(flag: &str, path: &str) -> (r: String)
    ensures
        r@ == flag@ + path@,
{
    join2(flag, path)
}

/// The program is the Microsoft compiler by its file name: `cl.exe` or `cl`,
/// letters in either case.
pub open spec fn names_cl(program: Seq<char>) -> bool {
    same_ignoring_ascii_case(last_component(program), "cl.exe"@) || same_ignoring_ascii_case(
        last_component(program),
        "cl"@,
    )
}

/// Tells whether a program is the Microsoft compiler by its file name.
pub fn is_cl_program(program: &str) -> (r: bool)
    ensures
        r == names_cl(program@),
{
    let start = file_name_start(program);
    let name = skip_chars(program, start);
    eq_ignore_ascii_case(name.as_str(), "cl.exe") || eq_ignore_ascii_case(name.as_str(), "cl")
}

/// What is to be done with a command line.
pub enum Plan {
    /// The program is not the Microsoft compiler: it is run as it was asked
    /// for.
    NotCompiler,
    /// The arguments are not understood, for the reason given: the compiler
    /// is run as it was asked for, without the cache.
    Refused(String),
    /// The tasks are compiled, one for each source, in order. Where there is
    /// none, nothing is run, and the build ends well.
    Build(Vec<CompilationTask>),
}

/// What stopped a build before its backends were through.
pub enum BuildFailure {
    /// A file or a process of this machine failed.
    Machine,
    /// The output of the preprocessor is not what a preprocessor writes, or
    /// lacks a source.
    Source(SplitError),
}

/// How the wrapper ends.
#[derive(Debug, PartialEq, Eq)]
pub enum Ending {
    /// With this exit code.
    Exit(i32),
    /// With the compiler run as it was asked for, without the cache.
    PassThrough,
}

/// The exit code of a build whose preprocessor wrote what cannot be read.
pub const SOURCE_FAILURE: i32 = 1;

/// Decides how the wrapper ends. A build whose backends are through ends with
/// the exit code of the first backend that failed, or well. An output of the
/// preprocessor that cannot be read fails the build. A failure of the machine
/// has the compiler run as it was asked for.
pub fn end_build(result: &Result<Vec<OutputInfo>, BuildFailure>) -> (r: Ending)
    ensures
        r == (match *result {
            Ok(outputs) => Ending::Exit(exit_code_of(outputs@)),
            Err(BuildFailure::Source(_)) => Ending::Exit(SOURCE_FAILURE),
            Err(BuildFailure::Machine) => Ending::PassThrough,
        }),
{
    match result {
        Ok(outputs) => Ending::Exit(exit_code(outputs)),
        Err(BuildFailure::Source(_)) => Ending::Exit(SOURCE_FAILURE),
        Err(BuildFailure::Machine) => Ending::PassThrough,
    }
}

/// Decides what is to be done with a command line whose response files are
/// already expanded.
pub fn plan_build(command: &CommandInfo, args: &Vec<String>) -> (r: Plan)
    ensures
        match r {
            Plan::NotCompiler => !names_cl(command.program@),
            Plan::Refused(message) => names_cl(command.program@) && tasks_of(text_views(args@))
                == Err::<Seq<TaskView>, Seq<char>>(message@),
            Plan::Build(tasks) => {
                &&& names_cl(command.program@)
                &&& tasks_of(text_views(args@)) == Ok::<Seq<TaskView>, Seq<char>>(
                    task_views(tasks@),
                )
                &&& forall|i: int|
                    0 <= i < tasks@.len() ==> (#[trigger] tasks@[i]).command.program@
                        == command.program@ && opt_view(tasks@[i].command.current_dir) == opt_view(
                        command.current_dir,
                    )
            },
        },
{
    if !is_cl_program(command.program.as_str()) {
        return Plan::NotCompiler;
    }
    match create_tasks(command, args) {
        Ok(tasks) => Plan::Build(tasks),
        Err(message) => Plan::Refused(message),
    }
}

/// Where the run of line ends that begins at `pos` ends.
pub open spec fn line_ends_end(s: Seq<u8>, pos: int) -> int
    decreases s.len() - pos,
{
    if 0 <= pos < s.len() && is_line_end(s[pos]) {
        line_ends_end(s, pos + 1)
    } else {
        pos
    }
}

/// `s` begins with `prefix`.
pub open spec fn bytes_have_prefix(s: Seq<u8>, prefix: Seq<u8>) -> bool {
    prefix.len() <= s.len() && s.subrange(0, prefix.len() as int) == prefix
}

/// Where the output of the backend begins once the name of the input, which
/// the backend writes as a line of its own, and the line ends behind it are
/// passed over.
pub open spec fn output_start(line: Seq<u8>, buffer: Seq<u8>) -> int {
    let named = line.len() < buffer.len() && bytes_have_prefix(buffer, line) && is_line_end(
        buffer[line.len() as int],
    );
    line_ends_end(
        buffer,
        if named {
            line.len() as int
        } else {
            0
        },
    )
}

/// The output of the backend without the line that names the input.
pub open spec fn trimmed_output(line: Seq<u8>, buffer: Seq<u8>) -> Seq<u8> {
    buffer.subrange(output_start(line, buffer), buffer.len() as int)
}

/// The output of the backend as the user sees it: without the line that names
/// the input, and after a build that went well without the lines for warning
/// C4628.
pub open spec fn prepared_output(line: Seq<u8>, buffer: Seq<u8>, success: bool) -> Seq<u8> {
    if success {
        regex_replaced(WARNING_C4628@, trimmed_output(line, buffer), Seq::empty())
    } else {
        trimmed_output(line, buffer)
    }
}

fn starts_with_bytes(s: &[u8], prefix: &[u8]) -> (r: bool)
    ensures
        r == bytes_have_prefix(s@, prefix@),
{
    if prefix.len() > s.len() {
        return false;
    }
    let mut i: usize = 0;
    while i < prefix.len()
        invariant
            i <= prefix@.len() <= s@.len(),
            forall|j: int| 0 <= j < i ==> s@[j] == prefix@[j],
        decreases prefix@.len() - i,
    {
        if s[i] != prefix[i] {
            assert(s@.subrange(0, prefix@.len() as int)[i as int] != prefix@[i as int]);
            return false;
        }
        i += 1;
    }
    assert(s@.subrange(0, prefix@.len() as int) =~= prefix@);
    true
}

/// Takes the line that names the input, and the line ends behind it, off the
/// output of the backend.
pub fn trim_output(line: &[u8], buffer: &[u8]) -> (r: Vec<u8>)
    ensures
        r@ == trimmed_output(line@, buffer@),
{
    let n = buffer.len();
    let mut begin: usize = if line.len() < n && starts_with_bytes(buffer, line) && is_eol(
        buffer[line.len()],
    ) {
        line.len()
    } else {
        0
    };
    let ghost start = begin;
    while begin < n && is_eol(buffer[begin])
        invariant
            start <= begin <= n,
            n == buffer@.len(),
            line_ends_end(buffer@, start as int) == line_ends_end(buffer@, begin as int),
        decreases n - begin,
    {
        begin += 1;
    }
    slice_to_vec(slice_subrange(buffer, begin, n))
}

/// Makes the output of the backend ready for the user.
pub fn prepare_output(line: &[u8], buffer: Vec<u8>, success: bool) -> (r: Vec<u8>)
    ensures
        r@ == prepared_output(line@, buffer@, success),
{
    let trimmed = trim_output(line, buffer.as_slice());
    if success {
        let nothing: Vec<u8> = Vec::new();
        replace_all(WARNING_C4628, trimmed.as_slice(), nothing.as_slice())
    } else {
        trimmed
    }
}

/// Where the object file of `input_source` goes: into `output_object` under
/// the name of the source with the extension `obj` where that is a directory,
/// which needs the source to have a file name; else to `output_object` itself.
pub open spec fn output_object_for(
    input_source: Seq<char>,
    output_object: Seq<char>,
    is_dir: bool,
) -> Result<Seq<char>, Seq<char>> {
    if !is_dir {
        Ok(output_object)
    } else if has_file_name(input_source) {
        Ok(with_extension(joined_path(output_object, last_component(input_source)), "obj"@))
    } else {
        Err("Input file path does not contains file name: "@ + input_source)
    }
}

/// Tells where the object file of `input_source` goes; `is_dir` says whether
/// `output_object` is a directory.
pub fn get_output_object(input_source: &str, output_object: &str, is_dir: bool) -> (r: Result<
    String,
    String,
>)
    ensures
        match r {
            Ok(path) => output_object_for(input_source@, output_object@, is_dir) == Ok::<
                Seq<char>,
                Seq<char>,
            >(path@),
            Err(message) => output_object_for(input_source@, output_object@, is_dir) == Err::<
                Seq<char>,
                Seq<char>,
            >(message@),
        },
{
    if !is_dir {
        return Ok(String::from_str(output_object));
    }
    let start = file_name_start(input_source);
    let name = skip_chars(input_source, start);
    proof {
        reveal_strlit(".");
        reveal_strlit("..");
        assert("."@ =~= seq!['.']);
        assert(".."@ =~= seq!['.', '.']);
    }
    let named = name.as_str().unicode_len() > 0 && !text_eq(name.as_str(), ".") && !text_eq(
        name.as_str(),
        "..",
    );
    if named {
        let joined = path_join(output_object, name.as_str());
        Ok(path_with_extension(joined.as_str(), "obj"))
    } else {
        Err(join2("Input file path does not contains file name: ", input_source))
    }
}

/// The arguments that a list of classified arguments brings to one step of a
/// build with the Microsoft compiler: each flag and each parameter whose
/// scope is taken, as one argument, a slash before its name. The compile step
/// takes the arguments of the preprocessor too where `with_preprocessor` says
/// so.
pub open spec fn vs_step_args(args: Seq<ArgView>, preprocess: bool, with_preprocessor: bool) -> Seq<
    Seq<char>,
>
    decreases args.len(),
{
    if args.len() == 0 {
        Seq::empty()
    } else {
        let rest = vs_step_args(args.drop_last(), preprocess, with_preprocessor);
        match args.last() {
            ArgView::Flag { scope, flag } => if vs_scope_taken(scope, preprocess, with_preprocessor) {
                rest.push(seq!['/'] + flag)
            } else {
                rest
            },
            ArgView::Param { scope, flag, value } => if vs_scope_taken(
                scope,
                preprocess,
                with_preprocessor,
            ) {
                rest.push(seq!['/'] + flag + value)
            } else {
                rest
            },
            _ => rest,
        }
    }
}

/// The step takes the arguments of the scope.
pub open spec fn vs_scope_taken(
    scope: Scope,
    preprocess: bool,
    with_preprocessor: bool,
) -> bool {
    if preprocess {
        scope.for_preprocessor()
    } else {
        scope.for_compiler() || (with_preprocessor && scope == Scope::Preprocessor)
    }
}

/// The path under which a source is named to the preprocessor, so that the
/// `#line` directive that opens its output can be told from every other: a
/// `.` is put between its directory and its file name, and slashes stand for
/// backslashes. A path without a file name is taken as it is.
pub open spec fn separator_path(source: Seq<char>) -> Seq<char> {
    slashed(
        match parent(source) {
            Some(dir) => if has_file_name(source) {
                joined_path(joined_path(dir, seq!['.']), last_component(source))
            } else {
                source
            },
            None => source,
        },
    )
}

/// The command line of the preprocess step of a task.
pub open spec fn vs_preprocess_args(task: TaskView) -> Seq<Seq<char>> {
    vs_step_args(task.args, true, false) + seq![
        "/nologo"@,
        "/T"@ + task.language,
        "/E"@,
        "/we4002"@,
        "/Fo"@ + task.output_object,
        separator_path(task.input_source),
    ]
}

/// The command line of the compile step of a task, up to the input and the
/// outputs.
pub open spec fn vs_compile_args(task: TaskView) -> Seq<Seq<char>> {
    vs_step_args(task.args, false, task.output_precompiled is Some) + seq![
        "/nologo"@,
        "/T"@ + task.language,
    ] + (if task.output_precompiled is Some {
        seq!["/Yc"@]
    } else {
        Seq::empty()
    })
}

/// The whole command line of the backend for a compile step whose
/// preprocessed source lies in the file `input`.
pub open spec fn vs_backend_args(
    args: Seq<Seq<char>>,
    input: Seq<char>,
    output_object: Seq<char>,
    output_precompiled: Option<Seq<char>>,
    input_precompiled: Option<Seq<char>>,
) -> Seq<Seq<char>> {
    seq!["/c"@] + args + seq![input, "/Fo"@ + output_object] + (match output_precompiled {
        Some(path) => seq!["/Fp"@ + path],
        None => Seq::empty(),
    }) + (match input_precompiled {
        Some(path) => seq!["/Yu"@, "/Fp"@ + path],
        None => Seq::empty(),
    })
}

fn push_step_args(args: &Vec<Arg>, preprocess: bool, with_preprocessor: bool, out: &mut Vec<String>)
    ensures
        text_views(final(out)@) == text_views(old(out)@) + vs_step_args(
            arg_views(args@),
            preprocess,
            with_preprocessor,
        ),
{
    let ghost views = arg_views(args@);
    let ghost start = text_views(out@);
    let mut i: usize = 0;
    proof {
        reveal_strlit("/");
        assert(views.take(0) =~= Seq::<ArgView>::empty());
        assert(text_views(out@) =~= start + vs_step_args(
            views.take(0),
            preprocess,
            with_preprocessor,
        ));
    }
    while i < args.len()
        invariant
            i <= args.len(),
            views == arg_views(args@),
            text_views(out@) == start + vs_step_args(
                views.take(i as int),
                preprocess,
                with_preprocessor,
            ),
            "/"@ == seq!['/'],
        decreases args.len() - i,
    {
        let ghost before = text_views(out@);
        proof {
            assert(views.take(i + 1).drop_last() =~= views.take(i as int));
            assert(views.take(i + 1).last() == args@[i as int]@);
        }
        match &args[i] {
            Arg::Flag { scope, flag } => {
                let taken = if preprocess {
                    scope.is_for_preprocessor()
                } else {
                    scope.is_for_compiler() || (with_preprocessor && *scope
                        == Scope::Preprocessor)
                };
                if taken {
                    out.push(join2("/", flag.as_str()));
                    assert(text_views(out@) =~= before.push(seq!['/'] + flag@));
                }
            },
            Arg::Param { scope, flag, value } => {
                let taken = if preprocess {
                    scope.is_for_preprocessor()
                } else {
                    scope.is_for_compiler() || (with_preprocessor && *scope
                        == Scope::Preprocessor)
                };
                if taken {
                    let named = join2("/", flag.as_str());
                    out.push(join2(named.as_str(), value.as_str()));
                    assert(text_views(out@) =~= before.push(seq!['/'] + flag@ + value@));
                }
            },
            _ => {},
        }
        i += 1;
    }
    assert(views.take(args.len() as int) =~= views);
}

/// Makes the path under which a source is named to the preprocessor.
pub fn source_separator_path(source: &str) -> (r: String)
    ensures
        r@ == separator_path(source@),
{
    let start = file_name_start(source);
    let name = skip_chars(source, start);
    proof {
        reveal_strlit(".");
        reveal_strlit("..");
        assert("."@ =~= seq!['.']);
        assert(".."@ =~= seq!['.', '.']);
    }
    let named = name.as_str().unicode_len() > 0 && !text_eq(name.as_str(), ".") && !text_eq(
        name.as_str(),
        "..",
    );
    let strange = match path_parent(source) {
        Some(dir) => {
            if named {
                let dotted = path_join(dir.as_str(), ".");
                path_join(dotted.as_str(), name.as_str())
            } else {
                String::from_str(source)
            }
        },
        None => String::from_str(source),
    };
    replace_backslashes(strange.as_str())
}

/// The Microsoft compiler as a toolchain.
pub struct VsToolchain {
    pub path: String,
    pub identifier: Option<Option<String>>,
}

impl VsToolchain {
    pub fn new(path: String) -> (r: Self)
        ensures
            r.path == path,
            r.identifier is None,
    {
        VsToolchain { path, identifier: None }
    }

    /// The command line that preprocesses the source of `task`.
    pub fn preprocess_step(task: &CompilationTask) -> (r: Vec<String>)
        ensures
            text_views(r@) == vs_preprocess_args(task@),
    {
        let mut args: Vec<String> = Vec::new();
        assert(text_views(args@) =~= Seq::<Seq<char>>::empty());
        push_step_args(&task.args, true, false, &mut args);
        let ghost before = text_views(args@);
        args.push(String::from_str("/nologo"));
        args.push(join2("/T", task.language.as_str()));
        args.push(String::from_str("/E"));
        args.push(String::from_str("/we4002"));
        args.push(join_flag("/Fo", task.output_object.as_str()));
        args.push(source_separator_path(task.input_source.as_str()));
        assert(text_views(args@) =~= before + seq![
            "/nologo"@,
            "/T"@ + task@.language,
            "/E"@,
            "/we4002"@,
            "/Fo"@ + task@.output_object,
            separator_path(task@.input_source),
        ]);
        args
    }

    /// What the compile step of `task` is given: its command line, the
    /// preprocessed source, and where the results go. `is_dir` says whether
    /// the object file of the task names a directory.
    pub fn compile_prepare_step(task: &CompilationTask, preprocessed: Vec<u8>, is_dir: bool) -> (r:
        Result<CompileStep, String>)
        ensures
            match r {
                Ok(step) => {
                    &&& text_views(step.args@) == vs_compile_args(task@)
                    &&& step.preprocessed == preprocessed
                    &&& step.output_object matches Some(path) && output_object_for(
                        task@.input_source,
                        task@.output_object,
                        is_dir,
                    ) == Ok::<Seq<char>, Seq<char>>(path@)
                    &&& opt_view(step.input_precompiled) == task@.input_precompiled
                    &&& opt_view(step.output_precompiled) == task@.output_precompiled
                },
                Err(message) => output_object_for(task@.input_source, task@.output_object, is_dir)
                    == Err::<Seq<char>, Seq<char>>(message@),
            },
    {
        let produces = task.output_precompiled.is_some();
        let mut args: Vec<String> = Vec::new();
        assert(text_views(args@) =~= Seq::<Seq<char>>::empty());
        push_step_args(&task.args, false, produces, &mut args);
        let ghost before = text_views(args@);
        args.push(String::from_str("/nologo"));
        args.push(join2("/T", task.language.as_str()));
        if produces {
            args.push(String::from_str("/Yc"));
        }
        assert(text_views(args@) =~= vs_compile_args(task@));
        match get_output_object(task.input_source.as_str(), task.output_object.as_str(), is_dir) {
            Ok(output_object) => Ok(
                CompileStep {
                    output_object: Some(output_object),
                    output_precompiled: task.output_precompiled.clone(),
                    input_precompiled: task.input_precompiled.clone(),
                    args,
                    preprocessed,
                },
            ),
            Err(message) => Err(message),
        }
    }

    /// The command line of the backend for a compile step whose preprocessed
    /// source was written to the file `input`. The backend writes to files
    /// only: a step that names no object file has no command line.
    pub fn compile_step(step: &CompileStep, input: &str) -> (r: Option<Vec<String>>)
        ensures
            match r {
                Some(args) => step.output_object is Some && text_views(args@) == vs_backend_args(
                    text_views(step.args@),
                    input@,
                    step.output_object->0@,
                    opt_view(step.output_precompiled),
                    opt_view(step.input_precompiled),
                ),
                None => step.output_object is None,
            },
    {
        if step.output_object.is_none() {
            return None;
        }
        let mut args: Vec<String> = Vec::new();
        args.push(String::from_str("/c"));
        let mut i: usize = 0;
        assert(text_views(args@) =~= seq!["/c"@] + text_views(step.args@).take(0));
        while i < step.args.len()
            invariant
                i <= step.args.len(),
                text_views(args@) == seq!["/c"@] + text_views(step.args@).take(i as int),
            decreases step.args.len() - i,
        {
            let ghost before = text_views(args@);
            args.push(step.args[i].clone());
            assert(text_views(args@) =~= before.push(step.args@[i as int]@));
            assert(text_views(step.args@).take(i + 1) =~= text_views(step.args@).take(i as int).push(
                step.args@[i as int]@,
            ));
            assert(text_views(args@) =~= seq!["/c"@] + text_views(step.args@).take(i + 1));
            i += 1;
        }
        assert(text_views(step.args@).take(step.args.len() as int) =~= text_views(step.args@));
        let ghost head = text_views(args@);
        args.push(String::from_str(input));
        match &step.output_object {
            Some(path) => {
                args.push(join_flag("/Fo", path.as_str()));
            },
            None => {},
        }
        let ghost middle = text_views(args@);
        assert(middle =~= head + seq![input@, "/Fo"@ + step.output_object->0@]);
        match &step.output_precompiled {
            Some(path) => {
                args.push(join_flag("/Fp", path.as_str()));
                assert(text_views(args@) =~= middle + seq!["/Fp"@ + path@]);
            },
            None => {
                assert(text_views(args@) =~= middle + Seq::<Seq<char>>::empty());
            },
        }
        let ghost late = text_views(args@);
        match &step.input_precompiled {
            Some(path) => {
                args.push(String::from_str("/Yu"));
                args.push(join_flag("/Fp", path.as_str()));
                assert(text_views(args@) =~= late + seq!["/Yu"@, "/Fp"@ + path@]);
            },
            None => {
                assert(text_views(args@) =~= late + Seq::<Seq<char>>::empty());
            },
        }
        Some(args)
    }
}

/// The separator paths of the sources of a list of tasks, in order.
pub open spec fn separator_paths(tasks: Seq<TaskView>) -> Seq<Seq<char>> {
    Seq::new(tasks.len(), |i: int| separator_path(tasks[i].input_source))
}

/// All the tasks are in the language of the first.
pub open spec fn one_language(tasks: Seq<TaskView>) -> bool {
    forall|i: int| 0 <= i < tasks.len() ==> (#[trigger] tasks[i]).language == tasks[0].language
}

/// The command line of the one run of the preprocessor for the tasks of a
/// build: that for the first task, with the sources of all the tasks named.
pub open spec fn vs_preprocess_all_args(tasks: Seq<TaskView>) -> Seq<Seq<char>> {
    vs_step_args(tasks[0].args, true, false) + seq![
        "/nologo"@,
        "/T"@ + tasks[0].language,
        "/E"@,
        "/we4002"@,
        "/Fo"@ + tasks[0].output_object,
    ] + separator_paths(tasks)
}

impl VsToolchain {
    /// The command line that preprocesses the sources of all the tasks of a
    /// build in one run; `None` where there is no task, so that nothing is
    /// run, and where the tasks are not all in one language.
    pub fn preprocess_sources(tasks: &Vec<CompilationTask>) -> (r: Option<Vec<String>>)
        ensures
            match r {
                Some(args) => tasks@.len() > 0 && one_language(task_views(tasks@))
                    && text_views(args@) == vs_preprocess_all_args(
                    task_views(tasks@),
                ),
                None => tasks@.len() == 0 || !one_language(task_views(tasks@)),
            },
    {
        let ghost views = task_views(tasks@);
        if tasks.len() == 0 {
            return None;
        }
        let first = &tasks[0];
        let mut i: usize = 0;
        while i < tasks.len()
            invariant
                i <= tasks.len(),
                tasks.len() > 0,
                views == task_views(tasks@),
                forall|j: int| 0 <= j < i ==> (#[trigger] views[j]).language == views[0].language,
            decreases tasks.len() - i,
        {
            if !text_eq(tasks[i].language.as_str(), tasks[0].language.as_str()) {
                assert(views[i as int].language != views[0].language);
                return None;
            }
            i += 1;
        }
        let mut args: Vec<String> = Vec::new();
        assert(text_views(args@) =~= Seq::<Seq<char>>::empty());
        push_step_args(&first.args, true, false, &mut args);
        let ghost before = text_views(args@);
        args.push(String::from_str("/nologo"));
        args.push(join2("/T", first.language.as_str()));
        args.push(String::from_str("/E"));
        args.push(String::from_str("/we4002"));
        args.push(join_flag("/Fo", first.output_object.as_str()));
        let ghost head = text_views(args@);
        assert(head =~= before + seq![
            "/nologo"@,
            "/T"@ + views[0].language,
            "/E"@,
            "/we4002"@,
            "/Fo"@ + views[0].output_object,
        ]);
        let mut k: usize = 0;
        assert(text_views(args@) =~= head + separator_paths(views).take(0));
        while k < tasks.len()
            invariant
                k <= tasks.len(),
                views == task_views(tasks@),
                text_views(args@) == head + separator_paths(views).take(k as int),
            decreases tasks.len() - k,
        {
            let ghost so_far = text_views(args@);
            args.push(source_separator_path(tasks[k].input_source.as_str()));
            assert(text_views(args@) =~= so_far.push(separator_path(views[k as int].input_source)));
            assert(separator_paths(views).take(k + 1) =~= separator_paths(views).take(k as int).push(
                separator_path(views[k as int].input_source),
            ));
            assert(text_views(args@) =~= head + separator_paths(views).take(k + 1));
            k += 1;
        }
        assert(separator_paths(views).take(tasks.len() as int) =~= separator_paths(views));
        Some(args)
    }
}

/// The Microsoft compilers that are known, each path once.
pub struct VsCompiler {
    /// The directory for the files that a build needs for a while.
    pub temp_dir: String,
    pub toolchains: Vec<VsToolchain>,
}

/// The paths of a list of toolchains, in order.
pub open spec fn vs_toolchain_paths(toolchains: Seq<VsToolchain>) -> Seq<Seq<char>> {
    Seq::new(toolchains.len(), |i: int| toolchains[i].path@)
}

impl VsCompiler {
    pub fn new(temp_dir: &str) -> (r: Self)
        ensures
            r.temp_dir@ == temp_dir@,
            r.toolchains@.len() == 0,
    {
        VsCompiler { temp_dir: String::from_str(temp_dir), toolchains: Vec::new() }
    }

    /// The paths of the toolchains that are known.
    pub open spec fn paths(&self) -> Seq<Seq<char>> {
        vs_toolchain_paths(self.toolchains@)
    }

    /// The place of the toolchain for the program at `path`, which is taken
    /// in where it was not known; `None` for a program that is no Microsoft
    /// compiler by its name. The toolchains that were known stay where they
    /// are.
    pub fn resolve_toolchain(&mut self, path: &str) -> (r: Option<usize>)
        ensures
            final(self).temp_dir == old(self).temp_dir,
            match r {
                Some(i) => {
                    &&& names_cl(path@)
                    &&& i < final(self).toolchains@.len()
                    &&& final(self).paths()[i as int] == path@
                    &&& if old(self).paths().contains(path@) {
                        final(self).toolchains@ == old(self).toolchains@
                    } else {
                        &&& final(self).toolchains@.len() == old(self).toolchains@.len() + 1
                        &&& final(self).toolchains@.drop_last() == old(self).toolchains@
                        &&& final(self).toolchains@.last().identifier is None
                        &&& i == old(self).toolchains@.len()
                    }
                },
                None => !names_cl(path@) && final(self).toolchains@ == old(self).toolchains@,
            },
    {
        if !is_cl_program(path) {
            return None;
        }
        match self.position(path) {
            Some(i) => Some(i),
            None => {
                let ghost before = self.toolchains@;
                let at = self.toolchains.len();
                self.toolchains.push(VsToolchain::new(String::from_str(path)));
                assert(self.toolchains@.drop_last() =~= before);
                assert(self.paths()[at as int] == path@);
                Some(at)
            },
        }
    }

    /// Where the toolchain at `path` stands among those that are known.
    pub fn position(&self, path: &str) -> (r: Option<usize>)
        ensures
            match r {
                Some(i) => i < self.toolchains@.len() && self.paths()[i as int] == path@,
                None => !self.paths().contains(path@),
            },
    {
        let mut i: usize = 0;
        while i < self.toolchains.len()
            invariant
                i <= self.toolchains.len(),
                forall|j: int| 0 <= j < i ==> self.toolchains@[j].path@ != path@,
            decreases self.toolchains.len() - i,
        {
            if text_eq(self.toolchains[i].path.as_str(), path) {
                return Some(i);
            }
            i += 1;
        }
        assert forall|j: int| 0 <= j < self.paths().len() implies self.paths()[j] != path@ by {
            assert(self.paths()[j] == self.toolchains@[j].path@);
        }
        None
    }
}

/// The number that the first four bytes of `bytes` hold, the lowest byte
/// first.
pub open spec fn le_u32(bytes: Seq<u8>) -> int {
    bytes[0] + bytes[1] * 0x100 + bytes[2] * 0x1_0000 + bytes[3] * 0x100_0000
}

/// Reads a number of 32 bits, the lowest byte first, with
/// `byteorder::LittleEndian::read_u32`, which takes the first four bytes of
/// what it is given and panics on less.
#[verifier::external_body]
fn read_u32_le(bytes: &[u8]) -> (r: u32)
    requires
        bytes@.len() >= 4,
    ensures
        r == le_u32(bytes@),
{
    LittleEndian::read_u32(bytes)
}

/// Why a program file is no executable whose identity can be read.
#[derive(Clone, Copy, Debug, PartialEq, Eq, Structural)]
pub enum ExecutableError {
    /// The header is shorter than its form asks.
    Truncated,
    /// The file does not open with `MZ`.
    NoMzSignature,
    /// The second header does not open with `PE`.
    NoPeSignature,
}

/// The length of the first header of an executable.
pub const MZ_HEADER_SIZE: usize = 0x40;

/// The length that is read of the second header of an executable.
pub const PE_HEADER_SIZE: usize = 0x54;

/// Where the second header of an executable begins, from its first header:
/// the number at its offset 0x3C, in a header of 0x40 bytes or more that opens
/// with `MZ`.
pub open spec fn pe_offset_of(mz: Seq<u8>) -> Result<int, ExecutableError> {
    if mz.len() < MZ_HEADER_SIZE {
        Err(ExecutableError::Truncated)
    } else if mz[0] != 0x4D || mz[1] != 0x5A {
        Err(ExecutableError::NoMzSignature)
    } else {
        Ok(le_u32(mz.subrange(0x3C, 0x40)))
    }
}

/// Reads from the first header of an executable where its second one begins.
pub fn pe_header_offset(mz: &[u8]) -> (r: Result<u32, ExecutableError>)
    ensures
        match r {
            Ok(offset) => pe_offset_of(mz@) == Ok::<int, ExecutableError>(offset as int),
            Err(e) => pe_offset_of(mz@) == Err::<int, ExecutableError>(e),
        },
{
    if mz.len() < MZ_HEADER_SIZE {
        Err(ExecutableError::Truncated)
    } else if mz[0] != 0x4D || mz[1] != 0x5A {
        Err(ExecutableError::NoMzSignature)
    } else {
        Ok(read_u32_le(slice_subrange(mz, 0x3C, 0x40)))
    }
}

/// The digit of value `d` in base 16.
pub open spec fn hex_digit(d: int, upper: bool) -> char {
    if d < 10 {
        ((0x30 + d) as u8) as char
    } else if upper {
        ((0x41 + d - 10) as u8) as char
    } else {
        ((0x61 + d - 10) as u8) as char
    }
}

/// The number `n` in base 16, without zeros in front.
pub open spec fn hex_text(n: int, upper: bool) -> Seq<char>
    decreases n,
{
    if n < 16 {
        seq![hex_digit(n, upper)]
    } else {
        hex_text(n / 16, upper).push(hex_digit(n % 16, upper))
    }
}

/// The identity of an executable, from the 0x54 bytes or more of its second
/// header, which opens with `PE` and two zeros: the time it was linked at, in
/// capital digits of base 16, followed by the size of its image, in small
/// ones.
pub open spec fn executable_id_of(pe: Seq<u8>) -> Result<Seq<char>, ExecutableError> {
    if pe.len() < PE_HEADER_SIZE {
        Err(ExecutableError::Truncated)
    } else if pe[0] != 0x50 || pe[1] != 0x45 || pe[2] != 0 || pe[3] != 0 {
        Err(ExecutableError::NoPeSignature)
    } else {
        Ok(
            hex_text(le_u32(pe.subrange(0x08, 0x0C)), true) + hex_text(
                le_u32(pe.subrange(0x50, 0x54)),
                false,
            ),
        )
    }
}

fn digit_text(d: u32, upper: bool) -> (r: &'static str)
    requires
        d < 16,
    ensures
        r@ == seq![hex_digit(d as int, upper)],
{
    proof {
        reveal_strlit("0");
        reveal_strlit("1");
        reveal_strlit("2");
        reveal_strlit("3");
        reveal_strlit("4");
        reveal_strlit("5");
        reveal_strlit("6");
        reveal_strlit("7");
        reveal_strlit("8");
        reveal_strlit("9");
        reveal_strlit("A");
        reveal_strlit("B");
        reveal_strlit("C");
        reveal_strlit("D");
        reveal_strlit("E");
        reveal_strlit("F");
        reveal_strlit("a");
        reveal_strlit("b");
        reveal_strlit("c");
        reveal_strlit("d");
        reveal_strlit("e");
        reveal_strlit("f");
    }
    let r = if d == 0 {
        "0"
    } else if d == 1 {
        "1"
    } else if d == 2 {
        "2"
    } else if d == 3 {
        "3"
    } else if d == 4 {
        "4"
    } else if d == 5 {
        "5"
    } else if d == 6 {
        "6"
    } else if d == 7 {
        "7"
    } else if d == 8 {
        "8"
    } else if d == 9 {
        "9"
    } else if upper {
        if d == 10 {
            "A"
        } else if d == 11 {
            "B"
        } else if d == 12 {
            "C"
        } else if d == 13 {
            "D"
        } else if d == 14 {
            "E"
        } else {
            "F"
        }
    } else {
        if d == 10 {
            "a"
        } else if d == 11 {
            "b"
        } else if d == 12 {
            "c"
        } else if d == 13 {
            "d"
        } else if d == 14 {
            "e"
        } else {
            "f"
        }
    };
    assert(r@ =~= seq![hex_digit(d as int, upper)]);
    r
}

/// Writes a number in base 16.
pub fn to_hex(n: u32, upper: bool) -> (r: String)
    ensures
        r@ == hex_text(n as int, upper),
    decreases n,
{
    if n < 16 {
        String::from_str(digit_text(n, upper))
    } else {
        let head = to_hex(n / 16, upper);
        let r = join2(head.as_str(), digit_text(n % 16, upper));
        assert(r@ =~= hex_text((n / 16) as int, upper).push(hex_digit((n % 16) as int, upper)));
        r
    }
}

/// Reads the identity of an executable from its second header.
pub fn read_executable_id(pe: &[u8]) -> (r: Result<String, ExecutableError>)
    ensures
        match r {
            Ok(id) => executable_id_of(pe@) == Ok::<Seq<char>, ExecutableError>(id@),
            Err(e) => executable_id_of(pe@) == Err::<Seq<char>, ExecutableError>(e),
        },
{
    if pe.len() < PE_HEADER_SIZE {
        Err(ExecutableError::Truncated)
    } else if pe[0] != 0x50 || pe[1] != 0x45 || pe[2] != 0 || pe[3] != 0 {
        Err(ExecutableError::NoPeSignature)
    } else {
        let stamp = read_u32_le(slice_subrange(pe, 0x08, 0x0C));
        let size = read_u32_le(slice_subrange(pe, 0x50, 0x54));
        let a = to_hex(stamp, true);
        let b = to_hex(size, false);
        Ok(join2(a.as_str(), b.as_str()))
    }
}

/// The identifier of the Microsoft compiler: `cl`, the version of the product
/// and the identity of the executable, a blank between each two.
pub open spec fn vs_identifier_text(product_version: Seq<char>, executable_id: Seq<char>) -> Seq<
    char,
> {
    "cl "@ + product_version + seq![' '] + executable_id
}

/// Makes the identifier of the Microsoft compiler from the version of the
/// product, as the version resource of the executable gives it, and from the
/// second header of the executable; `None` where that header is none.
pub fn vs_identifier(product_version: &str, pe: &[u8]) -> (r: Option<String>)
    ensures
        opt_view(r) == (match executable_id_of(pe@) {
            Ok(id) => Some(vs_identifier_text(product_version@, id)),
            Err(_) => None,
        }),
{
    match read_executable_id(pe) {
        Ok(id) => {
            proof {
                reveal_strlit(" ");
            }
            let a = join2("cl ", product_version);
            let b = join2(a.as_str(), " ");
            let c = join2(b.as_str(), id.as_str());
            assert(c@ =~= vs_identifier_text(product_version@, id@));
            Some(c)
        },
        Err(_) => None,
    }
}


/// The sink that parts the output of the preprocessor into one stream for
/// each source. A source is known by the paths that its `#line 1` directive
/// may give; each source is opened once.
#[derive(Debug, PartialEq, Eq)]
pub struct VsPreprocessor {
    /// The source that is open, by its number, and its stream so far.
    pub content: Option<(usize, Vec<u8>)>,
    /// For each source, whether it is still to come.
    pub pending: Vec<bool>,
    /// The paths that open a source, each with the number of its source. A
    /// path is taken away once it was met.
    pub sources: Vec<(Vec<u8>, usize)>,
    /// The sources that were closed, in the order of the stream, each with
    /// its stream.
    pub finished: Vec<(usize, Vec<u8>)>,
}

/// The mathematical value of a [`VsPreprocessor`].
pub struct SinkView {
    pub content: Option<(int, Seq<u8>)>,
    pub pending: Seq<bool>,
    pub sources: Seq<(Seq<u8>, int)>,
    pub finished: Seq<(int, Seq<u8>)>,
}

/// The values of a list of streams, in order.
pub open spec fn stream_views(items: Seq<(usize, Vec<u8>)>) -> Seq<(int, Seq<u8>)> {
    Seq::new(items.len(), |i: int| (items[i].0 as int, items[i].1@))
}

/// The values of a list of paths with their sources, in order.
pub open spec fn source_views(items: Seq<(Vec<u8>, usize)>) -> Seq<(Seq<u8>, int)> {
    Seq::new(items.len(), |i: int| (items[i].0@, items[i].1 as int))
}

impl View for VsPreprocessor {
    type V = SinkView;

    open spec fn view(&self) -> SinkView {
        SinkView {
            content: match self.content {
                Some((source, stream)) => Some((source as int, stream@)),
                None => None,
            },
            pending: self.pending@,
            sources: source_views(self.sources@),
            finished: stream_views(self.finished@),
        }
    }
}

/// Where `path` stands first among the paths of `sources`, or -1.
pub open spec fn source_position(sources: Seq<(Seq<u8>, int)>, path: Seq<u8>) -> int
    decreases sources.len(),
{
    if sources.len() == 0 {
        -1
    } else if source_position(sources.drop_last(), path) >= 0 {
        source_position(sources.drop_last(), path)
    } else if sources.last().0 == path {
        sources.len() - 1
    } else {
        -1
    }
}

/// The sink after it was given `data`: the bytes go to the source that is
/// open, and are dropped where none is.
pub open spec fn sink_written(sink: SinkView, data: Seq<u8>) -> SinkView {
    match sink.content {
        Some((source, stream)) => SinkView { content: Some((source, stream + data)), ..sink },
        None => sink,
    }
}

/// The sink after it was given each of `chunks` in order.
pub open spec fn sink_written_all(sink: SinkView, chunks: Seq<Seq<u8>>) -> SinkView
    decreases chunks.len(),
{
    if chunks.len() == 0 {
        sink
    } else {
        sink_written(sink_written_all(sink, chunks.drop_last()), chunks.last())
    }
}

/// The sink after the source that is open was closed.
pub open spec fn sink_closed(sink: SinkView) -> SinkView {
    match sink.content {
        Some(stream) => SinkView { content: None, finished: sink.finished.push(stream), ..sink },
        None => sink,
    }
}

/// The sink's answer to a `#line 1` directive with the path `path`, and the
/// sink after it. A path that is known is taken away. Where its source is
/// still to come, the source that is open is closed and the new one opened:
/// the answer is yes.
pub open spec fn sink_asked(sink: SinkView, path: Seq<u8>) -> (bool, SinkView) {
    let at = source_position(sink.sources, path);
    if at < 0 {
        (false, sink)
    } else {
        let source = sink.sources[at].1;
        let taken = SinkView { sources: sink.sources.remove(at), ..sink };
        if 0 <= source < sink.pending.len() && sink.pending[source] {
            let closed = sink_closed(taken);
            (
                true,
                SinkView {
                    content: Some((source, Seq::empty())),
                    pending: sink.pending.update(source, false),
                    ..closed
                },
            )
        } else {
            (false, taken)
        }
    }
}

/// No source is still to come.
pub open spec fn none_pending(pending: Seq<bool>) -> bool {
    forall|i: int| 0 <= i < pending.len() ==> !pending[i]
}

pub proof fn lemma_source_position(sources: Seq<(Seq<u8>, int)>, path: Seq<u8>)
    ensures
        -1 <= source_position(sources, path) < sources.len(),
        source_position(sources, path) >= 0 ==> sources[source_position(sources, path)].0 == path,
        forall|i: int|
            0 <= i < sources.len() && (source_position(sources, path) < 0 || i < source_position(
                sources,
                path,
            )) ==> (#[trigger] sources[i]).0 != path,
    decreases sources.len(),
{
    if sources.len() > 0 {
        let rest = sources.drop_last();
        lemma_source_position(rest, path);
        assert forall|i: int|
            0 <= i < sources.len() && (source_position(sources, path) < 0 || i < source_position(
                sources,
                path,
            )) implies (#[trigger] sources[i]).0 != path by {
            if i < rest.len() {
                assert(rest[i] == sources[i]);
            }
        }
        if source_position(sources, path) >= 0 && source_position(sources, path) < rest.len() {
            assert(rest[source_position(sources, path)] == sources[source_position(sources, path)]);
        }
    }
}

fn same_bytes(a: &Vec<u8>, b: &[u8]) -> (r: bool)
    ensures
        r == (a@ == b@),
{
    if a.len() != b.len() {
        return false;
    }
    let mut i: usize = 0;
    while i < a.len()
        invariant
            i <= a@.len(),
            a@.len() == b@.len(),
            forall|j: int| 0 <= j < i ==> a@[j] == b@[j],
        decreases a@.len() - i,
    {
        if a[i] != b[i] {
            return false;
        }
        i += 1;
    }
    assert(a@ =~= b@);
    true
}

/// The path at the place `k` of the list belongs to a source: it is the
/// separator path of that source in UTF-8, or it stands right behind that
/// path, under the same source, as the same path in the code page of the
/// machine does.
pub open spec fn path_belongs(entries: Seq<(Seq<u8>, int)>, sources: Seq<String>, k: int) -> bool {
    let i = entries[k].1;
    &&& 0 <= i < sources.len()
    &&& (entries[k].0 == vstd::utf8::encode_utf8(separator_path(sources[i]@)) || (k > 0
        && entries[k - 1] == (vstd::utf8::encode_utf8(separator_path(sources[i]@)), i)))
}

/// Every path of the list belongs to one of the sources.
pub open spec fn paths_belong(entries: Seq<(Seq<u8>, int)>, sources: Seq<String>) -> bool {
    forall|k: int| 0 <= k < entries.len() ==> #[trigger] path_belongs(entries, sources, k)
}

impl VsPreprocessor {
    /// A sink for `count` sources, all still to come, none known by a path.
    pub fn new(count: usize) -> (r: Self)
        ensures
            r@.content is None,
            r@.pending == Seq::new(count as nat, |i: int| true),
            r@.sources.len() == 0,
            r@.finished.len() == 0,
    {
        let mut pending: Vec<bool> = Vec::new();
        let mut i: usize = 0;
        while i < count
            invariant
                i <= count,
                pending@ == Seq::new(i as nat, |j: int| true),
            decreases count - i,
        {
            pending.push(true);
            assert(pending@ =~= Seq::new((i + 1) as nat, |j: int| true));
            i += 1;
        }
        VsPreprocessor { content: None, pending, sources: Vec::new(), finished: Vec::new() }
    }

    /// A sink for the sources `sources`, each known by its separator path, in
    /// UTF-8 and, where this machine can write it so, in its own code page.
    /// No path is known but these, and each under its own source.
    pub fn for_sources(sources: &Vec<String>) -> (r: Self)
        ensures
            r@.content is None,
            r@.pending == Seq::new(sources@.len(), |i: int| true),
            r@.finished.len() == 0,
            paths_belong(r@.sources, sources@),
            forall|i: int|
                0 <= i < sources@.len() ==> r@.sources.contains(
                    (
                        vstd::utf8::encode_utf8(separator_path(#[trigger] sources@[i]@)),
                        i,
                    ),
                ),
    {
        let mut sink = VsPreprocessor::new(sources.len());
        let mut i: usize = 0;
        while i < sources.len()
            invariant
                i <= sources.len(),
                sink@.content is None,
                sink@.pending == Seq::new(sources@.len(), |j: int| true),
                sink@.finished.len() == 0,
                paths_belong(sink@.sources, sources@),
                forall|j: int|
                    0 <= j < i ==> sink@.sources.contains(
                        (
                            vstd::utf8::encode_utf8(separator_path(#[trigger] sources@[j]@)),
                            j,
                        ),
                    ),
            decreases sources.len() - i,
        {
            let path = source_separator_path(sources[i].as_str());
            let key = slice_to_vec(path.as_str().as_bytes());
            let ghost before = sink@.sources;
            sink.add_source(key, i);
            proof {
                let entry = (vstd::utf8::encode_utf8(separator_path(sources@[i as int]@)), i as int);
                assert(sink@.sources.last() == entry);
                assert forall|k: int| 0 <= k < sink@.sources.len() implies path_belongs(
                    sink@.sources,
                    sources@,
                    k,
                ) by {
                    if k < before.len() {
                        assert(path_belongs(before, sources@, k));
                        assert(sink@.sources[k] == before[k]);
                        if k > 0 {
                            assert(sink@.sources[k - 1] == before[k - 1]);
                        }
                    }
                }
                assert forall|j: int| 0 <= j < i implies sink@.sources.contains(
                    (
                        vstd::utf8::encode_utf8(separator_path(#[trigger] sources@[j]@)),
                        j,
                    ),
                ) by {
                    let old_entry = (
                        vstd::utf8::encode_utf8(separator_path(sources@[j]@)),
                        j,
                    );
                    let k = choose|k: int| 0 <= k < before.len() && before[k] == old_entry;
                    assert(sink@.sources[k] == old_entry);
                }
            }
            let ghost middle = sink@.sources;
            match marker_bytes(path.as_str(), false) {
                Ok(local) => {
                    sink.add_source(local, i);
                    proof {
                        assert forall|k: int| 0 <= k < sink@.sources.len() implies path_belongs(
                            sink@.sources,
                            sources@,
                            k,
                        ) by {
                            if k < middle.len() {
                                assert(path_belongs(middle, sources@, k));
                                assert(sink@.sources[k] == middle[k]);
                                if k > 0 {
                                    assert(sink@.sources[k - 1] == middle[k - 1]);
                                }
                            } else {
                                assert(sink@.sources[k - 1] == middle.last());
                            }
                        }
                        assert forall|j: int| 0 <= j <= i implies sink@.sources.contains(
                            (
                                vstd::utf8::encode_utf8(separator_path(#[trigger] sources@[j]@)),
                                j,
                            ),
                        ) by {
                            let old_entry = (
                                vstd::utf8::encode_utf8(separator_path(sources@[j]@)),
                                j,
                            );
                            let k = choose|k: int| 0 <= k < middle.len() && middle[k] == old_entry;
                            assert(sink@.sources[k] == old_entry);
                        }
                    }
                },
                Err(_) => {},
            }
            i += 1;
        }
        sink
    }

    /// Makes `path` known as a path that opens the source `source`.
    pub fn add_source(&mut self, path: Vec<u8>, source: usize)
        ensures
            final(self)@ == (SinkView {
                sources: old(self)@.sources.push((path@, source as int)),
                ..old(self)@
            }),
    {
        let ghost before = source_views(self.sources@);
        self.sources.push((path, source));
        assert(source_views(self.sources@) =~= before.push((path@, source as int)));
    }

    /// Takes the next bytes of the stream.
    pub fn put(&mut self, buf: &[u8])
        ensures
            final(self)@ == sink_written(old(self)@, buf@),
    {
        match self.content.take() {
            Some((source, mut stream)) => {
                let ghost before = stream@;
                stream.extend_from_slice(buf);
                assert(stream@ =~= before + buf@);
                self.content = Some((source, stream));
            },
            None => {},
        }
    }

    /// Takes each of `chunks` in order.
    pub fn put_all(&mut self, chunks: &Vec<Vec<u8>>)
        ensures
            final(self)@ == sink_written_all(old(self)@, chunk_views(chunks@)),
    {
        let ghost views = chunk_views(chunks@);
        let mut i: usize = 0;
        assert(views.take(0) =~= Seq::<Seq<u8>>::empty());
        while i < chunks.len()
            invariant
                i <= chunks.len(),
                views == chunk_views(chunks@),
                self@ == sink_written_all(old(self)@, views.take(i as int)),
            decreases chunks.len() - i,
        {
            proof {
                assert(views.take(i + 1).drop_last() =~= views.take(i as int));
                assert(views.take(i + 1).last() == chunks@[i as int]@);
            }
            self.put(chunks[i].as_slice());
            i += 1;
        }
        assert(views.take(chunks.len() as int) =~= views);
    }

    /// Closes the source that is open.
    pub fn exec(&mut self)
        ensures
            final(self)@ == sink_closed(old(self)@),
    {
        let ghost before = stream_views(self.finished@);
        match self.content.take() {
            Some(stream) => {
                self.finished.push(stream);
                assert(stream_views(self.finished@) =~= before.push((stream.0 as int, stream.1@)));
            },
            None => {
                assert(stream_views(self.finished@) =~= before);
            },
        }
    }

    fn find_source(&self, path: &[u8]) -> (r: Option<usize>)
        ensures
            match r {
                Some(at) => source_position(self@.sources, path@) == at && at
                    < self.sources@.len(),
                None => source_position(self@.sources, path@) == -1,
            },
    {
        let ghost views = source_views(self.sources@);
        let mut i: usize = 0;
        assert(views.take(0) =~= Seq::<(Seq<u8>, int)>::empty());
        while i < self.sources.len()
            invariant
                i <= self.sources.len(),
                views == source_views(self.sources@),
                source_position(views.take(i as int), path@) == -1,
            decreases self.sources.len() - i,
        {
            proof {
                assert(views.take(i + 1).drop_last() =~= views.take(i as int));
                assert(views.take(i + 1).last().0 == self.sources@[i as int].0@);
            }
            if same_bytes(&self.sources[i].0, path) {
                proof {
                    lemma_position_stays(views, path@, i + 1);
                }
                return Some(i);
            }
            i += 1;
        }
        assert(views.take(self.sources.len() as int) =~= views);
        None
    }

    /// Answers a `#line 1` directive with the path `marker`.
    pub fn separator(&mut self, marker: &[u8]) -> (r: bool)
        ensures
            (r, final(self)@) == sink_asked(old(self)@, marker@),
    {
        let at = match self.find_source(marker) {
            Some(at) => at,
            None => {
                return false;
            },
        };
        let ghost before = source_views(self.sources@);
        let (_, source) = self.sources.remove(at);
        assert(source_views(self.sources@) =~= before.remove(at as int));
        if source < self.pending.len() && self.pending[source] {
            self.exec();
            self.pending.set(source, false);
            self.content = Some((source, Vec::new()));
            true
        } else {
            false
        }
    }
}

/// The first place of `path` in a beginning of `sources` is its first place
/// in all of them.
pub proof fn lemma_position_stays(sources: Seq<(Seq<u8>, int)>, path: Seq<u8>, upto: int)
    requires
        0 <= upto <= sources.len(),
        source_position(sources.take(upto), path) >= 0,
    ensures
        source_position(sources, path) == source_position(sources.take(upto), path),
    decreases sources.len() - upto,
{
    if upto < sources.len() {
        assert(sources.take(upto + 1).drop_last() =~= sources.take(upto));
        lemma_position_stays(sources, path, upto + 1);
    } else {
        assert(sources.take(upto) =~= sources);
    }
}

impl PostprocessWrite for VsPreprocessor {
    fn write(&mut self, buf: &[u8]) -> (r: Result<usize, std::io::Error>)
        ensures
            r matches Ok(n) && n == buf@.len(),
            final(self)@ == sink_written(old(self)@, buf@),
    {
        self.put(buf);
        Ok(buf.len())
    }

    fn is_source_separator(&mut self, marker: &[u8]) -> (r: Result<bool, std::io::Error>)
        ensures
            r matches Ok(answer) && (answer, final(self)@) == sink_asked(old(self)@, marker@),
    {
        Ok(self.separator(marker))
    }
}

/// Why the output of the preprocessor could not be parted.
#[derive(Clone, Copy, Debug, PartialEq, Eq, Structural)]
pub enum SplitError {
    /// The stream is not what a preprocessor writes.
    Syntax(PostprocessError),
    /// The stream ended and a source had not been opened.
    MissingSource,
}

/// The sink at the end of a stream that is read from the state `st` on, the
/// sink being asked at each directive that enters a file; or the error that
/// ends the reading.
pub open spec fn demux_from(s: Seq<u8>, st: ScanView, sink: SinkView) -> Result<
    SinkView,
    PostprocessError,
>
    decreases s.len() - st.read,
{
    match line_step(s, st) {
        Err(e) => Err(e),
        Ok((st1, w1, kind)) => {
            let sink1 = sink_written_all(sink, w1);
            match kind {
                LineKindView::Eof => match scan_result(st1) {
                    Ok(_) => Ok(sink1),
                    Err(e) => Err(e),
                },
                LineKindView::Plain => if st.read < st1.read <= s.len() {
                    demux_from(s, st1, sink1)
                } else {
                    Ok(sink1)
                },
                LineKindView::Line(d) => {
                    let (answer, sink2) = if enters_file(d) {
                        sink_asked(sink1, d.file)
                    } else {
                        (false, sink1)
                    };
                    let (st2, w2) = line_applied(s, st1, d, answer);
                    if st.read < st2.read <= s.len() {
                        demux_from(s, st2, sink_written_all(sink2, w2))
                    } else {
                        Ok(sink2)
                    }
                },
            }
        },
    }
}

/// The streams of the sources of a preprocessed stream, in the order of the
/// stream, each with the number of its source: what the sink `sink` holds
/// once the whole stream went through the filter and the last source was
/// closed. Every source has to have been opened.
pub open spec fn split_of(
    s: Seq<u8>,
    sink: SinkView,
    precompiled: bool,
    marker: Option<Seq<u8>>,
    keep_headers: bool,
) -> Result<Seq<(int, Seq<u8>)>, SplitError> {
    match demux_from(s, scan_start(s, precompiled, marker, keep_headers), sink) {
        Err(e) => Err(SplitError::Syntax(e)),
        Ok(last) => if none_pending(last.pending) {
            Ok(sink_closed(last).finished)
        } else {
            Err(SplitError::MissingSource)
        },
    }
}

/// Parts the output that the preprocessor wrote for several sources at once
/// into the streams of the sources. `precompiled` says whether each source
/// opens with a precompiled part; `marker` is the path of the header that
/// ends it, in the bytes in which the stream writes paths.
pub fn split_preprocessed(
    input: &[u8],
    sink: VsPreprocessor,
    precompiled: bool,
    marker: Option<Vec<u8>>,
    keep_headers: bool,
) -> (r: Result<Vec<(usize, Vec<u8>)>, SplitError>)
    ensures
        match r {
            Ok(streams) => split_of(
                input@,
                sink@,
                precompiled,
                opt_bytes(marker),
                keep_headers,
            ) == Ok::<Seq<(int, Seq<u8>)>, SplitError>(stream_views(streams@)),
            Err(e) => split_of(
                input@,
                sink@,
                precompiled,
                opt_bytes(marker),
                keep_headers,
            ) == Err::<Seq<(int, Seq<u8>)>, SplitError>(e),
        },
{
    let ghost sink0 = sink@;
    let ghost marker0 = opt_bytes(marker);
    let mut current = sink;
    let mut state = ScannerState::new(precompiled, keep_headers);
    state.parse_bom(input);
    state.marker = marker;
    let ghost goal = demux_from(input@, scan_start(input@, precompiled, marker0, keep_headers), sink0);
    assert(state@ == scan_start(input@, precompiled, marker0, keep_headers));
    let mut finished = false;
    while !finished
        invariant
            state@.fits(input@.len() as int),
            sink0 == sink@,
            marker0 == opt_bytes(marker),
            goal == demux_from(input@, scan_start(input@, precompiled, marker0, keep_headers), sink0),
            !finished ==> goal == demux_from(input@, state@, current@),
            finished ==> goal == Ok::<SinkView, PostprocessError>(current@),
        decreases input@.len() - state.read + (if finished { 0int } else { 1int }),
    {
        let mut out: Vec<Vec<u8>> = Vec::new();
        assert(chunk_views(out@) =~= Seq::<Seq<u8>>::empty());
        let ghost st0 = state@;
        match state.parse_line(input, &mut out) {
            Err(e) => {
                return Err(SplitError::Syntax(e));
            },
            Ok(kind) => {
                assert(chunk_views(out@) =~= line_step(input@, st0)->Ok_0.1) by {
                    assert(Seq::<Seq<u8>>::empty() + line_step(input@, st0)->Ok_0.1 =~= line_step(
                        input@,
                        st0,
                    )->Ok_0.1);
                }
                current.put_all(&out);
                match kind {
                    LineKind::Eof => {
                        match state.finish() {
                            Ok(_) => {},
                            Err(e) => {
                                return Err(SplitError::Syntax(e));
                            },
                        }
                        finished = true;
                    },
                    LineKind::Plain => {},
                    LineKind::Line(d) => {
                        let first = d.line.len() == 1 && d.line[0] == 49u8;
                        assert(first == enters_file(d@)) by {
                            if first {
                                assert(d@.line =~= seq![49u8]);
                            }
                        }
                        let separator = if first {
                            current.separator(d.file.as_slice())
                        } else {
                            false
                        };
                        let mut rest: Vec<Vec<u8>> = Vec::new();
                        assert(chunk_views(rest@) =~= Seq::<Seq<u8>>::empty());
                        let ghost st1 = state@;
                        state.parse_directive_line(input, &d, separator, &mut rest);
                        assert(chunk_views(rest@) =~= line_applied(input@, st1, d@, separator).1) by {
                            assert(Seq::<Seq<u8>>::empty() + line_applied(
                                input@,
                                st1,
                                d@,
                                separator,
                            ).1 =~= line_applied(input@, st1, d@, separator).1);
                        }
                        current.put_all(&rest);
                    },
                }
            },
        }
    }
    let mut i: usize = 0;
    while i < current.pending.len()
        invariant
            i <= current.pending.len(),
            sink0 == sink@,
            marker0 == opt_bytes(marker),
            goal == demux_from(input@, scan_start(input@, precompiled, marker0, keep_headers), sink0),
            goal == Ok::<SinkView, PostprocessError>(current@),
            forall|j: int| 0 <= j < i ==> !current.pending@[j],
        decreases current.pending.len() - i,
    {
        if current.pending[i] {
            return Err(SplitError::MissingSource);
        }
        i += 1;
    }
    current.exec();
    Ok(current.finished)
}

} // verus!
