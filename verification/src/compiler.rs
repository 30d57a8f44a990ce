//! What the parts of a build have in common: classified arguments, tasks,
//! compile steps and the output of a backend.

use vstd::prelude::*;

verus! {

/// Which phase of a compilation an argument influences.
#[derive(Clone, Copy, Debug, PartialEq, Eq, Structural)]
pub enum Scope {
    /// Handed to the preprocess step only.
    Preprocessor,
    /// Handed to the compile step only.
    Compiler,
    /// Handed to both steps.
    Shared,
    /// Handed to neither step.
    Ignore,
}

/// The role of an input file named on the command line.
#[derive(Clone, Copy, Debug, PartialEq, Eq, Structural)]
pub enum InputKind {
    Source,
    Marker,
    Precompiled,
}

/// The role of an output file named on the command line.
#[derive(Clone, Copy, Debug, PartialEq, Eq, Structural)]
pub enum OutputKind {
    Object,
    Marker,
}

/// One classified command-line argument.
#[derive(Clone, Debug, PartialEq, Eq)]
#[allow(inconsistent_fields)]
pub enum Arg {
    Flag { scope: Scope, flag: String },
    Param { scope: Scope, flag: String, value: String },
    Input { kind: InputKind, flag: String, file: String },
    Output { kind: OutputKind, flag: String, file: String },
}

/// The mathematical value of an [`Arg`]: the same shape over plain texts.
#[allow(inconsistent_fields)]
pub enum ArgView {
    Flag { scope: Scope, flag: Seq<char> },
    Param { scope: Scope, flag: Seq<char>, value: Seq<char> },
    Input { kind: InputKind, flag: Seq<char>, file: Seq<char> },
    Output { kind: OutputKind, flag: Seq<char>, file: Seq<char> },
}

impl View for Arg {
    type V = ArgView;

    open spec fn view(&self) -> ArgView {
        match *self {
            Arg::Flag { scope, flag } => ArgView::Flag { scope, flag: flag@ },
            Arg::Param { scope, flag, value } => ArgView::Param { scope, flag: flag@, value: value@ },
            Arg::Input { kind, flag, file } => ArgView::Input { kind, flag: flag@, file: file@ },
            Arg::Output { kind, flag, file } => ArgView::Output { kind, flag: flag@, file: file@ },
        }
    }
}

/// The values of a list of arguments, in order.
pub open spec fn arg_views(args: Seq<Arg>) -> Seq<ArgView> {
    Seq::new(args.len(), |i: int| args[i]@)
}

/// The values of a list of texts, in order.
pub open spec fn text_views(items: Seq<String>) -> Seq<Seq<char>> {
    Seq::new(items.len(), |i: int| items[i]@)
}

/// The value of an optional text.
pub open spec fn opt_view(item: Option<String>) -> Option<Seq<char>> {
    match item {
        Some(s) => Some(s@),
        None => None,
    }
}

impl Scope {
    /// True for the scopes whose arguments reach the preprocess step.
    pub open spec fn for_preprocessor(self) -> bool {
        self == Scope::Preprocessor || self == Scope::Shared
    }

    /// True for the scopes whose arguments reach the compile step.
    pub open spec fn for_compiler(self) -> bool {
        self == Scope::Compiler || self == Scope::Shared
    }

    pub fn is_for_preprocessor(self) -> (r: bool)
        ensures
            r == self.for_preprocessor(),
    {
        match self {
            Scope::Preprocessor | Scope::Shared => true,
            Scope::Compiler | Scope::Ignore => false,
        }
    }

    pub fn is_for_compiler(self) -> (r: bool)
        ensures
            r == self.for_compiler(),
    {
        match self {
            Scope::Compiler | Scope::Shared => true,
            Scope::Preprocessor | Scope::Ignore => false,
        }
    }
}

/// The program that was asked for and the directory it was asked from.
#[derive(Clone, Debug, PartialEq, Eq)]
pub struct CommandInfo {
    pub program: String,
    pub current_dir: Option<String>,
}

/// One source file to compile, with everything its two steps need.
#[derive(Clone, Debug, PartialEq, Eq)]
pub struct CompilationTask {
    pub command: CommandInfo,
    pub args: Vec<Arg>,
    pub language: String,
    pub input_source: String,
    pub input_precompiled: Option<String>,
    pub output_object: String,
    pub output_precompiled: Option<String>,
    pub marker_precompiled: Option<String>,
}

/// The mathematical value of a [`CompilationTask`], the command left aside.
pub struct TaskView {
    pub args: Seq<ArgView>,
    pub language: Seq<char>,
    pub input_source: Seq<char>,
    pub input_precompiled: Option<Seq<char>>,
    pub output_object: Seq<char>,
    pub output_precompiled: Option<Seq<char>>,
    pub marker_precompiled: Option<Seq<char>>,
}

impl View for CompilationTask {
    type V = TaskView;

    open spec fn view(&self) -> TaskView {
        TaskView {
            args: arg_views(self.args@),
            language: self.language@,
            input_source: self.input_source@,
            input_precompiled: opt_view(self.input_precompiled),
            output_object: self.output_object@,
            output_precompiled: opt_view(self.output_precompiled),
            marker_precompiled: opt_view(self.marker_precompiled),
        }
    }
}

/// What a finished backend process left behind.
#[derive(Clone, Debug, PartialEq, Eq)]
pub struct OutputInfo {
    pub status: Option<i32>,
    pub stdout: Vec<u8>,
    pub stderr: Vec<u8>,
}

impl OutputInfo {
    /// The process ended with exit code zero.
    pub open spec fn succeeded(&self) -> bool {
        self.status == Some(0i32)
    }

    pub fn success(&self) -> (r: bool)
        ensures
            r == self.succeeded(),
    {
        match self.status {
            Some(code) => code == 0,
            None => false,
        }
    }
}


/// What the compile step of one task is given: the command line for the
/// backend, the preprocessed source, and where the results go.
#[derive(Clone, Debug, PartialEq, Eq)]
pub struct CompileStep {
    pub output_object: Option<String>,
    pub output_precompiled: Option<String>,
    pub input_precompiled: Option<String>,
    pub args: Vec<String>,
    pub preprocessed: Vec<u8>,
}

} // verus!
