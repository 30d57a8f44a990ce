//! Clang: which programs are Clang, what identifies one, and the command
//! lines of its steps.

use vstd::prelude::*;
use vstd::string::StringExecFns;
use crate::compiler::{Arg, ArgView, CompilationTask, CompileStep, arg_views, opt_view, text_views};
use crate::paths::{file_name_start, joined_path, last_component, path_join};
use crate::pattern::{captures, found_view, group_views, regex_groups};
use crate::text::{join2, skip_chars, text_eq};

verus! {

/// The names that Clang goes by: `clang` or `clang++`, a version behind a
/// dash, an `exe` at the end, letters in either case.
pub const CLANG_NAME: &'static str = r"(?i)^(clang(:?\+\+)?)(-\d+\.\d+)?(?:.exe)?$";

/// Where `clang --version` says what was built, and for which target.
pub const CLANG_VERSION: &'static str = r"^.*clang.*?\((\S+)\).*\nTarget:\s*(\S+)";

/// The text of group `index` of what a search found; empty for a group that
/// is missing or took no part.
pub open spec fn group_text(groups: Seq<Option<Seq<char>>>, index: int) -> Seq<char> {
    if 0 <= index < groups.len() {
        match groups[index] {
            Some(text) => text,
            None => Seq::empty(),
        }
    } else {
        Seq::empty()
    }
}

/// The identifier of a Clang toolchain: the base name, what was built and the
/// target, with a blank between each two. `found` is what the search for
/// `CLANG_VERSION` in the output of `--version` gave.
pub open spec fn version_text(base_name: Seq<char>, found: Option<Seq<Option<Seq<char>>>>) -> Option<
    Seq<char>,
> {
    match found {
        Some(groups) => Some(
            base_name + seq![' '] + group_text(groups, 1) + seq![' '] + group_text(groups, 2),
        ),
        None => None,
    }
}

fn group(groups: &Vec<Option<String>>, index: usize) -> (r: String)
    ensures
        r@ == group_text(group_views(groups@), index as int),
{
    if index < groups.len() {
        match &groups[index] {
            Some(text) => text.clone(),
            None => String::new(),
        }
    } else {
        String::new()
    }
}

/// Makes the identifier of a Clang toolchain from what the search in the
/// output of `--version` gave.
pub fn version_from_groups(base_name: &str, found: &Option<Vec<Option<String>>>) -> (r: Option<
    String,
>)
    ensures
        opt_view(r) == version_text(base_name@, found_view(*found)),
{
    match found {
        Some(groups) => {
            proof {
                reveal_strlit(" ");
            }
            let built = group(groups, 1);
            let target = group(groups, 2);
            let a = join2(base_name, " ");
            let b = join2(a.as_str(), built.as_str());
            let c = join2(b.as_str(), " ");
            let d = join2(c.as_str(), target.as_str());
            assert(d@ =~= base_name@ + seq![' '] + built@ + seq![' '] + target@);
            Some(d)
        },
        None => None,
    }
}

/// The identifier of the Clang toolchain `base_name` whose `--version` wrote
/// `stdout`; `None` where the output does not say what was built.
pub fn clang_parse_version(base_name: &str, stdout: &str) -> (r: Option<String>)
    ensures
        opt_view(r) == version_text(base_name@, regex_groups(CLANG_VERSION@, stdout@)),
{
    let found = captures(CLANG_VERSION, stdout);
    version_from_groups(base_name, &found)
}

/// The base name of a Clang program, from what the search for `CLANG_NAME` in
/// its file name gave: the first group of a match.
pub open spec fn base_name_text(found: Option<Seq<Option<Seq<char>>>>) -> Option<Seq<char>> {
    match found {
        Some(groups) => if 1 < groups.len() {
            groups[1]
        } else {
            None
        },
        None => None,
    }
}

/// Takes the base name of a Clang program out of what the search in its file
/// name gave.
pub fn base_name_from_groups(found: &Option<Vec<Option<String>>>) -> (r: Option<String>)
    ensures
        opt_view(r) == base_name_text(found_view(*found)),
{
    match found {
        Some(groups) => {
            if 1 < groups.len() {
                match &groups[1] {
                    Some(text) => Some(text.clone()),
                    None => None,
                }
            } else {
                None
            }
        },
        None => None,
    }
}

/// The base name of the Clang program at `path`: `clang` or `clang++` as its
/// file name writes it; `None` for a program that is no Clang.
pub fn clang_base_name(path: &str) -> (r: Option<String>)
    ensures
        opt_view(r) == base_name_text(regex_groups(CLANG_NAME@, last_component(path@))),
{
    let start = file_name_start(path);
    let name = skip_chars(path, start);
    let found = captures(CLANG_NAME, name.as_str());
    base_name_from_groups(&found)
}

/// The identifier of the Clang toolchain at `path`, given what its
/// `--version` wrote where it ran and ended well.
pub fn clang_identifier(path: &str, version_output: &Option<String>) -> (r: Option<String>)
    ensures
        opt_view(r) == (match base_name_text(regex_groups(CLANG_NAME@, last_component(path@))) {
            Some(base_name) => match *version_output {
                Some(stdout) => version_text(base_name, regex_groups(CLANG_VERSION@, stdout@)),
                None => None,
            },
            None => None,
        }),
{
    match clang_base_name(path) {
        Some(base_name) => match version_output {
            Some(stdout) => clang_parse_version(base_name.as_str(), stdout.as_str()),
            None => None,
        },
        None => None,
    }
}

/// One Clang program, with its identifier once it is known.
#[derive(Debug, PartialEq, Eq)]
pub struct ClangToolchain {
    pub path: String,
    pub identifier: Option<Option<String>>,
}

impl ClangToolchain {
    pub fn new(path: String) -> (r: Self)
        ensures
            r.path == path,
            r.identifier is None,
    {
        ClangToolchain { path, identifier: None }
    }
}

/// The Clang programs that are known, each path once.
#[derive(Debug, PartialEq, Eq)]
pub struct ClangCompiler {
    pub toolchains: Vec<ClangToolchain>,
}

/// The paths of a list of toolchains, in order.
pub open spec fn toolchain_paths(toolchains: Seq<ClangToolchain>) -> Seq<Seq<char>> {
    Seq::new(toolchains.len(), |i: int| toolchains[i].path@)
}

impl ClangCompiler {
    pub fn new() -> (r: Self)
        ensures
            r.toolchains@.len() == 0,
    {
        ClangCompiler { toolchains: Vec::new() }
    }

    /// The paths of the toolchains that are known.
    pub open spec fn paths(&self) -> Seq<Seq<char>> {
        toolchain_paths(self.toolchains@)
    }

    /// Where the toolchain at `path` stands among those that are known.
    pub fn position(&self, path: &str) -> (r: Option<usize>)
        ensures
            match r {
                Some(i) => i < self.toolchains@.len() && self.paths()[i as int] == path@,
                None => !self.paths().contains(path@),
            },
    {
        let mut i: usize = 0;
        while i < self.toolchains.len()
            invariant
                i <= self.toolchains.len(),
                forall|j: int| 0 <= j < i ==> self.toolchains@[j].path@ != path@,
            decreases self.toolchains.len() - i,
        {
            if text_eq(self.toolchains[i].path.as_str(), path) {
                return Some(i);
            }
            i += 1;
        }
        assert forall|j: int| 0 <= j < self.paths().len() implies self.paths()[j] != path@ by {
            assert(self.paths()[j] == self.toolchains@[j].path@);
        }
        None
    }

    /// The place of the toolchain for the program at `path`, which is taken
    /// in where it was not known; `None` for a program that is no Clang. The
    /// toolchains that were known stay where they are.
    pub fn resolve_toolchain(&mut self, path: &str) -> (r: Option<usize>)
        ensures
            match r {
                Some(i) => {
                    &&& base_name_text(regex_groups(CLANG_NAME@, last_component(path@))) is Some
                    &&& i < final(self).toolchains@.len()
                    &&& final(self).paths()[i as int] == path@
                    &&& if old(self).paths().contains(path@) {
                        final(self).toolchains@ == old(self).toolchains@
                    } else {
                        &&& final(self).toolchains@.len() == old(self).toolchains@.len() + 1
                        &&& final(self).toolchains@.drop_last() == old(self).toolchains@
                        &&& final(self).toolchains@.last().identifier is None
                        &&& i == old(self).toolchains@.len()
                    }
                },
                None => base_name_text(regex_groups(CLANG_NAME@, last_component(path@))) is None
                    && final(self).toolchains@ == old(self).toolchains@,
            },
    {
        if clang_base_name(path).is_none() {
            return None;
        }
        match self.position(path) {
            Some(i) => Some(i),
            None => {
                let ghost before = self.toolchains@;
                let at = self.toolchains.len();
                self.toolchains.push(ClangToolchain::new(String::from_str(path)));
                assert(self.toolchains@.drop_last() =~= before);
                assert(self.paths()[at as int] == path@);
                Some(at)
            },
        }
    }
}

/// The arguments that a list of classified arguments brings to one step of a
/// Clang build: each flag and each parameter whose scope is taken, a dash
/// before its name, the value of a parameter as an argument of its own.
pub open spec fn clang_step_args(args: Seq<ArgView>, preprocess: bool) -> Seq<Seq<char>>
    decreases args.len(),
{
    if args.len() == 0 {
        Seq::empty()
    } else {
        let rest = clang_step_args(args.drop_last(), preprocess);
        match args.last() {
            ArgView::Flag { scope, flag } => if (preprocess && scope.for_preprocessor()) || (
            !preprocess && scope.for_compiler()) {
                rest.push(seq!['-'] + flag)
            } else {
                rest
            },
            ArgView::Param { scope, flag, value } => if (preprocess && scope.for_preprocessor())
                || (!preprocess && scope.for_compiler()) {
                rest.push(seq!['-'] + flag).push(value)
            } else {
                rest
            },
            _ => rest,
        }
    }
}

/// The command line of the preprocess step of a Clang task.
pub open spec fn clang_preprocess_args(
    args: Seq<ArgView>,
    language: Seq<char>,
    input_source: Seq<char>,
) -> Seq<Seq<char>> {
    seq!["-E"@, "-x"@, language, "-frewrite-includes"@] + clang_step_args(args, true) + seq![
        input_source,
        "-o"@,
        "-"@,
    ]
}

/// The command line of the compile step of a Clang task, up to the input and
/// the output.
pub open spec fn clang_compile_args(args: Seq<ArgView>, language: Seq<char>) -> Seq<Seq<char>> {
    seq!["-c"@, "-x"@, language] + clang_step_args(args, false)
}

fn push_step_args(args: &Vec<Arg>, preprocess: bool, out: &mut Vec<String>)
    ensures
        text_views(final(out)@) == text_views(old(out)@) + clang_step_args(
            arg_views(args@),
            preprocess,
        ),
{
    let ghost views = arg_views(args@);
    let ghost start = text_views(out@);
    let mut i: usize = 0;
    proof {
        reveal_strlit("-");
        assert(views.take(0) =~= Seq::<ArgView>::empty());
        assert(text_views(out@) =~= start + clang_step_args(views.take(0), preprocess));
    }
    while i < args.len()
        invariant
            i <= args.len(),
            views == arg_views(args@),
            text_views(out@) == start + clang_step_args(views.take(i as int), preprocess),
            "-"@ == seq!['-'],
        decreases args.len() - i,
    {
        let ghost before = text_views(out@);
        proof {
            assert(views.take(i + 1).drop_last() =~= views.take(i as int));
            assert(views.take(i + 1).last() == args@[i as int]@);
        }
        match &args[i] {
            Arg::Flag { scope, flag } => {
                let taken = if preprocess {
                    scope.is_for_preprocessor()
                } else {
                    scope.is_for_compiler()
                };
                if taken {
                    out.push(join2("-", flag.as_str()));
                    assert(text_views(out@) =~= before.push(seq!['-'] + flag@));
                }
            },
            Arg::Param { scope, flag, value } => {
                let taken = if preprocess {
                    scope.is_for_preprocessor()
                } else {
                    scope.is_for_compiler()
                };
                if taken {
                    out.push(join2("-", flag.as_str()));
                    out.push(value.clone());
                    assert(text_views(out@) =~= before.push(seq!['-'] + flag@).push(value@));
                }
            },
            _ => {},
        }
        i += 1;
    }
    assert(views.take(args.len() as int) =~= views);
}

impl ClangCompiler {
    /// The command line that preprocesses the source of `task`, the result
    /// going to the standard output.
    pub fn preprocess_step(task: &CompilationTask) -> (r: Vec<String>)
        ensures
            text_views(r@) == clang_preprocess_args(task@.args, task@.language, task@.input_source),
    {
        let mut args: Vec<String> = Vec::new();
        args.push(String::from_str("-E"));
        args.push(String::from_str("-x"));
        args.push(task.language.clone());
        args.push(String::from_str("-frewrite-includes"));
        assert(text_views(args@) =~= seq!["-E"@, "-x"@, task@.language, "-frewrite-includes"@]);
        push_step_args(&task.args, true, &mut args);
        let ghost before = text_views(args@);
        args.push(task.input_source.clone());
        args.push(String::from_str("-o"));
        args.push(String::from_str("-"));
        assert(text_views(args@) =~= before + seq![task@.input_source, "-o"@, "-"@]);
        args
    }

    /// What the compile step of `task` is given: its command line, and the
    /// preprocessed source.
    pub fn compile_prepare_step(task: &CompilationTask, preprocessed: Vec<u8>) -> (r: CompileStep)
        ensures
            text_views(r.args@) == clang_compile_args(task@.args, task@.language),
            r.preprocessed == preprocessed,
            opt_view(r.output_object) == Some(task@.output_object),
            opt_view(r.input_precompiled) == task@.input_precompiled,
            opt_view(r.output_precompiled) == task@.output_precompiled,
    {
        let mut args: Vec<String> = Vec::new();
        args.push(String::from_str("-c"));
        args.push(String::from_str("-x"));
        args.push(task.language.clone());
        assert(text_views(args@) =~= seq!["-c"@, "-x"@, task@.language]);
        push_step_args(&task.args, false, &mut args);
        CompileStep {
            output_object: Some(task.output_object.clone()),
            output_precompiled: task.output_precompiled.clone(),
            input_precompiled: task.input_precompiled.clone(),
            args,
            preprocessed,
        }
    }
}


/// The whole command line of the backend for a compile step: the arguments of
/// the step, the source from the standard input, and the object file.
pub open spec fn clang_backend_args(args: Seq<Seq<char>>, output_object: Seq<char>) -> Seq<
    Seq<char>,
> {
    args + seq!["-"@, "-o"@, output_object]
}

impl ClangToolchain {
    /// The command line of the backend for a compile step, which reads the
    /// preprocessed source from its standard input; `None` for a step that
    /// names no object file.
    pub fn compile_step(step: &CompileStep) -> (r: Option<Vec<String>>)
        ensures
            match r {
                Some(args) => step.output_object is Some && text_views(args@) == clang_backend_args(
                    text_views(step.args@),
                    step.output_object->0@,
                ),
                None => step.output_object is None,
            },
    {
        let output = match &step.output_object {
            Some(path) => path.clone(),
            None => {
                return None;
            },
        };
        let mut args: Vec<String> = Vec::new();
        let mut i: usize = 0;
        assert(text_views(args@) =~= text_views(step.args@).take(0));
        while i < step.args.len()
            invariant
                i <= step.args.len(),
                text_views(args@) == text_views(step.args@).take(i as int),
            decreases step.args.len() - i,
        {
            let ghost before = text_views(args@);
            args.push(step.args[i].clone());
            assert(text_views(args@) =~= before.push(step.args@[i as int]@));
            assert(text_views(step.args@).take(i + 1) =~= text_views(step.args@).take(i as int).push(
                step.args@[i as int]@,
            ));
            i += 1;
        }
        assert(text_views(step.args@).take(step.args.len() as int) =~= text_views(step.args@));
        let ghost head = text_views(args@);
        args.push(String::from_str("-"));
        args.push(String::from_str("-o"));
        args.push(output);
        assert(text_views(args@) =~= head + seq!["-"@, "-o"@, step.output_object->0@]);
        Some(args)
    }

    /// The identifier of the toolchain, which is made once: from what
    /// `--version` wrote, where it ran and ended well, the first time it is
    /// asked for, and from memory after that.
    pub fn identifier(&mut self, version_output: &Option<String>) -> (r: Option<String>)
        ensures
            final(self).path == old(self).path,
            match old(self).identifier {
                Some(known) => final(self).identifier == old(self).identifier && opt_view(r)
                    == opt_view(known),
                None => final(self).identifier matches Some(made) && opt_view(made) == opt_view(r)
                    && opt_view(r) == (match base_name_text(
                    regex_groups(CLANG_NAME@, last_component(old(self).path@)),
                ) {
                    Some(base_name) => match *version_output {
                        Some(stdout) => version_text(
                            base_name,
                            regex_groups(CLANG_VERSION@, stdout@),
                        ),
                        None => None,
                    },
                    None => None,
                }),
            },
    {
        match &self.identifier {
            Some(known) => {
                return match known {
                    Some(text) => Some(text.clone()),
                    None => None,
                };
            },
            None => {},
        }
        let made = clang_identifier(self.path.as_str(), version_output);
        let kept = match &made {
            Some(text) => Some(text.clone()),
            None => None,
        };
        self.identifier = Some(kept);
        made
    }
}

/// The program at `path` is a Clang by its file name.
pub open spec fn is_clang_path(path: Seq<char>) -> bool {
    base_name_text(regex_groups(CLANG_NAME@, last_component(path))) is Some
}

/// The paths of the toolchains that are known once the files `names` of the
/// directory `dir` were looked at, `known` being the paths before: each file
/// that is a Clang by its name and was not known is put behind them, in the
/// order of `names`.
pub open spec fn discovered(known: Seq<Seq<char>>, dir: Seq<char>, names: Seq<Seq<char>>) -> Seq<
    Seq<char>,
>
    decreases names.len(),
{
    if names.len() == 0 {
        known
    } else {
        let before = discovered(known, dir, names.drop_last());
        let path = joined_path(dir, names.last());
        if is_clang_path(path) && !before.contains(path) {
            before.push(path)
        } else {
            before
        }
    }
}

impl ClangCompiler {
    /// Takes in the Clang programs among the files `names` of the directory
    /// `dir`.
    pub fn discovery_at(&mut self, dir: &str, names: &Vec<String>)
        ensures
            final(self).paths() == discovered(old(self).paths(), dir@, text_views(names@)),
    {
        let ghost views = text_views(names@);
        let mut i: usize = 0;
        assert(views.take(0) =~= Seq::<Seq<char>>::empty());
        while i < names.len()
            invariant
                i <= names.len(),
                views == text_views(names@),
                self.paths() == discovered(old(self).paths(), dir@, views.take(i as int)),
            decreases names.len() - i,
        {
            proof {
                assert(views.take(i + 1).drop_last() =~= views.take(i as int));
                assert(views.take(i + 1).last() == names@[i as int]@);
            }
            let path = path_join(dir, names[i].as_str());
            let ghost before = self.toolchains@;
            let ghost paths_before = self.paths();
            self.resolve_toolchain(path.as_str());
            proof {
                if is_clang_path(path@) && !paths_before.contains(path@) {
                    assert(self.toolchains@.drop_last() == before);
                    assert(self.paths() =~= paths_before.push(path@)) by {
                        assert forall|j: int| 0 <= j < paths_before.len() implies self.paths()[j]
                            == paths_before[j] by {
                            assert(self.toolchains@.drop_last()[j] == self.toolchains@[j]);
                        }
                    }
                } else {
                    assert(self.toolchains@ == before);
                }
            }
            i += 1;
        }
        assert(views.take(names.len() as int) =~= views);
    }
}

} // verus!
