//! The walk through the includes of a source: where an include is looked
//! for, and which files a source leads to.

use std::rc::Rc;
use vstd::prelude::*;
use vstd::string::StringExecFns;
use crate::compiler::{text_views};
use crate::includes::{FoundView, Include, InvalidSource, includes_of, names_decoded, source_includes};
use crate::paths::{
    is_absolute, joined_path, normalize_path, normalized, parent, path_is_absolute, path_join,
    path_parent,
};
use crate::text::text_eq;

verus! {

/// Why the includes of a source could not be collected.
#[derive(Debug)]
pub enum ScanError {
    /// The source itself was not found.
    NotFound(String),
    /// A path leads above its own start.
    InvalidPath(String),
    /// A file could not be read.
    Io(std::io::Error),
    /// A file is no source that can be read.
    Source(InvalidSource),
    /// More files were visited than can be counted.
    Exhausted,
}

/// What is known of one file: its canonical path and its includes, in order.
#[derive(Debug, PartialEq)]
pub struct IncludeInfo {
    pub canonical_path: String,
    pub includes: Vec<Include<String>>,
}

/// How the directories in which a quoted include is looked for are carried
/// from a file to the files it includes.
pub trait IncludeCombine {
    /// The directories for what `source_path` includes, given those for
    /// `source_path` itself; the last one is searched first.
    fn combine_context(&self, context: &Vec<String>, source_path: &str) -> Vec<String>;
}

/// Where the includes of files come from.
pub trait IncludeState {
    /// The includes of the file at `source_file`; `None` where there is no
    /// such file.
    fn file_includes(&mut self, source_file: &str) -> Result<Option<Rc<IncludeInfo>>, ScanError>;
}

/// How a compiler widens the directories in which a quoted include is looked
/// for while it walks from file to file.
#[derive(Clone, Copy, Debug, PartialEq, Eq, Structural)]
pub enum IncludeBehaviour {
    /// Only the directory of the file that includes.
    Clang,
    /// The directories of all the files on the way, the nearest first.
    VisualStudio,
}

/// The directories of `context` but `dir`, in order.
pub open spec fn without(context: Seq<Seq<char>>, dir: Seq<char>) -> Seq<Seq<char>>
    decreases context.len(),
{
    if context.len() == 0 {
        Seq::empty()
    } else if context.last() == dir {
        without(context.drop_last(), dir)
    } else {
        without(context.drop_last(), dir).push(context.last())
    }
}

/// The directories in which the quoted includes of the file `source` are
/// looked for, `context` being those for `source` itself. Clang looks in the
/// directory of `source` alone. Visual Studio moves that directory to the end
/// of the list, where it is searched first; a file without a directory leaves
/// the list as it is.
pub open spec fn combined(behaviour: IncludeBehaviour, context: Seq<Seq<char>>, source: Seq<char>) -> Seq<
    Seq<char>,
> {
    match behaviour {
        IncludeBehaviour::Clang => match parent(source) {
            Some(dir) => seq![dir],
            None => Seq::empty(),
        },
        IncludeBehaviour::VisualStudio => match parent(source) {
            None => context,
            Some(dir) => if context.len() > 0 && context.last() == dir {
                context
            } else {
                without(context, dir).push(dir)
            },
        },
    }
}

fn copy_texts(items: &Vec<String>) -> (r: Vec<String>)
    ensures
        text_views(r@) == text_views(items@),
{
    let mut copy: Vec<String> = Vec::new();
    let mut i: usize = 0;
    while i < items.len()
        invariant
            i <= items.len(),
            copy@.len() == i,
            forall|j: int| 0 <= j < i ==> copy@[j]@ == items@[j]@,
        decreases items.len() - i,
    {
        copy.push(items[i].clone());
        i += 1;
    }
    assert(text_views(copy@) =~= text_views(items@));
    copy
}

impl IncludeBehaviour {
    /// The directories for what `source_path` includes.
    pub fn combine(&self, context: &Vec<String>, source_path: &str) -> (r: Vec<String>)
        ensures
            text_views(r@) == combined(*self, text_views(context@), source_path@),
    {
        let dir = path_parent(source_path);
        match self {
            IncludeBehaviour::Clang => {
                let mut made: Vec<String> = Vec::new();
                match dir {
                    Some(d) => {
                        made.push(d);
                        assert(text_views(made@) =~= seq![d@]);
                    },
                    None => {
                        assert(text_views(made@) =~= Seq::<Seq<char>>::empty());
                    },
                }
                made
            },
            IncludeBehaviour::VisualStudio => {
                match dir {
                    None => copy_texts(context),
                    Some(d) => {
                        let n = context.len();
                        if n > 0 && text_eq(context[n - 1].as_str(), d.as_str()) {
                            assert(text_views(context@).last() == context@[n - 1]@);
                            return copy_texts(context);
                        }
                        let ghost views = text_views(context@);
                        let mut made: Vec<String> = Vec::new();
                        let mut i: usize = 0;
                        assert(views.take(0) =~= Seq::<Seq<char>>::empty());
                        assert(text_views(made@) =~= Seq::<Seq<char>>::empty());
                        while i < n
                            invariant
                                i <= n,
                                n == context.len(),
                                views == text_views(context@),
                                text_views(made@) == without(views.take(i as int), d@),
                            decreases n - i,
                        {
                            let ghost before = text_views(made@);
                            proof {
                                assert(views.take(i + 1).drop_last() =~= views.take(i as int));
                                assert(views.take(i + 1).last() == context@[i as int]@);
                            }
                            if !text_eq(context[i].as_str(), d.as_str()) {
                                made.push(context[i].clone());
                                assert(text_views(made@) =~= before.push(context@[i as int]@));
                            }
                            i += 1;
                        }
                        assert(views.take(n as int) =~= views);
                        let ghost before = text_views(made@);
                        made.push(d);
                        assert(text_views(made@) =~= before.push(d@));
                        made
                    },
                }
            },
        }
    }
}

impl IncludeCombine for IncludeBehaviour {
    fn combine_context(&self, context: &Vec<String>, source_path: &str) -> (r: Vec<String>)
        ensures
            text_views(r@) == combined(*self, text_views(context@), source_path@),
    {
        self.combine(context, source_path)
    }
}

/// The value of an include over texts.
pub open spec fn include_text(item: Include<String>) -> Include<Seq<char>> {
    match item {
        Include::Quote(name) => Include::Quote(name@),
        Include::Bracket(name) => Include::Bracket(name@),
    }
}

/// The files that may be meant by an include, the likeliest first. A name
/// that is absolute means itself and nothing else. A quoted name is looked for
/// in the directories of `context`, the last one first, then in those of
/// `system`; a name in angle brackets in those of `system` only.
pub open spec fn search_list(
    item: Include<Seq<char>>,
    context: Seq<Seq<char>>,
    system: Seq<Seq<char>>,
) -> Seq<Seq<char>> {
    let name = item.name();
    if is_absolute(name) {
        seq![name]
    } else {
        match item {
            Include::Quote(_) => Seq::new(
                context.len() + system.len(),
                |i: int|
                    if i < context.len() {
                        joined_path(context[context.len() - 1 - i], name)
                    } else {
                        joined_path(system[i - context.len()], name)
                    },
            ),
            Include::Bracket(_) => Seq::new(system.len(), |i: int| joined_path(system[i], name)),
        }
    }
}

/// Lists the files that may be meant by an include, the likeliest first.
pub fn search_paths(item: &Include<String>, context: &Vec<String>, system: &Vec<String>) -> (r: Vec<
    String,
>)
    ensures
        text_views(r@) == search_list(include_text(*item), text_views(context@), text_views(system@)),
{
    let (name, quoted) = match item {
        Include::Quote(name) => (name.as_str(), true),
        Include::Bracket(name) => (name.as_str(), false),
    };
    let mut found: Vec<String> = Vec::new();
    if path_is_absolute(name) {
        found.push(String::from_str(name));
        assert(text_views(found@) =~= seq![name@]);
        return found;
    }
    let c = context.len();
    if quoted {
        let mut i: usize = 0;
        while i < c
            invariant
                i <= c,
                c == context.len(),
                found@.len() == i,
                forall|j: int|
                    0 <= j < i ==> (#[trigger] found@[j])@ == joined_path(context@[c - 1 - j]@, name@),
            decreases c - i,
        {
            found.push(path_join(context[c - 1 - i].as_str(), name));
            i += 1;
        }
    }
    let base = found.len();
    let s = system.len();
    let mut i: usize = 0;
    while i < s
        invariant
            i <= s,
            s == system.len(),
            c == context.len(),
            base == (if quoted { c } else { 0 }),
            found@.len() == base + i,
            forall|j: int|
                0 <= j < base ==> (#[trigger] found@[j])@ == joined_path(context@[c - 1 - j]@, name@),
            forall|j: int|
                base <= j < base + i ==> (#[trigger] found@[j])@ == joined_path(
                    system@[j - base]@,
                    name@,
                ),
        decreases s - i,
    {
        found.push(path_join(system[i].as_str(), name));
        i += 1;
    }
    assert(text_views(found@) =~= search_list(
        include_text(*item),
        text_views(context@),
        text_views(system@),
    ));
    found
}

/// What a state may say when it is asked for the includes of a file.
pub type Answer = Result<Option<Rc<IncludeInfo>>, ScanError>;

/// The state that held `before` was asked for the file `path`, and `answer` is
/// what it said: the contract of its `file_includes` allows that answer to
/// that question.
pub open spec fn was_asked<T: IncludeState>(before: T, path: Seq<char>, answer: Answer) -> bool {
    exists|s: &mut T, p: &str|
        *s == before && p@ == path && #[trigger] call_ensures(T::file_includes, (s, p), answer)
}

/// The state said that there is no such file.
pub open spec fn is_unknown(answer: Answer) -> bool {
    answer == Ok::<Option<Rc<IncludeInfo>>, ScanError>(None)
}

/// `answers` are what a state said when it was asked for the candidates one
/// after the other, the first time as it was `first`, and `states` is what it
/// held before each question. The asking goes on as long as the state knows no
/// such file and ends at its first other answer, which is the result `r`;
/// where no candidate is left, the result is that there is no file.
pub open spec fn solved_with<T: IncludeState>(
    first: T,
    candidates: Seq<Seq<char>>,
    r: Answer,
    answers: Seq<Answer>,
    states: Seq<T>,
) -> bool {
    &&& answers.len() <= candidates.len()
    &&& states.len() == answers.len()
    &&& answers.len() > 0 ==> states[0] == first
    &&& forall|i: int|
        0 <= i < answers.len() ==> was_asked(states[i], candidates[i], #[trigger] answers[i])
    &&& forall|i: int| 0 <= i < answers.len() - 1 ==> is_unknown(#[trigger] answers[i])
    &&& if answers.len() > 0 && !is_unknown(answers.last()) {
        r == answers.last()
    } else {
        answers.len() == candidates.len() && is_unknown(r)
    }
}

/// `r` is what the search for an include among `candidates` gives, with a
/// state that holds `first` at the start: there are answers of the state that
/// lead to it.
pub open spec fn solved<T: IncludeState>(first: T, candidates: Seq<Seq<char>>, r: Answer) -> bool {
    exists|answers: Seq<Answer>, states: Seq<T>|
        #[trigger] solved_with(first, candidates, r, answers, states)
}

/// Asks `state` for the candidates one after the other and gives its first
/// answer that is a file or an error; that there is no file where it knows
/// none of them.
pub fn solve_include_path<T: IncludeState>(state: &mut T, candidates: &Vec<String>) -> (r: Result<
    Option<Rc<IncludeInfo>>,
    ScanError,
>)
    ensures
        solved(*old(state), text_views(candidates@), r),
        candidates@.len() == 0 ==> *final(state) == *old(state),
{
    let ghost cands = text_views(candidates@);
    let ghost mut answers: Seq<Answer> = Seq::empty();
    let ghost mut states: Seq<T> = Seq::empty();
    let mut i: usize = 0;
    while i < candidates.len()
        invariant
            i <= candidates.len(),
            cands == text_views(candidates@),
            answers.len() == i,
            states.len() == i,
            i > 0 ==> states[0] == *old(state),
            i == 0 ==> *state == *old(state),
            forall|j: int| 0 <= j < i ==> was_asked(states[j], cands[j], #[trigger] answers[j]),
            forall|j: int| 0 <= j < i ==> is_unknown(#[trigger] answers[j]),
        decreases candidates.len() - i,
    {
        let ghost before = *state;
        let answer = state.file_includes(candidates[i].as_str());
        proof {
            assert(was_asked(before, cands[i as int], answer));
            let old_answers = answers;
            let old_states = states;
            answers = answers.push(answer);
            states = states.push(before);
            assert forall|j: int| 0 <= j < answers.len() implies was_asked(
                states[j],
                cands[j],
                #[trigger] answers[j],
            ) by {
                if j < old_answers.len() {
                    assert(was_asked(old_states[j], cands[j], old_answers[j]));
                }
            }
            assert forall|j: int| 0 <= j < answers.len() - 1 implies is_unknown(
                #[trigger] answers[j],
            ) by {
                assert(is_unknown(old_answers[j]));
            }
        }
        match answer {
            Ok(Some(found)) => {
                assert(solved_with(*old(state), cands, answer, answers, states));
                return Ok(Some(found));
            },
            Ok(None) => {},
            Err(e) => {
                assert(solved_with(*old(state), cands, answer, answers, states));
                return Err(e);
            },
        }
        i += 1;
    }
    assert(solved_with(
        *old(state),
        cands,
        Ok::<Option<Rc<IncludeInfo>>, ScanError>(None),
        answers,
        states,
    ));
    Ok(None)
}

/// The values of a list of includes over texts, in order.
pub open spec fn include_texts(items: Seq<Include<String>>) -> Seq<Include<Seq<char>>> {
    Seq::new(items.len(), |i: int| include_text(items[i]))
}

/// The files among the answers, in order.
pub open spec fn hits(answers: Seq<Answer>) -> Seq<Rc<IncludeInfo>>
    decreases answers.len(),
{
    if answers.len() == 0 {
        Seq::empty()
    } else {
        match answers.last() {
            Ok(Some(hit)) => hits(answers.drop_last()).push(hit),
            _ => hits(answers.drop_last()),
        }
    }
}

/// `answers` are what the searches for the includes gave, one after the
/// other, the first with a state that holds `first`, and `states` is what the
/// state held before each search. The searching ends at the first error, which
/// is the result `r`; else the result is the files that were found, in the
/// order of the includes.
pub open spec fn paths_found_with<T: IncludeState>(
    first: T,
    includes: Seq<Include<Seq<char>>>,
    context: Seq<Seq<char>>,
    system: Seq<Seq<char>>,
    r: Result<Seq<Rc<IncludeInfo>>, ScanError>,
    answers: Seq<Answer>,
    states: Seq<T>,
) -> bool {
    &&& answers.len() <= includes.len()
    &&& states.len() == answers.len()
    &&& answers.len() > 0 ==> states[0] == first
    &&& forall|i: int|
        0 <= i < answers.len() ==> solved(
            states[i],
            search_list(includes[i], context, system),
            #[trigger] answers[i],
        )
    &&& forall|i: int| 0 <= i < answers.len() - 1 ==> (#[trigger] answers[i]) is Ok
    &&& if answers.len() > 0 && answers.last() is Err {
        r == Err::<Seq<Rc<IncludeInfo>>, ScanError>(answers.last()->Err_0)
    } else {
        answers.len() == includes.len() && r == Ok::<Seq<Rc<IncludeInfo>>, ScanError>(
            hits(answers),
        )
    }
}

/// `r` is what the searches for the includes of a file give, with a state
/// that holds `first` at the start: there are results of the searches that
/// lead to it.
pub open spec fn paths_found<T: IncludeState>(
    first: T,
    includes: Seq<Include<Seq<char>>>,
    context: Seq<Seq<char>>,
    system: Seq<Seq<char>>,
    r: Result<Seq<Rc<IncludeInfo>>, ScanError>,
) -> bool {
    exists|answers: Seq<Answer>, states: Seq<T>|
        #[trigger] paths_found_with(first, includes, context, system, r, answers, states)
}

/// Gives the files that the includes of `info` lead to, in order. An include
/// that leads to no file is passed over; the first error ends the search.
pub fn file_include_paths<T: IncludeState>(
    state: &mut T,
    info: &IncludeInfo,
    context_dir: &Vec<String>,
    include_dir: &Vec<String>,
) -> (r: Result<Vec<Rc<IncludeInfo>>, ScanError>)
    ensures
        paths_found(
            *old(state),
            include_texts(info.includes@),
            text_views(context_dir@),
            text_views(include_dir@),
            match r {
                Ok(found) => Ok(found@),
                Err(e) => Err(e),
            },
        ),
        r matches Ok(found) ==> found@.len() <= info.includes@.len(),
        info.includes@.len() == 0 ==> *final(state) == *old(state),
{
    let ghost includes = include_texts(info.includes@);
    let ghost context = text_views(context_dir@);
    let ghost system = text_views(include_dir@);
    let ghost mut answers: Seq<Answer> = Seq::empty();
    let ghost mut states: Seq<T> = Seq::empty();
    let mut found: Vec<Rc<IncludeInfo>> = Vec::new();
    let mut i: usize = 0;
    while i < info.includes.len()
        invariant
            i <= info.includes.len(),
            includes == include_texts(info.includes@),
            context == text_views(context_dir@),
            system == text_views(include_dir@),
            answers.len() == i,
            states.len() == i,
            i > 0 ==> states[0] == *old(state),
            i == 0 ==> *state == *old(state),
            forall|j: int|
                0 <= j < i ==> solved(
                    states[j],
                    search_list(includes[j], context, system),
                    #[trigger] answers[j],
                ),
            forall|j: int| 0 <= j < i ==> (#[trigger] answers[j]) is Ok,
            found@ == hits(answers),
            found@.len() <= i,
        decreases info.includes.len() - i,
    {
        let ghost before = *state;
        let candidates = search_paths(&info.includes[i], context_dir, include_dir);
        let answer = solve_include_path(state, &candidates);
        proof {
            assert(includes[i as int] == include_text(info.includes@[i as int]));
            let old_answers = answers;
            let old_states = states;
            answers = answers.push(answer);
            states = states.push(before);
            assert(answers.drop_last() =~= old_answers);
            assert forall|j: int| 0 <= j < answers.len() implies solved(
                states[j],
                search_list(includes[j], context, system),
                #[trigger] answers[j],
            ) by {
                if j < old_answers.len() {
                    assert(solved(
                        old_states[j],
                        search_list(includes[j], context, system),
                        old_answers[j],
                    ));
                }
            }
            assert forall|j: int| 0 <= j < answers.len() - 1 implies (#[trigger] answers[j]) is Ok by {
                assert(old_answers[j] is Ok);
            }
        }
        match answer {
            Ok(Some(hit)) => {
                found.push(hit);
            },
            Ok(None) => {},
            Err(e) => {
                assert(paths_found_with(
                    *old(state),
                    includes,
                    context,
                    system,
                    Err::<Seq<Rc<IncludeInfo>>, ScanError>(e),
                    answers,
                    states,
                ));
                return Err(e);
            },
        }
        i += 1;
    }
    assert(paths_found_with(
        *old(state),
        includes,
        context,
        system,
        Ok::<Seq<Rc<IncludeInfo>>, ScanError>(found@),
        answers,
        states,
    ));
    Ok(found)
}


/// Makes the include list of a file from its text. Reading the file is left to
/// the caller.
pub struct IncludeReader {}

impl IncludeReader {
    pub fn new() -> (r: Self)
        ensures
            r == (IncludeReader {  }),
    {
        IncludeReader {  }
    }

    /// The canonical path under which the file `source_file` is read.
    pub fn locate(&self, source_file: &str) -> (r: Result<String, ScanError>)
        ensures
            match r {
                Ok(path) => normalized(source_file@) == Some(path@),
                Err(ScanError::InvalidPath(path)) => normalized(source_file@) is None && path@
                    == source_file@,
                Err(_) => false,
            },
    {
        match normalize_path(source_file) {
            Some(path) => Ok(path),
            None => Err(ScanError::InvalidPath(String::from_str(source_file))),
        }
    }

    /// What is known of the file at `canonical_path` once its text `content`
    /// was read: its includes.
    pub fn parse(&self, canonical_path: String, content: &[u8]) -> (r: Result<
        Rc<IncludeInfo>,
        ScanError,
    >)
        ensures
            match r {
                Ok(info) => info.canonical_path == canonical_path && (match includes_of(content@) {
                    FoundView::Done(_, (bom, found)) => names_decoded(info.includes@, bom, found),
                    _ => false,
                }),
                Err(ScanError::Source(InvalidSource::UnexpectedEof)) => includes_of(
                    content@,
                ) is Incomplete,
                Err(ScanError::Source(InvalidSource::InvalidData)) => includes_of(content@) is Error,
                Err(_) => false,
            },
    {
        match source_includes(content) {
            Ok(includes) => Ok(Rc::new(IncludeInfo { canonical_path, includes })),
            Err(e) => Err(ScanError::Source(e)),
        }
    }
}

/// One file on the way through the includes of a source, with the directories
/// in which its own quoted includes are looked for.
pub struct CollectTask {
    pub context: Vec<String>,
    pub source: String,
}

fn same_texts(a: &Vec<String>, b: &Vec<String>) -> (r: bool)
    ensures
        r == (text_views(a@) == text_views(b@)),
{
    if a.len() != b.len() {
        assert(text_views(a@).len() != text_views(b@).len());
        return false;
    }
    let mut i: usize = 0;
    while i < a.len()
        invariant
            i <= a.len(),
            a.len() == b.len(),
            forall|j: int| 0 <= j < i ==> a@[j]@ == b@[j]@,
        decreases a.len() - i,
    {
        if !text_eq(a[i].as_str(), b[i].as_str()) {
            assert(text_views(a@)[i as int] != text_views(b@)[i as int]);
            return false;
        }
        i += 1;
    }
    assert(text_views(a@) =~= text_views(b@));
    true
}

/// Tells whether `item` is among `list`.
pub fn contains_text(list: &Vec<String>, item: &str) -> (r: bool)
    ensures
        r == text_views(list@).contains(item@),
{
    let mut i: usize = 0;
    while i < list.len()
        invariant
            i <= list.len(),
            forall|j: int| 0 <= j < i ==> list@[j]@ != item@,
        decreases list.len() - i,
    {
        if text_eq(list[i].as_str(), item) {
            assert(text_views(list@)[i as int] == item@);
            return true;
        }
        i += 1;
    }
    assert forall|j: int| 0 <= j < text_views(list@).len() implies text_views(list@)[j] != item@ by {
        assert(text_views(list@)[j] == list@[j]@);
    }
    false
}

/// The file `source` was visited with the directories `context`.
pub open spec fn was_visited(
    visited: Seq<CollectTask>,
    context: Seq<Seq<char>>,
    source: Seq<char>,
) -> bool {
    exists|i: int|
        0 <= i < visited.len() && (#[trigger] visited[i]).source@ == source && text_views(
            visited[i].context@,
        ) == context
}

/// Tells whether a file was visited with the same directories before.
pub fn is_visited(visited: &Vec<CollectTask>, context: &Vec<String>, source: &str) -> (r: bool)
    ensures
        r == was_visited(visited@, text_views(context@), source@),
{
    let mut i: usize = 0;
    while i < visited.len()
        invariant
            i <= visited.len(),
            forall|j: int|
                0 <= j < i ==> !((#[trigger] visited@[j]).source@ == source@ && text_views(
                    visited@[j].context@,
                ) == text_views(context@)),
        decreases visited.len() - i,
    {
        if text_eq(visited[i].source.as_str(), source) && same_texts(&visited[i].context, context) {
            return true;
        }
        i += 1;
    }
    false
}

/// The texts of a list without those that stood in it before, in order.
pub open spec fn distinct(items: Seq<Seq<char>>) -> Seq<Seq<char>>
    decreases items.len(),
{
    if items.len() == 0 {
        Seq::empty()
    } else if distinct(items.drop_last()).contains(items.last()) {
        distinct(items.drop_last())
    } else {
        distinct(items.drop_last()).push(items.last())
    }
}

/// The files of a list of visits, in order.
pub open spec fn visited_sources(visited: Seq<CollectTask>) -> Seq<Seq<char>> {
    Seq::new(visited.len(), |i: int| visited[i].source@)
}

pub proof fn lemma_distinct_has_no_duplicates(items: Seq<Seq<char>>)
    ensures
        distinct(items).no_duplicates(),
        items.len() > 0 ==> distinct(items).len() > 0,
    decreases items.len(),
{
    if items.len() > 0 {
        lemma_distinct_has_no_duplicates(items.drop_last());
    }
}

/// Lists the files that were visited, each once, in the order of the visits.
pub fn unique_sources(visited: &Vec<CollectTask>) -> (r: Vec<String>)
    ensures
        text_views(r@) == distinct(visited_sources(visited@)),
{
    let ghost sources = visited_sources(visited@);
    let mut list: Vec<String> = Vec::new();
    let mut i: usize = 0;
    assert(sources.take(0) =~= Seq::<Seq<char>>::empty());
    assert(text_views(list@) =~= Seq::<Seq<char>>::empty());
    while i < visited.len()
        invariant
            i <= visited.len(),
            sources == visited_sources(visited@),
            text_views(list@) == distinct(sources.take(i as int)),
        decreases visited.len() - i,
    {
        proof {
            assert(sources.take(i + 1).drop_last() =~= sources.take(i as int));
            assert(sources.take(i + 1).last() == visited@[i as int].source@);
        }
        if !contains_text(&list, visited[i].source.as_str()) {
            let ghost before = text_views(list@);
            list.push(visited[i].source.clone());
            assert(text_views(list@) =~= before.push(visited@[i as int].source@));
        }
        i += 1;
    }
    assert(sources.take(visited.len() as int) =~= sources);
    list
}

/// Another handle on the same file information, by std's `Rc::clone`, which
/// shares the value and copies nothing.
#[verifier::external_body]
fn share(info: &Rc<IncludeInfo>) -> (r: Rc<IncludeInfo>)
    ensures
        r == *info,
{
    info.clone()
}

/// A file that waits to be visited: the directories it was reached with, its
/// canonical path, and what is known of it.
pub struct Visit {
    pub context: Seq<Seq<char>>,
    pub source: Seq<char>,
    pub info: Rc<IncludeInfo>,
}

/// One visit of the walk: what the state held before it, the file that was
/// visited, the files that its includes led to or the error that the search
/// ended in, and for each of those files the directories that were made for
/// it.
pub struct Turn<T> {
    pub before: T,
    pub item: Visit,
    pub found: Result<Seq<Rc<IncludeInfo>>, ScanError>,
    pub contexts: Seq<Seq<Seq<char>>>,
}

/// `combine` was asked for the directories of the file `path`, reached with
/// the directories `context`, and `answer` is what it said: the contract of
/// its `combine_context` allows that answer.
pub open spec fn was_combined<C: IncludeCombine>(
    combine: C,
    context: Seq<Seq<char>>,
    path: Seq<char>,
    answer: Seq<Seq<char>>,
) -> bool {
    exists|c: &C, v: &Vec<String>, p: &str, out: Vec<String>|
        *c == combine && text_views(v@) == context && p@ == path && text_views(out@) == answer
            && #[trigger] call_ensures(C::combine_context, (c, v, p), out)
}

/// The files that wait to be visited, as the walk holds them.
pub open spec fn queue_views(queue: Seq<(CollectTask, Rc<IncludeInfo>)>) -> Seq<Visit> {
    Seq::new(
        queue.len(),
        |i: int|
            Visit {
                context: text_views(queue[i].0.context@),
                source: queue[i].0.source@,
                info: queue[i].1,
            },
    )
}

/// The visits that were made: the directories and the file of each.
pub open spec fn visit_keys(visited: Seq<CollectTask>) -> Seq<(Seq<Seq<char>>, Seq<char>)> {
    Seq::new(visited.len(), |i: int| (text_views(visited[i].context@), visited[i].source@))
}

/// The files of a list of visits, in order.
pub open spec fn key_sources(visited: Seq<(Seq<Seq<char>>, Seq<char>)>) -> Seq<Seq<char>> {
    Seq::new(visited.len(), |i: int| visited[i].1)
}

/// The files that the includes of a file led to, as they wait to be visited:
/// each with the directories that were made for it.
pub open spec fn children(found: Seq<Rc<IncludeInfo>>, contexts: Seq<Seq<Seq<char>>>) -> Seq<Visit> {
    Seq::new(
        found.len(),
        |k: int| Visit { context: contexts[k], source: found[k].canonical_path@, info: found[k] },
    )
}

/// How the walk ends that begins with the files `queue` waiting and the
/// visits `visited` made, `steps` files having been taken up before, where
/// `turns` from `at` on are the visits that follow: the visits that were made
/// in all, or the error that ended the walk; `None` where `turns` are not the
/// visits of this walk. The file that waits last is taken up first. A file
/// that was visited with the same directories is passed over. Else it is
/// visited: the files that its includes led to wait behind the others, in
/// order. An error of the search ends the walk, and so does the count of
/// `usize::MAX` files taken up.
pub open spec fn walk<T>(
    queue: Seq<Visit>,
    visited: Seq<(Seq<Seq<char>>, Seq<char>)>,
    turns: Seq<Turn<T>>,
    at: int,
    steps: int,
) -> Option<Result<Seq<(Seq<Seq<char>>, Seq<char>)>, ScanError>>
    decreases turns.len() - at, queue.len(),
{
    if queue.len() == 0 {
        if at == turns.len() {
            Some(Ok(visited))
        } else {
            None
        }
    } else if steps >= usize::MAX {
        if at == turns.len() {
            Some(Err(ScanError::Exhausted))
        } else {
            None
        }
    } else {
        let item = queue.last();
        if visited.contains((item.context, item.source)) {
            walk(queue.drop_last(), visited, turns, at, steps + 1)
        } else if at < 0 || at >= turns.len() || turns[at].item != item {
            None
        } else {
            match turns[at].found {
                Err(e) => if at + 1 == turns.len() {
                    Some(Err(e))
                } else {
                    None
                },
                Ok(found) => if turns[at].contexts.len() != found.len() {
                    None
                } else {
                    walk(
                        queue.drop_last() + children(found, turns[at].contexts),
                        visited.push((item.context, item.source)),
                        turns,
                        at + 1,
                        steps + 1,
                    )
                },
            }
        }
    }
}

/// The visit is one that the state and `combine` allow: the search for the
/// includes of the file gave what the visit says, and the directories of each
/// file that was found are what `combine` said.
pub open spec fn turn_ok<T: IncludeState, C: IncludeCombine>(
    combine: C,
    system: Seq<Seq<char>>,
    turn: Turn<T>,
) -> bool {
    &&& paths_found(
        turn.before,
        include_texts(turn.item.info.includes@),
        turn.item.context,
        system,
        turn.found,
    )
    &&& match turn.found {
        Ok(found) => turn.contexts.len() == found.len() && forall|k: int|
            0 <= k < found.len() ==> was_combined(
                combine,
                turn.item.context,
                found[k].canonical_path@,
                #[trigger] turn.contexts[k],
            ),
        Err(_) => turn.contexts.len() == 0,
    }
}

/// `r` is what the walk from the file `source_file` gives, where the state
/// said `root` of that file, `combine` made `context` for it, and `turns` are
/// the visits. A file that the state does not know is reported as not found,
/// an error of the state is handed on. Else the walk begins with that file
/// alone, and its result is the files of the visits, each once, in the order
/// in which they were visited first.
pub open spec fn collected_with<T: IncludeState, C: IncludeCombine>(
    first: T,
    combine: C,
    source_file: Seq<char>,
    system: Seq<Seq<char>>,
    r: Result<Seq<Seq<char>>, ScanError>,
    root: Answer,
    context: Seq<Seq<char>>,
    turns: Seq<Turn<T>>,
) -> bool {
    &&& was_asked(first, source_file, root)
    &&& match root {
        Err(e) => r == Err::<Seq<Seq<char>>, ScanError>(e),
        Ok(None) => r matches Err(ScanError::NotFound(path)) && path@ == source_file,
        Ok(Some(info)) => {
            &&& was_combined(combine, Seq::empty(), info.canonical_path@, context)
            &&& forall|j: int|
                0 <= j < turns.len() ==> turn_ok(combine, system, #[trigger] turns[j])
            &&& match walk(
                seq![Visit { context, source: info.canonical_path@, info }],
                Seq::empty(),
                turns,
                0,
                0,
            ) {
                Some(Ok(visited)) => r == Ok::<Seq<Seq<char>>, ScanError>(
                    distinct(key_sources(visited)),
                ),
                Some(Err(e)) => r == Err::<Seq<Seq<char>>, ScanError>(e),
                None => false,
            }
        },
    }
}

/// `r` is what the walk from the file `source_file` gives, with a state that
/// holds `first` at the start: there are answers of the state and of
/// `combine` that lead to it.
pub open spec fn collected<T: IncludeState, C: IncludeCombine>(
    first: T,
    combine: C,
    source_file: Seq<char>,
    system: Seq<Seq<char>>,
    r: Result<Seq<Seq<char>>, ScanError>,
) -> bool {
    exists|root: Answer, context: Seq<Seq<char>>, turns: Seq<Turn<T>>|
        #[trigger] collected_with(first, combine, source_file, system, r, root, context, turns)
}

proof fn lemma_visited_is_seen(visited: Seq<CollectTask>, context: Seq<Seq<char>>, source: Seq<char>)
    ensures
        was_visited(visited, context, source) == visit_keys(visited).contains((context, source)),
{
    let keys = visit_keys(visited);
    if was_visited(visited, context, source) {
        let i = choose|i: int|
            0 <= i < visited.len() && (#[trigger] visited[i]).source@ == source && text_views(
                visited[i].context@,
            ) == context;
        assert(keys[i] == (context, source));
    }
    if keys.contains((context, source)) {
        let i = choose|i: int| 0 <= i < keys.len() && keys[i] == (context, source);
        assert(visited[i].source@ == source);
    }
}

/// Puts the files that the includes of a file led to behind those that wait,
/// each with the directories that `combine` makes for it.
fn push_children<C: IncludeCombine>(
    queue: &mut Vec<(CollectTask, Rc<IncludeInfo>)>,
    context: &Vec<String>,
    found: &Vec<Rc<IncludeInfo>>,
    combine: &C,
) -> (made: Ghost<Seq<Seq<Seq<char>>>>)
    ensures
        made@.len() == found@.len(),
        forall|k: int|
            0 <= k < found@.len() ==> was_combined(
                *combine,
                text_views(context@),
                found@[k].canonical_path@,
                #[trigger] made@[k],
            ),
        queue_views(final(queue)@) == queue_views(old(queue)@) + children(found@, made@),
{
    let ghost start = queue_views(queue@);
    let ghost mut made: Seq<Seq<Seq<char>>> = Seq::empty();
    let mut i: usize = 0;
    assert(queue_views(queue@) =~= start + children(found@.take(0), made));
    while i < found.len()
        invariant
            i <= found.len(),
            made.len() == i,
            forall|k: int|
                0 <= k < i ==> was_combined(
                    *combine,
                    text_views(context@),
                    found@[k].canonical_path@,
                    #[trigger] made[k],
                ),
            queue_views(queue@) == start + children(found@.take(i as int), made),
        decreases found.len() - i,
    {
        let made_context = combine.combine_context(context, found[i].canonical_path.as_str());
        let source = found[i].canonical_path.clone();
        let ghost before = queue_views(queue@);
        let ghost answer = text_views(made_context@);
        proof {
            assert(was_combined(
                *combine,
                text_views(context@),
                found@[i as int].canonical_path@,
                answer,
            ));
        }
        queue.push((CollectTask { context: made_context, source }, share(&found[i])));
        proof {
            let old_made = made;
            made = made.push(answer);
            assert(queue_views(queue@) =~= before.push(
                Visit {
                    context: answer,
                    source: found@[i as int].canonical_path@,
                    info: found@[i as int],
                },
            ));
            assert(children(found@.take(i + 1), made) =~= children(
                found@.take(i as int),
                old_made,
            ).push(
                Visit {
                    context: answer,
                    source: found@[i as int].canonical_path@,
                    info: found@[i as int],
                },
            ));
            assert(queue_views(queue@) =~= start + children(found@.take(i + 1), made));
            assert forall|k: int| 0 <= k < i + 1 implies was_combined(
                *combine,
                text_views(context@),
                found@[k].canonical_path@,
                #[trigger] made[k],
            ) by {
                if k < i {
                    assert(made[k] == old_made[k]);
                }
            }
        }
        i += 1;
    }
    assert(found@.take(found.len() as int) =~= found@);
    Ghost(made)
}

/// Collects the files that a source leads to through its includes, itself
/// among them, each once. `state` says what each file includes; `combine`
/// says in which directories the quoted includes of each file are looked for,
/// beside those of `include_dir`. A file is visited once for each list of
/// directories it is reached with.
///
/// What the files hold is `state`'s to say: the result is what the walk makes
/// of the answers of `state` and of `combine`.
#[verifier::rlimit(50)]
pub fn collect_includes<T: IncludeState, C: IncludeCombine>(
    state: &mut T,
    source_file: &str,
    include_dir: &Vec<String>,
    combine: &C,
) -> (r: Result<Vec<String>, ScanError>)
    ensures
        collected(
            *old(state),
            *combine,
            source_file@,
            text_views(include_dir@),
            match r {
                Ok(list) => Ok(text_views(list@)),
                Err(e) => Err(e),
            },
        ),
        r matches Ok(list) ==> list@.len() >= 1 && text_views(list@).no_duplicates(),
{
    let ghost first = *state;
    let ghost system = text_views(include_dir@);
    let ghost none = Seq::<(Seq<Seq<char>>, Seq<char>)>::empty();
    let mut queue: Vec<(CollectTask, Rc<IncludeInfo>)> = Vec::new();
    let mut visited: Vec<CollectTask> = Vec::new();
    let root = state.file_includes(source_file);
    assert(was_asked(first, source_file@, root));
    let ghost context0: Seq<Seq<char>>;
    let ghost info0: Rc<IncludeInfo>;
    match root {
        Ok(Some(found)) => {
            let empty: Vec<String> = Vec::new();
            let context = combine.combine_context(&empty, found.canonical_path.as_str());
            let source = found.canonical_path.clone();
            proof {
                context0 = text_views(context@);
                info0 = found;
                assert(text_views(empty@) =~= Seq::<Seq<char>>::empty());
                assert(was_combined(
                    *combine,
                    Seq::<Seq<char>>::empty(),
                    found.canonical_path@,
                    context0,
                ));
            }
            queue.push((CollectTask { context, source }, found));
        },
        Ok(None) => {
            let path = String::from_str(source_file);
            assert(collected_with(
                first,
                *combine,
                source_file@,
                system,
                Err::<Seq<Seq<char>>, ScanError>(ScanError::NotFound(path)),
                root,
                Seq::<Seq<char>>::empty(),
                Seq::<Turn<T>>::empty(),
            ));
            return Err(ScanError::NotFound(path));
        },
        Err(e) => {
            assert(collected_with(
                first,
                *combine,
                source_file@,
                system,
                Err::<Seq<Seq<char>>, ScanError>(e),
                root,
                Seq::<Seq<char>>::empty(),
                Seq::<Turn<T>>::empty(),
            ));
            return Err(e);
        },
    }
    let ghost start = seq![Visit { context: context0, source: info0.canonical_path@, info: info0 }];
    let ghost mut turns: Seq<Turn<T>> = Seq::empty();
    assert(queue_views(queue@) =~= start);
    assert(visit_keys(visited@) =~= none);
    assert forall|x: Seq<Turn<T>>| #[trigger]
        walk(start, none, turns + x, 0, 0) == walk(
            queue_views(queue@),
            visit_keys(visited@),
            turns + x,
            turns.len() as int,
            0,
        ) by {}
    let mut steps: usize = 0;
    while queue.len() > 0
        invariant
            steps == 0 ==> queue@.len() == 1 && visited@.len() == 0,
            steps > 0 ==> visited@.len() >= 1,
            first == *old(state),
            system == text_views(include_dir@),
            none == Seq::<(Seq<Seq<char>>, Seq<char>)>::empty(),
            root == Ok::<Option<Rc<IncludeInfo>>, ScanError>(Some(info0)),
            was_asked(first, source_file@, root),
            was_combined(*combine, Seq::<Seq<char>>::empty(), info0.canonical_path@, context0),
            start == seq![Visit { context: context0, source: info0.canonical_path@, info: info0 }],
            forall|j: int| 0 <= j < turns.len() ==> turn_ok(*combine, system, #[trigger] turns[j]),
            forall|x: Seq<Turn<T>>| #[trigger]
                walk(start, none, turns + x, 0, 0) == walk(
                    queue_views(queue@),
                    visit_keys(visited@),
                    turns + x,
                    turns.len() as int,
                    steps as int,
                ),
        decreases usize::MAX - steps,
    {
        let ghost nothing = Seq::<Turn<T>>::empty();
        if steps == usize::MAX {
            proof {
                assert(turns + nothing =~= turns);
                assert(walk(start, none, turns + nothing, 0, 0) == Some(
                    Err::<Seq<(Seq<Seq<char>>, Seq<char>)>, ScanError>(ScanError::Exhausted),
                ));
                assert(collected_with(
                    first,
                    *combine,
                    source_file@,
                    system,
                    Err::<Seq<Seq<char>>, ScanError>(ScanError::Exhausted),
                    root,
                    context0,
                    turns,
                ));
            }
            return Err(ScanError::Exhausted);
        }
        let ghost waiting = queue_views(queue@);
        let ghost keys = visit_keys(visited@);
        let ghost count = steps as int;
        steps += 1;
        match queue.pop() {
            Some((task, source_info)) => {
                let ghost item = Visit {
                    context: text_views(task.context@),
                    source: task.source@,
                    info: source_info,
                };
                let ghost rest = queue_views(queue@);
                proof {
                    assert(waiting.last() == item);
                    assert(waiting.drop_last() =~= rest);
                    lemma_visited_is_seen(visited@, item.context, item.source);
                }
                if !is_visited(&visited, &task.context, task.source.as_str()) {
                    let ghost before = *state;
                    let answer = file_include_paths(state, &source_info, &task.context, include_dir);
                    let ghost found_view: Result<Seq<Rc<IncludeInfo>>, ScanError> = match &answer {
                        Ok(found) => Ok(found@),
                        Err(e) => Err(*e),
                    };
                    let found = match answer {
                        Ok(found) => found,
                        Err(e) => {
                            proof {
                                let turn = Turn {
                                    before,
                                    item,
                                    found: found_view,
                                    contexts: Seq::<Seq<Seq<char>>>::empty(),
                                };
                                let all = turns.push(turn);
                                assert(turn_ok(*combine, system, turn));
                                assert(turns + (seq![turn] + nothing) =~= all);
                                assert(walk(start, none, turns + (seq![turn] + nothing), 0, 0)
                                    == walk(
                                    waiting,
                                    keys,
                                    turns + (seq![turn] + nothing),
                                    turns.len() as int,
                                    count,
                                ));
                                assert(all[turns.len() as int] == turn);
                                assert(walk(waiting, keys, all, turns.len() as int, count) == Some(
                                    Err::<Seq<(Seq<Seq<char>>, Seq<char>)>, ScanError>(e),
                                ));
                                assert forall|j: int| 0 <= j < all.len() implies turn_ok(
                                    *combine,
                                    system,
                                    #[trigger] all[j],
                                ) by {
                                    if j < turns.len() {
                                        assert(all[j] == turns[j]);
                                    }
                                }
                                assert(collected_with(
                                    first,
                                    *combine,
                                    source_file@,
                                    system,
                                    Err::<Seq<Seq<char>>, ScanError>(e),
                                    root,
                                    context0,
                                    all,
                                ));
                            }
                            return Err(e);
                        },
                    };
                    let made = push_children(&mut queue, &task.context, &found, combine);
                    visited.push(task);
                    proof {
                        let turn = Turn { before, item, found: found_view, contexts: made@ };
                        let all = turns.push(turn);
                        assert(turn_ok(*combine, system, turn));
                        assert(visit_keys(visited@) =~= keys.push((item.context, item.source)));
                        assert forall|j: int| 0 <= j < all.len() implies turn_ok(
                            *combine,
                            system,
                            #[trigger] all[j],
                        ) by {
                            if j < turns.len() {
                                assert(all[j] == turns[j]);
                            }
                        }
                        assert forall|x: Seq<Turn<T>>| #[trigger]
                            walk(start, none, all + x, 0, 0) == walk(
                                queue_views(queue@),
                                visit_keys(visited@),
                                all + x,
                                all.len() as int,
                                steps as int,
                            ) by {
                            let y = seq![turn] + x;
                            assert(turns + y =~= all + x);
                            assert(walk(start, none, turns + y, 0, 0) == walk(
                                waiting,
                                keys,
                                turns + y,
                                turns.len() as int,
                                count,
                            ));
                            assert((all + x)[turns.len() as int] == turn);
                        }
                        turns = all;
                    }
                } else {
                    proof {
                        assert forall|x: Seq<Turn<T>>| #[trigger]
                            walk(start, none, turns + x, 0, 0) == walk(
                                queue_views(queue@),
                                visit_keys(visited@),
                                turns + x,
                                turns.len() as int,
                                steps as int,
                            ) by {
                            assert(walk(start, none, turns + x, 0, 0) == walk(
                                waiting,
                                keys,
                                turns + x,
                                turns.len() as int,
                                count,
                            ));
                        }
                    }
                }
            },
            None => {},
        }
    }
    let list = unique_sources(&visited);
    proof {
        lemma_distinct_has_no_duplicates(visited_sources(visited@));
        assert(text_views(list@).len() == list@.len());
        let nothing = Seq::<Turn<T>>::empty();
        assert(turns + nothing =~= turns);
        assert(queue_views(queue@) =~= Seq::<Visit>::empty());
        assert(walk(start, none, turns + nothing, 0, 0) == Some(
            Ok::<Seq<(Seq<Seq<char>>, Seq<char>)>, ScanError>(visit_keys(visited@)),
        ));
        assert(key_sources(visit_keys(visited@)) =~= visited_sources(visited@));
        assert(collected_with(
            first,
            *combine,
            source_file@,
            system,
            Ok::<Seq<Seq<char>>, ScanError>(text_views(list@)),
            root,
            context0,
            turns,
        ));
    }
    Ok(list)
}

/// What is remembered of the file `path`: the first entry under that path, if
/// there is one. An entry may say that there is no such file.
pub open spec fn remembered(
    entries: Seq<(String, Option<Rc<IncludeInfo>>)>,
    path: Seq<char>,
) -> Option<Option<Rc<IncludeInfo>>>
    decreases entries.len(),
{
    if entries.len() == 0 {
        None
    } else if entries[0].0@ == path {
        Some(entries[0].1)
    } else {
        remembered(entries.skip(1), path)
    }
}

/// Remembers what `state` said of each file, so that no file is asked for
/// twice.
pub struct IncludeCacher<T: IncludeState> {
    pub state: T,
    pub cache: Vec<(String, Option<Rc<IncludeInfo>>)>,
}

/// `r` is what a cacher that was `before` says of the file at `source_file`,
/// and `after` is what it is then. A path that leads above its own start is
/// refused, and one that is remembered is answered from memory: nothing
/// changes in either case. Else the state within was asked for the canonical
/// path, as it was before, and `r` is its answer; an answer that is no error
/// is remembered behind what was remembered before.
pub open spec fn looked_up<T: IncludeState>(
    before: IncludeCacher<T>,
    after: IncludeCacher<T>,
    source_file: Seq<char>,
    r: Answer,
) -> bool {
    match normalized(source_file) {
        None => after == before && (r matches Err(ScanError::InvalidPath(path)) && path@
            == source_file),
        Some(path) => match remembered(before.cache@, path) {
            Some(known) => after == before && r == Ok::<Option<Rc<IncludeInfo>>, ScanError>(known),
            None => {
                &&& was_asked(before.state, path, r)
                &&& match r {
                    Ok(found) => {
                        &&& after.cache@.len() == before.cache@.len() + 1
                        &&& after.cache@.drop_last() == before.cache@
                        &&& after.cache@.last().0@ == path
                        &&& after.cache@.last().1 == found
                    },
                    Err(_) => after.cache@ == before.cache@,
                }
            },
        },
    }
}

impl<T: IncludeState> IncludeCacher<T> {
    pub fn new(state: T) -> (r: Self)
        ensures
            r.state == state,
            r.cache@.len() == 0,
    {
        IncludeCacher { state, cache: Vec::new() }
    }

    /// What is remembered of the file at the canonical path `path`.
    pub fn recall(&self, path: &str) -> (r: Option<Option<Rc<IncludeInfo>>>)
        ensures
            r == remembered(self.cache@, path@),
    {
        let mut i: usize = 0;
        assert(self.cache@.skip(0) =~= self.cache@);
        while i < self.cache.len()
            invariant
                i <= self.cache.len(),
                remembered(self.cache@, path@) == remembered(self.cache@.skip(i as int), path@),
            decreases self.cache.len() - i,
        {
            proof {
                assert(self.cache@.skip(i as int).skip(1) =~= self.cache@.skip(i + 1));
            }
            if text_eq(self.cache[i].0.as_str(), path) {
                return Some(
                    match &self.cache[i].1 {
                        Some(info) => Some(share(info)),
                        None => None,
                    },
                );
            }
            i += 1;
        }
        None
    }

    /// The includes of the file at `source_file`, from memory where the file
    /// was asked for before. The path is brought into its canonical form
    /// first. A file that is remembered is not asked for again: nothing
    /// changes then. Else the state within is asked for the canonical path,
    /// and its answer is handed on, and remembered where it is no error.
    pub fn lookup(&mut self, source_file: &str) -> (r: Result<Option<Rc<IncludeInfo>>, ScanError>)
        ensures
            looked_up(*old(self), *final(self), source_file@, r),
    {
        let path = match normalize_path(source_file) {
            Some(path) => path,
            None => {
                return Err(ScanError::InvalidPath(String::from_str(source_file)));
            },
        };
        match self.recall(path.as_str()) {
            Some(known) => Ok(known),
            None => {
                let ghost within = self.state;
                let answer = self.state.file_includes(path.as_str());
                assert(was_asked(within, path@, answer));
                match answer {
                    Ok(found) => {
                        let ghost before = self.cache@;
                        let kept = match &found {
                            Some(info) => Some(share(info)),
                            None => None,
                        };
                        self.cache.push((path, kept));
                        assert(self.cache@.drop_last() =~= before);
                        Ok(found)
                    },
                    Err(e) => Err(e),
                }
            },
        }
    }
}

impl<T: IncludeState> IncludeState for IncludeCacher<T> {
    fn file_includes(&mut self, source_file: &str) -> (r: Result<
        Option<Rc<IncludeInfo>>,
        ScanError,
    >)
        ensures
            looked_up(*old(self), *final(self), source_file@, r),
    {
        self.lookup(source_file)
    }
}

} // verus!
