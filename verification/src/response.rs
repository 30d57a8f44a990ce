//! Response files: the arguments that one holds, and the loader that puts
//! them into a command line.

use vstd::prelude::*;
use vstd::string::StrSliceExecFns;
use vstd::string::StringExecFns;
use crate::compiler::{opt_view, text_views};
use crate::paths::{joined_path, path_join};
use crate::text::{has_prefix, skip_chars, starts_with, tail};

verus! {

/// A blank, a tab, a carriage return or a line feed: what parts one argument
/// of a response file from the next.
pub open spec fn is_gap(c: char) -> bool {
    c == ' ' || c == '\t' || c == '\r' || c == '\n'
}

/// The arguments of a response file from `pos` on. `current` is what was read
/// of the argument at hand, of which `started` says whether there is one;
/// `quoted` says whether a double quote is open. Gaps part the arguments. A
/// double quote opens or closes a stretch in which gaps are taken as they
/// stand; the quote itself is dropped. A backslash before a double quote
/// leaves the quote to be taken as it stands; every other backslash stands for
/// itself. A stretch that is still open at the end of the text ends there.
pub open spec fn tokens_from(
    text: Seq<char>,
    pos: int,
    current: Seq<char>,
    started: bool,
    quoted: bool,
) -> Seq<Seq<char>>
    decreases text.len() - pos,
{
    if !(0 <= pos < text.len()) {
        if started {
            seq![current]
        } else {
            Seq::empty()
        }
    } else if text[pos] == '\\' && pos + 1 < text.len() && text[pos + 1] == '"' {
        tokens_from(text, pos + 2, current.push('"'), true, quoted)
    } else if text[pos] == '"' {
        tokens_from(text, pos + 1, current, true, !quoted)
    } else if !quoted && is_gap(text[pos]) {
        if started {
            seq![current] + tokens_from(text, pos + 1, Seq::empty(), false, false)
        } else {
            tokens_from(text, pos + 1, Seq::empty(), false, false)
        }
    } else {
        tokens_from(text, pos + 1, current.push(text[pos]), true, quoted)
    }
}

/// The arguments that a response file holds.
pub open spec fn tokens(text: Seq<char>) -> Seq<Seq<char>> {
    tokens_from(text, 0, Seq::empty(), false, false)
}

fn gap(c: char) -> (r: bool)
    ensures
        r == is_gap(c),
{
    c == ' ' || c == '\t' || c == '\r' || c == '\n'
}

/// Reads the arguments that a response file holds.
pub fn parse_response(text: &str) -> (r: Vec<String>)
    ensures
        text_views(r@) == tokens(text@),
{
    let n = text.unicode_len();
    let mut args: Vec<String> = Vec::new();
    let mut current = String::new();
    let mut started = false;
    let mut quoted = false;
    let mut pos: usize = 0;
    proof {
        reveal_strlit("\"");
        assert(text_views(args@) =~= Seq::<Seq<char>>::empty());
    }
    while pos < n
        invariant
            pos <= n,
            n == text@.len(),
            "\""@ == seq!['"'],
            !started ==> current@ == Seq::<char>::empty(),
            tokens(text@) == text_views(args@) + tokens_from(
                text@,
                pos as int,
                current@,
                started,
                quoted,
            ),
        decreases n - pos,
    {
        let c = text.get_char(pos);
        if c == '\\' && n - pos > 1 && text.get_char(pos + 1) == '"' {
            let ghost before = current@;
            current.append("\"");
            assert(current@ =~= before.push('"'));
            started = true;
            pos += 2;
        } else if c == '"' {
            started = true;
            quoted = !quoted;
            pos += 1;
        } else if !quoted && gap(c) {
            let ghost before = text_views(args@);
            let ghost rest = tokens_from(text@, pos + 1, Seq::empty(), false, false);
            if started {
                let ghost word = current@;
                assert(tokens(text@) == before + (seq![word] + rest));
                args.push(current);
                assert(text_views(args@) =~= before.push(word));
                assert(before.push(word) + rest =~= before + (seq![word] + rest));
                current = String::new();
                started = false;
            } else {
                assert(tokens(text@) == before + rest);
            }
            pos += 1;
        } else {
            let ghost before = current@;
            current.append(text.substring_char(pos, pos + 1));
            assert(current@ =~= before.push(c)) by {
                assert(text@.subrange(pos as int, pos + 1) =~= seq![c]);
            }
            started = true;
            pos += 1;
        }
    }
    if started {
        let ghost before = text_views(args@);
        args.push(current);
        assert(text_views(args@) =~= before.push(current@));
    }
    assert(tokens(text@) =~= text_views(args@));
    args
}

/// The argument names a response file: it opens with `@`.
pub open spec fn names_response(arg: Seq<char>) -> bool {
    has_prefix(arg, "@"@)
}

/// The path of the response file that `arg` names, seen from `base`.
pub open spec fn response_path(base: Option<Seq<char>>, arg: Seq<char>) -> Seq<char> {
    match base {
        Some(dir) => joined_path(dir, tail(arg, "@"@.len() as int)),
        None => tail(arg, "@"@.len() as int),
    }
}

/// How many of the arguments from `from` on name no response file, up to the
/// first that does.
pub open spec fn plain_run(args: Seq<Seq<char>>, from: int) -> int
    decreases args.len() - from,
{
    if 0 <= from < args.len() && !names_response(args[from]) {
        1 + plain_run(args, from + 1)
    } else {
        0
    }
}

/// Brings a command line into the form in which it is classified: each
/// argument that names a response file gives way to the arguments that the
/// file holds, which may name response files again. Reading the files is left
/// to the caller, who is told which file is wanted next.
pub struct ArgumentLoader {
    /// The directory from which the paths of response files are seen.
    pub base: Option<String>,
    /// The arguments that are still to be looked at, in order.
    pub pending: Vec<String>,
    /// The arguments that are final, in order.
    pub loaded: Vec<String>,
    /// How many response files may still be asked for.
    pub budget: usize,
}

/// How many response files one command line may lead to. A file that names
/// itself would be asked for without end.
pub const RESPONSE_FILES_LIMIT: usize = 4096;

/// What the loader wants next.
#[derive(Debug, PartialEq, Eq)]
pub enum LoadStep {
    /// The text of the response file at this path.
    Read(String),
    /// Nothing: these are the arguments.
    Done(Vec<String>),
    /// Nothing: the command line leads to more response files than one may.
    TooMany,
}

impl ArgumentLoader {
    pub fn new(base: Option<String>, args: Vec<String>) -> (r: Self)
        ensures
            r.base == base,
            r.pending == args,
            r.loaded@.len() == 0,
            r.budget == RESPONSE_FILES_LIMIT,
    {
        ArgumentLoader { base, pending: args, loaded: Vec::new(), budget: RESPONSE_FILES_LIMIT }
    }

    /// Takes the arguments that name no response file over as they are, up to
    /// the first that names one, and asks for that file; tells the arguments
    /// where none is left to look at. The arguments are handed out once: the
    /// loader is empty after that. Each file that is asked for is counted, and
    /// none is asked for once `RESPONSE_FILES_LIMIT` were: the argument that
    /// names it is left where it is.
    pub fn next(&mut self) -> (r: LoadStep)
        ensures
            final(self).base == old(self).base,
            ({
                let pending = text_views(old(self).pending@);
                let run = plain_run(pending, 0);
                let taken = text_views(old(self).loaded@) + pending.subrange(0, run);
                &&& 0 <= run <= pending.len()
                &&& match r {
                    LoadStep::Read(path) => {
                        &&& run < pending.len()
                        &&& old(self).budget > 0
                        &&& final(self).budget == old(self).budget - 1
                        &&& path@ == response_path(opt_view(old(self).base), pending[run])
                        &&& text_views(final(self).loaded@) == taken
                        &&& text_views(final(self).pending@) == pending.subrange(
                            run + 1,
                            pending.len() as int,
                        )
                    },
                    LoadStep::Done(args) => {
                        &&& run == pending.len()
                        &&& final(self).budget == old(self).budget
                        &&& text_views(args@) == taken
                        &&& final(self).loaded@.len() == 0
                        &&& final(self).pending@.len() == 0
                    },
                    LoadStep::TooMany => {
                        &&& run < pending.len()
                        &&& old(self).budget == 0
                        &&& final(self).budget == 0
                        &&& text_views(final(self).loaded@) == taken
                        &&& text_views(final(self).pending@) == pending.subrange(
                            run,
                            pending.len() as int,
                        )
                    },
                }
            }),
    {
        let ghost pending = text_views(self.pending@);
        let ghost start = text_views(self.loaded@);
        let n = self.pending.len();
        let mut i: usize = 0;
        assert(pending.subrange(0, 0) =~= Seq::<Seq<char>>::empty());
        assert(start + pending.subrange(0, 0) =~= start);
        while i < n && !starts_with(self.pending[i].as_str(), "@")
            invariant
                i <= n,
                n == self.pending.len(),
                self.base == old(self).base,
                self.budget == old(self).budget,
                self.pending == old(self).pending,
                pending == text_views(self.pending@),
                plain_run(pending, 0) == i + plain_run(pending, i as int),
                text_views(self.loaded@) == start + pending.subrange(0, i as int),
            decreases n - i,
        {
            let ghost before = text_views(self.loaded@);
            self.loaded.push(self.pending[i].clone());
            assert(text_views(self.loaded@) =~= before.push(pending[i as int]));
            assert(text_views(self.loaded@) =~= start + pending.subrange(0, i + 1));
            i += 1;
        }
        if i == n {
            let mut args: Vec<String> = Vec::new();
            std::mem::swap(&mut args, &mut self.loaded);
            self.pending = Vec::new();
            LoadStep::Done(args)
        } else if self.budget == 0 {
            let rest = self.pending.split_off(i);
            assert(text_views(rest@) =~= pending.subrange(i as int, pending.len() as int));
            self.pending = rest;
            LoadStep::TooMany
        } else {
            self.budget = self.budget - 1;
            let name = skip_chars(self.pending[i].as_str(), "@".unicode_len());
            let path = match &self.base {
                Some(dir) => path_join(dir.as_str(), name.as_str()),
                None => name,
            };
            let rest = self.pending.split_off(i + 1);
            assert(text_views(rest@) =~= pending.subrange(i + 1, pending.len() as int));
            self.pending = rest;
            LoadStep::Read(path)
        }
    }

    /// Takes the text of the response file that was asked for: the arguments
    /// that it holds are looked at next, before those that were pending.
    pub fn supply(&mut self, text: &str)
        ensures
            final(self).base == old(self).base,
            final(self).budget == old(self).budget,
            final(self).loaded == old(self).loaded,
            text_views(final(self).pending@) == tokens(text@) + text_views(old(self).pending@),
    {
        let mut held = parse_response(text);
        let ghost first = text_views(held@);
        let ghost second = text_views(self.pending@);
        held.append(&mut self.pending);
        assert(text_views(held@) =~= first + second);
        self.pending = held;
    }
}

} // verus!
