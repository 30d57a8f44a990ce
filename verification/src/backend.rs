//! The arguments of a run of the backend of the Microsoft compiler, the
//! digest that such a run is known by, and the hook that sends a run through
//! the cache.

use vstd::prelude::*;
use vstd::string::StrSliceExecFns;
use vstd::string::StringExecFns;
use crate::cache::{
    ArtifactCache, CacheEntry, CacheKey, EntryView, KeyView, OutputView, le_bytes, md5_hex, md5_text,
    push_number,
};
use crate::compiler::OutputInfo;
use crate::compiler::{opt_view, text_views};
use crate::text::{has_prefix, join2, skip_chars, starts_with, tail, text_eq};

verus! {

/// What one run of the backend of the compiler is asked for: the files it
/// reads, the file it writes, and every other argument.
#[derive(Debug, PartialEq, Eq)]
pub struct BackendTask {
    pub inputs: Vec<String>,
    pub output: String,
    pub params: Vec<String>,
}

/// What was read of the arguments of a backend so far.
pub struct BackendView {
    pub inputs: Seq<Seq<char>>,
    pub output: Option<Seq<char>>,
    pub params: Seq<Seq<char>>,
}

/// The arguments of a backend from `pos` on, taken into what was read so far.
/// `-il` takes the next argument as the base of the three files that are
/// read: the base followed by `ex`, by `in` and by `sy`. `-MPdiagMutex` is
/// dropped with the argument behind it. `-Fo` is followed by the file that
/// is written, which may be named once. Every other argument is kept as it
/// is.
pub open spec fn backend_from(args: Seq<Seq<char>>, pos: int, read: BackendView) -> Result<
    BackendView,
    Seq<char>,
>
    decreases args.len() - pos,
{
    if !(0 <= pos < args.len()) {
        Ok(read)
    } else if args[pos] == "-il"@ {
        if pos + 1 < args.len() {
            let base = args[pos + 1];
            backend_from(
                args,
                pos + 2,
                BackendView {
                    inputs: read.inputs.push(base + "ex"@).push(base + "in"@).push(base + "sy"@),
                    ..read
                },
            )
        } else {
            Err("Can't get -il key value"@)
        }
    } else if args[pos] == "-MPdiagMutex"@ {
        if pos + 1 < args.len() {
            backend_from(args, pos + 2, read)
        } else {
            Err("Can't get -MPdiagMutex key value"@)
        }
    } else if has_prefix(args[pos], "-Fo"@) {
        if read.output is Some {
            Err("Multiple output files is not supported"@)
        } else {
            backend_from(
                args,
                pos + 1,
                BackendView { output: Some(tail(args[pos], "-Fo"@.len() as int)), ..read },
            )
        }
    } else {
        backend_from(args, pos + 1, BackendView { params: read.params.push(args[pos]), ..read })
    }
}

/// The task that the arguments of a backend ask for, the name of the program
/// being the first of them; or the message that says why there is none.
pub open spec fn backend_task_of(args: Seq<Seq<char>>) -> Result<BackendView, Seq<char>> {
    if args.len() == 0 {
        Err("Empty arguments list"@)
    } else {
        match backend_from(
            args,
            1,
            BackendView { inputs: Seq::empty(), output: None, params: Seq::empty() },
        ) {
            Err(message) => Err(message),
            Ok(read) => if read.inputs.len() == 0 {
                Err("Don't find input file list"@)
            } else if read.output is None {
                Err("Don't find output file name"@)
            } else {
                Ok(read)
            },
        }
    }
}

impl View for BackendTask {
    type V = BackendView;

    open spec fn view(&self) -> BackendView {
        BackendView {
            inputs: text_views(self.inputs@),
            output: Some(self.output@),
            params: text_views(self.params@),
        }
    }
}

/// Reads the arguments of a backend.
pub fn prepare_task(args: &Vec<String>) -> (r: Result<BackendTask, String>)
    ensures
        match r {
            Ok(task) => backend_task_of(text_views(args@)) == Ok::<BackendView, Seq<char>>(task@),
            Err(message) => backend_task_of(text_views(args@)) == Err::<BackendView, Seq<char>>(
                message@,
            ),
        },
{
    let mut inputs: Vec<String> = Vec::new();
    let mut output: Option<String> = None;
    let mut params: Vec<String> = Vec::new();
    let n = args.len();
    if n == 0 {
        return Err(String::from_str("Empty arguments list"));
    }
    let ghost texts = text_views(args@);
    let mut pos: usize = 1;
    assert(text_views(inputs@) =~= Seq::<Seq<char>>::empty());
    assert(text_views(params@) =~= Seq::<Seq<char>>::empty());
    while pos < n
        invariant
            1 <= pos <= n,
            n == args.len(),
            texts == text_views(args@),
            backend_from(
                texts,
                1,
                BackendView { inputs: Seq::empty(), output: None, params: Seq::empty() },
            ) == backend_from(
                texts,
                pos as int,
                BackendView {
                    inputs: text_views(inputs@),
                    output: opt_view(output),
                    params: text_views(params@),
                },
            ),
        decreases n - pos,
    {
        let arg = args[pos].as_str();
        assert(texts[pos as int] == arg@);
        if text_eq(arg, "-il") {
            if n - pos < 2 {
                return Err(String::from_str("Can't get -il key value"));
            }
            let base = args[pos + 1].as_str();
            assert(texts[pos + 1] == base@);
            let ghost before = text_views(inputs@);
            inputs.push(join2(base, "ex"));
            inputs.push(join2(base, "in"));
            inputs.push(join2(base, "sy"));
            assert(text_views(inputs@) =~= before.push(base@ + "ex"@).push(base@ + "in"@).push(
                base@ + "sy"@,
            ));
            pos += 2;
        } else if text_eq(arg, "-MPdiagMutex") {
            if n - pos < 2 {
                return Err(String::from_str("Can't get -MPdiagMutex key value"));
            }
            pos += 2;
        } else if starts_with(arg, "-Fo") {
            if output.is_some() {
                return Err(String::from_str("Multiple output files is not supported"));
            }
            output = Some(skip_chars(arg, "-Fo".unicode_len()));
            pos += 1;
        } else {
            let ghost before = text_views(params@);
            params.push(String::from_str(arg));
            assert(text_views(params@) =~= before.push(arg@));
            pos += 1;
        }
    }
    if inputs.len() == 0 {
        return Err(String::from_str("Don't find input file list"));
    }
    match output {
        Some(output) => Ok(BackendTask { inputs, output, params }),
        None => Err(String::from_str("Don't find output file name")),
    }
}

/// The code units of one character in UTF-16: the character itself where it
/// fits into one unit, else its two surrogates, the high one first.
pub open spec fn char_units(c: char) -> Seq<u16> {
    let n = c as u32;
    if n < 0x10000 {
        seq![n as u16]
    } else {
        seq![(0xD800 + (n - 0x10000) / 0x400) as u16, (0xDC00 + (n - 0x10000) % 0x400) as u16]
    }
}

/// The code units of `text` in UTF-16: those of its characters, in order.
pub open spec fn utf16_of(text: Seq<char>) -> Seq<u16>
    decreases text.len(),
{
    if text.len() == 0 {
        Seq::empty()
    } else {
        utf16_of(text.drop_last()) + char_units(text.last())
    }
}

/// Encodes text in UTF-16 with std's `str::encode_utf16`, which gives the
/// code units of the characters in order: one unit for a character below
/// 0x10000, else a pair of surrogates.
#[verifier::external_body]
fn utf16_units(text: &str) -> (r: Vec<u16>)
    ensures
        r@ == utf16_of(text@),
{
    text.encode_utf16().collect()
}

/// Each code unit in two bytes, the lower first.
pub open spec fn unit_bytes(units: Seq<u16>) -> Seq<u8>
    decreases units.len(),
{
    if units.len() == 0 {
        Seq::empty()
    } else {
        unit_bytes(units.drop_last()).push((units.last() % 256) as u8).push(
            (units.last() / 256) as u8,
        )
    }
}

/// The bytes that stand for a list of arguments: for each the number of its
/// code units in UTF-16 and the code units.
pub open spec fn params_bytes(params: Seq<Seq<char>>) -> Seq<u8>
    decreases params.len(),
{
    if params.len() == 0 {
        Seq::empty()
    } else {
        params_bytes(params.drop_last()) + le_bytes(utf16_of(params.last()).len(), 8) + unit_bytes(
            utf16_of(params.last()),
        )
    }
}

/// The digests of a list of files, one after the other, in the bytes of their
/// text.
pub open spec fn hashes_bytes(hashes: Seq<Seq<char>>) -> Seq<u8>
    decreases hashes.len(),
{
    if hashes.len() == 0 {
        Seq::empty()
    } else {
        hashes_bytes(hashes.drop_last()) + vstd::utf8::encode_utf8(hashes.last())
    }
}

/// The bytes whose digest a run of the backend is known by: its arguments,
/// and the digests of the files it reads, each list with its length before
/// it.
pub open spec fn backend_hash_input(params: Seq<Seq<char>>, input_hashes: Seq<Seq<char>>) -> Seq<u8> {
    le_bytes(params.len(), 8) + params_bytes(params) + le_bytes(input_hashes.len(), 8)
        + hashes_bytes(input_hashes)
}

fn push_units(out: &mut Vec<u8>, units: &Vec<u16>)
    ensures
        final(out)@ == old(out)@ + unit_bytes(units@),
{
    let ghost start = out@;
    let mut i: usize = 0;
    assert(units@.take(0) =~= Seq::<u16>::empty());
    assert(out@ =~= start + unit_bytes(units@.take(0)));
    while i < units.len()
        invariant
            i <= units.len(),
            out@ == start + unit_bytes(units@.take(i as int)),
        decreases units.len() - i,
    {
        proof {
            assert(units@.take(i + 1).drop_last() =~= units@.take(i as int));
        }
        let unit = units[i];
        out.push((unit % 256) as u8);
        out.push((unit / 256) as u8);
        assert(out@ =~= start + unit_bytes(units@.take(i + 1)));
        i += 1;
    }
    assert(units@.take(units.len() as int) =~= units@);
}

/// Makes the digest that a run of the backend is known by. `input_hashes`
/// are the digests of the files that the run reads, in the order of the task.
pub fn generate_hash(task: &BackendTask, input_hashes: &Vec<String>) -> (r: String)
    ensures
        r@ == md5_text(backend_hash_input(task@.params, text_views(input_hashes@))),
{
    let mut bytes: Vec<u8> = Vec::new();
    let ghost params = text_views(task.params@);
    let ghost hashes = text_views(input_hashes@);
    push_number(&mut bytes, task.params.len() as u64);
    let ghost head = bytes@;
    assert(head =~= le_bytes(params.len(), 8));
    let mut i: usize = 0;
    assert(params.take(0) =~= Seq::<Seq<char>>::empty());
    assert(bytes@ =~= head + params_bytes(params.take(0)));
    while i < task.params.len()
        invariant
            i <= task.params.len(),
            params == text_views(task.params@),
            bytes@ == head + params_bytes(params.take(i as int)),
        decreases task.params.len() - i,
    {
        proof {
            assert(params.take(i + 1).drop_last() =~= params.take(i as int));
            assert(params.take(i + 1).last() == task.params@[i as int]@);
        }
        let units = utf16_units(task.params[i].as_str());
        push_number(&mut bytes, units.len() as u64);
        push_units(&mut bytes, &units);
        assert(bytes@ =~= head + params_bytes(params.take(i + 1)));
        i += 1;
    }
    assert(params.take(task.params.len() as int) =~= params);
    push_number(&mut bytes, input_hashes.len() as u64);
    let ghost middle = bytes@;
    let mut j: usize = 0;
    assert(hashes.take(0) =~= Seq::<Seq<char>>::empty());
    assert(bytes@ =~= middle + hashes_bytes(hashes.take(0)));
    while j < input_hashes.len()
        invariant
            j <= input_hashes.len(),
            hashes == text_views(input_hashes@),
            bytes@ == middle + hashes_bytes(hashes.take(j as int)),
        decreases input_hashes.len() - j,
    {
        proof {
            assert(hashes.take(j + 1).drop_last() =~= hashes.take(j as int));
            assert(hashes.take(j + 1).last() == input_hashes@[j as int]@);
        }
        let ghost before = bytes@;
        let text = input_hashes[j].as_str().as_bytes();
        bytes.extend_from_slice(text);
        assert(bytes@ =~= before + text@);
        assert(bytes@ =~= middle + hashes_bytes(hashes.take(j + 1)));
        j += 1;
    }
    assert(hashes.take(input_hashes.len() as int) =~= hashes);
    assert(bytes@ =~= backend_hash_input(task@.params, text_views(input_hashes@)));
    md5_hex(bytes.as_slice())
}

/// The key under which a pass of the backend is kept: the pass is known by
/// its digest alone.
pub open spec fn pass_key_of(digest: Seq<char>) -> KeyView {
    KeyView {
        toolchain: "c2"@,
        args_hash: digest,
        preproc_hash: Seq::empty(),
        pch_hash: None,
    }
}

/// Makes the key under which a pass of the backend is kept.
pub fn pass_key(digest: String) -> (r: CacheKey)
    ensures
        r@ == pass_key_of(digest@),
{
    CacheKey {
        toolchain: String::from_str("c2"),
        args_hash: digest,
        preproc_hash: String::new(),
        pch_hash: None,
    }
}

/// What is kept of a pass of the backend that ended well: the file that it
/// wrote. A pass that did not end well is not kept.
pub open spec fn pass_entry_of(content: Seq<u8>) -> EntryView {
    EntryView {
        artifacts: seq![content],
        output: OutputView { status: Some(0i32), stdout: Seq::empty(), stderr: Seq::empty() },
    }
}

/// What is held under `key` is a pass that ended well, with the file that it
/// wrote.
pub open spec fn holds_pass(cache: Map<KeyView, EntryView>, key: KeyView) -> bool {
    cache.contains_key(key) && cache[key].output.status == Some(0i32) && cache[key].artifacts.len()
        == 1
}

/// `r` is how a pass with the key `key` ended, whose file is `output`, and
/// `after` is what the cache holds then. Where the cache holds the pass, the
/// file is put back and the pass ends well without the backend; where the file
/// cannot be put back, the backend is run, and its exit code is the result.
/// Else the backend is run, and its exit code is the result; where it ended
/// well, the file that it wrote is collected and kept under the key, if it
/// can be.
pub open spec fn pass_ended<R, C, F>(
    before: Map<KeyView, EntryView>,
    after: Map<KeyView, EntryView>,
    key: KeyView,
    output: Seq<char>,
    r: u32,
    restore: R,
    collect: C,
    original: F,
) -> bool where
    R: FnOnce(String, Vec<u8>) -> bool,
    C: FnOnce(String) -> Option<Vec<u8>>,
    F: FnOnce() -> u32,
 {
    if holds_pass(before, key) {
        exists|path: String, content: Vec<u8>, done: bool|
            {
                &&& path@ == output
                &&& content@ == before[key].artifacts[0]
                &&& #[trigger] call_ensures(restore, (path, content), done)
                &&& after == before
                &&& if done {
                    r == 0
                } else {
                    call_ensures(original, (), r)
                }
            }
    } else {
        &&& call_ensures(original, (), r)
        &&& if r != 0 {
            after == before
        } else {
            exists|path: String, got: Option<Vec<u8>>|
                {
                    &&& path@ == output
                    &&& #[trigger] call_ensures(collect, (path,), got)
                    &&& match got {
                        Some(content) => after == before.insert(key, pass_entry_of(content@)),
                        None => after == before,
                    }
                }
        }
    }
}

/// `r` is how the hook of a pass of the backend with the arguments `args`
/// ended, and `after` is what the cache holds then. Arguments that are not
/// those of a pass that can be kept have the backend run, and its exit code
/// is the result; so have files that cannot be read. Else the pass is known
/// by the digest of its arguments and of the digests of the files it reads,
/// and ends as a pass with that key does.
pub open spec fn pass_wrapped<H, R, C, F>(
    before: Map<KeyView, EntryView>,
    after: Map<KeyView, EntryView>,
    args: Seq<Seq<char>>,
    r: u32,
    hash_inputs: H,
    restore: R,
    collect: C,
    original: F,
) -> bool where
    H: FnOnce(Vec<String>) -> Option<Vec<String>>,
    R: FnOnce(String, Vec<u8>) -> bool,
    C: FnOnce(String) -> Option<Vec<u8>>,
    F: FnOnce() -> u32,
 {
    match backend_task_of(args) {
        Err(_) => call_ensures(original, (), r) && after == before,
        Ok(task) => exists|inputs: Vec<String>, hashed: Option<Vec<String>>|
            {
                &&& text_views(inputs@) == task.inputs
                &&& #[trigger] call_ensures(hash_inputs, (inputs,), hashed)
                &&& match hashed {
                    None => call_ensures(original, (), r) && after == before,
                    Some(hashes) => pass_ended(
                        before,
                        after,
                        pass_key_of(
                            md5_text(backend_hash_input(task.params, text_views(hashes@))),
                        ),
                        task.output->Some_0,
                        r,
                        restore,
                        collect,
                        original,
                    ),
                }
            },
    }
}

/// Runs a pass of the backend through the cache. `original` runs the backend
/// and gives its exit code. `hash_inputs` gives the digests of the files that
/// the pass reads, or none where they cannot be read. `restore` writes a file
/// that was kept, and tells whether it could; `collect` reads the file that
/// the backend wrote, if it can. The backend is run at most once, and where
/// it is run, its exit code is the result.
pub fn invoke_compiler_pass_wrapper<H, R, C, F>(
    cache: &mut ArtifactCache,
    args: &Vec<String>,
    hash_inputs: H,
    restore: R,
    collect: C,
    original: F,
) -> (r: u32) where
    H: FnOnce(Vec<String>) -> Option<Vec<String>>,
    R: FnOnce(String, Vec<u8>) -> bool,
    C: FnOnce(String) -> Option<Vec<u8>>,
    F: FnOnce() -> u32,

    requires
        forall|inputs: Vec<String>| call_requires(hash_inputs, (inputs,)),
        forall|path: String, content: Vec<u8>| call_requires(restore, (path, content)),
        forall|path: String| call_requires(collect, (path,)),
        call_requires(original, ()),
    ensures
        pass_wrapped(
            old(cache)@,
            final(cache)@,
            text_views(args@),
            r,
            hash_inputs,
            restore,
            collect,
            original,
        ),
{
    let task = match prepare_task(args) {
        Ok(task) => task,
        Err(_) => {
            return original();
        },
    };
    let ghost view = task@;
    let BackendTask { inputs, output, params } = task;
    let ghost handed = inputs;
    let hashed = hash_inputs(inputs);
    let hashes = match hashed {
        Some(hashes) => hashes,
        None => {
            let code = original();
            assert(call_ensures(hash_inputs, (handed,), hashed));
            return code;
        },
    };
    let known = BackendTask { inputs: Vec::new(), output, params };
    let key = pass_key(generate_hash(&known, &hashes));
    let ghost before = cache@;
    let ghost path = known.output;
    let found = cache.lookup(&key);
    let kept = match found {
        Some(entry) => if entry.output.success() && entry.artifacts.len() == 1 {
            let mut files = entry.artifacts;
            files.pop()
        } else {
            None
        },
        None => None,
    };
    match kept {
        Some(content) => {
            let ghost held = content;
            let done = restore(known.output, content);
            let code = if done {
                0
            } else {
                original()
            };
            proof {
                assert(holds_pass(before, key@));
                assert(call_ensures(restore, (path, held), done));
                assert(pass_ended(before, cache@, key@, view.output->Some_0, code, restore, collect, original));
                assert(call_ensures(hash_inputs, (handed,), hashed));
            }
            code
        },
        None => {
            let code = original();
            if code == 0 {
                let got = collect(known.output);
                match got {
                    Some(content) => {
                        let ghost held = content@;
                        let mut artifacts: Vec<Vec<u8>> = Vec::new();
                        artifacts.push(content);
                        let entry = CacheEntry {
                            artifacts,
                            output: OutputInfo { status: Some(0), stdout: Vec::new(), stderr: Vec::new() },
                        };
                        assert(entry@ =~= pass_entry_of(held)) by {
                            assert(entry@.artifacts =~= seq![held]);
                            assert(entry@.output.stdout =~= Seq::<u8>::empty());
                            assert(entry@.output.stderr =~= Seq::<u8>::empty());
                        }
                        cache.insert(key, entry);
                    },
                    None => {},
                }
                proof {
                    assert(!holds_pass(before, key@));
                    assert(call_ensures(collect, (path,), got));
                    assert(pass_ended(before, cache@, key@, view.output->Some_0, code, restore, collect, original));
                    assert(call_ensures(hash_inputs, (handed,), hashed));
                }
            } else {
                proof {
                    assert(!holds_pass(before, key@));
                    assert(pass_ended(before, cache@, key@, view.output->Some_0, code, restore, collect, original));
                    assert(call_ensures(hash_inputs, (handed,), hashed));
                }
            }
            code
        },
    }
}

} // verus!
