//! The cache of compile steps: the key of a step, the entries that are kept
//! under keys, and what a build of several sources ends with.

use crypto::digest::Digest;
use crypto::md5::Md5;
use vstd::prelude::*;
use vstd::slice::slice_to_vec;
use vstd::utf8::encode_utf8;
use crate::compiler::{CompileStep, OutputInfo, text_views};

verus! {

/// The MD5 digest of `data`, in 32 small digits of base 16.
pub uninterp spec fn md5_text(data: Seq<u8>) -> Seq<char>;

/// Computes the MD5 digest of `data` with `Md5::new`, `input` and
/// `result_str` of the crate rust-crypto. The digest is a function of the
/// data; the contract gives it a name and says no more.
#[verifier::external_body]
pub(crate) fn md5_hex(data: &[u8]) -> (r: String)
    ensures
        r@ == md5_text(data@),
{
    let mut hasher = Md5::new();
    hasher.input(data);
    hasher.result_str()
}

/// The number `n` in `width` bytes, the lowest first.
pub open spec fn le_bytes(n: nat, width: nat) -> Seq<u8>
    decreases width,
{
    if width == 0 {
        Seq::empty()
    } else {
        seq![(n % 256) as u8] + le_bytes(n / 256, (width - 1) as nat)
    }
}

/// The bytes that stand for a list of texts: the number of texts, then each
/// text as the number of its bytes and its bytes in UTF-8; each number in
/// eight bytes, the lowest first.
pub open spec fn encoded_texts(items: Seq<Seq<char>>) -> Seq<u8> {
    le_bytes(items.len(), 8) + encoded_each(items)
}

/// Each text as the number of its bytes and its bytes in UTF-8.
pub open spec fn encoded_each(items: Seq<Seq<char>>) -> Seq<u8>
    decreases items.len(),
{
    if items.len() == 0 {
        Seq::empty()
    } else {
        encoded_each(items.drop_last()) + le_bytes(encode_utf8(items.last()).len(), 8)
            + encode_utf8(items.last())
    }
}

/// Puts the number `n` behind `out`, in eight bytes, the lowest first.
pub(crate) fn push_number(out: &mut Vec<u8>, n: u64)
    ensures
        final(out)@ == old(out)@ + le_bytes(n as nat, 8),
{
    let mut left: u64 = n;
    let mut i: usize = 0;
    let ghost start = out@;
    let ghost mut done: Seq<u8> = Seq::empty();
    assert(out@ =~= start + done);
    while i < 8
        invariant
            i <= 8,
            out@ == start + done,
            done + le_bytes(left as nat, (8 - i) as nat) == le_bytes(n as nat, 8),
        decreases 8 - i,
    {
        let byte = (left % 256) as u8;
        proof {
            assert(le_bytes(left as nat, (8 - i) as nat) == seq![byte] + le_bytes(
                (left / 256) as nat,
                (8 - i - 1) as nat,
            ));
            assert(done.push(byte) + le_bytes((left / 256) as nat, (8 - i - 1) as nat) =~= done + (
            seq![byte] + le_bytes((left / 256) as nat, (8 - i - 1) as nat)));
            done = done.push(byte);
        }
        out.push(byte);
        assert(out@ =~= start + done);
        left = left / 256;
        i += 1;
    }
    assert(le_bytes(left as nat, 0) =~= Seq::<u8>::empty());
    assert(done + Seq::<u8>::empty() =~= done);
}

/// Writes out the bytes that stand for a list of texts.
pub fn encode_texts(items: &Vec<String>) -> (r: Vec<u8>)
    ensures
        r@ == encoded_texts(text_views(items@)),
{
    let mut out: Vec<u8> = Vec::new();
    let ghost views = text_views(items@);
    push_number(&mut out, items.len() as u64);
    let ghost head = out@;
    assert(head =~= le_bytes(views.len(), 8));
    let mut i: usize = 0;
    assert(views.take(0) =~= Seq::<Seq<char>>::empty());
    assert(out@ =~= head + encoded_each(views.take(0)));
    while i < items.len()
        invariant
            i <= items.len(),
            views == text_views(items@),
            out@ == head + encoded_each(views.take(i as int)),
        decreases items.len() - i,
    {
        let ghost before = out@;
        let bytes = items[i].as_str().as_bytes();
        proof {
            assert(views.take(i + 1).drop_last() =~= views.take(i as int));
            assert(views.take(i + 1).last() == items@[i as int]@);
        }
        push_number(&mut out, bytes.len() as u64);
        let ghost middle = out@;
        out.extend_from_slice(bytes);
        assert(out@ =~= middle + bytes@);
        assert(out@ =~= head + encoded_each(views.take(i + 1)));
        i += 1;
    }
    assert(views.take(items.len() as int) =~= views);
    out
}

/// What the result of a compile step is known by: the toolchain, and the
/// digests of the arguments of the step, of the preprocessed source and of
/// the precompiled header that the step reads, where it reads one.
#[derive(Clone, Debug, PartialEq, Eq)]
pub struct CacheKey {
    pub toolchain: String,
    pub args_hash: String,
    pub preproc_hash: String,
    pub pch_hash: Option<String>,
}

/// The mathematical value of a [`CacheKey`].
pub struct KeyView {
    pub toolchain: Seq<char>,
    pub args_hash: Seq<char>,
    pub preproc_hash: Seq<char>,
    pub pch_hash: Option<Seq<char>>,
}

impl View for CacheKey {
    type V = KeyView;

    open spec fn view(&self) -> KeyView {
        KeyView {
            toolchain: self.toolchain@,
            args_hash: self.args_hash@,
            preproc_hash: self.preproc_hash@,
            pch_hash: crate::compiler::opt_view(self.pch_hash),
        }
    }
}

/// The key of a compile step: a function of the toolchain, the arguments, the
/// preprocessed source and the precompiled header, and of nothing else.
pub open spec fn key_of(
    toolchain: Seq<char>,
    args: Seq<Seq<char>>,
    preprocessed: Seq<u8>,
    precompiled: Option<Seq<u8>>,
) -> KeyView {
    KeyView {
        toolchain,
        args_hash: md5_text(encoded_texts(args)),
        preproc_hash: md5_text(preprocessed),
        pch_hash: match precompiled {
            Some(content) => Some(md5_text(content)),
            None => None,
        },
    }
}

/// The value of optional bytes.
pub open spec fn opt_content(item: Option<Vec<u8>>) -> Option<Seq<u8>> {
    match item {
        Some(v) => Some(v@),
        None => None,
    }
}

/// Makes the key of a compile step. `precompiled` is what the precompiled
/// header that the step reads holds.
pub fn cache_key(toolchain: &str, step: &CompileStep, precompiled: &Option<Vec<u8>>) -> (r: CacheKey)
    ensures
        r@ == key_of(toolchain@, text_views(step.args@), step.preprocessed@, opt_content(*precompiled)),
{
    let encoded = encode_texts(&step.args);
    CacheKey {
        toolchain: toolchain.to_owned(),
        args_hash: md5_hex(encoded.as_slice()),
        preproc_hash: md5_hex(step.preprocessed.as_slice()),
        pch_hash: match precompiled {
            Some(content) => Some(md5_hex(content.as_slice())),
            None => None,
        },
    }
}

/// What a compile step left behind: the files it wrote, and what the backend
/// said.
#[derive(Clone, Debug, PartialEq, Eq)]
pub struct CacheEntry {
    pub artifacts: Vec<Vec<u8>>,
    pub output: OutputInfo,
}

/// The mathematical value of what a backend said.
pub struct OutputView {
    pub status: Option<i32>,
    pub stdout: Seq<u8>,
    pub stderr: Seq<u8>,
}

/// The mathematical value of a [`CacheEntry`].
pub struct EntryView {
    pub artifacts: Seq<Seq<u8>>,
    pub output: OutputView,
}

/// The value of what a backend said.
pub open spec fn output_view(output: OutputInfo) -> OutputView {
    OutputView { status: output.status, stdout: output.stdout@, stderr: output.stderr@ }
}

/// The values of a list of files, in order.
pub open spec fn file_views(files: Seq<Vec<u8>>) -> Seq<Seq<u8>> {
    Seq::new(files.len(), |i: int| files[i]@)
}

impl View for CacheEntry {
    type V = EntryView;

    open spec fn view(&self) -> EntryView {
        EntryView { artifacts: file_views(self.artifacts@), output: output_view(self.output) }
    }
}

/// What a list of entries holds: for each key the entry that was put under it
/// last.
pub open spec fn held(entries: Seq<(CacheKey, CacheEntry)>) -> Map<KeyView, EntryView>
    decreases entries.len(),
{
    if entries.len() == 0 {
        Map::empty()
    } else {
        held(entries.drop_last()).insert(entries.last().0@, entries.last().1@)
    }
}

/// The results of compile steps, each under its key.
#[derive(Debug, PartialEq, Eq)]
pub struct ArtifactCache {
    pub entries: Vec<(CacheKey, CacheEntry)>,
}

impl View for ArtifactCache {
    type V = Map<KeyView, EntryView>;

    open spec fn view(&self) -> Map<KeyView, EntryView> {
        held(self.entries@)
    }
}

fn same_text(a: &String, b: &String) -> (r: bool)
    ensures
        r == (a@ == b@),
{
    crate::text::text_eq(a.as_str(), b.as_str())
}

fn same_key(a: &CacheKey, b: &CacheKey) -> (r: bool)
    ensures
        r == (a@ == b@),
{
    let same_pch = match (&a.pch_hash, &b.pch_hash) {
        (Some(x), Some(y)) => same_text(x, y),
        (None, None) => true,
        _ => false,
    };
    same_text(&a.toolchain, &b.toolchain) && same_text(&a.args_hash, &b.args_hash) && same_text(
        &a.preproc_hash,
        &b.preproc_hash,
    ) && same_pch
}

fn copy_key(key: &CacheKey) -> (r: CacheKey)
    ensures
        r@ == key@,
{
    CacheKey {
        toolchain: key.toolchain.clone(),
        args_hash: key.args_hash.clone(),
        preproc_hash: key.preproc_hash.clone(),
        pch_hash: match &key.pch_hash {
            Some(text) => Some(text.clone()),
            None => None,
        },
    }
}

fn copy_bytes(bytes: &Vec<u8>) -> (r: Vec<u8>)
    ensures
        r@ == bytes@,
{
    slice_to_vec(bytes.as_slice())
}

fn copy_entry(entry: &CacheEntry) -> (r: CacheEntry)
    ensures
        r@ == entry@,
{
    let mut artifacts: Vec<Vec<u8>> = Vec::new();
    let mut i: usize = 0;
    while i < entry.artifacts.len()
        invariant
            i <= entry.artifacts.len(),
            artifacts@.len() == i,
            forall|j: int| 0 <= j < i ==> artifacts@[j]@ == entry.artifacts@[j]@,
        decreases entry.artifacts.len() - i,
    {
        artifacts.push(copy_bytes(&entry.artifacts[i]));
        i += 1;
    }
    assert(file_views(artifacts@) =~= file_views(entry.artifacts@));
    CacheEntry {
        artifacts,
        output: OutputInfo {
            status: entry.output.status,
            stdout: copy_bytes(&entry.output.stdout),
            stderr: copy_bytes(&entry.output.stderr),
        },
    }
}

impl ArtifactCache {
    pub fn new() -> (r: Self)
        ensures
            r@ == Map::<KeyView, EntryView>::empty(),
    {
        ArtifactCache { entries: Vec::new() }
    }

    /// Gives what is held under `key`: a hit with the files and the output as
    /// they were put in, or a miss.
    pub fn lookup(&self, key: &CacheKey) -> (r: Option<CacheEntry>)
        ensures
            match r {
                Some(entry) => self@.contains_key(key@) && self@[key@] == entry@,
                None => !self@.contains_key(key@),
            },
    {
        let n = self.entries.len();
        let mut i: usize = n;
        assert(self.entries@.take(n as int) =~= self.entries@);
        while i > 0
            invariant
                i <= n,
                n == self.entries.len(),
                self@.contains_key(key@) == held(self.entries@.take(i as int)).contains_key(key@),
                self@.contains_key(key@) ==> self@[key@] == held(self.entries@.take(i as int))[key@],
            decreases i,
        {
            proof {
                assert(self.entries@.take(i as int).drop_last() =~= self.entries@.take(i - 1));
                assert(self.entries@.take(i as int).last() == self.entries@[i - 1]);
            }
            if same_key(&self.entries[i - 1].0, key) {
                return Some(copy_entry(&self.entries[i - 1].1));
            }
            i -= 1;
        }
        assert(self.entries@.take(0) =~= Seq::<(CacheKey, CacheEntry)>::empty());
        None
    }

    /// Lists the keys under which something is held: every such key, and no
    /// other.
    pub fn keys(&self) -> (r: Vec<CacheKey>)
        ensures
            forall|key: KeyView|
                #![trigger self@.contains_key(key)]
                self@.contains_key(key) <==> exists|i: int|
                    0 <= i < r@.len() && (#[trigger] r@[i])@ == key,
    {
        let mut found: Vec<CacheKey> = Vec::new();
        let n = self.entries.len();
        let mut i: usize = 0;
        assert(self.entries@.take(0) =~= Seq::<(CacheKey, CacheEntry)>::empty());
        while i < n
            invariant
                i <= n,
                n == self.entries.len(),
                found@.len() == i,
                forall|j: int| 0 <= j < i ==> (#[trigger] found@[j])@ == self.entries@[j].0@,
                forall|key: KeyView|
                    #![trigger held(self.entries@.take(i as int)).contains_key(key)]
                    held(self.entries@.take(i as int)).contains_key(key) <==> exists|j: int|
                        0 <= j < i && (#[trigger] found@[j])@ == key,
            decreases n - i,
        {
            let ghost before = found@;
            let ghost now = self.entries@[i as int].0@;
            proof {
                assert(self.entries@.take(i + 1).drop_last() =~= self.entries@.take(i as int));
                assert(self.entries@.take(i + 1).last() == self.entries@[i as int]);
            }
            found.push(copy_key(&self.entries[i].0));
            proof {
                assert forall|key: KeyView|
                    #![trigger held(self.entries@.take(i + 1)).contains_key(key)]
                    held(self.entries@.take(i + 1)).contains_key(key) <==> exists|j: int|
                        0 <= j < i + 1 && (#[trigger] found@[j])@ == key by {
                    if held(self.entries@.take(i + 1)).contains_key(key) {
                        if key == now {
                            assert(found@[i as int]@ == key);
                        } else {
                            assert(held(self.entries@.take(i as int)).contains_key(key));
                            let j = choose|j: int| 0 <= j < i && (#[trigger] before[j])@ == key;
                            assert(found@[j]@ == key);
                        }
                    }
                    if exists|j: int| 0 <= j < i + 1 && (#[trigger] found@[j])@ == key {
                        let j = choose|j: int| 0 <= j < i + 1 && (#[trigger] found@[j])@ == key;
                        if j < i {
                            assert(before[j]@ == key);
                            assert(held(self.entries@.take(i as int)).contains_key(key));
                        }
                    }
                }
            }
            i += 1;
        }
        assert(self.entries@.take(n as int) =~= self.entries@);
        found
    }

    /// Takes away what is held under `key`.
    pub fn delete(&mut self, key: &CacheKey)
        ensures
            final(self)@ == old(self)@.remove(key@),
    {
        let mut kept: Vec<(CacheKey, CacheEntry)> = Vec::new();
        let n = self.entries.len();
        let mut i: usize = 0;
        assert(self.entries@.take(0) =~= Seq::<(CacheKey, CacheEntry)>::empty());
        assert(held(kept@) =~= held(self.entries@.take(0)).remove(key@));
        while i < n
            invariant
                i <= n,
                n == self.entries.len(),
                self.entries == old(self).entries,
                held(kept@) == held(self.entries@.take(i as int)).remove(key@),
            decreases n - i,
        {
            proof {
                assert(self.entries@.take(i + 1).drop_last() =~= self.entries@.take(i as int));
                assert(self.entries@.take(i + 1).last() == self.entries@[i as int]);
            }
            if !same_key(&self.entries[i].0, key) {
                let ghost before = kept@;
                let k = copy_key(&self.entries[i].0);
                let e = copy_entry(&self.entries[i].1);
                kept.push((k, e));
                assert(kept@.drop_last() =~= before);
                assert(held(kept@) =~= held(self.entries@.take(i + 1)).remove(key@));
            } else {
                assert(held(kept@) =~= held(self.entries@.take(i + 1)).remove(key@));
            }
            i += 1;
        }
        assert(self.entries@.take(n as int) =~= self.entries@);
        self.entries = kept;
    }

    /// Puts `entry` under `key`, in the place of what was held there.
    pub fn insert(&mut self, key: CacheKey, entry: CacheEntry)
        ensures
            final(self)@ == old(self)@.insert(key@, entry@),
    {
        self.delete(&key);
        let ghost before = self.entries@;
        self.entries.push((key, entry));
        assert(self.entries@.drop_last() =~= before);
        assert(self@ =~= old(self)@.insert(key@, entry@));
    }

    /// Gives the result of the compile step with the key `key`: what is held
    /// under the key where there is a hit, and nothing else happens then;
    /// else what `build` makes, which is put under the key where the backend
    /// ended well. An error of `build` is handed on, and nothing is held of
    /// it.
    pub fn run_cached<E, F: FnOnce() -> Result<CacheEntry, E>>(&mut self, key: CacheKey, build: F) -> (r:
        Result<CacheEntry, E>)
        requires
            !old(self)@.contains_key(key@) ==> call_requires(build, ()),
        ensures
            if old(self)@.contains_key(key@) {
                final(self)@ == old(self)@ && (match r {
                    Ok(entry) => entry@ == old(self)@[key@],
                    Err(_) => false,
                })
            } else {
                match r {
                    Ok(entry) => call_ensures(build, (), Ok::<CacheEntry, E>(entry)) && final(self)@
                        == (if entry.output.succeeded() {
                        old(self)@.insert(key@, entry@)
                    } else {
                        old(self)@
                    }),
                    Err(e) => call_ensures(build, (), Err::<CacheEntry, E>(e)) && final(self)@
                        == old(self)@,
                }
            },
    {
        match self.lookup(&key) {
            Some(hit) => Ok(hit),
            None => match build() {
                Ok(entry) => {
                    if entry.output.success() {
                        let kept = copy_entry(&entry);
                        self.insert(key, kept);
                    }
                    Ok(entry)
                },
                Err(e) => Err(e),
            },
        }
    }
}

/// The exit code that stands for what a backend ended with: its own exit code,
/// or 1 where it ended without one.
pub open spec fn code_of(status: Option<i32>) -> i32 {
    match status {
        Some(code) => code,
        None => 1,
    }
}

/// The exit code of a build, from what the backends of its sources ended
/// with, in the order of the sources: that of the first backend that failed,
/// or 0 where none did.
pub open spec fn exit_code_of(outputs: Seq<OutputInfo>) -> i32
    decreases outputs.len(),
{
    if outputs.len() == 0 {
        0
    } else if exit_code_of(outputs.drop_last()) != 0 {
        exit_code_of(outputs.drop_last())
    } else {
        code_of(outputs.last().status)
    }
}

/// The standard outputs of the backends, one after the other.
pub open spec fn all_stdout(outputs: Seq<OutputInfo>) -> Seq<u8>
    decreases outputs.len(),
{
    if outputs.len() == 0 {
        Seq::empty()
    } else {
        all_stdout(outputs.drop_last()) + outputs.last().stdout@
    }
}

/// The error outputs of the backends, one after the other.
pub open spec fn all_stderr(outputs: Seq<OutputInfo>) -> Seq<u8>
    decreases outputs.len(),
{
    if outputs.len() == 0 {
        Seq::empty()
    } else {
        all_stderr(outputs.drop_last()) + outputs.last().stderr@
    }
}

/// Tells the exit code of a build.
pub fn exit_code(outputs: &Vec<OutputInfo>) -> (r: i32)
    ensures
        r == exit_code_of(outputs@),
{
    let mut i: usize = 0;
    assert(outputs@.take(0) =~= Seq::<OutputInfo>::empty());
    while i < outputs.len()
        invariant
            i <= outputs.len(),
            exit_code_of(outputs@.take(i as int)) == 0,
        decreases outputs.len() - i,
    {
        proof {
            assert(outputs@.take(i + 1).drop_last() =~= outputs@.take(i as int));
        }
        let code = match outputs[i].status {
            Some(code) => code,
            None => 1,
        };
        if code != 0 {
            proof {
                lemma_failure_stays(outputs@, i + 1);
            }
            return code;
        }
        i += 1;
    }
    assert(outputs@.take(outputs.len() as int) =~= outputs@);
    0
}

/// The exit code of a beginning of a build that failed is that of the whole.
pub proof fn lemma_failure_stays(outputs: Seq<OutputInfo>, upto: int)
    requires
        0 <= upto <= outputs.len(),
        exit_code_of(outputs.take(upto)) != 0,
    ensures
        exit_code_of(outputs) == exit_code_of(outputs.take(upto)),
    decreases outputs.len() - upto,
{
    if upto < outputs.len() {
        assert(outputs.take(upto + 1).drop_last() =~= outputs.take(upto));
        lemma_failure_stays(outputs, upto + 1);
    } else {
        assert(outputs.take(upto) =~= outputs);
    }
}

/// Puts what the backends of the sources of a build said into one answer, in
/// the order of the sources.
pub fn merge_outputs(outputs: &Vec<OutputInfo>) -> (r: OutputInfo)
    ensures
        r.status == Some(exit_code_of(outputs@)),
        r.stdout@ == all_stdout(outputs@),
        r.stderr@ == all_stderr(outputs@),
{
    let mut stdout: Vec<u8> = Vec::new();
    let mut stderr: Vec<u8> = Vec::new();
    let mut i: usize = 0;
    assert(outputs@.take(0) =~= Seq::<OutputInfo>::empty());
    while i < outputs.len()
        invariant
            i <= outputs.len(),
            stdout@ == all_stdout(outputs@.take(i as int)),
            stderr@ == all_stderr(outputs@.take(i as int)),
        decreases outputs.len() - i,
    {
        proof {
            assert(outputs@.take(i + 1).drop_last() =~= outputs@.take(i as int));
        }
        let ghost out_before = stdout@;
        let ghost err_before = stderr@;
        stdout.extend_from_slice(outputs[i].stdout.as_slice());
        stderr.extend_from_slice(outputs[i].stderr.as_slice());
        assert(stdout@ =~= out_before + outputs@[i as int].stdout@);
        assert(stderr@ =~= err_before + outputs@[i as int].stderr@);
        i += 1;
    }
    assert(outputs@.take(outputs.len() as int) =~= outputs@);
    OutputInfo { status: Some(exit_code(outputs)), stdout, stderr }
}

} // verus!
