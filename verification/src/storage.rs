//! The bytes in which an entry of the cache is kept in a file.

use vstd::prelude::*;
use vstd::slice::{slice_subrange, slice_to_vec};
use crate::cache::{
    CacheEntry, CacheKey, EntryView, KeyView, OutputView, encode_texts, encoded_texts, file_views,
    le_bytes, md5_hex, md5_text, push_number,
};
use crate::compiler::{OutputInfo, text_views};
use crate::text::join2;

verus! {

/// The texts that a key is made of, in order; a key without the digest of a
/// precompiled header has three, one with it four.
pub open spec fn key_texts(key: KeyView) -> Seq<Seq<char>> {
    match key.pch_hash {
        Some(hash) => seq![key.toolchain, key.args_hash, key.preproc_hash, hash],
        None => seq![key.toolchain, key.args_hash, key.preproc_hash],
    }
}

/// The name of the file that holds what is kept under a key: the digest of
/// the texts of the key, and `.entry`.
pub open spec fn entry_name(key: KeyView) -> Seq<char> {
    md5_text(encoded_texts(key_texts(key))) + ".entry"@
}

/// Tells the name of the file that holds what is kept under a key.
pub fn entry_file_name(key: &CacheKey) -> (r: String)
    ensures
        r@ == entry_name(key@),
{
    let mut texts: Vec<String> = Vec::new();
    texts.push(key.toolchain.clone());
    texts.push(key.args_hash.clone());
    texts.push(key.preproc_hash.clone());
    match &key.pch_hash {
        Some(hash) => {
            texts.push(hash.clone());
        },
        None => {},
    }
    assert(text_views(texts@) =~= key_texts(key@));
    let encoded = encode_texts(&texts);
    let digest = md5_hex(encoded.as_slice());
    join2(digest.as_str(), ".entry")
}

/// The number that eight bytes hold, the lowest byte first.
pub open spec fn le_value(bytes: Seq<u8>) -> nat {
    (bytes[0] + bytes[1] * 0x100 + bytes[2] * 0x1_0000 + bytes[3] * 0x100_0000 + bytes[4]
        * 0x1_0000_0000 + bytes[5] * 0x100_0000_0000 + bytes[6] * 0x1_0000_0000_0000 + bytes[7]
        * 0x100_0000_0000_0000) as nat
}

/// A byte string with its length before it.
pub open spec fn encoded_block(block: Seq<u8>) -> Seq<u8> {
    le_bytes(block.len(), 8) + block
}

/// Byte strings one after the other, each with its length before it.
pub open spec fn encoded_blocks(blocks: Seq<Seq<u8>>) -> Seq<u8>
    decreases blocks.len(),
{
    if blocks.len() == 0 {
        Seq::empty()
    } else {
        encoded_block(blocks[0]) + encoded_blocks(blocks.skip(1))
    }
}

/// The number that stands for what a backend ended with: 0 where it ended
/// without an exit code, else its exit code raised by 2 to the 31st and 1.
pub open spec fn status_number(status: Option<i32>) -> nat {
    match status {
        Some(code) => (code + 0x8000_0001) as nat,
        None => 0,
    }
}

/// The bytes that stand for an entry of the cache: the number of its status,
/// its two outputs, the number of its files and its files; each number in
/// eight bytes, the lowest first, each byte string with its length before it.
pub open spec fn encoded_entry(entry: EntryView) -> Seq<u8> {
    le_bytes(status_number(entry.output.status), 8) + encoded_block(entry.output.stdout)
        + encoded_block(entry.output.stderr) + le_bytes(entry.artifacts.len(), 8) + encoded_blocks(
        entry.artifacts,
    )
}

/// The number at `pos`, and where reading goes on.
pub open spec fn number_at(bytes: Seq<u8>, pos: int) -> Option<(nat, int)> {
    if 0 <= pos && pos + 8 <= bytes.len() {
        Some((le_value(bytes.subrange(pos, pos + 8)), pos + 8))
    } else {
        None
    }
}

/// The byte string at `pos`, and where reading goes on.
pub open spec fn block_at(bytes: Seq<u8>, pos: int) -> Option<(Seq<u8>, int)> {
    match number_at(bytes, pos) {
        Some((length, after)) => if after + length <= bytes.len() {
            Some((bytes.subrange(after, after + length), after + length))
        } else {
            None
        },
        None => None,
    }
}

/// The `count` byte strings at `pos`, and where reading goes on.
pub open spec fn blocks_at(bytes: Seq<u8>, pos: int, count: nat) -> Option<(Seq<Seq<u8>>, int)>
    decreases count,
{
    if count == 0 {
        Some((Seq::empty(), pos))
    } else {
        match block_at(bytes, pos) {
            Some((block, after)) => match blocks_at(bytes, after, (count - 1) as nat) {
                Some((rest, end)) => Some((seq![block] + rest, end)),
                None => None,
            },
            None => None,
        }
    }
}

/// What a backend ended with, from the number that stands for it.
pub open spec fn status_of(number: nat) -> Option<Option<i32>> {
    if number == 0 {
        Some(None)
    } else if number <= 0x1_0000_0000 {
        Some(Some((number - 0x8000_0001) as i32))
    } else {
        None
    }
}

/// The entry that bytes stand for: the bytes have to hold a status, two
/// outputs and as many files as they say, and nothing behind them.
pub open spec fn decoded_entry(bytes: Seq<u8>) -> Option<EntryView> {
    match number_at(bytes, 0) {
        None => None,
        Some((number, p1)) => match status_of(number) {
            None => None,
            Some(status) => match block_at(bytes, p1) {
                None => None,
                Some((stdout, p2)) => match block_at(bytes, p2) {
                    None => None,
                    Some((stderr, p3)) => match number_at(bytes, p3) {
                        None => None,
                        Some((count, p4)) => match blocks_at(bytes, p4, count) {
                            None => None,
                            Some((artifacts, end)) => if end == bytes.len() {
                                Some(
                                    EntryView {
                                        artifacts,
                                        output: OutputView { status, stdout, stderr },
                                    },
                                )
                            } else {
                                None
                            },
                        },
                    },
                },
            },
        },
    }
}

fn push_block(out: &mut Vec<u8>, block: &Vec<u8>)
    ensures
        final(out)@ == old(out)@ + encoded_block(block@),
{
    let ghost start = out@;
    push_number(out, block.len() as u64);
    let ghost middle = out@;
    out.extend_from_slice(block.as_slice());
    assert(out@ =~= middle + block@);
    assert(out@ =~= start + encoded_block(block@));
}

/// Writes out the bytes that stand for an entry of the cache.
pub fn encode_entry(entry: &CacheEntry) -> (r: Vec<u8>)
    ensures
        r@ == encoded_entry(entry@),
{
    let mut out: Vec<u8> = Vec::new();
    let number: u64 = match entry.output.status {
        Some(code) => (code as i64 + 0x8000_0001) as u64,
        None => 0,
    };
    let ghost views = file_views(entry.artifacts@);
    push_number(&mut out, number);
    push_block(&mut out, &entry.output.stdout);
    push_block(&mut out, &entry.output.stderr);
    let n = entry.artifacts.len();
    push_number(&mut out, n as u64);
    let ghost head = out@;
    let mut j: usize = 0;
    assert(views.skip(0) =~= views);
    assert(out@ + encoded_blocks(views.skip(0)) =~= head + encoded_blocks(views));
    while j < n
        invariant
            j <= n,
            n == entry.artifacts.len(),
            views == file_views(entry.artifacts@),
            out@ + encoded_blocks(views.skip(j as int)) == head + encoded_blocks(views),
        decreases n - j,
    {
        proof {
            assert(views.skip(j as int).skip(1) =~= views.skip(j + 1));
            assert(views.skip(j as int)[0] == entry.artifacts@[j as int]@);
        }
        let ghost before = out@;
        push_block(&mut out, &entry.artifacts[j]);
        assert(out@ + encoded_blocks(views.skip(j + 1)) =~= before + (encoded_block(
            entry.artifacts@[j as int]@,
        ) + encoded_blocks(views.skip(j + 1))));
        j += 1;
    }
    assert(views.skip(n as int) =~= Seq::<Seq<u8>>::empty());
    assert(out@ =~= head + encoded_blocks(views));
    out
}

fn read_number(bytes: &[u8], pos: usize) -> (r: Option<(u64, usize)>)
    ensures
        match r {
            Some((value, next)) => number_at(bytes@, pos as int) == Some((value as nat, next as int)),
            None => number_at(bytes@, pos as int) is None,
        },
{
    let n = bytes.len();
    if n < 8 || pos > n - 8 {
        return None;
    }
    let part = slice_subrange(bytes, pos, pos + 8);
    let b0 = part[0] as u64;
    let b1 = part[1] as u64;
    let b2 = part[2] as u64;
    let b3 = part[3] as u64;
    let b4 = part[4] as u64;
    let b5 = part[5] as u64;
    let b6 = part[6] as u64;
    let b7 = part[7] as u64;
    let value = b0 + b1 * 0x100 + b2 * 0x1_0000 + b3 * 0x100_0000 + b4 * 0x1_0000_0000 + b5
        * 0x100_0000_0000 + b6 * 0x1_0000_0000_0000 + b7 * 0x100_0000_0000_0000;
    Some((value, pos + 8))
}

fn read_block(bytes: &[u8], pos: usize) -> (r: Option<(Vec<u8>, usize)>)
    ensures
        match r {
            Some((block, next)) => block_at(bytes@, pos as int) == Some((block@, next as int))
                && next <= bytes@.len(),
            None => block_at(bytes@, pos as int) is None,
        },
{
    let n = bytes.len();
    match read_number(bytes, pos) {
        Some((length, after)) => {
            if length > (n - after) as u64 {
                return None;
            }
            let end = after + length as usize;
            Some((slice_to_vec(slice_subrange(bytes, after, end)), end))
        },
        None => None,
    }
}

/// Reads the entry of the cache that bytes stand for; `None` for bytes that
/// stand for none.
pub fn decode_entry(bytes: &[u8]) -> (r: Option<CacheEntry>)
    ensures
        match r {
            Some(entry) => decoded_entry(bytes@) == Some(entry@),
            None => decoded_entry(bytes@) is None,
        },
{
    let (number, p1) = match read_number(bytes, 0) {
        Some(found) => found,
        None => {
            return None;
        },
    };
    let status: Option<i32> = if number == 0 {
        None
    } else if number <= 0x1_0000_0000 {
        Some((number as i64 - 0x8000_0001) as i32)
    } else {
        return None;
    };
    let (stdout, p2) = match read_block(bytes, p1) {
        Some(found) => found,
        None => {
            return None;
        },
    };
    let (stderr, p3) = match read_block(bytes, p2) {
        Some(found) => found,
        None => {
            return None;
        },
    };
    let (count, p4) = match read_number(bytes, p3) {
        Some(found) => found,
        None => {
            return None;
        },
    };
    let mut artifacts: Vec<Vec<u8>> = Vec::new();
    let mut at = p4;
    let mut left = count;
    assert(file_views(artifacts@) =~= Seq::<Seq<u8>>::empty());
    while left > 0
        invariant
            left <= count,
            decoded_entry(bytes@) == (match blocks_at(bytes@, p4 as int, count as nat) {
                Some((all, end)) => if end == bytes@.len() {
                    Some(
                        EntryView {
                            artifacts: all,
                            output: OutputView { status, stdout: stdout@, stderr: stderr@ },
                        },
                    )
                } else {
                    None
                },
                None => None,
            }),
            match blocks_at(bytes@, at as int, left as nat) {
                Some((rest, end)) => blocks_at(bytes@, p4 as int, count as nat) == Some(
                    (file_views(artifacts@) + rest, end),
                ),
                None => blocks_at(bytes@, p4 as int, count as nat) is None,
            },
        decreases left,
    {
        let ghost before = file_views(artifacts@);
        match read_block(bytes, at) {
            Some((block, next)) => {
                artifacts.push(block);
                assert(file_views(artifacts@) =~= before.push(block@));
                proof {
                    match blocks_at(bytes@, next as int, (left - 1) as nat) {
                        Some((rest, end)) => {
                            assert(before + (seq![block@] + rest) =~= before.push(block@) + rest);
                        },
                        None => {},
                    }
                }
                at = next;
                left -= 1;
            },
            None => {
                return None;
            },
        }
    }
    proof {
        assert(file_views(artifacts@) + Seq::<Seq<u8>>::empty() =~= file_views(artifacts@));
    }
    if at != bytes.len() {
        return None;
    }
    Some(CacheEntry { artifacts, output: OutputInfo { status, stdout, stderr } })
}

} // verus!
