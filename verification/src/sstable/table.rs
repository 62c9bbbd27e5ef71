//! The bytes of a table file, and what reading them finds.

use vstd::prelude::*;

use super::bloom::BloomView;
use super::{Corruption, Part, BLOCK_SIZE, FOOTER_MAGIC, FORMAT_VERSION};
use crate::checksum;
use crate::codec;
use crate::model;
use crate::model::Rec;
use crate::order;
use crate::sstable;
use crate::sstable::bloom;
use crate::storage;

pub mod laws;

verus! {

/// Value tag byte of a tombstone.
pub const TAG_DELETE: u8 = 0;

/// Value tag byte of a live value.
pub const TAG_PUT: u8 = 1;

/// Size in bytes of the footer.
pub const FOOTER_SIZE: usize = 48;

/// The bytes of a value in a data block.
pub open spec fn value_bytes(val: Option<Seq<u8>>) -> Seq<u8> {
    match val {
        Some(v) => seq![1u8] + codec::le32(v.len() as u32) + v,
        None => seq![0u8],
    }
}

/// The bytes of an entry in a data block.
pub open spec fn entry_bytes(r: Rec) -> Seq<u8> {
    codec::le32(r.key.len() as u32) + r.key + codec::le64(r.seq) + value_bytes(r.val)
}

/// The length of an entry in a data block.
pub open spec fn entry_len(r: Rec) -> nat {
    13 + r.key.len() + match r.val {
        Some(v) => 4 + v.len(),
        None => 0,
    }
}

/// The entries of a data block, back to back.
pub open spec fn block_body(recs: Seq<Rec>) -> Seq<u8>
    decreases recs.len(),
{
    if recs.len() == 0 {
        Seq::empty()
    } else {
        block_body(recs.drop_last()) + entry_bytes(recs.last())
    }
}

/// A part of the file with its checksum.
pub open spec fn sealed(body: Seq<u8>) -> Seq<u8> {
    body + codec::le32(checksum::crc32(body))
}

/// Finished blocks, and the entries of the one that is being filled.
#[verifier::ext_equal]
pub struct Layout {
    pub blocks: Seq<Seq<Rec>>,
    pub current: Seq<Rec>,
}

/// One more entry: a block that the entry would make larger than the target
/// size is finished first, unless it is empty.
pub open spec fn laid(l: Layout, r: Rec) -> Layout {
    if l.current.len() > 0 && block_body(l.current).len() + entry_len(r) > BLOCK_SIZE {
        Layout { blocks: l.blocks.push(l.current), current: seq![r] }
    } else {
        Layout { blocks: l.blocks, current: l.current.push(r) }
    }
}

/// How entries are laid out in blocks.
pub open spec fn layout(recs: Seq<Rec>) -> Layout
    decreases recs.len(),
{
    if recs.len() == 0 {
        Layout { blocks: Seq::empty(), current: Seq::empty() }
    } else {
        laid(layout(recs.drop_last()), recs.last())
    }
}

/// All blocks, the last one finished too.
pub open spec fn finished(l: Layout) -> Seq<Seq<Rec>> {
    if l.current.len() > 0 {
        l.blocks.push(l.current)
    } else {
        l.blocks
    }
}

/// The data blocks of a table.
pub open spec fn blocks_of(recs: Seq<Rec>) -> Seq<Seq<Rec>> {
    finished(layout(recs))
}

/// The bytes of the data blocks.
pub open spec fn data_bytes(blocks: Seq<Seq<Rec>>) -> Seq<u8>
    decreases blocks.len(),
{
    if blocks.len() == 0 {
        Seq::empty()
    } else {
        data_bytes(blocks.drop_last()) + sealed(block_body(blocks.last()))
    }
}

/// Where a data block is, and its first key.
#[verifier::ext_equal]
pub struct Handle {
    pub first_key: Seq<u8>,
    pub offset: u64,
    pub len: u32,
}

/// The handle of block `i`.
pub open spec fn handle_of(blocks: Seq<Seq<Rec>>, i: int) -> Handle {
    Handle {
        first_key: blocks[i][0].key,
        offset: data_bytes(blocks.take(i)).len() as u64,
        len: sealed(block_body(blocks[i])).len() as u32,
    }
}

/// The handles of all blocks.
pub open spec fn handles_of(blocks: Seq<Seq<Rec>>) -> Seq<Handle> {
    Seq::new(blocks.len(), |i: int| handle_of(blocks, i))
}

/// The bytes of a handle in the index.
pub open spec fn handle_bytes(h: Handle) -> Seq<u8> {
    codec::le32(h.first_key.len() as u32) + h.first_key + codec::le64(h.offset) + codec::le32(h.len)
}

/// Handles, back to back.
pub open spec fn handles_bytes(handles: Seq<Handle>) -> Seq<u8>
    decreases handles.len(),
{
    if handles.len() == 0 {
        Seq::empty()
    } else {
        handles_bytes(handles.drop_last()) + handle_bytes(handles.last())
    }
}

/// The sparse index without its checksum.
pub open spec fn index_body(handles: Seq<Handle>) -> Seq<u8> {
    codec::le32(handles.len() as u32) + handles_bytes(handles)
}

/// The footer without its checksum.
pub open spec fn footer_body(
    index_off: u64,
    index_len: u32,
    bloom_off: u64,
    bloom_len: u32,
    num_entries: u64,
) -> Seq<u8> {
    codec::le64(FOOTER_MAGIC) + codec::le32(FORMAT_VERSION) + codec::le64(index_off) + codec::le32(
        index_len,
    ) + codec::le64(bloom_off) + codec::le32(bloom_len) + codec::le64(num_entries)
}

/// The bytes of the whole file.
pub open spec fn image(blocks: Seq<Seq<Rec>>, filter: BloomView, num_entries: u64) -> Seq<u8> {
    let data = data_bytes(blocks);
    let index = sealed(index_body(handles_of(blocks)));
    let filter_part = sealed(filter.bytes());
    data + index + filter_part + sealed(
        footer_body(
            data.len() as u64,
            index.len() as u32,
            (data.len() + index.len()) as u64,
            filter_part.len() as u32,
            num_entries,
        ),
    )
}

/// An entry that the format can describe.
pub open spec fn entry_fits(r: Rec) -> bool {
    entry_len(r) + 4 <= u32::MAX
}

/// The format can describe the table.
pub open spec fn table_fits(recs: Seq<Rec>, filter: BloomView) -> bool {
    &&& forall|i: int| 0 <= i < recs.len() ==> entry_fits(#[trigger] recs[i])
    &&& recs.len() <= u64::MAX
    &&& sealed(index_body(handles_of(blocks_of(recs)))).len() <= u32::MAX
    &&& image(blocks_of(recs), filter, recs.len() as u64).len() <= u64::MAX
}

/// `bytes` is a table that holds `recs`: its filter misses none of their keys.
pub open spec fn is_table(bytes: Seq<u8>, recs: Seq<Rec>) -> bool {
    exists|filter: BloomView| #[trigger] is_table_with(bytes, recs, filter)
}

/// `bytes` is a table that holds `recs`, with this filter.
pub open spec fn is_table_with(bytes: Seq<u8>, recs: Seq<Rec>, filter: BloomView) -> bool {
    &&& model::is_run(recs)
    &&& filter.wf()
    &&& table_fits(recs, filter)
    &&& forall|i: int| 0 <= i < recs.len() ==> filter.may_hold((#[trigger] recs[i]).key)
    &&& bytes == image(blocks_of(recs), filter, recs.len() as u64)
}

/// What a part holds, if it matches its checksum.
pub open spec fn unsealed(buf: Seq<u8>, part: Part) -> std::result::Result<Seq<u8>, Corruption> {
    if buf.len() < 4 {
        Err(Corruption::TooShortForCrc { part })
    } else {
        let body = buf.take(buf.len() - 4);
        let stored = codec::unle(buf.skip(buf.len() - 4)) as u32;
        if stored != checksum::crc32(body) {
            Err(Corruption::CrcMismatch { part, stored, computed: checksum::crc32(body) })
        } else {
            Ok(body)
        }
    }
}

/// The value at the start of `s`, and the rest.
#[verifier::opaque]
pub open spec fn parsed_value(s: Seq<u8>) -> std::result::Result<
    (Option<Seq<u8>>, Seq<u8>),
    Corruption,
> {
    match sstable::take_u8(s) {
        Err(e) => Err(e),
        Ok((tag, s1)) => if tag == TAG_PUT {
            match sstable::take_u32(s1) {
                Err(e) => Err(e),
                Ok((len, s2)) => match sstable::taken(s2, len as nat) {
                    Err(e) => Err(e),
                    Ok((v, rest)) => Ok((Some(v), rest)),
                },
            }
        } else if tag == TAG_DELETE {
            Ok((None, s1))
        } else {
            Err(Corruption::UnknownTag { tag })
        },
    }
}

/// The entry at the start of `s`, and the rest.
#[verifier::opaque]
pub open spec fn parsed_entry(s: Seq<u8>) -> std::result::Result<(Rec, Seq<u8>), Corruption> {
    match sstable::take_u32(s) {
        Err(e) => Err(e),
        Ok((key_len, s1)) => match sstable::taken(s1, key_len as nat) {
            Err(e) => Err(e),
            Ok((key, s2)) => match sstable::take_u64(s2) {
                Err(e) => Err(e),
                Ok((seq, s3)) => match parsed_value(s3) {
                    Err(e) => Err(e),
                    Ok((val, rest)) => Ok((Rec { key, seq, val }, rest)),
                },
            },
        },
    }
}

/// The entries of a data block.
pub open spec fn parsed_block(s: Seq<u8>) -> std::result::Result<Seq<Rec>, Corruption>
    decreases s.len(),
{
    if s.len() == 0 {
        Ok(Seq::empty())
    } else {
        match parsed_entry(s) {
            Err(e) => Err(e),
            Ok((r, rest)) => if rest.len() < s.len() {
                match parsed_block(rest) {
                    Err(e) => Err(e),
                    Ok(more) => Ok(seq![r] + more),
                }
            } else {
                Ok(Seq::empty())
            },
        }
    }
}

/// The handle at the start of `s`, and the rest.
#[verifier::opaque]
pub open spec fn parsed_handle(s: Seq<u8>) -> std::result::Result<(Handle, Seq<u8>), Corruption> {
    match sstable::take_u32(s) {
        Err(e) => Err(e),
        Ok((key_len, s1)) => match sstable::taken(s1, key_len as nat) {
            Err(e) => Err(e),
            Ok((first_key, s2)) => match sstable::take_u64(s2) {
                Err(e) => Err(e),
                Ok((offset, s3)) => match sstable::take_u32(s3) {
                    Err(e) => Err(e),
                    Ok((len, s4)) => Ok((Handle { first_key, offset, len }, s4)),
                },
            },
        },
    }
}

/// The first `count` handles in `s`.
pub open spec fn parsed_handles(s: Seq<u8>, count: nat) -> std::result::Result<
    Seq<Handle>,
    Corruption,
>
    decreases count,
{
    if count == 0 {
        Ok(Seq::empty())
    } else {
        match parsed_handle(s) {
            Err(e) => Err(e),
            Ok((h, rest)) => match parsed_handles(rest, (count - 1) as nat) {
                Err(e) => Err(e),
                Ok(more) => Ok(seq![h] + more),
            },
        }
    }
}

/// The handles of the sparse index.
pub open spec fn parsed_index(s: Seq<u8>) -> std::result::Result<Seq<Handle>, Corruption> {
    match sstable::take_u32(s) {
        Err(e) => Err(e),
        Ok((count, rest)) => parsed_handles(rest, count as nat),
    }
}

/// Where the parts of a file are.
pub struct Footer {
    pub index_off: u64,
    pub index_len: u32,
    pub bloom_off: u64,
    pub bloom_len: u32,
    pub num_entries: u64,
}

/// What a footer of [`FOOTER_SIZE`] bytes says.
pub open spec fn parsed_footer(s: Seq<u8>) -> std::result::Result<Footer, Corruption> {
    match unsealed(s, Part::Footer) {
        Err(e) => Err(e),
        Ok(_) => if codec::u64_at(s, 0) != FOOTER_MAGIC {
            Err(Corruption::BadMagic)
        } else if codec::u32_at(s, 8) != FORMAT_VERSION {
            Err(Corruption::BadVersion { version: codec::u32_at(s, 8) })
        } else {
            Ok(
                Footer {
                    index_off: codec::u64_at(s, 12),
                    index_len: codec::u32_at(s, 20),
                    bloom_off: codec::u64_at(s, 24),
                    bloom_len: codec::u32_at(s, 32),
                    num_entries: codec::u64_at(s, 36),
                },
            )
        },
    }
}

/// What is kept in memory of an open table.
#[verifier::ext_equal]
pub struct TableView {
    pub index: Seq<Handle>,
    pub filter: BloomView,
    pub num_entries: u64,
}

/// A region ends within `limit`.
pub open spec fn region_ok(offset: u64, len: u32, limit: int) -> bool {
    offset + len <= limit
}

/// What opening a file with these bytes finds.
pub open spec fn opened(content: Seq<u8>) -> std::result::Result<TableView, Corruption> {
    if content.len() < 48 {
        Err(Corruption::FileTooShort { len: content.len() as u64 })
    } else {
        let limit = content.len() - 48;
        match parsed_footer(content.skip(limit)) {
            Err(e) => Err(e),
            Ok(f) => if !region_ok(f.index_off, f.index_len, limit) {
                Err(
                    Corruption::RegionOutOfBounds {
                        part: Part::Index,
                        offset: f.index_off,
                        len: f.index_len,
                        limit: limit as u64,
                    },
                )
            } else if !region_ok(f.bloom_off, f.bloom_len, limit) {
                Err(
                    Corruption::RegionOutOfBounds {
                        part: Part::Bloom,
                        offset: f.bloom_off,
                        len: f.bloom_len,
                        limit: limit as u64,
                    },
                )
            } else {
                match parsed_index_part(
                    content.subrange(f.index_off as int, f.index_off + f.index_len),
                ) {
                    Err(e) => Err(e),
                    Ok(index) => match parsed_filter_part(
                        content.subrange(f.bloom_off as int, f.bloom_off + f.bloom_len),
                    ) {
                        Err(e) => Err(e),
                        Ok(filter) => Ok(
                            TableView { index, filter, num_entries: f.num_entries },
                        ),
                    },
                }
            },
        }
    }
}

/// The sparse index with its checksum.
pub open spec fn parsed_index_part(buf: Seq<u8>) -> std::result::Result<Seq<Handle>, Corruption> {
    match unsealed(buf, Part::Index) {
        Err(e) => Err(e),
        Ok(body) => parsed_index(body),
    }
}

/// The filter with its checksum.
pub open spec fn parsed_filter_part(buf: Seq<u8>) -> std::result::Result<BloomView, Corruption> {
    match unsealed(buf, Part::Bloom) {
        Err(e) => Err(e),
        Ok(body) => match bloom::parsed_bloom(body) {
            Err(e) => Err(e),
            Ok((filter, _)) => Ok(filter),
        },
    }
}

/// The entries of the data block at `h`.
#[verifier::opaque]
pub open spec fn block_at(content: Seq<u8>, h: Handle) -> std::result::Result<
    Seq<Rec>,
    Corruption,
> {
    let raw = storage::window(content, h.offset as int, h.len as int);
    if raw.len() < h.len {
        Err(Corruption::ShortRead { offset: h.offset, wanted: h.len as u64, got: raw.len() as u64 })
    } else {
        match unsealed(raw, Part::DataBlock) {
            Err(e) => Err(e),
            Ok(body) => parsed_block(body),
        }
    }
}

/// Between `lo` and `hi`, where the handles stop beginning at or before `key`, found by
/// halving.
pub open spec fn boundary(index: Seq<Handle>, key: Seq<u8>, lo: nat, hi: nat) -> nat
    decreases hi - lo,
{
    if lo >= hi {
        lo
    } else {
        let mid = (lo + (hi - lo) / 2) as nat;
        if order::lex_lt(key, index[mid as int].first_key) {
            boundary(index, key, lo, mid)
        } else {
            boundary(index, key, mid + 1, hi)
        }
    }
}

/// How many of the handles, which ascend, begin at or before `key`.
pub open spec fn blocks_before(index: Seq<Handle>, key: Seq<u8>) -> nat {
    if index.len() == 0 || order::lex_lt(key, index[0].first_key) {
        0
    } else {
        boundary(index, key, 1, index.len())
    }
}

/// The entry for `key` between `lo` and `hi` in a block, whose keys ascend, found by
/// halving.
pub open spec fn searched(recs: Seq<Rec>, key: Seq<u8>, lo: nat, hi: nat) -> Option<Rec>
    decreases hi - lo,
{
    if lo >= hi {
        None
    } else {
        let mid = (lo + (hi - lo) / 2) as nat;
        if recs[mid as int].key == key {
            Some(recs[mid as int])
        } else if order::lex_lt(key, recs[mid as int].key) {
            searched(recs, key, lo, mid)
        } else {
            searched(recs, key, mid + 1, hi)
        }
    }
}

/// What a lookup of `key` finds.
pub open spec fn looked_up(content: Seq<u8>, t: TableView, key: Seq<u8>) -> std::result::Result<
    Option<Rec>,
    Corruption,
> {
    let n = blocks_before(t.index, key);
    if !t.filter.may_hold(key) || n == 0 {
        Ok(None)
    } else {
        match block_at(content, t.index[n - 1]) {
            Err(e) => Err(e),
            Ok(recs) => Ok(searched(recs, key, 0, recs.len())),
        }
    }
}

/// What reading the blocks from `i` on, in order, finds: their entries, up to
/// the first block that is corrupt.
pub open spec fn items_from(content: Seq<u8>, index: Seq<Handle>, i: nat) -> Seq<
    std::result::Result<Rec, Corruption>,
>
    decreases index.len() - i,
{
    if i >= index.len() {
        Seq::empty()
    } else {
        match block_at(content, index[i as int]) {
            Err(e) => seq![Err(e)],
            Ok(recs) => good_items(recs) + items_from(content, index, i + 1),
        }
    }
}

/// Entries that were read.
pub open spec fn good_items(recs: Seq<Rec>) -> Seq<std::result::Result<Rec, Corruption>> {
    Seq::new(recs.len(), |i: int| Ok(recs[i]))
}

pub proof fn lemma_entry_len(r: Rec)
    ensures
        entry_bytes(r).len() == entry_len(r),
{
    codec::lemma_u32(r.key.len() as u32);
    codec::lemma_u64(r.seq);
    if let Some(v) = r.val {
        codec::lemma_u32(v.len() as u32);
    }
}

/// A value survives being written and read.
proof fn lemma_value_round_trip(val: Option<Seq<u8>>, rest: Seq<u8>)
    requires
        val matches Some(v) ==> v.len() <= u32::MAX,
    ensures
        parsed_value(value_bytes(val) + rest) == Ok::<(Option<Seq<u8>>, Seq<u8>), Corruption>(
            (val, rest),
        ),
{
    reveal(parsed_value);
    let s = value_bytes(val) + rest;
    match val {
        Some(v) => {
            let s2 = v + rest;
            let s1 = codec::le32(v.len() as u32) + s2;
            assert(s =~= seq![1u8] + s1);
            sstable::lemma_taken(seq![1u8], s1);
            sstable::lemma_take_u32(v.len() as u32, s2);
            sstable::lemma_taken(v, rest);
        },
        None => {
            sstable::lemma_taken(seq![0u8], rest);
        },
    }
}

/// An entry survives being written and read.
pub proof fn lemma_entry_round_trip(r: Rec, rest: Seq<u8>)
    requires
        entry_fits(r),
    ensures
        parsed_entry(entry_bytes(r) + rest) == Ok::<(Rec, Seq<u8>), Corruption>((r, rest)),
{
    reveal(parsed_entry);
    let s3 = value_bytes(r.val) + rest;
    let s2 = codec::le64(r.seq) + s3;
    let s1 = r.key + s2;
    assert(entry_bytes(r) + rest =~= codec::le32(r.key.len() as u32) + s1);
    sstable::lemma_take_u32(r.key.len() as u32, s1);
    sstable::lemma_taken(r.key, s2);
    sstable::lemma_take_u64(r.seq, s3);
    lemma_value_round_trip(r.val, rest);
}

/// The entries of a concatenation.
proof fn lemma_block_body_front(recs: Seq<Rec>)
    requires
        recs.len() > 0,
    ensures
        block_body(recs) == entry_bytes(recs[0]) + block_body(recs.drop_first()),
    decreases recs.len(),
{
    if recs.len() == 1 {
        assert(recs.drop_last() =~= Seq::empty());
        assert(recs.drop_first() =~= Seq::empty());
        assert(block_body(recs.drop_last()) =~= Seq::empty());
        assert(block_body(recs.drop_first()) =~= Seq::empty());
        assert(block_body(recs) =~= entry_bytes(recs[0]) + block_body(recs.drop_first()));
    } else {
        lemma_block_body_front(recs.drop_last());
        assert(recs.drop_last().drop_first() =~= recs.drop_first().drop_last());
        assert(recs.drop_first().last() == recs.last());
        assert(block_body(recs) =~= entry_bytes(recs[0]) + block_body(recs.drop_first()));
    }
}

/// A data block survives being written and read.
pub proof fn lemma_block_round_trip(recs: Seq<Rec>)
    requires
        forall|i: int| 0 <= i < recs.len() ==> entry_fits(#[trigger] recs[i]),
    ensures
        parsed_block(block_body(recs)) == Ok::<Seq<Rec>, Corruption>(recs),
    decreases recs.len(),
{
    if recs.len() == 0 {
        assert(recs =~= Seq::empty());
    } else {
        let rest = recs.drop_first();
        assert forall|i: int| 0 <= i < rest.len() implies entry_fits(#[trigger] rest[i]) by {
            assert(entry_fits(recs[i + 1]));
        }
        lemma_block_round_trip(rest);
        lemma_block_body_front(recs);
        assert(entry_fits(recs[0]));
        lemma_entry_round_trip(recs[0], block_body(rest));
        lemma_entry_len(recs[0]);
        assert(seq![recs[0]] + rest =~= recs);
    }
}

/// A part survives being written and read.
pub proof fn lemma_unsealed(body: Seq<u8>, part: Part)
    ensures
        unsealed(sealed(body), part) == Ok::<Seq<u8>, Corruption>(body),
        sealed(body).len() == body.len() + 4,
{
    codec::lemma_u32(checksum::crc32(body));
    let buf = sealed(body);
    assert(buf.take(buf.len() - 4) =~= body);
    assert(buf.skip(buf.len() - 4) =~= codec::le32(checksum::crc32(body)));
}

pub proof fn lemma_handle_len(h: Handle)
    ensures
        handle_bytes(h).len() == 16 + h.first_key.len(),
{
    codec::lemma_u32(h.first_key.len() as u32);
    codec::lemma_u64(h.offset);
    codec::lemma_u32(h.len);
}

proof fn lemma_handle_round_trip(h: Handle, rest: Seq<u8>)
    requires
        h.first_key.len() <= u32::MAX,
    ensures
        parsed_handle(handle_bytes(h) + rest) == Ok::<(Handle, Seq<u8>), Corruption>((h, rest)),
{
    reveal(parsed_handle);
    let s3 = codec::le32(h.len) + rest;
    let s2 = codec::le64(h.offset) + s3;
    let s1 = h.first_key + s2;
    assert(handle_bytes(h) + rest =~= codec::le32(h.first_key.len() as u32) + s1);
    sstable::lemma_take_u32(h.first_key.len() as u32, s1);
    sstable::lemma_taken(h.first_key, s2);
    sstable::lemma_take_u64(h.offset, s3);
    sstable::lemma_take_u32(h.len, rest);
}

proof fn lemma_handles_front(hs: Seq<Handle>)
    requires
        hs.len() > 0,
    ensures
        handles_bytes(hs) == handle_bytes(hs[0]) + handles_bytes(hs.drop_first()),
    decreases hs.len(),
{
    if hs.len() == 1 {
        assert(hs.drop_last() =~= Seq::empty());
        assert(hs.drop_first() =~= Seq::empty());
        assert(handles_bytes(hs.drop_last()) =~= Seq::empty());
        assert(handles_bytes(hs.drop_first()) =~= Seq::empty());
        assert(handles_bytes(hs) =~= handle_bytes(hs[0]) + handles_bytes(hs.drop_first()));
    } else {
        lemma_handles_front(hs.drop_last());
        assert(hs.drop_last().drop_first() =~= hs.drop_first().drop_last());
        assert(hs.drop_first().last() == hs.last());
        assert(handles_bytes(hs) =~= handle_bytes(hs[0]) + handles_bytes(hs.drop_first()));
    }
}

proof fn lemma_handles_round_trip(hs: Seq<Handle>)
    requires
        forall|i: int| 0 <= i < hs.len() ==> (#[trigger] hs[i]).first_key.len() <= u32::MAX,
    ensures
        parsed_handles(handles_bytes(hs), hs.len()) == Ok::<Seq<Handle>, Corruption>(hs),
    decreases hs.len(),
{
    if hs.len() == 0 {
        assert(hs =~= Seq::empty());
    } else {
        let rest = hs.drop_first();
        assert forall|i: int| 0 <= i < rest.len() implies (#[trigger] rest[i]).first_key.len()
            <= u32::MAX by {
            assert(hs[i + 1].first_key.len() <= u32::MAX);
        }
        lemma_handles_round_trip(rest);
        lemma_handles_front(hs);
        assert(hs[0].first_key.len() <= u32::MAX);
        lemma_handle_round_trip(hs[0], handles_bytes(rest));
        assert(seq![hs[0]] + rest =~= hs);
    }
}

/// The sparse index survives being written and read.
pub proof fn lemma_index_round_trip(hs: Seq<Handle>)
    requires
        hs.len() <= u32::MAX,
        forall|i: int| 0 <= i < hs.len() ==> (#[trigger] hs[i]).first_key.len() <= u32::MAX,
    ensures
        parsed_index_part(sealed(index_body(hs))) == Ok::<Seq<Handle>, Corruption>(hs),
{
    lemma_unsealed(index_body(hs), Part::Index);
    sstable::lemma_take_u32(hs.len() as u32, handles_bytes(hs));
    lemma_handles_round_trip(hs);
}

/// All entries of some blocks, in order.
pub open spec fn flattened(blocks: Seq<Seq<Rec>>) -> Seq<Rec>
    decreases blocks.len(),
{
    if blocks.len() == 0 {
        Seq::empty()
    } else {
        flattened(blocks.drop_last()) + blocks.last()
    }
}

/// Every block has an entry, and is of a size that the format can describe.
pub open spec fn blocks_fit(blocks: Seq<Seq<Rec>>) -> bool {
    forall|i: int|
        0 <= i < blocks.len() ==> (#[trigger] blocks[i]).len() > 0 && block_body(blocks[i]).len() + 4
            <= u32::MAX
}

/// A block that is being filled is small, or has one entry.
pub open spec fn current_fits(current: Seq<Rec>) -> bool {
    block_body(current).len() <= BLOCK_SIZE || current.len() == 1 && block_body(current).len() + 4
        <= u32::MAX
}

/// Laying out entries keeps them, in order.
pub proof fn lemma_layout(recs: Seq<Rec>)
    requires
        forall|i: int| 0 <= i < recs.len() ==> entry_fits(#[trigger] recs[i]),
    ensures
        flattened(layout(recs).blocks) + layout(recs).current == recs,
        blocks_fit(layout(recs).blocks),
        current_fits(layout(recs).current),
        recs.len() > 0 ==> layout(recs).current.len() > 0,
    decreases recs.len(),
{
    if recs.len() == 0 {
        assert(flattened(layout(recs).blocks) + layout(recs).current =~= recs);
    } else {
        let before = layout(recs.drop_last());
        let r = recs.last();
        assert forall|i: int| 0 <= i < recs.drop_last().len() implies entry_fits(
            #[trigger] recs.drop_last()[i],
        ) by {
            assert(entry_fits(recs[i]));
        }
        lemma_layout(recs.drop_last());
        assert(entry_fits(recs[recs.len() - 1]));
        lemma_laid(before, r);
        assert(recs =~= recs.drop_last().push(r));
    }
}

/// One more entry in a layout.
pub proof fn lemma_laid(l: Layout, r: Rec)
    requires
        blocks_fit(l.blocks),
        current_fits(l.current),
        entry_fits(r),
    ensures
        blocks_fit(laid(l, r).blocks),
        current_fits(laid(l, r).current),
        laid(l, r).current.len() > 0,
        flattened(laid(l, r).blocks) + laid(l, r).current == (flattened(l.blocks)
            + l.current).push(r),
{
    let after = laid(l, r);
    lemma_entry_len(r);
    if l.current.len() > 0 && block_body(l.current).len() + entry_len(r) > BLOCK_SIZE {
        assert(after.blocks.drop_last() =~= l.blocks);
        assert(seq![r].drop_last() =~= Seq::empty());
        assert(block_body(seq![r].drop_last()) =~= Seq::empty());
        assert(block_body(after.current) =~= entry_bytes(r));
        assert forall|i: int| 0 <= i < after.blocks.len() implies (
        #[trigger] after.blocks[i]).len() > 0 && block_body(after.blocks[i]).len() + 4
            <= u32::MAX by {
            if i < l.blocks.len() {
                assert(after.blocks[i] == l.blocks[i]);
            }
        }
        assert(flattened(after.blocks) + after.current =~= (flattened(l.blocks)
            + l.current).push(r));
    } else {
        assert(after.current.drop_last() =~= l.current);
        assert(block_body(after.current).len() == block_body(l.current).len() + entry_len(r));
        if l.current.len() == 0 {
            assert(block_body(l.current) =~= Seq::empty());
        }
        assert(flattened(after.blocks) + after.current =~= (flattened(l.blocks)
            + l.current).push(r));
    }
}

/// The blocks of a table hold its entries, in order.
pub proof fn lemma_blocks_of(recs: Seq<Rec>)
    requires
        forall|i: int| 0 <= i < recs.len() ==> entry_fits(#[trigger] recs[i]),
    ensures
        flattened(blocks_of(recs)) == recs,
        blocks_fit(blocks_of(recs)),
{
    lemma_layout(recs);
    let l = layout(recs);
    let blocks = blocks_of(recs);
    if l.current.len() > 0 {
        assert(blocks.drop_last() =~= l.blocks);
        assert forall|i: int| 0 <= i < blocks.len() implies (#[trigger] blocks[i]).len() > 0
            && block_body(blocks[i]).len() + 4 <= u32::MAX by {
            if i < l.blocks.len() {
                assert(blocks[i] == l.blocks[i]);
            }
        }
    } else {
        assert(flattened(l.blocks) + l.current =~= flattened(l.blocks));
    }
}

/// How many entries come before block `i`.
pub open spec fn entries_before(blocks: Seq<Seq<Rec>>, i: int) -> nat {
    flattened(blocks.take(i)).len()
}

/// The entries of block `i` are those of the table from where the earlier blocks
/// end.
pub proof fn lemma_flattened_at(blocks: Seq<Seq<Rec>>, i: int)
    requires
        0 <= i < blocks.len(),
    ensures
        entries_before(blocks, i) + blocks[i].len() <= flattened(blocks).len(),
        entries_before(blocks, i + 1) == entries_before(blocks, i) + blocks[i].len(),
        blocks[i] == flattened(blocks).subrange(
            entries_before(blocks, i) as int,
            entries_before(blocks, i) + blocks[i].len() as int,
        ),
        flattened(blocks.take(i)) == flattened(blocks).take(entries_before(blocks, i) as int),
    decreases blocks.len(),
{
    assert(blocks.take(i + 1).drop_last() =~= blocks.take(i));
    assert(blocks.take(i + 1).last() == blocks[i]);
    if i == blocks.len() - 1 {
        assert(blocks.drop_last() =~= blocks.take(i));
        assert(blocks.take(i + 1) =~= blocks);
        assert(blocks[i] =~= flattened(blocks).subrange(
            entries_before(blocks, i) as int,
            entries_before(blocks, i) + blocks[i].len() as int,
        ));
        assert(flattened(blocks.take(i)) =~= flattened(blocks).take(
            entries_before(blocks, i) as int,
        ));
    } else {
        let less = blocks.drop_last();
        lemma_flattened_at(less, i);
        assert(less.take(i) =~= blocks.take(i));
        assert(blocks[i] =~= flattened(blocks).subrange(
            entries_before(blocks, i) as int,
            entries_before(blocks, i) + blocks[i].len() as int,
        ));
        assert(flattened(blocks.take(i)) =~= flattened(blocks).take(
            entries_before(blocks, i) as int,
        ));
    }
}

/// Where the bytes of block `i` are.
pub proof fn lemma_data_at(blocks: Seq<Seq<Rec>>, i: int)
    requires
        0 <= i < blocks.len(),
    ensures
        data_bytes(blocks.take(i)).len() + sealed(block_body(blocks[i])).len() <= data_bytes(
            blocks,
        ).len(),
        data_bytes(blocks).subrange(
            data_bytes(blocks.take(i)).len() as int,
            data_bytes(blocks.take(i)).len() + sealed(block_body(blocks[i])).len() as int,
        ) == sealed(block_body(blocks[i])),
    decreases blocks.len(),
{
    if i == blocks.len() - 1 {
        assert(blocks.drop_last() =~= blocks.take(i));
        assert(data_bytes(blocks).subrange(
            data_bytes(blocks.take(i)).len() as int,
            data_bytes(blocks.take(i)).len() + sealed(block_body(blocks[i])).len() as int,
        ) =~= sealed(block_body(blocks[i])));
    } else {
        let less = blocks.drop_last();
        lemma_data_at(less, i);
        assert(less.take(i) =~= blocks.take(i));
        assert(data_bytes(blocks).subrange(
            data_bytes(blocks.take(i)).len() as int,
            data_bytes(blocks.take(i)).len() + sealed(block_body(blocks[i])).len() as int,
        ) =~= data_bytes(less).subrange(
            data_bytes(blocks.take(i)).len() as int,
            data_bytes(blocks.take(i)).len() + sealed(block_body(blocks[i])).len() as int,
        ));
    }
}

pub proof fn lemma_footer_len(f: Footer)
    ensures
        footer_body(
            f.index_off,
            f.index_len,
            f.bloom_off,
            f.bloom_len,
            f.num_entries,
        ).len() == 44,
{
    codec::lemma_u64(FOOTER_MAGIC);
    codec::lemma_u32(FORMAT_VERSION);
    codec::lemma_u64(f.index_off);
    codec::lemma_u32(f.index_len);
    codec::lemma_u64(f.bloom_off);
    codec::lemma_u32(f.bloom_len);
    codec::lemma_u64(f.num_entries);
}

/// The footer survives being written and read.
proof fn lemma_footer_round_trip(f: Footer)
    ensures
        sealed(
            footer_body(f.index_off, f.index_len, f.bloom_off, f.bloom_len, f.num_entries),
        ).len() == 48,
        parsed_footer(
            sealed(footer_body(f.index_off, f.index_len, f.bloom_off, f.bloom_len, f.num_entries)),
        ) == Ok::<Footer, Corruption>(f),
{
    let body = footer_body(f.index_off, f.index_len, f.bloom_off, f.bloom_len, f.num_entries);
    let s = sealed(body);
    lemma_unsealed(body, Part::Footer);
    lemma_footer_len(f);
    codec::lemma_u64(FOOTER_MAGIC);
    codec::lemma_u32(FORMAT_VERSION);
    codec::lemma_u64(f.index_off);
    codec::lemma_u32(f.index_len);
    codec::lemma_u64(f.bloom_off);
    codec::lemma_u32(f.bloom_len);
    codec::lemma_u64(f.num_entries);
    assert(s.subrange(0, 8) =~= codec::le64(FOOTER_MAGIC));
    assert(s.subrange(8, 12) =~= codec::le32(FORMAT_VERSION));
    assert(s.subrange(12, 20) =~= codec::le64(f.index_off));
    assert(s.subrange(20, 24) =~= codec::le32(f.index_len));
    assert(s.subrange(24, 32) =~= codec::le64(f.bloom_off));
    assert(s.subrange(32, 36) =~= codec::le32(f.bloom_len));
    assert(s.subrange(36, 44) =~= codec::le64(f.num_entries));
}

/// The length of the index grows with the number of its handles.
proof fn lemma_index_len(hs: Seq<Handle>)
    ensures
        handles_bytes(hs).len() >= 16 * hs.len(),
        forall|i: int|
            0 <= i < hs.len() ==> (#[trigger] hs[i]).first_key.len() <= handles_bytes(hs).len(),
    decreases hs.len(),
{
    if hs.len() > 0 {
        lemma_index_len(hs.drop_last());
        lemma_handle_len(hs.last());
        assert forall|i: int| 0 <= i < hs.len() implies (#[trigger] hs[i]).first_key.len()
            <= handles_bytes(hs).len() by {
            if i < hs.len() - 1 {
                assert(hs.drop_last()[i] == hs[i]);
            }
        }
    }
}

/// Opening a table that was written finds its index, its filter and the number
/// of its entries.
pub proof fn lemma_opened(recs: Seq<Rec>, filter: BloomView)
    requires
        filter.wf(),
        table_fits(recs, filter),
    ensures
        opened(image(blocks_of(recs), filter, recs.len() as u64)) == Ok::<TableView, Corruption>(
            TableView {
                index: handles_of(blocks_of(recs)),
                filter,
                num_entries: recs.len() as u64,
            },
        ),
{
    let blocks = blocks_of(recs);
    let hs = handles_of(blocks);
    let n = recs.len() as u64;
    let data = data_bytes(blocks);
    let index = sealed(index_body(hs));
    let filter_part = sealed(filter.bytes());
    let f = Footer {
        index_off: data.len() as u64,
        index_len: index.len() as u32,
        bloom_off: (data.len() + index.len()) as u64,
        bloom_len: filter_part.len() as u32,
        num_entries: n,
    };
    let footer = sealed(
        footer_body(f.index_off, f.index_len, f.bloom_off, f.bloom_len, f.num_entries),
    );
    let content = image(blocks, filter, n);
    lemma_footer_round_trip(f);
    lemma_unsealed(index_body(hs), Part::Index);
    lemma_unsealed(filter.bytes(), Part::Bloom);
    bloom::lemma_bloom_round_trip(filter, Seq::empty());
    assert(filter.bytes() + Seq::<u8>::empty() =~= filter.bytes());
    codec::lemma_u32(hs.len() as u32);
    lemma_index_len(hs);
    lemma_index_round_trip(hs);
    assert(content.len() == data.len() + index.len() + filter_part.len() + 48);
    let limit = content.len() - 48;
    assert(content.skip(limit) =~= footer);
    assert(content.subrange(f.index_off as int, f.index_off + f.index_len) =~= index);
    assert(content.subrange(f.bloom_off as int, f.bloom_off + f.bloom_len) =~= filter_part);
}

/// Reading a block of a table that was written finds its entries.
pub proof fn lemma_block_at(recs: Seq<Rec>, filter: BloomView, i: int)
    requires
        table_fits(recs, filter),
        0 <= i < blocks_of(recs).len(),
    ensures
        block_at(
            image(blocks_of(recs), filter, recs.len() as u64),
            handles_of(blocks_of(recs))[i],
        ) == Ok::<Seq<Rec>, Corruption>(blocks_of(recs)[i]),
        handles_of(blocks_of(recs))[i].offset + handles_of(blocks_of(recs))[i].len <= image(
            blocks_of(recs),
            filter,
            recs.len() as u64,
        ).len(),
{
    reveal(block_at);
    let blocks = blocks_of(recs);
    let content = image(blocks, filter, recs.len() as u64);
    lemma_blocks_of(recs);
    lemma_data_at(blocks, i);
    lemma_flattened_at(blocks, i);
    let block = blocks[i];
    let h = handles_of(blocks)[i];
    let start = data_bytes(blocks.take(i)).len();
    let part = sealed(block_body(block));
    lemma_unsealed(block_body(block), Part::DataBlock);
    assert(content.subrange(start as int, start + part.len() as int) =~= data_bytes(
        blocks,
    ).subrange(start as int, start + part.len() as int));
    assert(h.offset == start);
    assert(h.len == part.len());
    assert forall|j: int| 0 <= j < block.len() implies entry_fits(#[trigger] block[j]) by {
        assert(block[j] == recs[entries_before(blocks, i) + j]);
    }
    lemma_block_round_trip(block);
}

/// A block of a table is a run, and it ends before the next one begins.
proof fn lemma_block_runs(recs: Seq<Rec>, i: int)
    requires
        model::is_run(recs),
        forall|j: int| 0 <= j < recs.len() ==> entry_fits(#[trigger] recs[j]),
        0 <= i < blocks_of(recs).len(),
    ensures
        model::is_run(blocks_of(recs)[i]),
        forall|j: int|
            0 <= j < blocks_of(recs)[i].len() ==> #[trigger] blocks_of(recs)[i][j] == recs[
                entries_before(blocks_of(recs), i) + j],
{
    let blocks = blocks_of(recs);
    lemma_blocks_of(recs);
    lemma_flattened_at(blocks, i);
    let at = entries_before(blocks, i);
    let block = blocks[i];
    assert forall|j: int| 0 <= j < block.len() implies #[trigger] block[j] == recs[at + j] by {}
    assert forall|a: int, b: int| 0 <= a < b < block.len() implies order::lex_lt(
        (#[trigger] block[a]).key,
        (#[trigger] block[b]).key,
    ) by {
        assert(order::lex_lt(recs[at + a].key, recs[at + b].key));
    }
}

/// The number of entries before a block grows.
proof fn lemma_entries_before_mono(blocks: Seq<Seq<Rec>>, i: int, j: int)
    requires
        0 <= i <= j <= blocks.len(),
    ensures
        entries_before(blocks, i) <= entries_before(blocks, j),
    decreases j - i,
{
    if i < j {
        lemma_flattened_at(blocks, j - 1);
        lemma_entries_before_mono(blocks, i, j - 1);
    }
}

proof fn lemma_boundary(index: Seq<Handle>, key: Seq<u8>, lo: nat, hi: nat)
    requires
        0 < lo <= hi <= index.len(),
        !order::lex_lt(key, index[lo - 1].first_key),
        hi < index.len() ==> order::lex_lt(key, index[hi as int].first_key),
    ensures
        ({
            let n = boundary(index, key, lo, hi);
            &&& lo <= n <= hi
            &&& !order::lex_lt(key, index[n - 1].first_key)
            &&& n < index.len() ==> order::lex_lt(key, index[n as int].first_key)
        }),
    decreases hi - lo,
{
    if lo < hi {
        let mid = (lo + (hi - lo) / 2) as nat;
        if order::lex_lt(key, index[mid as int].first_key) {
            lemma_boundary(index, key, lo, mid);
        } else {
            lemma_boundary(index, key, mid + 1, hi);
        }
    }
}

proof fn lemma_blocks_before(index: Seq<Handle>, key: Seq<u8>)
    ensures
        ({
            let n = blocks_before(index, key);
            &&& n <= index.len()
            &&& n > 0 ==> !order::lex_lt(key, index[n - 1].first_key)
            &&& n < index.len() ==> order::lex_lt(key, index[n as int].first_key)
        }),
{
    if index.len() > 0 && !order::lex_lt(key, index[0].first_key) {
        lemma_boundary(index, key, 1, index.len());
    }
}

/// Halving finds what the block has of the key.
proof fn lemma_searched(recs: Seq<Rec>, key: Seq<u8>, lo: nat, hi: nat)
    requires
        model::is_run(recs),
        lo <= hi <= recs.len(),
        forall|i: int| 0 <= i < lo ==> order::lex_lt((#[trigger] recs[i]).key, key),
        forall|i: int| hi <= i < recs.len() ==> order::lex_lt(key, (#[trigger] recs[i]).key),
    ensures
        searched(recs, key, lo, hi) == model::find(recs, key),
    decreases hi - lo,
{
    order::lemma_lex_irreflexive(key);
    if lo >= hi {
        model::lemma_find(recs, key);
    } else {
        let mid = (lo + (hi - lo) / 2) as nat;
        let at = recs[mid as int].key;
        if at == key {
            model::lemma_find_at(recs, mid as int);
        } else if order::lex_lt(key, at) {
            assert forall|i: int| mid <= i < recs.len() implies order::lex_lt(
                key,
                (#[trigger] recs[i]).key,
            ) by {
                if mid < i {
                    order::lemma_lex_transitive(key, at, recs[i].key);
                }
            }
            lemma_searched(recs, key, lo, mid);
        } else {
            order::lemma_lex_total(key, at);
            assert forall|i: int| 0 <= i < mid + 1 implies order::lex_lt(
                (#[trigger] recs[i]).key,
                key,
            ) by {
                if i < mid {
                    order::lemma_lex_transitive(recs[i].key, at, key);
                }
            }
            lemma_searched(recs, key, mid + 1, hi);
        }
    }
}

/// A lookup in a table that was written finds what the table holds of the key.
pub proof fn lemma_looked_up(recs: Seq<Rec>, filter: BloomView, key: Seq<u8>)
    requires
        is_table_with(image(blocks_of(recs), filter, recs.len() as u64), recs, filter),
    ensures
        looked_up(
            image(blocks_of(recs), filter, recs.len() as u64),
            TableView {
                index: handles_of(blocks_of(recs)),
                filter,
                num_entries: recs.len() as u64,
            },
            key,
        ) == Ok::<Option<Rec>, Corruption>(model::find(recs, key)),
{
    let blocks = blocks_of(recs);
    let index = handles_of(blocks);
    let content = image(blocks, filter, recs.len() as u64);
    let n = blocks_before(index, key);
    lemma_blocks_of(recs);
    lemma_blocks_before(index, key);
    model::lemma_find(recs, key);
    match model::find(recs, key) {
        Some(r) => {
            let at = choose|i: int| 0 <= i < recs.len() && #[trigger] recs[i] == r;
            assert(filter.may_hold(recs[at].key));
            let b = lemma_block_of_entry(blocks, at);
            lemma_block_runs(recs, b);
            lemma_flattened_at(blocks, b);
            let start = entries_before(blocks, b);
            // The key is not before its own block, and before the next one.
            assert(!order::lex_lt(key, index[b].first_key)) by {
                assert(blocks[b][0] == recs[start as int]);
                if start < at {
                    assert(order::lex_lt(recs[start as int].key, recs[at].key));
                    order::lemma_lex_asymmetric(recs[start as int].key, recs[at].key);
                } else {
                    order::lemma_lex_irreflexive(key);
                }
            }
            assert(n == b + 1) by {
                if n <= b {
                    lemma_first_keys(recs, n as int, b);
                    order::lemma_lex_total(index[b].first_key, key);
                    if n < b {
                        assert(order::lex_lt(index[n as int].first_key, index[b].first_key));
                    }
                    assert(order::lex_lt(key, index[n as int].first_key));
                    if n < b {
                        order::lemma_lex_transitive(
                            key,
                            index[n as int].first_key,
                            index[b].first_key,
                        );
                    }
                }
                if n > b + 1 {
                    lemma_flattened_at(blocks, b + 1);
                    lemma_block_runs(recs, b + 1);
                    lemma_first_keys(recs, b + 1, n - 1);
                    if order::lex_lt(key, index[b + 1].first_key) && b + 1 < n - 1 {
                        order::lemma_lex_transitive(
                            key,
                            index[b + 1].first_key,
                            index[n - 1].first_key,
                        );
                    }
                    assert(!order::lex_lt(key, index[b + 1].first_key));
                    assert(blocks[b + 1][0] == recs[entries_before(blocks, b + 1) as int]);
                    assert(order::lex_lt(
                        recs[at].key,
                        recs[entries_before(blocks, b + 1) as int].key,
                    ));
                }
            }
            lemma_block_at(recs, filter, b);
            assert(blocks[b][at - start] == r);
            model::lemma_find_at(blocks[b], at - start);
            lemma_searched(blocks[b], key, 0, blocks[b].len());
        },
        None => {
            if filter.may_hold(key) && n > 0 {
                let b = n - 1;
                lemma_block_at(recs, filter, b);
                lemma_block_runs(recs, b);
                lemma_flattened_at(blocks, b);
                model::lemma_find(blocks[b], key);
                lemma_searched(blocks[b], key, 0, blocks[b].len());
                if model::find(blocks[b], key) is Some {
                    let j = choose|j: int|
                        0 <= j < blocks[b].len() && #[trigger] blocks[b][j] == model::find(
                            blocks[b],
                            key,
                        )->0;
                    assert(recs[entries_before(blocks, b) + j].key == key);
                }
            }
        },
    }
}

/// First keys ascend from block to block.
proof fn lemma_first_keys(recs: Seq<Rec>, i: int, j: int)
    requires
        model::is_run(recs),
        forall|k: int| 0 <= k < recs.len() ==> entry_fits(#[trigger] recs[k]),
        0 <= i <= j < blocks_of(recs).len(),
    ensures
        i < j ==> order::lex_lt(
            handles_of(blocks_of(recs))[i].first_key,
            handles_of(blocks_of(recs))[j].first_key,
        ),
{
    let blocks = blocks_of(recs);
    lemma_blocks_of(recs);
    if i < j {
        lemma_block_runs(recs, i);
        lemma_block_runs(recs, j);
        lemma_flattened_at(blocks, i);
        lemma_flattened_at(blocks, j);
        lemma_entries_before_mono(blocks, i + 1, j);
        assert(blocks[i].len() > 0 && blocks[j].len() > 0);
        let a = entries_before(blocks, i) as int;
        let b = entries_before(blocks, j) as int;
        assert(blocks[i][0] == recs[a + 0]);
        assert(blocks[j][0] == recs[b + 0]);
        assert(order::lex_lt(recs[a].key, recs[b].key));
    }
}

/// The block that an entry is in.
proof fn lemma_block_of_entry(blocks: Seq<Seq<Rec>>, at: int) -> (b: int)
    requires
        0 <= at < flattened(blocks).len(),
    ensures
        0 <= b < blocks.len(),
        entries_before(blocks, b) <= at < entries_before(blocks, b) + blocks[b].len(),
    decreases blocks.len(),
{
    let last = blocks.len() - 1;
    let less = blocks.drop_last();
    assert(less =~= blocks.take(last));
    if at >= flattened(less).len() {
        last
    } else {
        let b = lemma_block_of_entry(less, at);
        assert(less.take(b) =~= blocks.take(b));
        b
    }
}

/// Reading a table that was written, from front to back, finds its entries.
pub proof fn lemma_items(recs: Seq<Rec>, filter: BloomView, i: nat)
    requires
        table_fits(recs, filter),
        i <= blocks_of(recs).len(),
    ensures
        items_from(
            image(blocks_of(recs), filter, recs.len() as u64),
            handles_of(blocks_of(recs)),
            i,
        ) == good_items(recs.skip(entries_before(blocks_of(recs), i as int) as int)),
    decreases blocks_of(recs).len() - i,
{
    let blocks = blocks_of(recs);
    let content = image(blocks, filter, recs.len() as u64);
    lemma_blocks_of(recs);
    if i < blocks.len() {
        lemma_items(recs, filter, i + 1);
        lemma_block_at(recs, filter, i as int);
        lemma_flattened_at(blocks, i as int);
        let a = entries_before(blocks, i as int) as int;
        let b = entries_before(blocks, i as int + 1) as int;
        assert(recs.skip(a) =~= blocks[i as int] + recs.skip(b));
        assert(good_items(recs.skip(a)) =~= good_items(blocks[i as int]) + good_items(
            recs.skip(b),
        ));
    } else {
        assert(blocks.take(blocks.len() as int) =~= blocks);
        assert(good_items(recs.skip(recs.len() as int)) =~= Seq::empty());
    }
}

/// The blocks of more entries begin with those of fewer.
pub proof fn lemma_layout_grows(recs: Seq<Rec>, i: int)
    requires
        0 <= i <= recs.len(),
    ensures
        data_bytes(layout(recs.take(i)).blocks).len() <= data_bytes(blocks_of(recs)).len(),
        data_bytes(layout(recs.take(i)).blocks).len() <= data_bytes(layout(recs).blocks).len(),
    decreases recs.len() - i,
{
    let l = layout(recs);
    if l.current.len() > 0 {
        assert(l.blocks.push(l.current).drop_last() =~= l.blocks);
    }
    if i == recs.len() {
        assert(recs.take(i) =~= recs);
    } else {
        let next = recs.take(i + 1);
        assert(next.drop_last() =~= recs.take(i));
        let a = layout(recs.take(i));
        let b = layout(next);
        if b.blocks != a.blocks {
            assert(b.blocks.drop_last() =~= a.blocks);
        }
        lemma_layout_grows(recs, i + 1);
    }
}

} // verus!
