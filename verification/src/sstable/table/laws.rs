//! What holds of the bytes of every table, and of what is read from them.

use vstd::prelude::*;

use super::{
    block_at, block_body, blocks_of, data_bytes, entries_before, entry_bytes, entry_fits, flattened,
    good_items, handle_bytes, handle_of, handles_bytes, handles_of, is_table_with, items_from,
    looked_up, opened, parsed_block, parsed_entry, parsed_handle, parsed_handles, parsed_value, sealed,
    unsealed, Handle, TableView,
};
use crate::checksum;
use crate::codec;
use crate::model;
use crate::model::Rec;
use crate::order;
use crate::sstable;
use crate::sstable::bloom;
use crate::sstable::bloom::BloomView;
use crate::sstable::{Corruption, Part};

verus! {

/// The number that the last four bytes of `buf` hold, the least significant first.
pub open spec fn stored_crc(buf: Seq<u8>) -> int {
    let n = buf.len() as int;
    buf[n - 4] + 0x100 * buf[n - 3] + 0x1_0000 * buf[n - 2] + 0x100_0000 * buf[n - 1]
}

/// The bytes end in the checksum of those before it.
pub open spec fn is_sound(buf: Seq<u8>) -> bool {
    buf.len() >= 4 && stored_crc(buf) == checksum::crc32(buf.take(buf.len() - 4))
}

/// The checksum decides, for every part and every length: bytes that end in the checksum of
/// those before it are accepted, all others are refused, and the refusal tells the two
/// checksums.
pub proof fn lemma_checksum_decides(buf: Seq<u8>, part: Part)
    ensures
        buf.len() < 4 ==> unsealed(buf, part) == Err::<Seq<u8>, Corruption>(
            Corruption::TooShortForCrc { part },
        ),
        is_sound(buf) ==> unsealed(buf, part) == Ok::<Seq<u8>, Corruption>(
            buf.take(buf.len() - 4),
        ),
        buf.len() >= 4 && !is_sound(buf) ==> unsealed(buf, part) == Err::<Seq<u8>, Corruption>(
            Corruption::CrcMismatch {
                part,
                stored: stored_crc(buf) as u32,
                computed: checksum::crc32(buf.take(buf.len() - 4)),
            },
        ),
{
    if buf.len() >= 4 {
        let last = buf.skip(buf.len() - 4);
        codec::lemma_little_endian(last, 0, 0);
        codec::lemma_bytes_u32(last);
    }
}

/// A data block that is in the file and does not end in its checksum is refused.
pub proof fn lemma_damaged_block(content: Seq<u8>, h: Handle)
    requires
        h.len >= 4,
        h.offset + h.len <= content.len(),
        !is_sound(content.subrange(h.offset as int, h.offset + h.len)),
    ensures
        block_at(content, h) is Err,
        block_at(content, h)->Err_0 is CrcMismatch,
{
    reveal(block_at);
    let raw = content.subrange(h.offset as int, h.offset + h.len);
    lemma_checksum_decides(raw, Part::DataBlock);
}

/// Where the data blocks are: one after the other, from the start of the file on.
proof fn lemma_offsets(blocks: Seq<Seq<Rec>>, i: int, j: int)
    requires
        0 <= i < j <= blocks.len(),
    ensures
        data_bytes(blocks.take(i)).len() + sealed(block_body(blocks[i])).len() <= data_bytes(
            blocks.take(j),
        ).len(),
    decreases j - i,
{
    let less = blocks.take(j);
    assert(less.drop_last() =~= blocks.take(j - 1));
    if i < j - 1 {
        lemma_offsets(blocks, i, j - 1);
    }
}

/// `damaged` is `bytes` but for what is in the block that `h` points to, and that no longer
/// ends in its checksum.
pub open spec fn block_damaged(bytes: Seq<u8>, damaged: Seq<u8>, h: Handle) -> bool {
    &&& damaged.len() == bytes.len()
    &&& h.offset + h.len <= bytes.len()
    &&& damaged.take(h.offset as int) == bytes.take(h.offset as int)
    &&& damaged.skip(h.offset + h.len) == bytes.skip(h.offset + h.len)
    &&& !is_sound(damaged.subrange(h.offset as int, h.offset + h.len))
}

/// A table one of whose data blocks was damaged so that it no longer matches its checksum opens
/// as before. A lookup of a key that is in that block, or that the filter lets through to it,
/// is refused. Reading from front to back gives the entries of the blocks before it, and then
/// that it is corrupt. Nothing of the block is handed out.
pub proof fn lemma_damage_is_refused(
    bytes: Seq<u8>,
    recs: Seq<Rec>,
    filter: BloomView,
    b: int,
    damaged: Seq<u8>,
)
    requires
        is_table_with(bytes, recs, filter),
        0 <= b < blocks_of(recs).len(),
        block_damaged(bytes, damaged, handles_of(blocks_of(recs))[b]),
    ensures
        ({
            let blocks = blocks_of(recs);
            let t = TableView {
                index: handles_of(blocks),
                filter,
                num_entries: recs.len() as u64,
            };
            let before = entries_before(blocks, b) as int;
            let items = items_from(damaged, t.index, 0);
            &&& opened(damaged) == Ok::<TableView, Corruption>(t)
            &&& forall|i: int|
                0 <= i < blocks[b].len() ==> looked_up(
                    damaged,
                    t,
                    (#[trigger] blocks[b][i]).key,
                ) is Err
            &&& forall|key: Seq<u8>|
                filter.may_hold(key) && !order::lex_lt(key, blocks[b][0].key) && (b + 1
                    < blocks.len() ==> order::lex_lt(key, blocks[b + 1][0].key))
                    ==> #[trigger] looked_up(damaged, t, key) is Err
            &&& items.len() == before + 1
            &&& items.take(before) == good_items(recs.take(before))
            &&& items[before] is Err
        }),
{
    let blocks = blocks_of(recs);
    let hs = handles_of(blocks);
    let h = hs[b];
    let t = TableView { index: hs, filter, num_entries: recs.len() as u64 };
    super::lemma_blocks_of(recs);
    super::lemma_opened(recs, filter);
    super::lemma_block_at(recs, filter, b);
    super::lemma_data_at(blocks, b);
    super::lemma_flattened_at(blocks, b);
    codec::lemma_u32(checksum::crc32(block_body(blocks[b])));
    assert(h == handle_of(blocks, b));
    assert(h.len == sealed(block_body(blocks[b])).len());
    assert(h.offset == data_bytes(blocks.take(b)).len());
    lemma_damaged_block(damaged, h);
    lemma_opened_same(bytes, recs, filter, h.offset + h.len, damaged);
    assert forall|key: Seq<u8>|
        filter.may_hold(key) && !order::lex_lt(key, blocks[b][0].key) && (b + 1 < blocks.len()
            ==> order::lex_lt(key, blocks[b + 1][0].key)) implies #[trigger] looked_up(
        damaged,
        t,
        key,
    ) is Err by {
        lemma_reaches(recs, b, key);
    }
    assert forall|i: int| 0 <= i < blocks[b].len() implies looked_up(
        damaged,
        t,
        (#[trigger] blocks[b][i]).key,
    ) is Err by {
        let key = blocks[b][i].key;
        super::lemma_block_runs(recs, b);
        let at = entries_before(blocks, b) + i;
        assert(recs[at] == blocks[b][i]);
        assert(filter.may_hold(recs[at].key));
        order::lemma_lex_irreflexive(key);
        if i > 0 {
            assert(order::lex_lt(blocks[b][0].key, key));
            order::lemma_lex_asymmetric(blocks[b][0].key, key);
        }
        if b + 1 < blocks.len() {
            super::lemma_block_runs(recs, b + 1);
            super::lemma_flattened_at(blocks, b + 1);
            assert(blocks[b + 1].len() > 0);
            assert(blocks[b + 1][0] == recs[entries_before(blocks, b + 1) as int + 0]);
            assert(order::lex_lt(recs[at].key, recs[entries_before(blocks, b + 1) as int].key));
        }
    }
    assert(blocks.take(0) =~= Seq::empty());
    lemma_items_damaged(bytes, recs, filter, b, damaged, 0);
    assert(recs.subrange(0, entries_before(blocks, b) as int) =~= recs.take(
        entries_before(blocks, b) as int,
    ));
}

/// A file that differs from a table only before the end of its data opens as the table does.
proof fn lemma_opened_same(
    bytes: Seq<u8>,
    recs: Seq<Rec>,
    filter: BloomView,
    upto: int,
    damaged: Seq<u8>,
)
    requires
        is_table_with(bytes, recs, filter),
        0 <= upto <= data_bytes(blocks_of(recs)).len(),
        damaged.len() == bytes.len(),
        damaged.skip(upto) == bytes.skip(upto),
    ensures
        opened(damaged) == opened(bytes),
{
    let data = data_bytes(blocks_of(recs));
    let limit = bytes.len() - 48;
    super::lemma_opened(recs, filter);
    let hs = handles_of(blocks_of(recs));
    let index = sealed(super::index_body(hs));
    let filter_part = sealed(filter.bytes());
    let f = super::Footer {
        index_off: data.len() as u64,
        index_len: index.len() as u32,
        bloom_off: (data.len() + index.len()) as u64,
        bloom_len: filter_part.len() as u32,
        num_entries: recs.len() as u64,
    };
    super::lemma_footer_round_trip(f);
    codec::lemma_u32(checksum::crc32(super::index_body(hs)));
    codec::lemma_u32(checksum::crc32(filter.bytes()));
    bloom::lemma_bloom_round_trip(filter, Seq::empty());
    let footer = sealed(
        super::footer_body(f.index_off, f.index_len, f.bloom_off, f.bloom_len, f.num_entries),
    );
    assert(bytes.skip(limit) =~= footer);
    assert(limit >= data.len());
    assert forall|i: int| upto <= i < bytes.len() implies damaged[i] == bytes[i] by {
        assert(damaged.skip(upto)[i - upto] == bytes.skip(upto)[i - upto]);
    }
    assert(damaged.skip(limit) =~= bytes.skip(limit));
    assert(damaged.subrange(f.index_off as int, f.index_off + f.index_len) =~= bytes.subrange(
        f.index_off as int,
        f.index_off + f.index_len,
    ));
    assert(damaged.subrange(f.bloom_off as int, f.bloom_off + f.bloom_len) =~= bytes.subrange(
        f.bloom_off as int,
        f.bloom_off + f.bloom_len,
    ));
}

/// The search for the block of a key ends at the block whose first key is the last that is not
/// after it.
pub proof fn lemma_reaches(recs: Seq<Rec>, b: int, key: Seq<u8>)
    requires
        model::is_run(recs),
        forall|k: int| 0 <= k < recs.len() ==> super::entry_fits(#[trigger] recs[k]),
        0 <= b < blocks_of(recs).len(),
        !order::lex_lt(key, blocks_of(recs)[b][0].key),
        b + 1 < blocks_of(recs).len() ==> order::lex_lt(key, blocks_of(recs)[b + 1][0].key),
    ensures
        super::blocks_before(handles_of(blocks_of(recs)), key) == b + 1,
{
    let hs = handles_of(blocks_of(recs));
    let n = super::blocks_before(hs, key) as int;
    super::lemma_blocks_before(hs, key);
    if n <= b {
        super::lemma_first_keys(recs, n, b);
        if n < b {
            order::lemma_lex_transitive(key, hs[n].first_key, hs[b].first_key);
        }
    }
    if n > b + 1 {
        super::lemma_first_keys(recs, b + 1, n - 1);
        if b + 1 < n - 1 {
            order::lemma_lex_transitive(key, hs[b + 1].first_key, hs[n - 1].first_key);
        }
    }
}

proof fn lemma_items_damaged(
    bytes: Seq<u8>,
    recs: Seq<Rec>,
    filter: BloomView,
    b: int,
    damaged: Seq<u8>,
    i: nat,
)
    requires
        is_table_with(bytes, recs, filter),
        0 <= i <= b < blocks_of(recs).len(),
        block_damaged(bytes, damaged, handles_of(blocks_of(recs))[b]),
        block_at(damaged, handles_of(blocks_of(recs))[b]) is Err,
    ensures
        ({
            let blocks = blocks_of(recs);
            let from = entries_before(blocks, i as int) as int;
            let to = entries_before(blocks, b) as int;
            &&& 0 <= from <= to <= recs.len()
            &&& items_from(damaged, handles_of(blocks), i) == good_items(
                recs.subrange(from, to),
            ).push(Err(block_at(damaged, handles_of(blocks)[b])->Err_0))
        }),
    decreases b - i,
{
    let blocks = blocks_of(recs);
    let hs = handles_of(blocks);
    let from = entries_before(blocks, i as int) as int;
    let to = entries_before(blocks, b) as int;
    let bad: std::result::Result<Rec, Corruption> = Err(block_at(damaged, hs[b])->Err_0);
    super::lemma_blocks_of(recs);
    super::lemma_flattened_at(blocks, i as int);
    super::lemma_flattened_at(blocks, b);
    if i == b {
        assert(good_items(recs.subrange(from, to)).push(bad) =~= seq![bad]);
    } else {
        lemma_items_damaged(bytes, recs, filter, b, damaged, i + 1);
        super::lemma_block_at(recs, filter, i as int);
        lemma_offsets(blocks, i as int, b);
        codec::lemma_u32(checksum::crc32(block_body(blocks[i as int])));
        super::lemma_data_at(blocks, i as int);
        super::lemma_data_at(blocks, b);
        let h = hs[i as int];
        assert(hs[b].offset == data_bytes(blocks.take(b)).len());
        assert(h.offset + h.len <= hs[b].offset);
        assert(block_at(damaged, h) == block_at(bytes, h)) by {
            reveal(block_at);
            let k = hs[b].offset as int;
            assert(damaged.subrange(h.offset as int, h.offset + h.len) =~= damaged.take(
                k,
            ).subrange(h.offset as int, h.offset + h.len));
            assert(bytes.subrange(h.offset as int, h.offset + h.len) =~= bytes.take(k).subrange(
                h.offset as int,
                h.offset + h.len,
            ));
        }
        let next = entries_before(blocks, i as int + 1) as int;
        assert(recs.subrange(from, to) =~= blocks[i as int] + recs.subrange(next, to));
        assert(good_items(recs.subrange(from, to)).push(bad) =~= good_items(blocks[i as int])
            + good_items(recs.subrange(next, to)).push(bad));
    }
}

/// Only what is an entry is read as one: the bytes in front are those of the entry, whose tag
/// says whether a value follows, and no other tag is accepted.
pub proof fn lemma_reads_entries_only(s: Seq<u8>)
    ensures
        parsed_entry(s) matches Ok((r, rest)) ==> {
            let k = r.key.len() as int;
            &&& s == entry_bytes(r) + rest
            &&& k <= u32::MAX
            &&& r.val matches Some(v) ==> v.len() <= u32::MAX && s[12 + k] == 1
            &&& r.val is None ==> s[12 + k] == 0
            &&& rest.len() + 13 <= s.len()
        },
{
    reveal(parsed_entry);
    reveal(parsed_value);
    sstable::lemma_took_u32(s);
    if let Ok((r, rest)) = parsed_entry(s) {
        let (key_len, s1) = sstable::take_u32(s)->Ok_0;
        sstable::lemma_took(s1, key_len as nat);
        let (key, s2) = sstable::taken(s1, key_len as nat)->Ok_0;
        sstable::lemma_took_u64(s2);
        let (seq, s3) = sstable::take_u64(s2)->Ok_0;
        sstable::lemma_took(s3, 1);
        let (one, s4) = sstable::taken(s3, 1)->Ok_0;
        assert(one =~= seq![one[0]]);
        codec::lemma_u32(key_len);
        codec::lemma_u64(seq);
        if let Some(v) = r.val {
            sstable::lemma_took_u32(s4);
            let (len, s5) = sstable::take_u32(s4)->Ok_0;
            sstable::lemma_took(s5, len as nat);
            codec::lemma_u32(len);
            assert(s4 =~= codec::le32(len) + v + rest);
        }
        assert(s =~= entry_bytes(r) + rest);
    }
}

/// Only what is made of entries is read as a block: the bytes are those of the entries that are
/// found, back to back, with nothing between them or behind them.
pub proof fn lemma_reads_blocks_only(s: Seq<u8>)
    ensures
        parsed_block(s) matches Ok(recs) ==> s == block_body(recs),
    decreases s.len(),
{
    if s.len() == 0 {
        assert(s =~= block_body(Seq::empty()));
    } else {
        lemma_reads_entries_only(s);
        if let Ok((r, rest)) = parsed_entry(s) {
            lemma_reads_blocks_only(rest);
            if let Ok(more) = parsed_block(rest) {
                let all = seq![r] + more;
                super::lemma_block_body_front(all);
                assert(all.drop_first() =~= more);
            }
        }
    }
}

/// Where the parts of an entry are: the length of the key, the key, the sequence number, the tag,
/// and for a value its length and its bytes.
pub proof fn lemma_entry_format(r: Rec)
    requires
        entry_fits(r),
    ensures
        ({
            let e = entry_bytes(r);
            let k = r.key.len() as int;
            &&& codec::u32_at(e, 0) == k
            &&& e.subrange(4, 4 + k) == r.key
            &&& codec::u64_at(e, 4 + k) == r.seq
            &&& r.val matches Some(v) ==> {
                &&& e[12 + k] == 1
                &&& codec::u32_at(e, 13 + k) == v.len()
                &&& e.skip(17 + k) == v
                &&& e.len() == 17 + k + v.len()
            }
            &&& r.val is None ==> e[12 + k] == 0 && e.len() == 13 + k
        }),
{
    let e = entry_bytes(r);
    let k = r.key.len() as int;
    codec::lemma_u32(r.key.len() as u32);
    codec::lemma_u64(r.seq);
    assert(e.subrange(0, 4) =~= codec::le32(r.key.len() as u32));
    assert(e.subrange(4, 4 + k) =~= r.key);
    assert(e.subrange(4 + k, 12 + k) =~= codec::le64(r.seq));
    if let Some(v) = r.val {
        codec::lemma_u32(v.len() as u32);
        assert(e.subrange(13 + k, 17 + k) =~= codec::le32(v.len() as u32));
        assert(e.skip(17 + k) =~= v);
    }
}

/// How entries are put into blocks: all of them, in order, none empty. A block has no more than
/// 4096 bytes of entries, unless it has one entry. A block ends only where the next entry would
/// have made it larger than that.
pub proof fn lemma_blocks_are_full(recs: Seq<Rec>)
    requires
        forall|i: int| 0 <= i < recs.len() ==> entry_fits(#[trigger] recs[i]),
    ensures
        flattened(blocks_of(recs)) == recs,
        forall|i: int|
            0 <= i < blocks_of(recs).len() ==> {
                let block = #[trigger] blocks_of(recs)[i];
                &&& block.len() > 0
                &&& block_body(block).len() <= 4096 || block.len() == 1
            },
        forall|i: int|
            0 <= i < blocks_of(recs).len() - 1 ==> {
                let block = #[trigger] blocks_of(recs)[i];
                block_body(block).len() + entry_bytes(blocks_of(recs)[i + 1][0]).len() > 4096
            },
{
    super::lemma_blocks_of(recs);
    super::lemma_layout(recs);
    lemma_layout_full(recs);
    let l = super::layout(recs);
    let blocks = blocks_of(recs);
    assert forall|i: int| 0 <= i < blocks.len() implies ({
        let block = #[trigger] blocks[i];
        &&& block.len() > 0
        &&& block_body(block).len() <= 4096 || block.len() == 1
    }) by {
        if i < l.blocks.len() {
            assert(blocks[i] == l.blocks[i]);
        }
    }
    assert forall|i: int| 0 <= i < blocks.len() - 1 implies ({
        let block = #[trigger] blocks[i];
        block_body(block).len() + entry_bytes(blocks[i + 1][0]).len() > 4096
    }) by {
        assert(blocks[i] == l.blocks[i]);
        if i + 1 < l.blocks.len() {
            assert(blocks[i + 1] == l.blocks[i + 1]);
        } else {
            assert(blocks[i + 1] == l.current);
        }
    }
}

proof fn lemma_layout_full(recs: Seq<Rec>)
    requires
        forall|i: int| 0 <= i < recs.len() ==> entry_fits(#[trigger] recs[i]),
    ensures
        ({
            let l = super::layout(recs);
            &&& forall|i: int|
                0 <= i < l.blocks.len() ==> {
                    let block = #[trigger] l.blocks[i];
                    block.len() > 0 && (block_body(block).len() <= 4096 || block.len() == 1)
                }
            &&& forall|i: int|
                0 <= i < l.blocks.len() ==> {
                    let block = #[trigger] l.blocks[i];
                    let next = if i + 1 < l.blocks.len() {
                        l.blocks[i + 1]
                    } else {
                        l.current
                    };
                    block_body(block).len() + entry_bytes(next[0]).len() > 4096
                }
            &&& block_body(l.current).len() <= 4096 || l.current.len() == 1
            &&& l.blocks.len() > 0 ==> l.current.len() > 0
        }),
    decreases recs.len(),
{
    if recs.len() > 0 {
        let front = recs.drop_last();
        let r = recs.last();
        assert forall|i: int| 0 <= i < front.len() implies entry_fits(#[trigger] front[i]) by {
            assert(front[i] == recs[i]);
        }
        lemma_layout_full(front);
        super::lemma_layout(front);
        super::lemma_entry_len(r);
        let a = super::layout(front);
        let b = super::layout(recs);
        if b.blocks != a.blocks {
            let one = seq![r];
            assert(one.drop_last() =~= Seq::empty());
            assert forall|i: int| 0 <= i < b.blocks.len() implies ({
                let block = #[trigger] b.blocks[i];
                let next = if i + 1 < b.blocks.len() {
                    b.blocks[i + 1]
                } else {
                    b.current
                };
                &&& block.len() > 0 && (block_body(block).len() <= 4096 || block.len() == 1)
                &&& block_body(block).len() + entry_bytes(next[0]).len() > 4096
            }) by {
                if i < a.blocks.len() {
                    assert(b.blocks[i] == a.blocks[i]);
                }
            }
        } else {
            assert(b.current.drop_last() =~= a.current);
            if a.current.len() == 0 {
                assert(block_body(a.current) =~= Seq::empty());
            } else {
                assert(b.current[0] == a.current[0]);
            }
        }
    }
}

/// Only handles are read as handles: the bytes in front are those of the handles, as many as
/// were asked for.
pub proof fn lemma_reads_handles_only(s: Seq<u8>, count: nat)
    ensures
        parsed_handles(s, count) matches Ok(hs) ==> hs.len() == count && s.len()
            >= handles_bytes(hs).len() && s.take(handles_bytes(hs).len() as int) == handles_bytes(
            hs,
        ),
    decreases count,
{
    if count == 0 {
        assert(s.take(0) =~= handles_bytes(Seq::empty()));
    } else if let Ok((h, rest)) = parsed_handle(s) {
        reveal(parsed_handle);
        sstable::lemma_took_u32(s);
        let (key_len, s1) = sstable::take_u32(s)->Ok_0;
        sstable::lemma_took(s1, key_len as nat);
        let (key, s2) = sstable::taken(s1, key_len as nat)->Ok_0;
        sstable::lemma_took_u64(s2);
        let (offset, s3) = sstable::take_u64(s2)->Ok_0;
        sstable::lemma_took_u32(s3);
        assert(s =~= handle_bytes(h) + rest);
        lemma_reads_handles_only(rest, (count - 1) as nat);
        if let Ok(more) = parsed_handles(rest, (count - 1) as nat) {
            let hs = seq![h] + more;
            super::lemma_handles_front(hs);
            assert(hs.drop_first() =~= more);
            let n = handles_bytes(more).len() as int;
            assert(s.take(handles_bytes(hs).len() as int) =~= handle_bytes(h) + rest.take(n));
        }
    }
}

/// Only what is a filter is read as one, and it can be probed: it has bits, in whole bytes, as
/// many as it says, and at least one hash.
pub proof fn lemma_reads_filters_only(s: Seq<u8>)
    ensures
        bloom::parsed_bloom(s) matches Ok((b, rest)) ==> {
            &&& s == b.bytes() + rest
            &&& b.num_bits > 0
            &&& b.num_hashes > 0
            &&& b.num_bits == 8 * b.bits.len()
        },
{
    if let Ok((b, rest)) = bloom::parsed_bloom(s) {
        sstable::lemma_took_u32(s);
        let (num_bits, s1) = sstable::take_u32(s)->Ok_0;
        sstable::lemma_took_u32(s1);
        let (num_hashes, s2) = sstable::take_u32(s1)->Ok_0;
        sstable::lemma_took_u64(s2);
        let (len, s3) = sstable::take_u64(s2)->Ok_0;
        sstable::lemma_took(s3, len as nat);
        assert(s =~= b.bytes() + rest);
    }
}

/// What a file has to be to open: 48 bytes or more, of which the last 48 are a footer that
/// matches its checksum and has the magic number and the version in it; the two regions that the
/// footer names end before it, and each matches its checksum; and they hold the index and the
/// filter that the table is opened with.
pub proof fn lemma_opens_tables_only(content: Seq<u8>)
    ensures
        opened(content) matches Ok(t) ==> {
            let at = content.len() - 48;
            let footer = content.skip(at);
            let index_off = codec::u64_at(footer, 12) as int;
            let index_len = codec::u32_at(footer, 20) as int;
            let bloom_off = codec::u64_at(footer, 24) as int;
            let bloom_len = codec::u32_at(footer, 32) as int;
            let index = content.subrange(index_off, index_off + index_len);
            let filter = content.subrange(bloom_off, bloom_off + bloom_len);
            &&& at >= 0
            &&& is_sound(footer)
            &&& codec::u64_at(footer, 0) == 0x4143_4352_5F53_5354
            &&& codec::u32_at(footer, 8) == 1
            &&& t.num_entries == codec::u64_at(footer, 36)
            &&& index_off + index_len <= at
            &&& bloom_off + bloom_len <= at
            &&& is_sound(index)
            &&& is_sound(filter)
            &&& codec::u32_at(index, 0) == t.index.len()
            &&& index.len() >= 8 + handles_bytes(t.index).len()
            &&& index.subrange(4, 4 + handles_bytes(t.index).len() as int) == handles_bytes(t.index)
            &&& filter.len() >= 4 + t.filter.bytes().len()
            &&& filter.take(t.filter.bytes().len() as int) == t.filter.bytes()
            &&& t.filter.num_bits > 0
            &&& t.filter.num_hashes > 0
            &&& t.filter.num_bits == 8 * t.filter.bits.len()
        },
{
    if let Ok(t) = opened(content) {
        let at = content.len() - 48;
        let footer = content.skip(at);
        let index_off = codec::u64_at(footer, 12) as int;
        let index_len = codec::u32_at(footer, 20) as int;
        let bloom_off = codec::u64_at(footer, 24) as int;
        let bloom_len = codec::u32_at(footer, 32) as int;
        let index = content.subrange(index_off, index_off + index_len);
        let filter = content.subrange(bloom_off, bloom_off + bloom_len);
        lemma_checksum_decides(footer, Part::Footer);
        lemma_checksum_decides(index, Part::Index);
        lemma_checksum_decides(filter, Part::Bloom);
        let body = index.take(index.len() - 4);
        sstable::lemma_took_u32(body);
        let (count, rest) = sstable::take_u32(body)->Ok_0;
        assert(body.take(4) =~= index.subrange(0, 4));
        codec::lemma_u32(count);
        codec::lemma_bytes_u32(body.take(4));
        lemma_reads_handles_only(rest, count as nat);
        let n = handles_bytes(t.index).len() as int;
        assert(index.subrange(4, 4 + n) =~= rest.take(n)) by {
            assert(body =~= codec::le32(count) + rest);
        }
        let kept = filter.take(filter.len() - 4);
        lemma_reads_filters_only(kept);
        assert(filter.take(t.filter.bytes().len() as int) =~= t.filter.bytes());
    }
}

/// How a table file is laid out: the data blocks from the start on, where the index says they
/// are, each in front of its checksum; the index; the filter; and the footer, which says where
/// these two are and how many entries there are.
pub proof fn lemma_table_format(bytes: Seq<u8>, recs: Seq<Rec>, filter: BloomView)
    requires
        is_table_with(bytes, recs, filter),
    ensures
        ({
            let blocks = blocks_of(recs);
            let hs = handles_of(blocks);
            let at = bytes.len() - 48;
            let footer = bytes.skip(at);
            let index_off = codec::u64_at(footer, 12) as int;
            let index_len = codec::u32_at(footer, 20) as int;
            let bloom_off = codec::u64_at(footer, 24) as int;
            let bloom_len = codec::u32_at(footer, 32) as int;
            &&& at >= 0
            &&& is_sound(footer)
            &&& codec::u64_at(footer, 0) == 0x4143_4352_5F53_5354
            &&& codec::u32_at(footer, 8) == 1
            &&& codec::u64_at(footer, 36) == recs.len()
            &&& index_off + index_len == bloom_off
            &&& bloom_off + bloom_len == at
            &&& is_sound(bytes.subrange(index_off, bloom_off))
            &&& is_sound(bytes.subrange(bloom_off, at))
            &&& bytes.subrange(index_off, bloom_off - 4) == codec::le32(hs.len() as u32)
                + handles_bytes(hs)
            &&& bytes.subrange(bloom_off, at - 4) == filter.bytes()
            &&& hs.len() == blocks.len()
            &&& forall|i: int|
                0 <= i < hs.len() ==> {
                    let h = #[trigger] hs[i];
                    let raw = bytes.subrange(h.offset as int, h.offset + h.len);
                    &&& h.offset + h.len <= index_off
                    &&& h.first_key == blocks[i][0].key
                    &&& is_sound(raw)
                    &&& raw.take(raw.len() - 4) == block_body(blocks[i])
                    &&& i == 0 ==> h.offset == 0
                    &&& i + 1 < hs.len() ==> h.offset + h.len == hs[i + 1].offset
                    &&& i + 1 == hs.len() ==> h.offset + h.len == index_off
                }
        }),
{
    let blocks = blocks_of(recs);
    let hs = handles_of(blocks);
    let data = data_bytes(blocks);
    let index = sealed(super::index_body(hs));
    let filter_part = sealed(filter.bytes());
    let f = super::Footer {
        index_off: data.len() as u64,
        index_len: index.len() as u32,
        bloom_off: (data.len() + index.len()) as u64,
        bloom_len: filter_part.len() as u32,
        num_entries: recs.len() as u64,
    };
    let footer = sealed(
        super::footer_body(f.index_off, f.index_len, f.bloom_off, f.bloom_len, f.num_entries),
    );
    let at = bytes.len() - 48;
    super::lemma_blocks_of(recs);
    super::lemma_footer_round_trip(f);
    super::lemma_unsealed(super::index_body(hs), Part::Index);
    super::lemma_unsealed(filter.bytes(), Part::Bloom);
    super::lemma_unsealed(
        super::footer_body(f.index_off, f.index_len, f.bloom_off, f.bloom_len, f.num_entries),
        Part::Footer,
    );
    bloom::lemma_bloom_round_trip(filter, Seq::empty());
    codec::lemma_u32(hs.len() as u32);
    assert(bytes.len() == data.len() + index.len() + filter_part.len() + 48);
    assert(bytes.skip(at) =~= footer);
    let i0 = f.index_off as int;
    let b0 = f.bloom_off as int;
    assert(bytes.subrange(i0, b0) =~= index);
    assert(bytes.subrange(b0, at) =~= filter_part);
    assert(bytes.subrange(i0, b0 - 4) =~= super::index_body(hs));
    assert(bytes.subrange(b0, at - 4) =~= filter.bytes());
    lemma_checksum_decides(footer, Part::Footer);
    lemma_checksum_decides(index, Part::Index);
    lemma_checksum_decides(filter_part, Part::Bloom);
    assert forall|i: int| 0 <= i < hs.len() implies ({
        let h = #[trigger] hs[i];
        let raw = bytes.subrange(h.offset as int, h.offset + h.len);
        &&& h.offset + h.len <= f.index_off
        &&& h.first_key == blocks[i][0].key
        &&& is_sound(raw)
        &&& raw.take(raw.len() - 4) == block_body(blocks[i])
        &&& i == 0 ==> h.offset == 0
        &&& i + 1 < hs.len() ==> h.offset + h.len == hs[i + 1].offset
        &&& i + 1 == hs.len() ==> h.offset + h.len == f.index_off
    }) by {
        let h = hs[i];
        let part = sealed(block_body(blocks[i]));
        let start = data_bytes(blocks.take(i)).len() as int;
        super::lemma_data_at(blocks, i);
        super::lemma_unsealed(block_body(blocks[i]), Part::DataBlock);
        lemma_checksum_decides(part, Part::DataBlock);
        assert(h.offset == start && h.len == part.len());
        assert(bytes.subrange(start, start + part.len() as int) =~= data.subrange(
            start,
            start + part.len() as int,
        ));
        assert(part.take(part.len() - 4) =~= block_body(blocks[i]));
        assert(blocks.take(i + 1).drop_last() =~= blocks.take(i));
        assert(data_bytes(blocks.take(i + 1)).len() == start + part.len());
        if i == 0 {
            assert(blocks.take(0) =~= Seq::empty());
        }
        if i + 1 < hs.len() {
            super::lemma_data_at(blocks, i + 1);
            assert(hs[i + 1] == handle_of(blocks, i + 1));
        } else {
            assert(blocks.take(i + 1) =~= blocks);
        }
    }
}

/// Where the parts of a handle in the index are: the length of the first key, that key, and
/// where the block is and how long it is.
pub proof fn lemma_handle_format(h: Handle)
    requires
        h.first_key.len() <= u32::MAX,
    ensures
        ({
            let s = handle_bytes(h);
            let k = h.first_key.len() as int;
            &&& s.len() == 16 + k
            &&& codec::u32_at(s, 0) == k
            &&& s.subrange(4, 4 + k) == h.first_key
            &&& codec::u64_at(s, 4 + k) == h.offset
            &&& codec::u32_at(s, 12 + k) == h.len
        }),
{
    let s = handle_bytes(h);
    let k = h.first_key.len() as int;
    codec::lemma_u32(k as u32);
    codec::lemma_u64(h.offset);
    codec::lemma_u32(h.len);
    assert(s.subrange(0, 4) =~= codec::le32(k as u32));
    assert(s.subrange(4, 4 + k) =~= h.first_key);
    assert(s.subrange(4 + k, 12 + k) =~= codec::le64(h.offset));
    assert(s.subrange(12 + k, 16 + k) =~= codec::le32(h.len));
}

/// How handles and entries stand in their parts: back to back, in order.
pub proof fn lemma_back_to_back(hs: Seq<Handle>, h: Handle, recs: Seq<Rec>, r: Rec)
    ensures
        handles_bytes(Seq::empty()) == Seq::<u8>::empty(),
        handles_bytes(hs.push(h)) == handles_bytes(hs) + handle_bytes(h),
        block_body(Seq::empty()) == Seq::<u8>::empty(),
        block_body(recs.push(r)) == block_body(recs) + entry_bytes(r),
{
    assert(hs.push(h).drop_last() =~= hs);
    assert(recs.push(r).drop_last() =~= recs);
}

/// Where the parts of a filter are: the number of its bits, the number of hashes, the length of
/// the bit array, and the bit array.
pub proof fn lemma_filter_format(b: BloomView)
    requires
        b.bits.len() <= u64::MAX,
    ensures
        ({
            let s = b.bytes();
            &&& s.len() == 16 + b.bits.len()
            &&& codec::u32_at(s, 0) == b.num_bits
            &&& codec::u32_at(s, 4) == b.num_hashes
            &&& codec::u64_at(s, 8) == b.bits.len()
            &&& s.skip(16) == b.bits
        }),
{
    let s = b.bytes();
    codec::lemma_u32(b.num_bits);
    codec::lemma_u32(b.num_hashes);
    codec::lemma_u64(b.bits.len() as u64);
    assert(s.subrange(0, 4) =~= codec::le32(b.num_bits));
    assert(s.subrange(4, 8) =~= codec::le32(b.num_hashes));
    assert(s.subrange(8, 16) =~= codec::le64(b.bits.len() as u64));
    assert(s.skip(16) =~= b.bits);
}

/// Which entries the format can describe: all whose bytes and checksum have a length that fits
/// in 32 bits.
pub proof fn lemma_entry_fits(r: Rec)
    ensures
        entry_fits(r) <==> 17 + r.key.len() + (match r.val {
            Some(v) => 4 + v.len(),
            None => 0,
        }) <= 0xffff_ffff,
{
}

/// What is wrong with a file that does not open: it is too short; its footer does not match its
/// checksum, or has another magic number, or another version; or the index or the filter is
/// said to reach into the footer, or does not match its checksum. What comes first in this
/// order is told.
pub proof fn lemma_open_errors(content: Seq<u8>)
    ensures
        ({
            let n = content.len();
            let at = n - 48;
            let footer = content.skip(at);
            let index_off = codec::u64_at(footer, 12);
            let index_len = codec::u32_at(footer, 20);
            let bloom_off = codec::u64_at(footer, 24);
            let bloom_len = codec::u32_at(footer, 32);
            let index = content.subrange(index_off as int, index_off + index_len);
            let filter = content.subrange(bloom_off as int, bloom_off + bloom_len);
            let found = opened(content);
            let head = at >= 0 && is_sound(footer);
            let named = head && codec::u64_at(footer, 0) == 0x4143_4352_5F53_5354;
            let known = named && codec::u32_at(footer, 8) == 1;
            let indexed = known && index_off + index_len <= at;
            let filtered = indexed && bloom_off + bloom_len <= at;
            &&& at < 0 ==> found == Err::<TableView, Corruption>(
                Corruption::FileTooShort { len: n as u64 },
            )
            &&& at >= 0 && !is_sound(footer) ==> (found matches Err(Corruption::CrcMismatch {
                part,
                ..
            }) && part == Part::Footer)
            &&& head && !named ==> found == Err::<TableView, Corruption>(Corruption::BadMagic)
            &&& named && !known ==> found == Err::<TableView, Corruption>(
                Corruption::BadVersion { version: codec::u32_at(footer, 8) },
            )
            &&& known && !indexed ==> (found matches Err(Corruption::RegionOutOfBounds {
                part,
                ..
            }) && part == Part::Index)
            &&& indexed && !filtered ==> (found matches Err(Corruption::RegionOutOfBounds {
                part,
                ..
            }) && part == Part::Bloom)
            &&& filtered && index.len() >= 4 && !is_sound(index) ==> (found matches Err(
                Corruption::CrcMismatch { part, .. },
            ) && part == Part::Index)
            &&& filtered && index.len() < 4 ==> found == Err::<TableView, Corruption>(
                Corruption::TooShortForCrc { part: Part::Index },
            )
        }),
{
    let at = content.len() - 48;
    if at >= 0 {
        let footer = content.skip(at);
        lemma_checksum_decides(footer, Part::Footer);
        let index_off = codec::u64_at(footer, 12);
        let index_len = codec::u32_at(footer, 20);
        lemma_checksum_decides(
            content.subrange(index_off as int, index_off + index_len),
            Part::Index,
        );
    }
}

/// Which tables the format can describe: those whose entries it can, whose index with its
/// checksum has a length that fits in 32 bits, and whose file has one that fits in 64.
pub proof fn lemma_table_fits(recs: Seq<Rec>, filter: BloomView)
    requires
        forall|i: int| 0 <= i < recs.len() ==> entry_fits(#[trigger] recs[i]),
        recs.len() <= 0xffff_ffff_ffff_ffff,
        8 + handles_bytes(handles_of(blocks_of(recs))).len() <= 0xffff_ffff,
        super::image(blocks_of(recs), filter, recs.len() as u64).len() <= 0xffff_ffff_ffff_ffff,
    ensures
        super::table_fits(recs, filter),
{
    let hs = handles_of(blocks_of(recs));
    codec::lemma_u32(hs.len() as u32);
    codec::lemma_u32(checksum::crc32(super::index_body(hs)));
}

} // verus!
