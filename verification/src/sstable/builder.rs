//! Writes a sorted run of entries into an immutable table.

use vstd::prelude::*;

use super::bloom::BloomView;
use super::table::{Layout, TAG_DELETE, TAG_PUT};
use super::{BloomFilter, Result, SsTableError, ValueRef, BLOCK_SIZE, FOOTER_MAGIC, FORMAT_VERSION};
use crate::checksum;
use crate::codec;
use crate::model;
use crate::model::Rec;
use crate::order;
use crate::order::Position;
use crate::sstable::bloom;
use crate::sstable::table;
use crate::storage;
use crate::storage::facts;
use crate::storage::{Disk, FileData, FilePath, PathView, Storage};

verus! {

/// Default filter budget in bits per key.
pub const DEFAULT_BITS_PER_KEY: usize = 10;

/// What is recorded of a finished table.
#[derive(Debug, Clone, PartialEq, Eq)]
pub struct SsTableSummary {
    /// Total number of entries written.
    pub num_entries: u64,
    /// The smallest key in the table, unless the table is empty.
    pub first_key: Option<Vec<u8>>,
    /// The largest key in the table, unless the table is empty.
    pub last_key: Option<Vec<u8>>,
    /// Total bytes written to the file.
    pub file_len: u64,
}

/// The entry that a key, a sequence number and a value make.
pub open spec fn entry_of(key: Seq<u8>, seq: u64, val: Option<Seq<u8>>) -> Rec {
    Rec { key, seq, val }
}

/// The keys of a run.
pub open spec fn keys_of(recs: Seq<Rec>) -> Seq<Seq<u8>> {
    Seq::new(recs.len(), |i: int| recs[i].key)
}

/// `key` comes after all of `recs`.
pub open spec fn ascends(recs: Seq<Rec>, key: Seq<u8>) -> bool {
    recs.len() > 0 ==> order::lex_lt(recs.last().key, key)
}

/// The format can describe a table with one more entry, as far as its data blocks
/// go.
pub open spec fn entry_accepted(recs: Seq<Rec>, r: Rec) -> bool {
    &&& table::entry_fits(r)
    &&& recs.len() < u64::MAX
    &&& table::data_bytes(table::layout(recs.push(r)).blocks).len() <= u64::MAX
}

/// The handle of a sealed data block.
#[derive(Debug)]
struct IndexEntry {
    first_key: Vec<u8>,
    offset: u64,
    len: u32,
}

impl IndexEntry {
    spec fn handle(self) -> table::Handle {
        table::Handle { first_key: self.first_key@, offset: self.offset, len: self.len }
    }
}

spec fn handles(index: Seq<IndexEntry>) -> Seq<table::Handle> {
    Seq::new(index.len(), |i: int| index[i].handle())
}

/// An optional key.
pub open spec fn key_view(k: Option<Vec<u8>>) -> Option<Seq<u8>> {
    match k {
        Some(k) => Some(k@),
        None => None,
    }
}

/// The first key of a run.
pub open spec fn first_of(recs: Seq<Rec>) -> Option<Seq<u8>> {
    if recs.len() == 0 {
        None
    } else {
        Some(recs[0].key)
    }
}

/// The last key of a run.
pub open spec fn last_of(recs: Seq<Rec>) -> Option<Seq<u8>> {
    if recs.len() == 0 {
        None
    } else {
        Some(recs.last().key)
    }
}

/// Streams sorted entries into a table file.
pub struct SsTableBuilder {
    path: FilePath,
    /// The entries of the block that is being filled.
    block: Vec<u8>,
    /// First key of that block.
    block_first_key: Option<Vec<u8>>,
    /// The handles of the sealed blocks.
    index: Vec<IndexEntry>,
    /// Filter over every key added.
    bloom: BloomFilter,
    /// Where the next byte lands in the file.
    offset: u64,
    num_entries: u64,
    last_key: Option<Vec<u8>>,
    first_key: Option<Vec<u8>>,
    /// The entries added.
    recs: Ghost<Seq<Rec>>,
}

impl SsTableBuilder {
    /// The file being written.
    pub closed spec fn target(&self) -> PathView {
        self.path@
    }

    /// The entries added so far.
    pub closed spec fn entries(&self) -> Seq<Rec> {
        self.recs@
    }

    /// The filter over their keys.
    pub closed spec fn filter(&self) -> BloomView {
        self.bloom@
    }

    /// The fields say what the entries are.
    pub closed spec fn inv(&self) -> bool {
        let recs = self.recs@;
        let l = table::layout(recs);
        &&& model::is_run(recs)
        &&& recs.len() <= u64::MAX
        &&& forall|i: int| 0 <= i < recs.len() ==> table::entry_fits(#[trigger] recs[i])
        &&& self.block@ == table::block_body(l.current)
        &&& key_view(self.block_first_key) == first_of(l.current)
        &&& handles(self.index@) == table::handles_of(l.blocks)
        &&& self.bloom@.wf()
        &&& bloom::filters(self.bloom@, keys_of(recs))
        &&& self.offset == table::data_bytes(l.blocks).len()
        &&& self.num_entries == recs.len()
        &&& key_view(self.last_key) == last_of(recs)
        &&& key_view(self.first_key) == first_of(recs)
    }

    /// What the invariant says of entries and filter.
    pub proof fn lemma_inv(&self)
        requires
            self.inv(),
        ensures
            model::is_run(self.entries()),
            self.filter().wf(),
            bloom::filters(self.filter(), keys_of(self.entries())),
    {
    }

    /// The sealed blocks are in the file.
    pub open spec fn on(&self, disk: Disk) -> bool {
        disk.room() && !disk.halted ==> {
            &&& facts::sound(disk.fs)
            &&& facts::visible(
                disk.fs,
                self.target(),
                FileData {
                    live: table::data_bytes(table::layout(self.entries()).blocks),
                    synced: Seq::empty(),
                },
            )
        }
    }

    /// A builder that writes to `path`. The file is created, empty, at once.
    /// `expected_keys` and `bits_per_key` size the filter.
    pub fn new<S: Storage>(
        fs: &mut S,
        path: &FilePath,
        expected_keys: usize,
        bits_per_key: usize,
    ) -> (r: Result<Self>)
        requires
            old(fs).wf(),
            old(fs).disk().dependable,
            old(fs).disk().room() ==> facts::sound(old(fs).disk().fs),
        ensures
            final(fs).wf(),
            facts::carried(old(fs).disk(), final(fs).disk(), set![path@]),
            storage::used(old(fs).disk(), final(fs).disk(), 1),
            r is Ok && final(fs).disk().room() && !final(fs).disk().halted ==> final(fs).disk().fs
                == old(fs).disk().fs.created(path@),
            bloom::bits_for(expected_keys as nat, bits_per_key as nat) > u32::MAX ==> r is Err
                && r->Err_0 is TooLarge && *final(fs) == *old(fs),
            bloom::bits_for(expected_keys as nat, bits_per_key as nat) <= u32::MAX ==> {
                &&& r is Err ==> r->Err_0 is Storage
                &&& final(fs).disk().room() && !final(fs).disk().halted ==> (r is Ok <==> !old(
                    fs,
                ).disk().fs.live.contains_key(path@))
                &&& final(fs).disk().room() && old(fs).disk().halted ==> r is Err
            },
            r matches Ok(b) ==> {
                &&& b.inv()
                &&& b.target() == path@
                &&& b.entries() == Seq::<Rec>::empty()
                &&& b.filter().num_bits == bloom::bits_for(
                    expected_keys as nat,
                    bits_per_key as nat,
                )
                &&& b.filter().num_hashes == bloom::hashes_for(
                    b.filter().num_bits as nat,
                    expected_keys as nat,
                )
                &&& b.on(final(fs).disk())
            },
    {
        let ghost pre = fs.disk();
        if !bloom::can_size(expected_keys, bits_per_key) {
            proof {
                facts::lemma_carried_refl(pre, set![path@]);
            }
            return Err(SsTableError::TooLarge);
        }
        let created = fs.create(path);
        proof {
            if !pre.fs.live.contains_key(path@) {
                facts::lemma_create_keeps(pre.fs, path@);
            }
            facts::lemma_outcome_carries(
                pre,
                fs.disk(),
                !pre.fs.live.contains_key(path@),
                pre.fs.created(path@),
                created is Ok,
                set![path@],
            );
        }
        match created {
            Ok(_) => {},
            Err(e) => {
                return Err(SsTableError::Storage(e));
            },
        }
        let bloom: BloomFilter = BloomFilter::new(expected_keys, bits_per_key);
        let b = SsTableBuilder {
            path: path.clone(),
            block: Vec::new(),
            block_first_key: None,
            index: Vec::new(),
            bloom,
            offset: 0,
            num_entries: 0,
            last_key: None,
            first_key: None,
            recs: Ghost(Seq::empty()),
        };
        proof {
            assert(handles(b.index@) =~= table::handles_of(Seq::empty()));
            assert(b.block@ =~= table::block_body(Seq::empty()));
            assert(bloom::filters(b.bloom@, keys_of(b.recs@)));
        }
        Ok(b)
    }

    /// Adds one entry. Keys must arrive strictly increasing, else
    /// [`SsTableError::Unsorted`].
    pub fn add<S: Storage>(
        &mut self,
        fs: &mut S,
        key: &[u8],
        seq: u64,
        value: ValueRef<'_>,
    ) -> (r: Result<()>)
        requires
            old(fs).wf(),
            old(fs).disk().dependable,
            old(self).inv(),
            old(self).on(old(fs).disk()),
        ensures
            final(fs).wf(),
            facts::carried(old(fs).disk(), final(fs).disk(), set![old(self).target()]),
            storage::used(old(fs).disk(), final(fs).disk(), 0),
            final(self).inv(),
            final(self).target() == old(self).target(),
            final(self).on(final(fs).disk()),
            final(self).filter().num_bits == old(self).filter().num_bits,
            final(self).filter().num_hashes == old(self).filter().num_hashes,
            ({
                let e = entry_of(key@, seq, value@);
                let recs = old(self).entries();
                &&& r is Ok ==> ascends(recs, key@) && entry_accepted(recs, e)
                    && final(self).entries() == recs.push(e)
                &&& r is Err ==> final(self).entries() == recs
                &&& (r is Err && r->Err_0 is Unsorted) <==> !ascends(recs, key@)
                &&& (r is Err && r->Err_0 is TooLarge) <==> ascends(recs, key@) && !entry_accepted(
                    recs,
                    e,
                )
                &&& r is Err ==> !(r->Err_0 is Corrupt)
                &&& !ascends(recs, key@) || !entry_accepted(recs, e) ==> *final(fs) == *old(fs)
                    && *final(self) == *old(self)
                &&& ascends(recs, key@) && entry_accepted(recs, e) && final(fs).disk().room()
                    && !final(fs).disk().halted ==> r is Ok
            }),
    {
        let ghost e = entry_of(key@, seq, value@);
        let ghost recs = self.recs@;
        let ghost l = table::layout(recs);
        let ghost t = set![self.path@];
        let ghost d0 = fs.disk();
        proof {
            facts::lemma_carried_refl(d0, t);
            table::lemma_layout(recs);
            assert(recs.push(e).drop_last() =~= recs);
            assert(table::layout(recs.push(e)) == table::laid(l, e));
        }
        if let Some(prev) = &self.last_key {
            match order::position(prev, key) {
                Position::Before => {},
                _ => {
                    proof {
                        order::lemma_lex_irreflexive(key@);
                        if order::lex_lt(key@, prev@) {
                            order::lemma_lex_asymmetric(key@, prev@);
                        }
                    }
                    return Err(SsTableError::Unsorted);
                },
            }
        }
        assert(ascends(recs, key@));
        let entry_len: u128 = encoded_entry_len(key, value);
        if entry_len + 4 > 0xffff_ffff || self.num_entries == u64::MAX {
            return Err(SsTableError::TooLarge);
        }
        proof {
            table::lemma_laid(l, e);
        }
        assert(self.block@.len() == self.block.len());
        if self.block.len() > 0 && self.block.len() as u128 + entry_len > BLOCK_SIZE as u128 {
            proof {
                if l.current.len() == 0 {
                    assert(table::block_body(l.current) =~= Seq::empty());
                }
                assert(l.blocks.push(l.current).drop_last() =~= l.blocks);
                table::lemma_unsealed(table::block_body(l.current), super::Part::DataBlock);
            }
            if self.offset as u128 + self.block.len() as u128 + 4 > 0xffff_ffff_ffff_ffff {
                return Err(SsTableError::TooLarge);
            }
            match self.seal_block(fs, Ghost(l)) {
                Ok(_) => {},
                Err(e) => {
                    return Err(e);
                },
            }
        }
        let ghost l1 = Layout {
            blocks: table::laid(l, e).blocks,
            current: table::laid(l, e).current.drop_last(),
        };
        proof {
            assert(seq![e].drop_last() =~= Seq::empty());
            assert(l.current.push(e).drop_last() =~= l.current);
            if l.current.len() > 0 {
                table::lemma_entry_len(l.current.last());
                assert(table::block_body(l.current).len() > 0);
            }
        }
        assert(self.block@ == table::block_body(l1.current));
        if self.block_first_key.is_none() {
            self.block_first_key = Some(codec::copied(key));
        }
        encode_entry(&mut self.block, key, seq, value);
        let ghost before = self.bloom@;
        self.bloom.insert(key);
        if self.first_key.is_none() {
            self.first_key = Some(codec::copied(key));
        }
        self.last_key = Some(codec::copied(key));
        self.num_entries = self.num_entries + 1;
        let ghost more = recs.push(e);
        self.recs = Ghost(more);
        proof {
            model::lemma_run_push(recs, e);
            bloom::lemma_filters_push(before, self.bloom@, keys_of(recs), key@);
            assert(keys_of(more) =~= keys_of(recs).push(key@));
            assert(table::layout(more).current.drop_last() == l1.current);
        }
        Ok(())
    }

    /// Seals the current data block: writes it with its checksum, and records its
    /// handle.
    fn seal_block<S: Storage>(&mut self, fs: &mut S, Ghost(l): Ghost<Layout>) -> (r: Result<()>)
        requires
            old(fs).wf(),
            old(fs).disk().dependable,
            old(self).block@ == table::block_body(l.current),
            l.current.len() > 0,
            handles(old(self).index@) == table::handles_of(l.blocks),
            key_view(old(self).block_first_key) == first_of(l.current),
            old(self).offset == table::data_bytes(l.blocks).len(),
            old(self).offset + old(self).block@.len() + 4 <= u64::MAX,
            old(self).block@.len() + 4 <= u32::MAX,
            old(fs).disk().room() && !old(fs).disk().halted ==> holds_blocks(
                old(fs).disk().fs,
                old(self).path@,
                l.blocks,
            ),
        ensures
            final(fs).wf(),
            facts::carried(old(fs).disk(), final(fs).disk(), set![old(self).path@]),
            storage::used(old(fs).disk(), final(fs).disk(), 0),
            final(self).path == old(self).path,
            final(self).bloom == old(self).bloom,
            final(self).num_entries == old(self).num_entries,
            final(self).last_key == old(self).last_key,
            final(self).first_key == old(self).first_key,
            final(self).recs == old(self).recs,
            r is Ok ==> {
                let blocks = l.blocks.push(l.current);
                &&& final(self).block@ == Seq::<u8>::empty()
                &&& final(self).block_first_key is None
                &&& handles(final(self).index@) == table::handles_of(blocks)
                &&& final(self).offset == table::data_bytes(blocks).len()
                &&& final(fs).disk().room() && !final(fs).disk().halted ==> holds_blocks(
                    final(fs).disk().fs,
                    old(self).path@,
                    blocks,
                )
            },
            r is Err ==> {
                &&& r->Err_0 is Storage
                &&& final(self).block@ == old(self).block@
                &&& final(self).block_first_key == old(self).block_first_key
                &&& final(self).index == old(self).index
                &&& final(self).offset == old(self).offset
                &&& final(fs).disk().room() ==> final(fs).disk().halted
            },
    {
        let ghost pre = fs.disk();
        let ghost part = table::sealed(self.block@);
        let n: usize = self.block.len();
        assert(n == self.block@.len());
        let crc: u32 = checksum::crc32_of(&self.block);
        codec::put_u32(&mut self.block, crc);
        proof {
            codec::lemma_u32(crc);
            assert(self.block@ == part);
        }
        let appended = fs.append(&self.path, &self.block);
        proof {
            if pre.fs.live.contains_key(self.path@) {
                facts::lemma_append_keeps(pre.fs, self.path@, part);
            }
            facts::lemma_outcome_carries(
                pre,
                fs.disk(),
                pre.fs.live.contains_key(self.path@),
                pre.fs.appended(self.path@, part),
                appended is Ok,
                set![self.path@],
            );
        }
        match appended {
            Ok(_) => {},
            Err(e) => {
                self.block.truncate(n);
                assert(self.block@ =~= old(self).block@);
                return Err(SsTableError::Storage(e));
            },
        }
        let block_offset: u64 = self.offset;
        let block_len: u32 = self.block.len() as u32;
        self.offset = self.offset + block_len as u64;
        let mut taken: Option<Vec<u8>> = None;
        std::mem::swap(&mut taken, &mut self.block_first_key);
        let first_key: Vec<u8> = match taken {
            Some(k) => k,
            None => Vec::new(),
        };
        self.index.push(IndexEntry { first_key, offset: block_offset, len: block_len });
        self.block.clear();
        proof {
            let blocks = l.blocks.push(l.current);
            assert(blocks.drop_last() =~= l.blocks);
            lemma_handles_push(l.blocks, l.current);
            assert(handles(self.index@) =~= table::handles_of(blocks));
        }
        Ok(())
    }

    /// Finishes the table: writes the last block, the index, the filter and the
    /// footer, and makes the file's bytes durable. The file's name is durable once
    /// the caller has synced its directory.
    pub fn finish<S: Storage>(self, fs: &mut S) -> (r: Result<SsTableSummary>)
        requires
            old(fs).wf(),
            old(fs).disk().dependable,
            self.inv(),
            self.on(old(fs).disk()),
        ensures
            final(fs).wf(),
            facts::carried(old(fs).disk(), final(fs).disk(), set![self.target()]),
            storage::used(old(fs).disk(), final(fs).disk(), 0),
            r matches Err(SsTableError::TooLarge) ==> !table::table_fits(
                self.entries(),
                self.filter(),
            ),
            r is Err ==> r->Err_0 is TooLarge || r->Err_0 is Storage,
            r is Err && r->Err_0 is Storage && final(fs).disk().room() ==> final(fs).disk().halted,
            final(fs).disk().room() && !final(fs).disk().halted ==> (r is Ok <==> table::table_fits(
                self.entries(),
                self.filter(),
            )),
            r matches Ok(s) ==> {
                let bytes = table::image(
                    table::blocks_of(self.entries()),
                    self.filter(),
                    self.entries().len() as u64,
                );
                &&& table::is_table_with(bytes, self.entries(), self.filter())
                &&& s.num_entries == self.entries().len()
                &&& key_view(s.first_key) == first_of(self.entries())
                &&& key_view(s.last_key) == last_of(self.entries())
                &&& s.file_len == bytes.len()
                &&& final(fs).disk().room() && !final(fs).disk().halted ==> facts::visible(
                    final(fs).disk().fs,
                    self.target(),
                    FileData { live: bytes, synced: bytes },
                )
            },
    {
        let mut this = self;
        let ghost recs = this.recs@;
        let ghost l = table::layout(recs);
        let ghost blocks = table::blocks_of(recs);
        let ghost filter = this.bloom@;
        let ghost t = set![this.path@];
        let ghost d0 = fs.disk();
        proof {
            facts::lemma_carried_refl(d0, t);
            table::lemma_layout(recs);
            lemma_image_len(blocks, filter, recs.len() as u64);
            if l.current.len() > 0 {
                assert(l.blocks.push(l.current).drop_last() =~= l.blocks);
                table::lemma_unsealed(table::block_body(l.current), super::Part::DataBlock);
                table::lemma_entry_len(l.current.last());
            } else {
                assert(table::block_body(l.current) =~= Seq::empty());
            }
            assert(this.block@.len() == this.block.len());
        }
        if this.block.len() > 0 {
            if this.offset as u128 + this.block.len() as u128 + 4 > 0xffff_ffff_ffff_ffff {
                return Err(SsTableError::TooLarge);
            }
            match this.seal_block(fs, Ghost(l)) {
                Ok(_) => {},
                Err(e) => {
                    return Err(e);
                },
            }
        }
        let ghost d1 = fs.disk();
        let mut index_part: Vec<u8> = encode_index(&this.index);
        let index_crc: u32 = checksum::crc32_of(&index_part);
        codec::put_u32(&mut index_part, index_crc);
        let mut bloom_part: Vec<u8> = Vec::new();
        this.bloom.encode(&mut bloom_part);
        proof {
            assert(bloom_part@ =~= filter.bytes());
        }
        let bloom_crc: u32 = checksum::crc32_of(&bloom_part);
        codec::put_u32(&mut bloom_part, bloom_crc);
        let ghost handles_ = table::handles_of(blocks);
        proof {
            assert(index_part@ == table::sealed(table::index_body(handles_)));
            assert(bloom_part@ == table::sealed(filter.bytes()));
            assert(index_part@.len() == index_part.len());
            assert(bloom_part@.len() == bloom_part.len());
        }
        let total: u128 = this.offset as u128 + index_part.len() as u128 + bloom_part.len() as u128
            + 48;
        if index_part.len() as u128 > 0xffff_ffff || total > 0xffff_ffff_ffff_ffff {
            return Err(SsTableError::TooLarge);
        }
        proof {
            table::lemma_unsealed(filter.bytes(), super::Part::Bloom);
            bloom::lemma_bloom_round_trip(filter, Seq::empty());
        }
        let index_len: u32 = index_part.len() as u32;
        let bloom_len: u32 = bloom_part.len() as u32;
        let bloom_off: u64 = this.offset + index_len as u64;
        let footer: Vec<u8> = encode_footer(
            this.offset,
            index_len,
            bloom_off,
            bloom_len,
            this.num_entries,
        );
        let ghost data = table::data_bytes(blocks);
        let ghost empty = Seq::<u8>::empty();
        match append_part(fs, &this.path, &index_part, Ghost(data)) {
            Ok(_) => {},
            Err(e) => {
                proof {
                    facts::lemma_carried_trans(d0, d1, fs.disk(), t);
                }
                return Err(e);
            },
        }
        let ghost d2 = fs.disk();
        proof {
            facts::lemma_carried_trans(d0, d1, d2, t);
        }
        match append_part(fs, &this.path, &bloom_part, Ghost(data + index_part@)) {
            Ok(_) => {},
            Err(e) => {
                proof {
                    facts::lemma_carried_trans(d0, d2, fs.disk(), t);
                }
                return Err(e);
            },
        }
        let ghost d3 = fs.disk();
        proof {
            facts::lemma_carried_trans(d0, d2, d3, t);
        }
        match append_part(fs, &this.path, &footer, Ghost(data + index_part@ + bloom_part@)) {
            Ok(_) => {},
            Err(e) => {
                proof {
                    facts::lemma_carried_trans(d0, d3, fs.disk(), t);
                }
                return Err(e);
            },
        }
        let ghost d4 = fs.disk();
        let ghost bytes = table::image(blocks, filter, recs.len() as u64);
        proof {
            facts::lemma_carried_trans(d0, d3, d4, t);
            assert(data + index_part@ + bloom_part@ + footer@ == bytes);
        }
        let synced = fs.sync_file(&this.path);
        proof {
            if d4.fs.live.contains_key(this.path@) {
                facts::lemma_sync_file_keeps(d4.fs, this.path@);
            }
            facts::lemma_outcome_carries(
                d4,
                fs.disk(),
                d4.fs.live.contains_key(this.path@),
                d4.fs.file_synced(this.path@),
                synced is Ok,
                t,
            );
            facts::lemma_carried_trans(d0, d4, fs.disk(), t);
            assert forall|i: int| 0 <= i < recs.len() implies filter.may_hold(
                (#[trigger] recs[i]).key,
            ) by {
                bloom::lemma_filters(filter, keys_of(recs), i);
            }
        }
        match synced {
            Ok(_) => {},
            Err(e) => {
                return Err(SsTableError::Storage(e));
            },
        }
        Ok(
            SsTableSummary {
                num_entries: this.num_entries,
                first_key: this.first_key,
                last_key: this.last_key,
                file_len: total as u64,
            },
        )
    }
}

/// `path` holds these data blocks, and nothing of it is durable.
spec fn holds_blocks(fs: crate::storage::FsState, path: PathView, blocks: Seq<Seq<Rec>>) -> bool {
    &&& facts::sound(fs)
    &&& facts::visible(
        fs,
        path,
        FileData { live: table::data_bytes(blocks), synced: Seq::empty() },
    )
}

/// Appends one part of a table to its file.
fn append_part<S: Storage>(
    fs: &mut S,
    path: &FilePath,
    part: &[u8],
    Ghost(so_far): Ghost<Seq<u8>>,
) -> (r: Result<()>)
    requires
        old(fs).wf(),
        old(fs).disk().dependable,
        old(fs).disk().room() && !old(fs).disk().halted ==> facts::sound(old(fs).disk().fs)
            && facts::visible(
            old(fs).disk().fs,
            path@,
            FileData { live: so_far, synced: Seq::empty() },
        ),
    ensures
        final(fs).wf(),
        facts::carried(old(fs).disk(), final(fs).disk(), set![path@]),
        storage::used(old(fs).disk(), final(fs).disk(), 0),
        r is Err ==> r->Err_0 is Storage && (final(fs).disk().room() ==> final(fs).disk().halted),
        final(fs).disk().room() && !final(fs).disk().halted ==> facts::sound(final(fs).disk().fs)
            && facts::visible(
            final(fs).disk().fs,
            path@,
            FileData { live: so_far + part@, synced: Seq::empty() },
        ),
{
    let ghost pre = fs.disk();
    let appended = fs.append(path, part);
    proof {
        if pre.fs.live.contains_key(path@) {
            facts::lemma_append_keeps(pre.fs, path@, part@);
        }
        facts::lemma_outcome_carries(
            pre,
            fs.disk(),
            pre.fs.live.contains_key(path@),
            pre.fs.appended(path@, part@),
            appended is Ok,
            set![path@],
        );
    }
    match appended {
        Ok(_) => Ok(()),
        Err(e) => Err(SsTableError::Storage(e)),
    }
}

/// The handles of one more block.
pub proof fn lemma_handles_push(blocks: Seq<Seq<Rec>>, block: Seq<Rec>)
    ensures
        table::handles_of(blocks.push(block)) == table::handles_of(blocks).push(
            table::Handle {
                first_key: block[0].key,
                offset: table::data_bytes(blocks).len() as u64,
                len: table::sealed(table::block_body(block)).len() as u32,
            },
        ),
{
    let more = blocks.push(block);
    assert forall|i: int| 0 <= i < blocks.len() implies table::handle_of(more, i)
        == #[trigger] table::handle_of(blocks, i) by {
        assert(more.take(i) =~= blocks.take(i));
    }
    assert(more.take(blocks.len() as int) =~= blocks);
    assert(table::handles_of(more) =~= table::handles_of(blocks).push(
        table::handle_of(more, blocks.len() as int),
    ));
}

/// The length of a table file.
pub proof fn lemma_image_len(blocks: Seq<Seq<Rec>>, filter: BloomView, n: u64)
    ensures
        table::image(blocks, filter, n).len() == table::data_bytes(blocks).len()
            + table::sealed(table::index_body(table::handles_of(blocks))).len()
            + table::sealed(filter.bytes()).len() + 48,
{
    let data = table::data_bytes(blocks);
    let index = table::sealed(table::index_body(table::handles_of(blocks)));
    let filter_part = table::sealed(filter.bytes());
    let f = table::Footer {
        index_off: data.len() as u64,
        index_len: index.len() as u32,
        bloom_off: (data.len() + index.len()) as u64,
        bloom_len: filter_part.len() as u32,
        num_entries: n,
    };
    table::lemma_footer_len(f);
    table::lemma_unsealed(
        table::footer_body(f.index_off, f.index_len, f.bloom_off, f.bloom_len, f.num_entries),
        super::Part::Footer,
    );
}

/// Number of bytes that [`encode_entry`] writes.
fn encoded_entry_len(key: &[u8], value: ValueRef<'_>) -> (n: u128)
    ensures
        forall|seq: u64| n == #[trigger] table::entry_len(entry_of(key@, seq, value@)),
        n < 0x4_0000_0000_0000_0000,
{
    assert(key@.len() == key.len());
    let value_part: u128 = match value {
        ValueRef::Put(v) => {
            assert(v@.len() == v.len());
            4 + v.len() as u128
        },
        ValueRef::Delete => 0,
    };
    4 + key.len() as u128 + 8 + 1 + value_part
}

/// Appends one entry to `buf`.
fn encode_entry(buf: &mut Vec<u8>, key: &[u8], seq: u64, value: ValueRef<'_>)
    requires
        table::entry_fits(entry_of(key@, seq, value@)),
    ensures
        final(buf)@ == old(buf)@ + table::entry_bytes(entry_of(key@, seq, value@)),
{
    codec::put_u32(buf, key.len() as u32);
    codec::put_bytes(buf, key);
    codec::put_u64(buf, seq);
    match value {
        ValueRef::Put(v) => {
            buf.push(TAG_PUT);
            codec::put_u32(buf, v.len() as u32);
            codec::put_bytes(buf, v);
        },
        ValueRef::Delete => {
            buf.push(TAG_DELETE);
        },
    }
    assert(buf@ =~= old(buf)@ + table::entry_bytes(entry_of(key@, seq, value@)));
}

/// The sparse index without its checksum.
fn encode_index(index: &Vec<IndexEntry>) -> (buf: Vec<u8>)
    ensures
        buf@ == table::index_body(handles(index@)),
{
    let mut buf: Vec<u8> = Vec::new();
    assert(index@.len() == index.len());
    let count: u32 = #[verifier::truncate] (index.len() as u32);
    codec::put_u32(&mut buf, count);
    let mut i: usize = 0;
    let ghost hs = handles(index@);
    assert(hs.take(0) =~= Seq::empty());
    assert(buf@ =~= codec::le32(hs.len() as u32) + table::handles_bytes(hs.take(0)));
    while i < index.len()
        invariant
            i <= index.len(),
            hs == handles(index@),
            buf@ == codec::le32(hs.len() as u32) + table::handles_bytes(hs.take(i as int)),
        decreases index.len() - i,
    {
        let e = &index[i];
        let key_len: u32 = #[verifier::truncate] (e.first_key.len() as u32);
        codec::put_u32(&mut buf, key_len);
        codec::put_bytes(&mut buf, &e.first_key);
        codec::put_u64(&mut buf, e.offset);
        codec::put_u32(&mut buf, e.len);
        proof {
            let next = hs.take(i + 1);
            assert(next.drop_last() =~= hs.take(i as int));
            assert(next.last() == e.handle());
            assert(buf@ =~= codec::le32(hs.len() as u32) + table::handles_bytes(next));
        }
        i = i + 1;
    }
    assert(hs.take(hs.len() as int) =~= hs);
    buf
}

/// The footer with its checksum.
fn encode_footer(
    index_off: u64,
    index_len: u32,
    bloom_off: u64,
    bloom_len: u32,
    num_entries: u64,
) -> (footer: Vec<u8>)
    ensures
        footer@ == table::sealed(
            table::footer_body(index_off, index_len, bloom_off, bloom_len, num_entries),
        ),
{
    let mut footer: Vec<u8> = Vec::new();
    codec::put_u64(&mut footer, FOOTER_MAGIC);
    codec::put_u32(&mut footer, FORMAT_VERSION);
    codec::put_u64(&mut footer, index_off);
    codec::put_u32(&mut footer, index_len);
    codec::put_u64(&mut footer, bloom_off);
    codec::put_u32(&mut footer, bloom_len);
    codec::put_u64(&mut footer, num_entries);
    assert(footer@ =~= table::footer_body(
        index_off,
        index_len,
        bloom_off,
        bloom_len,
        num_entries,
    ));
    let crc: u32 = checksum::crc32_of(&footer);
    codec::put_u32(&mut footer, crc);
    footer
}

} // verus!
