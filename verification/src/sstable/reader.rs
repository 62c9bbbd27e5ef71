//! Reads back an immutable table.
//!
//! Opening a table loads its sparse index and its filter; data blocks are read on
//! demand. Every read checks the checksum of what it touches.

use vstd::prelude::*;

use super::table::{FOOTER_SIZE, TAG_DELETE, TAG_PUT};
use super::{
    BloomFilter, Corruption, Cursor, Entry, Part, Result, SsTableError, Value, FOOTER_MAGIC,
    FORMAT_VERSION,
};
use crate::checksum;
use crate::codec;
use crate::model;
use crate::model::Rec;
use crate::order;
use crate::order::Position;
use crate::sstable;
use crate::sstable::bloom;
use crate::sstable::table;
use crate::sstable::table::laws;
use crate::storage;
use crate::storage::{FilePath, PathView, Storage};

verus! {

/// The first key of a data block and where the block is.
#[derive(Debug)]
struct BlockHandle {
    first_key: Vec<u8>,
    offset: u64,
    len: u32,
}

impl BlockHandle {
    spec fn handle(self) -> table::Handle {
        table::Handle { first_key: self.first_key@, offset: self.offset, len: self.len }
    }
}

spec fn handles(index: Seq<BlockHandle>) -> Seq<table::Handle> {
    Seq::new(index.len(), |i: int| index[i].handle())
}

/// A read handle over one immutable table.
#[derive(Debug)]
pub struct SsTableReader {
    path: FilePath,
    index: Vec<BlockHandle>,
    bloom: BloomFilter,
    num_entries: u64,
}

impl View for SsTableReader {
    type V = table::TableView;

    closed spec fn view(&self) -> table::TableView {
        table::TableView {
            index: handles(self.index@),
            filter: self.bloom@,
            num_entries: self.num_entries,
        }
    }
}

/// An entry that may be there.
pub open spec fn found(e: Option<Entry>) -> Option<Rec> {
    match e {
        Some(e) => Some(e@),
        None => None,
    }
}

/// Reading the file may fail though the backend works: a handle lies beyond its
/// end.
pub open spec fn strays(content: Seq<u8>, index: Seq<table::Handle>) -> bool {
    exists|i: int| 0 <= i < index.len() && (#[trigger] index[i]).offset > content.len()
}

/// The backend may fail a read of `path`.
pub open spec fn may_fail<S: Storage>(fs: &S, path: PathView) -> bool {
    !fs.disk().reliable || !fs.disk().fs.live.contains_key(path)
}

/// What a read of a whole table gives: `Ok` with all entries, or what went wrong
/// first.
pub open spec fn collected(
    items: Seq<std::result::Result<Rec, Corruption>>,
) -> std::result::Result<Seq<Rec>, Corruption>
    decreases items.len(),
{
    if items.len() == 0 {
        Ok(Seq::empty())
    } else {
        match items[0] {
            Err(e) => Err(e),
            Ok(r) => match collected(items.drop_first()) {
                Err(e) => Err(e),
                Ok(rest) => Ok(seq![r] + rest),
            },
        }
    }
}

impl SsTableReader {
    /// The file being read.
    pub closed spec fn location(&self) -> PathView {
        self.path@
    }

    /// The filter is usable.
    pub closed spec fn inv(&self) -> bool {
        self.bloom@.wf()
    }

    /// Opens the table at `path`: checks its footer and loads its sparse index and
    /// its filter.
    pub fn open<S: Storage>(fs: &S, path: &FilePath) -> (r: Result<Self>)
        requires
            fs.wf(),
            fs.disk().dependable,
        ensures
            match r {
                Ok(t) => {
                    &&& fs.disk().fs.live.contains_key(path@)
                    &&& table::opened(fs.disk().fs.content(path@)) == Ok::<
                        table::TableView,
                        Corruption,
                    >(t@)
                    &&& t.location() == path@
                    &&& t.inv()
                },
                Err(SsTableError::Corrupt(c)) => {
                    &&& fs.disk().fs.live.contains_key(path@)
                    &&& table::opened(fs.disk().fs.content(path@)) == Err::<
                        table::TableView,
                        Corruption,
                    >(c)
                },
                Err(SsTableError::Storage(_)) => may_fail(fs, path@),
                Err(_) => false,
            },
    {
        let file_len: u64 = match fs.len(path) {
            Ok(n) => n,
            Err(e) => {
                return Err(SsTableError::Storage(e));
            },
        };
        let ghost content = fs.disk().fs.content(path@);
        if file_len < FOOTER_SIZE as u64 {
            return Err(SsTableError::Corrupt(Corruption::FileTooShort { len: file_len }));
        }
        let limit: u64 = file_len - FOOTER_SIZE as u64;
        let footer: Vec<u8> = match read_exact(fs, path, limit, FOOTER_SIZE) {
            Ok(b) => b,
            Err(e) => {
                return Err(e);
            },
        };
        assert(footer@ =~= content.skip(limit as int));
        match verify_crc(&footer, Part::Footer) {
            Ok(_) => {},
            Err(c) => {
                return Err(SsTableError::Corrupt(c));
            },
        }
        if codec::get_u64(&footer, 0) != FOOTER_MAGIC {
            return Err(SsTableError::Corrupt(Corruption::BadMagic));
        }
        let version: u32 = codec::get_u32(&footer, 8);
        if version != FORMAT_VERSION {
            return Err(SsTableError::Corrupt(Corruption::BadVersion { version }));
        }
        let index_off: u64 = codec::get_u64(&footer, 12);
        let index_len: u32 = codec::get_u32(&footer, 20);
        let bloom_off: u64 = codec::get_u64(&footer, 24);
        let bloom_len: u32 = codec::get_u32(&footer, 32);
        let num_entries: u64 = codec::get_u64(&footer, 36);
        match check_region(index_off, index_len, limit, Part::Index) {
            Ok(_) => {},
            Err(c) => {
                return Err(SsTableError::Corrupt(c));
            },
        }
        match check_region(bloom_off, bloom_len, limit, Part::Bloom) {
            Ok(_) => {},
            Err(c) => {
                return Err(SsTableError::Corrupt(c));
            },
        }
        let index_part: Vec<u8> = match read_exact(fs, path, index_off, index_len as usize) {
            Ok(b) => b,
            Err(e) => {
                return Err(e);
            },
        };
        let index: Vec<BlockHandle> = match decode_index(&index_part) {
            Ok(index) => index,
            Err(c) => {
                return Err(SsTableError::Corrupt(c));
            },
        };
        let bloom_part: Vec<u8> = match read_exact(fs, path, bloom_off, bloom_len as usize) {
            Ok(b) => b,
            Err(e) => {
                return Err(e);
            },
        };
        let bloom: BloomFilter = match decode_filter(&bloom_part) {
            Ok(b) => b,
            Err(c) => {
                return Err(SsTableError::Corrupt(c));
            },
        };
        Ok(SsTableReader { path: path.clone(), index, bloom, num_entries })
    }

    /// Total number of entries in the table.
    pub fn num_entries(&self) -> (n: u64)
        ensures
            n == self@.num_entries,
    {
        self.num_entries
    }

    /// Whether the filter believes `key` may be present. A `false` is a definitive
    /// absence.
    pub fn may_contain(&self, key: &[u8]) -> (r: bool)
        requires
            self.inv(),
        ensures
            r == self@.filter.may_hold(key@),
    {
        self.bloom.contains(key)
    }

    /// Looks up `key`: the filter first, then the one block that may hold it.
    pub fn get<S: Storage>(&self, fs: &S, key: &[u8]) -> (r: Result<Option<Entry>>)
        requires
            self.inv(),
            fs.wf(),
            fs.disk().dependable,
        ensures
            ({
                let content = fs.disk().fs.content(self.location());
                match r {
                    Ok(e) => table::looked_up(content, self@, key@) == Ok::<Option<Rec>, Corruption>(
                        found(e),
                    ),
                    Err(SsTableError::Corrupt(c)) => table::looked_up(content, self@, key@) == Err::<
                        Option<Rec>,
                        Corruption,
                    >(c),
                    Err(SsTableError::Storage(_)) => may_fail(fs, self.location()) || strays(
                        content,
                        self@.index,
                    ),
                    Err(_) => false,
                }
            }),
    {
        if !self.bloom.contains(key) {
            return Ok(None);
        }
        let at: usize = match self.find_block(key) {
            Some(i) => i,
            None => {
                return Ok(None);
            },
        };
        let entries: Vec<Entry> = match self.load_block(fs, at) {
            Ok(entries) => entries,
            Err(e) => {
                return Err(e);
            },
        };
        Ok(find_entry(&entries, key))
    }

    /// A key at or after the first key of a block is not before it.
    proof fn lemma_not_before(&self, key: Seq<u8>, i: int)
        requires
            0 <= i < self.index@.len(),
            key == self.index@[i].first_key@ || order::lex_lt(self.index@[i].first_key@, key),
        ensures
            !order::lex_lt(key, self@.index[i].first_key),
    {
        order::lemma_lex_irreflexive(key);
        if order::lex_lt(self.index@[i].first_key@, key) {
            order::lemma_lex_asymmetric(self.index@[i].first_key@, key);
        }
    }

    /// The block that could contain `key`: the last one that does not begin after
    /// it.
    fn find_block(&self, key: &[u8]) -> (r: Option<usize>)
        ensures
            match r {
                Some(i) => i < self.index@.len() && i + 1 == table::blocks_before(
                    self@.index,
                    key@,
                ),
                None => table::blocks_before(self@.index, key@) == 0,
            },
    {
        let n: usize = self.index.len();
        if n == 0 {
            return None;
        }
        match order::position(key, &self.index[0].first_key) {
            Position::Before => {
                return None;
            },
            _ => {
                proof {
                    self.lemma_not_before(key@, 0);
                }
            },
        }
        let ghost hs = self@.index;
        let mut lo: usize = 1;
        let mut hi: usize = n;
        while lo < hi
            invariant
                1 <= lo <= hi <= self.index@.len(),
                hs == handles(self.index@),
                hs == self@.index,
                table::blocks_before(hs, key@) == table::boundary(hs, key@, lo as nat, hi as nat),
            decreases hi - lo,
        {
            let mid: usize = lo + (hi - lo) / 2;
            assert(hs[mid as int] == self.index@[mid as int].handle());
            match order::position(key, &self.index[mid].first_key) {
                Position::Before => {
                    hi = mid;
                },
                _ => {
                    proof {
                        self.lemma_not_before(key@, mid as int);
                    }
                    lo = mid + 1;
                },
            }
        }
        Some(lo - 1)
    }

    /// Reads data block `idx`.
    fn load_block<S: Storage>(&self, fs: &S, idx: usize) -> (r: Result<Vec<Entry>>)
        requires
            fs.wf(),
            fs.disk().dependable,
            idx < self.index@.len(),
        ensures
            ({
                let content = fs.disk().fs.content(self.location());
                let block = table::block_at(content, self@.index[idx as int]);
                match r {
                    Ok(v) => block == Ok::<Seq<Rec>, Corruption>(sstable::entry_recs(v@)),
                    Err(SsTableError::Corrupt(c)) => block == Err::<Seq<Rec>, Corruption>(c),
                    Err(SsTableError::Storage(_)) => may_fail(fs, self.location()) || strays(
                        content,
                        self@.index,
                    ),
                    Err(_) => false,
                }
            }),
    {
        proof {
            reveal(table::block_at);
        }
        let h = &self.index[idx];
        assert(h.handle() == self@.index[idx as int]);
        let raw: Vec<u8> = match read_exact(fs, &self.path, h.offset, h.len as usize) {
            Ok(raw) => raw,
            Err(e) => {
                return Err(e);
            },
        };
        match verify_crc(&raw, Part::DataBlock) {
            Ok(_) => {},
            Err(c) => {
                return Err(SsTableError::Corrupt(c));
            },
        }
        let end: usize = raw.len() - 4;
        match decode_block(&raw[0..end]) {
            Ok(v) => Ok(v),
            Err(c) => Err(SsTableError::Corrupt(c)),
        }
    }

    /// A cursor over every entry, in key order.
    pub fn iter(&self) -> (it: SsTableIter<'_>)
        ensures
            it.inv(),
            it.source() == self,
            forall|content: Seq<u8>| #[trigger]
                it.remaining(content) == table::items_from(content, self@.index, 0),
    {
        let it = SsTableIter { reader: self, block_idx: 0, block: Vec::new(), within: 0 };
        assert forall|content: Seq<u8>| #[trigger] it.remaining(content) == table::items_from(
            content,
            self@.index,
            0,
        ) by {
            assert(table::good_items(sstable::entry_recs(it.block@).skip(0)) =~= Seq::empty());
            assert(it.remaining(content) =~= table::items_from(content, self@.index, 0));
        }
        it
    }

    /// All entries, in key order, or what went wrong first.
    pub fn entries<S: Storage>(&self, fs: &S) -> (r: Result<Vec<Entry>>)
        requires
            fs.wf(),
            fs.disk().dependable,
        ensures
            ({
                let content = fs.disk().fs.content(self.location());
                let all = collected(table::items_from(content, self@.index, 0));
                match r {
                    Ok(v) => all == Ok::<Seq<Rec>, Corruption>(sstable::entry_recs(v@)),
                    Err(SsTableError::Corrupt(c)) => all == Err::<Seq<Rec>, Corruption>(c),
                    Err(SsTableError::Storage(_)) => may_fail(fs, self.location()) || strays(
                        content,
                        self@.index,
                    ),
                    Err(_) => false,
                }
            }),
    {
        let ghost content = fs.disk().fs.content(self.location());
        let ghost items = table::items_from(content, self@.index, 0);
        let mut it = self.iter();
        let mut out: Vec<Entry> = Vec::new();
        proof {
            assert(sstable::entry_recs(out@) =~= Seq::empty());
            assert(prepended(Seq::empty(), collected(items)) == collected(items)) by {
                if let Ok(v) = collected(items) {
                    assert(Seq::empty() + v =~= v);
                }
            }
        }
        loop
            invariant
                fs.wf(),
                fs.disk().dependable,
                it.inv(),
                it.source() == self,
                content == fs.disk().fs.content(self.location()),
                collected(items) == prepended(
                    sstable::entry_recs(out@),
                    collected(it.remaining(content)),
                ),
                items == table::items_from(content, self@.index, 0),
            decreases it.remaining(content).len(),
        {
            let ghost left = it.remaining(content);
            match it.next(fs) {
                None => {
                    proof {
                        assert(sstable::entry_recs(out@) + Seq::<Rec>::empty()
                            =~= sstable::entry_recs(out@));
                    }
                    return Ok(out);
                },
                Some(Err(e)) => {
                    return Err(e);
                },
                Some(Ok(e)) => {
                    let ghost before = sstable::entry_recs(out@);
                    let ghost r = e@;
                    out.push(e);
                    proof {
                        assert(sstable::entry_recs(out@) =~= before.push(r));
                        if let Ok(rest) = collected(left.drop_first()) {
                            assert(before + (seq![r] + rest) =~= before.push(r) + rest);
                        }
                    }
                },
            }
        }
    }
}

/// Entries in front of others.
spec fn prepended(
    front: Seq<Rec>,
    rest: std::result::Result<Seq<Rec>, Corruption>,
) -> std::result::Result<Seq<Rec>, Corruption> {
    match rest {
        Ok(v) => Ok(front + v),
        Err(e) => Err(e),
    }
}

/// A cursor over a table's entries, block by block.
#[derive(Debug)]
pub struct SsTableIter<'a> {
    reader: &'a SsTableReader,
    /// The next block to read.
    block_idx: usize,
    /// The block that was read last.
    block: Vec<Entry>,
    /// How many of its entries were handed out.
    within: usize,
}

impl<'a> SsTableIter<'a> {
    /// The table being read.
    pub closed spec fn source(&self) -> &SsTableReader {
        self.reader
    }

    /// The position is within the block.
    pub closed spec fn inv(&self) -> bool {
        self.within <= self.block@.len()
    }

    /// What the cursor has yet to hand out of a file with these bytes.
    pub closed spec fn remaining(&self, content: Seq<u8>) -> Seq<
        std::result::Result<Rec, Corruption>,
    > {
        table::good_items(sstable::entry_recs(self.block@).skip(self.within as int))
            + table::items_from(content, self.reader@.index, self.block_idx as nat)
    }

    /// The next entry; after an error nothing more comes.
    pub fn next<S: Storage>(&mut self, fs: &S) -> (r: Option<Result<Entry>>)
        requires
            old(self).inv(),
            fs.wf(),
            fs.disk().dependable,
        ensures
            final(self).inv(),
            final(self).source() == old(self).source(),
            ({
                let path = old(self).source().location();
                let content = fs.disk().fs.content(path);
                let left = old(self).remaining(content);
                let after = final(self).remaining(content);
                match r {
                    None => left.len() == 0 && after.len() == 0,
                    Some(Ok(e)) => left.len() > 0 && left[0] == Ok::<Rec, Corruption>(e@) && after
                        == left.drop_first(),
                    Some(Err(SsTableError::Corrupt(c))) => left.len() > 0 && left[0] == Err::<
                        Rec,
                        Corruption,
                    >(c) && after == left.drop_first(),
                    Some(Err(SsTableError::Storage(_))) => after.len() == 0 && (may_fail(fs, path)
                        || strays(content, old(self).source()@.index)),
                    Some(Err(_)) => false,
                }
            }),
    {
        let ghost content = fs.disk().fs.content(self.reader.location());
        let ghost left = self.remaining(content);
        loop
            invariant
                fs.wf(),
                fs.disk().dependable,
                self.inv(),
                self.reader == old(self).reader,
                content == fs.disk().fs.content(self.reader.location()),
                left == old(self).remaining(content),
                self.remaining(content) == left,
            decreases self.reader.index.len() - self.block_idx,
        {
            if self.within < self.block.len() {
                let e: Entry = self.block[self.within].clone();
                proof {
                    let recs = sstable::entry_recs(self.block@);
                    let i = self.within as int;
                    assert(table::good_items(recs.skip(i)).drop_first() =~= table::good_items(
                        recs.skip(i + 1),
                    ));
                    assert(left.drop_first() =~= table::good_items(recs.skip(i + 1))
                        + table::items_from(content, self.reader@.index, self.block_idx as nat));
                    assert(left[0] == table::good_items(recs.skip(i))[0]);
                }
                self.within = self.within + 1;
                return Some(Ok(e));
            }
            assert(table::good_items(sstable::entry_recs(self.block@).skip(self.within as int))
                =~= Seq::empty());
            self.block = Vec::new();
            self.within = 0;
            proof {
                assert(table::good_items(sstable::entry_recs(self.block@).skip(0))
                    =~= Seq::empty());
                assert(self.remaining(content) =~= table::items_from(
                    content,
                    self.reader@.index,
                    self.block_idx as nat,
                ));
            }
            if self.block_idx >= self.reader.index.len() {
                return None;
            }
            match self.reader.load_block(fs, self.block_idx) {
                Ok(entries) => {
                    self.block = entries;
                    self.block_idx = self.block_idx + 1;
                    proof {
                        let recs = sstable::entry_recs(self.block@);
                        assert(recs.skip(0) =~= recs);
                    }
                },
                Err(e) => {
                    self.block_idx = self.reader.index.len();
                    proof {
                        assert(self.remaining(content) =~= Seq::empty());
                        assert(left.len() == 1 ==> left.drop_first() =~= Seq::empty());
                    }
                    return Some(Err(e));
                },
            }
        }
    }
}

/// The entry for `key` in a block.
fn find_entry(entries: &Vec<Entry>, key: &[u8]) -> (r: Option<Entry>)
    ensures
        found(r) == table::searched(sstable::entry_recs(entries@), key@, 0, entries@.len()),
{
    let mut lo: usize = 0;
    let mut hi: usize = entries.len();
    let ghost recs = sstable::entry_recs(entries@);
    while lo < hi
        invariant
            lo <= hi <= entries@.len(),
            recs == sstable::entry_recs(entries@),
            table::searched(recs, key@, 0, entries@.len()) == table::searched(
                recs,
                key@,
                lo as nat,
                hi as nat,
            ),
        decreases hi - lo,
    {
        let mid: usize = lo + (hi - lo) / 2;
        assert(recs[mid as int] == entries@[mid as int]@);
        match order::position(key, &entries[mid].key) {
            Position::Before => {
                proof {
                    order::lemma_lex_irreflexive(key@);
                }
                hi = mid;
            },
            Position::Same => {
                return Some(entries[mid].clone());
            },
            Position::After => {
                proof {
                    order::lemma_lex_irreflexive(key@);
                    order::lemma_lex_asymmetric(entries@[mid as int].key@, key@);
                }
                lo = mid + 1;
            },
        }
    }
    None
}

/// Reads exactly `len` bytes at `offset`.
fn read_exact<S: Storage>(fs: &S, path: &FilePath, offset: u64, len: usize) -> (r: Result<Vec<u8>>)
    requires
        fs.wf(),
        fs.disk().dependable,
    ensures
        ({
            let content = fs.disk().fs.content(path@);
            let raw = storage::window(content, offset as int, len as int);
            match r {
                Ok(b) => fs.disk().fs.live.contains_key(path@) && b@ == raw && raw.len() == len,
                Err(SsTableError::Corrupt(c)) => fs.disk().fs.live.contains_key(path@) && raw.len()
                    < len && c == (Corruption::ShortRead {
                    offset,
                    wanted: len as u64,
                    got: raw.len() as u64,
                }),
                Err(SsTableError::Storage(_)) => may_fail(fs, path@) || offset > content.len(),
                Err(_) => false,
            }
        }),
{
    match fs.read_at(path, offset, len) {
        Ok(b) => {
            assert(b@.len() == b.len());
            if b.len() != len {
                return Err(
                    SsTableError::Corrupt(
                        Corruption::ShortRead { offset, wanted: len as u64, got: b.len() as u64 },
                    ),
                );
            }
            Ok(b)
        },
        Err(e) => Err(SsTableError::Storage(e)),
    }
}

/// Checks the checksum at the end of a part.
pub fn verify_crc(buf: &[u8], part: Part) -> (r: std::result::Result<(), Corruption>)
    ensures
        match table::unsealed(buf@, part) {
            Ok(body) => r is Ok && buf@.len() >= 4 && body == buf@.take(buf@.len() - 4),
            Err(e) => r == Err::<(), Corruption>(e),
        },
        r is Ok <==> laws::is_sound(buf@),
{
    proof {
        laws::lemma_checksum_decides(buf@, part);
    }
    if buf.len() < 4 {
        return Err(Corruption::TooShortForCrc { part });
    }
    let end: usize = buf.len() - 4;
    let stored: u32 = codec::get_u32(buf, end);
    let computed: u32 = checksum::crc32_of(&buf[0..end]);
    proof {
        assert(buf@.subrange(end as int, end + 4) =~= buf@.skip(end as int));
        assert(buf@.subrange(0, end as int) =~= buf@.take(end as int));
    }
    if stored != computed {
        return Err(Corruption::CrcMismatch { part, stored, computed });
    }
    Ok(())
}

/// Checks that a region ends within `limit`.
fn check_region(offset: u64, len: u32, limit: u64, part: Part) -> (r: std::result::Result<
    (),
    Corruption,
>)
    ensures
        if table::region_ok(offset, len, limit as int) {
            r is Ok
        } else {
            r == Err::<(), Corruption>(Corruption::RegionOutOfBounds { part, offset, len, limit })
        },
{
    if offset as u128 + len as u128 > limit as u128 {
        return Err(Corruption::RegionOutOfBounds { part, offset, len, limit });
    }
    Ok(())
}

/// Reads the sparse index.
fn decode_index(buf: &[u8]) -> (r: std::result::Result<Vec<BlockHandle>, Corruption>)
    ensures
        match table::parsed_index_part(buf@) {
            Ok(hs) => r is Ok && handles(r->Ok_0@) == hs,
            Err(e) => r is Err && r->Err_0 == e,
        },
{
    match verify_crc(buf, Part::Index) {
        Ok(_) => {},
        Err(e) => {
            return Err(e);
        },
    }
    let end: usize = buf.len() - 4;
    let mut cur: Cursor<'_> = Cursor::new(&buf[0..end]);
    assert(cur@ =~= buf@.take(end as int));
    let count: u32 = match cur.u32() {
        Ok(count) => count,
        Err(e) => {
            return Err(e);
        },
    };
    let ghost all = table::parsed_handles(cur@, count as nat);
    let mut out: Vec<BlockHandle> = Vec::new();
    let mut i: u32 = 0;
    proof {
        assert(handles(out@) =~= Seq::empty());
        assert(joined(Seq::empty(), all) == all) by {
            if let Ok(v) = all {
                assert(Seq::empty() + v =~= v);
            }
        }
    }
    while i < count
        invariant
            i <= count,
            cur.inv(),
            all == joined(handles(out@), table::parsed_handles(cur@, (count - i) as nat)),
            table::parsed_index_part(buf@) == all,
        decreases count - i,
    {
        match decode_handle(&mut cur) {
            Ok(h) => {
                let ghost before = handles(out@);
                let ghost v = h.handle();
                out.push(h);
                i = i + 1;
                proof {
                    assert(handles(out@) =~= before.push(v));
                    if let Ok(rest) = table::parsed_handles(cur@, (count - i) as nat) {
                        assert(before + (seq![v] + rest) =~= before.push(v) + rest);
                    }
                }
            },
            Err(e) => {
                return Err(e);
            },
        }
    }
    assert(handles(out@) + Seq::<table::Handle>::empty() =~= handles(out@));
    Ok(out)
}

/// Handles in front of others.
spec fn joined(
    front: Seq<table::Handle>,
    rest: std::result::Result<Seq<table::Handle>, Corruption>,
) -> std::result::Result<Seq<table::Handle>, Corruption> {
    match rest {
        Ok(v) => Ok(front + v),
        Err(e) => Err(e),
    }
}

/// Reads one handle.
fn decode_handle(cur: &mut Cursor<'_>) -> (r: std::result::Result<BlockHandle, Corruption>)
    requires
        old(cur).inv(),
    ensures
        final(cur).inv(),
        match table::parsed_handle(old(cur)@) {
            Ok((h, rest)) => r is Ok && r->Ok_0.handle() == h && final(cur)@ == rest,
            Err(e) => r is Err && r->Err_0 == e,
        },
{
    proof {
        reveal(table::parsed_handle);
    }
    let key_len: u32 = match cur.u32() {
        Ok(n) => n,
        Err(e) => {
            return Err(e);
        },
    };
    let first_key: Vec<u8> = match cur.take(key_len as usize) {
        Ok(k) => k,
        Err(e) => {
            return Err(e);
        },
    };
    let offset: u64 = match cur.u64() {
        Ok(n) => n,
        Err(e) => {
            return Err(e);
        },
    };
    let len: u32 = match cur.u32() {
        Ok(n) => n,
        Err(e) => {
            return Err(e);
        },
    };
    Ok(BlockHandle { first_key, offset, len })
}

/// Reads the filter.
fn decode_filter(buf: &[u8]) -> (r: std::result::Result<BloomFilter, Corruption>)
    ensures
        match table::parsed_filter_part(buf@) {
            Ok(b) => r is Ok && r->Ok_0@ == b && b.wf(),
            Err(e) => r is Err && r->Err_0 == e,
        },
{
    match verify_crc(buf, Part::Bloom) {
        Ok(_) => {},
        Err(e) => {
            return Err(e);
        },
    }
    let end: usize = buf.len() - 4;
    let mut cur: Cursor<'_> = Cursor::new(&buf[0..end]);
    assert(cur@ =~= buf@.take(end as int));
    BloomFilter::decode(&mut cur)
}

/// Reads one entry of a data block.
fn decode_entry(cur: &mut Cursor<'_>) -> (r: std::result::Result<Entry, Corruption>)
    requires
        old(cur).inv(),
    ensures
        final(cur).inv(),
        match table::parsed_entry(old(cur)@) {
            Ok((e, rest)) => r is Ok && r->Ok_0@ == e && final(cur)@ == rest && rest.len() < old(
                cur,
            )@.len(),
            Err(e) => r is Err && r->Err_0 == e,
        },
{
    proof {
        reveal(table::parsed_entry);
        reveal(table::parsed_value);
    }
    let key_len: u32 = match cur.u32() {
        Ok(n) => n,
        Err(e) => {
            return Err(e);
        },
    };
    let key: Vec<u8> = match cur.take(key_len as usize) {
        Ok(k) => k,
        Err(e) => {
            return Err(e);
        },
    };
    let seq: u64 = match cur.u64() {
        Ok(n) => n,
        Err(e) => {
            return Err(e);
        },
    };
    let tag: u8 = match cur.u8() {
        Ok(t) => t,
        Err(e) => {
            return Err(e);
        },
    };
    if tag == TAG_PUT {
        let len: u32 = match cur.u32() {
            Ok(n) => n,
            Err(e) => {
                return Err(e);
            },
        };
        match cur.take(len as usize) {
            Ok(v) => Ok(Entry { key, seq, value: Value::Put(v) }),
            Err(e) => Err(e),
        }
    } else if tag == TAG_DELETE {
        Ok(Entry { key, seq, value: Value::Delete })
    } else {
        Err(Corruption::UnknownTag { tag })
    }
}

/// Reads the entries of a data block.
fn decode_block(buf: &[u8]) -> (r: std::result::Result<Vec<Entry>, Corruption>)
    ensures
        match table::parsed_block(buf@) {
            Ok(recs) => r is Ok && sstable::entry_recs(r->Ok_0@) == recs,
            Err(e) => r is Err && r->Err_0 == e,
        },
{
    let mut cur: Cursor<'_> = Cursor::new(buf);
    let mut out: Vec<Entry> = Vec::new();
    let ghost all = table::parsed_block(buf@);
    proof {
        assert(sstable::entry_recs(out@) =~= Seq::empty());
        assert(prepended(Seq::empty(), all) == all) by {
            if let Ok(v) = all {
                assert(Seq::empty() + v =~= v);
            }
        }
    }
    while cur.remaining() > 0
        invariant
            cur.inv(),
            all == table::parsed_block(buf@),
            all == prepended(sstable::entry_recs(out@), table::parsed_block(cur@)),
        decreases cur@.len(),
    {
        match decode_entry(&mut cur) {
            Ok(e) => {
                let ghost before = sstable::entry_recs(out@);
                let ghost r = e@;
                out.push(e);
                proof {
                    assert(sstable::entry_recs(out@) =~= before.push(r));
                    if let Ok(rest) = table::parsed_block(cur@) {
                        assert(before + (seq![r] + rest) =~= before.push(r) + rest);
                    }
                }
            },
            Err(e) => {
                return Err(e);
            },
        }
    }
    assert(sstable::entry_recs(out@) + Seq::<Rec>::empty() =~= sstable::entry_recs(out@));
    Ok(out)
}

/// Reading gives back what was written: a table opens, says how many entries it
/// has, finds of every key what was written of it, and reads from front to back as
/// what was written, in order.
pub proof fn lemma_table_reads(bytes: Seq<u8>, recs: Seq<Rec>)
    requires
        table::is_table(bytes, recs),
    ensures
        table::opened(bytes) is Ok,
        table::opened(bytes)->Ok_0.num_entries == recs.len(),
        forall|key: Seq<u8>| #[trigger]
            table::looked_up(bytes, table::opened(bytes)->Ok_0, key) == Ok::<
                Option<Rec>,
                Corruption,
            >(model::find(recs, key)),
        table::items_from(bytes, table::opened(bytes)->Ok_0.index, 0) == table::good_items(recs),
        collected(table::items_from(bytes, table::opened(bytes)->Ok_0.index, 0)) == Ok::<
            Seq<Rec>,
            Corruption,
        >(recs),
        !strays(bytes, table::opened(bytes)->Ok_0.index),
{
    let filter = choose|filter: bloom::BloomView| #[trigger]
        table::is_table_with(bytes, recs, filter);
    table::lemma_opened(recs, filter);
    let t = table::opened(bytes)->Ok_0;
    assert forall|key: Seq<u8>| #[trigger]
        table::looked_up(bytes, t, key) == Ok::<Option<Rec>, Corruption>(
            model::find(recs, key),
        ) by {
        table::lemma_looked_up(recs, filter, key);
    }
    table::lemma_items(recs, filter, 0);
    assert(recs.skip(0) =~= recs);
    assert(table::blocks_of(recs).take(0) =~= Seq::empty());
    lemma_collected(recs);
    assert forall|i: int| 0 <= i < t.index.len() implies (#[trigger] t.index[i]).offset
        <= bytes.len() by {
        table::lemma_block_at(recs, filter, i);
    }
}

proof fn lemma_collected(recs: Seq<Rec>)
    ensures
        collected(table::good_items(recs)) == Ok::<Seq<Rec>, Corruption>(recs),
    decreases recs.len(),
{
    if recs.len() == 0 {
        assert(recs =~= Seq::empty());
    } else {
        lemma_collected(recs.drop_first());
        assert(table::good_items(recs).drop_first() =~= table::good_items(recs.drop_first()));
        assert(seq![recs[0]] + recs.drop_first() =~= recs);
    }
}

/// What is read of a whole table: all that came out, if all of it is good, and otherwise the
/// first thing that went wrong.
pub proof fn lemma_collects(items: Seq<std::result::Result<Rec, Corruption>>, k: int)
    ensures
        (forall|i: int| 0 <= i < items.len() ==> (#[trigger] items[i]) is Ok) ==> collected(items)
            is Ok && collected(items)->Ok_0 == Seq::new(items.len(), |i: int| items[i]->Ok_0),
        0 <= k < items.len() && items[k] is Err && (forall|i: int|
            0 <= i < k ==> (#[trigger] items[i]) is Ok) ==> collected(items) == Err::<
            Seq<Rec>,
            Corruption,
        >(items[k]->Err_0),
    decreases items.len(),
{
    if items.len() > 0 {
        let rest = items.drop_first();
        lemma_collects(rest, k - 1);
        assert forall|i: int| 0 <= i < rest.len() implies #[trigger] rest[i] == items[i + 1] by {}
        if forall|i: int| 0 <= i < items.len() ==> (#[trigger] items[i]) is Ok {
            assert(items[0] is Ok);
            assert forall|i: int| 0 <= i < rest.len() implies (#[trigger] rest[i]) is Ok by {
                assert(items[i + 1] is Ok);
            }
            assert(collected(items)->Ok_0 =~= Seq::new(items.len(), |i: int| items[i]->Ok_0));
        }
        if 0 <= k < items.len() && items[k] is Err && (forall|i: int|
            0 <= i < k ==> (#[trigger] items[i]) is Ok) {
            if k > 0 {
                assert(items[0] is Ok);
                assert forall|i: int| 0 <= i < k - 1 implies (#[trigger] rest[i]) is Ok by {
                    assert(items[i + 1] is Ok);
                }
            }
        }
    } else {
        assert(collected(items)->Ok_0 =~= Seq::new(items.len(), |i: int| items[i]->Ok_0));
    }
}

} // verus!
