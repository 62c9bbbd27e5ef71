//! Sorted tables: immutable, sorted runs of entries on disk.
//!
//! The file is written front to back: data blocks, then the sparse index, then
//! the bloom filter, then a fixed-size footer. The reader parses it back to
//! front. Every one of these ends in a CRC-32 of what precedes it.

use vstd::prelude::*;

use crate::codec;
use crate::model::Rec;
use crate::storage::StorageError;

pub mod bloom;
pub mod builder;
pub mod table;
pub mod reader;

pub use bloom::BloomFilter;
pub use builder::{SsTableBuilder, SsTableSummary, DEFAULT_BITS_PER_KEY};
pub use reader::{SsTableIter, SsTableReader};

verus! {

/// Target size of a data block in bytes (4 KiB).
pub const BLOCK_SIZE: usize = 4096;

/// Magic number in the footer.
pub const FOOTER_MAGIC: u64 = 0x4143_4352_5F53_5354;

/// On-disk format version.
pub const FORMAT_VERSION: u32 = 1;

/// The value bound to a key in a table: live bytes or a tombstone.
#[derive(Debug, PartialEq, Eq)]
pub enum Value {
    /// A live value.
    Put(Vec<u8>),
    /// A deletion marker.
    Delete,
}

impl View for Value {
    type V = Option<Seq<u8>>;

    open spec fn view(&self) -> Option<Seq<u8>> {
        match self {
            Value::Put(v) => Some(v@),
            Value::Delete => None,
        }
    }
}

impl Clone for Value {
    fn clone(&self) -> (r: Self)
        ensures
            r@ == self@,
    {
        match self {
            Value::Put(v) => Value::Put(v.clone()),
            Value::Delete => Value::Delete,
        }
    }
}

/// A borrowed view of a [`Value`], used on the write path.
#[derive(Debug, Clone, Copy, PartialEq, Eq)]
pub enum ValueRef<'a> {
    /// A live value, borrowed.
    Put(&'a [u8]),
    /// A deletion marker.
    Delete,
}

impl<'a> View for ValueRef<'a> {
    type V = Option<Seq<u8>>;

    open spec fn view(&self) -> Option<Seq<u8>> {
        match self {
            ValueRef::Put(v) => Some(v@),
            ValueRef::Delete => None,
        }
    }
}

/// One record read back from a table.
#[derive(Debug, PartialEq, Eq)]
pub struct Entry {
    /// The record's key.
    pub key: Vec<u8>,
    /// The sequence number at which the write occurred.
    pub seq: u64,
    /// The value, live or tombstone.
    pub value: Value,
}

impl View for Entry {
    type V = Rec;

    open spec fn view(&self) -> Rec {
        Rec { key: self.key@, seq: self.seq, val: self.value@ }
    }
}

impl Clone for Entry {
    fn clone(&self) -> (r: Self)
        ensures
            r@ == self@,
    {
        Entry { key: self.key.clone(), seq: self.seq, value: self.value.clone() }
    }
}

/// The records that table entries are.
pub open spec fn entry_recs(v: Seq<Entry>) -> Seq<Rec> {
    Seq::new(v.len(), |i: int| v[i]@)
}

/// What carries a checksum: a part of a table file, or a manifest.
#[derive(Debug, Clone, Copy, PartialEq, Eq, Structural)]
pub enum Part {
    Footer,
    Index,
    Bloom,
    DataBlock,
    Manifest,
}

/// How a file's bytes are inconsistent with the format.
#[derive(Debug, Clone, Copy, PartialEq, Eq, Structural)]
pub enum Corruption {
    /// The file is too short to hold a footer.
    FileTooShort { len: u64 },
    /// The file ends before the bytes that were to be read.
    ShortRead { offset: u64, wanted: u64, got: u64 },
    /// A part is too short for a checksum.
    TooShortForCrc { part: Part },
    /// A part does not match its checksum.
    CrcMismatch { part: Part, stored: u32, computed: u32 },
    /// The footer does not begin with the magic number.
    BadMagic,
    /// The format version is not supported.
    BadVersion { version: u32 },
    /// A part is said to lie outside of the file.
    RegionOutOfBounds { part: Part, offset: u64, len: u32, limit: u64 },
    /// A part ends in the middle of a field.
    UnexpectedEnd { need: u64, have: u64 },
    /// The tag of an entry's value is not known.
    UnknownTag { tag: u8 },
    /// The number of bits of the filter is not a positive multiple of eight.
    BloomBits { num_bits: u32 },
    /// The filter probes no bits.
    BloomHashes,
    /// The length of the filter's bit array disagrees with the number of bits.
    BloomLength { len: u64, num_bits: u32 },
    /// A log record ends in the middle of a field.
    RecordTruncated,
    /// The tag of a log record is not known.
    RecordTag { tag: u8 },
}

/// Errors produced while building or reading a table.
#[derive(Debug)]
pub enum SsTableError {
    /// An error from the underlying storage backend.
    Storage(StorageError),
    /// The file's bytes are inconsistent with the format.
    Corrupt(Corruption),
    /// The builder was handed keys that were not strictly increasing.
    Unsorted,
    /// The table is larger than the format can describe.
    TooLarge,
}

/// Result alias for table operations.
pub type Result<T> = std::result::Result<T, SsTableError>;

/// The first `n` bytes of `s` and the rest.
pub open spec fn taken(s: Seq<u8>, n: nat) -> std::result::Result<(Seq<u8>, Seq<u8>), Corruption> {
    if s.len() < n {
        Err(Corruption::UnexpectedEnd { need: n as u64, have: s.len() as u64 })
    } else {
        Ok((s.take(n as int), s.skip(n as int)))
    }
}

/// The `u32` at the start of `s` and the rest.
pub open spec fn take_u32(s: Seq<u8>) -> std::result::Result<(u32, Seq<u8>), Corruption> {
    match taken(s, 4) {
        Ok((b, rest)) => Ok((codec::unle(b) as u32, rest)),
        Err(e) => Err(e),
    }
}

/// The `u64` at the start of `s` and the rest.
pub open spec fn take_u64(s: Seq<u8>) -> std::result::Result<(u64, Seq<u8>), Corruption> {
    match taken(s, 8) {
        Ok((b, rest)) => Ok((codec::unle(b) as u64, rest)),
        Err(e) => Err(e),
    }
}

/// The byte at the start of `s` and the rest.
pub open spec fn take_u8(s: Seq<u8>) -> std::result::Result<(u8, Seq<u8>), Corruption> {
    match taken(s, 1) {
        Ok((b, rest)) => Ok((b[0], rest)),
        Err(e) => Err(e),
    }
}

/// Reading what was just written.
pub proof fn lemma_take_u32(x: u32, rest: Seq<u8>)
    ensures
        take_u32(codec::le32(x) + rest) == Ok::<(u32, Seq<u8>), Corruption>((x, rest)),
{
    codec::lemma_u32(x);
    let s = codec::le32(x) + rest;
    assert(s.take(4) =~= codec::le32(x));
    assert(s.skip(4) =~= rest);
}

/// Reading what was just written.
pub proof fn lemma_take_u64(x: u64, rest: Seq<u8>)
    ensures
        take_u64(codec::le64(x) + rest) == Ok::<(u64, Seq<u8>), Corruption>((x, rest)),
{
    codec::lemma_u64(x);
    let s = codec::le64(x) + rest;
    assert(s.take(8) =~= codec::le64(x));
    assert(s.skip(8) =~= rest);
}

/// Reading what was just written.
pub proof fn lemma_taken(b: Seq<u8>, rest: Seq<u8>)
    ensures
        taken(b + rest, b.len()) == Ok::<(Seq<u8>, Seq<u8>), Corruption>((b, rest)),
{
    let s = b + rest;
    assert(s.take(b.len() as int) =~= b);
    assert(s.skip(b.len() as int) =~= rest);
}

/// A bounds-checked cursor over an in-memory byte buffer.
pub struct Cursor<'a> {
    buf: &'a [u8],
    pos: usize,
}

impl<'a> View for Cursor<'a> {
    type V = Seq<u8>;

    /// The bytes that are left.
    closed spec fn view(&self) -> Seq<u8> {
        self.buf@.skip(self.pos as int)
    }
}

impl<'a> Cursor<'a> {
    /// The position is within the buffer.
    pub closed spec fn inv(&self) -> bool {
        self.pos <= self.buf@.len()
    }

    /// A cursor at the start of `buf`.
    pub fn new(buf: &'a [u8]) -> (c: Self)
        ensures
            c.inv(),
            c@ == buf@,
    {
        let c = Cursor { buf, pos: 0 };
        assert(c@ =~= buf@);
        c
    }

    /// How many bytes are left.
    pub fn remaining(&self) -> (n: usize)
        requires
            self.inv(),
        ensures
            n == self@.len(),
    {
        self.buf.len() - self.pos
    }

    /// Reads `n` bytes.
    pub fn take(&mut self, n: usize) -> (r: std::result::Result<Vec<u8>, Corruption>)
        requires
            old(self).inv(),
        ensures
            final(self).inv(),
            match taken(old(self)@, n as nat) {
                Ok((b, rest)) => r is Ok && r->Ok_0@ == b && final(self)@ == rest,
                Err(e) => r == Err::<Vec<u8>, Corruption>(e) && final(self)@ == old(self)@,
            },
    {
        let have: usize = self.remaining();
        if have < n {
            return Err(Corruption::UnexpectedEnd { need: n as u64, have: have as u64 });
        }
        assert(self.buf@.len() == self.buf.len());
        let out: Vec<u8> = codec::copy_range(self.buf, self.pos, self.pos + n);
        assert(out@ =~= self@.take(n as int));
        self.pos = self.pos + n;
        assert(self@ =~= old(self)@.skip(n as int));
        Ok(out)
    }

    /// Reads a `u32`.
    pub fn u32(&mut self) -> (r: std::result::Result<u32, Corruption>)
        requires
            old(self).inv(),
        ensures
            final(self).inv(),
            match take_u32(old(self)@) {
                Ok((x, rest)) => r == Ok::<u32, Corruption>(x) && final(self)@ == rest,
                Err(e) => r == Err::<u32, Corruption>(e) && final(self)@ == old(self)@,
            },
    {
        match self.take(4) {
            Ok(b) => {
                assert(b@.subrange(0, 4) =~= b@);
                Ok(codec::get_u32(&b, 0))
            },
            Err(e) => Err(e),
        }
    }

    /// Reads a `u64`.
    pub fn u64(&mut self) -> (r: std::result::Result<u64, Corruption>)
        requires
            old(self).inv(),
        ensures
            final(self).inv(),
            match take_u64(old(self)@) {
                Ok((x, rest)) => r == Ok::<u64, Corruption>(x) && final(self)@ == rest,
                Err(e) => r == Err::<u64, Corruption>(e) && final(self)@ == old(self)@,
            },
    {
        match self.take(8) {
            Ok(b) => {
                assert(b@.subrange(0, 8) =~= b@);
                Ok(codec::get_u64(&b, 0))
            },
            Err(e) => Err(e),
        }
    }

    /// Reads a byte.
    pub fn u8(&mut self) -> (r: std::result::Result<u8, Corruption>)
        requires
            old(self).inv(),
        ensures
            final(self).inv(),
            match take_u8(old(self)@) {
                Ok((x, rest)) => r == Ok::<u8, Corruption>(x) && final(self)@ == rest,
                Err(e) => r == Err::<u8, Corruption>(e) && final(self)@ == old(self)@,
            },
    {
        match self.take(1) {
            Ok(b) => Ok(b[0]),
            Err(e) => Err(e),
        }
    }
}

/// A `u32` that was read stood in front of the rest.
pub(crate) proof fn lemma_took_u32(s: Seq<u8>)
    ensures
        take_u32(s) is Ok <==> s.len() >= 4,
        take_u32(s) matches Ok((x, rest)) ==> s == codec::le32(x) + rest && rest.len()
            == s.len() - 4,
{
    if s.len() >= 4 {
        codec::lemma_bytes_u32(s.take(4));
        assert(s =~= s.take(4) + s.skip(4));
    }
}

/// A `u64` that was read stood in front of the rest.
pub(crate) proof fn lemma_took_u64(s: Seq<u8>)
    ensures
        take_u64(s) is Ok <==> s.len() >= 8,
        take_u64(s) matches Ok((x, rest)) ==> s == codec::le64(x) + rest && rest.len()
            == s.len() - 8,
{
    if s.len() >= 8 {
        codec::lemma_bytes_u64(s.take(8));
        assert(s =~= s.take(8) + s.skip(8));
    }
}

/// Bytes that were read stood in front of the rest.
pub(crate) proof fn lemma_took(s: Seq<u8>, n: nat)
    ensures
        taken(s, n) is Ok <==> s.len() >= n,
        taken(s, n) matches Ok((b, rest)) ==> s == b + rest && b.len() == n,
{
    if s.len() >= n {
        assert(s =~= s.take(n as int) + s.skip(n as int));
    }
}


} // verus!
