//! What the errors say to a reader. Paths are byte strings, and so are the messages.

use vstd::prelude::*;
use vstd::utf8;

use crate::bench::kv::BenchError;
use crate::codec;
use crate::compaction::CompactionError;
use crate::db::DbError;
use crate::manifest::ManifestError;
use crate::names;
use crate::sstable::table;
use crate::sstable::{Corruption, Part, SsTableError};
use crate::storage::{FilePath, StorageError};

verus! {

/// The bytes of a text.
pub open spec fn text(s: &str) -> Seq<u8> {
    utf8::encode_utf8(s@)
}

/// A number in decimal.
pub open spec fn number(n: u64) -> Seq<u8> {
    names::padded(n, 1)
}

/// `n` in `width` hexadecimal digits.
pub open spec fn hex_digits(n: nat, width: nat) -> Seq<u8>
    decreases width,
{
    if width == 0 {
        Seq::empty()
    } else {
        hex_digits(n / 16, (width - 1) as nat).push(hex_digit(n % 16))
    }
}

/// The hexadecimal digit that writes `d`.
pub open spec fn hex_digit(d: nat) -> u8 {
    if d < 10 {
        (48 + d) as u8
    } else {
        (87 + d) as u8
    }
}

/// A checksum in hexadecimal.
pub open spec fn checksum_text(x: u32) -> Seq<u8> {
    text("0x") + hex_digits(x as nat, 8)
}

fn say(out: &mut Vec<u8>, s: &str)
    ensures
        final(out)@ == old(out)@ + text(s),
{
    codec::put_bytes(out, s.as_bytes());
}

fn say_number(out: &mut Vec<u8>, n: u64)
    ensures
        final(out)@ == old(out)@ + number(n),
{
    names::put_padded(out, n, 1);
}

fn put_hex(out: &mut Vec<u8>, n: u32, width: usize)
    ensures
        final(out)@ == old(out)@ + hex_digits(n as nat, width as nat),
    decreases width,
{
    let ghost before = out@;
    if width > 0 {
        put_hex(out, n / 16, width - 1);
        let d: u32 = n % 16;
        out.push(
            if d < 10 {
                (48 + d) as u8
            } else {
                (87 + d) as u8
            },
        );
    }
    assert(out@ =~= before + hex_digits(n as nat, width as nat));
}

fn say_checksum(out: &mut Vec<u8>, x: u32)
    ensures
        final(out)@ == old(out)@ + checksum_text(x),
{
    let ghost before = out@;
    say(out, "0x");
    put_hex(out, x, 8);
    assert(out@ =~= before + checksum_text(x));
}

fn say_path(out: &mut Vec<u8>, p: &FilePath)
    ensures
        final(out)@ == old(out)@ + p.text(),
{
    let ghost before = out@;
    codec::put_bytes(out, &p.spelled());
    assert(out@ =~= before + p.text());
}

impl StorageError {
    /// What the error says.
    pub open spec fn text(&self) -> Seq<u8> {
        match self {
            StorageError::NotFound(p) => text("not found: ") + p.text(),
            StorageError::AlreadyExists(p) => text("already exists: ") + p.text(),
            StorageError::OutOfBounds { path, offset, len } => text("out of bounds on ")
                + path.text() + text(": offset ") + number(*offset) + text(" exceeds len ")
                + number(*len),
            StorageError::NotADirectory(p) => text("not a directory: ") + p.text(),
            StorageError::Io { path, message } => text("io error on ") + path.text() + text(
                ": ",
            ) + utf8::encode_utf8(message@),
        }
    }

    /// The error as a message.
    pub fn message(&self) -> (m: Vec<u8>)
        ensures
            m@ == self.text(),
    {
        let mut m: Vec<u8> = Vec::new();
        match self {
            StorageError::NotFound(p) => {
                say(&mut m, "not found: ");
                say_path(&mut m, p);
            },
            StorageError::AlreadyExists(p) => {
                say(&mut m, "already exists: ");
                say_path(&mut m, p);
            },
            StorageError::OutOfBounds { path, offset, len } => {
                say(&mut m, "out of bounds on ");
                say_path(&mut m, path);
                say(&mut m, ": offset ");
                say_number(&mut m, *offset);
                say(&mut m, " exceeds len ");
                say_number(&mut m, *len);
            },
            StorageError::NotADirectory(p) => {
                say(&mut m, "not a directory: ");
                say_path(&mut m, p);
            },
            StorageError::Io { path, message } => {
                say(&mut m, "io error on ");
                say_path(&mut m, path);
                say(&mut m, ": ");
                say(&mut m, message.as_str());
            },
        }
        assert(m@ =~= self.text());
        m
    }
}

impl Part {
    /// The name of the part.
    pub open spec fn text(self) -> Seq<u8> {
        match self {
            Part::Footer => text("footer"),
            Part::Index => text("index"),
            Part::Bloom => text("bloom"),
            Part::DataBlock => text("data block"),
            Part::Manifest => text("manifest"),
        }
    }

    fn say_name(self, out: &mut Vec<u8>)
        ensures
            final(out)@ == old(out)@ + self.text(),
    {
        match self {
            Part::Footer => say(out, "footer"),
            Part::Index => say(out, "index"),
            Part::Bloom => say(out, "bloom"),
            Part::DataBlock => say(out, "data block"),
            Part::Manifest => say(out, "manifest"),
        }
    }
}

impl Corruption {
    /// What is wrong with the bytes.
    pub open spec fn text(self) -> Seq<u8> {
        match self {
            Corruption::FileTooShort { len } => text("file length ") + number(len) + text(
                " is smaller than a footer (",
            ) + number(table::FOOTER_SIZE as u64) + text(" bytes)"),
            Corruption::ShortRead { offset, wanted, got } => text("short read at offset ") + number(
                offset,
            ) + text(": wanted ") + number(wanted) + text(" bytes, got ") + number(got),
            Corruption::TooShortForCrc { part } => part.text() + text(" too short for a crc"),
            Corruption::CrcMismatch { part, stored, computed } => part.text() + text(
                " crc mismatch: stored ",
            ) + checksum_text(stored) + text(", computed ") + checksum_text(computed),
            Corruption::BadMagic => text("footer magic mismatch"),
            Corruption::BadVersion { version } => text("unsupported format version ") + number(
                version as u64,
            ),
            Corruption::RegionOutOfBounds { part, offset, len, limit } => part.text() + text(
                " region [",
            ) + number(offset) + text(", +") + number(len as u64) + text(
                ") runs past data limit ",
            ) + number(limit),
            Corruption::UnexpectedEnd { need, have } => text("unexpected end of buffer: need ")
                + number(need) + text(" bytes, have ") + number(have),
            Corruption::UnknownTag { tag } => text("unknown value tag ") + number(
                tag as u64,
            ) + text(" in data block"),
            Corruption::BloomBits { num_bits } => text("bloom num_bits ") + number(num_bits as u64)
                + text(" is not a positive multiple of 8"),
            Corruption::BloomHashes => text("bloom num_hashes is zero"),
            Corruption::BloomLength { len, num_bits } => text("bloom bit-array length ") + number(
                len,
            ) + text(" disagrees with num_bits ") + number(num_bits as u64),
            Corruption::RecordTruncated => text("wal record: truncated"),
            Corruption::RecordTag { tag } => text("wal record: unknown tag ") + number(tag as u64),
        }
    }

    /// What is wrong with the bytes of a manifest.
    pub open spec fn manifest_text(self) -> Seq<u8> {
        match self {
            Corruption::TooShortForCrc { .. } => text("shorter than a crc"),
            Corruption::CrcMismatch { stored, computed, .. } => text("crc mismatch: stored ")
                + checksum_text(stored) + text(", computed ") + checksum_text(computed),
            Corruption::BadMagic => text("magic mismatch"),
            Corruption::BadVersion { version } => text("unsupported format ") + number(
                version as u64,
            ),
            Corruption::UnexpectedEnd { need, have } => text("unexpected end: need ") + number(need)
                + text(", have ") + number(have),
            _ => self.text(),
        }
    }

    /// What is wrong with a manifest, as a message.
    pub fn manifest_message(self) -> (m: Vec<u8>)
        ensures
            m@ == self.manifest_text(),
    {
        let mut m: Vec<u8> = Vec::new();
        match self {
            Corruption::TooShortForCrc { .. } => {
                say(&mut m, "shorter than a crc");
            },
            Corruption::CrcMismatch { stored, computed, .. } => {
                say(&mut m, "crc mismatch: stored ");
                say_checksum(&mut m, stored);
                say(&mut m, ", computed ");
                say_checksum(&mut m, computed);
            },
            Corruption::BadMagic => {
                say(&mut m, "magic mismatch");
            },
            Corruption::BadVersion { version } => {
                say(&mut m, "unsupported format ");
                say_number(&mut m, version as u64);
            },
            Corruption::UnexpectedEnd { need, have } => {
                say(&mut m, "unexpected end: need ");
                say_number(&mut m, need);
                say(&mut m, ", have ");
                say_number(&mut m, have);
            },
            _ => {
                return self.message();
            },
        }
        assert(m@ =~= self.manifest_text());
        m
    }

    /// What is wrong, as a message.
    pub fn message(self) -> (m: Vec<u8>)
        ensures
            m@ == self.text(),
    {
        let mut m: Vec<u8> = Vec::new();
        match self {
            Corruption::FileTooShort { len } => {
                say(&mut m, "file length ");
                say_number(&mut m, len);
                say(&mut m, " is smaller than a footer (");
                say_number(&mut m, table::FOOTER_SIZE as u64);
                say(&mut m, " bytes)");
            },
            Corruption::ShortRead { offset, wanted, got } => {
                say(&mut m, "short read at offset ");
                say_number(&mut m, offset);
                say(&mut m, ": wanted ");
                say_number(&mut m, wanted);
                say(&mut m, " bytes, got ");
                say_number(&mut m, got);
            },
            Corruption::TooShortForCrc { part } => {
                part.say_name(&mut m);
                say(&mut m, " too short for a crc");
            },
            Corruption::CrcMismatch { part, stored, computed } => {
                part.say_name(&mut m);
                say(&mut m, " crc mismatch: stored ");
                say_checksum(&mut m, stored);
                say(&mut m, ", computed ");
                say_checksum(&mut m, computed);
            },
            Corruption::BadMagic => {
                say(&mut m, "footer magic mismatch");
            },
            Corruption::BadVersion { version } => {
                say(&mut m, "unsupported format version ");
                say_number(&mut m, version as u64);
            },
            Corruption::RegionOutOfBounds { part, offset, len, limit } => {
                part.say_name(&mut m);
                say(&mut m, " region [");
                say_number(&mut m, offset);
                say(&mut m, ", +");
                say_number(&mut m, len as u64);
                say(&mut m, ") runs past data limit ");
                say_number(&mut m, limit);
            },
            Corruption::UnexpectedEnd { need, have } => {
                say(&mut m, "unexpected end of buffer: need ");
                say_number(&mut m, need);
                say(&mut m, " bytes, have ");
                say_number(&mut m, have);
            },
            Corruption::UnknownTag { tag } => {
                say(&mut m, "unknown value tag ");
                say_number(&mut m, tag as u64);
                say(&mut m, " in data block");
            },
            Corruption::BloomBits { num_bits } => {
                say(&mut m, "bloom num_bits ");
                say_number(&mut m, num_bits as u64);
                say(&mut m, " is not a positive multiple of 8");
            },
            Corruption::BloomHashes => {
                say(&mut m, "bloom num_hashes is zero");
            },
            Corruption::BloomLength { len, num_bits } => {
                say(&mut m, "bloom bit-array length ");
                say_number(&mut m, len);
                say(&mut m, " disagrees with num_bits ");
                say_number(&mut m, num_bits as u64);
            },
            Corruption::RecordTruncated => {
                say(&mut m, "wal record: truncated");
            },
            Corruption::RecordTag { tag } => {
                say(&mut m, "wal record: unknown tag ");
                say_number(&mut m, tag as u64);
            },
        }
        assert(m@ =~= self.text());
        m
    }
}

/// A text in front of a message.
fn prefixed(s: &str, message: Vec<u8>) -> (m: Vec<u8>)
    ensures
        m@ == text(s) + message@,
{
    let mut m: Vec<u8> = Vec::new();
    say(&mut m, s);
    codec::put_bytes(&mut m, &message);
    assert(m@ =~= text(s) + message@);
    m
}

/// A text alone.
fn plain(s: &str) -> (m: Vec<u8>)
    ensures
        m@ == text(s),
{
    let mut m: Vec<u8> = Vec::new();
    say(&mut m, s);
    assert(m@ =~= text(s));
    m
}

impl SsTableError {
    /// What the error says.
    pub open spec fn text(&self) -> Seq<u8> {
        match self {
            SsTableError::Storage(e) => text("storage error: ") + e.text(),
            SsTableError::Corrupt(c) => text("corrupt sstable: ") + c.text(),
            SsTableError::Unsorted => text("sstable builder requires strictly increasing keys"),
            SsTableError::TooLarge => text("sstable is larger than the format can describe"),
        }
    }

    /// The error as a message.
    pub fn message(&self) -> (m: Vec<u8>)
        ensures
            m@ == self.text(),
    {
        match self {
            SsTableError::Storage(e) => prefixed("storage error: ", e.message()),
            SsTableError::Corrupt(c) => prefixed("corrupt sstable: ", c.message()),
            SsTableError::Unsorted => plain("sstable builder requires strictly increasing keys"),
            SsTableError::TooLarge => plain("sstable is larger than the format can describe"),
        }
    }
}

impl ManifestError {
    /// What the error says.
    pub open spec fn text(&self) -> Seq<u8> {
        match self {
            ManifestError::Storage(e) => text("storage error: ") + e.text(),
            ManifestError::Corrupt(c) => text("corrupt manifest: ") + c.manifest_text(),
            ManifestError::TooLarge => text("manifest is larger than the format can describe"),
        }
    }

    /// The error as a message.
    pub fn message(&self) -> (m: Vec<u8>)
        ensures
            m@ == self.text(),
    {
        match self {
            ManifestError::Storage(e) => prefixed("storage error: ", e.message()),
            ManifestError::Corrupt(c) => prefixed("corrupt manifest: ", c.manifest_message()),
            ManifestError::TooLarge => plain("manifest is larger than the format can describe"),
        }
    }
}

impl CompactionError {
    /// What the error says.
    pub open spec fn text(&self) -> Seq<u8> {
        match self {
            CompactionError::Storage(e) => text("storage error: ") + e.text(),
            CompactionError::SsTable(e) => text("sstable error: ") + e.text(),
            CompactionError::Manifest(e) => text("manifest error: ") + e.text(),
        }
    }

    /// The error as a message.
    pub fn message(&self) -> (m: Vec<u8>)
        ensures
            m@ == self.text(),
    {
        match self {
            CompactionError::Storage(e) => prefixed("storage error: ", e.message()),
            CompactionError::SsTable(e) => prefixed("sstable error: ", e.message()),
            CompactionError::Manifest(e) => prefixed("manifest error: ", e.message()),
        }
    }
}

impl DbError {
    /// What the error says.
    pub open spec fn text(&self) -> Seq<u8> {
        match self {
            DbError::Storage(e) => text("storage error: ") + e.text(),
            DbError::SsTable(e) => text("sstable error: ") + e.text(),
            DbError::Manifest(e) => text("manifest error: ") + e.text(),
            DbError::Compaction(e) => text("compaction error: ") + e.text(),
        }
    }

    /// The error as a message.
    pub fn message(&self) -> (m: Vec<u8>)
        ensures
            m@ == self.text(),
    {
        match self {
            DbError::Storage(e) => prefixed("storage error: ", e.message()),
            DbError::SsTable(e) => prefixed("sstable error: ", e.message()),
            DbError::Manifest(e) => prefixed("manifest error: ", e.message()),
            DbError::Compaction(e) => prefixed("compaction error: ", e.message()),
        }
    }
}

impl BenchError {
    /// What the error says.
    pub open spec fn text(&self) -> Seq<u8> {
        match self {
            BenchError::Open(e) => text("accretion open: ") + e.text(),
            BenchError::Put(e) => text("put: ") + e.text(),
            BenchError::Get(e) => text("get: ") + e.text(),
            BenchError::ScanRange(e) => text("scan: ") + e.text(),
            BenchError::Flush(e) => text("flush: ") + e.text(),
            BenchError::Mismatch => text("point-read: value mismatch"),
            BenchError::Missing => text("point-read: missing key that was filled"),
            BenchError::Refused => text("the request is beyond what the engine takes"),
            BenchError::Other(s) => utf8::encode_utf8(s@),
        }
    }

    /// The error as a message.
    pub fn message(&self) -> (m: Vec<u8>)
        ensures
            m@ == self.text(),
    {
        match self {
            BenchError::Open(e) => prefixed("accretion open: ", e.message()),
            BenchError::Put(e) => prefixed("put: ", e.message()),
            BenchError::Get(e) => prefixed("get: ", e.message()),
            BenchError::ScanRange(e) => prefixed("scan: ", e.message()),
            BenchError::Flush(e) => prefixed("flush: ", e.message()),
            BenchError::Mismatch => plain("point-read: value mismatch"),
            BenchError::Missing => plain("point-read: missing key that was filled"),
            BenchError::Refused => plain("the request is beyond what the engine takes"),
            BenchError::Other(s) => plain(s.as_str()),
        }
    }
}

/// The number that hexadecimal digits write, those above nine being small letters.
pub open spec fn hex_read(s: Seq<u8>) -> int
    decreases s.len(),
{
    if s.len() == 0 {
        0
    } else {
        16 * hex_read(s.drop_last()) + if s.last() <= 57 {
            s.last() - 48
        } else {
            s.last() - 87
        }
    }
}

/// How checksums are written: `0x` and eight hexadecimal digits that read as the checksum; and
/// numbers in decimal digits, with no zero in front of another digit.
pub proof fn lemma_numbers_written(x: u32, n: u64)
    ensures
        hex_digits(x as nat, 8).len() == 8,
        hex_read(hex_digits(x as nat, 8)) == x,
        names::all_digits(number(n)),
        names::decimal(number(n)) == n,
        number(n).len() > 1 ==> number(n)[0] != 48,
{
    names::lemma_padded(n, 1);
    lemma_hex(x as nat, 8);
    assert(power(8) == 0x1_0000_0000) by {
        reveal_with_fuel(power, 9);
    }
}

/// How many numbers `width` hexadecimal digits can write.
spec fn power(width: nat) -> nat
    decreases width,
{
    if width == 0 {
        1
    } else {
        16 * power((width - 1) as nat)
    }
}

proof fn lemma_hex(n: nat, width: nat)
    ensures
        hex_digits(n, width).len() == width,
        n < power(width) ==> hex_read(hex_digits(n, width)) == n,
    decreases width,
{
    if width > 0 {
        let less = (width - 1) as nat;
        lemma_hex(n / 16, less);
        assert(hex_digits(n, width).drop_last() =~= hex_digits(n / 16, less));
        let rest = power(less);
        if n < power(width) {
            assert(n / 16 < rest) by (nonlinear_arith)
                requires
                    n < 16 * rest,
            ;
        }
    }
}

} // verus!
