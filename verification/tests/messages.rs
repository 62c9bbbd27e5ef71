//! What the errors say.

use accretion_db::bench::kv::BenchError;
use accretion_db::compaction::CompactionError;
use accretion_db::db::DbError;
use accretion_db::manifest::ManifestError;
use accretion_db::sstable::{Corruption, Part, SsTableError};
use accretion_db::storage::{FilePath, StorageError};

fn path() -> FilePath {
    FilePath::new(b"/db", b"wal.log")
}

#[test]
fn storage_errors_name_the_path() {
    assert_eq!(
        StorageError::NotFound(path()).message(),
        b"not found: /db/wal.log"
    );
    assert_eq!(
        StorageError::AlreadyExists(path()).message(),
        b"already exists: /db/wal.log"
    );
    assert_eq!(
        StorageError::NotADirectory(FilePath::new(b"/db", b"")).message(),
        b"not a directory: /db"
    );
    assert_eq!(
        StorageError::OutOfBounds {
            path: path(),
            offset: 12,
            len: 0
        }
        .message(),
        b"out of bounds on /db/wal.log: offset 12 exceeds len 0"
    );
    assert_eq!(
        StorageError::Io {
            path: path(),
            message: "power lost".to_string()
        }
        .message(),
        b"io error on /db/wal.log: power lost"
    );
}

#[test]
fn corruption_says_what_is_wrong() {
    let crc = Corruption::CrcMismatch {
        part: Part::Index,
        stored: 0xab,
        computed: 0xdead_beef,
    };
    assert_eq!(
        crc.message(),
        b"index crc mismatch: stored 0x000000ab, computed 0xdeadbeef"
    );
    assert_eq!(
        crc.manifest_message(),
        b"crc mismatch: stored 0x000000ab, computed 0xdeadbeef"
    );
    assert_eq!(
        Corruption::ShortRead {
            offset: 7,
            wanted: 40,
            got: 3
        }
        .message(),
        b"short read at offset 7: wanted 40 bytes, got 3"
    );
    assert_eq!(
        Corruption::RegionOutOfBounds {
            part: Part::DataBlock,
            offset: 9,
            len: 5,
            limit: 10
        }
        .message(),
        b"data block region [9, +5) runs past data limit 10"
    );
    assert_eq!(Corruption::BadMagic.message(), b"footer magic mismatch");
    assert_eq!(Corruption::BadMagic.manifest_message(), b"magic mismatch");
    assert_eq!(
        Corruption::UnknownTag { tag: 200 }.message(),
        b"unknown value tag 200 in data block"
    );
    assert_eq!(
        Corruption::RecordTag { tag: 9 }.message(),
        b"wal record: unknown tag 9"
    );
    assert_eq!(
        Corruption::RecordTruncated.message(),
        b"wal record: truncated"
    );
    let end = Corruption::UnexpectedEnd { need: 8, have: 0 };
    assert_eq!(
        end.message(),
        b"unexpected end of buffer: need 8 bytes, have 0"
    );
    assert_eq!(end.manifest_message(), b"unexpected end: need 8, have 0");
    assert_eq!(
        Corruption::FileTooShort { len: 0 }.message()[..29],
        b"file length 0 is smaller than"[..]
    );
    assert_eq!(
        Corruption::TooShortForCrc { part: Part::Bloom }.message(),
        b"bloom too short for a crc"
    );
    assert_eq!(
        Corruption::BadVersion { version: 3 }.message(),
        b"unsupported format version 3"
    );
    assert_eq!(
        Corruption::BloomBits { num_bits: 7 }.message(),
        b"bloom num_bits 7 is not a positive multiple of 8"
    );
    assert_eq!(Corruption::BloomHashes.message(), b"bloom num_hashes is zero");
    assert_eq!(
        Corruption::BloomLength {
            len: 2,
            num_bits: 8
        }
        .message(),
        b"bloom bit-array length 2 disagrees with num_bits 8"
    );
}

#[test]
fn wrapped_errors_say_where_they_come_from() {
    let table = SsTableError::Corrupt(Corruption::BadMagic);
    assert_eq!(
        table.message(),
        b"corrupt sstable: footer magic mismatch"
    );
    assert_eq!(
        SsTableError::Unsorted.message(),
        b"sstable builder requires strictly increasing keys"
    );
    let manifest = ManifestError::Corrupt(Corruption::BadVersion { version: 9 });
    assert_eq!(
        manifest.message(),
        b"corrupt manifest: unsupported format 9"
    );
    let compaction = CompactionError::Manifest(manifest);
    assert_eq!(
        compaction.message(),
        b"manifest error: corrupt manifest: unsupported format 9"
    );
    assert_eq!(
        DbError::Compaction(compaction).message(),
        b"compaction error: manifest error: corrupt manifest: unsupported format 9"
    );
    assert_eq!(
        DbError::SsTable(table).message(),
        b"sstable error: corrupt sstable: footer magic mismatch"
    );
    assert_eq!(
        DbError::Storage(StorageError::NotFound(path())).message(),
        b"storage error: not found: /db/wal.log"
    );
    assert_eq!(
        BenchError::Get(DbError::Storage(StorageError::NotFound(path()))).message(),
        b"get: storage error: not found: /db/wal.log"
    );
    assert_eq!(
        BenchError::Mismatch.message(),
        b"point-read: value mismatch"
    );
    assert_eq!(BenchError::Other("sled open".to_string()).message(), b"sled open");
}
