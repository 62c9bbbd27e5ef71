//! The crash harness, on a toy append-only store.

use std::collections::BTreeMap;

use accretion_db::storage::{FilePath, SimFs, StorageResult};
use accretion_db::testkit::{count_ops, crash_sweep, run_crash, CrashInjector};
use accretion_db::{Storage, StorageError};

const LEN_SZ: usize = 4;
const CRC_SZ: usize = 4;
const DIR: &[u8] = b"/db";

fn encode_frame(key: &[u8], value: &[u8]) -> Vec<u8> {
    let mut payload = Vec::with_capacity(LEN_SZ + key.len() + value.len());
    payload.extend_from_slice(&(key.len() as u32).to_le_bytes());
    payload.extend_from_slice(key);
    payload.extend_from_slice(value);

    let crc = crc32fast::hash(&payload);
    let mut frame = Vec::with_capacity(LEN_SZ + CRC_SZ + payload.len());
    frame.extend_from_slice(&(payload.len() as u32).to_le_bytes());
    frame.extend_from_slice(&crc.to_le_bytes());
    frame.extend_from_slice(&payload);
    frame
}

/// A toy key-value store whose `put` is durable when it returns.
struct ToyStore<S: Storage> {
    fs: S,
    log: FilePath,
}

impl<S: Storage> ToyStore<S> {
    fn open(mut fs: S) -> Result<(Self, BTreeMap<Vec<u8>, Vec<u8>>), S> {
        let log = FilePath::new(DIR, b"toy.log");
        if fs.open(&log).is_err()
            && (fs.create(&log).is_err() || fs.sync_file(&log).is_err() || fs.sync_dir(DIR).is_err())
        {
            return Err(fs);
        }
        let recovered = Self::recover(&fs, &log);
        Ok((ToyStore { fs, log }, recovered))
    }

    fn recover(fs: &S, log: &FilePath) -> BTreeMap<Vec<u8>, Vec<u8>> {
        let mut map = BTreeMap::new();
        let len = fs.len(log).unwrap_or(0);
        let mut off: u64 = 0;
        loop {
            let header_len = (LEN_SZ + CRC_SZ) as u64;
            if off + header_len > len {
                break;
            }
            let header = fs.read_at(log, off, LEN_SZ + CRC_SZ).expect("read header");
            if header.len() < LEN_SZ + CRC_SZ {
                break;
            }
            let payload_len = u32::from_le_bytes(header[..LEN_SZ].try_into().unwrap()) as usize;
            let want_crc = u32::from_le_bytes(header[LEN_SZ..].try_into().unwrap());
            let payload_off = off + header_len;
            if payload_off + payload_len as u64 > len {
                break;
            }
            let payload = fs
                .read_at(log, payload_off, payload_len)
                .expect("read payload");
            if payload.len() < payload_len || crc32fast::hash(&payload) != want_crc {
                break;
            }
            if payload.len() < LEN_SZ {
                break;
            }
            let klen = u32::from_le_bytes(payload[..LEN_SZ].try_into().unwrap()) as usize;
            if LEN_SZ + klen > payload.len() {
                break;
            }
            let key = payload[LEN_SZ..LEN_SZ + klen].to_vec();
            let value = payload[LEN_SZ + klen..].to_vec();
            map.insert(key, value);
            off = payload_off + payload_len as u64;
        }
        map
    }

    fn put(&mut self, key: &[u8], value: &[u8]) -> StorageResult<()> {
        let frame = encode_frame(key, value);
        self.fs.append(&self.log, &frame)?;
        self.fs.sync_file(&self.log)
    }
}

/// Puts the pairs into a new toy store until power is lost.
fn put_all(fs: CrashInjector, pairs: &[(&[u8], &[u8])]) -> CrashInjector {
    let (mut store, recovered) = match ToyStore::open(fs) {
        Ok(both) => both,
        Err(fs) => return fs,
    };
    assert!(recovered.is_empty());
    for (k, v) in pairs {
        if store.put(k, v).is_err() {
            break;
        }
    }
    store.fs
}

fn recovered(fs: SimFs) -> BTreeMap<Vec<u8>, Vec<u8>> {
    match ToyStore::open(fs) {
        Ok((_, map)) => map,
        Err(_) => panic!("reopen after crash"),
    }
}

#[test]
fn count_ops_matches_workload() {
    let n = count_ops(1, |fs| put_all(fs, &[(b"a", b"1"), (b"b", b"2")]));
    assert_eq!(n, 7);
}

#[test]
fn crash_sweep_is_prefix_consistent() {
    let keys: &[(&[u8], &[u8])] = &[
        (b"alpha", b"one"),
        (b"bravo", b"two"),
        (b"charlie", b"three"),
        (b"delta", b"four"),
    ];

    let n = crash_sweep(
        42,
        |fs| put_all(fs, keys),
        |fs: SimFs, _report| {
            let recovered = recovered(fs);
            let mut expected = recovered.len();
            for (k, v) in keys.iter().take(recovered.len()) {
                assert_eq!(
                    recovered.get(*k).map(Vec::as_slice),
                    Some(*v),
                    "recovered key {:?} has wrong or missing value",
                    k
                );
                expected -= 1;
            }
            assert_eq!(expected, 0, "recovered set was not a clean prefix");
        },
    );
    assert_eq!(n, 11);
}

#[test]
fn acked_put_survives_crash() {
    run_crash(
        7,
        5,
        |fs| put_all(fs, &[(b"survivor", b"payload")]),
        |fs: SimFs, _report| {
            assert_eq!(
                recovered(fs).get(b"survivor".as_slice()).map(Vec::as_slice),
                Some(b"payload".as_slice()),
                "an acked put must survive a post-sync crash"
            );
        },
    );
}

#[test]
fn unacked_put_never_half_applies() {
    run_crash(
        11,
        4,
        |fs| put_all(fs, &[(b"maybe", b"lost")]),
        |fs: SimFs, _report| {
            let recovered = recovered(fs);
            match recovered.get(b"maybe".as_slice()) {
                None => {}
                Some(v) => assert_eq!(v.as_slice(), b"lost"),
            }
            assert!(recovered.len() <= 1);
        },
    );
}

#[test]
fn injector_halts_after_the_crash() {
    let p = FilePath::new(DIR, b"x");
    let report = run_crash(
        5,
        2,
        |mut fs: CrashInjector| {
            fs.create(&p).expect("first");
            fs.sync_dir(DIR).expect("the crash comes with this one");
            assert!(matches!(fs.append(&p, b"y"), Err(StorageError::Io { .. })));
            assert!(matches!(fs.sync_dir(DIR), Err(StorageError::Io { .. })));
            fs
        },
        |fs: SimFs, report| {
            assert_eq!(report.ops_before_crash, 2);
            assert_eq!(fs.op_count(), 2);
            fs.open(&p).expect("the name was durable");
        },
    );
    assert_eq!(report.ops_before_crash, 2);
}

#[test]
fn short_workload_crashes_at_its_end() {
    let p = FilePath::new(DIR, b"x");
    let report = run_crash(
        5,
        100,
        |mut fs: CrashInjector| {
            fs.create(&p).expect("create");
            fs
        },
        |fs: SimFs, _report| assert!(fs.open(&p).is_err()),
    );
    assert_eq!(report.ops_before_crash, 1);
}

#[test]
fn each_crash_reports_the_operations_before_it() {
    let pairs: [(&[u8], &[u8]); 2] = [(b"a", b"1"), (b"b", b"2")];
    for i in 1..=7u64 {
        let report = run_crash(1, i, |fs| put_all(fs, &pairs), |_fs: SimFs, _report| {});
        assert_eq!(report.ops_before_crash, i);
    }
    let report = run_crash(1, 8, |fs| put_all(fs, &pairs), |_fs: SimFs, _report| {});
    assert_eq!(report.ops_before_crash, 7);
}
