//! Crash consistency of the log.

use accretion_db::storage::SimFs;
use accretion_db::testkit::{count_ops, crash_sweep, run_crash, CrashInjector};
use accretion_db::wal::{Durability, Recovered, Wal, WalOptions};
use accretion_db::Storage;

const DIR: &[u8] = b"/wal";

fn payloads(n: usize) -> Vec<Vec<u8>> {
    (0..n).map(|i| format!("r{i:03}").into_bytes()).collect()
}

fn try_open<S: Storage>(fs: &mut S, mode: Durability) -> Option<(Wal, Recovered)> {
    Wal::open(
        fs,
        DIR,
        WalOptions {
            durability: mode,
            segment_size: 128,
        },
    )
    .ok()
}

fn open<S: Storage>(fs: &mut S, mode: Durability) -> (Wal, Recovered) {
    try_open(fs, mode).expect("open wal")
}

/// Appends `records` to a new log until power is lost.
fn append_all(mut fs: CrashInjector, mode: Durability, records: &[Vec<u8>]) -> CrashInjector {
    let (mut wal, rec) = match try_open(&mut fs, mode) {
        Some(both) => both,
        None => return fs,
    };
    assert!(rec.records.is_empty());
    for r in records {
        if wal.append(&mut fs, r).is_err() {
            return fs;
        }
    }
    fs
}

fn assert_prefix(recovered: &[Vec<u8>], expected: &[Vec<u8>]) {
    assert!(
        recovered.len() <= expected.len(),
        "recovered {} records but only {} were ever written (phantom records)",
        recovered.len(),
        expected.len()
    );
    for (i, (got, want)) in recovered.iter().zip(expected).enumerate() {
        assert_eq!(got, want, "record {i} differs: recovered vs written");
    }
}

fn sweep_durable(mode: Durability, seed: u64) -> u64 {
    let expected = payloads(12);
    let body_records = expected.clone();
    crash_sweep(
        seed,
        move |fs| append_all(fs, mode, &body_records),
        move |mut fs: SimFs, _report| {
            let (_wal, rec) = open(&mut fs, mode);
            assert_prefix(&rec.records, &expected);
        },
    )
}

#[test]
fn crash_sweep_always_is_prefix_consistent() {
    let n = sweep_durable(Durability::Always, 42);
    assert!(n > 0, "sweep must exercise at least one crash point");
}

#[test]
fn crash_sweep_group_commit_is_prefix_consistent() {
    let n = sweep_durable(Durability::GroupCommit, 7);
    assert!(n > 0);
}

#[test]
fn acked_records_survive_crash_always() {
    let recs = payloads(6);
    let n = count_ops(3, {
        let recs = recs.clone();
        move |fs| append_all(fs, Durability::Always, &recs)
    });

    let body_recs = recs.clone();
    let verify_recs = recs.clone();
    run_crash(
        3,
        n,
        move |fs| append_all(fs, Durability::Always, &body_recs),
        move |mut fs: SimFs, _report| {
            let (_wal, rec) = open(&mut fs, Durability::Always);
            assert_eq!(
                rec.records, verify_recs,
                "every acked record must survive a post-sync crash"
            );
        },
    );
}

#[test]
fn crash_mid_append_never_half_applies() {
    let expected = payloads(3);
    let body_recs = expected.clone();
    let n = crash_sweep(
        99,
        move |fs| append_all(fs, Durability::Always, &body_recs),
        move |mut fs: SimFs, _report| {
            let (_wal, rec) = open(&mut fs, Durability::Always);
            assert_prefix(&rec.records, &expected);
        },
    );
    assert!(n >= 3);
}

#[test]
fn reopen_after_crash_then_append_recovers_clean() {
    run_crash(
        13,
        4,
        |fs| append_all(fs, Durability::Always, &payloads(5)),
        |mut fs: SimFs, _report| {
            let (mut wal, rec1) = open(&mut fs, Durability::Always);
            let survived = rec1.records.len();
            wal.append(&mut fs, b"post-a").expect("append");
            wal.append(&mut fs, b"post-b").expect("append");
            drop(wal);
            let (_wal2, rec2) = open(&mut fs, Durability::Always);
            assert_eq!(rec2.records.len(), survived + 2);
            assert_eq!(rec2.records[survived], b"post-a");
            assert_eq!(rec2.records[survived + 1], b"post-b");
        },
    );
}

#[test]
fn workload_issues_storage_ops() {
    let n = count_ops(1, |mut fs: CrashInjector| {
        let (mut wal, _) = open(&mut fs, Durability::Always);
        wal.append(&mut fs, b"x").expect("append");
        fs
    });
    assert!(n >= 2, "expected setup + append ops, got {n}");
}

/// Every acknowledged record survives, at every crash point and for many seeds.
#[test]
fn acknowledged_records_survive_at_every_crash_point() {
    for mode in [Durability::Always, Durability::GroupCommit] {
        for seed in [1u64, 7, 42, 1234] {
            let recs = payloads(10);
            let n = count_ops(seed, |fs| append_all(fs, mode, &recs));
            for i in 1..=n {
                let acked = std::cell::Cell::new(0usize);
                run_crash(
                    seed,
                    i,
                    |mut fs: CrashInjector| {
                        let (mut wal, _) = match try_open(&mut fs, mode) {
                            Some(both) => both,
                            None => return fs,
                        };
                        for r in &recs {
                            if wal.append(&mut fs, r).is_err() {
                                return fs;
                            }
                            acked.set(acked.get() + 1);
                        }
                        fs
                    },
                    |mut fs: SimFs, _report| {
                        let (_wal, rec) = open(&mut fs, mode);
                        assert!(rec.records.len() >= acked.get());
                        assert_prefix(&rec.records, &recs);
                    },
                );
            }
        }
    }
}
