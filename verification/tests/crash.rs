//! Crash consistency of the engine: no acknowledged write is lost at any crash point.

use std::cell::Cell;
use std::collections::{BTreeMap, BTreeSet};

use accretion_db::db::{Db, Options};
use accretion_db::range::KeyRange;
use accretion_db::storage::{SimFs, Storage};
use accretion_db::testkit::{count_ops, run_crash, CrashInjector};
use accretion_db::Durability;

const DIR: &[u8] = b"/db";

#[derive(Debug, Clone)]
enum Op {
    Put(Vec<u8>, Vec<u8>),
    Delete(Vec<u8>),
}

fn opts(durability: Durability) -> Options {
    Options {
        durability,
        memtable_size: 128,
        tier_fanout: 4,
    }
}

type Model = BTreeMap<Vec<u8>, Vec<u8>>;

fn model_fold(ops: &[Op]) -> Model {
    let mut m = BTreeMap::new();
    for op in ops {
        match op {
            Op::Put(k, v) => {
                m.insert(k.clone(), v.clone());
            }
            Op::Delete(k) => {
                m.remove(k);
            }
        }
    }
    m
}

fn op_key(op: &Op) -> &[u8] {
    match op {
        Op::Put(k, _) | Op::Delete(k) => k,
    }
}

fn key_universe(ops: &[Op]) -> Vec<Vec<u8>> {
    let mut ks: Vec<Vec<u8>> = ops.iter().map(|o| op_key(o).to_vec()).collect();
    ks.sort();
    ks.dedup();
    ks
}

/// Runs `ops` until power is lost, counting those that were acknowledged.
fn run_workload<S: Storage>(fs: S, mode: Durability, ops: &[Op], acked: &Cell<usize>) -> S {
    let mut db = match Db::open_on(fs, DIR, opts(mode)) {
        Ok(db) => db,
        Err((_, fs)) => return fs,
    };
    for op in ops {
        let done = match op {
            Op::Put(k, v) => db.put(k, v),
            Op::Delete(k) => db.delete(k),
        };
        if done.is_err() {
            break;
        }
        acked.set(acked.get() + 1);
    }
    db.into_storage()
}

fn verify(fs: SimFs, mode: Durability, ops: &[Op], acked: usize) {
    let mut db = match Db::open_on(fs, DIR, opts(mode)) {
        Ok(db) => db,
        Err((e, _)) => panic!("reopen after crash: {e:?}"),
    };

    let acked_model = model_fold(&ops[..acked]);
    let maybe_model = if acked < ops.len() {
        Some((op_key(&ops[acked]).to_vec(), model_fold(&ops[..=acked])))
    } else {
        None
    };

    let universe = key_universe(ops);
    for k in &universe {
        let got = db.get(k).expect("get");
        let acked_val = acked_model.get(k).cloned();
        let allowed_maybe = match &maybe_model {
            Some((ik, mm)) if ik == k => Some(mm.get(k).cloned()),
            _ => None,
        };
        let touched = allowed_maybe.is_some();
        let ok = got == acked_val || allowed_maybe.is_some_and(|m| got == m);
        assert!(
            ok,
            "key {k:?} mode={mode:?} acked={acked}: got {got:?}, \
             acked-model says {acked_val:?} (in-flight touches this key: {touched})"
        );
    }

    let scanned = db.scan(&KeyRange::full()).expect("scan").collect();
    assert!(
        scanned.windows(2).all(|w| w[0].0 < w[1].0),
        "scan not strictly ascending mode={mode:?}"
    );
    for (k, v) in &scanned {
        assert!(
            universe.contains(k),
            "phantom key {k:?} in scan mode={mode:?}"
        );
        assert_eq!(
            db.get(k).expect("get"),
            Some(v.clone()),
            "scan/get disagree on {k:?} mode={mode:?}"
        );
    }
    let scan_keys: BTreeSet<&Vec<u8>> = scanned.iter().map(|(k, _)| k).collect();
    for k in &universe {
        let live_by_get = db.get(k).expect("get").is_some();
        assert_eq!(
            live_by_get,
            scan_keys.contains(k),
            "scan vs get liveness disagree on {k:?} mode={mode:?}"
        );
    }
}

fn canonical_ops() -> Vec<Op> {
    let mut ops = Vec::new();
    for i in 0..12u32 {
        ops.push(Op::Put(
            format!("key{i:02}").into_bytes(),
            format!("val-round0-{i:02}").into_bytes(),
        ));
    }
    for i in 0..12u32 {
        if i % 3 == 0 {
            ops.push(Op::Delete(format!("key{i:02}").into_bytes()));
        } else {
            ops.push(Op::Put(
                format!("key{i:02}").into_bytes(),
                format!("val-round1-{i:02}").into_bytes(),
            ));
        }
    }
    for i in 0..12u32 {
        if i % 3 == 0 {
            ops.push(Op::Put(
                format!("key{i:02}").into_bytes(),
                format!("val-round2-{i:02}").into_bytes(),
            ));
        }
        ops.push(Op::Put(
            format!("new{i:02}").into_bytes(),
            format!("fresh-{i:02}").into_bytes(),
        ));
    }
    ops
}

const SEEDS: [u64; 4] = [1, 7, 42, 1234];

fn count_workload_ops(mode: Durability, ops: &[Op]) -> u64 {
    count_ops(0, |fs| run_workload(fs, mode, ops, &Cell::new(0)))
}

/// Crashes `ops` after every storage operation, for every seed, and verifies.
fn sweep(mode: Durability, ops: &[Op]) -> u64 {
    let n = count_workload_ops(mode, ops);
    assert!(n > 0, "workload issued no storage ops");
    for i in 1..=n {
        for &seed in &SEEDS {
            let acked = Cell::new(0usize);
            run_crash(
                seed,
                i,
                |fs: CrashInjector| run_workload(fs, mode, ops, &acked),
                |fs: SimFs, _report| verify(fs, mode, ops, acked.get()),
            );
        }
    }
    n
}

#[test]
fn always_zero_acked_loss_at_every_crash_point() {
    sweep(Durability::Always, &canonical_ops());
}

#[test]
fn group_commit_zero_acked_loss_at_every_crash_point() {
    sweep(Durability::GroupCommit, &canonical_ops());
}

#[test]
fn workload_forces_flushes_and_compaction() {
    let mut db = match Db::open_on(SimFs::with_seed(0), DIR, opts(Durability::Always)) {
        Ok(db) => db,
        Err((e, _)) => panic!("open: {e:?}"),
    };
    for op in &canonical_ops() {
        match op {
            Op::Put(k, v) => db.put(k, v).unwrap(),
            Op::Delete(k) => db.delete(k).unwrap(),
        }
    }
    db.flush().unwrap();
    let v = db.debug_version();
    assert!(
        v.num_tiers() >= 2,
        "expected a compaction to build ≥2 tiers, got {} tier(s)",
        v.num_tiers()
    );
}

#[test]
fn reports_crash_point_count() {
    let n = count_workload_ops(Durability::Always, &canonical_ops());
    let total = n * SEEDS.len() as u64 * 2;
    println!(
        "CRASH-SWEEP: N={n} distinct crash points; {} seeds (drop/torn/bit-flip); \
         2 durable modes; {total} total crash executions",
        SEEDS.len()
    );
}

fn put(k: &str, v: &str) -> Op {
    Op::Put(k.as_bytes().to_vec(), v.as_bytes().to_vec())
}

fn del(k: &str) -> Op {
    Op::Delete(k.as_bytes().to_vec())
}

fn all_durable_modes() -> [Durability; 2] {
    [Durability::Always, Durability::GroupCommit]
}

#[test]
fn resurrection_across_flush() {
    let mut ops = vec![put("k", "first-value-padding")];
    for i in 0..8 {
        ops.push(put(&format!("f{i}"), "filler-value-padding"));
    }
    ops.push(del("k"));
    for i in 0..8 {
        ops.push(put(&format!("g{i}"), "filler-value-padding"));
    }
    ops.push(put("k", "final-value-padding"));
    for mode in all_durable_modes() {
        sweep(mode, &ops);
    }
}

#[test]
fn tombstone_shadow_through_compaction() {
    let mut ops = Vec::new();
    for round in 0..6 {
        for i in 0..4 {
            ops.push(put(&format!("k{i}"), &format!("r{round}-value-pad")));
        }
    }
    ops.push(del("k0"));
    for i in 0..4 {
        ops.push(put(&format!("x{i}"), "tail-value-padding"));
    }
    for mode in all_durable_modes() {
        sweep(mode, &ops);
    }
}

#[test]
fn delete_heavy_schedule() {
    let mut ops = Vec::new();
    for i in 0..10 {
        ops.push(put(&format!("d{i:02}"), "value-with-padding-x"));
    }
    for i in 0..10 {
        if i % 2 == 0 {
            ops.push(del(&format!("d{i:02}")));
        }
    }
    for mode in all_durable_modes() {
        sweep(mode, &ops);
    }
}

/// Recovery that is itself cut off by a power loss may be repeated.
#[test]
fn interrupted_recovery_loses_nothing() {
    let ops = canonical_ops();
    let mode = Durability::Always;
    let n = count_workload_ops(mode, &ops);
    for i in (1..=n).step_by(17) {
        for again in 1..=4u64 {
            let acked = Cell::new(0usize);
            run_crash(
                7,
                i,
                |fs: CrashInjector| run_workload(fs, mode, &ops, &acked),
                |mut fs: SimFs, _report| {
                    fs.arm_crash_after(fs.op_count() + again);
                    let mut fs = match Db::open_on(fs, DIR, opts(mode)) {
                        Ok(db) => db.into_storage(),
                        Err((_, fs)) => fs,
                    };
                    fs.crash();
                    verify(fs, mode, &ops, acked.get());
                },
            );
        }
    }
}
