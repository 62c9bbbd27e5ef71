//! The engine: writes, reads, flushes, compaction, reopening.

use std::collections::BTreeMap;

use accretion_db::bench::hist::Histogram;
use accretion_db::bench::kv::{AccretionBench, BenchError, KvBench};
use accretion_db::bench::runner;
use accretion_db::bench::workload::{self, FillOrder};
use accretion_db::db::gate::WriteState;
use accretion_db::db::record::{decode_record, encode_record};
use accretion_db::db::{Db, DbError, Options};
use accretion_db::manifest::{table_path, ManifestError};
use accretion_db::memtable::ValueKind;
use accretion_db::range::KeyRange;
use accretion_db::sstable::SsTableError;
use accretion_db::storage::{FilePath, SimFs, Storage};
use accretion_db::wal::{Wal, WalOptions};
use accretion_db::Durability;

const DIR: &[u8] = b"/db";

fn small_opts(durability: Durability) -> Options {
    Options {
        durability,
        memtable_size: 256,
        tier_fanout: 4,
    }
}

fn open_sim(fs: SimFs, opts: Options) -> Db<SimFs> {
    match Db::open_on(fs, DIR, opts) {
        Ok(db) => db,
        Err((e, _)) => panic!("open db: {e:?}"),
    }
}

fn full_scan(db: &mut Db<SimFs>) -> Vec<(Vec<u8>, Vec<u8>)> {
    db.scan(&KeyRange::full()).unwrap().collect()
}

#[test]
fn put_get_delete_roundtrip_memtable() {
    let mut db = open_sim(SimFs::with_seed(1), small_opts(Durability::Always));
    db.put(b"alpha", b"1").unwrap();
    db.put(b"beta", b"2").unwrap();
    assert_eq!(db.get(b"alpha").unwrap(), Some(b"1".to_vec()));
    assert_eq!(db.get(b"beta").unwrap(), Some(b"2".to_vec()));
    assert_eq!(db.get(b"missing").unwrap(), None);

    db.delete(b"alpha").unwrap();
    assert_eq!(db.get(b"alpha").unwrap(), None);
    db.put(b"beta", b"22").unwrap();
    assert_eq!(db.get(b"beta").unwrap(), Some(b"22".to_vec()));
}

#[test]
fn values_survive_flush_to_sstable() {
    let mut db = open_sim(SimFs::with_seed(2), small_opts(Durability::Always));
    for i in 0..50u32 {
        db.put(
            format!("key{i:04}").as_bytes(),
            format!("val{i}").as_bytes(),
        )
        .unwrap();
    }
    db.flush().unwrap();
    for i in 0..50u32 {
        assert_eq!(
            db.get(format!("key{i:04}").as_bytes()).unwrap(),
            Some(format!("val{i}").into_bytes()),
            "key{i:04} lost across flush"
        );
    }
}

#[test]
fn overwrites_across_flushes_take_newest() {
    let mut db = open_sim(SimFs::with_seed(3), small_opts(Durability::Always));
    db.put(b"k", b"v1").unwrap();
    db.flush().unwrap();
    db.put(b"k", b"v2").unwrap();
    db.flush().unwrap();
    db.put(b"k", b"v3").unwrap();
    assert_eq!(db.get(b"k").unwrap(), Some(b"v3".to_vec()));
    db.flush().unwrap();
    assert_eq!(db.get(b"k").unwrap(), Some(b"v3".to_vec()));
}

#[test]
fn delete_shadows_older_flushed_value() {
    let mut db = open_sim(SimFs::with_seed(4), small_opts(Durability::Always));
    db.put(b"k", b"live").unwrap();
    db.flush().unwrap();
    db.delete(b"k").unwrap();
    db.flush().unwrap();
    assert_eq!(
        db.get(b"k").unwrap(),
        None,
        "tombstone must shadow old value"
    );
}

#[test]
fn scan_yields_sorted_live_pairs() {
    let mut db = open_sim(SimFs::with_seed(5), small_opts(Durability::Always));
    for i in 0..30u32 {
        db.put(format!("k{i:03}").as_bytes(), format!("v{i}").as_bytes())
            .unwrap();
    }
    db.delete(b"k005").unwrap();
    db.flush().unwrap();
    db.put(b"k010", b"updated").unwrap();

    let got = full_scan(&mut db);
    assert!(got.windows(2).all(|w| w[0].0 < w[1].0), "scan not sorted");
    assert!(
        !got.iter().any(|(k, _)| k == b"k005"),
        "deleted key present"
    );
    let k010 = got.iter().find(|(k, _)| k == b"k010").unwrap();
    assert_eq!(k010.1, b"updated".to_vec());
    assert_eq!(got.len(), 29, "30 keys, one deleted");
}

#[test]
fn bounded_scan_respects_range() {
    let mut db = open_sim(SimFs::with_seed(6), small_opts(Durability::Always));
    for i in 0..20u32 {
        db.put(format!("k{i:03}").as_bytes(), b"v").unwrap();
    }
    db.flush().unwrap();
    let range = KeyRange::half_open(b"k005".to_vec(), b"k010".to_vec());
    let mut scan = db.scan(&range).unwrap();
    let mut got: Vec<Vec<u8>> = Vec::new();
    while let Some((k, _)) = scan.next() {
        got.push(k);
    }
    assert_eq!(got.first().unwrap(), b"k005");
    assert_eq!(got.last().unwrap(), b"k009");
    assert_eq!(got.len(), 5);
}

#[test]
fn reopen_recovers_flushed_and_walled_writes() {
    let mut db = open_sim(SimFs::with_seed(7), small_opts(Durability::Always));
    for i in 0..40u32 {
        db.put(format!("k{i:03}").as_bytes(), format!("v{i}").as_bytes())
            .unwrap();
    }
    db.flush().unwrap();
    db.put(b"tail", b"only-in-wal").unwrap();

    let mut db2 = open_sim(db.into_storage(), small_opts(Durability::Always));
    for i in 0..40u32 {
        assert_eq!(
            db2.get(format!("k{i:03}").as_bytes()).unwrap(),
            Some(format!("v{i}").into_bytes())
        );
    }
    assert_eq!(db2.get(b"tail").unwrap(), Some(b"only-in-wal".to_vec()));
}

#[test]
fn compaction_triggers_and_preserves_data() {
    let mut db = open_sim(SimFs::with_seed(8), small_opts(Durability::Always));
    for round in 0..12u32 {
        for i in 0..10u32 {
            let k = format!("k{i:02}");
            db.put(k.as_bytes(), format!("r{round}").as_bytes())
                .unwrap();
        }
        db.flush().unwrap();
    }
    for i in 0..10u32 {
        assert_eq!(
            db.get(format!("k{i:02}").as_bytes()).unwrap(),
            Some(b"r11".to_vec())
        );
    }
    let mut db2 = open_sim(db.into_storage(), small_opts(Durability::Always));
    for i in 0..10u32 {
        assert_eq!(
            db2.get(format!("k{i:02}").as_bytes()).unwrap(),
            Some(b"r11".to_vec())
        );
    }
}

#[test]
fn recovery_keeps_highest_sequence_when_wal_order_differs() {
    for mode in [Durability::Always, Durability::GroupCommit] {
        let mut sim = SimFs::with_seed(17);
        let (mut wal, recovered) = Wal::open(
            &mut sim,
            DIR,
            WalOptions {
                durability: mode,
                ..Default::default()
            },
        )
        .expect("open wal");
        assert!(recovered.records.is_empty());

        wal.append(
            &mut sim,
            &encode_record(2, b"key", &ValueKind::Value(b"newer".to_vec())),
        )
        .expect("append newer record");
        wal.append(
            &mut sim,
            &encode_record(1, b"key", &ValueKind::Value(b"stale".to_vec())),
        )
        .expect("append stale record");
        drop(wal);

        sim.crash();
        let mut db = open_sim(
            sim,
            Options {
                durability: mode,
                ..Default::default()
            },
        );
        assert_eq!(
            db.get(b"key").expect("get recovered key"),
            Some(b"newer".to_vec()),
            "replay order overrode sequence order in {mode:?}"
        );
    }
}

#[test]
fn records_round_trip_and_damage_is_noticed() {
    let bytes = encode_record(7, b"key", &ValueKind::Value(b"value".to_vec()));
    assert_eq!(bytes.len(), 8 + 1 + 4 + 3 + 4 + 5);
    let r = decode_record(&bytes).unwrap();
    assert_eq!((r.seq, r.key.as_slice()), (7, b"key".as_slice()));
    assert_eq!(r.value.as_value(), Some(&b"value"[..]));
    for cut in 0..bytes.len() {
        assert!(decode_record(&bytes[..cut]).is_err());
    }
    let mut bad = bytes.clone();
    bad[8] = 9;
    assert!(decode_record(&bad).is_err());
    let t = encode_record(8, b"k", &ValueKind::Tombstone);
    assert!(decode_record(&t).unwrap().value.is_tombstone());
}

#[derive(Debug, Clone)]
enum Op {
    Put(Vec<u8>, Vec<u8>),
    Delete(Vec<u8>),
    Flush,
    Get(Vec<u8>),
    Scan(Vec<u8>, Vec<u8>),
}

fn modes() -> [Durability; 3] {
    [
        Durability::Always,
        Durability::GroupCommit,
        Durability::OsBuffered,
    ]
}

fn run_against_model(ops: &[Op], mode: Durability, seed: u64) {
    let opts = Options {
        durability: mode,
        memtable_size: 128,
        tier_fanout: 4,
    };
    let mut db = open_sim(SimFs::with_seed(seed), opts);
    let mut model: BTreeMap<Vec<u8>, Vec<u8>> = BTreeMap::new();

    for op in ops {
        match op {
            Op::Put(k, v) => {
                db.put(k, v).expect("put");
                model.insert(k.clone(), v.clone());
            }
            Op::Delete(k) => {
                db.delete(k).expect("delete");
                model.remove(k);
            }
            Op::Flush => {
                db.flush().expect("flush");
            }
            Op::Get(k) => {
                let got = db.get(k).expect("get");
                assert_eq!(got.as_ref(), model.get(k), "get({k:?}) mode={mode:?}");
            }
            Op::Scan(lo, hi) => {
                let got = db
                    .scan(&KeyRange::half_open(lo.clone(), hi.clone()))
                    .expect("scan")
                    .collect();
                let expected: Vec<(Vec<u8>, Vec<u8>)> = model
                    .range(lo.clone()..hi.clone())
                    .map(|(k, v)| (k.clone(), v.clone()))
                    .collect();
                assert_eq!(got, expected, "scan({lo:?}..{hi:?}) mode={mode:?}");
            }
        }
    }

    for (k, v) in &model {
        assert_eq!(
            db.get(k).expect("final get").as_ref(),
            Some(v),
            "final {k:?}"
        );
    }
    let model_full: Vec<(Vec<u8>, Vec<u8>)> =
        model.iter().map(|(k, v)| (k.clone(), v.clone())).collect();
    assert_eq!(full_scan(&mut db), model_full, "final full scan mode={mode:?}");
}

#[test]
fn resurrection_across_flush_all_modes() {
    let ops = vec![
        Op::Put(b"a".to_vec(), b"1".to_vec()),
        Op::Flush,
        Op::Delete(b"a".to_vec()),
        Op::Flush,
        Op::Put(b"a".to_vec(), b"2".to_vec()),
        Op::Get(b"a".to_vec()),
        Op::Flush,
        Op::Get(b"a".to_vec()),
    ];
    for mode in modes() {
        run_against_model(&ops, mode, 42);
    }
}

/// Random operations, from a small generator of their own.
fn random_ops(n: usize, seed: u64) -> Vec<Op> {
    let mut x = seed.wrapping_mul(2) + 1;
    let mut next = move |bound: u64| {
        x = x
            .wrapping_mul(6364136223846793005)
            .wrapping_add(1442695040888963407);
        (x >> 33) % bound
    };
    let mut ops = Vec::new();
    for _ in 0..n {
        let len = 1 + next(3) as usize;
        let key: Vec<u8> = (0..len).map(|_| b'a' + next(5) as u8).collect();
        ops.push(match next(8) {
            0..=2 => {
                let len = next(9) as usize;
                Op::Put(key, (0..len).map(|_| next(256) as u8).collect())
            }
            3 => Op::Delete(key),
            4 => Op::Flush,
            5 | 6 => Op::Get(key),
            _ => {
                let other: Vec<u8> = vec![b'a' + next(5) as u8];
                if key <= other {
                    Op::Scan(key, other)
                } else {
                    Op::Scan(other, key)
                }
            }
        });
    }
    ops
}

#[test]
fn engine_agrees_with_a_map_on_random_operations() {
    for seed in 0..12u64 {
        let ops = random_ops(120, seed);
        for mode in modes() {
            run_against_model(&ops, mode, seed);
        }
    }
}

#[test]
fn options_default_as_documented() {
    let o = Options::default();
    assert_eq!(o.durability, Durability::Always);
    assert_eq!(o.memtable_size, 4 * 1024 * 1024);
    assert_eq!(o.tier_fanout, 4);
}

#[test]
fn open_sim_starts_empty() {
    let mut db = match Db::open_sim(DIR, 3, Options::default()) {
        Ok(db) => db,
        Err((e, _)) => panic!("open: {e:?}"),
    };
    assert!(full_scan(&mut db).is_empty());
    assert_eq!(db.debug_version().num_tiers(), 0);
    assert!(db.storage().list(DIR).unwrap().len() >= 2);
}

#[test]
fn damaged_manifest_and_log_refuse_to_open() {
    let mut db = open_sim(SimFs::with_seed(9), small_opts(Durability::Always));
    db.put(b"k", b"v").unwrap();
    let mut fs = db.into_storage();
    let p = FilePath::new(DIR, b"MANIFEST");
    let byte = fs.read_at(&p, 12, 1).unwrap();
    fs.write_at(&p, 12, &[byte[0] ^ 1]).unwrap();
    let mut fs = match Db::open_on(fs, DIR, small_opts(Durability::Always)) {
        Err((DbError::Manifest(ManifestError::Corrupt(_)), fs)) => fs,
        Err((e, _)) => panic!("unexpected {e:?}"),
        Ok(_) => panic!("opened a damaged manifest"),
    };
    fs.write_at(&p, 12, &byte).unwrap();
    let (mut wal, _) = Wal::open(&mut fs, DIR, WalOptions::default()).unwrap();
    wal.append(&mut fs, b"no record").unwrap();
    match Db::open_on(fs, DIR, small_opts(Durability::Always)) {
        Err((DbError::SsTable(SsTableError::Corrupt(_)), _)) => {}
        Err((e, _)) => panic!("unexpected {e:?}"),
        Ok(_) => panic!("opened a damaged log"),
    }
}

#[test]
fn damaged_table_fails_the_read_that_needs_it() {
    let mut db = open_sim(SimFs::with_seed(10), small_opts(Durability::Always));
    db.put(b"k", b"v").unwrap();
    db.flush().unwrap();
    let id = db.debug_version().tables_newest_first()[0].id;
    let mut fs = db.into_storage();
    let p = table_path(DIR, id);
    let byte = fs.read_at(&p, 2, 1).unwrap();
    fs.write_at(&p, 2, &[byte[0] ^ 1]).unwrap();
    let mut db = open_sim(fs, small_opts(Durability::Always));
    assert!(matches!(
        db.get(b"k"),
        Err(DbError::SsTable(SsTableError::Corrupt(_)))
    ));
    assert_eq!(db.get(b"other").unwrap(), None);
    assert!(db.scan(&KeyRange::full()).is_err());
}

#[test]
fn limits_are_told_before_a_write() {
    let db = open_sim(SimFs::with_seed(11), small_opts(Durability::Always));
    assert!(db.can_put(b"k", b"v"));
    assert!(db.can_delete(b"k"));
    assert!(db.can_flush());
}

fn sim_engine(seed: u64) -> AccretionBench<SimFs> {
    match AccretionBench::open_on(SimFs::with_seed(seed), DIR, Durability::Always, 4 * 1024) {
        Ok(engine) => engine,
        Err((e, _)) => panic!("open on simfs: {e:?}"),
    }
}

fn fill(
    engine: &mut AccretionBench<SimFs>,
    order: FillOrder,
    n: u64,
    workers: usize,
    seed: u64,
) -> Histogram {
    let indices = workload::fill_indices(order, n, seed);
    let mut hists = Vec::new();
    for (lo, hi) in runner::partition(indices.len(), workers) {
        hists.push(runner::fill_share(engine, &indices, lo, hi).unwrap());
    }
    runner::merge_hists(hists)
}

#[test]
fn fill_read_scan_over_simfs() {
    let mut engine = sim_engine(1);
    let keys = 500u64;
    let mut fill = fill(&mut engine, FillOrder::Random, keys, 4, 7);
    assert_eq!(fill.len(), keys as usize);
    assert!(fill.max() >= fill.min());
    engine.flush().unwrap();

    let reads = workload::read_indices(keys, keys as usize, 9);
    let mut hists = Vec::new();
    for (lo, hi) in runner::partition(reads.len(), 4) {
        hists.push(runner::read_share(&mut engine, &reads, lo, hi).unwrap());
    }
    assert_eq!(runner::merge_hists(hists).len(), keys as usize);

    let (mut scans, pairs) = runner::run_scan(&mut engine, keys, 20, 50, 3).unwrap();
    assert_eq!(scans.len(), 20);
    assert_eq!(pairs, 20 * 50);
    assert!(scans.max() >= scans.min());
    assert_eq!(engine.label(), "accretion-db/Always");
    assert!(matches!(
        engine.scan_count(b"b", b"a"),
        Err(BenchError::Refused)
    ));
}

#[test]
fn reads_notice_what_was_not_filled() {
    let mut engine = sim_engine(4);
    let written = vec![0u64, 2];
    runner::fill_share(&mut engine, &written, 0, 2).unwrap();
    let asked = vec![2u64, 0, 1];
    assert_eq!(
        runner::read_share(&mut engine, &asked, 0, 2).unwrap().len(),
        2
    );
    assert!(matches!(
        runner::read_share(&mut engine, &asked, 0, 3),
        Err(BenchError::Missing)
    ));
    engine.put(&workload::key_for(1), b"other").unwrap();
    assert!(matches!(
        runner::read_share(&mut engine, &asked, 2, 3),
        Err(BenchError::Mismatch)
    ));
}

#[test]
fn fill_seq_matches_fill_random_contents() {
    let mut random = sim_engine(2);
    fill(&mut random, FillOrder::Random, 200, 2, 1);
    random.flush().unwrap();

    let mut seq = sim_engine(3);
    fill(&mut seq, FillOrder::Sequential, 200, 1, 1);
    seq.flush().unwrap();

    for i in 0..200u64 {
        let k = workload::key_for(i);
        assert_eq!(
            random.get(&k).unwrap(),
            seq.get(&k).unwrap(),
            "index {i} differs between fill orders"
        );
    }
}

#[test]
fn a_flush_waits_for_the_writes_under_way() {
    let mut gate = WriteState::new(7);
    assert_eq!(gate.claim(), Some(7));
    assert_eq!(gate.claim(), Some(8));
    assert_eq!(gate.next_seq(), 9);
    gate.begin_flush();
    assert_eq!(gate.claim(), None);
    assert!(!gate.is_quiesced());
    gate.settle();
    gate.settle();
    assert!(gate.is_quiesced());
    gate.end_flush();
    assert_eq!(gate.claim(), Some(9));
}

#[test]
fn a_flush_of_nothing_does_nothing() {
    let mut db = open_sim(SimFs::with_seed(21), small_opts(Durability::Always));
    let ops = db.storage().op_count();
    db.flush().unwrap();
    assert_eq!(db.storage().op_count(), ops);
    db.put(b"k", b"v").unwrap();
    db.flush().unwrap();
    assert!(db.storage().op_count() > ops);
    assert_eq!(db.debug_version().tier_len(0), 1);
    let ops = db.storage().op_count();
    db.flush().unwrap();
    assert_eq!(db.storage().op_count(), ops);
}

#[test]
fn a_table_that_no_version_references_is_collected_at_open() {
    let mut db = open_sim(SimFs::with_seed(22), small_opts(Durability::Always));
    db.put(b"k", b"v").unwrap();
    let mut fs = db.into_storage();
    let orphan = table_path(DIR, 1);
    fs.create(&orphan).unwrap();
    fs.append(&orphan, b"half a table").unwrap();
    fs.sync_file(&orphan).unwrap();
    fs.sync_dir(DIR).unwrap();
    fs.crash();
    let mut db = open_sim(fs, small_opts(Durability::Always));
    assert!(db.storage().open(&orphan).is_err());
    db.flush().unwrap();
    assert_eq!(db.debug_version().tier_len(0), 1);
    assert_eq!(db.get(b"k").unwrap(), Some(b"v".to_vec()));
}

#[test]
fn a_write_that_fills_the_memtable_flushes_it() {
    let mut db = open_sim(SimFs::with_seed(23), small_opts(Durability::Always));
    // 10 bytes of key and value and 32 for the entry: six stay within 256 bytes.
    for i in 0..6u8 {
        db.put(&[b'k', i], b"12345678").unwrap();
        assert_eq!(db.debug_version().tier_len(0), 0);
    }
    db.put(b"k7", b"12345678").unwrap();
    assert_eq!(db.debug_version().tier_len(0), 1);
}

#[test]
fn a_missing_read_and_an_empty_share() {
    let mut engine = AccretionBench::open_on(SimFs::with_seed(24), DIR, Durability::Always, 1 << 20)
        .map_err(|(e, _)| e)
        .unwrap();
    let indices: Vec<u64> = vec![0, 1, 2];
    assert_eq!(runner::fill_share(&mut engine, &indices, 1, 1).unwrap().len(), 0);
    assert_eq!(runner::read_share(&mut engine, &indices, 2, 2).unwrap().len(), 0);
    assert_eq!(runner::fill_share(&mut engine, &indices, 0, 2).unwrap().len(), 2);
    assert_eq!(runner::read_share(&mut engine, &indices, 0, 2).unwrap().len(), 2);
    assert!(matches!(
        runner::read_share(&mut engine, &indices, 0, 3),
        Err(BenchError::Missing)
    ));
}

#[test]
fn a_deleted_key_stays_deleted_until_it_is_put() {
    let mut db = open_sim(SimFs::with_seed(4), small_opts(Durability::Always));
    db.put(b"gone", b"old").unwrap();
    db.put(b"kept", b"here").unwrap();
    db.flush().unwrap();
    db.delete(b"gone").unwrap();
    for round in 0..12u32 {
        for i in 0..10u32 {
            db.put(format!("r{round}-{i}").as_bytes(), b"filler").unwrap();
        }
        db.flush().unwrap();
        assert_eq!(db.get(b"gone").unwrap(), None);
        let mut fs = db.into_storage();
        if round % 2 == 1 {
            fs.crash();
        }
        db = open_sim(fs, small_opts(Durability::Always));
        assert_eq!(db.get(b"gone").unwrap(), None);
        assert_eq!(db.get(b"kept").unwrap(), Some(b"here".to_vec()));
    }
    db.put(b"gone", b"new").unwrap();
    db.flush().unwrap();
    assert_eq!(db.get(b"gone").unwrap(), Some(b"new".to_vec()));
}

#[test]
fn a_damaged_table_fails_only_the_reads_that_reach_it() {
    let mut db = open_sim(SimFs::with_seed(12), small_opts(Durability::Always));
    db.put(b"a", b"old").unwrap();
    db.put(b"z", b"old").unwrap();
    db.flush().unwrap();
    db.put(b"a", b"new").unwrap();
    db.flush().unwrap();
    db.put(b"z", b"newest").unwrap();
    let oldest = db.debug_version().tables_newest_first()[1].id;
    let mut fs = db.into_storage();
    let p = table_path(DIR, oldest);
    let byte = fs.read_at(&p, 2, 1).unwrap();
    fs.write_at(&p, 2, &[byte[0] ^ 1]).unwrap();

    let mut db = open_sim(fs, small_opts(Durability::Always));
    assert_eq!(db.get(b"a").unwrap(), Some(b"new".to_vec()));
    assert_eq!(db.get(b"z").unwrap(), Some(b"newest".to_vec()));
    assert_eq!(db.get(b"zz").unwrap(), None);
    assert!(matches!(
        db.scan(&KeyRange::full()),
        Err(DbError::SsTable(SsTableError::Corrupt(_)))
    ));

    let mut fs = db.into_storage();
    fs.delete(&p).unwrap();
    let mut db = open_sim(fs, small_opts(Durability::Always));
    assert_eq!(db.get(b"a").unwrap(), Some(b"new".to_vec()));
    assert!(matches!(
        db.scan(&KeyRange::full()),
        Err(DbError::SsTable(SsTableError::Storage(_)))
    ));
}
