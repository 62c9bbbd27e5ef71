//! The merge iterator: newest wins, tombstones, order of keys.

use std::collections::BTreeMap;

use accretion_db::iter::{EntrySource, MergeIterator};
use accretion_db::memtable::{Entry, InternalValue, ValueKind};

fn k(s: &str) -> Vec<u8> {
    s.as_bytes().to_vec()
}

fn put(seq: u64, v: &str) -> InternalValue {
    InternalValue::value(seq, v.as_bytes().to_vec())
}

/// A source, checked to be strictly sorted by key.
fn source(entries: Vec<Entry>) -> EntrySource {
    for w in entries.windows(2) {
        assert!(w[0].0 < w[1].0, "source must be strictly key-sorted");
    }
    entries
}

#[test]
fn empty_merge_yields_nothing() {
    let mut it = MergeIterator::new(vec![]);
    assert!(it.next().is_none());
}

#[test]
fn single_source_passes_through() {
    let src = source(vec![(k("a"), put(1, "1")), (k("b"), put(2, "2"))]);
    let out = MergeIterator::new(vec![src]).collect();
    assert_eq!(out.len(), 2);
    assert_eq!(out[0].0, k("a"));
    assert_eq!(out[1].0, k("b"));
}

#[test]
fn merges_disjoint_sources_in_key_order() {
    let a = source(vec![(k("a"), put(1, "a")), (k("c"), put(1, "c"))]);
    let b = source(vec![(k("b"), put(1, "b")), (k("d"), put(1, "d"))]);
    let keys: Vec<_> = MergeIterator::new(vec![a, b])
        .collect()
        .into_iter()
        .map(|(key, _)| key)
        .collect();
    assert_eq!(keys, vec![k("a"), k("b"), k("c"), k("d")]);
}

#[test]
fn newest_seq_wins_regardless_of_source_order() {
    let older = source(vec![(k("x"), put(1, "one"))]);
    let newest = source(vec![(k("x"), put(3, "three"))]);
    let middle = source(vec![(k("x"), put(2, "two"))]);

    let out = MergeIterator::new(vec![older, newest, middle]).collect();
    assert_eq!(out.len(), 1, "duplicates collapse to one entry");
    assert_eq!(out[0].1.seq, 3);
    assert_eq!(out[0].1.as_value(), Some(&b"three"[..]));
}

#[test]
fn tombstone_preserved_in_raw_merge_when_newest() {
    let live = source(vec![(k("x"), put(1, "v"))]);
    let dead = source(vec![(k("x"), InternalValue::tombstone(2))]);
    let out = MergeIterator::new(vec![live, dead]).collect();
    assert_eq!(out.len(), 1);
    assert!(out[0].1.is_tombstone(), "newest is a tombstone: it wins");
}

#[test]
fn live_scan_drops_tombstoned_key() {
    let live = source(vec![(k("a"), put(1, "a")), (k("x"), put(1, "old"))]);
    let dead = source(vec![(k("x"), InternalValue::tombstone(2))]);
    let out = MergeIterator::new(vec![live, dead]).live().collect();
    assert_eq!(out, vec![(k("a"), b"a".to_vec())], "x deleted, a survives");
}

#[test]
fn resurrection_after_delete_is_visible() {
    let s1 = source(vec![(k("x"), put(1, "first"))]);
    let s2 = source(vec![(k("x"), InternalValue::tombstone(2))]);
    let s3 = source(vec![(k("x"), put(3, "third"))]);
    let out = MergeIterator::new(vec![s1, s2, s3]).live().collect();
    assert_eq!(out, vec![(k("x"), b"third".to_vec())]);
}

/// What a flat map that keeps the highest sequence number of each key says.
fn model_live(writes: &[(Vec<u8>, u64, Option<Vec<u8>>)]) -> Vec<(Vec<u8>, Vec<u8>)> {
    let mut m: BTreeMap<Vec<u8>, (u64, Option<Vec<u8>>)> = BTreeMap::new();
    for (key, seq, val) in writes {
        match m.get(key) {
            Some(prev) if prev.0 >= *seq => {}
            _ => {
                m.insert(key.clone(), (*seq, val.clone()));
            }
        }
    }
    m.into_iter()
        .filter_map(|(key, v)| v.1.map(|val| (key, val)))
        .collect()
}

fn kind(val: &Option<Vec<u8>>) -> ValueKind {
    match val {
        Some(v) => ValueKind::Value(v.clone()),
        None => ValueKind::Tombstone,
    }
}

/// The same writes over `n` sources in turn, each with the newest version of a key.
fn build_sources(writes: &[(Vec<u8>, u64, Option<Vec<u8>>)], n: usize) -> Vec<EntrySource> {
    let mut buckets: Vec<BTreeMap<Vec<u8>, (u64, Option<Vec<u8>>)>> = vec![BTreeMap::new(); n];
    for (i, (key, seq, val)) in writes.iter().enumerate() {
        let b = &mut buckets[i % n];
        match b.get(key) {
            Some(prev) if prev.0 >= *seq => {}
            _ => {
                b.insert(key.clone(), (*seq, val.clone()));
            }
        }
    }
    buckets
        .into_iter()
        .map(|b| {
            source(
                b.into_iter()
                    .map(|(key, (seq, val))| (key, InternalValue { seq, kind: kind(&val) }))
                    .collect(),
            )
        })
        .collect()
}

#[test]
fn matches_model_on_handmade_mixed_workload() {
    let writes = vec![
        (k("a"), 1, Some(b"a1".to_vec())),
        (k("b"), 2, Some(b"b1".to_vec())),
        (k("a"), 5, Some(b"a2".to_vec())),
        (k("c"), 3, Some(b"c1".to_vec())),
        (k("b"), 7, None),
        (k("d"), 4, Some(b"d1".to_vec())),
        (k("c"), 9, None),
        (k("c"), 11, Some(b"c2".to_vec())),
    ];
    let expected = model_live(&writes);
    for n in 1..=4 {
        let sources = build_sources(&writes, n);
        let got = MergeIterator::new(sources).live().collect();
        assert_eq!(got, expected, "merge disagreed with model at n={n}");
    }
}

#[test]
fn merge_matches_model_on_many_generated_workloads() {
    let mut x: u64 = 0x1234_5678;
    for round in 0..60u64 {
        let mut writes = Vec::new();
        for seq in 1..=40u64 {
            x = x.wrapping_mul(6364136223846793005).wrapping_add(1442695040888963407);
            let key = vec![b'a' + ((x >> 33) % 5) as u8];
            let val = if (x >> 40) % 4 == 0 {
                None
            } else {
                Some(vec![(x >> 48) as u8])
            };
            writes.push((key, seq + round, val));
        }
        let expected = model_live(&writes);
        for n in 1..=5 {
            let mut live = MergeIterator::new(build_sources(&writes, n)).live();
            let mut got = Vec::new();
            while let Some(pair) = live.next() {
                got.push(pair);
            }
            assert_eq!(got, expected, "round {round} over {n} sources");
        }
    }
}
