//! The memtable set: byte accounting, overwrites, freezing, reads across tables.

use std::sync::Arc;

use accretion_db::memtable::{InternalValue, Memtable, MemtableSet};
use accretion_db::range::{KeyBound, KeyRange};

fn k(s: &str) -> Vec<u8> {
    s.as_bytes().to_vec()
}

fn put(seq: u64, v: &str) -> InternalValue {
    InternalValue::value(seq, v.as_bytes().to_vec())
}

#[test]
fn insert_then_get_newest_wins_within_active() {
    let mut set = MemtableSet::new(1 << 20);
    set.insert(k("a"), put(1, "one"));
    set.insert(k("a"), put(5, "five"));
    let got = set.get(b"a").expect("present");
    assert_eq!(got.seq, 5);
    assert_eq!(got.as_value(), Some(&b"five"[..]));
}

#[test]
fn tombstone_is_returned_not_hidden() {
    let mut set = MemtableSet::new(1 << 20);
    set.insert(k("a"), put(1, "one"));
    set.insert(k("a"), InternalValue::tombstone(2));
    let got = set.get(b"a").expect("tombstone still present as a version");
    assert!(got.is_tombstone());
    assert_eq!(got.as_value(), None);
}

#[test]
fn missing_key_is_none() {
    let set = MemtableSet::new(1 << 20);
    assert!(set.get(b"nope").is_none());
}

#[test]
fn overwrite_does_not_double_count_bytes() {
    let mut mt = Memtable::new();
    mt.insert(k("key"), InternalValue::value(1, vec![0u8; 100]));
    let after_first = mt.approx_bytes();
    mt.insert(k("key"), InternalValue::value(2, vec![0u8; 100]));
    assert_eq!(mt.approx_bytes(), after_first);
    assert_eq!(mt.len(), 1);
}

#[test]
fn approx_bytes_grows_with_distinct_keys() {
    let mut mt = Memtable::new();
    assert_eq!(mt.approx_bytes(), 0);
    mt.insert(k("a"), InternalValue::value(1, vec![0u8; 10]));
    let one = mt.approx_bytes();
    mt.insert(k("b"), InternalValue::value(2, vec![0u8; 10]));
    assert!(mt.approx_bytes() > one);
}

#[test]
fn approx_bytes_is_key_and_value_and_overhead() {
    let mut mt = Memtable::new();
    mt.insert(k("abc"), InternalValue::value(1, vec![0u8; 10]));
    assert_eq!(mt.approx_bytes(), 3 + 10 + 32);
    mt.insert(k("abc"), InternalValue::tombstone(2));
    assert_eq!(mt.approx_bytes(), 3 + 32);
}

#[test]
fn freeze_moves_active_and_installs_empty() {
    let mut set = MemtableSet::new(1 << 20);
    set.insert(k("a"), put(1, "one"));
    set.insert(k("b"), put(2, "two"));
    let frozen = set.freeze();

    assert_eq!(frozen.len(), 2);
    assert_eq!(set.frozen_count(), 1);
    assert_eq!(set.active_bytes(), 0);
    assert_eq!(set.get(b"a").unwrap().as_value(), Some(&b"one"[..]));
}

#[test]
fn reads_span_active_and_frozen_newest_first() {
    let mut set = MemtableSet::new(1 << 20);
    set.insert(k("x"), put(1, "old"));
    set.freeze();
    set.insert(k("x"), put(9, "new"));

    let got = set.get(b"x").expect("present");
    assert_eq!(got.seq, 9, "active table must shadow the frozen one");
    assert_eq!(got.as_value(), Some(&b"new"[..]));
}

#[test]
fn frozen_read_guarantee_survives_across_freeze_boundary() {
    let mut set = MemtableSet::new(1 << 20);
    set.insert(k("k"), put(3, "v"));
    let frozen = set.freeze();
    assert_eq!(set.get(b"k").unwrap().as_value(), Some(&b"v"[..]));
    set.discard_frozen(&frozen);
    assert_eq!(set.frozen_count(), 0);
    assert!(set.get(b"k").is_none(), "discarded frozen data is gone");
}

#[test]
fn discard_frozen_removes_only_the_named_table() {
    let mut set = MemtableSet::new(1 << 20);
    set.insert(k("a"), put(1, "a"));
    let first = set.freeze();
    set.insert(k("b"), put(2, "b"));
    let _second = set.freeze();
    assert_eq!(set.frozen_count(), 2);

    set.discard_frozen(&first);
    assert_eq!(set.frozen_count(), 1);
    assert_eq!(set.get(b"b").unwrap().as_value(), Some(&b"b"[..]));
    assert!(set.get(b"a").is_none());
}

#[test]
fn freeze_if_full_respects_threshold() {
    let mut set = MemtableSet::new(64);
    set.insert(k("small"), InternalValue::value(1, vec![0u8; 4]));
    assert!(set.freeze_if_full().is_none(), "not full yet");

    set.insert(k("big"), InternalValue::value(2, vec![0u8; 256]));
    assert!(set.is_full());
    let frozen = set.freeze_if_full().expect("full now, must freeze");
    assert!(!frozen.is_empty());
    assert_eq!(set.active_bytes(), 0);
    assert!(set.freeze_if_full().is_none(), "empty active never freezes");
}

#[test]
fn a_table_is_full_once_it_exceeds_its_limit() {
    let mut set = MemtableSet::new(64);
    set.insert(k("abcd"), InternalValue::value(1, vec![0u8; 28]));
    assert_eq!(set.active_bytes(), 64);
    assert!(!set.is_full());
    assert!(set.freeze_if_full().is_none());
    set.insert(k("abcd"), InternalValue::value(2, vec![0u8; 29]));
    assert_eq!(set.active_bytes(), 65);
    assert!(set.is_full());
    assert!(set.freeze_if_full().is_some());
}

#[test]
fn a_table_of_no_set_discards_nothing() {
    let mut set = MemtableSet::new(1 << 20);
    let empty = set.freeze();
    assert_eq!(set.frozen_count(), 1);
    set.discard_frozen(&Arc::new(Memtable::new()));
    assert_eq!(set.frozen_count(), 1);
    let mut other = MemtableSet::new(1 << 20);
    other.insert(k("a"), put(1, "one"));
    set.discard_frozen(&other.freeze());
    assert_eq!(set.frozen_count(), 1);
    set.discard_frozen(&empty);
    assert_eq!(set.frozen_count(), 0);
}

#[test]
fn scan_iters_yields_one_source_per_table() {
    let mut set = MemtableSet::new(1 << 20);
    set.insert(k("a"), put(1, "a"));
    set.freeze();
    set.insert(k("b"), put(2, "b"));
    assert_eq!(set.full_iters().len(), 2);
}

#[test]
fn range_snapshot_is_bounded_and_sorted() {
    let mut mt = Memtable::new();
    for c in ['a', 'b', 'c', 'd', 'e'] {
        mt.insert(vec![c as u8], put(1, "v"));
    }
    let snap = mt.range_snapshot(&KeyRange::half_open(k("b"), k("d")));
    let keys: Vec<Vec<u8>> = snap.into_iter().map(|(key, _)| key).collect();
    assert_eq!(keys, vec![k("b"), k("c")]);
}

#[test]
fn range_bounds_include_and_exclude() {
    let mut mt = Memtable::new();
    for c in ['d', 'b', 'a', 'c'] {
        mt.insert(vec![c as u8], put(1, "v"));
    }
    let keys = |start: KeyBound, end: KeyBound| -> Vec<Vec<u8>> {
        let range = KeyRange { start, end };
        assert!(range.is_in_order());
        mt.range_snapshot(&range).into_iter().map(|(key, _)| key).collect()
    };
    assert_eq!(
        keys(KeyBound::Excluded(k("a")), KeyBound::Included(k("c"))),
        vec![k("b"), k("c")]
    );
    assert_eq!(
        keys(KeyBound::Unbounded, KeyBound::Excluded(k("b"))),
        vec![k("a")]
    );
    assert_eq!(
        keys(KeyBound::Included(k("c")), KeyBound::Unbounded),
        vec![k("c"), k("d")]
    );
    assert!(!KeyRange::half_open(k("b"), k("a")).is_in_order());
    assert!(!KeyRange {
        start: KeyBound::Excluded(k("a")),
        end: KeyBound::Excluded(k("a")),
    }
    .is_in_order());
}

#[test]
fn insert_if_newer_keeps_the_higher_sequence_number() {
    let mut set = MemtableSet::new(1 << 20);
    set.insert_if_newer(k("a"), put(5, "five"));
    set.insert_if_newer(k("a"), put(3, "three"));
    set.insert_if_newer(k("a"), put(5, "again"));
    assert_eq!(set.get(b"a").unwrap().as_value(), Some(&b"five"[..]));
    set.insert_if_newer(k("a"), put(6, "six"));
    assert_eq!(set.get(b"a").unwrap().as_value(), Some(&b"six"[..]));
}

#[test]
fn freezing_keeps_every_read() {
    let mut set = MemtableSet::new(1 << 20);
    for i in 0..50u64 {
        set.insert(vec![(i % 7) as u8], put(i + 1, &format!("v{i}")));
        let before: Vec<_> = (0..8u8).map(|b| set.get(&[b])).collect();
        if i % 9 == 0 {
            set.freeze();
        }
        let after: Vec<_> = (0..8u8).map(|b| set.get(&[b])).collect();
        assert_eq!(before, after);
    }
}

#[test]
fn snapshot_and_iter_list_all_entries() {
    let mut mt = Memtable::new();
    mt.insert(k("b"), put(2, "2"));
    mt.insert(k("a"), put(1, "1"));
    let keys: Vec<Vec<u8>> = mt.snapshot().into_iter().map(|(key, _)| key).collect();
    assert_eq!(keys, vec![k("a"), k("b")]);
    assert_eq!(mt.iter().len(), 2);
    assert_eq!(mt.get(b"b").unwrap().seq, 2);
    assert!(!mt.is_empty());
}
