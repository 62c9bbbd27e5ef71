//! The manifest and compaction.

use std::sync::Arc;

use accretion_db::compaction::{maybe_compact, output_is_bottom, write_table};
use accretion_db::manifest::record::{decode_version, encode_version};
use accretion_db::manifest::{
    parse_table_id, still_pinned, table_path, Manifest, ManifestError, TableMeta, Version,
};
use accretion_db::memtable::InternalValue;
use accretion_db::sstable::{Corruption, SsTableReader, Value};
use accretion_db::storage::{FilePath, SimFs, Storage};

const DIR: &[u8] = b"/db";

fn meta(id: u64, first: &[u8], last: &[u8]) -> TableMeta {
    TableMeta {
        id,
        num_entries: 1,
        first_key: first.to_vec(),
        last_key: last.to_vec(),
    }
}

#[test]
fn fresh_open_is_empty_and_durable() {
    let mut fs = SimFs::with_seed(1);
    let m = Manifest::open(&mut fs, DIR).unwrap();
    assert!(m.current().all_tables().is_empty());
    let m2 = Manifest::open(&mut fs, DIR).unwrap();
    assert_eq!(m2.current().next_table_id, 1);
}

#[test]
fn fresh_manifest_survives_a_crash() {
    let mut fs = SimFs::with_seed(2);
    Manifest::open(&mut fs, DIR).unwrap();
    fs.crash();
    fs.open(&FilePath::new(DIR, b"MANIFEST")).expect("durable");
    assert_eq!(Manifest::open(&mut fs, DIR).unwrap().current().next_seq, 1);
}

#[test]
fn install_persists_across_reopen() {
    let mut fs = SimFs::with_seed(1);
    let mut m = Manifest::open(&mut fs, DIR).unwrap();
    let v = m.current().flushed(meta(1, b"a", b"m"), 5);
    m.install(&mut fs, v).unwrap();

    let m2 = Manifest::open(&mut fs, DIR).unwrap();
    let cur = m2.current();
    assert_eq!(cur.tier_len(0), 1);
    assert_eq!(cur.next_seq, 5);
    assert_eq!(cur.next_table_id, 2);
    assert_eq!(cur.tiers[0][0].id, 1);
}

#[test]
fn encode_decode_round_trip() {
    let mut v = Version::empty();
    v = v.flushed(meta(1, b"a", b"c"), 3);
    v = v.flushed(meta(2, b"d", b"f"), 7);
    let bytes = encode_version(&v);
    let back = decode_version(&bytes).unwrap();
    assert_eq!(v, back);
}

#[test]
fn corrupt_manifest_is_detected() {
    let mut v = Version::empty();
    v = v.flushed(meta(1, b"a", b"c"), 3);
    let mut bytes = encode_version(&v);
    bytes[12] ^= 0xFF;
    assert!(matches!(
        decode_version(&bytes),
        Err(Corruption::CrcMismatch { .. })
    ));

    let mut fs = SimFs::with_seed(3);
    let p = FilePath::new(DIR, b"MANIFEST");
    fs.create(&p).unwrap();
    fs.append(&p, &bytes).unwrap();
    assert!(matches!(
        Manifest::open(&mut fs, DIR),
        Err(ManifestError::Corrupt(_))
    ));
}

#[test]
fn newest_first_ordering_prefers_young_tier_then_high_id() {
    let mut v = Version::empty();
    v = v.flushed(meta(1, b"a", b"z"), 1);
    v = v.flushed(meta(2, b"a", b"z"), 2);
    v = v.compacted(0, meta(3, b"a", b"z"));
    v = v.flushed(meta(4, b"a", b"z"), 4);
    let order: Vec<u64> = v.tables_newest_first().iter().map(|t| t.id).collect();
    assert_eq!(order, vec![4, 3], "young tier first, high id first");
}

#[test]
fn versions_count_and_list_their_tables() {
    let mut v = Version::empty();
    v = v.flushed(meta(1, b"a", b"z"), 1);
    v = v.flushed(meta(2, b"a", b"z"), 2);
    assert_eq!(v.num_tiers(), 1);
    assert_eq!(v.tier_len(0), 2);
    assert_eq!(v.tier_len(9), 0);
    let ids: Vec<u64> = v.all_tables().iter().map(|t| t.id).collect();
    assert_eq!(ids, vec![1, 2]);
    assert_eq!(v.referenced_ids().into_iter().collect::<Vec<_>>(), vec![1, 2]);
    let c = v.compacted(0, meta(3, b"a", b"z"));
    assert_eq!(c.tier_len(0), 0);
    assert_eq!(c.tier_len(1), 1);
    assert_eq!(c.num_tiers(), 1);
    assert_eq!(c.flushed(meta(4, b"a", b"z"), 4).num_tiers(), 2);
    assert_eq!(c.next_table_id, 4);
    assert!(meta(1, b"b", b"d").key_in_range(b"c"));
    assert!(!meta(1, b"b", b"d").key_in_range(b"e"));
}

#[test]
fn table_names_are_reversible() {
    assert_eq!(table_path(DIR, 7).name, b"00000000000000000007.sst");
    assert_eq!(parse_table_id(&table_path(DIR, 7)), Some(7));
    assert_eq!(parse_table_id(&FilePath::new(DIR, b"MANIFEST")), None);
}

#[test]
fn unreferenced_tables_are_deleted_on_install() {
    let mut fs = SimFs::with_seed(5);
    let mut m = Manifest::open(&mut fs, DIR).unwrap();
    fs.create(&table_path(DIR, 1)).unwrap();
    fs.create(&table_path(DIR, 2)).unwrap();
    let v = m.current().flushed(meta(2, b"a", b"m"), 5);
    m.install(&mut fs, v).unwrap();
    assert!(fs.open(&table_path(DIR, 1)).is_err());
    fs.open(&table_path(DIR, 2)).expect("referenced");
}

#[test]
fn pinned_version_keeps_its_tables() {
    let mut fs = SimFs::with_seed(6);
    let mut m = Manifest::open(&mut fs, DIR).unwrap();
    fs.create(&table_path(DIR, 1)).unwrap();
    let v = m.current().flushed(meta(1, b"a", b"m"), 5);
    let pinned = m.install(&mut fs, v).unwrap();
    let next = pinned.cleared(0);
    m.install(&mut fs, next).unwrap();
    fs.open(&table_path(DIR, 1)).expect("pinned");
    drop(pinned);
    let again = m.current().flushed(meta(2, b"a", b"m"), 6);
    m.install(&mut fs, again).unwrap();
    assert!(fs.open(&table_path(DIR, 1)).is_err());
}

fn iv(seq: u64, v: &str) -> InternalValue {
    InternalValue::value(seq, v.as_bytes().to_vec())
}

fn tomb(seq: u64) -> InternalValue {
    InternalValue::tombstone(seq)
}

fn write_at(
    fs: &mut SimFs,
    manifest: &Manifest,
    id: u64,
    entries: Vec<(Vec<u8>, InternalValue)>,
) -> TableMeta {
    let n = entries.len();
    write_table(fs, &table_path(manifest.dir(), id), id, n, entries)
        .unwrap()
        .unwrap()
}

fn flush_table(fs: &mut SimFs, manifest: &mut Manifest, entries: Vec<(Vec<u8>, InternalValue)>) {
    let version = manifest.current();
    let id = version.next_table_id;
    let next_seq = entries.iter().map(|(_, v)| v.seq).max().unwrap_or(0) + 1;
    let meta = write_at(fs, manifest, id, entries);
    manifest.install(fs, version.flushed(meta, next_seq)).unwrap();
}

fn open_reader(fs: &SimFs, manifest: &Manifest, id: u64) -> SsTableReader {
    SsTableReader::open(fs, &table_path(manifest.dir(), id)).unwrap()
}

#[test]
fn compacts_tier_when_full_and_merges_newest_wins() {
    let mut fs = SimFs::with_seed(1);
    let mut manifest = Manifest::open(&mut fs, DIR).unwrap();
    for seq in 1..=4u64 {
        flush_table(
            &mut fs,
            &mut manifest,
            vec![(b"k".to_vec(), iv(seq, &format!("v{seq}")))],
        );
    }
    assert_eq!(manifest.current().tier_len(0), 4);

    assert!(maybe_compact(&mut fs, &mut manifest, 4).unwrap());
    let v = manifest.current();
    assert_eq!(v.tier_len(0), 0);
    assert_eq!(v.tier_len(1), 1);

    let out_id = v.tiers[1][0].id;
    let reader = open_reader(&fs, &manifest, out_id);
    let e = reader.get(&fs, b"k").unwrap().unwrap();
    assert_eq!(e.value, Value::Put(b"v4".to_vec()));
    assert_eq!(e.seq, 4);
}

#[test]
fn bottom_tier_drops_tombstones_top_tier_keeps_them() {
    let mut fs = SimFs::with_seed(7);
    let mut manifest = Manifest::open(&mut fs, DIR).unwrap();
    flush_table(&mut fs, &mut manifest, vec![(b"d".to_vec(), iv(1, "alive"))]);
    flush_table(&mut fs, &mut manifest, vec![(b"k".to_vec(), iv(2, "one"))]);
    flush_table(&mut fs, &mut manifest, vec![(b"d".to_vec(), tomb(3))]);
    flush_table(&mut fs, &mut manifest, vec![(b"k".to_vec(), iv(4, "two"))]);

    assert!(maybe_compact(&mut fs, &mut manifest, 4).unwrap());
    let v = manifest.current();
    let out_id = v.tiers[1][0].id;
    let reader = open_reader(&fs, &manifest, out_id);
    assert!(
        reader.get(&fs, b"d").unwrap().is_none(),
        "tombstone GC'd at bottom"
    );
    assert_eq!(
        reader.get(&fs, b"k").unwrap().unwrap().value,
        Value::Put(b"two".to_vec())
    );
}

#[test]
fn tombstone_preserved_when_output_not_bottom() {
    let mut fs = SimFs::with_seed(9);
    let mut manifest = Manifest::open(&mut fs, DIR).unwrap();

    let mut v = Version::empty();
    for seq in 1..=4u64 {
        let meta = write_at(
            &mut fs,
            &manifest,
            seq,
            vec![(b"d".to_vec(), tomb(seq + 10))],
        );
        v = v.flushed(meta, seq + 11);
    }
    let bottom = write_at(
        &mut fs,
        &manifest,
        100,
        vec![(b"d".to_vec(), iv(1, "old"))],
    );
    while v.tiers.len() <= 2 {
        v.tiers.push(Vec::new());
    }
    v.tiers[2].push(Arc::new(bottom));
    v.next_table_id = 101;
    manifest.install(&mut fs, v).unwrap();

    assert!(!output_is_bottom(&manifest.current(), 0), "tier 2 is below");
    assert!(maybe_compact(&mut fs, &mut manifest, 4).unwrap());

    let v = manifest.current();
    let out_id = v.tiers[1][0].id;
    let reader = open_reader(&fs, &manifest, out_id);
    let e = reader
        .get(&fs, b"d")
        .unwrap()
        .expect("tombstone kept above bottom");
    assert_eq!(e.value, Value::Delete);
}

#[test]
fn no_compaction_below_fanout() {
    let mut fs = SimFs::with_seed(1);
    let mut manifest = Manifest::open(&mut fs, DIR).unwrap();
    flush_table(&mut fs, &mut manifest, vec![(b"a".to_vec(), iv(1, "x"))]);
    assert!(!maybe_compact(&mut fs, &mut manifest, 4).unwrap());
    assert_eq!(manifest.current().tier_len(0), 1);
}

#[test]
fn compaction_of_nothing_but_tombstones_leaves_no_table() {
    let mut fs = SimFs::with_seed(13);
    let mut manifest = Manifest::open(&mut fs, DIR).unwrap();
    for seq in 1..=2u64 {
        flush_table(&mut fs, &mut manifest, vec![(b"d".to_vec(), tomb(seq))]);
    }
    assert!(maybe_compact(&mut fs, &mut manifest, 2).unwrap());
    assert!(manifest.current().all_tables().is_empty());
}

#[test]
fn versions_with_another_handle_stay() {
    let versions: Vec<Arc<Version>> = (1..4)
        .map(|seq| Arc::new(Version::empty().flushed(meta(seq, b"a", b"b"), seq)))
        .collect();
    let kept = still_pinned(&versions, &vec![2, 1, 3]);
    let seqs: Vec<u64> = kept.iter().map(|v| v.next_seq).collect();
    assert_eq!(seqs, vec![1, 3]);
    assert!(still_pinned(&versions, &vec![1, 1, 1]).is_empty());
}

#[test]
fn a_held_version_keeps_its_tables_over_many_installs() {
    let mut fs = SimFs::with_seed(6);
    let mut m = Manifest::open(&mut fs, DIR).unwrap();
    flush_table(&mut fs, &mut m, vec![(b"k".to_vec(), iv(1, "one"))]);
    let held = m.current();
    for seq in 2..8u64 {
        let next = m.current().cleared(0);
        m.install(&mut fs, next).unwrap();
        flush_table(&mut fs, &mut m, vec![(b"k".to_vec(), iv(seq, "later"))]);
    }
    fs.crash();
    let reader = open_reader(&fs, &m, held.all_tables()[0].id);
    let got = reader.get(&fs, b"k").unwrap().unwrap();
    assert_eq!(got.value, Value::Put(b"one".to_vec()));
}

#[test]
fn a_written_table_reads_back_as_its_entries() {
    let mut fs = SimFs::with_seed(6);
    let p = table_path(DIR, 5);
    let entries: Vec<(Vec<u8>, InternalValue)> = (0..300u64)
        .map(|i| {
            let value = if i % 7 == 0 { tomb(i) } else { iv(i, "value") };
            (format!("k{i:05}").into_bytes(), value)
        })
        .collect();
    let meta = write_table(&mut fs, &p, 5, entries.len(), entries.clone())
        .unwrap()
        .unwrap();
    assert_eq!((meta.id, meta.num_entries), (5, 300));
    assert_eq!(meta.first_key, b"k00000".to_vec());
    assert_eq!(meta.last_key, b"k00299".to_vec());

    let reader = SsTableReader::open(&fs, &p).unwrap();
    let mut it = reader.iter();
    for (i, (key, _)) in entries.iter().enumerate() {
        let e = it.next(&fs).unwrap().unwrap();
        let value = if i % 7 == 0 {
            Value::Delete
        } else {
            Value::Put(b"value".to_vec())
        };
        assert_eq!((&e.key, e.seq, e.value), (key, i as u64, value));
    }
    assert!(it.next(&fs).is_none());

    let empty = table_path(DIR, 6);
    assert!(write_table(&mut fs, &empty, 6, 0, Vec::new()).unwrap().is_none());
    assert_eq!(fs.len(&empty).unwrap(), 0);
}
