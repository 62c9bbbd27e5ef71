//! Tables: build and read, corruption, durability; and the Bloom filter.

use accretion_db::sstable::{
    BloomFilter, Corruption, Cursor, Part, SsTableBuilder, SsTableError, SsTableReader, Value,
    ValueRef, DEFAULT_BITS_PER_KEY,
};
use accretion_db::storage::FilePath;
use accretion_db::{SimFs, Storage};

const DIR: &[u8] = b"/sst";

fn fresh_fs() -> SimFs {
    SimFs::with_seed(42)
}

fn table_path() -> FilePath {
    FilePath::new(DIR, b"000001.sst")
}

fn build(fs: &mut SimFs, path: &FilePath, entries: &[(Vec<u8>, u64, Value)]) {
    let mut b =
        SsTableBuilder::new(fs, path, entries.len(), DEFAULT_BITS_PER_KEY).expect("new builder");
    for (k, seq, v) in entries {
        let vref = match v {
            Value::Put(bytes) => ValueRef::Put(bytes),
            Value::Delete => ValueRef::Delete,
        };
        b.add(fs, k, *seq, vref).expect("add entry");
    }
    b.finish(fs).expect("finish");
}

fn key(i: usize) -> Vec<u8> {
    format!("key{i:08}").into_bytes()
}

#[test]
fn roundtrip_single_block() {
    let mut fs = fresh_fs();
    let p = table_path();
    let entries = vec![
        (b"alpha".to_vec(), 1, Value::Put(b"one".to_vec())),
        (b"bravo".to_vec(), 2, Value::Put(b"two".to_vec())),
        (b"charlie".to_vec(), 3, Value::Delete),
    ];
    build(&mut fs, &p, &entries);

    let reader = SsTableReader::open(&fs, &p).expect("open");
    assert_eq!(reader.num_entries(), 3);

    let got = reader.get(&fs, b"alpha").expect("get").expect("present");
    assert_eq!(got.value, Value::Put(b"one".to_vec()));
    assert_eq!(got.seq, 1);

    let del = reader.get(&fs, b"charlie").expect("get").expect("present");
    assert_eq!(del.value, Value::Delete);

    assert!(reader.get(&fs, b"zzz-absent").expect("get").is_none());
    assert!(reader.get(&fs, b"aaa-before").expect("get").is_none());
}

#[test]
fn roundtrip_multi_block_sparse_index() {
    let mut fs = fresh_fs();
    let p = table_path();
    let n = 2000usize;
    let entries: Vec<_> = (0..n)
        .map(|i| {
            (
                key(i),
                i as u64,
                Value::Put(format!("value-{i}").into_bytes()),
            )
        })
        .collect();
    build(&mut fs, &p, &entries);

    let reader = SsTableReader::open(&fs, &p).expect("open");
    assert_eq!(reader.num_entries() as usize, n);

    for &i in &[0usize, 1, 7, 42, 999, 1000, 1001, 1999] {
        let got = reader.get(&fs, &key(i)).expect("get").expect("present");
        assert_eq!(got.value, Value::Put(format!("value-{i}").into_bytes()));
        assert_eq!(got.seq, i as u64);
    }
    assert!(reader.get(&fs, b"key00000005-x").expect("get").is_none());
}

#[test]
fn forward_iteration_is_sorted_and_complete() {
    let mut fs = fresh_fs();
    let p = table_path();
    let n = 500usize;
    let entries: Vec<_> = (0..n)
        .map(|i| (key(i), i as u64, Value::Put(vec![i as u8; 20])))
        .collect();
    build(&mut fs, &p, &entries);

    let reader = SsTableReader::open(&fs, &p).expect("open");
    let mut it = reader.iter();
    let mut collected = Vec::new();
    while let Some(e) = it.next(&fs) {
        collected.push(e.expect("entry"));
    }
    assert_eq!(collected.len(), n);
    for (i, e) in collected.iter().enumerate() {
        assert_eq!(e.key, key(i));
        assert_eq!(e.seq, i as u64);
    }
    for w in collected.windows(2) {
        assert!(w[0].key < w[1].key);
    }
    assert_eq!(reader.entries(&fs).expect("entries"), collected);
}

#[test]
fn unsorted_input_rejected() {
    let mut fs = fresh_fs();
    let p = table_path();
    let mut b = SsTableBuilder::new(&mut fs, &p, 4, DEFAULT_BITS_PER_KEY).expect("new");
    b.add(&mut fs, b"b", 1, ValueRef::Put(b"x")).expect("add b");
    assert!(matches!(
        b.add(&mut fs, b"b", 2, ValueRef::Put(b"y")),
        Err(SsTableError::Unsorted)
    ));
    assert!(matches!(
        b.add(&mut fs, b"a", 3, ValueRef::Put(b"z")),
        Err(SsTableError::Unsorted)
    ));
}

fn flip(fs: &mut SimFs, p: &FilePath, pos: u64) {
    let byte = fs.read_at(p, pos, 1).expect("read");
    fs.write_at(p, pos, &[byte[0] ^ 0xFF])
        .expect("write corruption");
}

#[test]
fn corrupt_data_block_detected() {
    let mut fs = fresh_fs();
    let p = table_path();
    let entries: Vec<_> = (0..100usize)
        .map(|i| (key(i), i as u64, Value::Put(format!("v{i}").into_bytes())))
        .collect();
    build(&mut fs, &p, &entries);
    flip(&mut fs, &p, 16);

    let reader = SsTableReader::open(&fs, &p).expect("open still ok (footer/index intact)");
    match reader.get(&fs, &key(0)) {
        Err(SsTableError::Corrupt(_)) => {}
        other => panic!("expected Corrupt, got {other:?}"),
    }
}

#[test]
fn corrupt_footer_detected() {
    let mut fs = fresh_fs();
    let p = table_path();
    build(
        &mut fs,
        &p,
        &[(b"k".to_vec(), 1, Value::Put(b"v".to_vec()))],
    );
    let len = fs.len(&p).expect("len");
    flip(&mut fs, &p, len - 20);
    match SsTableReader::open(&fs, &p) {
        Err(SsTableError::Corrupt(_)) => {}
        other => panic!("expected Corrupt, got {other:?}"),
    }
}

#[test]
fn every_flipped_byte_of_a_small_table_is_noticed() {
    let entries = [
        (b"a".to_vec(), 1, Value::Put(b"x".to_vec())),
        (b"b".to_vec(), 2, Value::Delete),
    ];
    let mut fs = fresh_fs();
    let p = table_path();
    build(&mut fs, &p, &entries);
    let len = fs.len(&p).expect("len");
    for pos in 0..len {
        flip(&mut fs, &p, pos);
        let noticed = match SsTableReader::open(&fs, &p) {
            Err(SsTableError::Corrupt(_)) => true,
            Err(other) => panic!("unexpected {other:?}"),
            Ok(t) => matches!(t.entries(&fs), Err(SsTableError::Corrupt(_))),
        };
        assert!(noticed, "byte {pos} of {len}");
        flip(&mut fs, &p, pos);
    }
    assert_eq!(
        SsTableReader::open(&fs, &p).unwrap().entries(&fs).unwrap().len(),
        2
    );
}

#[test]
fn truncated_file_detected() {
    let mut fs = fresh_fs();
    let p = FilePath::new(DIR, b"stub.sst");
    fs.create(&p).expect("create");
    fs.append(&p, b"too short").expect("append");
    match SsTableReader::open(&fs, &p) {
        Err(SsTableError::Corrupt(_)) => {}
        other => panic!("expected Corrupt, got {other:?}"),
    }
}

#[test]
fn survives_crash_after_sync() {
    let mut fs = SimFs::with_seed(9);
    let p = table_path();
    let entries: Vec<_> = (0..300usize)
        .map(|i| (key(i), i as u64, Value::Put(format!("v{i}").into_bytes())))
        .collect();
    build(&mut fs, &p, &entries);
    fs.sync_dir(DIR).expect("sync_dir");
    fs.crash();

    let reader = SsTableReader::open(&fs, &p).expect("open after crash");
    assert_eq!(reader.num_entries() as usize, entries.len());
    for i in [0usize, 150, 299] {
        let got = reader.get(&fs, &key(i)).expect("get").expect("present");
        assert_eq!(got.value, Value::Put(format!("v{i}").into_bytes()));
    }
}

#[test]
fn unsynced_table_vanishes_on_crash() {
    let mut fs = SimFs::with_seed(11);
    let p = table_path();
    let entries: Vec<_> = (0..50usize)
        .map(|i| (key(i), i as u64, Value::Put(b"x".to_vec())))
        .collect();
    build(&mut fs, &p, &entries);
    fs.crash();
    assert!(fs.open(&p).is_err());
}

#[test]
fn summary_counts_entries_and_names_the_ends() {
    let mut fs = fresh_fs();
    let p = table_path();
    let mut b = SsTableBuilder::new(&mut fs, &p, 2, DEFAULT_BITS_PER_KEY).expect("new");
    b.add(&mut fs, b"a", 1, ValueRef::Put(b"x")).expect("add");
    b.add(&mut fs, b"z", 2, ValueRef::Delete).expect("add");
    let s = b.finish(&mut fs).expect("finish");
    assert_eq!(s.num_entries, 2);
    assert_eq!(s.first_key, Some(b"a".to_vec()));
    assert_eq!(s.last_key, Some(b"z".to_vec()));
    let reader = SsTableReader::open(&fs, &p).expect("open");
    assert!(reader.may_contain(b"a"));
}

#[test]
fn no_false_negatives() {
    let mut bloom = BloomFilter::new(1000, 10);
    for i in 0..1000u32 {
        bloom.insert(&i.to_le_bytes());
    }
    for i in 0..1000u32 {
        assert!(bloom.contains(&i.to_le_bytes()), "false negative for {i}");
    }
}

#[test]
fn empty_filter_reports_absent() {
    let bloom = BloomFilter::new(0, 10);
    assert!(!bloom.contains(b"anything"));
}

#[test]
fn sizing_matches_derivation() {
    let bloom = BloomFilter::new(1000, 10);
    assert_eq!(bloom.num_hashes(), 7);
    assert_eq!(bloom.num_bits() % 8, 0);
    assert!(bloom.num_bits() >= 1000 * 10);
    assert!(bloom.num_bits() < 1000 * 10 + 8);
}

#[test]
fn number_of_hashes_is_rounded_from_the_bits_per_key() {
    for bits in 0..=64usize {
        let bloom = BloomFilter::new(100, bits);
        let exact = bloom.num_bits() as f64 / 100.0 * std::f64::consts::LN_2;
        let expected = (exact.round() as i64).clamp(1, 30) as u32;
        assert_eq!(bloom.num_hashes(), expected, "{bits} bits per key");
    }
}

#[test]
fn encode_decode_roundtrip() {
    let mut bloom = BloomFilter::new(500, 10);
    for i in 0..500u32 {
        bloom.insert(&i.to_le_bytes());
    }
    let mut buf = Vec::new();
    bloom.encode(&mut buf);
    let mut cur = Cursor::new(&buf);
    let decoded = BloomFilter::decode(&mut cur).expect("decode");
    assert_eq!(decoded, bloom);
    assert_eq!(cur.remaining(), 0);
}

#[test]
fn damaged_filter_is_not_decoded() {
    let mut bloom = BloomFilter::new(10, 10);
    bloom.insert(b"x");
    let mut buf = Vec::new();
    bloom.encode(&mut buf);
    for cut in 0..buf.len() {
        assert!(BloomFilter::decode(&mut Cursor::new(&buf[..cut])).is_err());
    }
}

#[test]
fn measured_fpr_near_theoretical() {
    let n = 10_000usize;
    let bits_per_key = 10;
    let mut bloom = BloomFilter::new(n, bits_per_key);
    for i in 0..n as u64 {
        bloom.insert(&i.to_le_bytes());
    }
    let m = bloom.num_bits() as f64;
    let k = bloom.num_hashes() as f64;
    let theoretical = (1.0 - (-k * n as f64 / m).exp()).powf(k);

    let trials = 100_000u64;
    let mut fp = 0u64;
    for i in n as u64..n as u64 + trials {
        if bloom.contains(&i.to_le_bytes()) {
            fp += 1;
        }
    }
    let measured = fp as f64 / trials as f64;
    assert!(
        measured < theoretical * 2.0 + 0.005,
        "measured FPR {measured} far exceeds theoretical {theoretical}"
    );
}

#[test]
fn filter_sets_the_bits_that_the_hash_names() {
    let mut bloom = BloomFilter::new(100, 10);
    bloom.insert(b"probe");
    let mut buf = Vec::new();
    bloom.encode(&mut buf);
    let bits = &buf[16..];
    let h = xxhash_rust::xxh3::xxh3_128(b"probe");
    let m = bloom.num_bits() as u64;
    let h1 = h as u64;
    let h2 = ((h >> 64) as u64) % (m - 1) + 1;
    let mut expected = vec![0u8; bits.len()];
    for i in 0..bloom.num_hashes() as u64 {
        let bit = (h1.wrapping_add(i.wrapping_mul(h2)) % m) as usize;
        expected[bit / 8] |= 1 << (bit % 8);
    }
    assert_eq!(bits, &expected[..]);
}

#[test]
fn corruption_tells_which_part() {
    let mut fs = fresh_fs();
    let p = table_path();
    build(&mut fs, &p, &[(b"k".to_vec(), 1, Value::Put(b"v".to_vec()))]);
    flip(&mut fs, &p, 0);
    let t = SsTableReader::open(&fs, &p).expect("open");
    match t.get(&fs, b"k") {
        Err(SsTableError::Corrupt(Corruption::CrcMismatch { part, .. })) => {
            assert_eq!(part, Part::DataBlock)
        }
        other => panic!("expected a bad checksum, got {other:?}"),
    }
}

#[test]
fn a_refused_key_leaves_no_trace() {
    let mut fs = fresh_fs();
    let plain = FilePath::new(DIR, b"000001.sst");
    let tried = FilePath::new(DIR, b"000002.sst");
    let entries: Vec<_> = (0..200usize)
        .map(|i| (key(i), i as u64, Value::Put(vec![b'v'; 40])))
        .collect();
    build(&mut fs, &plain, &entries);

    let mut b = SsTableBuilder::new(&mut fs, &tried, entries.len(), DEFAULT_BITS_PER_KEY).unwrap();
    for (i, (k, seq, _)) in entries.iter().enumerate() {
        b.add(&mut fs, k, *seq, ValueRef::Put(&[b'v'; 40])).unwrap();
        assert!(matches!(
            b.add(&mut fs, &key(i / 2), 999, ValueRef::Put(b"late")),
            Err(SsTableError::Unsorted)
        ));
    }
    let summary = b.finish(&mut fs).unwrap();
    assert_eq!(summary.num_entries, 200);

    let len = fs.len(&plain).unwrap();
    assert_eq!(fs.len(&tried).unwrap(), len);
    assert_eq!(
        fs.read_at(&plain, 0, len as usize).unwrap(),
        fs.read_at(&tried, 0, len as usize).unwrap()
    );
}

#[test]
fn lookups_find_every_entry_of_every_block_and_nothing_else() {
    for n in [1usize, 2, 3, 40, 41, 500] {
        let mut fs = fresh_fs();
        let p = table_path();
        let entries: Vec<_> = (0..n)
            .map(|i| (key(2 * i + 1), i as u64, Value::Put(vec![b'v'; 300])))
            .collect();
        build(&mut fs, &p, &entries);
        let reader = SsTableReader::open(&fs, &p).unwrap();
        for (i, (k, seq, v)) in entries.iter().enumerate() {
            let got = reader.get(&fs, k).unwrap().unwrap();
            assert_eq!((&got.key, got.seq, &got.value), (k, *seq, v));
            assert!(reader.get(&fs, &key(2 * i)).unwrap().is_none());
        }
        assert!(reader.get(&fs, &key(2 * n)).unwrap().is_none());
    }
}
