//! Frames, segments and recovery of the log.

use accretion_db::storage::{FilePath, SimFs, Storage};
use accretion_db::wal::frame::{decode, encode, FrameError, HEADER_SZ};
use accretion_db::wal::recovery::{recover, scan_buffer, truncate_tail, StopReason};
use accretion_db::wal::segment::{
    list_segments, parse_segment_id, read_all, segment_path, Segment,
};
use accretion_db::wal::{segment, CommitStep, Coord, Durability, Recovered, Wal, WalOptions};

const DIR: &[u8] = b"/wal";

#[test]
fn round_trip() {
    let frame = encode(b"hello");
    let decoded = decode(&frame, 0).expect("valid frame");
    assert_eq!(decoded.payload, b"hello");
    assert_eq!(decoded.total_len, frame.len());
}

#[test]
fn frame_bytes_are_length_checksum_payload() {
    let frame = encode(b"123456789");
    assert_eq!(&frame[0..4], &9u32.to_le_bytes());
    assert_eq!(&frame[4..8], &0xCBF4_3926u32.to_le_bytes());
    assert_eq!(&frame[8..], b"123456789");
}

#[test]
fn empty_payload_round_trips() {
    let frame = encode(b"");
    assert_eq!(frame.len(), HEADER_SZ);
    let decoded = decode(&frame, 0).expect("valid empty frame");
    assert!(decoded.payload.is_empty());
    assert_eq!(decoded.total_len, HEADER_SZ);
}

#[test]
fn back_to_back_frames_decode_in_sequence() {
    let mut log = encode(b"one");
    let second_at = log.len();
    log.extend_from_slice(&encode(b"twotwo"));

    let a = decode(&log, 0).expect("first");
    assert_eq!(a.payload, b"one");
    assert_eq!(a.total_len, second_at);
    let b = decode(&log, second_at).expect("second");
    assert_eq!(b.payload, b"twotwo");
}

#[test]
fn short_header_is_truncated() {
    let frame = encode(b"payload");
    assert_eq!(decode(&frame[..3], 0), Err(FrameError::Truncated));
}

#[test]
fn short_payload_is_truncated() {
    let frame = encode(b"0123456789");
    let cut = HEADER_SZ + 5;
    assert_eq!(decode(&frame[..cut], 0), Err(FrameError::Truncated));
}

#[test]
fn flipped_payload_bit_is_bad_crc() {
    let mut frame = encode(b"important");
    frame[HEADER_SZ] ^= 0x01;
    assert_eq!(decode(&frame, 0), Err(FrameError::BadCrc));
}

#[test]
fn scanning_a_cut_log_finds_a_prefix() {
    let mut log = encode(b"one");
    log.extend_from_slice(&encode(b""));
    log.extend_from_slice(&encode(b"three"));
    let ends = [11usize, 19, 32];
    for cut in 0..=log.len() {
        let mut out = Vec::new();
        let (valid, reason) = scan_buffer(&log[..cut], &mut out);
        let whole = ends.iter().filter(|&&e| e <= cut).count();
        assert_eq!(out.len(), whole);
        let end = if whole == 0 { 0 } else { ends[whole - 1] };
        assert_eq!(valid as usize, end);
        assert_eq!(
            reason,
            if end == cut {
                StopReason::Clean
            } else {
                StopReason::Truncated
            }
        );
    }
}

#[test]
fn path_names_are_sortable_and_reversible() {
    let a = segment_path(DIR, 1);
    let b = segment_path(DIR, 2);
    let big = segment_path(DIR, 12345);
    assert!((&a.dir, &a.name) < (&b.dir, &b.name));
    assert!((&b.dir, &b.name) < (&big.dir, &big.name));
    assert_eq!(parse_segment_id(&a), Some(1));
    assert_eq!(parse_segment_id(&big), Some(12345));
}

#[test]
fn parse_rejects_non_segments() {
    assert_eq!(parse_segment_id(&FilePath::new(b"/wal", b"MANIFEST")), None);
    assert_eq!(parse_segment_id(&FilePath::new(b"/wal", b"0001.wal")), None);
    assert_eq!(
        parse_segment_id(&FilePath::new(b"/wal", b"00000000000000000001.tmp")),
        None
    );
}

#[test]
fn segment_name_is_twenty_digits() {
    assert_eq!(segment_path(DIR, 7).name, b"00000000000000000007.wal");
    assert_eq!(
        parse_segment_id(&FilePath::new(b"/wal", b"18446744073709551615.wal")),
        Some(u64::MAX)
    );
    assert_eq!(
        parse_segment_id(&FilePath::new(b"/wal", b"18446744073709551616.wal")),
        None
    );
}

#[test]
fn list_sorted_by_id() {
    let mut fs = SimFs::with_seed(1);
    Segment::create(&mut fs, DIR, 3).unwrap();
    Segment::create(&mut fs, DIR, 1).unwrap();
    Segment::create(&mut fs, DIR, 2).unwrap();
    let ids: Vec<u64> = list_segments(&fs, DIR)
        .unwrap()
        .into_iter()
        .map(|(id, _)| id)
        .collect();
    assert_eq!(ids, vec![1, 2, 3]);
}

#[test]
fn append_tracks_offset_and_reads_back() {
    let mut fs = SimFs::with_seed(1);
    let mut seg = Segment::create(&mut fs, DIR, 1).unwrap();
    seg.append(&mut fs, b"hello").unwrap();
    seg.append(&mut fs, b"world").unwrap();
    assert_eq!(seg.len(), 10);
    let bytes = read_all(&fs, seg.path()).unwrap();
    assert_eq!(bytes, b"helloworld");
    assert_eq!(seg.id(), 1);
    assert_eq!(Segment::open(&fs, DIR, 1).unwrap().len(), 10);
    assert!(Segment::open(&fs, DIR, 2).is_err());
}

fn write_segment(fs: &mut SimFs, id: u64, frames: &[&[u8]]) {
    let mut seg = Segment::create(fs, DIR, id).unwrap();
    for f in frames {
        seg.append(fs, &encode(f)).unwrap();
    }
    seg.sync(fs).unwrap();
}

#[test]
fn empty_dir_recovers_nothing() {
    let fs = SimFs::with_seed(1);
    let r = recover(&fs, DIR).unwrap();
    assert!(r.records.is_empty());
    assert_eq!(r.stop_reason, StopReason::Clean);
    assert_eq!(r.tail_segment, None);
}

#[test]
fn single_clean_segment() {
    let mut fs = SimFs::with_seed(1);
    write_segment(&mut fs, 1, &[b"a", b"bb", b"ccc"]);
    let r = recover(&fs, DIR).unwrap();
    assert_eq!(
        r.records,
        vec![b"a".to_vec(), b"bb".to_vec(), b"ccc".to_vec()]
    );
    assert_eq!(r.stop_reason, StopReason::Clean);
    assert_eq!(r.tail_segment, Some(1));
}

#[test]
fn records_span_multiple_segments_in_order() {
    let mut fs = SimFs::with_seed(1);
    write_segment(&mut fs, 1, &[b"one", b"two"]);
    write_segment(&mut fs, 2, &[b"three"]);
    let r = recover(&fs, DIR).unwrap();
    assert_eq!(
        r.records,
        vec![b"one".to_vec(), b"two".to_vec(), b"three".to_vec()]
    );
    assert_eq!(r.tail_segment, Some(2));
}

#[test]
fn torn_tail_frame_is_dropped() {
    let mut fs = SimFs::with_seed(1);
    let mut seg = Segment::create(&mut fs, DIR, 1).unwrap();
    seg.append(&mut fs, &encode(b"good")).unwrap();
    let partial = encode(b"torn-away");
    seg.append(&mut fs, &partial[..5]).unwrap();
    seg.sync(&mut fs).unwrap();

    let good_len = encode(b"good").len() as u64;
    let r = recover(&fs, DIR).unwrap();
    assert_eq!(r.records, vec![b"good".to_vec()]);
    assert_eq!(r.stop_reason, StopReason::Truncated);
    assert_eq!(r.tail_valid_len, good_len);
}

#[test]
fn bad_crc_frame_stops_replay() {
    let mut fs = SimFs::with_seed(1);
    let mut seg = Segment::create(&mut fs, DIR, 1).unwrap();
    seg.append(&mut fs, &encode(b"keep")).unwrap();
    let mut corrupt = encode(b"corrupt");
    corrupt[HEADER_SZ] ^= 0xFF;
    seg.append(&mut fs, &corrupt).unwrap();
    seg.sync(&mut fs).unwrap();

    let r = recover(&fs, DIR).unwrap();
    assert_eq!(r.records, vec![b"keep".to_vec()]);
    assert_eq!(r.stop_reason, StopReason::BadCrc);
}

#[test]
fn truncate_tail_rewrites_to_valid_prefix() {
    let mut fs = SimFs::with_seed(1);
    let mut seg = Segment::create(&mut fs, DIR, 1).unwrap();
    seg.append(&mut fs, &encode(b"good")).unwrap();
    let partial = encode(b"torn");
    seg.append(&mut fs, &partial[..3]).unwrap();
    seg.sync(&mut fs).unwrap();
    fs.sync_dir(DIR).unwrap();

    let r = recover(&fs, DIR).unwrap();
    assert_eq!(r.stop_reason, StopReason::Truncated);
    truncate_tail(&mut fs, DIR, r.tail_segment.unwrap(), r.tail_valid_len).unwrap();

    let r2 = recover(&fs, DIR).unwrap();
    assert_eq!(r2.records, vec![b"good".to_vec()]);
    assert_eq!(r2.stop_reason, StopReason::Clean);
}

fn open(fs: &mut SimFs, mode: Durability) -> (Wal, Recovered) {
    Wal::open(
        fs,
        DIR,
        WalOptions {
            durability: mode,
            ..Default::default()
        },
    )
    .expect("open wal")
}

fn round_trip_for(mode: Durability) {
    let mut fs = SimFs::with_seed(1);
    let (mut wal, rec) = open(&mut fs, mode);
    assert!(rec.records.is_empty());
    for r in [b"a".as_slice(), b"bb", b"ccc"] {
        wal.append(&mut fs, r).expect("append");
    }
    drop(wal);
    let (_wal2, rec2) = open(&mut fs, mode);
    assert_eq!(
        rec2.records,
        vec![b"a".to_vec(), b"bb".to_vec(), b"ccc".to_vec()],
        "mode {mode:?}"
    );
}

#[test]
fn round_trip_always() {
    round_trip_for(Durability::Always);
}

#[test]
fn round_trip_group_commit() {
    round_trip_for(Durability::GroupCommit);
}

#[test]
fn round_trip_os_buffered() {
    round_trip_for(Durability::OsBuffered);
}

#[test]
fn segment_rolls_at_threshold() {
    let mut fs = SimFs::with_seed(1);
    let (mut wal, _) = Wal::open(
        &mut fs,
        DIR,
        WalOptions {
            durability: Durability::Always,
            segment_size: 64,
        },
    )
    .expect("open");
    assert_eq!(wal.active_segment_id(), 1);
    for _ in 0..20 {
        wal.append(&mut fs, b"0123456789").expect("append");
    }
    assert!(wal.active_segment_id() > 1);
    let segs = segment::list_segments(&fs, DIR).unwrap();
    assert!(
        segs.len() > 1,
        "expected multiple segments, got {}",
        segs.len()
    );

    drop(wal);
    let (_wal2, rec) = open(&mut fs, Durability::Always);
    assert_eq!(rec.records.len(), 20);
    assert!(rec.records.iter().all(|r| r == b"0123456789"));
}

#[test]
fn reset_releases_every_record() {
    let mut fs = SimFs::with_seed(4);
    let (mut wal, _) = Wal::open(
        &mut fs,
        DIR,
        WalOptions {
            durability: Durability::Always,
            segment_size: 32,
        },
    )
    .expect("open");
    for _ in 0..6 {
        wal.append(&mut fs, b"0123456789").expect("append");
    }
    let id = wal.active_segment_id();
    wal.reset(&mut fs).expect("reset");
    assert_eq!(wal.active_segment_id(), id + 1);
    wal.append(&mut fs, b"after").expect("append");
    drop(wal);
    fs.crash();
    let (_wal2, rec) = open(&mut fs, Durability::Always);
    assert_eq!(rec.records, vec![b"after".to_vec()]);
}

#[test]
fn durable_modes_are_the_two_that_sync() {
    assert!(Durability::Always.is_durable());
    assert!(Durability::GroupCommit.is_durable());
    assert!(!Durability::OsBuffered.is_durable());
}

#[test]
fn commit_pipeline_elects_one_leader_for_a_batch() {
    let mut c = Coord::new();
    let a = c.enqueue(b"a".to_vec());
    let b = c.enqueue(b"b".to_vec());
    let batch = match c.poll(a) {
        CommitStep::Lead(batch) => batch,
        other => panic!("expected to lead, got {other:?}"),
    };
    assert_eq!(batch.len(), 2);
    assert!(matches!(c.poll(b), CommitStep::Wait));
    let late = c.enqueue(b"late".to_vec());
    c.publish(batch, true);
    assert!(matches!(c.poll(a), CommitStep::Done));
    assert!(matches!(c.poll(b), CommitStep::Done));
    match c.poll(late) {
        CommitStep::Lead(batch) => assert_eq!(batch.len(), 1),
        other => panic!("expected to lead, got {other:?}"),
    }
}

#[test]
fn failed_batch_goes_back_to_the_queue() {
    let mut c = Coord::new();
    let a = c.enqueue(b"a".to_vec());
    let batch = match c.poll(a) {
        CommitStep::Lead(batch) => batch,
        other => panic!("expected to lead, got {other:?}"),
    };
    c.publish(batch, false);
    match c.poll(a) {
        CommitStep::Lead(batch) => assert_eq!(batch.len(), 1),
        other => panic!("expected to lead again, got {other:?}"),
    }
}

#[test]
fn group_commits_are_counted() {
    for (mode, per_append) in [
        (Durability::GroupCommit, 1),
        (Durability::Always, 0),
        (Durability::OsBuffered, 0),
    ] {
        let mut fs = SimFs::with_seed(3);
        let options = WalOptions {
            durability: mode,
            segment_size: 4096,
        };
        let (mut wal, _) = Wal::open(&mut fs, DIR, options).unwrap();
        for _ in 0..5 {
            wal.append(&mut fs, b"record").unwrap();
        }
        assert_eq!(wal.commit_count(), 5 * per_append);
    }
}

fn write_durable(fs: &mut SimFs, id: u64, bytes: &[u8]) {
    let mut seg = Segment::create(fs, DIR, id).unwrap();
    seg.append(fs, bytes).unwrap();
    seg.sync(fs).unwrap();
    fs.sync_dir(DIR).unwrap();
}

#[test]
fn a_bad_frame_is_discarded_with_everything_behind_it() {
    let mut fs = SimFs::with_seed(5);
    write_durable(&mut fs, 1, &encode(b"one"));
    let mut second = encode(b"two");
    second.extend_from_slice(&encode(b"bad")[..6]);
    write_durable(&mut fs, 2, &second);
    write_durable(&mut fs, 3, &encode(b"three"));

    for _ in 0..2 {
        let (wal, found) = Wal::open(&mut fs, DIR, WalOptions::default()).unwrap();
        assert_eq!(found.records, vec![b"one".to_vec(), b"two".to_vec()]);
        assert_eq!(wal.active_segment_id(), 2);
        let ids: Vec<u64> = list_segments(&fs, DIR).unwrap().iter().map(|s| s.0).collect();
        assert_eq!(ids, vec![1, 2]);
    }
    fs.crash();
    let found = recover(&fs, DIR).unwrap();
    assert_eq!(found.records, vec![b"one".to_vec(), b"two".to_vec()]);
    assert_eq!(found.stop_reason, StopReason::Clean);
}

#[test]
fn opening_a_clean_log_touches_nothing() {
    let mut fs = SimFs::with_seed(6);
    let mut seg = Segment::create(&mut fs, DIR, 1).unwrap();
    fs.sync_dir(DIR).unwrap();
    seg.append(&mut fs, &encode(b"seen")).unwrap();
    let ops = fs.op_count();
    let (_, found) = Wal::open(&mut fs, DIR, WalOptions::default()).unwrap();
    assert_eq!(found.records, vec![b"seen".to_vec()]);
    assert_eq!(fs.op_count(), ops);
}

#[test]
fn a_reset_log_is_one_empty_segment_with_the_next_id() {
    let mut fs = SimFs::with_seed(7);
    let options = WalOptions {
        durability: Durability::Always,
        segment_size: 16,
    };
    let (mut wal, _) = Wal::open(&mut fs, DIR, options).unwrap();
    wal.append(&mut fs, b"0123456789").unwrap();
    assert_eq!(wal.active_segment_id(), 2);
    wal.reset(&mut fs).unwrap();
    assert_eq!(wal.active_segment_id(), 3);
    let segments = list_segments(&fs, DIR).unwrap();
    assert_eq!(segments.len(), 1);
    assert_eq!(segments[0].0, 3);
    assert_eq!(fs.len(&segments[0].1).unwrap(), 0);
}

#[test]
fn buffered_appends_are_not_synced() {
    let mut fs = SimFs::with_seed(8);
    let options = WalOptions {
        durability: Durability::OsBuffered,
        segment_size: 1 << 20,
    };
    let (mut wal, _) = Wal::open(&mut fs, DIR, options).unwrap();
    let before = fs.op_count();
    wal.append(&mut fs, b"buffered").unwrap();
    assert_eq!(fs.op_count(), before + 1);
}

#[test]
fn writers_that_share_a_coordinator_are_all_recovered_once() {
    let mut fs = SimFs::with_seed(8);
    let (mut wal, _) = open(&mut fs, Durability::GroupCommit);
    wal.append(&mut fs, b"before").unwrap();

    let mut c = Coord::new();
    let mut numbers = Vec::new();
    for name in [b"a1".as_slice(), b"b1", b"a2"] {
        numbers.push(c.enqueue(encode(name)));
    }
    let batch = match c.poll(numbers[1]) {
        CommitStep::Lead(batch) => batch,
        other => panic!("expected to lead, got {other:?}"),
    };
    numbers.push(c.enqueue(encode(b"b2")));
    c.publish(batch, false);
    let batch = match c.poll(numbers[0]) {
        CommitStep::Lead(batch) => batch,
        other => panic!("expected to lead, got {other:?}"),
    };
    numbers.push(c.enqueue(encode(b"c1")));
    wal.write_batch(&mut fs, &batch).unwrap();
    c.publish(batch, true);
    for n in &numbers[..4] {
        assert!(matches!(c.poll(*n), CommitStep::Done));
    }
    let batch = match c.poll(numbers[4]) {
        CommitStep::Lead(batch) => batch,
        other => panic!("expected to lead, got {other:?}"),
    };
    wal.write_batch(&mut fs, &batch).unwrap();
    c.publish(batch, true);

    fs.crash();
    let found = recover(&fs, DIR).unwrap();
    let expected: Vec<Vec<u8>> = [b"before".as_slice(), b"a1", b"b1", b"a2", b"b2", b"c1"]
        .iter()
        .map(|r| r.to_vec())
        .collect();
    assert_eq!(found.records, expected);
}

#[test]
fn a_reset_log_recovers_to_nothing_after_a_crash() {
    let mut fs = SimFs::with_seed(8);
    let (mut wal, _) = open(&mut fs, Durability::Always);
    for r in [b"a".as_slice(), b"bb"] {
        wal.append(&mut fs, r).unwrap();
    }
    wal.reset(&mut fs).unwrap();
    fs.crash();
    let found = recover(&fs, DIR).unwrap();
    assert!(found.records.is_empty());
    assert_eq!(found.tail_segment, Some(2));
    assert_eq!(found.tail_valid_len, 0);
    assert_eq!(found.stop_reason, StopReason::Clean);
}
