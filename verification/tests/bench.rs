//! The benchmark's histogram, workload, division of work and command line.

use accretion_db::bench::args::{parse_args, parse_durability, ArgError, Engine};
use accretion_db::bench::hist::Histogram;
use accretion_db::bench::probe::{ops_per_sec, ProbeConfig, ProbeStop};
use accretion_db::bench::runner::{
    check_read, merge_hists, partition, plan, scan_bounds, scan_count, scan_starts, scan_window,
    Phase, ReadCheck,
};
use accretion_db::bench::workload::{
    fill_indices, key_for, read_indices, value_for, FillOrder, KEY_LEN, VALUE_LEN,
};
use accretion_db::crashtest;
use accretion_db::Durability;
use rand::rngs::StdRng;
use rand::seq::SliceRandom;
use rand::{Rng, SeedableRng};

/// The `q`-quantile by nearest rank.
fn quantile(h: &mut Histogram, q: f64) -> u64 {
    let rank = (q.clamp(0.0, 1.0) * h.len() as f64).ceil() as usize;
    h.at_rank(rank)
}

#[test]
fn empty_is_zero() {
    let mut h = Histogram::default();
    assert!(h.is_empty());
    assert_eq!(quantile(&mut h, 0.5), 0);
    assert_eq!(h.min(), 0);
    assert_eq!(h.max(), 0);
    assert_eq!(h.mean(), 0);
}

#[test]
fn nearest_rank_percentiles() {
    let mut h = Histogram::with_capacity(100);
    for v in 1..=100u64 {
        h.record(v);
    }
    assert_eq!(quantile(&mut h, 0.50), 50);
    assert_eq!(quantile(&mut h, 0.99), 99);
    assert_eq!(quantile(&mut h, 1.0), 100);
    assert_eq!(h.min(), 1);
    assert_eq!(h.max(), 100);
    assert_eq!(h.mean(), 50);
}

#[test]
fn single_sample() {
    let mut h = Histogram::with_capacity(1);
    h.record(42);
    assert_eq!(quantile(&mut h, 0.50), 42);
    assert_eq!(quantile(&mut h, 0.99), 42);
    assert_eq!(h.min(), 42);
    assert_eq!(h.max(), 42);
}

#[test]
fn record_after_read_resorts() {
    let mut h = Histogram::with_capacity(4);
    h.record(10);
    h.record(5);
    assert_eq!(h.min(), 5);
    h.record(1);
    assert_eq!(h.min(), 1);
    assert_eq!(h.max(), 10);
}

#[test]
fn samples_stay_in_the_order_of_recording() {
    let mut h = Histogram::default();
    for v in [3u64, 1, 2] {
        h.record(v);
    }
    assert_eq!(h.samples_slice(), &[3, 1, 2]);
    assert_eq!(h.at_rank(2), 2);
    assert_eq!(h.min(), 1);
    assert_eq!(h.max(), 3);
    assert_eq!(h.samples_slice(), &[3, 1, 2]);
    assert_eq!(h.at_rank(0), 1);
    assert_eq!(h.at_rank(9), 3);
    assert_eq!(h.mean(), 2);
    let mut big = Histogram::default();
    big.record(u64::MAX);
    big.record(u64::MAX);
    assert_eq!(big.mean(), u64::MAX);
}

#[test]
fn key_value_widths_are_fixed() {
    assert_eq!(key_for(0).len(), KEY_LEN);
    assert_eq!(key_for(u64::MAX).len(), KEY_LEN);
    assert_eq!(value_for(0).len(), VALUE_LEN);
    assert_eq!(value_for(12345).len(), VALUE_LEN);
}

#[test]
fn keys_sort_in_index_order() {
    assert!(key_for(1) < key_for(2));
    assert!(key_for(100) < key_for(1000));
}

#[test]
fn values_are_distinct_and_reproducible() {
    assert_eq!(value_for(42), value_for(42));
    assert_ne!(value_for(1), value_for(2));
}

#[test]
fn key_and_value_bytes_are_as_described() {
    let i = 0x0102_0304_0506_0708u64;
    assert_eq!(&key_for(i)[..8], &[0u8; 8]);
    assert_eq!(&key_for(i)[8..], &i.to_be_bytes());
    let v = value_for(i);
    assert_eq!(&v[..8], &i.to_le_bytes());
    let seed = i.wrapping_mul(0x9E37_79B9_7F4A_7C15);
    for (j, b) in v[8..].iter().enumerate() {
        assert_eq!(*b, (seed.wrapping_add(j as u64) & 0xFF) as u8);
    }
}

#[test]
fn fill_random_is_a_permutation_and_seed_stable() {
    let a = fill_indices(FillOrder::Random, 1000, 7);
    let b = fill_indices(FillOrder::Random, 1000, 7);
    assert_eq!(a, b, "same seed -> same order");
    let mut sorted = a.clone();
    sorted.sort_unstable();
    assert_eq!(sorted, (0..1000).collect::<Vec<_>>(), "is a permutation");
    assert_ne!(a, sorted, "and not the identity");
}

#[test]
fn fill_seq_is_ascending() {
    let s = fill_indices(FillOrder::Sequential, 100, 0);
    assert_eq!(s, (0..100).collect::<Vec<_>>());
}

#[test]
fn read_indices_are_in_range_and_seed_stable() {
    let a = read_indices(50, 200, 3);
    let b = read_indices(50, 200, 3);
    assert_eq!(a, b);
    assert!(a.iter().all(|&i| i < 50));
    assert_eq!(a.len(), 200);
}

#[test]
fn work_is_divided_evenly_with_the_rest_last() {
    assert_eq!(partition(10, 3), vec![(0, 3), (3, 6), (6, 10)]);
    assert_eq!(partition(2, 4), vec![(0, 0), (0, 0), (0, 0), (0, 2)]);
    assert_eq!(partition(5, 0), vec![(0, 5)]);
}

#[test]
fn histograms_merge_in_order() {
    let mut a = Histogram::default();
    a.record(3);
    let mut b = Histogram::default();
    b.record(1);
    b.record(2);
    let m = merge_hists(vec![a, Histogram::default(), b]);
    assert_eq!(m.samples_slice(), &[3, 1, 2]);
}

#[test]
fn workloads_have_their_phases() {
    let random = Phase::Fill(FillOrder::Random);
    let p = |s: &str| plan(&s.to_string());
    assert_eq!(p("fill-seq"), vec![Phase::Fill(FillOrder::Sequential)]);
    assert_eq!(p("fill-random"), vec![random]);
    assert_eq!(p("point-read"), vec![random, Phase::Flush, Phase::PointRead]);
    assert_eq!(p("scan"), vec![random, Phase::Flush, Phase::ScanRange]);
    assert_eq!(
        p("all"),
        vec![random, Phase::Flush, Phase::PointRead, Phase::ScanRange]
    );
    assert_eq!(p("nothing"), vec![]);
}

#[test]
fn scans_stay_within_the_keys() {
    assert_eq!(scan_window(50), 1);
    assert_eq!(scan_window(5_000), 50);
    assert_eq!(scan_window(10_000_000), 1000);
    assert_eq!(scan_count(20), 20);
    assert_eq!(scan_count(5_000), 1000);
    assert!(scan_starts(100, 50, 10, 1).iter().all(|s| s + 10 < 100));
    assert!(scan_starts(5, 20, 10, 1).iter().all(|&s| s == 0));
    assert_eq!(scan_bounds(3, 4), (key_for(3), key_for(7)));
}

#[test]
fn reads_are_judged() {
    assert_eq!(check_read(5, &Some(value_for(5))), ReadCheck::Correct);
    assert_eq!(check_read(5, &Some(value_for(6))), ReadCheck::Mismatch);
    assert_eq!(check_read(5, &None), ReadCheck::Missing);
}

fn args(list: &[&str]) -> Vec<String> {
    list.iter().map(|s| s.to_string()).collect()
}

#[test]
fn arg_parsing_defaults_and_overrides() {
    let cfg = parse_args(&args(&[])).unwrap();
    assert_eq!(cfg.workload, "all");
    assert_eq!(cfg.durability, Durability::GroupCommit);
    assert_eq!(cfg.reads, cfg.keys as usize);

    let cfg = parse_args(&args(&[
        "point-read",
        "--durability",
        "always",
        "--keys",
        "1000",
        "--concurrency",
        "8",
    ]))
    .unwrap();
    assert_eq!(cfg.workload, "point-read");
    assert_eq!(cfg.durability, Durability::Always);
    assert_eq!(cfg.keys, 1000);
    assert_eq!(cfg.concurrency, 8);

    assert!(parse_args(&args(&["--durability", "bogus"])).is_err());
}

#[test]
fn every_flag_is_read() {
    let cfg = parse_args(&args(&[
        "--engine", "sled", "--reads", "7", "--memtable-bytes", "+64", "--dir", "/tmp/x",
        "--seed", "18446744073709551615",
    ]))
    .unwrap();
    assert_eq!(cfg.workload, "all");
    assert_eq!(cfg.engine, Engine::Sled);
    assert_eq!(cfg.reads, 7);
    assert_eq!(cfg.memtable_bytes, 64);
    assert_eq!(cfg.dir.as_deref(), Some("/tmp/x"));
    assert_eq!(cfg.seed, u64::MAX);
    assert_eq!(cfg.keys, 100_000);
}

#[test]
fn each_mistake_on_the_command_line_has_its_error() {
    let fails = |list: &[&str]| parse_args(&args(list)).unwrap_err();
    assert!(matches!(fails(&["--bogus"]), ArgError::UnknownFlag(f) if f == "--bogus"));
    assert!(matches!(fails(&["all", "--keys"]), ArgError::MissingValue(f) if f == "--keys"));
    assert!(matches!(fails(&["--keys", "many"]), ArgError::BadNumber(f) if f == "--keys"));
    assert!(matches!(
        fails(&["--seed", "18446744073709551616"]),
        ArgError::BadNumber(_)
    ));
    assert!(matches!(fails(&["--engine", "x"]), ArgError::UnknownEngine(e) if e == "x"));
    assert!(matches!(
        fails(&["--durability", "x"]),
        ArgError::UnknownDurability(d) if d == "x"
    ));
}

#[test]
fn durability_has_several_names() {
    for (name, mode) in [
        ("always", Durability::Always),
        ("group", Durability::GroupCommit),
        ("groupcommit", Durability::GroupCommit),
        ("group-commit", Durability::GroupCommit),
        ("osbuffered", Durability::OsBuffered),
        ("buffered", Durability::OsBuffered),
        ("os", Durability::OsBuffered),
    ] {
        assert_eq!(parse_durability(&name.to_string()).unwrap(), mode);
    }
}

#[test]
fn crash_test_records_are_numbered_text() {
    assert_eq!(crashtest::key_for(7), b"key00000000000000000007");
    assert_eq!(
        crashtest::value_for(7),
        b"val-000000000007-payload-padding-to-force-flushes-0123456789"
    );
    for i in [0u64, 9, 10, 999_999_999_999, 1_000_000_000_000, u64::MAX] {
        assert_eq!(crashtest::key_for(i), format!("key{i:020}").into_bytes());
    }
    assert!(crashtest::key_for(9) < crashtest::key_for(10));
}

#[test]
fn crash_test_keys_have_one_width_and_sort_by_index() {
    let (i, j) = (999_999_999_999u64, 1_000_000_000_000u64);
    assert_eq!(crashtest::key_for(i).len(), crashtest::key_for(j).len());
    assert!(crashtest::key_for(i) < crashtest::key_for(j));
    assert!(crashtest::key_for(j) < crashtest::key_for(u64::MAX));
}

#[test]
fn phases_have_seeds_of_their_own() {
    assert_eq!(accretion_db::bench::runner::read_seed(42), 42 ^ 0xA5A5);
    assert_eq!(accretion_db::bench::runner::scan_seed(42), 42 ^ 0x1234);
}

#[test]
fn probe_arguments_and_rates() {
    let c = ProbeConfig::from_args(&args(&[])).unwrap();
    assert_eq!(c.iters, 1000);
    assert_eq!(c.dir, None);
    let c = ProbeConfig::from_args(&args(&["--dir", "/x", "--iters", "5"])).unwrap();
    assert_eq!(c.iters, 5);
    assert_eq!(c.dir.as_deref(), Some("/x"));

    let stops = |list: &[&str]| ProbeConfig::from_args(&args(list)).unwrap_err();
    assert!(matches!(stops(&["--iters"]), ProbeStop::BadIters));
    assert!(matches!(stops(&["--iters", "x"]), ProbeStop::BadIters));
    assert!(matches!(stops(&["--iters", "0"]), ProbeStop::ZeroIters));
    assert!(matches!(stops(&["--dir"]), ProbeStop::MissingDir));
    assert!(matches!(stops(&["-h", "--bogus"]), ProbeStop::Help));
    assert!(matches!(
        stops(&["bogus", "--help"]),
        ProbeStop::UnknownArgument(a) if a == "bogus"
    ));

    assert_eq!(ops_per_sec(0), 0);
    assert_eq!(ops_per_sec(2_790_000), 358);
    assert_eq!(ops_per_sec(2_000_000_000), 0);
}

#[test]
fn random_orders_come_from_the_seed() {
    let mut order: Vec<u64> = (0..100).collect();
    order.shuffle(&mut StdRng::seed_from_u64(9));
    assert_eq!(fill_indices(FillOrder::Random, 100, 9), order);

    let mut rng = StdRng::seed_from_u64(9);
    let draws: Vec<u64> = (0..100).map(|_| rng.gen_range(0..50u64)).collect();
    assert_eq!(read_indices(50, 100, 9), draws);
    assert_eq!(scan_starts(60, 100, 10, 9), draws);
}
