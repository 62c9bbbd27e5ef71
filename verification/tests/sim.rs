//! The power-loss simulator.

use accretion_db::storage::{FilePath, SimFs, Storage, StorageError, TearMode};
use rand::rngs::StdRng;
use rand::{Rng, SeedableRng};

const ROOT: &[u8] = b"/d";

fn at(name: &str) -> FilePath {
    FilePath::new(ROOT, name.as_bytes())
}

fn setup_synced_file(fs: &mut SimFs, name: &str) -> FilePath {
    let p = at(name);
    fs.create(&p).expect("create");
    fs.sync_dir(ROOT).expect("sync_dir");
    p
}

fn read_all(fs: &SimFs, p: &FilePath) -> Vec<u8> {
    let len = fs.len(p).expect("len") as usize;
    fs.read_at(p, 0, len).expect("read")
}

#[test]
fn buffered_vs_durable_promotion() {
    let mut fs = SimFs::with_seed(1);
    let p = setup_synced_file(&mut fs, "wal");

    fs.append(&p, b"durable-").expect("append 1");
    fs.sync_file(&p).expect("sync");
    fs.append(&p, b"buffered").expect("append 2");

    assert_eq!(read_all(&fs, &p), b"durable-buffered");

    let report = fs.crash();
    assert_eq!(report.ops_before_crash, 5);
    let survived = read_all(&fs, &p);
    assert!(survived.starts_with(b"durable-"));
    assert!(survived.len() >= b"durable-".len());
    assert!(survived.len() <= b"durable-buffered".len());
}

#[test]
fn torn_append_keeps_prefix() {
    for seed in 0..2000u64 {
        let mut fs = SimFs::with_seed(seed);
        let p = setup_synced_file(&mut fs, "wal");
        fs.append(&p, b"0123456789").expect("append");
        let r = fs.crash();
        if r.tear_mode == TearMode::Truncate && r.tail_kept > 0 && r.tail_kept < r.tail_len {
            let survived = read_all(&fs, &p);
            assert_eq!(survived.len() as u64, r.tail_kept);
            assert_eq!(&survived[..], &b"0123456789"[..r.tail_kept as usize]);
            return;
        }
    }
    panic!("no seed produced a partial torn append in range");
}

#[test]
fn bit_flip_changes_one_bit_of_the_tail() {
    for seed in 0..2000u64 {
        let mut fs = SimFs::with_seed(seed);
        let p = setup_synced_file(&mut fs, "wal");
        fs.append(&p, b"0123456789").expect("append");
        let r = fs.crash();
        if r.tear_mode == TearMode::BitFlip {
            let survived = read_all(&fs, &p);
            assert_eq!(survived.len(), 10);
            assert_eq!(r.tail_kept, 10);
            let flipped: u32 = survived
                .iter()
                .zip(b"0123456789")
                .map(|(a, b)| (a ^ b).count_ones())
                .sum();
            assert_eq!(flipped, 1);
            return;
        }
    }
    panic!("no seed flipped a bit in range");
}

#[test]
fn volatile_create_vanishes_on_crash() {
    let mut fs = SimFs::with_seed(7);
    let p = at("ghost");
    fs.create(&p).expect("create");
    fs.append(&p, b"data").expect("append");
    fs.crash();
    assert!(matches!(fs.open(&p), Err(StorageError::NotFound(_))));
    assert!(fs.list(ROOT).expect("list").is_empty());
}

#[test]
fn armed_crash_fires_at_op_n() {
    let mut fs = SimFs::with_seed(3);
    let p = setup_synced_file(&mut fs, "log");
    assert_eq!(fs.op_count(), 2);
    fs.arm_crash_after(3);
    fs.append(&p, b"xyz").expect("append");
    let report = fs.last_report().expect("armed crash produced a report");
    assert_eq!(report.ops_before_crash, 3);
}

fn manifest_v1_then_renamed(fs: &mut SimFs) -> FilePath {
    let man = at("MANIFEST");
    let tmp = at("MANIFEST.tmp");
    fs.create(&man).expect("create v1");
    fs.append(&man, b"VERSION-1").expect("append v1");
    fs.sync_file(&man).expect("sync v1");
    fs.sync_dir(ROOT).expect("dir-sync v1");

    fs.create(&tmp).expect("create tmp");
    fs.append(&tmp, b"VERSION-2222").expect("append v2");
    fs.sync_file(&tmp).expect("sync tmp");
    fs.rename(&tmp, &man).expect("rename over MANIFEST");
    man
}

#[test]
fn rename_over_durable_file_commits_new_content_on_dir_sync() {
    let mut fs = SimFs::with_seed(1);
    let man = manifest_v1_then_renamed(&mut fs);
    fs.sync_dir(ROOT).expect("dir-sync v2");
    fs.crash();
    assert_eq!(read_all(&fs, &man), b"VERSION-2222");
}

#[test]
fn rename_over_durable_reverts_if_crash_before_dir_sync() {
    let mut fs = SimFs::with_seed(1);
    let man = manifest_v1_then_renamed(&mut fs);
    fs.crash();
    assert_eq!(read_all(&fs, &man), b"VERSION-1");
}

#[test]
fn rename_volatile_until_dir_sync() {
    let mut fs = SimFs::with_seed(5);
    let a = setup_synced_file(&mut fs, "a");
    fs.append(&a, b"payload").expect("append");
    fs.sync_file(&a).expect("sync data durable");
    let b = at("b");
    fs.rename(&a, &b).expect("rename");
    fs.crash();
    fs.open(&a).expect("a survives the volatile rename");
    assert!(matches!(fs.open(&b), Err(StorageError::NotFound(_))));
    assert_eq!(read_all(&fs, &a), b"payload");
}

#[test]
fn dir_sync_commits_name_but_not_unsynced_bytes() {
    let mut fs = SimFs::with_seed(11);
    let p = at("named-but-buffered");
    let payload = b"not-yet-durable";

    fs.create(&p).expect("create");
    fs.append(&p, payload).expect("append");
    fs.sync_dir(ROOT).expect("sync directory entry");

    let report = fs.crash();
    fs.open(&p).expect("directory-synced name survives");
    assert_eq!(report.torn_path.as_ref(), Some(&p));
    assert_eq!(report.tail_len, payload.len() as u64);
}

/// A durable file `reused`, deleted and created again with `bytes`.
fn recreated(fs: &mut SimFs, bytes: &[u8]) -> FilePath {
    let p = at("reused");
    fs.create(&p).expect("create old");
    fs.append(&p, b"old-generation").expect("append old");
    fs.sync_file(&p).expect("sync old data");
    fs.sync_dir(ROOT).expect("sync old name");

    fs.delete(&p).expect("delete old");
    fs.create(&p).expect("create new");
    fs.append(&p, bytes).expect("append new");
    p
}

#[test]
fn delete_recreate_before_dir_sync_restores_old_generation() {
    let mut fs = SimFs::with_seed(19);
    let p = recreated(&mut fs, b"new-generation");
    fs.crash();
    assert_eq!(read_all(&fs, &p), b"old-generation");
}

#[test]
fn delete_recreate_dir_sync_never_resurrects_old_bytes() {
    let mut fs = SimFs::with_seed(23);
    let p = recreated(&mut fs, b"new");
    fs.sync_dir(ROOT).expect("commit new name");
    let report = fs.crash();
    assert_eq!(report.torn_path.as_ref(), Some(&p));
    assert_ne!(read_all(&fs, &p), b"old-generation");
}

#[test]
fn syncing_recreated_file_before_dir_sync_preserves_old_generation() {
    let mut fs = SimFs::with_seed(29);
    let p = recreated(&mut fs, b"new-generation");
    fs.sync_file(&p).expect("sync new data only");
    fs.crash();
    assert_eq!(read_all(&fs, &p), b"old-generation");
}

#[test]
fn syncing_recreated_file_and_dir_commits_new_generation() {
    let mut fs = SimFs::with_seed(31);
    let p = recreated(&mut fs, b"new-generation");
    fs.sync_file(&p).expect("sync new data");
    fs.sync_dir(ROOT).expect("commit new name");
    fs.crash();
    assert_eq!(read_all(&fs, &p), b"new-generation");
}

#[test]
fn rename_to_same_path_is_a_noop() {
    let mut fs = SimFs::with_seed(37);
    let p = at("same");
    fs.create(&p).expect("create");
    fs.append(&p, b"content").expect("append");
    fs.sync_file(&p).expect("sync data");
    fs.sync_dir(ROOT).expect("sync name");

    fs.rename(&p, &p).expect("rename same path");
    assert_eq!(read_all(&fs, &p), b"content");
    fs.crash();
    assert_eq!(read_all(&fs, &p), b"content");
}

#[test]
fn syncing_newest_append_reveals_previous_unsynced_tear_candidate() {
    let mut fs = SimFs::with_seed(41);
    let a = setup_synced_file(&mut fs, "a");
    let b = setup_synced_file(&mut fs, "b");

    fs.append(&a, b"older-unsynced").expect("append a");
    fs.append(&b, b"newer-then-synced").expect("append b");
    fs.sync_file(&b).expect("sync b");

    let report = fs.crash();
    assert_eq!(report.torn_path.as_ref(), Some(&a));
    assert_eq!(report.tail_len, b"older-unsynced".len() as u64);
    assert_eq!(read_all(&fs, &b), b"newer-then-synced");
}

#[test]
fn unsynced_append_follows_durable_source_name_before_rename_commit() {
    let mut fs = SimFs::with_seed(43);
    let source = setup_synced_file(&mut fs, "source");
    let destination = at("destination");

    fs.append(&source, b"tail").expect("append source");
    fs.rename(&source, &destination).expect("rename");

    let report = fs.crash();
    assert_eq!(report.torn_path.as_ref(), Some(&source));
    fs.open(&source).expect("durable source name restored");
    assert!(matches!(
        fs.open(&destination),
        Err(StorageError::NotFound(_))
    ));
}

#[test]
fn unsynced_append_follows_destination_after_rename_commit() {
    let mut fs = SimFs::with_seed(47);
    let source = setup_synced_file(&mut fs, "source");
    let destination = at("destination");

    fs.append(&source, b"tail").expect("append source");
    fs.rename(&source, &destination).expect("rename");
    fs.sync_dir(ROOT).expect("commit rename");

    let report = fs.crash();
    assert_eq!(report.torn_path.as_ref(), Some(&destination));
    assert!(matches!(fs.open(&source), Err(StorageError::NotFound(_))));
    fs.open(&destination)
        .expect("durable destination name survives");
}

#[test]
fn rename_overwrite_collects_unreachable_live_inodes() {
    let mut fs = SimFs::with_seed(53);
    let a = at("a");
    let b = at("b");
    let c = at("c");
    for path in [&a, &b, &c] {
        fs.create(path).expect("create live generation");
    }
    assert_eq!(fs.inode_count(), 3);

    fs.rename(&a, &b).expect("overwrite b");
    assert_eq!(fs.inode_count(), 2);
    fs.rename(&b, &c).expect("overwrite c");
    assert_eq!(fs.inode_count(), 1);
}

#[test]
fn cross_directory_rename_requires_both_directory_syncs() {
    let mut fs = SimFs::with_seed(59);
    let source_dir: &[u8] = b"/source-dir";
    let destination_dir: &[u8] = b"/destination-dir";
    let source = FilePath::new(source_dir, b"file");
    let destination = FilePath::new(destination_dir, b"file");

    fs.create(&source).expect("create source");
    fs.append(&source, b"content").expect("append source");
    fs.sync_file(&source).expect("sync source data");
    fs.sync_dir(source_dir).expect("sync source name");

    fs.rename(&source, &destination)
        .expect("cross-directory rename");
    fs.sync_dir(source_dir).expect("commit source unlink");
    fs.sync_dir(destination_dir)
        .expect("commit destination link");

    fs.crash();
    assert!(matches!(fs.open(&source), Err(StorageError::NotFound(_))));
    fs.open(&destination).expect("destination survives");
    assert_eq!(read_all(&fs, &destination), b"content");
}

#[test]
fn each_error_has_its_cause() {
    let mut fs = SimFs::with_seed(61);
    let p = at("p");
    assert_eq!(fs.append(&p, b"x"), Err(StorageError::NotFound(at("p"))));
    assert_eq!(fs.delete(&p), Err(StorageError::NotFound(at("p"))));
    assert_eq!(fs.len(&p), Err(StorageError::NotFound(at("p"))));
    fs.create(&p).expect("create");
    assert_eq!(fs.create(&p), Err(StorageError::AlreadyExists(at("p"))));
    fs.append(&p, b"abc").expect("append");
    assert_eq!(
        fs.write_at(&p, 2, b"xy"),
        Err(StorageError::OutOfBounds {
            path: at("p"),
            offset: 2,
            len: 3
        })
    );
    fs.write_at(&p, 1, b"xy").expect("write");
    assert_eq!(read_all(&fs, &p), b"axy");
    assert_eq!(
        fs.read_at(&p, 4, 1),
        Err(StorageError::OutOfBounds {
            path: at("p"),
            offset: 4,
            len: 3
        })
    );
    assert_eq!(fs.read_at(&p, 1, 10), Ok(b"xy".to_vec()));
    assert_eq!(fs.op_count(), 3);
}

/// A mixed workload, crashed after `crash_after` operations; what is left, as a hash.
fn post_crash_hash(seed: u64, crash_after: u64) -> u64 {
    let mut fs = SimFs::with_seed(seed);
    fs.arm_crash_after(crash_after);

    let a = at("a");
    let b = at("b");
    let c = at("c");
    let _ = fs.create(&a);
    let _ = fs.sync_dir(ROOT);
    let _ = fs.append(&a, b"alpha-payload");
    let _ = fs.sync_file(&a);
    let _ = fs.append(&a, b"-unsynced-tail");
    let _ = fs.create(&b);
    let _ = fs.sync_dir(ROOT);
    let _ = fs.append(&b, b"bravo");
    let _ = fs.sync_file(&b);
    let _ = fs.rename(&b, &c);
    let _ = fs.append(&a, b"-more");

    if fs.last_report().is_none() {
        fs.crash();
    }
    hash_namespace(&fs)
}

fn hash_namespace(fs: &SimFs) -> u64 {
    let mut hasher = xxhash_rust::xxh3::Xxh3::new();
    let mut entries = fs.list(ROOT).unwrap_or_default();
    entries.sort_by(|x, y| (&x.dir, &x.name).cmp(&(&y.dir, &y.name)));
    for p in entries {
        hasher.update(&p.dir);
        hasher.update(b"/");
        hasher.update(&p.name);
        let len = fs.len(&p).unwrap_or(0) as usize;
        hasher.update(&fs.read_at(&p, 0, len).unwrap_or_default());
        hasher.update(&[0xff]);
    }
    hasher.digest()
}

#[test]
fn crash_is_deterministic_across_runs() {
    for crash_after in 1..=11u64 {
        let h1 = post_crash_hash(1234, crash_after);
        let h2 = post_crash_hash(1234, crash_after);
        assert_eq!(
            h1, h2,
            "post-crash namespace hash differed between identical runs at crash_after={crash_after}"
        );
    }
}

#[test]
fn seed_influences_torn_tail() {
    let hashes: Vec<u64> = (0..64u64).map(|s| post_crash_hash(s, 11)).collect();
    let first = hashes[0];
    assert!(
        hashes.iter().any(|&h| h != first),
        "no seed diverged: the crash RNG is not influencing the torn tail"
    );
}

#[test]
fn listing_is_sorted_and_of_one_directory() {
    let mut fs = SimFs::with_seed(67);
    for name in ["c", "a", "b"] {
        fs.create(&at(name)).expect("create");
    }
    fs.create(&FilePath::new(b"/other", b"x")).expect("create");
    let names: Vec<Vec<u8>> = fs
        .list(ROOT)
        .expect("list")
        .into_iter()
        .map(|p| p.name)
        .collect();
    assert_eq!(names, vec![b"a".to_vec(), b"b".to_vec(), b"c".to_vec()]);
}

#[test]
fn the_seed_decides_how_a_crash_tears() {
    for seed in 0..40u64 {
        let mut fs = SimFs::with_seed(seed);
        let p = setup_synced_file(&mut fs, "log");
        let before = read_all(&fs, &p);
        let tail = b"0123456789";
        fs.append(&p, tail).unwrap();
        let report = fs.crash();

        let mut dice = StdRng::seed_from_u64(seed);
        let mut want = before.clone();
        let mode = match dice.gen_range(0u8..3) {
            0 => TearMode::Drop,
            1 => {
                let kept = dice.gen_range(0..=tail.len());
                want.extend_from_slice(&tail[..kept]);
                TearMode::Truncate
            }
            _ => {
                let bit = dice.gen_range(0..(tail.len() as u64 * 8)) as usize;
                want.extend_from_slice(tail);
                want[before.len() + bit / 8] ^= 1 << (bit % 8);
                TearMode::BitFlip
            }
        };
        assert_eq!(report.tear_mode, mode);
        assert_eq!(read_all(&fs, &p), want);
    }
}

#[test]
fn directories_are_compared_by_components() {
    let mut fs = SimFs::with_seed(31);
    let plain = FilePath::new(b"/db", b"a");
    fs.create(&FilePath::new(b"/db/", b"a")).unwrap();
    assert!(fs.open(&plain).is_ok());
    assert!(fs.open(&FilePath::new(b"//db/.//", b"a")).is_ok());
    assert!(fs.open(&FilePath::new(b"db", b"a")).is_err());
    assert!(fs.open(&FilePath::new(b"/db/../db", b"a")).is_err());
    assert_eq!(fs.list(b"/db/.").unwrap().len(), 1);
    fs.sync_dir(b"/./db").unwrap();
    fs.crash();
    assert!(fs.open(&plain).is_ok());

    fs.create(&FilePath::new(b"./x", b"a")).unwrap();
    assert!(fs.open(&FilePath::new(b"x", b"a")).is_err());
    assert!(fs.open(&FilePath::new(b"./x/.", b"a")).is_ok());
    assert_eq!(FilePath::new(b"/db//", b"a").spelled(), b"/db//a");
    assert_eq!(FilePath::new(b"/", b"a").spelled(), b"/a");
    assert_eq!(FilePath::new(b"", b"a").spelled(), b"a");
    assert_eq!(FilePath::new(b"/db/", b"").spelled(), b"/db/");
}

#[test]
fn a_path_is_its_components_however_it_is_split() {
    let mut fs = SimFs::with_seed(32);
    fs.create(&FilePath::new(b"/d", b"a/b")).unwrap();
    assert!(fs.open(&FilePath::new(b"/d/a", b"b")).is_ok());
    assert!(fs.open(&FilePath::new(b"/d/a/b", b"")).is_ok());
    assert!(fs.open(&FilePath::new(b"/elsewhere", b"/d/a/./b")).is_ok());
    assert_eq!(fs.list(b"/d").unwrap().len(), 0);
    assert_eq!(fs.list(b"/d/a").unwrap().len(), 1);
    assert!(fs.create(&FilePath::new(b"/d/a/", b"./b")).is_err());
}

#[test]
fn parents_sort_before_names() {
    let mut fs = SimFs::with_seed(33);
    for name in ["-x", "..", "a"] {
        fs.create(&at(name)).unwrap();
    }
    let names: Vec<Vec<u8>> = fs.list(ROOT).unwrap().iter().map(|p| p.base()).collect();
    assert_eq!(names, vec![b"..".to_vec(), b"-x".to_vec(), b"a".to_vec()]);
}
