//! Groups of writes that share one sync.

use std::collections::BTreeMap;

use accretion_db::db::group::GroupWrite;
use accretion_db::memtable::ValueKind;
use accretion_db::range::KeyRange;
use accretion_db::storage::{SimFs, Storage};
use accretion_db::testkit::{crash_sweep, CrashInjector};
use accretion_db::{Db, Durability, Options};

const DIR: &[u8] = b"/db";

fn options() -> Options {
    Options {
        durability: Durability::GroupCommit,
        memtable_size: 256,
        tier_fanout: 4,
    }
}

fn put(key: &str, value: &str) -> GroupWrite {
    GroupWrite {
        key: key.as_bytes().to_vec(),
        kind: ValueKind::Value(value.as_bytes().to_vec()),
    }
}

fn delete(key: &str) -> GroupWrite {
    GroupWrite {
        key: key.as_bytes().to_vec(),
        kind: ValueKind::Tombstone,
    }
}

fn open<S: Storage>(fs: S) -> Option<Db<S>> {
    Db::open_on(fs, DIR, options()).ok()
}

fn contents<S: Storage>(db: &mut Db<S>) -> BTreeMap<Vec<u8>, Vec<u8>> {
    db.scan(&KeyRange::full()).unwrap().collect().into_iter().collect()
}

fn apply(model: &mut BTreeMap<Vec<u8>, Vec<u8>>, w: &GroupWrite) {
    match &w.kind {
        ValueKind::Value(v) => {
            model.insert(w.key.clone(), v.clone());
        }
        ValueKind::Tombstone => {
            model.remove(&w.key);
        }
    }
}

#[test]
fn a_group_is_its_writes_in_order() {
    let mut db = open(SimFs::with_seed(1)).unwrap();
    let writes = vec![put("a", "1"), put("b", "2"), put("a", "3"), delete("b")];
    assert!(db.can_write_group(&writes));
    db.write_group(&writes).unwrap();
    assert_eq!(db.get(b"a").unwrap().as_deref(), Some(&b"3"[..]));
    assert_eq!(db.get(b"b").unwrap(), None);
    assert!(!db.can_write_group(&Vec::new()));
}

#[test]
fn a_group_takes_one_sync() {
    let writes: Vec<GroupWrite> = (0..5).map(|i| put(&format!("k{i}"), "v")).collect();

    let mut together = open(SimFs::with_seed(1)).unwrap();
    let start = together.storage().op_count();
    together.write_group(&writes).unwrap();
    let grouped = together.storage().op_count() - start;

    let mut apart = open(SimFs::with_seed(1)).unwrap();
    let start = apart.storage().op_count();
    for w in &writes {
        apart.put(&w.key, b"v").unwrap();
    }
    let single = apart.storage().op_count() - start;
    assert_eq!(single, 2 * 5);
    assert_eq!(single - grouped, 4);
    assert_eq!(contents(&mut together), contents(&mut apart));
}

#[test]
fn groups_survive_a_crash_up_to_some_write() {
    let groups: Vec<Vec<(String, Option<String>)>> = (0..6)
        .map(|g| {
            (0..4)
                .map(|i| {
                    let key = format!("key{}", (g * 3 + i) % 7);
                    let value = if (g + i) % 5 == 4 {
                        None
                    } else {
                        Some(format!("value-{g}-{i}-padding-to-fill-the-memtable"))
                    };
                    (key, value)
                })
                .collect()
        })
        .collect();
    let as_writes = |g: &Vec<(String, Option<String>)>| -> Vec<GroupWrite> {
        g.iter()
            .map(|(k, v)| match v {
                Some(v) => put(k, v),
                None => delete(k),
            })
            .collect()
    };

    for seed in [1u64, 7, 42] {
        let points = crash_sweep(
            seed,
            |fs: CrashInjector| {
                let mut db = match Db::open_on(fs, DIR, options()) {
                    Ok(db) => db,
                    Err((_, fs)) => return fs,
                };
                for g in &groups {
                    if db.write_group(&as_writes(g)).is_err() {
                        break;
                    }
                }
                db.into_storage()
            },
            |fs, report| {
                let mut db = open(fs).expect("recovers");
                let found = contents(&mut db);
                let mut model = BTreeMap::new();
                let mut states = vec![model.clone()];
                for g in &groups {
                    for w in &as_writes(g) {
                        apply(&mut model, w);
                        states.push(model.clone());
                    }
                }
                assert!(
                    states.contains(&found),
                    "not a prefix after {} operations",
                    report.ops_before_crash
                );
            },
        );
        assert!(points > 20, "{points} crash points");
    }
}
