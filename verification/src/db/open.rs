//! Opening a database: manifest, then log, then what the log has goes into memory.

use std::collections::HashMap;

use vstd::prelude::*;

use super::gate::WriteState;
use super::layout;
use super::layout::Layout;
use super::record;
use super::state;
use super::{Db, DbError, Options};
use crate::codec;
use crate::compaction;
use crate::manifest;
use crate::manifest::{Manifest, ManifestError, VersionView};
use crate::memtable;
use crate::memtable::MemtableSet;
use crate::model;
use crate::model::Rec;
use crate::names;
use crate::sstable::{Corruption, SsTableError};
use crate::storage;
use crate::storage::facts;
use crate::storage::plain;
use crate::storage::{Disk, FsState, PathView, SimFs, Storage, StorageResult};
use crate::tables;
use crate::wal;
use crate::wal::recovery;
use crate::wal::segment;
use crate::wal::{Recovered, Wal, WalOptions, DEFAULT_SEGMENT_SIZE};

verus! {

broadcast use vstd::std_specs::hash::group_hash_axioms;

/// The index of the first record that cannot be read is `i`, for the reason `e`.
pub open spec fn first_unreadable(records: Seq<Seq<u8>>, i: int, e: Corruption) -> bool {
    &&& 0 <= i < records.len()
    &&& state::all_decode(records.take(i))
    &&& record::parsed_record(records[i]) == Err::<Rec, Corruption>(e)
}

/// Reads the log records into a memtable, of every key the newest version, and
/// finds the next sequence number, at least `floor`.
fn replay_records(records: &Vec<Vec<u8>>, memtable_size: usize, floor: u64) -> (r: Result<
    (MemtableSet, u64),
    Corruption,
>)
    ensures
        match r {
            Ok((set, next)) => {
                let found = codec::byte_seqs(records@);
                &&& state::all_decode(found)
                &&& set.inv()
                &&& set.limit() == memtable_size
                &&& set.waiting().len() == 0
                &&& set.freezes() == 0
                &&& set.buffered().len() > 0 ==> next > 0
                &&& forall|key: Seq<u8>| #[trigger]
                    model::find(set.buffered(), key) == state::newest(state::decoded(found), key)
                &&& next == state::next_after(state::decoded(found), floor)
            },
            Err(e) => exists|i: int| #[trigger]
                first_unreadable(codec::byte_seqs(records@), i, e),
        },
{
    let mut set = MemtableSet::new(memtable_size);
    let mut next: u64 = floor;
    let mut i: usize = 0;
    let ghost all = codec::byte_seqs(records@);
    assert(state::decoded(all.take(0)) =~= Seq::empty());
    while i < records.len()
        invariant
            i <= records.len(),
            all == codec::byte_seqs(records@),
            state::all_decode(all.take(i as int)),
            set.inv(),
            set.limit() == memtable_size,
            set.waiting().len() == 0,
            set.freezes() == 0,
            set.buffered().len() > 0 ==> next > 0,
            forall|key: Seq<u8>| #[trigger]
                model::find(set.buffered(), key) == state::newest(
                    state::decoded(all.take(i as int)),
                    key,
                ),
            next == state::next_after(state::decoded(all.take(i as int)), floor),
        decreases records.len() - i,
    {
        assert(all[i as int] == records@[i as int]@);
        let rec = match record::decode_record(&records[i]) {
            Ok(rec) => rec,
            Err(e) => {
                assert(first_unreadable(all, i as int, e));
                return Err(e);
            },
        };
        let ghost before = state::decoded(all.take(i as int));
        let ghost after = state::decoded(all.take(i as int + 1));
        proof {
            assert(all.take(i as int + 1) =~= all.take(i as int).push(all[i as int]));
            assert(after =~= before.push(rec@));
            assert(after.drop_last() =~= before);
            assert forall|j: int| 0 <= j < i + 1 implies record::parsed_record(
                #[trigger] all.take(i as int + 1)[j],
            ) is Ok by {
                if j < i {
                    assert(all.take(i as int)[j] == all[j]);
                }
            }
            assert forall|key: Seq<u8>| #[trigger] state::newest(after, key) == if rec@.key == key
                && !(state::newest(before, key) is Some && state::newest(before, key)->0.seq
                >= rec@.seq) {
                Some(rec@)
            } else {
                state::newest(before, key)
            } by {
                state::lemma_newest_push(before, rec@, key);
            }
        }
        if rec.seq >= next {
            next = if rec.seq < u64::MAX {
                rec.seq + 1
            } else {
                u64::MAX
            };
        }
        set.insert_if_newer(rec.key, rec.value);
        i = i + 1;
    }
    assert(all.take(all.len() as int) =~= all);
    Ok((set, next))
}

/// The backend as opening left it.
pub open spec fn left_by<S: Storage>(r: Result<Db<S>, (DbError, S)>) -> Disk {
    match r {
        Ok(db) => db.disk(),
        Err((_, storage)) => storage.disk(),
    }
}

/// The error that opening reports tells what is wrong.
pub open spec fn open_failure(pre: Disk, post: Disk, dir: Seq<u8>, e: DbError) -> bool {
    let p = manifest::manifest_at(dir);
    match e {
        DbError::Storage(_) => !(post.room() && pre.reliable && !pre.halted && legible(
            pre.fs,
            dir,
        )),
        DbError::Manifest(ManifestError::Storage(_)) => !(post.room() && pre.reliable && !pre.halted
            && legible(pre.fs, dir)),
        DbError::Manifest(ManifestError::Corrupt(c)) => post.room() ==> pre.fs.live.contains_key(p)
            && manifest::record::parsed_version(pre.fs.content(p)) == Err::<
            VersionView,
            Corruption,
        >(c),
        DbError::Manifest(ManifestError::TooLarge) => !post.room(),
        DbError::SsTable(SsTableError::Corrupt(c)) => post.room() && !post.halted
            && recovery::plainly_named(pre.fs, dir) ==> exists|i: int| #[trigger]
            first_unreadable(recovery::replay(recovery::seen_in(pre.fs, dir)).records, i, c),
        _ => false,
    }
}

/// What opening makes of the database in `dir` whose manifest says `v` and whose log
/// is `files`.
pub open spec fn open_image<S: Storage>(
    pre: Disk,
    dir: Seq<u8>,
    r: Result<Db<S>, (DbError, S)>,
    v: VersionView,
    files: Seq<(u64, Seq<u8>)>,
) -> bool {
    let post = left_by(r);
    let m = state::image_contents(pre.fs, dir, v, files);
    let records = recovery::replay(files).records;
    &&& r is Ok && !post.halted ==> {
        let db = r->Ok_0;
        &&& db.good()
        &&& db.contents() == m
        &&& db.version() == v
        &&& db.log() == records
        &&& db.next_seq() == state::next_after(state::decoded(records), v.next_seq)
        &&& db.layout() == layout::layout_of(pre.fs, dir, v)
        &&& db.ids_free()
        &&& manifest::swept(post.fs, dir, seq![v])
        &&& db.last_segment() == wal::adopted(files).last().0
    }
    &&& recovery::log_stable(pre.fs, dir, files) ==> state::recovers_to(post.fs, dir, m)
    &&& pre.reliable && !pre.halted && recovery::fits_memory(pre.fs, dir) && state::manifest_fits_memory(
        pre.fs,
        dir,
    ) ==> r is Ok
        && !post.halted
}

/// The files of the database in `dir` can be read: segments are named by their ids, and
/// each file that opening reads fits into memory.
pub open spec fn legible(fs: FsState, dir: Seq<u8>) -> bool {
    &&& recovery::plainly_named(fs, dir)
    &&& recovery::fits_memory(fs, dir)
    &&& state::manifest_fits_memory(fs, dir)
}

/// The files of the database in `dir` make sense: the manifest, if there is one, says a
/// version, and each record of the log is one of a write.
pub open spec fn openable(fs: FsState, dir: Seq<u8>) -> bool {
    let p = manifest::manifest_at(dir);
    &&& fs.live.contains_key(p) ==> manifest::record::parsed_version(fs.content(p)) is Ok
    &&& state::all_decode(recovery::replay(recovery::seen_in(fs, dir)).records)
}

/// What opening `dir` makes of it.
pub open spec fn open_outcome<S: Storage>(
    pre: Disk,
    dir: Seq<u8>,
    options: Options,
    r: Result<Db<S>, (DbError, S)>,
) -> bool {
    let post = left_by(r);
    &&& post.dependable
    &&& post.reliable == pre.reliable
    &&& storage::used(pre, post, 3)
    &&& post.room() ==> facts::sound(post.fs)
    &&& r is Ok ==> {
        let db = r->Ok_0;
        &&& db.home() == dir
        &&& db.settings() == options
        &&& db.frozen_tables() == 0
        &&& db.in_step()
        &&& recovery::plainly_named(pre.fs, dir) ==> db.inv()
        &&& post.room() && !post.halted && pre.fs.live.contains_key(manifest::manifest_at(dir))
            ==> manifest::record::parsed_version(pre.fs.content(manifest::manifest_at(dir)))
            == Ok::<VersionView, Corruption>(db.version())
        &&& post.room() && !post.halted && recovery::plainly_named(pre.fs, dir) ==> {
            let records = recovery::replay(recovery::seen_in(pre.fs, dir)).records;
            &&& state::all_decode(records)
            &&& db.log() == records
            &&& recovery::log_on(pre.fs, dir, recovery::seen_in(pre.fs, dir)) ==> db.is_anchored()
            &&& recovery::log_stable(pre.fs, dir, recovery::seen_in(pre.fs, dir)) ==> db.is_safe()
            &&& model::is_run(db.active())
            &&& forall|key: Seq<u8>| #[trigger]
                model::find(db.active(), key) == state::newest(state::decoded(records), key)
        }
    }
    &&& r matches Err((e, storage)) ==> storage.wf() && open_failure(pre, post, dir, e)
    &&& post.room() && pre.reliable && !pre.halted && legible(pre.fs, dir) ==> !post.halted && (r
        is Ok <==> openable(pre.fs, dir))
    &&& forall|v: VersionView, files: Seq<(u64, Seq<u8>)>| #[trigger]
        state::image(pre.fs, dir, v, files) && post.room() ==> open_image(pre, dir, r, v, files)
}

/// The log stays as it is while the manifest is opened.
proof fn lemma_log_through_manifest(d0: Disk, d1: Disk, dir: Seq<u8>)
    requires
        facts::carried(d0, d1, manifest::manifest_names(dir)),
        d1.room(),
        !d1.halted,
        facts::sound(d0.fs),
        recovery::plainly_named(d0.fs, dir),
    ensures
        recovery::plainly_named(d1.fs, dir),
        forall|v: Seq<(u64, PathView)>| #[trigger]
            segment::lists_segments(d1.fs, dir, v) ==> recovery::seen_in(d1.fs, dir)
                == recovery::seen_in(d0.fs, dir),
        recovery::fits_memory(d0.fs, dir) ==> recovery::fits_memory(d1.fs, dir),
        ({
            let files = recovery::seen_in(d0.fs, dir);
            &&& recovery::log_on(d0.fs, dir, files) ==> recovery::log_on(d1.fs, dir, files)
            &&& recovery::log_stable(d0.fs, dir, files) ==> recovery::log_stable(
                d1.fs,
                dir,
                files,
            )
        }),
{
    let t = manifest::manifest_names(dir);
    state::lemma_log_names_apart(dir);
    assert forall|p: PathView| p.0 == dir && names::segment_id(p.1) is Some implies !(
    #[trigger] t.contains(p)) by {
        if t.contains(p) {
            assert(compaction::layout_names(dir).contains(p));
        }
    }
    if recovery::log_on(d0.fs, dir, recovery::seen_in(d0.fs, dir)) {
        recovery::lemma_log_calm(d0.fs, d1.fs, t, dir, recovery::seen_in(d0.fs, dir));
    }
    if recovery::log_stable(d0.fs, dir, recovery::seen_in(d0.fs, dir)) {
        recovery::lemma_log_kept(d0.fs, d1.fs, t, dir, recovery::seen_in(d0.fs, dir));
    }
    assert forall|p: PathView| #[trigger]
        d1.fs.live.contains_key(p) && p.0 == dir && names::segment_id(p.1) is Some implies p
        == segment::segment_at(dir, names::segment_id(p.1)->0) by {
        assert(!t.contains(p));
        assert(facts::is_live(d1.fs, p));
        assert(facts::is_live(d0.fs, p));
        assert(d0.fs.live.contains_key(p));
    }
    assert forall|p: PathView| #[trigger]
        d1.fs.live.contains_key(p) && p.0 == dir && names::segment_id(p.1)
            is Some implies d0.fs.live.contains_key(p) && d1.fs.content(p) == d0.fs.content(
        p,
    ) by {
        assert(!t.contains(p));
        assert(facts::is_live(d1.fs, p));
        assert(facts::is_live(d0.fs, p));
        assert(facts::visible(d0.fs, p, d0.fs.data[d0.fs.live[p]]));
        assert(facts::visible(d1.fs, p, d0.fs.data[d0.fs.live[p]]));
    }
    assert forall|v: Seq<(u64, PathView)>| #[trigger]
        segment::lists_segments(d1.fs, dir, v) implies recovery::seen_in(d1.fs, dir)
        == recovery::seen_in(d0.fs, dir) by {
        recovery::lemma_listed_seen(d1.fs, dir, v);
        let files = recovery::seen_in(d1.fs, dir);
        assert forall|i: int| 0 <= i < files.len() implies d0.fs.live.contains_key(
            segment::segment_at(dir, (#[trigger] files[i]).0),
        ) && d0.fs.content(segment::segment_at(dir, files[i].0)) == files[i].1 by {
            let p = segment::segment_at(dir, files[i].0);
            names::lemma_segment_name(files[i].0);
            assert(!t.contains(p));
            assert(facts::is_live(d1.fs, p));
            assert(facts::is_live(d0.fs, p));
            assert(facts::visible(d0.fs, p, d0.fs.data[d0.fs.live[p]]));
            assert(facts::visible(d1.fs, p, d0.fs.data[d0.fs.live[p]]));
        }
        assert forall|p: PathView| #[trigger]
            facts::is_live(d0.fs, p) && p.0 == dir && names::segment_id(p.1)
                is Some implies exists|i: int|
            0 <= i < files.len() && p == segment::segment_at(dir, (#[trigger] files[i]).0) by {
            assert(!t.contains(p));
            assert(facts::visible(d0.fs, p, d0.fs.data[d0.fs.live[p]]));
            assert(facts::visible(d1.fs, p, d0.fs.data[d0.fs.live[p]]));
            assert(facts::is_live(d1.fs, p));
        }
        assert(recovery::log_seen(d0.fs, dir, files));
        recovery::lemma_seen_unique(d0.fs, dir, recovery::seen_in(d0.fs, dir), files);
    }
}

/// What opening manifest and log makes of the database in `dir`.
proof fn lemma_reopened(
    d0: Disk,
    d1: Disk,
    d2: Disk,
    dir: Seq<u8>,
    opened: manifest::Result<Manifest>,
    reopened: StorageResult<(Wal, Recovered)>,
    v: VersionView,
    files: Seq<(u64, Seq<u8>)>,
) -> (files2: Seq<(u64, Seq<u8>)>)
    requires
        facts::carried(d0, d1, manifest::manifest_names(dir)),
        manifest::open_outcome(d0, d1, dir, opened),
        opened is Ok,
        wal::open_outcome(d1, d2, dir, reopened),
        reopened matches Ok((log, _)) ==> log.home() == dir,
        d2.room(),
        facts::sound(d0.fs),
        state::image(d0.fs, dir, v, files),
    ensures
        opened->Ok_0.version() == v,
        recovery::log_stable(d0.fs, dir, files) ==> state::recovers_to(
            d2.fs,
            dir,
            state::image_contents(d0.fs, dir, v, files),
        ),
        d0.reliable && !d0.halted && recovery::fits_memory(d0.fs, dir) ==> reopened is Ok
            && !d2.halted,
        !d2.halted && reopened is Ok ==> {
            &&& recovery::replay(files2).records == recovery::replay(files).records
            &&& reopened->Ok_0.0.records() == recovery::replay(files).records
            &&& reopened->Ok_0.1@.records == recovery::replay(files).records
            &&& state::image(d2.fs, dir, v, files2)
            &&& state::image_contents(d2.fs, dir, v, files2) == state::image_contents(
                d0.fs,
                dir,
                v,
                files,
            )
            &&& manifest::says(d2.fs, dir, v)
            &&& recovery::log_stable(d0.fs, dir, files) ==> recovery::log_stable(
                d2.fs,
                dir,
                files2,
            )
            &&& tables::stack_of(d2.fs, dir, v) == tables::stack_of(d0.fs, dir, v)
            &&& wal::log_model(reopened->Ok_0.0.segments()) == wal::adopted(files)
        },
{
    state::lemma_manifest_opened(d0, d1, dir, opened, v, files);
    if !d1.halted || recovery::log_stable(d0.fs, dir, files) {
        let files2 = state::lemma_log_opened(d1, d2, dir, reopened, v, files);
        if recovery::fits_memory(d0.fs, dir) {
            assert forall|p: PathView| #[trigger]
                d1.fs.live.contains_key(p) && p.0 == dir && names::segment_id(p.1)
                    is Some implies d1.fs.content(p).len() <= usize::MAX by {
                assert(facts::is_live(d1.fs, p));
                let i = choose|i: int|
                    0 <= i < files.len() && p == segment::segment_at(dir, (#[trigger] files[i]).0);
                assert(d0.fs.live.contains_key(p));
                assert(d0.fs.content(p) == files[i].1);
                assert(d1.fs.content(p) == files[i].1);
            }
        }
        files2
    } else {
        files
    }
}

/// The names of the tables to come are free once garbage was collected.
proof fn lemma_ids_collected(fs: FsState, dir: Seq<u8>, v: VersionView)
    requires
        manifest::swept(fs, dir, seq![v]),
        tables::metas_good(fs, dir, v),
    ensures
        super::ids_ahead(fs, dir, seq![v]),
{
    let alive = seq![v];
    assert forall|i: int, id: u64|
        #![trigger alive[i].references(id)]
        0 <= i < alive.len() && alive[i].references(id) implies id < v.next_table_id by {
        tables::lemma_referenced_below(fs, dir, v, id);
    }
    assert(super::issued(alive));
    super::lemma_ids_ahead(fs, dir, alive, alive);
}

/// What opening manifest and log and collecting garbage makes of the database in `dir`.
#[verifier::rlimit(50)]
proof fn lemma_collected(
    d0: Disk,
    d1: Disk,
    d2: Disk,
    d3: Disk,
    dir: Seq<u8>,
    opened: manifest::Result<Manifest>,
    reopened: StorageResult<(Wal, Recovered)>,
    v: VersionView,
    files: Seq<(u64, Seq<u8>)>,
) -> (files2: Seq<(u64, Seq<u8>)>)
    requires
        facts::carried(d0, d1, manifest::manifest_names(dir)),
        manifest::open_outcome(d0, d1, dir, opened),
        opened is Ok,
        wal::open_outcome(d1, d2, dir, reopened),
        reopened is Ok,
        reopened->Ok_0.0.home() == dir,
        facts::carried(d2, d3, manifest::garbage_names(dir, seq![opened->Ok_0.version()])),
        d2.reliable == d0.reliable,
        d3.room(),
        facts::sound(d0.fs),
        state::image(d0.fs, dir, v, files),
    ensures
        opened->Ok_0.version() == v,
        recovery::log_stable(d0.fs, dir, files) ==> state::recovers_to(
            d3.fs,
            dir,
            state::image_contents(d0.fs, dir, v, files),
        ),
        d0.reliable && !d0.halted && recovery::fits_memory(d0.fs, dir) ==> !d3.halted,
        !d3.halted ==> {
            &&& recovery::replay(files2).records == recovery::replay(files).records
            &&& reopened->Ok_0.0.records() == recovery::replay(files).records
            &&& reopened->Ok_0.1@.records == recovery::replay(files).records
            &&& state::image(d3.fs, dir, v, files2)
            &&& state::image_contents(d3.fs, dir, v, files2) == state::image_contents(
                d0.fs,
                dir,
                v,
                files,
            )
            &&& manifest::says(d3.fs, dir, v)
            &&& tables::stack_of(d3.fs, dir, v) == tables::stack_of(d0.fs, dir, v)
            &&& wal::log_model(reopened->Ok_0.0.segments()) == wal::adopted(files)
        },
{
    assert(d2.room() && d1.room());
    let files2 = lemma_reopened(d0, d1, d2, dir, opened, reopened, v, files);
    assert(facts::sound(d2.fs));
    if d2.halted {
        assert(d3.halted && d3.fs == d2.fs);
    } else if recovery::log_stable(d0.fs, dir, files) || !d3.halted {
        state::lemma_image_collected(d2.fs, d3.fs, dir, v, files2);
        if recovery::log_stable(d0.fs, dir, files) {
            lemma_recovers(d3.fs, dir, v, files2);
        }
    }
    files2
}

/// A durable database recovers to its contents.
proof fn lemma_recovers(fs: FsState, dir: Seq<u8>, v: VersionView, files: Seq<(u64, Seq<u8>)>)
    requires
        state::image(fs, dir, v, files),
        recovery::log_stable(fs, dir, files),
    ensures
        state::recovers_to(fs, dir, state::image_contents(fs, dir, v, files)),
{
}

impl<S: Storage> Db<S> {
    /// A database that was opened from files in order is in order.
    proof fn lemma_opened(
        &self,
        pre: Disk,
        v: VersionView,
        files: Seq<(u64, Seq<u8>)>,
        files2: Seq<(u64, Seq<u8>)>,
    )
        requires
            self.disk().room(),
            !self.disk().halted,
            self.manifest.version() == v,
            self.manifest.alive() == seq![v],
            manifest::swept(self.disk().fs, plain(self.dir@), seq![v]),
            self.memtables.layers() == seq![self.memtables.buffered()],
            self.memtables.waiting().len() == 0,
            model::is_run(self.memtables.buffered()),
            self.readers@ == Map::<u64, std::sync::Arc<crate::sstable::SsTableReader>>::empty(),
            self.wal.records() == recovery::replay(files).records,
            wal::log_model(self.wal.segments()) == wal::adopted(files),
            recovery::replay(files2).records == recovery::replay(files).records,
            state::image(pre.fs, plain(self.dir@), v, files),
            state::image(self.disk().fs, plain(self.dir@), v, files2),
            state::image_contents(self.disk().fs, plain(self.dir@), v, files2) == state::image_contents(
                pre.fs,
                plain(self.dir@),
                v,
                files,
            ),
            recovery::log_stable(pre.fs, plain(self.dir@), files) ==> state::recovers_to(
                self.disk().fs,
                plain(self.dir@),
                state::image_contents(pre.fs, plain(self.dir@), v, files),
            ),
            manifest::says(self.disk().fs, plain(self.dir@), v),
            tables::stack_of(self.disk().fs, plain(self.dir@), v) == tables::stack_of(
                pre.fs,
                plain(self.dir@),
                v,
            ),
            self.write@.next_seq == state::next_after(
                state::decoded(recovery::replay(files).records),
                v.next_seq,
            ),
            forall|key: Seq<u8>| #[trigger]
                model::find(self.memtables.buffered(), key) == state::newest(
                    state::decoded(recovery::replay(files).records),
                    key,
                ),
        ensures
            open_image(pre, plain(self.dir@), Ok::<Db<S>, (DbError, S)>(*self), v, files),
    {
        let fs = self.disk().fs;
        let dir = plain(self.dir@);
        let recs = state::decoded(recovery::replay(files).records);
        let buf = self.memtables.buffered();
        let next = self.write@.next_seq;
        state::lemma_next_after(recs, v.next_seq);
        state::lemma_order_opened(fs, dir, v, files2, buf, next);
        state::lemma_order_version(fs, dir, v, seq![buf], self.wal.records(), next);
        lemma_ids_collected(fs, dir, v);
        assert(wal::log_model(self.wal.segments()).last() == wal::adopted(files).last());
    }

    /// Opens (creating if needed) a database in `dir` on the given backend. Tables that
    /// no version references, as a crash may leave them, are deleted. A failed open hands
    /// the backend back.
    #[verifier::rlimit(60)]
    pub fn open_on(storage: S, dir: &[u8], options: Options) -> (r: Result<Db<S>, (DbError, S)>)
        requires
            storage.wf(),
            storage.disk().dependable,
            storage.disk().room() ==> facts::sound(storage.disk().fs),
            options.tier_fanout >= 2,
        ensures
            open_outcome(storage.disk(), plain(dir@), options, r),
    {
        let mut storage = storage;
        let ghost d0 = storage.disk();
        let ghost has = recovery::plainly_named(d0.fs, plain(dir@));
        let opened = Manifest::open(&mut storage, dir);
        let ghost d1 = storage.disk();
        proof {
            assert forall|v: VersionView, files: Seq<(u64, Seq<u8>)>| #[trigger]
                state::image(d0.fs, plain(dir@), v, files) && d1.room() implies {
                &&& opened matches Ok(m) ==> m.version() == v
                &&& !d1.halted || recovery::log_stable(d0.fs, plain(dir@), files) ==> {
                    &&& state::image(d1.fs, plain(dir@), v, files)
                    &&& state::image_contents(d1.fs, plain(dir@), v, files) == state::image_contents(
                        d0.fs,
                        plain(dir@),
                        v,
                        files,
                    )
                }
                &&& !d1.halted && opened is Ok ==> manifest::says(d1.fs, plain(dir@), v)
                &&& recovery::log_stable(d0.fs, plain(dir@), files) ==> recovery::log_stable(
                    d1.fs,
                    plain(dir@),
                    files,
                )
                &&& d0.reliable && !d0.halted && state::manifest_fits_memory(d0.fs, plain(dir@))
                    ==> opened is Ok
            } by {
                state::lemma_manifest_opened(d0, d1, plain(dir@), opened, v, files);
            }
            if d1.room() && !d1.halted && has {
                lemma_log_through_manifest(d0, d1, plain(dir@));
            }
        }
        let mut manifest: Manifest = match opened {
            Ok(m) => m,
            Err(e) => {
                return Err((DbError::Manifest(e), storage));
            },
        };
        let ghost current = manifest;
        let floor: u64 = manifest.current().next_seq;
        let wal_options = WalOptions {
            durability: options.durability,
            segment_size: DEFAULT_SEGMENT_SIZE,
        };
        let reopened = Wal::open(&mut storage, dir, wal_options);
        let ghost d2 = storage.disk();
        proof {
            assert forall|v: VersionView, files: Seq<(u64, Seq<u8>)>| #[trigger]
                state::image(d0.fs, plain(dir@), v, files) && d2.room() implies {
                let m = state::image_contents(d0.fs, plain(dir@), v, files);
                &&& recovery::log_stable(d0.fs, plain(dir@), files) ==> state::recovers_to(
                    d2.fs,
                    plain(dir@),
                    m,
                )
                &&& d0.reliable && !d0.halted && recovery::fits_memory(d0.fs, plain(dir@)) ==> reopened
                    is Ok && !d2.halted
                &&& !d2.halted && reopened is Ok ==> state::all_decode(reopened->Ok_0.1@.records)
            } by {
                lemma_reopened(
                    d0,
                    d1,
                    d2,
                    plain(dir@),
                    Ok(current),
                    reopened,
                    v,
                    files,
                );
            }
        }
        let (wal, recovered) = match reopened {
            Ok(both) => both,
            Err(e) => {
                return Err((DbError::Storage(e), storage));
            },
        };
        let replayed = replay_records(&recovered.records, options.memtable_size, floor);
        let (memtables, next_seq) = match replayed {
            Ok(both) => both,
            Err(e) => {
                assert(!state::all_decode(recovered@.records)) by {
                    let i = choose|i: int| #[trigger]
                        first_unreadable(codec::byte_seqs(recovered.records@), i, e);
                    assert(record::parsed_record(recovered@.records[i]) is Err);
                }
                return Err((DbError::SsTable(SsTableError::Corrupt(e)), storage));
            },
        };
        let collected = manifest.gc(&mut storage);
        let ghost d3 = storage.disk();
        proof {
            if manifest.retained().len() > 0 {
                assert(current.retained().contains(manifest.retained()[0]));
            }
            assert(manifest.alive() =~= seq![manifest.version()]);
            assert forall|v: VersionView, files: Seq<(u64, Seq<u8>)>| #[trigger]
                state::image(d0.fs, plain(dir@), v, files) && d3.room() implies {
                &&& recovery::log_stable(d0.fs, plain(dir@), files) ==> state::recovers_to(
                    d3.fs,
                    plain(dir@),
                    state::image_contents(d0.fs, plain(dir@), v, files),
                )
                &&& d0.reliable && !d0.halted && recovery::fits_memory(d0.fs, plain(dir@)) ==> collected
                    is Ok && !d3.halted
            } by {
                let files2 = lemma_collected(
                    d0,
                    d1,
                    d2,
                    d3,
                    plain(dir@),
                    Ok(current),
                    reopened,
                    v,
                    files,
                );
            }
        }
        match collected {
            Ok(_) => {},
            Err(e) => {
                return Err((DbError::Manifest(e), storage));
            },
        }
        let db = Db {
            storage,
            dir: codec::copied(dir),
            options,
            wal,
            memtables,
            manifest,
            readers: HashMap::new(),
            write: WriteState::new(next_seq),
        };
        proof {
            assert(db.memtables.layers() =~= seq![db.memtables.buffered()]);
            db.memtables.lemma_inv();
            if d3.room() && !d3.halted && has {
                state::lemma_garbage_apart(plain(dir@), manifest.version());
                db.wal.lemma_inv_kept(
                    d2.fs,
                    d3.fs,
                    manifest::garbage_names(plain(dir@), seq![manifest.version()]),
                );
            }
            if d3.room() && !d3.halted {
                assert forall|v: VersionView, files: Seq<(u64, Seq<u8>)>| #[trigger]
                    state::image(d0.fs, plain(dir@), v, files) implies open_image(
                    d0,
                    plain(dir@),
                    Ok::<Db<S>, (DbError, S)>(db),
                    v,
                    files,
                ) by {
                    let files2 = lemma_collected(
                        d0,
                        d1,
                        d2,
                        d3,
                        plain(dir@),
                        Ok(current),
                        reopened,
                        v,
                        files,
                    );
                    db.lemma_opened(d0, v, files, files2);
                }
            }
        }
        Ok(db)
    }
}

/// Opening finds what `dir` holds: a database opened from files that hold `m` has the
/// contents `m`, and it opens if the backend works and the files can be read.
pub proof fn lemma_open_finds<S: Storage>(
    pre: Disk,
    dir: Seq<u8>,
    options: Options,
    r: Result<Db<S>, (DbError, S)>,
    m: Map<Seq<u8>, Seq<u8>>,
)
    requires
        open_outcome(pre, dir, options, r),
        left_by(r).room(),
        state::holds(pre.fs, dir, m),
    ensures
        r is Ok && !left_by(r).halted ==> r->Ok_0.inv() && r->Ok_0.good() && r->Ok_0.contents()
            == m,
        pre.reliable && !pre.halted && recovery::fits_memory(pre.fs, dir)
            && state::manifest_fits_memory(pre.fs, dir) ==> r is Ok && !left_by(r).halted,
{
    let (v, files) = choose|v: VersionView, files: Seq<(u64, Seq<u8>)>| #[trigger]
        state::image(pre.fs, dir, v, files) && state::image_contents(pre.fs, dir, v, files) == m;
    assert(open_image(pre, dir, r, v, files));
    recovery::lemma_seen_named(pre.fs, dir, files);
}

/// Opening is safe: whatever becomes of it, files that recover to `m` still do, and
/// recovery may be interrupted and repeated.
pub proof fn lemma_open_keeps<S: Storage>(
    pre: Disk,
    dir: Seq<u8>,
    options: Options,
    r: Result<Db<S>, (DbError, S)>,
    m: Map<Seq<u8>, Seq<u8>>,
)
    requires
        open_outcome(pre, dir, options, r),
        left_by(r).room(),
        state::recovers_to(pre.fs, dir, m),
    ensures
        state::recovers_to(left_by(r).fs, dir, m),
        r is Ok && !left_by(r).halted ==> r->Ok_0.is_safe() && r->Ok_0.contents() == m,
{
    let (v, files) = choose|v: VersionView, files: Seq<(u64, Seq<u8>)>| #[trigger]
        state::image(pre.fs, dir, v, files) && recovery::log_stable(pre.fs, dir, files)
            && state::image_contents(pre.fs, dir, v, files) == m;
    assert(open_image(pre, dir, r, v, files));
    recovery::lemma_log_seen(pre.fs, dir, files);
}

/// Closing a good database and opening it again gives the same contents.
pub proof fn lemma_reopen<S: Storage>(
    db: &Db<S>,
    options: Options,
    r: Result<Db<S>, (DbError, S)>,
)
    requires
        db.inv(),
        db.good(),
        open_outcome(db.disk(), db.home(), options, r),
        left_by(r).room(),
    ensures
        r is Ok && !left_by(r).halted ==> r->Ok_0.inv() && r->Ok_0.good() && r->Ok_0.contents()
            == db.contents(),
{
    db.lemma_good_holds();
    lemma_open_finds(db.disk(), db.home(), options, r, db.contents());
}

/// What was acknowledged survives a power loss: opening what it leaves of a good
/// database with a durable log gives the contents as they were.
pub proof fn lemma_crash_reopen<S: Storage>(
    db: &Db<S>,
    pre: Disk,
    options: Options,
    r: Result<Db<S>, (DbError, S)>,
)
    requires
        db.inv(),
        db.good(),
        db.is_safe(),
        storage::power_loss(db.disk().fs, pre.fs),
        open_outcome(pre, db.home(), options, r),
        left_by(r).room(),
    ensures
        r is Ok && !left_by(r).halted ==> r->Ok_0.inv() && r->Ok_0.good() && r->Ok_0.is_safe()
            && r->Ok_0.contents() == db.contents(),
{
    db.lemma_survives_power_loss(pre.fs);
    let m = db.contents();
    let (v, files) = choose|v: VersionView, files: Seq<(u64, Seq<u8>)>| #[trigger]
        state::image(pre.fs, db.home(), v, files) && recovery::log_stable(
            pre.fs,
            db.home(),
            files,
        ) && state::image_contents(pre.fs, db.home(), v, files) == m;
    assert(state::holds(pre.fs, db.home(), m));
    lemma_open_finds(pre, db.home(), options, r, m);
    lemma_open_keeps(pre, db.home(), options, r, m);
}

impl Db<SimFs> {
    /// Opens an empty database on a new simulated backend with the given seed.
    pub fn open_sim(dir: &[u8], seed: u64, options: Options) -> (r: Result<
        Db<SimFs>,
        (DbError, SimFs),
    >)
        requires
            options.tier_fanout >= 2,
        ensures
            r is Ok,
            ({
                let db = r->Ok_0;
                &&& db.inv()
                &&& db.good()
                &&& db.is_safe()
                &&& db.ids_free()
                &&& db.last_segment() == 1
                &&& db.home() == plain(dir@)
                &&& db.settings() == options
                &&& db.contents() == Map::<Seq<u8>, Seq<u8>>::empty()
                &&& db.next_seq() == 1
                &&& db.log().len() == 0
                &&& db.memory() == seq![Seq::<Rec>::empty()]
                &&& db.layout() == (Layout {
                    version: VersionView::empty(),
                    runs: Seq::<Seq<Rec>>::empty(),
                })
                &&& db.disk().reliable
                &&& db.disk().spare >= u64::MAX - 4
            }),
    {
        let storage = SimFs::with_seed(seed);
        proof {
            let fs = storage.fs();
            state::lemma_fresh_directory(fs, plain(dir@));
            let none = Seq::<(u64, Seq<u8>)>::empty();
            let v = VersionView::empty();
            assert(recovery::log_on(fs, plain(dir@), none));
            assert(recovery::log_stable(fs, plain(dir@), none));
            assert(state::decoded(recovery::replay(none).records) =~= Seq::empty());
            assert(state::image_contents(fs, plain(dir@), v, none) =~= Map::empty());
        }
        let ghost pre = storage.disk();
        let r = Self::open_on(storage, dir, options);
        proof {
            let fs = pre.fs;
            let none = Seq::<(u64, Seq<u8>)>::empty();
            let v = VersionView::empty();
            assert(state::image(fs, plain(dir@), v, none));
            assert(open_image(pre, plain(dir@), r, v, none));
            recovery::lemma_log_seen(fs, plain(dir@), none);
            recovery::lemma_kept(none);
            let db = r->Ok_0;
            state::lemma_empty_version(fs, plain(dir@));
            db.lemma_memory();
            if db.active().len() > 0 {
                model::lemma_find_at(db.active(), 0);
                assert(state::newest(
                    state::decoded(recovery::replay(none).records),
                    db.active()[0].key,
                ) is None);
            }
            assert(db.active() =~= Seq::<Rec>::empty());
            assert(db.memory() =~= seq![Seq::<Rec>::empty()]);
        }
        r
    }
}

/// A database that was opened in a new directory has space for any number of writes that is small
/// against what the formats hold, if the backend works and has room for the files.
pub proof fn lemma_new_has_space<S: Storage>(
    pre: Disk,
    dir: Seq<u8>,
    options: Options,
    db: Db<S>,
    n: nat,
    bytes: nat,
)
    requires
        open_outcome(pre, dir, options, Ok::<Db<S>, (DbError, S)>(db)),
        forall|p: PathView| #[trigger] facts::named(pre.fs, p) ==> p.0 != dir,
        pre.reliable,
        !db.disk().halted,
        pre.spare > 3 + n * (6 + 4 * n),
        n < 0x4000_0000,
        bytes <= 0x4000_0000,
    ensures
        db.has_space(n, bytes),
        db.contents() == Map::<Seq<u8>, Seq<u8>>::empty(),
        db.next_seq() == 1,
        db.version() == VersionView::empty(),
{
    let v = VersionView::empty();
    let files = Seq::<(u64, Seq<u8>)>::empty();
    let r = Ok::<Db<S>, (DbError, S)>(db);
    let p = manifest::manifest_at(dir);
    assert(!facts::named(pre.fs, p));
    state::lemma_fresh_directory(pre.fs, dir);
    assert(0 <= n * (6 + 4 * n)) by (nonlinear_arith);
    assert(left_by(r).room());
    assert(open_image(pre, dir, r, v, files));
    recovery::lemma_seen_named(pre.fs, dir, files);
    let records = recovery::replay(files).records;
    assert(records =~= Seq::empty());
    assert(state::decoded(records) =~= Seq::empty());
    db.lemma_memory();
    assert(db.active().len() == 0) by {
        if db.active().len() > 0 {
            let key = db.active()[0].key;
            model::lemma_find_at(db.active(), 0);
            assert(model::find(db.active(), key) == state::newest(state::decoded(records), key));
        }
    }
    assert(db.memory() =~= seq![Seq::<Rec>::empty()]) by {
        assert(db.memory()[0] =~= Seq::<Rec>::empty());
    }
    layout::lemma_weight_empty();
    let l = db.layout();
    assert(l == layout::layout_of(pre.fs, dir, v));
    assert(manifest::newest_first(v.tiers) =~= Seq::empty());
    assert(l.tables() == 0);
    assert(l.runs =~= Seq::empty());
    assert(layout::weight(l.runs) == 0);
    assert(wal::adopted(files) =~= seq![(1u64, Seq::<u8>::empty())]) by {
        assert(recovery::kept(files) =~= files);
        assert(wal::trimmed(files) =~= files);
    }
    assert(db.last_segment() == 1);
    assert(n * (2 + 4 * (0 + 1 + n)) == n * (6 + 4 * n)) by (nonlinear_arith);
    assert(db.contents() =~= Map::<Seq<u8>, Seq<u8>>::empty()) by {
        assert(state::image_contents(pre.fs, dir, v, files) =~= Map::<Seq<u8>, Seq<u8>>::empty());
    }
}

/// Which databases can be read into memory: those with no segment and no manifest that is
/// longer than memory can hold.
pub proof fn lemma_fits_memory(fs: FsState, dir: Seq<u8>)
    requires
        forall|p: PathView| #[trigger]
            fs.live.contains_key(p) && p.0 == dir ==> fs.content(p).len() <= usize::MAX,
    ensures
        recovery::fits_memory(fs, dir),
        state::manifest_fits_memory(fs, dir),
{
}

/// When opening succeeds on a backend that works: exactly if the manifest, where there is one,
/// reads as a version, and each record that a replay of the log finds reads as a write. Where
/// only the manifest does not, the error tells what is wrong with it.
pub proof fn lemma_open_decides<S: Storage>(
    pre: Disk,
    dir: Seq<u8>,
    options: Options,
    r: Result<Db<S>, (DbError, S)>,
)
    requires
        open_outcome(pre, dir, options, r),
        left_by(r).room(),
        pre.reliable,
        !pre.halted,
        recovery::plainly_named(pre.fs, dir),
        forall|p: PathView| #[trigger]
            pre.fs.live.contains_key(p) && p.0 == dir ==> pre.fs.content(p).len() <= usize::MAX,
    ensures
        ({
            let p = manifest::manifest_at(dir);
            let version = manifest::record::parsed_version(pre.fs.content(p));
            let records = recovery::replay(recovery::seen_in(pre.fs, dir)).records;
            let readable = forall|i: int|
                0 <= i < records.len() ==> record::parsed_record(#[trigger] records[i]) is Ok;
            &&& r is Ok <==> (pre.fs.live.contains_key(p) ==> version is Ok) && readable
            &&& r is Ok && pre.fs.live.contains_key(p) ==> r->Ok_0.version() == version->Ok_0
            &&& readable && pre.fs.live.contains_key(p) && version is Err ==> (r matches Err((
                DbError::Manifest(ManifestError::Corrupt(c)),
                _,
            )) && c == version->Err_0)
        }),
{
    lemma_fits_memory(pre.fs, dir);
    let p = manifest::manifest_at(dir);
    let records = recovery::replay(recovery::seen_in(pre.fs, dir)).records;
    let readable = forall|i: int|
        0 <= i < records.len() ==> record::parsed_record(#[trigger] records[i]) is Ok;
    assert(readable == state::all_decode(records));
    if readable {
        assert forall|i: int, c: Corruption| !#[trigger] first_unreadable(records, i, c) by {
            if first_unreadable(records, i, c) {
                assert(record::parsed_record(records[i]) is Ok);
            }
        }
    }
}

} // verus!
