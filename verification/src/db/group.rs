//! Writes that share one sync.
//!
//! Writers that wait for the log at the same time are served together: their records
//! go to the log in one batch with a single sync, and then to memory, in the order of
//! their sequence numbers.

use vstd::prelude::*;

use super::gate::WriteView;
use super::history;
use super::history::Step;
use super::open;
use super::record;
use super::state;
use super::{Db, DbError, Options};
use crate::checksum;
use crate::codec;
use crate::manifest::VersionView;
use crate::memtable;
use crate::memtable::{InternalValue, MemtableSet, SeqNo, ValueKind};
use crate::model;
use crate::model::Rec;
use crate::storage;
use crate::storage::facts;
use crate::storage::plain;
use crate::storage::{Disk, FsState, Storage};
use crate::tables;
use crate::wal;
use crate::wal::frame;
use crate::wal::recovery;

verus! {

/// One write of a group.
#[derive(Debug)]
pub struct GroupWrite {
    /// The key written.
    pub key: Vec<u8>,
    /// What is written.
    pub kind: ValueKind,
}

impl View for GroupWrite {
    type V = (Seq<u8>, Option<Seq<u8>>);

    open spec fn view(&self) -> (Seq<u8>, Option<Seq<u8>>) {
        (self.key@, self.kind@)
    }
}

/// A group of writes as steps of a run.
pub open spec fn steps_of(writes: Seq<GroupWrite>) -> Seq<Step> {
    Seq::new(writes.len(), |i: int| Step::Write(writes[i]@.0, writes[i]@.1))
}

/// The record of write `i` of a group that begins with sequence number `first`.
pub open spec fn group_rec(writes: Seq<GroupWrite>, first: u64, i: int) -> Rec {
    Rec { key: writes[i]@.0, seq: (first + i) as u64, val: writes[i]@.1 }
}

/// The records of a group that begins with sequence number `first`.
pub open spec fn group_recs(writes: Seq<GroupWrite>, first: u64) -> Seq<Rec> {
    Seq::new(writes.len(), |i: int| group_rec(writes, first, i))
}

/// The records of a group that begins with sequence number `first`, as the log has them.
pub open spec fn group_bytes(writes: Seq<GroupWrite>, first: u64) -> Seq<Seq<u8>> {
    Seq::new(writes.len(), |i: int| record::record_bytes(group_rec(writes, first, i)))
}

/// Every record of the group fits into the log.
pub open spec fn group_fits(writes: Seq<GroupWrite>) -> bool {
    forall|i: int|
        0 <= i < writes.len() ==> record::write_fits(
            (#[trigger] writes[i])@.0,
            writes[i]@.1,
        )
}

/// The contents after the first `k` writes of a group.
pub open spec fn group_applied(
    m: Map<Seq<u8>, Seq<u8>>,
    writes: Seq<GroupWrite>,
    k: int,
) -> Map<Seq<u8>, Seq<u8>> {
    history::applied(m, steps_of(writes).take(k))
}

/// Recovery finds the contents after some of the first writes of a group.
pub open spec fn recovers_some(
    fs: FsState,
    dir: Seq<u8>,
    m: Map<Seq<u8>, Seq<u8>>,
    writes: Seq<GroupWrite>,
) -> bool {
    exists|k: int|
        0 <= k <= writes.len() && state::recovers_to(
            fs,
            dir,
            #[trigger] group_applied(m, writes, k),
        )
}

proof fn lemma_applied_step(m: Map<Seq<u8>, Seq<u8>>, writes: Seq<GroupWrite>, k: int)
    requires
        0 <= k < writes.len(),
    ensures
        group_applied(m, writes, 0) == m,
        group_applied(m, writes, k + 1) == state::written(
            group_applied(m, writes, k),
            writes[k]@.0,
            writes[k]@.1,
        ),
{
    let steps = steps_of(writes);
    assert(steps.take(0) =~= Seq::empty());
    assert(steps.take(k + 1).drop_last() =~= steps.take(k));
    assert(steps.take(k + 1).last() == steps[k]);
}

/// The first writes of a group, one after the other, keep memory, log and tables in
/// order.
proof fn lemma_group_order(
    fs: FsState,
    dir: Seq<u8>,
    v: VersionView,
    buf: Seq<Rec>,
    rest: Seq<Seq<Rec>>,
    records: Seq<Seq<u8>>,
    writes: Seq<GroupWrite>,
    first: u64,
    k: int,
) -> (more: Seq<Rec>)
    requires
        state::in_order(fs, dir, v, seq![buf] + rest, records, first),
        model::is_run(buf),
        group_fits(writes),
        first + writes.len() < u64::MAX,
        0 <= k <= writes.len(),
    ensures
        model::is_run(more),
        state::in_order(
            fs,
            dir,
            v,
            seq![more] + rest,
            records + group_bytes(writes, first).take(k),
            (first + k) as u64,
        ),
        model::contents((seq![more] + rest) + tables::stack_of(fs, dir, v)) == group_applied(
            model::contents((seq![buf] + rest) + tables::stack_of(fs, dir, v)),
            writes,
            k,
        ),
    decreases k,
{
    let m = model::contents((seq![buf] + rest) + tables::stack_of(fs, dir, v));
    let all = group_bytes(writes, first);
    if k == 0 {
        assert(records + all.take(0) =~= records);
        assert(steps_of(writes).take(0) =~= Seq::empty());
        buf
    } else {
        let less = lemma_group_order(fs, dir, v, buf, rest, records, writes, first, k - 1);
        let r = group_rec(writes, first, k - 1);
        let more = memtable::lemma_with(less, r);
        let before = records + all.take(k - 1);
        state::lemma_order_put(fs, dir, v, less, more, rest, before, r);
        assert(before.push(record::record_bytes(r)) =~= records + all.take(k));
        lemma_applied_step(m, writes, k - 1);
        more
    }
}

/// What a power loss while a group is logged leaves recovers to the contents after some
/// of its first writes, and if the log has them all, after all.
proof fn lemma_group_recovers(
    pre: FsState,
    post: FsState,
    dir: Seq<u8>,
    v: VersionView,
    buf: Seq<Rec>,
    rest: Seq<Seq<Rec>>,
    records: Seq<Seq<u8>>,
    writes: Seq<GroupWrite>,
    first: u64,
)
    requires
        facts::sound(pre),
        facts::keeps(pre, post, recovery::log_names(dir)),
        state::in_order(pre, dir, v, seq![buf] + rest, records, first),
        model::is_run(buf),
        group_fits(writes),
        first + writes.len() < u64::MAX,
        wal::left_log(post, dir, records, records + group_bytes(writes, first)),
    ensures
        ({
            let m = model::contents((seq![buf] + rest) + tables::stack_of(pre, dir, v));
            let all = records + group_bytes(writes, first);
            &&& recovers_some(post, dir, m, writes)
            &&& wal::left_log(post, dir, all, all) ==> state::recovers_to(
                post,
                dir,
                group_applied(m, writes, writes.len() as int),
            )
        }),
{
    let m = model::contents((seq![buf] + rest) + tables::stack_of(pre, dir, v));
    let extra = group_bytes(writes, first);
    let all = records + extra;
    state::lemma_log_names_apart(dir);
    state::lemma_order_kept(
        pre,
        post,
        recovery::log_names(dir),
        dir,
        v,
        seq![buf] + rest,
        records,
        first,
    );
    let files = choose|files: Seq<(u64, Seq<u8>)>|
        {
            &&& #[trigger] recovery::log_stable(post, dir, files)
            &&& files.len() > 0
            &&& recovery::is_prefix(records, recovery::replay(files).records)
            &&& recovery::is_prefix(recovery::replay(files).records, all)
        };
    let k = recovery::replay(files).records.len() - records.len();
    assert(recovery::replay(files).records =~= records + extra.take(k));
    let more = lemma_group_order(post, dir, v, buf, rest, records, writes, first, k);
    state::lemma_order_holds(post, dir, v, seq![more] + rest, files, (first + k) as u64);
    assert(state::recovers_to(post, dir, group_applied(m, writes, k)));
    if wal::left_log(post, dir, all, all) {
        super::lemma_left_all(post, dir, all);
        let files = choose|files: Seq<(u64, Seq<u8>)>| #[trigger]
            recovery::log_stable(post, dir, files) && recovery::replay(files).records == all;
        let n = writes.len() as int;
        assert(extra.take(n) =~= extra);
        let more = lemma_group_order(post, dir, v, buf, rest, records, writes, first, n);
        state::lemma_order_holds(post, dir, v, seq![more] + rest, files, (first + n) as u64);
    }
}

/// The frame of one record.
fn group_frame(seq: SeqNo, write: &GroupWrite) -> (framed: Vec<u8>)
    requires
        record::write_fits(write@.0, write@.1),
    ensures
        ({
            let bytes = record::record_bytes(Rec { key: write@.0, seq, val: write@.1 });
            &&& framed@ == frame::frame_of(bytes)
            &&& framed@.skip(8) == bytes
            &&& frame::fits(bytes)
        }),
{
    let bytes: Vec<u8> = record::encode_record(seq, &write.key, &write.kind);
    proof {
        record::lemma_record_round_trip(Rec { key: write@.0, seq, val: write@.1 });
        codec::lemma_u32(bytes@.len() as u32);
        codec::lemma_u32(checksum::crc32(bytes@));
        assert(frame::frame_of(bytes@).skip(8) =~= bytes@);
    }
    frame::encode(&bytes)
}

/// The frames of a group's records, numbered as these are.
fn group_frames(writes: &Vec<GroupWrite>, first: SeqNo) -> (batch: Vec<(u64, Vec<u8>)>)
    requires
        first + writes@.len() < u64::MAX,
        group_fits(writes@),
    ensures
        batch@.len() == writes@.len(),
        wal::well_framed(wal::numbered_bytes(batch@)),
        wal::payloads(wal::numbered_bytes(batch@)) == group_bytes(writes@, first),
{
    let mut batch: Vec<(u64, Vec<u8>)> = Vec::new();
    let mut i: usize = 0;
    while i < writes.len()
        invariant
            i <= writes@.len(),
            batch@.len() == i,
            first + writes@.len() < u64::MAX,
            group_fits(writes@),
            forall|j: int|
                0 <= j < i ==> {
                    let bytes = record::record_bytes(group_rec(writes@, first, j));
                    &&& (#[trigger] batch@[j]).1@ == frame::frame_of(bytes)
                    &&& batch@[j].1@.skip(8) == bytes
                    &&& frame::fits(bytes)
                },
        decreases writes.len() - i,
    {
        let seq: u64 = first + i as u64;
        let framed = group_frame(seq, &writes[i]);
        assert(group_rec(writes@, first, i as int) == (Rec {
            key: writes@[i as int]@.0,
            seq,
            val: writes@[i as int]@.1,
        }));
        batch.push((seq, framed));
        i = i + 1;
    }
    proof {
        let b = wal::numbered_bytes(batch@);
        assert forall|j: int| 0 <= j < b.len() implies (#[trigger] b[j]).1 == frame::frame_of(
            b[j].1.skip(8),
        ) && frame::fits(b[j].1.skip(8)) by {
            assert(b[j].1 == batch@[j].1@);
        }
        assert forall|j: int| 0 <= j < b.len() implies #[trigger] wal::payloads(b)[j]
            == group_bytes(writes@, first)[j] by {
            assert(b[j].1 == batch@[j].1@);
        }
        assert(wal::payloads(b) =~= group_bytes(writes@, first));
    }
    batch
}

impl<S: Storage> Db<S> {
    /// What a group of writes makes of the database, in success, failure or a power
    /// loss.
    ///
    /// While the backend works, the writes are done, whatever is returned: it fails only
    /// when the memtable was full and the flush failed. When the log does not take the
    /// records, the error is the backend's, and memory and tables are as they were. When
    /// power is lost, recovery finds the contents after some of the first of them, and if
    /// success was returned, those after all.
    pub open spec fn group_outcome(
        &self,
        before: &Self,
        writes: Seq<GroupWrite>,
        r: super::Result<()>,
    ) -> bool {
        let m = before.contents();
        let n = writes.len() as int;
        let recs = group_recs(writes, before.next_seq());
        &&& self.home() == before.home()
        &&& self.settings() == before.settings()
        &&& self.next_seq() == before.next_seq() + n
        &&& self.disk().reliable == before.disk().reliable
        &&& self.disk().room() ==> before.disk().room()
        &&& storage::used(before.disk(), self.disk(), before.files_to_write())
        &&& self.disk().room() && before.disk().halted ==> self.disk().halted && self.disk().fs
            == before.disk().fs && self.log_kept(before)
        &&& self.disk().room() && self.log_kept(before) ==> (r matches Err(DbError::Storage(_)))
            && self.untouched(before)
        &&& before.good() && !before.filled_by(recs) ==> storage::used(
            before.disk(),
            self.disk(),
            1,
        )
        &&& before.good() && self.disk().room() ==> {
            &&& !before.filled_by(recs) && r is Err ==> self.log_kept(before)
            &&& !self.disk().halted ==> {
                &&& self.good()
                &&& self.took(before, recs, r is Ok)
                &&& before.last_segment() <= self.last_segment() <= before.last_segment()
                    + before.segments_to_write(recs)
                &&& before.is_anchored() ==> self.is_safe()
                &&& self.contents() == group_applied(m, writes, n)
            }
            &&& self.disk().halted ==> !before.disk().reliable
            &&& self.disk().halted && before.is_safe() && wal::all_evident(
                group_bytes(writes, before.next_seq()),
            ) ==> {
                &&& recovers_some(self.disk().fs, before.home(), m, writes)
                &&& r is Ok ==> state::recovers_to(
                    self.disk().fs,
                    before.home(),
                    group_applied(m, writes, n),
                )
            }
            &&& before.disk().reliable && before.ids_free() ==> {
                &&& r matches Err(e) ==> super::is_limit(e) || !before.has_segment_ids()
                &&& r is Ok ==> self.ids_free()
            }
        }
    }

    /// Appends the records of a group to the log, with one sync.
    fn log_group(&mut self, first: SeqNo, writes: &Vec<GroupWrite>) -> (r: storage::StorageResult<
        (),
    >)
        requires
            old(self).whole(),
            old(self).options.durability.durable(),
            writes@.len() > 0,
            first + writes@.len() < u64::MAX,
            group_fits(writes@),
        ensures
            final(self).dir == old(self).dir,
            final(self).options == old(self).options,
            final(self).write == old(self).write,
            final(self).readers == old(self).readers,
            final(self).memtables == old(self).memtables,
            final(self).manifest == old(self).manifest,
            final(self).whole(),
            final(self).disk().reliable == old(self).disk().reliable,
            storage::used(old(self).disk(), final(self).disk(), 1),
            r is Err ==> final(self).log_kept(old(self)),
            r is Ok && final(self).disk().room() ==> final(self).log().len() == old(
                self,
            ).log().len() + writes@.len() && old(self).last_segment()
                <= final(self).last_segment(),
            final(self).disk().room() ==> old(self).disk().room(),
            final(self).disk().room() && old(self).disk().halted ==> final(self).disk().halted
                && final(self).disk().fs == old(self).disk().fs && r is Err,
            final(self).disk().room() && final(self).disk().halted && !old(self).disk().halted
                ==> !old(self).disk().reliable,
            final(self).disk().room() && !final(self).disk().halted ==> r is Ok,
            old(self).logging(first) && final(self).disk().room() ==> {
                let extra = group_bytes(writes@, first);
                let dir = plain(old(self).dir@);
                let v = old(self).manifest.version();
                let m = old(self).contents();
                let n = writes@.len() as int;
                &&& !final(self).disk().halted ==> {
                    &&& state::in_order(
                        final(self).disk().fs,
                        dir,
                        v,
                        old(self).memtables.layers(),
                        old(self).wal.records(),
                        first,
                    )
                    &&& tables::stack_of(final(self).disk().fs, dir, v) == tables::stack_of(
                        old(self).disk().fs,
                        dir,
                        v,
                    )
                    &&& final(self).wal.records() == old(self).wal.records() + extra
                    &&& super::cached(old(self).readers@, final(self).disk().fs, dir, v)
                    &&& old(self).is_anchored() ==> final(self).wal.is_safe()
                    &&& old(self).ids_free() ==> final(self).ids_free()
                    &&& old(self).last_segment() <= final(self).last_segment() <= old(
                        self,
                    ).last_segment() + 1
                }
                &&& final(self).disk().halted && old(self).wal.is_safe() && wal::all_evident(
                    extra,
                ) ==> {
                    &&& recovers_some(final(self).disk().fs, dir, m, writes@)
                    &&& r is Ok ==> state::recovers_to(
                        final(self).disk().fs,
                        dir,
                        group_applied(m, writes@, n),
                    )
                }
            },
    {
        let ghost d0 = self.storage.disk();
        let ghost dir = plain(self.dir@);
        let ghost before = self.wal;
        let ghost v = self.manifest.version();
        let ghost mem = self.memtables.layers();
        let batch = group_frames(writes, first);
        proof {
            self.memtables.lemma_inv();
            if d0.room() && !d0.halted {
                self.wal.lemma_inv(d0.fs);
            }
        }
        let appended = self.wal.write_batch(&mut self.storage, &batch);
        let ghost d1 = self.storage.disk();
        proof {
            wal::Wal::lemma_pipeline(&before, &self.wal);
            let records = before.records();
            let extra = group_bytes(writes@, first);
            if d1.room() && old(self).logging(first) {
                if d1.halted {
                    if before.is_safe() && wal::all_evident(extra) {
                        lemma_group_recovers(
                            d0.fs,
                            d1.fs,
                            dir,
                            v,
                            self.memtables.buffered(),
                            memtable::newest_first(self.memtables.waiting()),
                            records,
                            writes@,
                            first,
                        );
                    }
                } else {
                    assert(state::in_order(d1.fs, dir, v, mem, records, first)
                        && tables::stack_of(d1.fs, dir, v) == tables::stack_of(d0.fs, dir, v)) by {
                        state::lemma_log_names_apart(dir);
                        state::lemma_order_kept(
                            d0.fs,
                            d1.fs,
                            recovery::log_names(dir),
                            dir,
                            v,
                            mem,
                            records,
                            first,
                        );
                    }
                    assert(tables::grown(d0.fs, d1.fs, dir, v, v)) by {
                        state::lemma_order_version(d0.fs, dir, v, mem, records, first);
                        super::lemma_log_leaves_tables(d0.fs, d1.fs, dir, v);
                    }
                    super::lemma_cached(self.readers@, d0.fs, d1.fs, dir, v, v);
                    if old(self).ids_free() {
                        super::lemma_log_leaves_ids(d0.fs, d1.fs, dir, self.manifest.alive());
                    }
                }
            }
        }
        appended
    }

    /// Brings a group that the log has into memory.
    fn remember_group(&mut self, first: SeqNo, writes: &Vec<GroupWrite>, Ghost(records): Ghost<
        Seq<Seq<u8>>,
    >)
        requires
            old(self).whole(),
            writes@.len() > 0,
            first + writes@.len() < u64::MAX,
            group_fits(writes@),
            old(self).write@.next_seq == first + writes@.len(),
            old(self).memtables.freezes() + (if old(self).memtables.buffered().len() > 0 {
                1int
            } else {
                0
            }) <= first,
        ensures
            final(self).whole(),
            final(self).storage == old(self).storage,
            final(self).dir == old(self).dir,
            final(self).options == old(self).options,
            final(self).wal == old(self).wal,
            final(self).manifest == old(self).manifest,
            final(self).readers == old(self).readers,
            final(self).write == old(self).write,
            final(self).memtables.waiting() == old(self).memtables.waiting(),
            memtable::numbered_below(old(self).memtables.buffered(), first as int)
                ==> final(self).memtables.buffered() == memtable::with_all(
                old(self).memtables.buffered(),
                group_recs(writes@, first),
            ),
            ({
                let d = old(self).storage.disk();
                let dir = plain(old(self).dir@);
                let v = old(self).manifest.version();
                state::in_order(d.fs, dir, v, old(self).memtables.layers(), records, first) ==> {
                    &&& state::in_order(
                        d.fs,
                        dir,
                        v,
                        final(self).memtables.layers(),
                        records + group_bytes(writes@, first),
                        (first + writes@.len()) as u64,
                    )
                    &&& final(self).contents() == group_applied(
                        old(self).contents(),
                        writes@,
                        writes@.len() as int,
                    )
                }
            }),
    {
        let ghost fs = self.storage.disk().fs;
        let ghost dir = plain(self.dir@);
        let ghost v = self.manifest.version();
        let ghost m = self.contents();
        let ghost all = group_bytes(writes@, first);
        let ghost ordered = state::in_order(
            fs,
            dir,
            v,
            self.memtables.layers(),
            records,
            first,
        );
        let ghost recs = group_recs(writes@, first);
        let ghost numbered = memtable::numbered_below(self.memtables.buffered(), first as int);
        let mut i: usize = 0;
        proof {
            assert(recs.take(0) =~= Seq::empty());
            assert(records + all.take(0) =~= records);
            lemma_applied_step(m, writes@, 0);
        }
        while i < writes.len()
            invariant
                i <= writes@.len(),
                writes@.len() > 0,
                first + writes@.len() < u64::MAX,
                group_fits(writes@),
                fs == old(self).storage.disk().fs,
                dir == plain(old(self).dir@),
                v == old(self).manifest.version(),
                m == old(self).contents(),
                all == group_bytes(writes@, first),
                self.storage == old(self).storage,
                self.dir == old(self).dir,
                self.options == old(self).options,
                self.wal == old(self).wal,
                self.manifest == old(self).manifest,
                self.readers == old(self).readers,
                self.write == old(self).write,
                self.memtables.waiting() == old(self).memtables.waiting(),
                self.memtables.inv(),
                self.memtables.limit() == old(self).memtables.limit(),
                self.memtables.freezes() == old(self).memtables.freezes(),
                recs == group_recs(writes@, first),
                numbered == memtable::numbered_below(
                    old(self).memtables.buffered(),
                    first as int,
                ),
                numbered ==> memtable::numbered_below(self.memtables.buffered(), first + i)
                    && self.memtables.buffered() == memtable::with_all(
                    old(self).memtables.buffered(),
                    recs.take(i as int),
                ),
                ordered ==> {
                    &&& state::in_order(
                        fs,
                        dir,
                        v,
                        self.memtables.layers(),
                        records + all.take(i as int),
                        (first + i) as u64,
                    )
                    &&& self.contents() == group_applied(m, writes@, i as int)
                },
            decreases writes.len() - i,
        {
            let ghost before = self.memtables;
            let seq: u64 = first + i as u64;
            self.memtables.insert_if_newer(
                codec::copied(&writes[i].key),
                InternalValue { seq, kind: writes[i].kind.clone() },
            );
            proof {
                if numbered {
                    let r = recs[i as int];
                    assert(recs.take(i + 1) =~= recs.take(i as int).push(r));
                    memtable::lemma_with_all(
                        old(self).memtables.buffered(),
                        recs.take(i as int),
                        r,
                    );
                    model::lemma_find(before.buffered(), r.key);
                    before.lemma_inv();
                    memtable::lemma_numbered_with(before.buffered(), r, first + i + 1);
                }
                if ordered {
                    lemma_remembered(
                        fs,
                        dir,
                        v,
                        &before,
                        &self.memtables,
                        records + all.take(i as int),
                        group_rec(writes@, first, i as int),
                    );
                    assert((records + all.take(i as int)).push(all[i as int]) =~= records
                        + all.take(i + 1));
                    lemma_applied_step(m, writes@, i as int);
                }
            }
            i = i + 1;
        }
        assert(all.take(i as int) =~= all);
        assert(recs.take(i as int) =~= recs);
    }
}

impl<S: Storage> Db<S> {
    /// Claims the sequence numbers of a group.
    fn claim_group(&mut self, n: usize) -> (first: SeqNo)
        requires
            old(self).write@.quiet(),
            old(self).write@.next_seq + n < u64::MAX,
        ensures
            first == old(self).write@.next_seq,
            final(self).write@ == (WriteView {
                next_seq: (first + n) as u64,
                in_flight: n as nat,
                flush_pending: false,
            }),
            final(self).storage == old(self).storage,
            final(self).dir == old(self).dir,
            final(self).options == old(self).options,
            final(self).wal == old(self).wal,
            final(self).memtables == old(self).memtables,
            final(self).manifest == old(self).manifest,
            final(self).readers == old(self).readers,
    {
        let first: u64 = self.write.next_seq();
        let mut i: usize = 0;
        while i < n
            invariant
                i <= n,
                first + n < u64::MAX,
                self.write@ == (WriteView {
                    next_seq: (first + i) as u64,
                    in_flight: i as nat,
                    flush_pending: false,
                }),
                self.storage == old(self).storage,
                self.dir == old(self).dir,
                self.options == old(self).options,
                self.wal == old(self).wal,
                self.memtables == old(self).memtables,
                self.manifest == old(self).manifest,
                self.readers == old(self).readers,
            decreases n - i,
        {
            let claimed = self.write.claim();
            assert(claimed is Some);
            i = i + 1;
        }
        first
    }

    /// The writes of a group are in memory, or have failed.
    fn settle_group(&mut self, n: usize)
        requires
            old(self).write@.in_flight == n,
            !old(self).write@.flush_pending,
        ensures
            final(self).write@ == (WriteView { in_flight: 0, ..old(self).write@ }),
            final(self).storage == old(self).storage,
            final(self).dir == old(self).dir,
            final(self).options == old(self).options,
            final(self).wal == old(self).wal,
            final(self).memtables == old(self).memtables,
            final(self).manifest == old(self).manifest,
            final(self).readers == old(self).readers,
    {
        let mut i: usize = 0;
        while i < n
            invariant
                i <= n,
                self.write@ == (WriteView { in_flight: (n - i) as nat, ..old(self).write@ }),
                self.storage == old(self).storage,
                self.dir == old(self).dir,
                self.options == old(self).options,
                self.wal == old(self).wal,
                self.memtables == old(self).memtables,
                self.manifest == old(self).manifest,
                self.readers == old(self).readers,
            decreases n - i,
        {
            self.write.settle();
            i = i + 1;
        }
    }

    /// Does a group of writes, in their order, with one sync of the log for all. Returns
    /// only once all are durable.
    pub fn write_group(&mut self, writes: &Vec<GroupWrite>) -> (r: super::Result<()>)
        requires
            old(self).inv(),
            old(self).settings().durability.durable(),
            writes@.len() > 0,
            old(self).next_seq() + writes@.len() < u64::MAX,
            group_fits(writes@),
        ensures
            final(self).inv(),
            final(self).group_outcome(old(self), writes@, r),
    {
        let n: usize = writes.len();
        let first: u64 = self.claim_group(n);
        let ghost claimed = *self;
        assert(claimed.whole());
        assert(claimed.logging(first) == old(self).good());
        assert(claimed.contents() == old(self).contents());
        let ghost records = self.wal.records();
        let logged = self.log_group(first, writes);
        let ghost d1 = self.storage.disk();
        self.settle_group(n);
        match logged {
            Ok(_) => {},
            Err(e) => {
                return Err(DbError::Storage(e));
            },
        }
        let ghost known = *self;
        self.remember_group(first, writes, Ghost(records));
        proof {
            if old(self).good() && d1.room() && !d1.halted {
                assert(known.contents() == old(self).contents());
                assert(self.good());
                assert(self.contents() == group_applied(
                    old(self).contents(),
                    writes@,
                    writes@.len() as int,
                ));
            }
        }
        let ghost done = *self;
        let ghost recs = group_recs(writes@, first);
        proof {
            assert(self.memory().len() == old(self).memory().len());
            if old(self).good() {
                assert(memtable::numbered_below(known.memtables.buffered(), first as int)) by {
                    let d0 = old(self).disk();
                    let v = self.manifest.version();
                    let layers = known.memtables.layers() + tables::stack_of(d0.fs, plain(self.dir@), v);
                    state::lemma_order_version(
                        d0.fs,
                        plain(self.dir@),
                        v,
                        known.memtables.layers(),
                        records,
                        first,
                    );
                    assert(layers[0] == known.memtables.buffered());
                    assert forall|i: int| 0 <= i < known.memtables.buffered().len() implies (
                    #[trigger] known.memtables.buffered()[i]).seq < first by {
                        assert(layers[0][i].seq < first);
                    }
                }
                assert(self.memory() =~= old(self).memory_with(recs));
                if d1.room() && !d1.halted {
                    assert(self.layout() == old(self).layout());
                }
            }
        }
        if self.memtables.is_full() {
            let flushed = self.flush_locked();
            proof {
                assert(done.pending().len() <= done.memory().len());
                assert(done.layout().tables() == old(self).layout().tables());
                super::lemma_footprint_empty(self.memtables.buffered());
                if old(self).good() && self.disk().room() {
                    if d1.halted {
                        assert(self.disk().fs == d1.fs);
                    } else if self.disk().halted && old(self).is_anchored() {
                        assert(done.is_safe());
                        assert(state::recovers_to(
                            self.disk().fs,
                            old(self).home(),
                            group_applied(old(self).contents(), writes@, writes@.len() as int),
                        ));
                        assert(recovers_some(
                            self.disk().fs,
                            old(self).home(),
                            old(self).contents(),
                            writes@,
                        ));
                    }
                }
            }
            return flushed;
        }
        Ok(())
    }
}

impl<S: Storage> Db<S> {
    /// Whether a [`write_group`](Db::write_group) can be taken: the mode is a durable one,
    /// there is something to write, its records fit into the log, and sequence numbers are
    /// left.
    pub fn can_write_group(&self, writes: &Vec<GroupWrite>) -> (r: bool)
        ensures
            r == (self.settings().durability.durable() && writes@.len() > 0 && self.next_seq()
                + writes@.len() < u64::MAX && group_fits(writes@)),
    {
        let mut i: usize = 0;
        while i < writes.len()
            invariant
                i <= writes@.len(),
                forall|j: int|
                    0 <= j < i ==> record::write_fits(
                        (#[trigger] writes@[j])@.0,
                        writes@[j]@.1,
                    ),
            decreases writes.len() - i,
        {
            if !fits_log(&writes[i]) {
                assert(!record::write_fits(writes@[i as int]@.0, writes@[i as int]@.1));
                return false;
            }
            i = i + 1;
        }
        self.options.durability.is_durable() && writes.len() > 0 && (writes.len() as u64)
            < u64::MAX - self.write.next_seq()
    }
}

/// Whether the record of a write fits into the log.
pub fn fits_log(write: &GroupWrite) -> (r: bool)
    ensures
        r == record::write_fits(write@.0, write@.1),
{
    let payload: u128 = match &write.kind {
        ValueKind::Value(v) => {
            assert(v@.len() == v.len());
            4 + v.len() as u128
        },
        ValueKind::Tombstone => 0,
    };
    assert(write.key@.len() == write.key.len());
    13 + write.key.len() as u128 + payload <= u32::MAX as u128
}

/// A group that was acknowledged survives, and of one that was not, the first so many
/// writes do: opening what a power cut leaves finds the contents after some of the first
/// writes of the group, and after all of them if success was returned.
pub proof fn lemma_group_survives<S: Storage>(
    before: &Db<S>,
    after: &Db<S>,
    writes: Seq<GroupWrite>,
    written: super::Result<()>,
    pre: Disk,
    options: Options,
    r: Result<Db<S>, (DbError, S)>,
)
    requires
        before.good(),
        before.is_safe(),
        after.inv(),
        after.disk().room(),
        after.group_outcome(before, writes, written),
        wal::all_evident(group_bytes(writes, before.next_seq())),
        after.disk().halted ==> pre.fs == after.disk().fs,
        !after.disk().halted ==> storage::power_loss(after.disk().fs, pre.fs),
        open::open_outcome(pre, before.home(), options, r),
        open::left_by(r).room(),
    ensures
        r is Ok && !open::left_by(r).halted ==> {
            let m = before.contents();
            let n = writes.len() as int;
            &&& r->Ok_0.inv()
            &&& r->Ok_0.good()
            &&& r->Ok_0.is_safe()
            &&& exists|k: int|
                0 <= k <= n && r->Ok_0.contents() == #[trigger] group_applied(m, writes, k)
            &&& written is Ok ==> r->Ok_0.contents() == group_applied(m, writes, n)
        },
{
    let m = before.contents();
    let n = writes.len() as int;
    if after.disk().halted {
        let k = choose|k: int|
            0 <= k <= n && state::recovers_to(
                after.disk().fs,
                before.home(),
                #[trigger] group_applied(m, writes, k),
            );
        let best = if written is Ok { n } else { k };
        let found = group_applied(m, writes, best);
        state::lemma_recovers_holds(pre.fs, before.home(), found);
        open::lemma_open_finds(pre, before.home(), options, r, found);
        open::lemma_open_keeps(pre, before.home(), options, r, found);
    } else {
        open::lemma_crash_reopen(after, pre, options, r);
        assert(after.contents() == group_applied(m, writes, n));
    }
}

/// One write that the log has comes into memory.
proof fn lemma_remembered(
    fs: FsState,
    dir: Seq<u8>,
    v: VersionView,
    before: &MemtableSet,
    after: &MemtableSet,
    records: Seq<Seq<u8>>,
    r: Rec,
)
    requires
        before.inv(),
        after.inv(),
        after.waiting() == before.waiting(),
        state::in_order(fs, dir, v, before.layers(), records, r.seq),
        r.seq < u64::MAX,
        record::write_fits(r.key, r.val),
        forall|k: Seq<u8>| #[trigger]
            model::find(after.buffered(), k) == if k == r.key && !(model::find(
                before.buffered(),
                r.key,
            ) matches Some(prev) && prev.seq >= r.seq) {
                Some(r)
            } else {
                model::find(before.buffered(), k)
            },
    ensures
        state::in_order(
            fs,
            dir,
            v,
            after.layers(),
            records.push(record::record_bytes(r)),
            (r.seq + 1) as u64,
        ),
        model::contents(after.layers() + tables::stack_of(fs, dir, v)) == state::written(
            model::contents(before.layers() + tables::stack_of(fs, dir, v)),
            r.key,
            r.val,
        ),
{
    let rest = memtable::newest_first(before.waiting());
    before.lemma_inv();
    after.lemma_inv();
    assert(model::find(before.buffered(), r.key) matches Some(prev) ==> prev.seq < r.seq) by {
        state::lemma_order_version(fs, dir, v, before.layers(), records, r.seq);
        model::lemma_find(before.buffered(), r.key);
        if let Some(prev) = model::find(before.buffered(), r.key) {
            let layers = before.layers() + tables::stack_of(fs, dir, v);
            let i = choose|i: int|
                0 <= i < before.buffered().len() && #[trigger] before.buffered()[i] == prev;
            assert(layers[0] == before.buffered());
            assert(layers[0][i].seq < r.seq);
        }
    }
    state::lemma_order_put(fs, dir, v, before.buffered(), after.buffered(), rest, records, r);
}

} // verus!
