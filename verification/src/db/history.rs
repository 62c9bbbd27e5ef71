//! What a run of writes and flushes leaves, whenever the power is cut.

use vstd::prelude::*;

use super::group;
use super::group::GroupWrite;
use super::layout;
use super::open;
use super::read;
use super::record;
use super::state;
use super::{Db, DbError, Options};
use crate::manifest;
use crate::memtable;
use crate::model;
use crate::model::Rec;
use crate::storage;
use crate::storage::{Disk, Storage};
use crate::wal::frame;
use crate::wal::recovery;

verus! {

/// One step of a run.
pub enum Step {
    /// A write of a value, or of nothing for a delete, under a key.
    Write(Seq<u8>, Option<Seq<u8>>),
    /// A flush.
    Flush,
}

/// The contents after some steps.
pub open spec fn applied(m: Map<Seq<u8>, Seq<u8>>, steps: Seq<Step>) -> Map<Seq<u8>, Seq<u8>>
    decreases steps.len(),
{
    if steps.len() == 0 {
        m
    } else {
        let before = applied(m, steps.drop_last());
        match steps.last() {
            Step::Write(key, val) => state::written(before, key, val),
            Step::Flush => before,
        }
    }
}

/// From `before` to `after`, the step was taken and returned `r`.
pub open spec fn stepped<S: Storage>(
    before: &Db<S>,
    step: Step,
    after: &Db<S>,
    r: super::Result<()>,
) -> bool {
    match step {
        Step::Write(key, val) => after.write_outcome(before, key, val, r),
        Step::Flush => after.flush_done(before, r),
    }
}

/// The log gives away a flipped bit in the record of the step.
pub open spec fn evident<S: Storage>(before: &Db<S>, step: Step) -> bool {
    match step {
        Step::Write(key, val) => super::write_evident(key, before.next_seq(), val),
        Step::Flush => true,
    }
}

/// A run in a durable mode whose records give away a flipped bit: `dbs` are the states
/// of the database before, between and after the steps, and `results` is what these
/// returned.
pub open spec fn is_run<S: Storage>(
    dbs: Seq<Db<S>>,
    steps: Seq<Step>,
    results: Seq<super::Result<()>>,
) -> bool {
    &&& dbs.len() == steps.len() + 1
    &&& results.len() == steps.len()
    &&& dbs[0].good()
    &&& dbs[0].is_safe()
    &&& dbs[0].settings().durability.durable()
    &&& forall|i: int|
        0 <= i < steps.len() ==> {
            &&& stepped(&dbs[i], #[trigger] steps[i], &dbs[i + 1], results[i])
            &&& evident(&dbs[i], steps[i])
        }
}

/// `found` is what the first `k` steps make of `m`, and every write that returned
/// success is one of them.
pub open spec fn keeps_acked(
    m: Map<Seq<u8>, Seq<u8>>,
    steps: Seq<Step>,
    results: Seq<super::Result<()>>,
    k: int,
    found: Map<Seq<u8>, Seq<u8>>,
) -> bool {
    &&& 0 <= k <= steps.len()
    &&& found == applied(m, steps.take(k))
    &&& none_acked(steps, results, k, steps.len() as int)
}

/// No write from step `k` up to step `n` returned success.
pub open spec fn none_acked(
    steps: Seq<Step>,
    results: Seq<super::Result<()>>,
    k: int,
    n: int,
) -> bool {
    forall|i: int| k <= i < n ==> (#[trigger] results[i]) is Err || steps[i] is Flush
}

/// What holds after the first `n` steps of a run.
spec fn sound_after<S: Storage>(
    dbs: Seq<Db<S>>,
    steps: Seq<Step>,
    results: Seq<super::Result<()>>,
    n: int,
) -> bool {
    let m = dbs[0].contents();
    let home = dbs[0].home();
    &&& dbs[n].home() == home
    &&& dbs[n].settings() == dbs[0].settings()
    &&& !dbs[n].disk().halted ==> {
        &&& dbs[n].good()
        &&& dbs[n].is_safe()
        &&& dbs[n].contents() == applied(m, steps.take(n))
    }
    &&& dbs[n].disk().halted ==> exists|k: int|
        {
            &&& 0 <= k <= n
            &&& state::recovers_to(
                dbs[n].disk().fs,
                home,
                applied(m, #[trigger] steps.take(k)),
            )
            &&& none_acked(steps, results, k, n)
        }
}

proof fn lemma_sound_step<S: Storage>(
    dbs: Seq<Db<S>>,
    steps: Seq<Step>,
    results: Seq<super::Result<()>>,
    n: int,
)
    requires
        is_run(dbs, steps, results),
        0 <= n < steps.len(),
        dbs[n + 1].disk().room(),
        sound_after(dbs, steps, results, n),
    ensures
        dbs[n].disk().room(),
        sound_after(dbs, steps, results, n + 1),
{
    let m = dbs[0].contents();
    let home = dbs[0].home();
    let step = steps[n];
    let now = steps.take(n);
    let next = steps.take(n + 1);
    assert(next.drop_last() =~= now);
    assert(next.last() == step);
    assert(stepped(&dbs[n], steps[n], &dbs[n + 1], results[n]));
    assert(evident(&dbs[n], steps[n]));
    if dbs[n].disk().halted {
        let k = choose|k: int|
            {
                &&& 0 <= k <= n
                &&& state::recovers_to(
                    dbs[n].disk().fs,
                    home,
                    applied(m, #[trigger] steps.take(k)),
                )
                &&& none_acked(steps, results, k, n)
            };
        assert(state::recovers_to(dbs[n + 1].disk().fs, home, applied(m, steps.take(k))));
        assert(none_acked(steps, results, k, n + 1));
    } else if dbs[n + 1].disk().halted {
        let fs = dbs[n + 1].disk().fs;
        if state::recovers_to(fs, home, applied(m, next)) {
            assert(none_acked(steps, results, n + 1, n + 1));
        } else {
            assert(state::recovers_to(fs, home, applied(m, now)));
            assert(results[n] is Err);
            assert(none_acked(steps, results, n, n + 1));
        }
    }
}

proof fn lemma_sound_after<S: Storage>(
    dbs: Seq<Db<S>>,
    steps: Seq<Step>,
    results: Seq<super::Result<()>>,
    n: int,
)
    requires
        is_run(dbs, steps, results),
        0 <= n <= steps.len(),
        dbs[n].disk().room(),
    ensures
        sound_after(dbs, steps, results, n),
    decreases n,
{
    if n == 0 {
        assert(steps.take(0) =~= Seq::empty());
        dbs[0].lemma_good_works();
    } else {
        assert(stepped(&dbs[n - 1], steps[n - 1], &dbs[n], results[n - 1]));
        lemma_sound_after(dbs, steps, results, n - 1);
        lemma_sound_step(dbs, steps, results, n - 1);
    }
}

/// No acknowledged write is lost: when the power is cut during a run in a durable mode,
/// or after it, opening what is left finds what some of the first steps make of the
/// contents, those in full and nothing else, and every write that returned success is
/// among them.
pub proof fn lemma_no_acked_write_lost<S: Storage>(
    dbs: Seq<Db<S>>,
    steps: Seq<Step>,
    results: Seq<super::Result<()>>,
    pre: Disk,
    options: Options,
    r: Result<Db<S>, (DbError, S)>,
)
    requires
        is_run(dbs, steps, results),
        dbs.last().inv(),
        dbs.last().disk().room(),
        dbs.last().disk().halted ==> pre.fs == dbs.last().disk().fs,
        !dbs.last().disk().halted ==> storage::power_loss(dbs.last().disk().fs, pre.fs),
        open::open_outcome(pre, dbs[0].home(), options, r),
        open::left_by(r).room(),
    ensures
        r is Ok && !open::left_by(r).halted ==> {
            &&& r->Ok_0.inv()
            &&& r->Ok_0.good()
            &&& r->Ok_0.is_safe()
            &&& exists|k: int| #[trigger]
                keeps_acked(dbs[0].contents(), steps, results, k, r->Ok_0.contents())
        },
{
    let n = steps.len() as int;
    let m = dbs[0].contents();
    let home = dbs[0].home();
    lemma_sound_after(dbs, steps, results, n);
    if dbs[n].disk().halted {
        let k = choose|k: int|
            {
                &&& 0 <= k <= n
                &&& state::recovers_to(
                    dbs[n].disk().fs,
                    home,
                    applied(m, #[trigger] steps.take(k)),
                )
                &&& none_acked(steps, results, k, n)
            };
        let found = applied(m, steps.take(k));
        state::lemma_recovers_holds(pre.fs, home, found);
        open::lemma_open_finds(pre, home, options, r, found);
        open::lemma_open_keeps(pre, home, options, r, found);
        if r is Ok && !open::left_by(r).halted {
            assert(keeps_acked(m, steps, results, k, r->Ok_0.contents()));
        }
    } else {
        open::lemma_crash_reopen(&dbs[n], pre, options, r);
        if r is Ok && !open::left_by(r).halted {
            assert(keeps_acked(m, steps, results, n, r->Ok_0.contents()));
        }
    }
}

/// A run without a power cut does all its steps.
pub proof fn lemma_run_applies<S: Storage>(
    dbs: Seq<Db<S>>,
    steps: Seq<Step>,
    results: Seq<super::Result<()>>,
)
    requires
        is_run(dbs, steps, results),
        dbs.last().disk().room(),
        !dbs.last().disk().halted,
    ensures
        dbs.last().good(),
        dbs.last().is_safe(),
        dbs.last().contents() == applied(dbs[0].contents(), steps),
{
    let n = steps.len() as int;
    lemma_sound_after(dbs, steps, results, n);
    assert(steps.take(n) =~= steps);
}

/// What may happen to a database.
pub enum Event {
    /// A write or a flush, whatever it returned.
    Step(Step),
    /// It is closed and opened again.
    Reopen(Options),
    /// Power is lost while its log is durable, and it is opened again.
    PowerLoss(Options),
}

/// The contents after some events.
pub open spec fn lived(m: Map<Seq<u8>, Seq<u8>>, events: Seq<Event>) -> Map<Seq<u8>, Seq<u8>>
    decreases events.len(),
{
    if events.len() == 0 {
        m
    } else {
        let before = lived(m, events.drop_last());
        match events.last() {
            Event::Step(Step::Write(key, val)) => state::written(before, key, val),
            _ => before,
        }
    }
}

/// From `before` to `after`, this happened.
pub open spec fn happened<S: Storage>(before: &Db<S>, event: Event, after: &Db<S>) -> bool {
    match event {
        Event::Step(step) => exists|r: super::Result<()>| #[trigger]
            stepped(before, step, after, r),
        Event::Reopen(options) => open::open_outcome(
            before.disk(),
            before.home(),
            options,
            Ok::<Db<S>, (DbError, S)>(*after),
        ),
        Event::PowerLoss(options) => before.is_safe() && exists|pre: Disk|
            storage::power_loss(before.disk().fs, pre.fs) && #[trigger] open::open_outcome(
                pre,
                before.home(),
                options,
                Ok::<Db<S>, (DbError, S)>(*after),
            ),
    }
}

/// A life of a database: `dbs` are its states before, between and after the events, during
/// none of which power is lost.
pub open spec fn is_life<S: Storage>(dbs: Seq<Db<S>>, events: Seq<Event>) -> bool {
    &&& dbs.len() == events.len() + 1
    &&& dbs[0].good()
    &&& forall|i: int|
        0 <= i < dbs.len() ==> (#[trigger] dbs[i]).inv() && dbs[i].disk().room()
            && !dbs[i].disk().halted
    &&& forall|i: int|
        0 <= i < events.len() ==> happened(&dbs[i], #[trigger] events[i], &dbs[i + 1])
}

/// Through any number of writes, flushes with their compactions, reopenings and power losses,
/// the contents are what the writes make of them.
pub proof fn lemma_lived<S: Storage>(dbs: Seq<Db<S>>, events: Seq<Event>, n: int)
    requires
        is_life(dbs, events),
        0 <= n <= events.len(),
    ensures
        dbs[n].good(),
        dbs[n].contents() == lived(dbs[0].contents(), events.take(n)),
    decreases n,
{
    if n == 0 {
        assert(events.take(0) =~= Seq::empty());
    } else {
        lemma_lived(dbs, events, n - 1);
        let before = dbs[n - 1];
        let after = dbs[n];
        assert(events.take(n).drop_last() =~= events.take(n - 1));
        assert(events.take(n).last() == events[n - 1]);
        assert(happened(&before, events[n - 1], &dbs[n - 1 + 1]));
        assert(before.inv() && after.inv());
        let opened = Ok::<Db<S>, (DbError, S)>(after);
        match events[n - 1] {
            Event::Step(step) => {
                let r = choose|r: super::Result<()>| #[trigger] stepped(&before, step, &after, r);
                assert(stepped(&before, step, &after, r));
            },
            Event::Reopen(options) => {
                open::lemma_reopen(&before, options, opened);
            },
            Event::PowerLoss(options) => {
                let pre = choose|pre: Disk|
                    storage::power_loss(before.disk().fs, pre.fs) && #[trigger] open::open_outcome(
                        pre,
                        before.home(),
                        options,
                        opened,
                    );
                open::lemma_crash_reopen(&before, pre, options, opened);
            },
        }
    }
}

/// The event is a write under `key`.
pub open spec fn writes(event: Event, key: Seq<u8>) -> bool {
    event matches Event::Step(Step::Write(k, _)) && k == key
}

/// Nothing is written under `key`.
pub open spec fn leaves(events: Seq<Event>, key: Seq<u8>) -> bool {
    forall|i: int| 0 <= i < events.len() ==> !writes(#[trigger] events[i], key)
}

proof fn lemma_left(m: Map<Seq<u8>, Seq<u8>>, events: Seq<Event>, key: Seq<u8>)
    requires
        leaves(events, key),
    ensures
        read::lookup(lived(m, events), key) == read::lookup(m, key),
    decreases events.len(),
{
    if events.len() > 0 {
        let front = events.drop_last();
        assert(leaves(front, key)) by {
            assert forall|i: int| 0 <= i < front.len() implies !writes(
                #[trigger] front[i],
                key,
            ) by {
                assert(front[i] == events[i]);
            }
        }
        lemma_left(m, front, key);
        if let Event::Step(Step::Write(other, val)) = events.last() {
            assert(!writes(events[events.len() - 1], key));
            read::lemma_reads_writes(lived(m, front), other, val, key);
        }
    }
}

/// What was written last stays: a key that was put has its value, and a key that was deleted
/// has none, however many writes of other keys, flushes, compactions, reopenings and power
/// losses come after, until the key is written again. A key that is not written keeps what
/// it has.
pub proof fn lemma_written_stays<S: Storage>(
    dbs: Seq<Db<S>>,
    events: Seq<Event>,
    key: Seq<u8>,
    val: Option<Seq<u8>>,
    at: int,
    n: int,
)
    requires
        is_life(dbs, events),
        0 <= at < n <= events.len(),
        leaves(events.subrange(at + 1, n), key),
    ensures
        dbs[n].good(),
        events[at] == Event::Step(Step::Write(key, val)) ==> read::lookup(
            dbs[n].contents(),
            key,
        ) == val,
        !writes(events[at], key) ==> read::lookup(dbs[n].contents(), key) == read::lookup(
            dbs[at].contents(),
            key,
        ),
{
    let later = dbs.subrange(at, n + 1);
    let since = events.subrange(at, n);
    let m = dbs[at].contents();
    lemma_lived(dbs, events, at);
    assert forall|i: int| 0 <= i < later.len() implies (#[trigger] later[i]).inv()
        && later[i].disk().room() && !later[i].disk().halted by {
        assert(later[i] == dbs[at + i]);
    }
    assert forall|i: int| 0 <= i < since.len() implies happened(
        &later[i],
        #[trigger] since[i],
        &later[i + 1],
    ) by {
        assert(since[i] == events[at + i]);
        assert(happened(&dbs[at + i], events[at + i], &dbs[at + i + 1]));
    }
    assert(is_life(later, since));
    lemma_lived(later, since, n - at);
    assert(since.take(n - at) =~= since);
    lemma_lived_split(m, since);
    let rest = events.subrange(at + 1, n);
    assert(since.drop_first() =~= rest);
    lemma_left(lived(m, seq![events[at]]), rest, key);
    let one = seq![events[at]];
    assert(one.drop_last() =~= Seq::empty());
    if !writes(events[at], key) {
        assert(leaves(one, key));
        lemma_left(m, one, key);
    }
    if events[at] == Event::Step(Step::Write(key, val)) {
        read::lemma_reads_writes(m, key, val, key);
        assert(lived(m, one.drop_last()) == m);
        assert(one.last() == Event::Step(Step::Write(key, val)));
        assert(lived(m, one) == state::written(m, key, val));
    }
}

/// The first event first.
proof fn lemma_lived_split(m: Map<Seq<u8>, Seq<u8>>, events: Seq<Event>)
    requires
        events.len() > 0,
    ensures
        lived(m, events) == lived(lived(m, seq![events[0]]), events.drop_first()),
    decreases events.len(),
{
    if events.len() == 1 {
        assert(events =~= seq![events[0]]);
        assert(events.drop_first() =~= Seq::empty());
    } else {
        let front = events.drop_last();
        lemma_lived_split(m, front);
        assert(front[0] == events[0]);
        assert(events.drop_first().drop_last() =~= front.drop_first());
        assert(events.drop_first().last() == events.last());
    }
}

/// A flush on a backend that works succeeds, within the limits of the formats and while ids
/// are left: every tier is below the fanout, a recovery finds no record in the log, and every
/// lookup finds what it found.
pub proof fn lemma_flushed<S: Storage>(
    before: &Db<S>,
    after: &Db<S>,
    r: super::Result<()>,
    key: Seq<u8>,
)
    requires
        before.good(),
        before.disk().reliable,
        before.ids_free(),
        before.has_segment_id(),
        before.can_absorb(),
        after.inv(),
        after.disk().room(),
        after.flush_outcome(before, r),
    ensures
        r is Ok,
        after.good(),
        forall|t: int|
            0 <= t < after.version().tiers.len() ==> (#[trigger] after.version().tiers[t]).len()
                < before.settings().tier_fanout,
        recovery::plainly_named(after.disk().fs, before.home()),
        recovery::replay(recovery::seen_in(after.disk().fs, before.home())).records.len() == 0,
        read::lookup(after.contents(), key) == read::lookup(before.contents(), key),
{
    after.lemma_log();
}

/// A flipped bit in the record of a write is given away by the log, if no frame of that record
/// with a bit inverted reads as a record.
pub proof fn lemma_write_evident(key: Seq<u8>, seq: u64, val: Option<Seq<u8>>)
    requires
        ({
            let framed = frame::frame_of(record::record_bytes(Rec { key, seq, val }));
            forall|bit: int|
                0 <= bit < 8 * framed.len() ==> recovery::scan(
                    #[trigger] storage::flipped(framed, bit),
                ).records.len() == 0
        }),
    ensures
        super::write_evident(key, seq, val),
{
    let r = record::record_bytes(Rec { key, seq, val });
    let one = seq![r];
    let framed = frame::frame_of(r);
    assert(one.drop_first() =~= Seq::empty());
    assert(frame::frames_of(one.drop_first()) =~= Seq::empty());
    assert(frame::frames_of(one) =~= framed);
    assert forall|i: int| 0 <= i <= one.len() implies recovery::tamper_evident(
        #[trigger] one.take(i),
    ) by {
        if i == 0 {
            assert(one.take(0) =~= Seq::empty());
        } else {
            assert(one.take(1) =~= one);
            assert forall|bit: int| 0 <= bit < 8 * frame::frames_of(one).len() implies
                recovery::is_prefix(
                recovery::scan(#[trigger] storage::flipped(frame::frames_of(one), bit)).records,
                one,
            ) by {
                let found = recovery::scan(storage::flipped(framed, bit)).records;
                assert(found =~= one.take(0));
            }
        }
    }
}

/// When a write flushes. Memory never keeps more than the limit that was set. A write that
/// memory has room for stays there, and the tables are as they were. A write of a key that
/// memory does not have and has no room for moves all of memory to the tables: memory and log
/// are empty then, and no tier has reached the fanout.
pub proof fn lemma_write_flushes<S: Storage>(
    before: &Db<S>,
    after: &Db<S>,
    key: Seq<u8>,
    val: Option<Seq<u8>>,
)
    requires
        before.inv(),
        before.good(),
        after.write_outcome(before, key, val, Ok(())),
        after.disk().room(),
        !after.disk().halted,
    ensures
        ({
            let limit = before.settings().memtable_size;
            let held = memtable::footprint(before.active());
            let more = key.len() + 32 + match val {
                Some(v) => v.len(),
                None => 0,
            };
            &&& memtable::footprint(after.active()) <= limit
            &&& held + more <= limit ==> {
                &&& after.version() == before.version()
                &&& model::find(after.active(), key) == Some(
                    Rec { key, seq: before.next_seq(), val },
                )
            }
            &&& model::find(before.active(), key) is None && held + more > limit ==> {
                &&& after.active().len() == 0
                &&& after.frozen_tables() == 0
                &&& after.log().len() == 0
                &&& forall|t: int|
                    0 <= t < after.version().tiers.len() ==> (
                    #[trigger] after.version().tiers[t]).len() < before.settings().tier_fanout
            }
        }),
{
    let rec = super::write_record(key, before.next_seq(), val);
    let recs = seq![rec];
    before.lemma_memory();
    after.lemma_memory();
    before.lemma_active_run();
    memtable::lemma_with_all(before.active(), Seq::empty(), rec);
    assert(Seq::<Rec>::empty().push(rec) =~= recs);
    memtable::lemma_put_replaces(before.active(), rec, key);
    memtable::lemma_footprint_with(before.active(), rec);
    memtable::lemma_charges(recs, recs, rec);
    assert(before.memory_with(recs)[0] == memtable::with(before.active(), rec));
}

/// What a flush of one memtable does to the tiers, where none gets as many tables as the
/// fanout: the youngest tier has one table more, its last, which holds as many entries as
/// memory had keys, and every other tier is as it was.
pub proof fn lemma_flush_adds<S: Storage>(before: &Db<S>, after: &Db<S>, t: int)
    requires
        before.inv(),
        before.good(),
        before.frozen_tables() == 0,
        before.active().len() > 0,
        after.flush_outcome(before, Ok(())),
        after.disk().room(),
        !after.disk().halted,
        before.version().next_table_id < u64::MAX,
        manifest::laws::tier_of(before.version(), 0).len() + 1 < before.settings().tier_fanout,
        forall|s: int|
            0 < s < before.version().tiers.len() ==> (#[trigger] before.version().tiers[s]).len()
                < before.settings().tier_fanout,
    ensures
        ({
            let was = manifest::laws::tier_of(before.version(), 0);
            let now = manifest::laws::tier_of(after.version(), 0);
            &&& now.len() == was.len() + 1
            &&& now.drop_last() == was
            &&& now.last().id == before.version().next_table_id
            &&& now.last().num_entries == before.active().len() as u64
            &&& now.last().first_key == before.active()[0].key
            &&& now.last().last_key == before.active().last().key
            &&& t != 0 ==> manifest::laws::tier_of(after.version(), t) == manifest::laws::tier_of(
                before.version(),
                t,
            )
        }),
{
    let l = before.layout();
    let v = before.version();
    let mem = before.memory();
    let pending = before.pending();
    let fanout = before.settings().tier_fanout as nat;
    before.lemma_memory();
    assert(pending =~= seq![before.active()]);
    assert(pending.drop_last() =~= Seq::empty());
    assert(l.all_flushed(pending.drop_last(), before.next_seq()) == l);
    let next = l.flushed(before.active(), before.next_seq());
    assert(l.all_flushed(pending, before.next_seq()) == next);
    let m = layout::table_of(v.next_table_id, before.active());
    manifest::laws::lemma_version_flushed(v, m, before.next_seq(), t);
    assert(super::settled(next.version, fanout)) by {
        assert forall|s: int| 0 <= s < next.version.tiers.len() implies (
        #[trigger] next.version.tiers[s]).len() < fanout by {
            manifest::laws::lemma_version_flushed(v, m, before.next_seq(), s);
            if s > 0 {
                assert(manifest::laws::tier_of(next.version, s) == manifest::laws::tier_of(v, s));
            }
        }
    }
    assert(after.layout() == next);
    assert(after.version() == next.version);
    let was = manifest::laws::tier_of(v, 0);
    assert(was.push(m).drop_last() =~= was);
}

/// What a group of writes makes of a key: the value of the last write of that key in the group,
/// and where the group has none, what there was.
pub proof fn lemma_group_reads<S: Storage>(
    before: &Db<S>,
    after: &Db<S>,
    writes: Seq<GroupWrite>,
    r: super::Result<()>,
    key: Seq<u8>,
    last: int,
)
    requires
        before.good(),
        after.group_outcome(before, writes, r),
        after.disk().room(),
        !after.disk().halted,
        -1 <= last < writes.len(),
        last >= 0 ==> writes[last]@.0 == key,
        forall|i: int| last < i < writes.len() ==> (#[trigger] writes[i])@.0 != key,
    ensures
        last >= 0 ==> read::lookup(after.contents(), key) == writes[last]@.1,
        last < 0 ==> read::lookup(after.contents(), key) == read::lookup(before.contents(), key),
{
    let steps = group::steps_of(writes);
    assert(steps.take(writes.len() as int) =~= steps);
    lemma_last_applied(before.contents(), writes, writes.len() as int, key, last);
}

proof fn lemma_last_applied(
    m: Map<Seq<u8>, Seq<u8>>,
    writes: Seq<GroupWrite>,
    n: int,
    key: Seq<u8>,
    last: int,
)
    requires
        -1 <= last < n <= writes.len() || n == 0 && last == -1,
        last >= 0 ==> writes[last]@.0 == key,
        forall|i: int| last < i < n ==> (#[trigger] writes[i])@.0 != key,
    ensures
        ({
            let found = read::lookup(applied(m, group::steps_of(writes).take(n)), key);
            found == if last >= 0 {
                writes[last]@.1
            } else {
                read::lookup(m, key)
            }
        }),
    decreases n,
{
    let steps = group::steps_of(writes);
    if n > 0 {
        assert(steps.take(n).drop_last() =~= steps.take(n - 1));
        assert(steps.take(n).last() == steps[n - 1]);
        let front = applied(m, steps.take(n - 1));
        read::lemma_reads_writes(front, writes[n - 1]@.0, writes[n - 1]@.1, key);
        if last < n - 1 {
            lemma_last_applied(m, writes, n - 1, key, last);
        }
    }
}

/// A flush that succeeds empties memory, however little there was in it, and with it the log;
/// every lookup finds what it found. One that has nothing to do does nothing.
pub proof fn lemma_flush_empties<S: Storage>(before: &Db<S>, after: &Db<S>, key: Seq<u8>)
    requires
        before.inv(),
        before.good(),
        after.flush_done(before, Ok(())),
        after.disk().room(),
        !after.disk().halted,
    ensures
        after.active().len() == 0,
        after.frozen_tables() == 0,
        before.active().len() > 0 || before.frozen_tables() > 0 ==> after.log().len() == 0,
        before.active().len() == 0 && before.frozen_tables() == 0 ==> *after == *before,
        read::lookup(after.contents(), key) == read::lookup(before.contents(), key),
{
    before.lemma_memory();
}

/// A write that memory has room for and that fails was refused by the log: the error is the
/// backend's, and memory and tables are as they were.
pub proof fn lemma_refused_write<S: Storage>(
    before: &Db<S>,
    after: &Db<S>,
    key: Seq<u8>,
    val: Option<Seq<u8>>,
    e: DbError,
)
    requires
        before.inv(),
        before.good(),
        after.write_outcome(before, key, val, Err(e)),
        after.disk().room(),
        memtable::footprint(before.active()) + key.len() + 32 + (match val {
            Some(v) => v.len(),
            None => 0,
        }) <= before.settings().memtable_size,
    ensures
        e is Storage,
        after.memory() == before.memory(),
        after.version() == before.version(),
        after.log() == before.log(),
        after.disk().halted,
{
    let rec = super::write_record(key, before.next_seq(), val);
    before.lemma_takes(rec);
}

} // verus!
