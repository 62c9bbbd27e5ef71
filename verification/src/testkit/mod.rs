//! Crash testing: run a workload against a simulated backend, cut the power at a
//! chosen operation, and look at what a recovery would find.

use vstd::prelude::*;

use crate::random;
use crate::storage;
use crate::storage::path;
use crate::storage::plain;
use crate::storage::sim;
use crate::storage::sim::ReportView;
use crate::storage::{
    CrashReport, Disk, FilePath, FsState, PathView, SimFs, Storage, StorageError, StorageResult,
};

verus! {

/// A backend that forwards to a [`SimFs`] and halts once that has crashed: the
/// operation during which power is lost may still report success, and every
/// mutating operation after it fails.
#[derive(Debug)]
pub struct CrashInjector {
    inner: SimFs,
    halted: bool,
}

impl CrashInjector {
    /// The simulator behind it.
    pub closed spec fn sim(&self) -> SimFs {
        self.inner
    }

    /// Power was lost.
    pub closed spec fn down(&self) -> bool {
        self.halted
    }

    /// The simulator is in order, and this backend is down exactly if it has
    /// crashed.
    pub open spec fn inv(&self) -> bool {
        &&& self.sim().inv()
        &&& self.down() == self.sim().report() is Some
        &&& self.down() ==> self.sim().armed() is None
    }

    /// Forwards to `inner`, which has not crashed yet.
    pub fn new(inner: SimFs) -> (c: Self)
        requires
            inner.inv(),
            inner.report() is None,
        ensures
            c.inv(),
            c.sim() == inner,
            !c.down(),
    {
        CrashInjector { inner, halted: false }
    }

    /// Rejects a mutating operation if power was lost.
    fn guard(&self, path: &FilePath) -> (r: StorageResult<()>)
        ensures
            r is Ok <==> !self.down(),
            r matches Err(e) ==> (e matches StorageError::Io { path: p, .. } && p@ == path@),
    {
        if self.halted {
            return Err(
                StorageError::Io {
                    path: path.clone(),
                    message: String::from_str("simulated power loss: process halted after crash"),
                },
            );
        }
        Ok(())
    }

    /// Notes whether the operation just forwarded met a crash.
    fn observe(&mut self)
        ensures
            final(self).sim() == old(self).sim(),
            final(self).down() == (old(self).down() || old(self).sim().report() is Some),
    {
        if self.inner.last_report().is_some() {
            self.halted = true;
        }
    }

    /// The simulator.
    fn into_inner(self) -> (s: SimFs)
        ensures
            s == self.sim(),
    {
        self.inner
    }
}

/// An operation on `path` was rejected because power was lost.
pub open spec fn rejected<T>(r: StorageResult<T>, path: PathView) -> bool {
    r matches Err(StorageError::Io { path: p, .. }) && p@ == path
}

/// A crash that was armed to fire as soon as `n` operations were done has not fired yet, and
/// fewer were done; or it has fired then, and so it was reported.
pub open spec fn on_course(c: CrashInjector, n: u64) -> bool {
    &&& c.inv()
    &&& if c.down() {
        c.sim().ops() == n && c.sim().report()->0.ops_before_crash == n
    } else {
        c.sim().ops() < n && c.sim().armed() == Some(n)
    }
}

/// An operation leaves a crash on its course.
pub open spec fn stays_on_course(before: CrashInjector, after: CrashInjector) -> bool {
    forall|n: u64| on_course(before, n) ==> #[trigger] on_course(after, n)
}

impl Storage for CrashInjector {
    open spec fn disk(&self) -> Disk {
        Disk {
            fs: self.sim().fs(),
            halted: self.down(),
            reliable: self.sim().armed() is None && !self.down(),
            dependable: true,
            spare: self.sim().spare(),
        }
    }

    open spec fn wf(&self) -> bool {
        self.inv()
    }

    fn create(&mut self, path: &FilePath) -> (r: StorageResult<()>)
        ensures
            stays_on_course(*old(self), *final(self)),
            old(self).down() ==> *final(self) == *old(self) && rejected(r, path@),
            !old(self).down() ==> sim::create_done(
                &old(self).sim(),
                path@,
                &final(self).sim(),
                r,
            ),
    {
        match self.guard(path) {
            Ok(_) => {},
            Err(e) => {
                return Err(e);
            },
        }
        let r = self.inner.create(path);
        self.observe();
        r
    }

    fn open(&self, path: &FilePath) -> (r: StorageResult<()>)
        ensures
            sim::open_seen(&self.sim(), path@, r),
    {
        self.inner.open(path)
    }

    fn append(&mut self, path: &FilePath, data: &[u8]) -> (r: StorageResult<u64>)
        ensures
            stays_on_course(*old(self), *final(self)),
            old(self).down() ==> *final(self) == *old(self) && rejected(r, path@),
            !old(self).down() ==> sim::append_done(
                &old(self).sim(),
                path@,
                data@,
                &final(self).sim(),
                r,
            ),
    {
        match self.guard(path) {
            Ok(_) => {},
            Err(e) => {
                return Err(e);
            },
        }
        let r = self.inner.append(path, data);
        self.observe();
        r
    }

    fn write_at(&mut self, path: &FilePath, offset: u64, data: &[u8]) -> (r: StorageResult<()>)
        ensures
            stays_on_course(*old(self), *final(self)),
            old(self).down() ==> *final(self) == *old(self) && rejected(r, path@),
            !old(self).down() ==> sim::write_at_done(
                &old(self).sim(),
                path@,
                offset,
                data@,
                &final(self).sim(),
                r,
            ),
    {
        match self.guard(path) {
            Ok(_) => {},
            Err(e) => {
                return Err(e);
            },
        }
        let r = self.inner.write_at(path, offset, data);
        self.observe();
        r
    }

    fn read_at(&self, path: &FilePath, offset: u64, n: usize) -> (r: StorageResult<Vec<u8>>)
        ensures
            sim::read_at_seen(&self.sim(), path@, offset, n, r),
    {
        self.inner.read_at(path, offset, n)
    }

    fn sync_file(&mut self, path: &FilePath) -> (r: StorageResult<()>)
        ensures
            stays_on_course(*old(self), *final(self)),
            old(self).down() ==> *final(self) == *old(self) && rejected(r, path@),
            !old(self).down() ==> sim::sync_file_done(
                &old(self).sim(),
                path@,
                &final(self).sim(),
                r,
            ),
    {
        match self.guard(path) {
            Ok(_) => {},
            Err(e) => {
                return Err(e);
            },
        }
        let r = self.inner.sync_file(path);
        self.observe();
        r
    }

    fn sync_dir(&mut self, dir: &[u8]) -> (r: StorageResult<()>)
        ensures
            stays_on_course(*old(self), *final(self)),
            old(self).down() ==> *final(self) == *old(self) && rejected(
                r,
                path::located(dir@, Seq::<u8>::empty()),
            ),
            !old(self).down() ==> sim::sync_dir_done(
                &old(self).sim(),
                plain(dir@),
                &final(self).sim(),
                r,
            ),
    {
        let whole = FilePath::new(dir, &[]);
        assert(whole.name@ =~= Seq::<u8>::empty());
        match self.guard(&whole) {
            Ok(_) => {},
            Err(e) => {
                return Err(e);
            },
        }
        let r = self.inner.sync_dir(dir);
        self.observe();
        r
    }

    fn rename(&mut self, from: &FilePath, to: &FilePath) -> (r: StorageResult<()>)
        ensures
            stays_on_course(*old(self), *final(self)),
            old(self).down() ==> *final(self) == *old(self) && rejected(r, from@),
            !old(self).down() ==> sim::rename_done(
                &old(self).sim(),
                from@,
                to@,
                &final(self).sim(),
                r,
            ),
    {
        match self.guard(from) {
            Ok(_) => {},
            Err(e) => {
                return Err(e);
            },
        }
        let r = self.inner.rename(from, to);
        self.observe();
        r
    }

    fn delete(&mut self, path: &FilePath) -> (r: StorageResult<()>)
        ensures
            stays_on_course(*old(self), *final(self)),
            old(self).down() ==> *final(self) == *old(self) && rejected(r, path@),
            !old(self).down() ==> sim::delete_done(
                &old(self).sim(),
                path@,
                &final(self).sim(),
                r,
            ),
    {
        match self.guard(path) {
            Ok(_) => {},
            Err(e) => {
                return Err(e);
            },
        }
        let r = self.inner.delete(path);
        self.observe();
        r
    }

    fn list(&self, dir: &[u8]) -> (r: StorageResult<Vec<FilePath>>)
        ensures
            sim::list_seen(&self.sim(), plain(dir@), r),
    {
        self.inner.list(dir)
    }

    fn len(&self, path: &FilePath) -> (r: StorageResult<u64>)
        ensures
            sim::len_seen(&self.sim(), path@, r),
    {
        self.inner.len(path)
    }
}

/// A new backend, empty, up and seeded with `seed`, on which a crash is armed as
/// `armed` says.
pub open spec fn fresh(s: CrashInjector, seed: u64, armed: Option<u64>) -> bool {
    &&& s.inv()
    &&& !s.down()
    &&& s.sim().fs() == (FsState { next: 1, ..FsState::empty() })
    &&& s.sim().ops() == 0
    &&& s.sim().armed() == armed
    &&& s.sim().report() is None
    &&& s.sim().unsynced() == Map::<nat, u64>::empty()
    &&& s.sim().stamp() == 0
    &&& s.sim().dice() == random::seeded_state(seed)
}

/// `after` is what a workload that ended with `left` leaves to recovery: if the crash
/// fired, the simulator as it is, and otherwise what a crash now makes of it.
pub open spec fn crashed(left: CrashInjector, after: SimFs, report: ReportView) -> bool {
    &&& after.inv()
    &&& after.armed() is None
    &&& after.report() == Some(report)
    &&& after.ops() == left.sim().ops()
    &&& left.down() ==> after == left.sim()
    &&& !left.down() ==> sim::crash_outcome(
        left.sim().fs(),
        left.sim().unsynced(),
        left.sim().ops(),
        left.sim().dice(),
        after.fs(),
        report,
        after.dice(),
    ) && storage::power_loss(left.sim().fs(), after.fs())
}

/// A new backend, armed to crash as soon as `crash_after` operations were done.
fn armed_injector(seed: u64, crash_after: u64) -> (s: CrashInjector)
    ensures
        fresh(s, seed, Some(crash_after)),
{
    let mut sim = SimFs::with_seed(seed);
    sim.arm_crash_after(crash_after);
    CrashInjector::new(sim)
}

/// What a workload leaves to recovery.
fn power_cut(left: CrashInjector) -> (r: (SimFs, CrashReport))
    requires
        left.inv(),
    ensures
        crashed(left, r.0, r.1@),
{
    let mut sim = left.into_inner();
    let report = match sim.last_report() {
        Some(report) => report,
        None => sim.crash(),
    };
    (sim, report)
}

/// Runs `body` against a fresh, seeded backend and returns the number of mutating
/// operations it performed: what a crash sweep ranges over.
pub fn count_ops<B: FnOnce(CrashInjector) -> CrashInjector>(seed: u64, body: B) -> (n: u64)
    requires
        forall|s: CrashInjector| fresh(s, seed, None) ==> #[trigger] call_requires(body, (s,)),
    ensures
        exists|s: CrashInjector, t: CrashInjector|
            fresh(s, seed, None) && #[trigger] call_ensures(body, (s,), t) && n == t.sim().ops(),
{
    let s = CrashInjector::new(SimFs::with_seed(seed));
    let left = body(s);
    left.into_inner().op_count()
}

/// `body` was run on a new backend seeded with `seed`, with a crash armed after
/// `crash_after` operations, and `verify` on what that left to recovery.
pub open spec fn crash_run<
    B: FnOnce(CrashInjector) -> CrashInjector,
    V: FnOnce(SimFs, &CrashReport),
>(body: B, verify: V, seed: u64, crash_after: u64, report: CrashReport) -> bool {
    exists|s: CrashInjector, t: CrashInjector, after: SimFs|
        {
            &&& fresh(s, seed, Some(crash_after))
            &&& #[trigger] call_ensures(body, (s,), t)
            &&& crashed(t, after, report@)
            &&& #[trigger] call_ensures(verify, (after, &report), ())
        }
}

/// A crash is reported with the operations that it was armed for, if the workload got so far,
/// and otherwise with those that the workload did, which are fewer. A workload gets so far
/// that is no shorter, and every operation leaves the crash on its course.
pub proof fn lemma_crash_reports<
    B: FnOnce(CrashInjector) -> CrashInjector,
    V: FnOnce(SimFs, &CrashReport),
>(body: B, verify: V, seed: u64, crash_after: u64, report: CrashReport)
    requires
        crash_run(body, verify, seed, crash_after, report),
        crash_after > 0,
        forall|s: CrashInjector, t: CrashInjector|
            on_course(s, crash_after) && #[trigger] call_ensures(body, (s,), t) ==> on_course(
                t,
                crash_after,
            ),
    ensures
        exists|s: CrashInjector, t: CrashInjector|
            {
                &&& fresh(s, seed, Some(crash_after))
                &&& #[trigger] call_ensures(body, (s,), t)
                &&& t.sim().ops() >= crash_after ==> t.down() && report@.ops_before_crash
                    == crash_after
                &&& t.sim().ops() < crash_after ==> !t.down() && report@.ops_before_crash
                    == t.sim().ops()
            },
{
    let (s, t, after) = choose|s: CrashInjector, t: CrashInjector, after: SimFs|
        {
            &&& fresh(s, seed, Some(crash_after))
            &&& #[trigger] call_ensures(body, (s,), t)
            &&& crashed(t, after, report@)
            &&& #[trigger] call_ensures(verify, (after, &report), ())
        };
    assert(on_course(s, crash_after));
    assert(on_course(t, crash_after));
}

/// `body` and `verify` were run with a crash after `crash_after` operations.
pub open spec fn crash_tried<
    B: FnOnce(CrashInjector) -> CrashInjector,
    V: FnOnce(SimFs, &CrashReport),
>(body: B, verify: V, seed: u64, crash_after: u64) -> bool {
    exists|report: CrashReport| #[trigger] crash_run(body, verify, seed, crash_after, report)
}

/// Runs `body` against a fresh, seeded backend with a crash armed to fire the instant
/// `crash_after` mutating operations have completed, then hands what is left to
/// `verify`. If the workload is too short for the crash to fire, power is lost at its
/// end, so that `verify` always sees what a crash left.
pub fn run_crash<B: FnOnce(CrashInjector) -> CrashInjector, V: FnOnce(SimFs, &CrashReport)>(
    seed: u64,
    crash_after: u64,
    body: B,
    verify: V,
) -> (r: CrashReport)
    requires
        forall|s: CrashInjector|
            fresh(s, seed, Some(crash_after)) ==> #[trigger] call_requires(body, (s,)),
        forall|s: CrashInjector, t: CrashInjector|
            fresh(s, seed, Some(crash_after)) && #[trigger] call_ensures(body, (s,), t) ==> t.inv(),
        forall|t: CrashInjector, after: SimFs, report: CrashReport|
            #![trigger crashed(t, after, report@), call_requires(verify, (after, &report))]
            crashed(t, after, report@) ==> call_requires(verify, (after, &report)),
    ensures
        crash_run(body, verify, seed, crash_after, r),
{
    let s = armed_injector(seed, crash_after);
    let left = body(s);
    let (sim, report) = power_cut(left);
    verify(sim, &report);
    report
}

/// Sweeps every crash point: counts the workload's mutating operations, then runs it
/// once for every crash point from the first operation to the last, verifying what
/// each leaves. Returns how many crash points there were.
pub fn crash_sweep<B: Fn(CrashInjector) -> CrashInjector, V: Fn(SimFs, &CrashReport)>(
    seed: u64,
    body: B,
    verify: V,
) -> (n: u64)
    requires
        forall|s: CrashInjector, armed: Option<u64>|
            #![trigger fresh(s, seed, armed), call_requires(body, (s,))]
            fresh(s, seed, armed) ==> call_requires(body, (s,)),
        forall|s: CrashInjector, t: CrashInjector, armed: Option<u64>|
            #![trigger fresh(s, seed, armed), call_ensures(body, (s,), t)]
            fresh(s, seed, armed) && call_ensures(body, (s,), t) ==> t.inv(),
        forall|t: CrashInjector, after: SimFs, report: CrashReport|
            #![trigger crashed(t, after, report@), call_requires(verify, (after, &report))]
            crashed(t, after, report@) ==> call_requires(verify, (after, &report)),
    ensures
        exists|s: CrashInjector, t: CrashInjector|
            fresh(s, seed, None) && #[trigger] call_ensures(body, (s,), t) && n == t.sim().ops(),
        forall|i: u64|
            1 <= i <= n ==> #[trigger] crash_tried(body, verify, seed, i),
{
    let s = CrashInjector::new(SimFs::with_seed(seed));
    assert(fresh(s, seed, None));
    let n: u64 = body(s).into_inner().op_count();
    let mut i: u64 = 0;
    while i < n
        invariant
            i <= n,
            forall|s: CrashInjector, armed: Option<u64>|
                #![trigger fresh(s, seed, armed), call_requires(body, (s,))]
                fresh(s, seed, armed) ==> call_requires(body, (s,)),
            forall|s: CrashInjector, t: CrashInjector, armed: Option<u64>|
                #![trigger fresh(s, seed, armed), call_ensures(body, (s,), t)]
                fresh(s, seed, armed) && call_ensures(body, (s,), t) ==> t.inv(),
            forall|t: CrashInjector, after: SimFs, report: CrashReport|
                #![trigger crashed(t, after, report@), call_requires(verify, (after, &report))]
                crashed(t, after, report@) ==> call_requires(verify, (after, &report)),
            forall|j: u64|
                1 <= j <= i ==> #[trigger] crash_tried(body, verify, seed, j),
        decreases n - i,
    {
        i = i + 1;
        let s = armed_injector(seed, i);
        let left = body(s);
        let (sim, report) = power_cut(left);
        verify(sim, &report);
        assert(crash_run(body, verify, seed, i, report));
    }
    n
}

/// What a workload leaves to recovery: what the crash left if it fired, and otherwise what a
/// power loss at the end of the workload leaves, whose files are those whose names were
/// durable.
pub proof fn lemma_left_to_recovery(left: CrashInjector, after: SimFs, report: ReportView)
    requires
        crashed(left, after, report),
    ensures
        left.down() ==> after == left.sim(),
        !left.down() ==> storage::power_loss(left.sim().fs(), after.fs()),
        !left.down() ==> after.fs().live == left.sim().fs().durable,
        after.armed() is None,
        after.report() == Some(report),
        after.ops() == left.sim().ops(),
{
}

/// What a workload begins with: no file, nothing done, no power lost.
pub proof fn lemma_fresh(s: CrashInjector, seed: u64, armed: Option<u64>, p: PathView)
    requires
        fresh(s, seed, armed),
    ensures
        !s.down(),
        !s.sim().fs().live.contains_key(p),
        !s.sim().fs().durable.contains_key(p),
        s.sim().ops() == 0,
        s.sim().armed() == armed,
        s.sim().report() is None,
        armed matches Some(n) ==> n > 0 ==> on_course(s, n),
{
}

} // verus!
