//! Write-ahead log: checksum-framed, segmented, with a mode-driven commit
//! pipeline.
//!
//! Every mutation is appended here as a framed record before it touches the
//! memtable, so a crash can be recovered by replaying the log.
//!
//! # Segments
//!
//! The log is split into monotonically numbered segment files. Once a flush has
//! captured every record, all segments are released in one step. A new segment
//! is rolled when the active one crosses [`WalOptions::segment_size`].
//!
//! # The commit pipeline and its three durability modes
//!
//! * [`Durability::Always`]: sync on every commit.
//! * [`Durability::GroupCommit`]: concurrent writers enqueue their frame and
//!   park; a single leader drains the whole queue, writes every queued frame and
//!   issues one sync that makes all of them durable. The bookkeeping of who
//!   leads, who waits and who is done is [`Coord`].
//! * [`Durability::OsBuffered`]: acknowledge without a durability barrier.

use vstd::prelude::*;

use crate::checksum;
use crate::codec;
use crate::names;
use crate::storage;
use crate::storage::facts;
use crate::storage::replace;
use crate::storage::plain;
use crate::storage::{FileData, FilePath, FsState, PathView, Storage, StorageError, StorageResult};

pub mod commit;
pub mod frame;
pub mod laws;
pub mod recovery;
pub mod segment;

use segment::Segment;

pub use recovery::Recovered;
pub use recovery::StopReason;

verus! {

/// Default soft size at which the active segment is rolled (4 MiB).
pub const DEFAULT_SEGMENT_SIZE: u64 = 4 * 1024 * 1024;

/// The durability contract that [`Wal::append`] honours before returning.
#[derive(Debug, Clone, Copy, PartialEq, Eq, Structural)]
pub enum Durability {
    /// Sync on every commit.
    Always,
    /// Batch concurrent writers into one sync.
    GroupCommit,
    /// Acknowledge without requiring a durability barrier.
    OsBuffered,
}

impl Default for Durability {
    fn default() -> (d: Self)
        ensures
            d == Durability::Always,
    {
        Durability::Always
    }
}

impl Durability {
    /// This mode guarantees that an acknowledged write survives a crash.
    pub open spec fn durable(self) -> bool {
        self == Durability::Always || self == Durability::GroupCommit
    }

    /// Whether this mode guarantees that an acknowledged write survives a crash.
    pub fn is_durable(self) -> (r: bool)
        ensures
            r == self.durable(),
            r <==> self != Durability::OsBuffered,
    {
        match self {
            Durability::Always => true,
            Durability::GroupCommit => true,
            Durability::OsBuffered => false,
        }
    }
}

/// Configuration for opening a [`Wal`].
#[derive(Debug, Clone)]
pub struct WalOptions {
    /// The durability contract for commits.
    pub durability: Durability,
    /// Soft threshold at which the active segment is rolled.
    pub segment_size: u64,
}

impl Default for WalOptions {
    fn default() -> (o: Self)
        ensures
            o.durability == Durability::Always,
            o.segment_size == DEFAULT_SEGMENT_SIZE,
            o.segment_size == 0x40_0000,
    {
        WalOptions { durability: Durability::default(), segment_size: DEFAULT_SEGMENT_SIZE }
    }
}

/// The views of numbered byte strings.
pub open spec fn numbered_bytes(v: Seq<(u64, Vec<u8>)>) -> Seq<(u64, Seq<u8>)> {
    Seq::new(v.len(), |i: int| (v[i].0, v[i].1@))
}

/// What a writer that has enqueued its frame is to do next.
#[derive(Debug)]
pub enum CommitStep {
    /// A leader already made the frame durable.
    Done,
    /// Another writer is syncing a batch: wait until it has published.
    Wait,
    /// Lead: write and sync this batch, then publish what became of it.
    Lead(Vec<(u64, Vec<u8>)>),
}

/// What a [`Coord`] holds.
#[verifier::ext_equal]
pub struct CoordView {
    /// The frames that wait for a barrier, each with its commit number.
    pub queue: Seq<(u64, Seq<u8>)>,
    /// The last commit number handed out.
    pub next_seq: u64,
    /// The highest commit number that is durable.
    pub synced_through: u64,
    /// How many frames the leader has with it.
    pub taken: nat,
    /// A leader is at work.
    pub leader_active: bool,
}

/// Commit coordination: the pending queue and the bookkeeping that lets one
/// leader sync a whole batch for every writer it covers.
#[derive(Debug)]
pub struct Coord {
    queue: Vec<(u64, Vec<u8>)>,
    next_seq: u64,
    synced_through: u64,
    leader_active: bool,
}

/// What a [`Coord`] whose leader has `taken` frames with it looks like.
pub open spec fn coordinated(c: CoordView) -> bool {
    &&& c.queue.len() + c.taken == c.next_seq - c.synced_through
    &&& c.leader_active == (c.taken > 0)
    &&& forall|i: int|
        0 <= i < c.queue.len() ==> (#[trigger] c.queue[i]).0 == c.synced_through + c.taken + 1 + i
}

/// `batch` is what follows the commits that are durable.
pub open spec fn is_next_batch(c: CoordView, batch: Seq<(u64, Seq<u8>)>) -> bool {
    &&& batch.len() == c.taken
    &&& forall|i: int|
        0 <= i < batch.len() ==> (#[trigger] batch[i]).0 == c.synced_through + 1 + i
}

impl View for Coord {
    type V = CoordView;

    closed spec fn view(&self) -> CoordView {
        CoordView {
            queue: numbered_bytes(self.queue@),
            next_seq: self.next_seq,
            synced_through: self.synced_through,
            taken: if self.leader_active {
                (self.next_seq - self.synced_through - self.queue@.len()) as nat
            } else {
                0
            },
            leader_active: self.leader_active,
        }
    }
}

impl Coord {
    /// No commits yet.
    pub fn new() -> (c: Coord)
        ensures
            coordinated(c@),
            c@.queue.len() == 0,
            c@.next_seq == 0,
            c@.synced_through == 0,
            !c@.leader_active,
    {
        let c = Coord { queue: Vec::new(), next_seq: 0, synced_through: 0, leader_active: false };
        assert(c@.queue =~= Seq::empty());
        c
    }

    /// Queues a frame and claims a commit number for it.
    pub fn enqueue(&mut self, frame: Vec<u8>) -> (seq: u64)
        requires
            coordinated(old(self)@),
            old(self)@.next_seq < u64::MAX,
        ensures
            coordinated(final(self)@),
            seq == old(self)@.next_seq + 1,
            final(self)@ == (CoordView {
                queue: old(self)@.queue.push((seq, frame@)),
                next_seq: seq,
                ..old(self)@
            }),
    {
        self.next_seq = self.next_seq + 1;
        let seq: u64 = self.next_seq;
        let ghost before = self.queue@;
        self.queue.push((seq, frame));
        assert(numbered_bytes(self.queue@) =~= numbered_bytes(before).push((seq, frame@)));
        seq
    }

    /// What the writer with commit number `seq` is to do. When it is to lead,
    /// it is handed the whole queue.
    pub fn poll(&mut self, seq: u64) -> (step: CommitStep)
        requires
            coordinated(old(self)@),
            1 <= seq <= old(self)@.next_seq,
        ensures
            coordinated(final(self)@),
            step is Done <==> old(self)@.synced_through >= seq,
            step is Wait <==> old(self)@.synced_through < seq && old(self)@.leader_active,
            step is Done || step is Wait ==> final(self)@ == old(self)@,
            step matches CommitStep::Lead(batch) ==> {
                &&& numbered_bytes(batch@) == old(self)@.queue
                &&& final(self)@ == (CoordView {
                    queue: Seq::empty(),
                    taken: batch@.len(),
                    leader_active: true,
                    ..old(self)@
                })
                &&& is_next_batch(final(self)@, numbered_bytes(batch@))
                &&& exists|i: int| 0 <= i < batch@.len() && (#[trigger] batch@[i]).0 == seq
            },
    {
        if self.synced_through >= seq {
            return CommitStep::Done;
        }
        if self.leader_active {
            return CommitStep::Wait;
        }
        let ghost before = self@;
        let mut batch: Vec<(u64, Vec<u8>)> = Vec::new();
        std::mem::swap(&mut batch, &mut self.queue);
        self.leader_active = true;
        proof {
            assert(self@.queue =~= Seq::empty());
            let i = seq - before.synced_through - 1;
            assert(before.queue[i].0 == seq);
            assert(batch@[i].0 == seq);
        }
        CommitStep::Lead(batch)
    }

    /// Publishes what became of the leader's batch: durable, or back at the
    /// front of the queue for a later leader to retry.
    pub fn publish(&mut self, batch: Vec<(u64, Vec<u8>)>, ok: bool)
        requires
            coordinated(old(self)@),
            old(self)@.leader_active,
            is_next_batch(old(self)@, numbered_bytes(batch@)),
        ensures
            coordinated(final(self)@),
            ok ==> final(self)@ == (CoordView {
                synced_through: (old(self)@.synced_through + old(self)@.taken) as u64,
                taken: 0,
                leader_active: false,
                ..old(self)@
            }),
            !ok ==> final(self)@ == (CoordView {
                queue: numbered_bytes(batch@) + old(self)@.queue,
                taken: 0,
                leader_active: false,
                ..old(self)@
            }),
    {
        let ghost pre = self@;
        self.leader_active = false;
        if ok {
            let n: usize = batch.len();
            proof {
                assert(numbered_bytes(batch@)[n - 1].0 == batch@[n - 1].0);
            }
            let highest: u64 = batch[n - 1].0;
            if highest > self.synced_through {
                self.synced_through = highest;
            }
        } else {
            let mut restored: Vec<(u64, Vec<u8>)> = batch;
            let ghost front = restored@;
            let ghost back = self.queue@;
            restored.append(&mut self.queue);
            assert(numbered_bytes(restored@) =~= numbered_bytes(front) + numbered_bytes(back));
            self.queue = restored;
        }
    }
}

/// One segment of a log: its id and the records in it.
#[verifier::ext_equal]
pub struct LogSegment {
    pub id: u64,
    pub records: Seq<Seq<u8>>,
}

/// The ids and file contents of the segments of a log.
pub open spec fn log_model(segs: Seq<LogSegment>) -> Seq<(u64, Seq<u8>)> {
    Seq::new(segs.len(), |i: int| (segs[i].id, frame::frames_of(segs[i].records)))
}

/// All records of a log, in order.
pub open spec fn all_records(segs: Seq<LogSegment>) -> Seq<Seq<u8>>
    decreases segs.len(),
{
    if segs.len() == 0 {
        Seq::empty()
    } else {
        segs[0].records + all_records(segs.drop_first())
    }
}

/// Every record of every segment can be framed.
pub open spec fn all_framed(segs: Seq<LogSegment>) -> bool {
    forall|i: int| 0 <= i < segs.len() ==> frame::all_fit((#[trigger] segs[i]).records)
}

/// The log with `extra` behind the records of its last segment.
pub open spec fn with_last(segs: Seq<LogSegment>, extra: Seq<Seq<u8>>) -> Seq<LogSegment> {
    segs.update(
        segs.len() - 1,
        LogSegment { records: segs.last().records + extra, ..segs.last() },
    )
}

/// What recovery will find in `dir` begins with `lo` and is how `hi` begins.
pub open spec fn left_log(
    fs: FsState,
    dir: Seq<u8>,
    lo: Seq<Seq<u8>>,
    hi: Seq<Seq<u8>>,
) -> bool {
    exists|files: Seq<(u64, Seq<u8>)>|
        {
            &&& #[trigger] recovery::log_stable(fs, dir, files)
            &&& files.len() > 0
            &&& recovery::is_prefix(lo, recovery::replay(files).records)
            &&& recovery::is_prefix(recovery::replay(files).records, hi)
        }
}

pub proof fn lemma_all_records_push(segs: Seq<LogSegment>, s: LogSegment)
    ensures
        all_records(segs.push(s)) == all_records(segs) + s.records,
    decreases segs.len(),
{
    if segs.len() == 0 {
        assert(segs.push(s).drop_first() =~= Seq::empty());
        assert(all_records(segs.push(s).drop_first()) =~= Seq::empty());
        assert(all_records(segs.push(s)) =~= all_records(segs) + s.records);
    } else {
        lemma_all_records_push(segs.drop_first(), s);
        assert(segs.push(s).drop_first() =~= segs.drop_first().push(s));
        assert(all_records(segs.push(s)) =~= all_records(segs) + s.records);
    }
}

pub proof fn lemma_all_records_last(segs: Seq<LogSegment>, extra: Seq<Seq<u8>>)
    requires
        segs.len() > 0,
    ensures
        all_records(with_last(segs, extra)) == all_records(segs) + extra,
{
    let front = segs.drop_last();
    let last = segs.last();
    lemma_all_records_push(front, last);
    assert(front.push(last) =~= segs);
    let last2 = LogSegment { records: last.records + extra, ..last };
    lemma_all_records_push(front, last2);
    assert(front.push(last2) =~= with_last(segs, extra));
    assert(all_records(with_last(segs, extra)) =~= all_records(segs) + extra);
}

/// Replaying whole segments and one more file finds their records, and in the
/// file what scanning it finds.
pub proof fn lemma_replay_last(segs: Seq<LogSegment>, id: u64, bytes: Seq<u8>)
    requires
        all_framed(segs),
    ensures
        recovery::replay(log_model(segs).push((id, bytes))) == (recovery::Replay {
            records: all_records(segs) + recovery::scan(bytes).records,
            tail_segment: Some(id),
            tail_valid_len: recovery::scan(bytes).valid_len,
            stop_reason: recovery::scan(bytes).reason,
        }),
    decreases segs.len(),
{
    let files = log_model(segs).push((id, bytes));
    if segs.len() == 0 {
        assert(all_records(segs) + recovery::scan(bytes).records =~= recovery::scan(
            bytes,
        ).records);
    } else {
        let rest = segs.drop_first();
        assert forall|i: int| 0 <= i < rest.len() implies frame::all_fit(
            (#[trigger] rest[i]).records,
        ) by {
            assert(frame::all_fit(segs[i + 1].records));
        }
        lemma_replay_last(rest, id, bytes);
        assert(frame::all_fit(segs[0].records));
        recovery::lemma_scan_clean(segs[0].records);
        assert(files.drop_first() =~= log_model(rest).push((id, bytes)));
        assert(all_records(segs) + recovery::scan(bytes).records =~= segs[0].records + (all_records(
            rest,
        ) + recovery::scan(bytes).records));
    }
}

/// Replaying whole segments finds all their records.
pub proof fn lemma_replay_model(segs: Seq<LogSegment>)
    requires
        all_framed(segs),
    ensures
        recovery::replay(log_model(segs)).records == all_records(segs),
{
    if segs.len() > 0 {
        let front = segs.drop_last();
        let last = segs.last();
        assert forall|i: int| 0 <= i < front.len() implies frame::all_fit(
            (#[trigger] front[i]).records,
        ) by {
            assert(frame::all_fit(segs[i].records));
        }
        lemma_replay_last(front, last.id, frame::frames_of(last.records));
        assert(frame::all_fit(segs[segs.len() - 1].records));
        recovery::lemma_scan_clean(last.records);
        lemma_all_records_push(front, last);
        assert(front.push(last) =~= segs);
        assert(log_model(front).push((last.id, frame::frames_of(last.records))) =~= log_model(
            segs,
        ));
    }
}

/// The path of the last segment.
spec fn last_path(dir: Seq<u8>, files: Seq<(u64, Seq<u8>)>) -> PathView {
    segment::segment_at(dir, files.last().0)
}

/// A change of the last segment's bytes leaves a log.
proof fn lemma_log_written(
    fs: FsState,
    post: FsState,
    dir: Seq<u8>,
    files: Seq<(u64, Seq<u8>)>,
    d: FileData,
)
    requires
        facts::sound(fs),
        recovery::log_on(fs, dir, files),
        files.len() > 0,
        post == (FsState { data: fs.data.insert(fs.live[last_path(dir, files)], d), ..fs }),
        facts::keeps(fs, post, set![last_path(dir, files)]),
    ensures
        recovery::log_on(post, dir, recovery::set_last(files, d.live)),
        d.live == d.synced ==> recovery::log_stable(post, dir, recovery::set_last(files, d.live)),
{
    let p = last_path(dir, files);
    let last = files.len() - 1;
    let files2 = recovery::set_last(files, d.live);
    assert forall|i: int| 0 <= i < files2.len() implies (#[trigger] files2[i]).0 == files[i].0 by {}
    assert forall|i: int, j: int| 0 <= i < j < files2.len() implies (#[trigger] files2[i]).0 < (
    #[trigger] files2[j]).0 by {
        assert(files[i].0 < files[j].0);
    }
    assert forall|i: int| 0 <= i < files2.len() - 1 implies facts::stable(
        post,
        segment::segment_at(dir, (#[trigger] files2[i]).0),
        files2[i].1,
    ) && recovery::scan(files2[i].1).reason == StopReason::Clean by {
        assert(files2[i] == files[i]);
        assert(files[i].0 < files[last].0);
        if segment::segment_at(dir, files[i].0) == p {
            recovery::lemma_segment_at_injective(dir, files[i].0, files[last].0);
        }
        assert(facts::stable(fs, segment::segment_at(dir, files[i].0), files[i].1));
    }
    assert forall|i: int| 0 <= i < files2.len() implies recovery::bound(
        post,
        segment::segment_at(dir, (#[trigger] files2[i]).0),
    ) && post.content(segment::segment_at(dir, files2[i].0)) == files2[i].1 by {
        assert(recovery::bound(fs, segment::segment_at(dir, files[i].0)));
        if i < last {
            assert(facts::stable(post, segment::segment_at(dir, files2[i].0), files2[i].1));
        }
    }
    assert forall|q: PathView| #[trigger]
        facts::named(post, q) && q.0 == dir && names::segment_id(q.1)
            is Some implies exists|i: int|
        0 <= i < files2.len() && q == segment::segment_at(dir, (#[trigger] files2[i]).0) by {
        assert(facts::named(fs, q));
        let i = choose|i: int|
            0 <= i < files.len() && q == segment::segment_at(dir, (#[trigger] files[i]).0);
        assert(q == segment::segment_at(dir, files2[i].0));
    }
    if d.live == d.synced {
        assert forall|i: int| 0 <= i < files2.len() implies facts::stable(
            post,
            segment::segment_at(dir, (#[trigger] files2[i]).0),
            files2[i].1,
        ) by {
            if i == last {
                assert(recovery::bound(fs, segment::segment_at(dir, files[i].0)));
                assert(d =~= (FileData { live: d.live, synced: d.live }));
            }
        }
    }
}

/// After a power loss, the last segment may be torn and the others are whole.
proof fn lemma_log_crash(
    fs: FsState,
    after: FsState,
    dir: Seq<u8>,
    files: Seq<(u64, Seq<u8>)>,
)
    requires
        facts::sound(fs),
        recovery::log_on(fs, dir, files),
        files.len() > 0,
        storage::power_loss(fs, after),
    ensures
        recovery::log_stable(after, dir, recovery::set_last(files, after.content(last_path(dir, files)))),
        storage::torn(
            fs.data[fs.live[last_path(dir, files)]],
            after.content(last_path(dir, files)),
        ),
{
    let p = last_path(dir, files);
    let last = files.len() - 1;
    let files2 = recovery::set_last(files, after.content(p));
    facts::lemma_power_loss_keeps(fs, after);
    assert(recovery::bound(fs, segment::segment_at(dir, files[last].0)));
    assert(fs.durable.contains_key(p));
    let id = fs.live[p];
    assert(after.data.contains_key(id));
    assert(after.data[id] =~= (FileData {
        live: after.content(p),
        synced: after.content(p),
    }));
    assert forall|i: int, j: int| 0 <= i < j < files2.len() implies (#[trigger] files2[i]).0 < (
    #[trigger] files2[j]).0 by {
        assert(files[i].0 < files[j].0);
    }
    assert forall|i: int| 0 <= i < files2.len() implies facts::stable(
        after,
        segment::segment_at(dir, (#[trigger] files2[i]).0),
        files2[i].1,
    ) by {
        if i < last {
            assert(files2[i] == files[i]);
            assert(facts::stable(fs, segment::segment_at(dir, files[i].0), files[i].1));
        }
    }
    assert forall|i: int| 0 <= i < files2.len() - 1 implies recovery::scan(
        (#[trigger] files2[i]).1,
    ).reason == StopReason::Clean by {
        assert(files2[i] == files[i]);
    }
    assert forall|q: PathView| #[trigger]
        facts::named(after, q) && q.0 == dir && names::segment_id(q.1)
            is Some implies exists|i: int|
        0 <= i < files2.len() && q == segment::segment_at(dir, (#[trigger] files2[i]).0) by {
        assert(facts::named(fs, q));
        let i = choose|i: int|
            0 <= i < files.len() && q == segment::segment_at(dir, (#[trigger] files[i]).0);
        assert(q == segment::segment_at(dir, files2[i].0));
    }
}

/// A new segment behind a clean log, once its name is durable.
proof fn lemma_log_rolled(fs: FsState, dir: Seq<u8>, files: Seq<(u64, Seq<u8>)>, id: u64)
    requires
        facts::sound(fs),
        recovery::log_stable(fs, dir, files),
        files.len() > 0 ==> files.last().0 < id && recovery::scan(files.last().1).reason
            == StopReason::Clean,
    ensures
        !fs.live.contains_key(segment::segment_at(dir, id)),
        facts::calm(
            fs,
            fs.created(segment::segment_at(dir, id)),
            set![segment::segment_at(dir, id)],
        ),
        facts::calm(
            fs,
            fs.created(segment::segment_at(dir, id)).dir_synced(dir),
            set![segment::segment_at(dir, id)],
        ),
        recovery::log_stable(
            fs.created(segment::segment_at(dir, id)).dir_synced(dir),
            dir,
            files.push((id, Seq::empty())),
        ),
        forall|after: FsState| #[trigger]
            storage::power_loss(fs.created(segment::segment_at(dir, id)), after)
                ==> storage::power_loss(fs, after),
{
    let p = segment::segment_at(dir, id);
    names::lemma_segment_name(id);
    assert(!facts::named(fs, p)) by {
        if facts::named(fs, p) {
            let i = choose|i: int|
                0 <= i < files.len() && p == segment::segment_at(dir, (#[trigger] files[i]).0);
            recovery::lemma_segment_at_injective(dir, id, files[i].0);
            if i < files.len() - 1 {
                assert(files[i].0 < files[files.len() - 1].0);
            }
        }
    }
    let m = fs.created(p);
    let n = m.dir_synced(dir);
    facts::lemma_create_keeps(fs, p);
    facts::lemma_sync_dir_keeps(m, dir);
    facts::lemma_calm_mono(m, n, Set::empty(), set![p]);
    facts::lemma_calm_trans(fs, m, n, set![p]);
    let files2 = files.push((id, Seq::empty()));
    m.lemma_dir_synced(dir);
    m.dir_committed(dir).lemma_pruned();
    assert(m.dir_committed(dir).live.contains_key(p));
    assert(facts::stable(n, p, Seq::empty()));
    assert forall|i: int, j: int| 0 <= i < j < files2.len() implies (#[trigger] files2[i]).0 < (
    #[trigger] files2[j]).0 by {
        if j < files.len() {
            assert(files[i].0 < files[j].0);
        } else if i < files.len() - 1 {
            assert(files[i].0 < files[files.len() - 1].0);
        }
    }
    assert forall|i: int| 0 <= i < files2.len() implies facts::stable(
        n,
        segment::segment_at(dir, (#[trigger] files2[i]).0),
        files2[i].1,
    ) by {
        if i < files.len() {
            assert(files2[i] == files[i]);
            assert(facts::stable(fs, segment::segment_at(dir, files[i].0), files[i].1));
            assert(facts::named(fs, segment::segment_at(dir, files[i].0)));
        }
    }
    assert forall|i: int| 0 <= i < files2.len() - 1 implies recovery::scan(
        (#[trigger] files2[i]).1,
    ).reason == StopReason::Clean by {
        assert(files2[i] == files[i]);
    }
    assert forall|q: PathView| #[trigger]
        facts::named(n, q) && q.0 == dir && names::segment_id(q.1)
            is Some implies exists|i: int|
        0 <= i < files2.len() && q == segment::segment_at(dir, (#[trigger] files2[i]).0) by {
        if q == p {
            assert(q == segment::segment_at(dir, files2[files.len() as int].0));
        } else {
            assert(facts::named(fs, q));
            let i = choose|i: int|
                0 <= i < files.len() && q == segment::segment_at(dir, (#[trigger] files[i]).0);
            assert(q == segment::segment_at(dir, files2[i].0));
        }
    }
    assert forall|after: FsState| #[trigger] storage::power_loss(m, after) implies storage::power_loss(
        fs,
        after,
    ) by {
        assert forall|q: PathView| #[trigger] fs.durable.contains_key(q) implies m.data[fs.durable[q]]
            == fs.data[fs.durable[q]] by {
            assert(fs.data.contains_key(fs.durable[q]));
        }
        facts::lemma_power_loss_sees(m, fs, after);
    }
}

/// A change of the last segment's bytes leaves the others as they are seen.
proof fn lemma_seen_written(
    fs: FsState,
    post: FsState,
    dir: Seq<u8>,
    files: Seq<(u64, Seq<u8>)>,
    d: FileData,
)
    requires
        facts::sound(fs),
        recovery::log_seen(fs, dir, files),
        files.len() > 0,
        post == (FsState { data: fs.data.insert(fs.live[last_path(dir, files)], d), ..fs }),
    ensures
        fs.live.contains_key(last_path(dir, files)),
        recovery::log_seen(post, dir, recovery::set_last(files, d.live)),
{
    let p = last_path(dir, files);
    let last = files.len() - 1;
    let files2 = recovery::set_last(files, d.live);
    assert(files[last] == files.last());
    assert(fs.live.contains_key(p));
    assert forall|i: int| 0 <= i < files2.len() implies (#[trigger] files2[i]).0 == files[i].0 by {}
    assert forall|i: int, j: int| 0 <= i < j < files2.len() implies (#[trigger] files2[i]).0 < (
    #[trigger] files2[j]).0 by {
        assert(files[i].0 < files[j].0);
    }
    assert forall|i: int| 0 <= i < files2.len() implies post.live.contains_key(
        segment::segment_at(dir, (#[trigger] files2[i]).0),
    ) && post.content(segment::segment_at(dir, files2[i].0)) == files2[i].1 by {
        let q = segment::segment_at(dir, files[i].0);
        assert(fs.live.contains_key(q));
        if i < last {
            assert(files2[i] == files[i]);
            assert(files[i].0 < files[last].0);
            if q == p {
                recovery::lemma_segment_at_injective(dir, files[i].0, files[last].0);
            }
            assert(fs.live[q] != fs.live[p]);
        }
    }
    assert forall|q: PathView| #[trigger]
        facts::is_live(post, q) && q.0 == dir && names::segment_id(q.1) is Some implies exists|
        i: int,
    |
        0 <= i < files2.len() && q == segment::segment_at(dir, (#[trigger] files2[i]).0) by {
        assert(facts::is_live(fs, q));
        let i = choose|i: int|
            0 <= i < files.len() && q == segment::segment_at(dir, (#[trigger] files[i]).0);
        assert(q == segment::segment_at(dir, files2[i].0));
    }
}

/// One more frame as it is seen.
proof fn lemma_seen_append(
    fs: FsState,
    dir: Seq<u8>,
    segs: Seq<LogSegment>,
    extra: Seq<Seq<u8>>,
    payload: Seq<u8>,
)
    requires
        facts::sound(fs),
        segs.len() > 0,
        recovery::log_seen(fs, dir, log_model(with_last(segs, extra))),
    ensures
        fs.live.contains_key(segment::segment_at(dir, segs.last().id)),
        recovery::log_seen(
            fs.appended(
                segment::segment_at(dir, segs.last().id),
                frame::frame_of(payload),
            ),
            dir,
            log_model(with_last(segs, extra.push(payload))),
        ),
{
    let files = log_model(with_last(segs, extra));
    let p = segment::segment_at(dir, segs.last().id);
    let last = files.len() - 1;
    assert(files[last] == (segs.last().id, frame::frames_of(segs.last().records + extra)));
    assert(fs.live.contains_key(p) && fs.content(p) == files[last].1);
    let d = fs.data[fs.live[p]];
    let d2 = FileData { live: d.live + frame::frame_of(payload), ..d };
    lemma_seen_written(fs, fs.appended(p, frame::frame_of(payload)), dir, files, d2);
    frame::lemma_frames_push(segs.last().records + extra, payload);
    assert((segs.last().records + extra).push(payload) =~= segs.last().records + extra.push(
        payload,
    ));
    assert(recovery::set_last(files, d2.live) =~= log_model(with_last(segs, extra.push(payload))));
}

/// The last segment made durable, as it is seen.
proof fn lemma_seen_last_synced(fs: FsState, dir: Seq<u8>, files: Seq<(u64, Seq<u8>)>)
    requires
        facts::sound(fs),
        recovery::log_seen(fs, dir, files),
        files.len() > 0,
    ensures
        fs.live.contains_key(last_path(dir, files)),
        recovery::log_seen(fs.file_synced(last_path(dir, files)), dir, files),
{
    let p = last_path(dir, files);
    assert(files[files.len() - 1] == files.last());
    assert(fs.live.contains_key(p) && fs.content(p) == files.last().1);
    let d = fs.data[fs.live[p]];
    lemma_seen_written(
        fs,
        fs.file_synced(p),
        dir,
        files,
        FileData { live: d.live, synced: d.live },
    );
    assert(recovery::set_last(files, d.live) =~= files);
}

/// Syncing the directory changes nothing that is seen.
proof fn lemma_seen_dir_synced(fs: FsState, dir: Seq<u8>, files: Seq<(u64, Seq<u8>)>)
    requires
        facts::sound(fs),
        recovery::log_seen(fs, dir, files),
    ensures
        recovery::log_seen(fs.dir_synced(dir), dir, files),
{
    facts::lemma_sync_dir_keeps(fs, dir);
    recovery::lemma_seen_calm(fs, fs.dir_synced(dir), Set::empty(), dir, files);
}

/// A new segment behind the others, as it is seen.
proof fn lemma_seen_rolled(fs: FsState, dir: Seq<u8>, files: Seq<(u64, Seq<u8>)>, id: u64)
    requires
        facts::sound(fs),
        recovery::log_seen(fs, dir, files),
        files.len() > 0 ==> files.last().0 < id,
    ensures
        !fs.live.contains_key(segment::segment_at(dir, id)),
        facts::calm(
            fs,
            fs.created(segment::segment_at(dir, id)),
            set![segment::segment_at(dir, id)],
        ),
        recovery::log_seen(
            fs.created(segment::segment_at(dir, id)),
            dir,
            files.push((id, Seq::empty())),
        ),
{
    let q = segment::segment_at(dir, id);
    names::lemma_segment_name(id);
    if fs.live.contains_key(q) {
        assert(facts::is_live(fs, q));
        let i = choose|i: int|
            0 <= i < files.len() && q == segment::segment_at(dir, (#[trigger] files[i]).0);
        recovery::lemma_segment_at_injective(dir, id, files[i].0);
        if i < files.len() - 1 {
            assert(files[i].0 < files[files.len() - 1].0);
        }
    }
    facts::lemma_create_keeps(fs, q);
    let post = fs.created(q);
    let files2 = files.push((id, Seq::empty()));
    assert forall|i: int, j: int| 0 <= i < j < files2.len() implies (#[trigger] files2[i]).0 < (
    #[trigger] files2[j]).0 by {
        if j < files.len() {
            assert(files[i].0 < files[j].0);
        } else if i < files.len() - 1 {
            assert(files[i].0 < files[files.len() - 1].0);
        }
    }
    assert forall|i: int| 0 <= i < files2.len() implies post.live.contains_key(
        segment::segment_at(dir, (#[trigger] files2[i]).0),
    ) && post.content(segment::segment_at(dir, files2[i].0)) == files2[i].1 by {
        if i < files.len() {
            let p = segment::segment_at(dir, files[i].0);
            assert(fs.live.contains_key(p));
            assert(facts::visible(fs, p, fs.data[fs.live[p]]));
            assert(facts::visible(post, p, fs.data[fs.live[p]]));
        }
    }
    assert forall|p: PathView| #[trigger]
        facts::is_live(post, p) && p.0 == dir && names::segment_id(p.1) is Some implies exists|
        i: int,
    |
        0 <= i < files2.len() && p == segment::segment_at(dir, (#[trigger] files2[i]).0) by {
        if p == q {
            assert(p == segment::segment_at(dir, files2[files.len() as int].0));
        } else {
            assert(facts::is_live(fs, p));
            let i = choose|i: int|
                0 <= i < files.len() && p == segment::segment_at(dir, (#[trigger] files[i]).0);
            assert(p == segment::segment_at(dir, files2[i].0));
        }
    }
}

/// Replaying an empty segment more finds the same records.
proof fn lemma_replay_empty(files: Seq<(u64, Seq<u8>)>, id: u64)
    requires
        forall|i: int|
            0 <= i < files.len() ==> recovery::scan((#[trigger] files[i]).1).reason
                == StopReason::Clean,
    ensures
        recovery::replay(files.push((id, Seq::empty()))).records == recovery::replay(
            files,
        ).records,
    decreases files.len(),
{
    let files2 = files.push((id, Seq::empty()));
    if files.len() == 0 {
        assert(files2.drop_first() =~= Seq::empty());
    } else {
        let rest = files.drop_first();
        assert(files2.drop_first() =~= rest.push((id, Seq::empty())));
        assert forall|i: int| 0 <= i < rest.len() implies recovery::scan(
            (#[trigger] rest[i]).1,
        ).reason == StopReason::Clean by {
            assert(recovery::scan(files[i + 1].1).reason == StopReason::Clean);
        }
        lemma_replay_empty(rest, id);
        assert(recovery::scan(files[0].1).reason == StopReason::Clean);
        if files.len() == 1 {
            assert(rest =~= Seq::empty());
            assert(recovery::replay(rest).records =~= Seq::empty());
            assert(recovery::scan(files[0].1).records + Seq::<Seq<u8>>::empty()
                =~= recovery::scan(files[0].1).records);
        }
    }
}

/// A log whose last segment has the frames of `extra` behind what was there,
/// which is durable if `safe`.
spec fn in_flight(
    fs: FsState,
    dir: Seq<u8>,
    segs: Seq<LogSegment>,
    extra: Seq<Seq<u8>>,
    safe: bool,
) -> bool {
    &&& segs.len() > 0
    &&& recovery::log_on(fs, dir, log_model(with_last(segs, extra)))
    &&& safe ==> fs.data[fs.live[segment::segment_at(dir, segs.last().id)]].synced
        == frame::frames_of(segs.last().records)
}

/// What a power loss leaves of a log with unsynced frames at its end.
proof fn lemma_in_flight_crash(
    fs: FsState,
    after: FsState,
    dir: Seq<u8>,
    segs: Seq<LogSegment>,
    extra: Seq<Seq<u8>>,
)
    requires
        facts::sound(fs),
        in_flight(fs, dir, segs, extra, true),
        all_framed(segs),
        frame::all_fit(extra),
        recovery::tamper_evident(extra),
        storage::power_loss(fs, after),
    ensures
        left_log(after, dir, all_records(segs), all_records(segs) + extra),
{
    let files = log_model(with_last(segs, extra));
    let p = last_path(dir, files);
    let front = segs.drop_last();
    let last = segs.last();
    lemma_log_crash(fs, after, dir, files);
    let bytes = after.content(p);
    let d = fs.data[fs.live[p]];
    assert(files.last() == (last.id, frame::frames_of(last.records + extra)));
    assert(recovery::bound(fs, segment::segment_at(dir, files[files.len() - 1].0)));
    assert(d.live == frame::frames_of(last.records + extra));
    assert(frame::all_fit(segs[segs.len() - 1].records));
    assert(d =~= (FileData {
        live: frame::frames_of(last.records + extra),
        synced: frame::frames_of(last.records),
    }));
    recovery::lemma_scan_torn(last.records, extra, bytes);
    let files2 = recovery::set_last(files, bytes);
    assert(files2 =~= log_model(front).push((last.id, bytes)));
    assert forall|i: int| 0 <= i < front.len() implies frame::all_fit(
        (#[trigger] front[i]).records,
    ) by {
        assert(frame::all_fit(segs[i].records));
    }
    lemma_replay_last(front, last.id, bytes);
    lemma_all_records_push(front, last);
    assert(front.push(last) =~= segs);
    let found = recovery::scan(bytes).records;
    let all = all_records(front) + found;
    assert(recovery::replay(files2).records == all);
    assert(all_records(segs) == all_records(front) + last.records);
    assert(all.take(all_records(segs).len() as int) =~= all_records(front) + found.take(
        last.records.len() as int,
    ));
    assert((all_records(segs) + extra).take(all.len() as int) =~= all_records(front) + (last.records
        + extra).take(found.len() as int));
}

/// What a power loss leaves of a durable log.
proof fn lemma_stable_crash(
    fs: FsState,
    after: FsState,
    dir: Seq<u8>,
    segs: Seq<LogSegment>,
)
    requires
        facts::sound(fs),
        segs.len() > 0,
        recovery::log_stable(fs, dir, log_model(segs)),
        all_framed(segs),
        storage::power_loss(fs, after),
    ensures
        left_log(after, dir, all_records(segs), all_records(segs)),
{
    let files = log_model(segs);
    facts::lemma_power_loss_keeps(fs, after);
    recovery::lemma_log_kept(fs, after, Set::empty(), dir, files);
    lemma_replay_model(segs);
    let all = all_records(segs);
    assert(all.take(all.len() as int) =~= all);
}

/// A checksum-framed, segmented write-ahead log with a mode-driven commit
/// pipeline.
///
/// Construct with [`Wal::open`], which recovers any existing log and returns the
/// recovered records alongside the handle.
pub struct Wal {
    dir: Vec<u8>,
    durability: Durability,
    segment_size: u64,
    active: Segment,
    coord: Coord,
    segs: Ghost<Seq<LogSegment>>,
    anchored: Ghost<bool>,
    safe: Ghost<bool>,
}

impl Wal {
    /// The directory of the log.
    pub closed spec fn home(&self) -> Seq<u8> {
        plain(self.dir@)
    }

    /// The mode of the log.
    pub closed spec fn mode(&self) -> Durability {
        self.durability
    }

    /// The size at which the active segment is rolled.
    pub closed spec fn roll_size(&self) -> u64 {
        self.segment_size
    }

    /// The segments of the log.
    pub closed spec fn segments(&self) -> Seq<LogSegment> {
        self.segs@
    }

    /// The records in the log.
    pub open spec fn records(&self) -> Seq<Seq<u8>> {
        all_records(self.segments())
    }

    /// The names of the segments are durable, and so are the bytes of all but the last.
    pub closed spec fn is_anchored(&self) -> bool {
        self.anchored@
    }

    /// Every record in the log is durable.
    pub closed spec fn is_safe(&self) -> bool {
        self.safe@
    }

    /// How many group commits were started.
    pub closed spec fn commits(&self) -> u64 {
        self.coord@.next_seq
    }

    /// What the log holds is what is in the file system.
    pub closed spec fn inv(&self, fs: FsState) -> bool {
        let segs = self.segs@;
        &&& segs.len() > 0
        &&& all_framed(segs)
        &&& recovery::log_seen(fs, plain(self.dir@), log_model(segs))
        &&& self.anchored@ ==> recovery::log_on(fs, plain(self.dir@), log_model(segs))
        &&& self.safe@ ==> recovery::log_stable(fs, plain(self.dir@), log_model(segs))
        &&& self.safe@ ==> self.anchored@
        &&& self.active.number() == segs.last().id
        &&& self.active.location() == segment::segment_at(plain(self.dir@), segs.last().id)
        &&& self.active.offset() == segment::clamped(
            frame::frames_of(segs.last().records).len(),
        )
    }

    /// The state of the commit pipeline.
    pub closed spec fn pipeline(&self) -> CoordView {
        self.coord@
    }

    /// The commit pipeline is in order, and no leader is at work.
    pub closed spec fn wf(&self) -> bool {
        &&& coordinated(self.coord@)
        &&& !self.coord@.leader_active
        &&& well_framed(self.coord@.queue)
    }

    /// No commit is under way.
    pub closed spec fn idle(&self) -> bool {
        self.coord@.queue.len() == 0
    }

    /// Logs with the same pipeline are alike in what concerns it.
    pub proof fn lemma_pipeline(a: &Self, b: &Self)
        requires
            a.pipeline() == b.pipeline(),
        ensures
            a.wf() == b.wf(),
            a.idle() == b.idle(),
            a.commits() == b.commits(),
    {
    }

    /// What the invariant says of the file system.
    pub proof fn lemma_inv(&self, fs: FsState)
        requires
            self.inv(fs),
        ensures
            self.segments().len() > 0,
            all_framed(self.segments()),
            recovery::log_seen(fs, self.home(), log_model(self.segments())),
            self.is_anchored() ==> recovery::log_on(fs, self.home(), log_model(self.segments())),
            self.is_safe() ==> self.is_anchored(),
            self.is_safe() ==> recovery::log_stable(fs, self.home(), log_model(self.segments())),
            recovery::replay(log_model(self.segments())).records == self.records(),
    {
        lemma_replay_model(self.segs@);
    }

    /// Operations on other names leave the log as it is, unless power is lost
    /// while it has records that are not durable.
    pub proof fn lemma_inv_kept(&self, pre: FsState, post: FsState, touched: Set<PathView>)
        requires
            facts::sound(pre),
            self.inv(pre),
            facts::calm(pre, post, touched) || self.is_safe() && facts::keeps(pre, post, touched),
            forall|p: PathView| #[trigger]
                touched.contains(p) ==> p.0 != self.home() || names::segment_id(p.1) is None,
        ensures
            self.inv(post),
    {
        let files = log_model(self.segs@);
        if self.safe@ {
            recovery::lemma_log_kept(pre, post, touched, plain(self.dir@), files);
            recovery::lemma_log_seen(post, plain(self.dir@), files);
        } else {
            recovery::lemma_seen_calm(pre, post, touched, plain(self.dir@), files);
            if self.anchored@ {
                recovery::lemma_log_calm(pre, post, touched, plain(self.dir@), files);
            }
        }
    }

    /// The id of the segment currently being appended to.
    pub fn active_segment_id(&self) -> (id: u64)
        ensures
            forall|fs: FsState| #[trigger] self.inv(fs) ==> id == self.segments().last().id,
    {
        self.active.id()
    }

    /// How many group commits were started.
    pub fn commit_count(&self) -> (n: u64)
        ensures
            n == self.commits(),
    {
        self.coord.next_seq
    }
}

/// The log rolls on from this segment: it has reached the segment size, and a segment id
/// is left.
pub open spec fn rolls(seg: LogSegment, roll_size: u64) -> bool {
    frame::frames_of(seg.records).len() >= roll_size && seg.id < u64::MAX
}

/// The segments of a log after `extra` went to the last one: if that has reached the
/// segment size, a new one begins.
pub open spec fn appended_segments(
    segs: Seq<LogSegment>,
    roll_size: u64,
    extra: Seq<Seq<u8>>,
) -> Seq<LogSegment> {
    let more = with_last(segs, extra);
    if rolls(more.last(), roll_size) {
        more.push(LogSegment { id: (more.last().id + 1) as u64, records: Seq::empty() })
    } else {
        more
    }
}

/// The frames of `extra` at the end of `p`.
pub open spec fn frames_appended(fs: FsState, p: PathView, extra: Seq<Seq<u8>>) -> FsState
    decreases extra.len(),
{
    if extra.len() == 0 {
        fs
    } else {
        frames_appended(fs, p, extra.drop_last()).appended(p, frame::frame_of(extra.last()))
    }
}

/// The files after `extra` went to the log, with a sync or without.
pub open spec fn appended_files(
    fs: FsState,
    dir: Seq<u8>,
    segs: Seq<LogSegment>,
    roll_size: u64,
    extra: Seq<Seq<u8>>,
    sync: bool,
) -> FsState {
    let p = segment::segment_at(dir, segs.last().id);
    let written = frames_appended(fs, p, extra);
    let kept = if sync {
        written.file_synced(p)
    } else {
        written
    };
    if rolls(with_last(segs, extra).last(), roll_size) {
        rolled_files(kept, dir, segs.last().id)
    } else {
        kept
    }
}

/// What is left of the log when an operation that adds `extra` to it, with a sync or
/// without, ends in success, failure or a power loss.
pub open spec fn append_outcome(
    pre: storage::Disk,
    post: storage::Disk,
    before: &Wal,
    after: &Wal,
    extra: Seq<Seq<u8>>,
    sync: bool,
    ok: bool,
) -> bool {
    &&& after.home() == before.home()
    &&& after.mode() == before.mode()
    &&& after.roll_size() == before.roll_size()
    &&& storage::used(pre, post, 1)
    &&& !ok ==> after.segments() == before.segments()
    &&& post.room() ==> {
        &&& pre.room()
        &&& facts::keeps(pre.fs, post.fs, recovery::log_names(before.home()))
        &&& pre.halted ==> !ok && post.halted && post.fs == pre.fs
        &&& ok ==> after.records() == before.records() + extra && before.segments().last().id
            <= after.segments().last().id
        &&& !post.halted ==> {
            &&& ok
            &&& facts::calm(pre.fs, post.fs, recovery::log_names(before.home()))
            &&& after.inv(post.fs)
            &&& after.is_anchored() == before.is_anchored()
            &&& after.records() == before.records() + extra
            &&& after.segments() == appended_segments(
                before.segments(),
                before.roll_size(),
                extra,
            )
            &&& post.fs == appended_files(
                pre.fs,
                before.home(),
                before.segments(),
                before.roll_size(),
                extra,
                sync,
            )
            &&& before.segments().last().id <= after.segments().last().id
                <= before.segments().last().id + 1
        }
        &&& !pre.halted && post.halted ==> {
            &&& !pre.reliable
            &&& before.is_safe() && before.mode().durable() && all_evident(extra) ==> {
                &&& left_log(post.fs, before.home(), before.records(), before.records() + extra)
                &&& ok ==> left_log(
                    post.fs,
                    before.home(),
                    before.records() + extra,
                    before.records() + extra,
                )
            }
        }
    }
}

/// The payloads of encoded frames.
pub open spec fn payloads(batch: Seq<(u64, Seq<u8>)>) -> Seq<Seq<u8>> {
    Seq::new(batch.len(), |i: int| batch[i].1.skip(8))
}

/// Every entry is an encoded frame.
pub open spec fn well_framed(batch: Seq<(u64, Seq<u8>)>) -> bool {
    forall|i: int|
        0 <= i < batch.len() ==> (#[trigger] batch[i]).1 == frame::frame_of(batch[i].1.skip(8))
            && frame::fits(batch[i].1.skip(8))
}

/// Less may be known of what is left of a log.
proof fn lemma_left_log_weaken(
    fs: FsState,
    dir: Seq<u8>,
    lo: Seq<Seq<u8>>,
    hi: Seq<Seq<u8>>,
    lo2: Seq<Seq<u8>>,
    hi2: Seq<Seq<u8>>,
)
    requires
        left_log(fs, dir, lo, hi),
        recovery::is_prefix(lo2, lo),
        recovery::is_prefix(hi, hi2),
    ensures
        left_log(fs, dir, lo2, hi2),
{
    let files = choose|files: Seq<(u64, Seq<u8>)>|
        {
            &&& #[trigger] recovery::log_stable(fs, dir, files)
            &&& files.len() > 0
            &&& recovery::is_prefix(lo, recovery::replay(files).records)
            &&& recovery::is_prefix(recovery::replay(files).records, hi)
        };
    let found = recovery::replay(files).records;
    assert(found.take(lo2.len() as int) =~= lo.take(lo2.len() as int));
    assert(hi2.take(found.len() as int) =~= hi.take(found.len() as int));
}

/// One more frame in flight.
proof fn lemma_in_flight_append(
    fs: FsState,
    dir: Seq<u8>,
    segs: Seq<LogSegment>,
    extra: Seq<Seq<u8>>,
    payload: Seq<u8>,
    safe: bool,
)
    requires
        facts::sound(fs),
        in_flight(fs, dir, segs, extra, safe),
    ensures
        fs.live.contains_key(segment::segment_at(dir, segs.last().id)),
        in_flight(
            fs.appended(
                segment::segment_at(dir, segs.last().id),
                frame::frame_of(payload),
            ),
            dir,
            segs,
            extra.push(payload),
            safe,
        ),
{
    let files = log_model(with_last(segs, extra));
    let p = segment::segment_at(dir, segs.last().id);
    let last = files.len() - 1;
    assert(files[last] == (segs.last().id, frame::frames_of(segs.last().records + extra)));
    assert(recovery::bound(fs, segment::segment_at(dir, files[last].0)));
    let d = fs.data[fs.live[p]];
    assert(d.live == files[last].1);
    facts::lemma_append_keeps(fs, p, frame::frame_of(payload));
    let d2 = FileData { live: d.live + frame::frame_of(payload), ..d };
    lemma_log_written(fs, fs.appended(p, frame::frame_of(payload)), dir, files, d2);
    frame::lemma_frames_push(segs.last().records + extra, payload);
    assert((segs.last().records + extra).push(payload) =~= segs.last().records + extra.push(
        payload,
    ));
    assert(recovery::set_last(files, d2.live) =~= log_model(with_last(segs, extra.push(payload))));
}

/// The frames in flight made durable.
proof fn lemma_in_flight_synced(
    fs: FsState,
    dir: Seq<u8>,
    segs: Seq<LogSegment>,
    extra: Seq<Seq<u8>>,
    safe: bool,
)
    requires
        facts::sound(fs),
        in_flight(fs, dir, segs, extra, safe),
    ensures
        fs.live.contains_key(segment::segment_at(dir, segs.last().id)),
        recovery::log_stable(
            fs.file_synced(segment::segment_at(dir, segs.last().id)),
            dir,
            log_model(with_last(segs, extra)),
        ),
{
    let files = log_model(with_last(segs, extra));
    let p = segment::segment_at(dir, segs.last().id);
    let last = files.len() - 1;
    assert(files[last] == (segs.last().id, frame::frames_of(segs.last().records + extra)));
    assert(recovery::bound(fs, segment::segment_at(dir, files[last].0)));
    let d = fs.data[fs.live[p]];
    facts::lemma_sync_file_keeps(fs, p);
    let d2 = FileData { live: d.live, synced: d.live };
    lemma_log_written(fs, fs.file_synced(p), dir, files, d2);
    assert(recovery::set_last(files, d2.live) =~= files);
}

/// Nothing in flight is the log as it is.
proof fn lemma_in_flight_none(fs: FsState, dir: Seq<u8>, segs: Seq<LogSegment>, safe: bool)
    requires
        segs.len() > 0,
        recovery::log_on(fs, dir, log_model(segs)),
        safe ==> recovery::log_stable(fs, dir, log_model(segs)),
    ensures
        with_last(segs, Seq::empty()) == segs,
        in_flight(fs, dir, segs, Seq::empty(), safe),
{
    assert(segs.last().records + Seq::<Seq<u8>>::empty() =~= segs.last().records);
    assert(with_last(segs, Seq::empty()) =~= segs);
    let files = log_model(segs);
    if safe {
        assert(facts::stable(
            fs,
            segment::segment_at(dir, files[files.len() - 1].0),
            files[files.len() - 1].1,
        ));
    }
}

/// The files after the log in `dir` was rolled from segment `id`: that segment is synced,
/// the next one is new, and the names in the directory are durable.
pub open spec fn rolled_files(fs: FsState, dir: Seq<u8>, id: u64) -> FsState {
    fs.file_synced(segment::segment_at(dir, id)).created(
        segment::segment_at(dir, (id + 1) as u64),
    ).dir_synced(dir)
}

impl Wal {
    /// The active segment has crossed the segment size, and a segment id is left.
    spec fn is_due(&self) -> bool {
        self.active.offset() >= self.segment_size && self.active.number() < u64::MAX
    }

    /// Rolls to a fresh segment if the active one has crossed the segment size.
    /// The segment that is left is made durable first, and then the name of the
    /// new one. When no segment id is left, the active segment stays.
    fn maybe_rotate<S: Storage>(&mut self, fs: &mut S) -> (r: StorageResult<()>)
        requires
            old(fs).wf(),
            old(fs).disk().dependable,
            old(fs).disk().room() ==> facts::sound(old(fs).disk().fs),
            !old(fs).disk().halted && old(fs).disk().room() ==> old(self).inv(old(fs).disk().fs),
        ensures
            final(fs).wf(),
            final(fs).disk().dependable,
            final(fs).disk().reliable == old(fs).disk().reliable,
            final(self).commits() == old(self).commits(),
            final(self).pipeline() == old(self).pipeline(),
            final(self).home() == old(self).home(),
            final(self).mode() == old(self).mode(),
            final(self).roll_size() == old(self).roll_size(),
            storage::used(old(fs).disk(), final(fs).disk(), 1),
            !old(self).is_due() ==> r is Ok && *final(fs) == *old(fs) && *final(self)
                == *old(self),
            r is Err ==> *final(self) == *old(self),
            final(self).is_anchored() == old(self).is_anchored(),
            old(self).is_due() && r is Ok ==> {
                &&& final(self).segments() == old(self).segments().push(
                    LogSegment {
                        id: (old(self).active.number() + 1) as u64,
                        records: Seq::empty(),
                    },
                )
                &&& old(self).is_anchored() ==> final(self).is_safe()
                &&& final(self).active.number() == old(self).active.number() + 1
                &&& final(self).active.offset() == 0
            },
            final(fs).disk().room() ==> {
                let pre = old(fs).disk();
                let post = final(fs).disk();
                &&& pre.room()
                &&& facts::keeps(pre.fs, post.fs, recovery::log_names(old(self).home()))
                &&& pre.halted ==> post.halted && post.fs == pre.fs
                &&& pre.halted && old(self).is_due() ==> r is Err
                &&& !post.halted && old(self).is_due() ==> post.fs == rolled_files(
                    pre.fs,
                    old(self).home(),
                    old(self).active.number(),
                )
                &&& !post.halted ==> {
                    &&& r is Ok
                    &&& facts::calm(pre.fs, post.fs, recovery::log_names(old(self).home()))
                    &&& final(self).inv(post.fs)
                    &&& final(self).records() == old(self).records()
                    &&& final(self).segments().last().id <= old(self).segments().last().id + 1
                    &&& old(self).is_safe() ==> final(self).is_safe()
                }
                &&& !pre.halted && post.halted ==> {
                    &&& !pre.reliable
                    &&& old(self).is_safe() ==> left_log(
                        post.fs,
                        old(self).home(),
                        old(self).records(),
                        old(self).records(),
                    )
                }
            },
    {
        let ghost d0 = fs.disk();
        let ghost me = *self;
        let ghost t = recovery::log_names(plain(self.dir@));
        proof {
            facts::lemma_calm_refl(d0.fs, t);
        }
        if self.active.len() < self.segment_size || self.active.id() == u64::MAX {
            return Ok(());
        }
        let next_id: u64 = self.active.id() + 1;
        let ghost p = segment::segment_at(plain(self.dir@), self.segs@.last().id);
        let synced = self.active.sync(fs);
        let ghost d1 = fs.disk();
        proof {
            if d1.room() && !d0.halted {
                names::lemma_segment_name(self.segs@.last().id);
                assert(log_model(self.segs@).last() == (
                    self.segs@.last().id,
                    frame::frames_of(self.segs@.last().records),
                ));
                lemma_seen_last_synced(d0.fs, plain(self.dir@), log_model(self.segs@));
                if self.anchored@ {
                    lemma_in_flight_none(d0.fs, plain(self.dir@), self.segs@, self.safe@);
                    lemma_in_flight_synced(
                        d0.fs,
                        plain(self.dir@),
                        self.segs@,
                        Seq::empty(),
                        self.safe@,
                    );
                }
                facts::lemma_sync_file_keeps(d0.fs, p);
                facts::lemma_calm_mono(d0.fs, d0.fs.file_synced(p), set![p], t);
                facts::lemma_outcome_keeps(d0, d1, true, d0.fs.file_synced(p), synced is Ok, t);
                if d1.halted && self.safe@ {
                    if storage::power_loss(d0.fs, d1.fs) {
                        lemma_stable_crash(d0.fs, d1.fs, plain(self.dir@), self.segs@);
                    } else {
                        lemma_stable_crash(d0.fs.file_synced(p), d1.fs, plain(self.dir@), self.segs@);
                    }
                }
            }
        }
        match synced {
            Ok(_) => {},
            Err(e) => {
                return Err(e);
            },
        }
        let ghost files = log_model(self.segs@);
        let ghost q = segment::segment_at(plain(self.dir@), next_id);
        let created = Segment::create(fs, &self.dir, next_id);
        let ghost d2 = fs.disk();
        proof {
            if d2.room() && !d1.halted {
                assert(frame::all_fit(self.segs@[self.segs@.len() - 1].records));
                recovery::lemma_scan_clean(self.segs@.last().records);
                lemma_seen_rolled(d1.fs, plain(self.dir@), files, next_id);
                if self.anchored@ {
                    lemma_log_rolled(d1.fs, plain(self.dir@), files, next_id);
                }
                names::lemma_segment_name(next_id);
                facts::lemma_calm_mono(d1.fs, d1.fs.created(q), set![q], t);
                facts::lemma_outcome_keeps(d1, d2, true, d1.fs.created(q), created is Ok, t);
                facts::lemma_keeps_trans(d0.fs, d1.fs, d2.fs, t);
                if d2.halted {
                    if self.anchored@ {
                        lemma_stable_crash(d1.fs, d2.fs, plain(self.dir@), self.segs@);
                    }
                } else {
                    facts::lemma_calm_trans(d0.fs, d1.fs, d2.fs, t);
                }
            }
        }
        let seg: Segment = match created {
            Ok(seg) => seg,
            Err(e) => {
                return Err(e);
            },
        };
        let committed = fs.sync_dir(&self.dir);
        let ghost d3 = fs.disk();
        let ghost rolled = self.segs@.push(LogSegment { id: next_id, records: Seq::empty() });
        proof {
            if d3.room() && !d2.halted {
                let n = d2.fs.dir_synced(plain(self.dir@));
                facts::lemma_sync_dir_keeps(d2.fs, plain(self.dir@));
                facts::lemma_calm_mono(d2.fs, n, Set::empty(), t);
                facts::lemma_outcome_keeps(d2, d3, true, n, committed is Ok, t);
                facts::lemma_keeps_trans(d0.fs, d2.fs, d3.fs, t);
                assert(log_model(rolled) =~= files.push((next_id, Seq::empty())));
                lemma_all_records_push(
                    self.segs@,
                    LogSegment { id: next_id, records: Seq::empty() },
                );
                assert(all_records(rolled) =~= all_records(self.segs@));
                assert forall|i: int| 0 <= i < rolled.len() implies frame::all_fit(
                    (#[trigger] rolled[i]).records,
                ) by {
                    if i < self.segs@.len() {
                        assert(frame::all_fit(self.segs@[i].records));
                    }
                }
                if d3.halted {
                    if self.anchored@ {
                        if storage::power_loss(d2.fs, d3.fs) {
                            lemma_stable_crash(d1.fs, d3.fs, plain(self.dir@), self.segs@);
                        } else {
                            lemma_stable_crash(n, d3.fs, plain(self.dir@), rolled);
                        }
                    }
                } else {
                    lemma_seen_dir_synced(d2.fs, plain(self.dir@), log_model(rolled));
                    facts::lemma_calm_trans(d0.fs, d2.fs, d3.fs, t);
                }
            }
        }
        match committed {
            Ok(_) => {},
            Err(e) => {
                return Err(e);
            },
        }
        self.active = seg;
        self.segs = Ghost(rolled);
        self.safe = Ghost(self.anchored@);
        Ok(())
    }
}

/// A batch's frames fit behind one another.
proof fn lemma_take_push(extra: Seq<Seq<u8>>, i: int)
    requires
        0 <= i < extra.len(),
    ensures
        extra.take(i + 1) == extra.take(i).push(extra[i]),
{
    assert(extra.take(i + 1) =~= extra.take(i).push(extra[i]));
}

/// A crash with the first `i` frames of a batch in flight.
proof fn lemma_batch_crash(
    fs: FsState,
    after: FsState,
    dir: Seq<u8>,
    segs: Seq<LogSegment>,
    extra: Seq<Seq<u8>>,
    i: int,
)
    requires
        facts::sound(fs),
        0 <= i <= extra.len(),
        in_flight(fs, dir, segs, extra.take(i), true),
        all_framed(segs),
        frame::all_fit(extra),
        recovery::tamper_evident(extra.take(i)),
        storage::power_loss(fs, after),
    ensures
        left_log(after, dir, all_records(segs), all_records(segs) + extra),
{
    let some = extra.take(i);
    assert forall|j: int| 0 <= j < some.len() implies frame::fits(#[trigger] some[j]) by {
        assert(frame::fits(extra[j]));
    }
    lemma_in_flight_crash(fs, after, dir, segs, some);
    let all = all_records(segs);
    assert(all.take(all.len() as int) =~= all);
    assert((all + extra).take((all + some).len() as int) =~= all + some);
    lemma_left_log_weaken(after, dir, all, all + some, all, all + extra);
}

/// Every prefix of `extra` gives away a flipped bit.
pub open spec fn all_evident(extra: Seq<Seq<u8>>) -> bool {
    forall|i: int| 0 <= i <= extra.len() ==> recovery::tamper_evident(#[trigger] extra.take(i))
}

impl Wal {
    /// Appends the frames of a batch to the active segment, makes them durable
    /// if `sync`, and rolls the segment if it crossed its size.
    fn write_frames<S: Storage>(
        &mut self,
        fs: &mut S,
        batch: &Vec<(u64, Vec<u8>)>,
        sync: bool,
    ) -> (r: StorageResult<()>)
        requires
            old(fs).wf(),
            old(fs).disk().dependable,
            old(fs).disk().room() ==> facts::sound(old(fs).disk().fs),
            !old(fs).disk().halted && old(fs).disk().room() ==> old(self).inv(old(fs).disk().fs),
            well_framed(numbered_bytes(batch@)),
            batch@.len() > 0,
            old(self).mode().durable() ==> sync,
        ensures
            final(fs).wf(),
            final(fs).disk().dependable,
            final(fs).disk().reliable == old(fs).disk().reliable,
            final(self).commits() == old(self).commits(),
            append_outcome(
                old(fs).disk(),
                final(fs).disk(),
                old(self),
                final(self),
                payloads(numbered_bytes(batch@)),
                sync,
                r is Ok,
            ),
            final(fs).disk().room() && !final(fs).disk().halted && sync && old(self).is_anchored()
                ==> final(self).is_safe(),
            final(self).pipeline() == old(self).pipeline(),
    {
        let ghost d0 = fs.disk();
        let ghost segs0 = self.segs@;
        let ghost held = self.anchored@;
        let ghost safe0 = self.safe@;
        let ghost dir = plain(self.dir@);
        let ghost t = recovery::log_names(dir);
        let ghost nb = numbered_bytes(batch@);
        let ghost extra = payloads(nb);
        let ghost p = segment::segment_at(dir, segs0.last().id);
        let ghost claim = safe0 && self.durability.durable() && all_evident(extra);
        let ghost recs = all_records(segs0);
        proof {
            facts::lemma_calm_refl(d0.fs, t);
            assert(extra.take(0) =~= Seq::empty());
            if !d0.halted && d0.room() {
                assert(segs0.last().records + Seq::<Seq<u8>>::empty() =~= segs0.last().records);
                assert(with_last(segs0, Seq::empty()) =~= segs0);
                if held {
                    lemma_in_flight_none(d0.fs, dir, segs0, safe0);
                }
                names::lemma_segment_name(segs0.last().id);
            }
            assert forall|j: int| 0 <= j < extra.len() implies frame::fits(#[trigger] extra[j]) by {
                assert(frame::fits(nb[j].1.skip(8)));
            }
        }
        let mut i: usize = 0;
        while i < batch.len()
            invariant
                i <= batch.len(),
                fs.wf(),
                fs.disk().dependable,
                fs.disk().reliable == d0.reliable,
                d0 == old(fs).disk(),
                dir == plain(old(self).dir@),
                segs0 == old(self).segs@,
                safe0 == old(self).safe@,
                held == old(self).anchored@,
                self.anchored@ == held,
                d0.room() ==> facts::sound(d0.fs),
                nb == numbered_bytes(batch@),
                extra == payloads(nb),
                well_framed(nb),
                frame::all_fit(extra),
                plain(self.dir@) == dir,
                self.durability == old(self).durability,
                self.segment_size == old(self).segment_size,
                self.coord@ == old(self).coord@,
                self.segs@ == segs0,
                self.safe@ == safe0,
                self.active.number() == old(self).active.number(),
                self.active.location() == old(self).active.location(),
                p == segment::segment_at(dir, segs0.last().id),
                t == recovery::log_names(dir),
                recs == all_records(segs0),
                claim == (safe0 && old(self).durability.durable() && all_evident(extra)),
                fs.disk().room() ==> d0.room(),
                storage::used(d0, fs.disk(), 0),
                !d0.halted && d0.room() ==> all_framed(segs0) && segs0.len() > 0
                    && names::segment_id(p.1) is Some && old(self).inv(d0.fs),
                fs.disk().room() ==> {
                    let d = fs.disk();
                    &&& facts::keeps(d0.fs, d.fs, t)
                    &&& d0.halted ==> d.halted && d.fs == d0.fs
                    &&& d0.halted ==> i == 0
                    &&& !d.halted ==> {
                        &&& facts::calm(d0.fs, d.fs, t)
                        &&& held ==> in_flight(d.fs, dir, segs0, extra.take(i as int), safe0)
                        &&& recovery::log_seen(
                            d.fs,
                            dir,
                            log_model(with_last(segs0, extra.take(i as int))),
                        )
                        &&& d.fs == frames_appended(d0.fs, p, extra.take(i as int))
                        &&& self.active.offset() == segment::clamped(
                            frame::frames_of(segs0.last().records + extra.take(i as int)).len(),
                        )
                    }
                    &&& !d0.halted && d.halted ==> !d0.reliable && (claim ==> left_log(
                        d.fs,
                        dir,
                        recs,
                        recs + extra,
                    ))
                },
            decreases batch.len() - i,
        {
            let ghost d = fs.disk();
            let ghost payload = extra[i as int];
            proof {
                assert(nb[i as int] == (batch@[i as int].0, batch@[i as int].1@));
                assert(batch@[i as int].1@ == frame::frame_of(payload));
                lemma_take_push(extra, i as int);
                assert(extra.take(i + 1).drop_last() =~= extra.take(i as int));
            }
            let ghost offset_before = self.active.offset();
            let done = self.active.append(fs, &batch[i].1);
            let ghost e = fs.disk();
            proof {
                if e.room() && !d.halted {
                    let m = d.fs;
                    let n = m.appended(p, frame::frame_of(payload));
                    lemma_seen_append(m, dir, segs0, extra.take(i as int), payload);
                    if held {
                        lemma_in_flight_append(m, dir, segs0, extra.take(i as int), payload, safe0);
                    }
                    facts::lemma_append_keeps(m, p, frame::frame_of(payload));
                    facts::lemma_calm_mono(m, n, set![p], t);
                    facts::lemma_outcome_keeps(d, e, true, n, done is Ok, t);
                    facts::lemma_keeps_trans(d0.fs, m, e.fs, t);
                    if e.halted {
                        if claim {
                            assert(recovery::tamper_evident(extra.take(i as int)));
                            assert(recovery::tamper_evident(extra.take(i + 1)));
                            if storage::power_loss(m, e.fs) {
                                lemma_batch_crash(m, e.fs, dir, segs0, extra, i as int);
                            } else {
                                lemma_batch_crash(n, e.fs, dir, segs0, extra, i + 1);
                            }
                        }
                    } else {
                        facts::lemma_calm_trans(d0.fs, m, e.fs, t);
                        frame::lemma_frames_push(
                            segs0.last().records + extra.take(i as int),
                            payload,
                        );
                        assert((segs0.last().records + extra.take(i as int)).push(payload)
                            =~= segs0.last().records + extra.take(i + 1));
                    }
                }
            }
            match done {
                Ok(_) => {},
                Err(e) => {
                    return Err(e);
                },
            }
            i = i + 1;
        }
        assert(extra.take(i as int) =~= extra);
        let ghost d1 = fs.disk();
        if sync {
            let done = self.active.sync(fs);
            let ghost d2 = fs.disk();
            proof {
                if d2.room() && !d1.halted {
                    let m = d1.fs;
                    let n = m.file_synced(p);
                    let whole = log_model(with_last(segs0, extra));
                    assert(whole.last().0 == segs0.last().id);
                    lemma_seen_last_synced(m, dir, whole);
                    if held {
                        lemma_in_flight_synced(m, dir, segs0, extra, safe0);
                    }
                    facts::lemma_sync_file_keeps(m, p);
                    facts::lemma_calm_mono(m, n, set![p], t);
                    facts::lemma_outcome_keeps(d1, d2, true, n, done is Ok, t);
                    facts::lemma_keeps_trans(d0.fs, m, d2.fs, t);
                    lemma_all_framed_last(segs0, extra);
                    if d2.halted {
                        if claim {
                            assert(recovery::tamper_evident(extra.take(i as int)));
                            if !storage::power_loss(n, d2.fs) {
                                lemma_batch_crash(m, d2.fs, dir, segs0, extra, i as int);
                            } else {
                                lemma_stable_crash(n, d2.fs, dir, with_last(segs0, extra));
                                lemma_all_records_last(segs0, extra);
                                assert((recs + extra).take(recs.len() as int) =~= recs);
                                assert((recs + extra).take((recs + extra).len() as int) =~= recs
                                    + extra);
                                lemma_left_log_weaken(
                                    d2.fs,
                                    dir,
                                    recs + extra,
                                    recs + extra,
                                    recs,
                                    recs + extra,
                                );
                            }
                        }
                    } else {
                        facts::lemma_calm_trans(d0.fs, m, d2.fs, t);
                    }
                }
            }
            match done {
                Ok(_) => {},
                Err(e) => {
                    return Err(e);
                },
            }
        }
        let ghost d3 = fs.disk();
        let ghost mid_id = self.active.number();
        self.segs = Ghost(with_last(segs0, extra));
        let ghost kept_safe = sync && held;
        self.safe = Ghost(kept_safe);
        proof {
            if d3.room() && !d3.halted {
                lemma_all_framed_last(segs0, extra);
            }
            if d3.room() && !d0.halted {
                lemma_all_records_last(segs0, extra);
                lemma_all_records_push(
                    with_last(segs0, extra),
                    LogSegment { id: (mid_id + 1) as u64, records: Seq::empty() },
                );
                assert(all_records(with_last(segs0, extra)) + Seq::<Seq<u8>>::empty()
                    =~= all_records(with_last(segs0, extra)));
            }
        }
        let ghost mid = *self;
        let r = self.maybe_rotate(fs);
        if r.is_err() {
            self.segs = Ghost(segs0);
            self.safe = Ghost(safe0);
        }
        let ghost d4 = fs.disk();
        proof {
            if d4.room() {
                facts::lemma_keeps_trans(d0.fs, d3.fs, d4.fs, t);
                if !d4.halted {
                    facts::lemma_calm_trans(d0.fs, d3.fs, d4.fs, t);
                } else if !d3.halted {
                    if claim {
                        assert((recs + extra).take(recs.len() as int) =~= recs);
                        assert((recs + extra).take((recs + extra).len() as int) =~= recs + extra);
                        lemma_left_log_weaken(
                            d4.fs,
                            dir,
                            recs + extra,
                            recs + extra,
                            recs,
                            recs + extra,
                        );
                    }
                }
            }
        }
        r
    }
}

proof fn lemma_all_framed_last(segs: Seq<LogSegment>, extra: Seq<Seq<u8>>)
    requires
        all_framed(segs),
        segs.len() > 0,
        frame::all_fit(extra),
    ensures
        all_framed(with_last(segs, extra)),
{
    let w = with_last(segs, extra);
    assert forall|i: int| 0 <= i < w.len() implies frame::all_fit((#[trigger] w[i]).records) by {
        assert(frame::all_fit(segs[i].records));
        let recs = w[i].records;
        assert forall|j: int| 0 <= j < recs.len() implies frame::fits(#[trigger] recs[j]) by {
            if j < segs[i].records.len() {
                assert(recs[j] == segs[i].records[j]);
            } else {
                assert(recs[j] == extra[j - segs[i].records.len()]);
            }
        }
    }
}

/// What a batch of one frame holds.
proof fn lemma_single(seq: u64, payload: Seq<u8>)
    requires
        frame::fits(payload),
    ensures
        well_framed(seq![(seq, frame::frame_of(payload))]),
        payloads(seq![(seq, frame::frame_of(payload))]) == seq![payload],
{
    let one = seq![(seq, frame::frame_of(payload))];
    frame::lemma_head_frame(payload, Seq::empty());
    codec::lemma_u32(payload.len() as u32);
    codec::lemma_u32(checksum::crc32(payload));
    assert(frame::frame_of(payload).skip(8) =~= payload);
    assert(payloads(one) =~= seq![payload]);
}

/// `log` holds one batch for its leader to write: what [`Wal::write_batch`]
/// needs of a log that may have commits under way.
pub open spec fn ready(log: &Wal, disk: storage::Disk) -> bool {
    &&& disk.dependable
    &&& disk.room() ==> facts::sound(disk.fs)
    &&& !disk.halted && disk.room() ==> log.inv(disk.fs)
}

/// The pipeline after the commit of `payload` by a writer that leads: with what was queued
/// before it durable, or, if the write failed, back in the queue, `payload` behind it.
pub open spec fn after_commit(c: CoordView, payload: Seq<u8>, ok: bool) -> CoordView {
    let seq = (c.next_seq + 1) as u64;
    if ok {
        CoordView { queue: Seq::empty(), next_seq: seq, synced_through: seq, ..c }
    } else {
        CoordView {
            queue: c.queue.push((seq, frame::frame_of(payload))),
            next_seq: seq,
            ..c
        }
    }
}

impl Wal {
    /// Writes every frame of a batch to the active segment and issues one sync,
    /// rolling the segment afterwards if it crossed its size.
    pub fn write_batch<S: Storage>(
        &mut self,
        fs: &mut S,
        batch: &Vec<(u64, Vec<u8>)>,
    ) -> (r: StorageResult<()>)
        requires
            old(fs).wf(),
            ready(old(self), old(fs).disk()),
            well_framed(numbered_bytes(batch@)),
            batch@.len() > 0,
        ensures
            final(fs).wf(),
            final(fs).disk().dependable,
            final(fs).disk().reliable == old(fs).disk().reliable,
            final(self).commits() == old(self).commits(),
            append_outcome(
                old(fs).disk(),
                final(fs).disk(),
                old(self),
                final(self),
                payloads(numbered_bytes(batch@)),
                true,
                r is Ok,
            ),
            final(fs).disk().room() && !final(fs).disk().halted && old(self).is_anchored()
                ==> final(self).is_safe(),
            final(self).pipeline() == old(self).pipeline(),
    {
        self.write_frames(fs, batch, true)
    }

    /// The per-write path: writes the single frame and syncs it.
    fn commit_sync_now<S: Storage>(&mut self, fs: &mut S, payload: &[u8]) -> (r: StorageResult<()>)
        requires
            old(fs).wf(),
            ready(old(self), old(fs).disk()),
            frame::fits(payload@),
        ensures
            final(fs).wf(),
            final(fs).disk().dependable,
            final(fs).disk().reliable == old(fs).disk().reliable,
            final(self).commits() == old(self).commits(),
            append_outcome(
                old(fs).disk(),
                final(fs).disk(),
                old(self),
                final(self),
                seq![payload@],
                true,
                r is Ok,
            ),
            final(fs).disk().room() && !final(fs).disk().halted && old(self).is_anchored()
                ==> final(self).is_safe(),
            final(self).pipeline() == old(self).pipeline(),
    {
        let mut batch: Vec<(u64, Vec<u8>)> = Vec::new();
        batch.push((0, frame::encode(payload)));
        proof {
            lemma_single(0, payload@);
            assert(numbered_bytes(batch@) =~= seq![(0u64, frame::frame_of(payload@))]);
        }
        self.write_frames(fs, &batch, true)
    }

    /// The buffered path: appends without a durability barrier.
    fn commit_buffered<S: Storage>(&mut self, fs: &mut S, payload: &[u8]) -> (r: StorageResult<()>)
        requires
            old(fs).wf(),
            ready(old(self), old(fs).disk()),
            frame::fits(payload@),
            !old(self).mode().durable(),
        ensures
            final(fs).wf(),
            final(fs).disk().dependable,
            final(fs).disk().reliable == old(fs).disk().reliable,
            final(self).commits() == old(self).commits(),
            append_outcome(
                old(fs).disk(),
                final(fs).disk(),
                old(self),
                final(self),
                seq![payload@],
                false,
                r is Ok,
            ),
            final(self).pipeline() == old(self).pipeline(),
    {
        let mut batch: Vec<(u64, Vec<u8>)> = Vec::new();
        batch.push((0, frame::encode(payload)));
        proof {
            lemma_single(0, payload@);
            assert(numbered_bytes(batch@) =~= seq![(0u64, frame::frame_of(payload@))]);
        }
        self.write_frames(fs, &batch, false)
    }

    /// The group path: enqueues this frame and, with no other writer in the
    /// way, leads the batch that it is in.
    fn commit_group<S: Storage>(&mut self, fs: &mut S, payload: &[u8]) -> (r: StorageResult<()>)
        requires
            old(fs).wf(),
            ready(old(self), old(fs).disk()),
            old(self).wf(),
            !old(fs).disk().halted && old(fs).disk().room() ==> old(self).idle(),
            frame::fits(payload@),
            old(self).commits() < u64::MAX,
        ensures
            final(fs).wf(),
            final(self).wf(),
            final(fs).disk().room() && !final(fs).disk().halted ==> final(self).idle(),
            final(fs).disk().dependable,
            final(fs).disk().reliable == old(fs).disk().reliable,
            final(self).commits() == old(self).commits() + 1,
            final(self).pipeline() == after_commit(old(self).pipeline(), payload@, r is Ok),
            append_outcome(
                old(fs).disk(),
                final(fs).disk(),
                old(self),
                final(self),
                seq![payload@],
                true,
                r is Ok,
            ),
            final(fs).disk().room() && !final(fs).disk().halted && old(self).is_anchored()
                ==> final(self).is_safe(),
    {
        let ghost stranded = self.coord@.queue;
        let my_seq: u64 = self.coord.enqueue(frame::encode(payload));
        let ghost queued = self.coord@.queue;
        proof {
            lemma_single(my_seq, payload@);
            let one = seq![(my_seq, frame::frame_of(payload@))];
            assert forall|i: int| 0 <= i < queued.len() implies (#[trigger] queued[i]).1
                == frame::frame_of(queued[i].1.skip(8)) && frame::fits(queued[i].1.skip(8)) by {
                if i < stranded.len() {
                    assert(queued[i] == stranded[i]);
                } else {
                    assert(queued[i] == one[0]);
                }
            }
            if stranded.len() == 0 {
                assert(queued =~= one);
            }
        }
        match self.coord.poll(my_seq) {
            CommitStep::Lead(batch) => {
                let io = self.write_frames(fs, &batch, true);
                let ok: bool = io.is_ok();
                self.coord.publish(batch, ok);
                assert(numbered_bytes(batch@) + Seq::<(u64, Seq<u8>)>::empty() =~= numbered_bytes(
                    batch@,
                ));
                assert(self.coord@ =~= after_commit(old(self).coord@, payload@, ok));
                io
            },
            _ => {
                assert(false);
                Ok(())
            },
        }
    }

    /// Appends one record `payload` and returns only once the configured
    /// [`Durability`] contract is met. The payload is opaque to the log. On
    /// return in a durable mode the record is durable.
    pub fn append<S: Storage>(&mut self, fs: &mut S, payload: &[u8]) -> (r: StorageResult<()>)
        requires
            old(fs).wf(),
            ready(old(self), old(fs).disk()),
            old(self).wf(),
            !old(fs).disk().halted && old(fs).disk().room() ==> old(self).idle(),
            frame::fits(payload@),
            old(self).commits() < u64::MAX,
        ensures
            final(fs).wf(),
            final(self).wf(),
            final(fs).disk().room() && !final(fs).disk().halted ==> final(self).idle(),
            final(fs).disk().dependable,
            final(fs).disk().reliable == old(fs).disk().reliable,
            final(self).commits() <= old(self).commits() + 1,
            final(self).pipeline() == if old(self).mode() == Durability::GroupCommit {
                after_commit(old(self).pipeline(), payload@, r is Ok)
            } else {
                old(self).pipeline()
            },
            append_outcome(
                old(fs).disk(),
                final(fs).disk(),
                old(self),
                final(self),
                seq![payload@],
                old(self).mode().durable(),
                r is Ok,
            ),
            final(fs).disk().room() && !final(fs).disk().halted && old(self).mode().durable()
                && old(self).is_anchored() ==> final(self).is_safe(),
    {
        match self.durability {
            Durability::Always => self.commit_sync_now(fs, payload),
            Durability::OsBuffered => self.commit_buffered(fs, payload),
            Durability::GroupCommit => self.commit_group(fs, payload),
        }
    }
}

/// From `fs` to `m` only live names went away.
spec fn only_unlinked(fs: FsState, m: FsState) -> bool {
    &&& m.durable == fs.durable
    &&& m.next == fs.next
    &&& forall|p: PathView| #[trigger]
        fs.durable.contains_key(p) ==> m.data[fs.durable[p]] == fs.data[fs.durable[p]]
    &&& forall|p: PathView| #[trigger]
        m.live.contains_key(p) ==> fs.live.contains_key(p) && m.live[p] == fs.live[p]
            && m.data[m.live[p]] == fs.data[fs.live[p]]
}

proof fn lemma_delete_unlinks(fs: FsState, m: FsState, p: PathView)
    requires
        facts::sound(m),
        only_unlinked(fs, m),
    ensures
        only_unlinked(fs, m.deleted(p)),
        !m.deleted(p).live.contains_key(p),
        forall|q: PathView|
            q != p && #[trigger] m.live.contains_key(q) ==> m.deleted(p).live.contains_key(q),
{
    m.lemma_deleted(p);
    m.unlinked(p).lemma_pruned();
    assert forall|q: PathView| #[trigger] fs.durable.contains_key(q) implies m.deleted(
        p,
    ).data[fs.durable[q]] == fs.data[fs.durable[q]] by {
        assert(m.unlinked(p).durable.contains_key(q));
    }
    assert forall|q: PathView| #[trigger] m.deleted(p).live.contains_key(q) implies fs.live.contains_key(
        q,
    ) && m.deleted(p).live[q] == fs.live[q] && m.deleted(p).data[m.deleted(p).live[q]]
        == fs.data[fs.live[q]] by {
        assert(m.unlinked(p).live.contains_key(q));
        assert(m.live.contains_key(q));
    }
}

/// What a power loss leaves after only live names went away.
proof fn lemma_unlinked_crash(fs: FsState, m: FsState, after: FsState)
    requires
        only_unlinked(fs, m),
        storage::power_loss(m, after),
    ensures
        storage::power_loss(fs, after),
{
    facts::lemma_power_loss_sees(m, fs, after);
}

/// A log of which nothing but an empty segment is left.
proof fn lemma_log_fresh(fs: FsState, dir: Seq<u8>, id: u64)
    requires
        facts::stable(fs, segment::segment_at(dir, id), Seq::empty()),
        forall|p: PathView| #[trigger]
            facts::named(fs, p) && p.0 == dir && names::segment_id(p.1) is Some ==> p
                == segment::segment_at(dir, id),
    ensures
        recovery::log_stable(fs, dir, seq![(id, Seq::empty())]),
{
    let files = seq![(id, Seq::<u8>::empty())];
    assert forall|p: PathView| #[trigger]
        facts::named(fs, p) && p.0 == dir && names::segment_id(p.1) is Some implies exists|i: int|
        0 <= i < files.len() && p == segment::segment_at(dir, (#[trigger] files[i]).0) by {
        assert(p == segment::segment_at(dir, files[0].0));
    }
}

/// What is left of the log when a reset ends, in success, failure or a power
/// loss.
pub open spec fn reset_outcome(
    pre: storage::Disk,
    post: storage::Disk,
    before: &Wal,
    after: &Wal,
    ok: bool,
) -> bool {
    &&& after.home() == before.home()
    &&& after.mode() == before.mode()
    &&& after.roll_size() == before.roll_size()
    &&& after.pipeline() == before.pipeline()
    &&& storage::used(pre, post, 1)
    &&& !ok ==> after.segments() == before.segments()
    &&& post.room() ==> {
        &&& pre.room()
        &&& facts::keeps(pre.fs, post.fs, recovery::log_names(before.home()))
        &&& pre.halted ==> !ok && post.halted && post.fs == pre.fs
        &&& ok ==> before.segments().last().id < u64::MAX && after.segments() == seq![
            LogSegment {
                id: (before.segments().last().id + 1) as u64,
                records: Seq::<Seq<u8>>::empty(),
            },
        ] && after.records() == Seq::<Seq<u8>>::empty()
        &&& !post.halted ==> {
            &&& facts::calm(pre.fs, post.fs, recovery::log_names(before.home()))
            &&& after.inv(post.fs)
            &&& ok ==> after.is_safe() && after.is_anchored()
            &&& !ok ==> {
                &&& post.fs == pre.fs
                &&& after.is_anchored() == before.is_anchored()
                &&& after.is_safe() == before.is_safe()
                &&& pre.reliable ==> before.segments().last().id == u64::MAX
            }
        }
        &&& !pre.halted && post.halted ==> {
            &&& !pre.reliable
            &&& before.is_safe() ==> recovery::log_says(post.fs, before.home(), before.records())
                || recovery::log_says(post.fs, before.home(), Seq::empty())
            &&& ok ==> recovery::log_says(post.fs, before.home(), Seq::empty())
        }
    }
}

impl Wal {
    /// Releases the entire log: deletes every segment and starts a fresh, empty
    /// one, for use once every record has been captured elsewhere. The new
    /// segment is created and its name made durable before the old ones are
    /// deleted: a crash in between leaves segments that a later recovery
    /// replays. Fails, leaving the log as it is, when no segment id is left.
    #[verifier::rlimit(50)]
    pub fn reset<S: Storage>(&mut self, fs: &mut S) -> (r: StorageResult<()>)
        requires
            old(fs).wf(),
            ready(old(self), old(fs).disk()),
        ensures
            final(fs).wf(),
            final(fs).disk().dependable,
            final(fs).disk().reliable == old(fs).disk().reliable,
            reset_outcome(old(fs).disk(), final(fs).disk(), old(self), final(self), r is Ok),
    {
        let ghost d0 = fs.disk();
        let ghost dir = plain(self.dir@);
        let ghost t = recovery::log_names(dir);
        let ghost segs0 = self.segs@;
        let ghost files = log_model(segs0);
        proof {
            facts::lemma_calm_refl(d0.fs, t);
        }
        let existing: Vec<(u64, FilePath)> = match segment::list_segments(fs, &self.dir) {
            Ok(v) => v,
            Err(e) => {
                proof {
                    if d0.room() && !d0.halted {
                        assert(!d0.reliable);
                    }
                }
                return Err(e);
            },
        };
        let ghost v = segment::numbered(existing@);
        proof {
            if d0.room() && !d0.halted {
                recovery::lemma_seen_named(d0.fs, dir, files);
                recovery::lemma_listed_seen(d0.fs, dir, v);
                assert(files == recovery::segment_contents(d0.fs, v));
                assert(segment_ids_match(d0.fs, files, v));
            }
        }
        let newest: u64 = if existing.len() == 0 {
            0
        } else {
            existing[existing.len() - 1].0
        };
        proof {
            if d0.room() && !d0.halted {
                assert(v[v.len() - 1].0 == newest);
                assert(newest == segs0.last().id);
            }
        }
        if newest == u64::MAX {
            let e = StorageError::Io {
                path: segment::segment_path(&self.dir, newest),
                message: String::from_str("segment ids exhausted"),
            };
            return Err(e);
        }
        let next_id: u64 = newest + 1;
        let ghost q = segment::segment_at(dir, next_id);
        let created = Segment::create(fs, &self.dir, next_id);
        let ghost d1 = fs.disk();
        proof {
            names::lemma_segment_name(next_id);
            if d1.room() && !d0.halted {
                lemma_seen_rolled(d0.fs, dir, files, next_id);
                facts::lemma_calm_mono(d0.fs, d0.fs.created(q), set![q], t);
                facts::lemma_outcome_keeps(d0, d1, true, d0.fs.created(q), created is Ok, t);
                if d1.halted && self.safe@ {
                    assert(frame::all_fit(segs0[segs0.len() - 1].records));
                    recovery::lemma_scan_clean(segs0.last().records);
                    lemma_log_rolled(d0.fs, dir, files, next_id);
                    lemma_stable_crash(d0.fs, d1.fs, dir, segs0);
                    lemma_left_log_says(d1.fs, dir, all_records(segs0));
                }
            }
        }
        let fresh: Segment = match created {
            Ok(seg) => seg,
            Err(e) => {
                return Err(e);
            },
        };
        let committed = fs.sync_dir(&self.dir);
        let ghost d2 = fs.disk();
        let ghost mid = d2.fs;
        let ghost grown = segs0.push(LogSegment { id: next_id, records: Seq::empty() });
        proof {
            if d2.room() && !d1.halted {
                let n = d1.fs.dir_synced(dir);
                facts::lemma_sync_dir_keeps(d1.fs, dir);
                facts::lemma_calm_mono(d1.fs, n, Set::empty(), t);
                facts::lemma_outcome_keeps(d1, d2, true, n, committed is Ok, t);
                facts::lemma_keeps_trans(d0.fs, d1.fs, d2.fs, t);
                if !d2.halted {
                    facts::lemma_calm_trans(d0.fs, d1.fs, d2.fs, t);
                    d1.fs.lemma_dir_synced(dir);
                    d1.fs.dir_committed(dir).lemma_pruned();
                    assert(d1.fs.dir_committed(dir).live.contains_key(q));
                    assert(facts::stable(mid, q, Seq::empty()));
                }
                if self.safe@ {
                    assert(frame::all_fit(segs0[segs0.len() - 1].records));
                    recovery::lemma_scan_clean(segs0.last().records);
                    lemma_log_rolled(d0.fs, dir, files, next_id);
                    assert(log_model(grown) =~= files.push((next_id, Seq::empty())));
                    lemma_all_records_push(
                        segs0,
                        LogSegment { id: next_id, records: Seq::empty() },
                    );
                    assert(all_records(grown) =~= all_records(segs0));
                    assert forall|i: int| 0 <= i < grown.len() implies frame::all_fit(
                        (#[trigger] grown[i]).records,
                    ) by {
                        if i < segs0.len() {
                            assert(frame::all_fit(segs0[i].records));
                        }
                    }
                    if d2.halted {
                        if storage::power_loss(d1.fs, d2.fs) {
                            lemma_stable_crash(d0.fs, d2.fs, dir, segs0);
                        } else {
                            lemma_stable_crash(n, d2.fs, dir, grown);
                        }
                        lemma_left_log_says(d2.fs, dir, all_records(segs0));
                    }
                }
            }
        }
        match committed {
            Ok(_) => {},
            Err(e) => {
                return Err(e);
            },
        }
        let mut i: usize = 0;
        proof {
            if d2.room() && !d2.halted {
                assert forall|j: int| 0 <= j < v.len() implies mid.live.contains_key(
                    (#[trigger] v[j]).1,
                ) && v[j].1 != q by {
                    assert(d0.fs.live.contains_key(segment::segment_at(dir, files[j].0)));
                    assert(v[j].1 == segment::segment_at(dir, files[j].0));
                    let p = v[j].1;
                    if p == q {
                        recovery::lemma_segment_at_injective(dir, files[j].0, next_id);
                        assert(files[j].0 <= newest) by {
                            if j < files.len() - 1 {
                                assert(files[j].0 < files[files.len() - 1].0);
                            }
                        }
                    }
                    assert(d1.fs.live.contains_key(p));
                    assert(d1.fs.dir_committed(dir).live.contains_key(p));
                }
            }
        }
        while i < existing.len()
            invariant
                i <= existing.len(),
                fs.wf(),
                fs.disk().dependable,
                fs.disk().reliable == d0.reliable,
                d0 == old(fs).disk(),
                v == segment::numbered(existing@),
                t == recovery::log_names(dir),
                dir == plain(old(self).dir@),
                *self == *old(self),
                segs0 == old(self).segs@,
                mid == d2.fs,
                q == segment::segment_at(dir, next_id),
                fs.disk().room() ==> d2.room(),
                storage::used(d0, fs.disk(), 1),
                next_id == newest + 1,
                d0.room() && !d0.halted ==> newest == segs0.last().id,
                d2.room() ==> d0.room() && facts::sound(d0.fs) && facts::sound(mid),
                d2.room() ==> !d0.halted,
                d2.room() && !d2.halted ==> {
                    &&& facts::calm(d0.fs, mid, t)
                    &&& facts::stable(mid, q, Seq::empty())
                    &&& forall|j: int| #![trigger v[j]]
                        0 <= j < v.len() ==> v[j].1 != q && v[j].1.0 == dir && names::segment_id(
                            v[j].1.1,
                        ) is Some
                    &&& self.safe@ ==> recovery::log_stable(mid, dir, log_model(grown))
                        && all_framed(grown) && all_records(grown) == all_records(segs0)
                        && grown.len() > 0
                },
                fs.disk().room() ==> {
                    let d = fs.disk();
                    &&& facts::keeps(d0.fs, d.fs, t)
                    &&& d2.halted ==> d.halted && d.fs == d2.fs
                    &&& !d.halted ==> {
                        &&& facts::calm(mid, d.fs, t)
                        &&& only_unlinked(mid, d.fs)
                        &&& d.fs.live.contains_key(q)
                        &&& forall|j: int| #![trigger v[j]]
                            0 <= j < i ==> !d.fs.live.contains_key(v[j].1)
                        &&& forall|j: int| #![trigger v[j]]
                            i <= j < v.len() ==> d.fs.live.contains_key(v[j].1)
                    }
                    &&& !d0.halted && d.halted ==> !d0.reliable && (self.safe@
                        ==> recovery::log_says(d.fs, dir, all_records(segs0)))
                },
                fs.disk().room() && !d2.halted ==> segment::lists_segments(d0.fs, dir, v),
            decreases existing.len() - i,
        {
            let ghost d = fs.disk();
            let ghost p = v[i as int].1;
            assert(p == existing@[i as int].1@);
            let done = fs.delete(&existing[i].1);
            let ghost e = fs.disk();
            proof {
                if e.room() && !d.halted {
                    let m = d.fs;
                    let n = m.deleted(p);
                    lemma_delete_unlinks(mid, m, p);
                    facts::lemma_delete_keeps(m, p);
                    facts::lemma_calm_mono(m, n, set![p], t);
                    facts::lemma_outcome_keeps(d, e, true, n, done is Ok, t);
                    facts::lemma_keeps_trans(d0.fs, m, e.fs, t);
                    if e.halted {
                        if self.safe@ {
                            if storage::power_loss(m, e.fs) {
                                lemma_unlinked_crash(mid, m, e.fs);
                            } else {
                                lemma_unlinked_crash(mid, n, e.fs);
                            }
                            lemma_stable_crash(mid, e.fs, dir, grown);
                            lemma_left_log_says(e.fs, dir, all_records(segs0));
                        }
                    } else {
                        facts::lemma_calm_trans(mid, m, e.fs, t);
                        assert forall|j: int| i < j < v.len() implies e.fs.live.contains_key(
                            (#[trigger] v[j]).1,
                        ) by {
                            assert(v[i as int].1 != v[j].1);
                            assert(m.live.contains_key(v[j].1));
                        }
                        assert forall|j: int| 0 <= j < i + 1 implies !e.fs.live.contains_key(
                            (#[trigger] v[j]).1,
                        ) by {}
                    }
                }
            }
            match done {
                Ok(_) => {},
                Err(e) => {
                    return Err(e);
                },
            }
            i = i + 1;
        }
        let ghost d3 = fs.disk();
        let released = fs.sync_dir(&self.dir);
        let ghost d4 = fs.disk();
        proof {
            if d4.room() && !d3.halted {
                let m = d3.fs;
                let n = m.dir_synced(dir);
                facts::lemma_sync_dir_keeps(m, dir);
                facts::lemma_calm_mono(m, n, Set::empty(), t);
                facts::lemma_outcome_keeps(d3, d4, true, n, released is Ok, t);
                facts::lemma_keeps_trans(d0.fs, m, d4.fs, t);
                m.lemma_dir_synced(dir);
                m.dir_committed(dir).lemma_pruned();
                assert(m.dir_committed(dir).live.contains_key(q));
                assert(m.live.contains_key(q));
                assert(facts::stable(n, q, Seq::empty()));
                assert forall|p: PathView| #[trigger]
                    facts::named(n, p) && p.0 == dir && names::segment_id(p.1) is Some implies p
                    == q by {
                    assert(m.live.contains_key(p));
                    assert(mid.live.contains_key(p));
                    if p != q {
                        assert(d1.fs.live.contains_key(p));
                        assert(d0.fs.live.contains_key(p));
                        let j = choose|j: int| 0 <= j < v.len() && (#[trigger] v[j]).1 == p;
                        assert(!m.live.contains_key(v[j].1));
                    }
                }
                lemma_log_fresh(n, dir, next_id);
                let one = seq![LogSegment { id: next_id, records: Seq::empty() }];
                assert(log_model(one) =~= seq![(next_id, Seq::<u8>::empty())]);
                lemma_records_of_fresh(next_id);
                recovery::lemma_log_seen(n, dir, log_model(one));
                if d4.halted {
                    if released is Ok {
                        lemma_stable_crash(n, d4.fs, dir, one);
                        lemma_left_log_says(d4.fs, dir, all_records(one));
                    } else if self.safe@ && storage::power_loss(m, d4.fs) {
                        lemma_unlinked_crash(mid, m, d4.fs);
                        lemma_stable_crash(mid, d4.fs, dir, grown);
                        lemma_left_log_says(d4.fs, dir, all_records(segs0));
                    } else if self.safe@ {
                        lemma_stable_crash(n, d4.fs, dir, one);
                        lemma_left_log_says(d4.fs, dir, all_records(one));
                    }
                } else {
                    facts::lemma_calm_trans(mid, m, d4.fs, t);
                    facts::lemma_calm_trans(d0.fs, mid, d4.fs, t);
                }
            }
        }
        match released {
            Ok(_) => {},
            Err(e) => {
                return Err(e);
            },
        }
        let ghost one = seq![LogSegment { id: next_id, records: Seq::empty() }];
        self.active = fresh;
        self.segs = Ghost(one);
        self.anchored = Ghost(true);
        self.safe = Ghost(true);
        Ok(())
    }
}

/// Listed ids are those of the log.
spec fn segment_ids_match(
    fs: FsState,
    files: Seq<(u64, Seq<u8>)>,
    v: Seq<(u64, PathView)>,
) -> bool {
    v.len() == files.len() && forall|i: int|
        0 <= i < v.len() ==> (#[trigger] v[i]).0 == files[i].0
}

/// A log that begins with and is how the same records begin has just those.
proof fn lemma_left_log_says(fs: FsState, dir: Seq<u8>, records: Seq<Seq<u8>>)
    requires
        left_log(fs, dir, records, records),
    ensures
        recovery::log_says(fs, dir, records),
{
    let files = choose|files: Seq<(u64, Seq<u8>)>|
        {
            &&& #[trigger] recovery::log_stable(fs, dir, files)
            &&& files.len() > 0
            &&& recovery::is_prefix(records, recovery::replay(files).records)
            &&& recovery::is_prefix(recovery::replay(files).records, records)
        };
    let found = recovery::replay(files).records;
    assert(found.take(found.len() as int) =~= found);
    assert(records.take(records.len() as int) =~= records);
}

proof fn lemma_records_of_fresh(id: u64)
    ensures
        all_records(seq![LogSegment { id, records: Seq::empty() }]) == Seq::<Seq<u8>>::empty(),
        all_framed(seq![LogSegment { id, records: Seq::empty() }]),
{
    let one = seq![LogSegment { id, records: Seq::empty() }];
    assert(one.drop_first() =~= Seq::empty());
    assert(all_records(one.drop_first()) =~= Seq::empty());
    assert(all_records(one) =~= Seq::empty());
}

/// The segments of a log in which every segment is clean.
spec fn segments_of(files: Seq<(u64, Seq<u8>)>) -> Seq<LogSegment> {
    Seq::new(
        files.len(),
        |i: int| LogSegment { id: files[i].0, records: recovery::scan(files[i].1).records },
    )
}

/// A log in which every segment is clean is the model of its segments.
proof fn lemma_segments_of(files: Seq<(u64, Seq<u8>)>)
    requires
        forall|i: int|
            0 <= i < files.len() ==> recovery::scan((#[trigger] files[i]).1).reason
                == StopReason::Clean,
    ensures
        log_model(segments_of(files)) == files,
        all_framed(segments_of(files)),
        all_records(segments_of(files)) == recovery::replay(files).records,
{
    let segs = segments_of(files);
    assert forall|i: int| 0 <= i < segs.len() implies frame::all_fit((#[trigger] segs[i]).records)
        && frame::frames_of(segs[i].records) == files[i].1 by {
        recovery::lemma_scan_valid(files[i].1);
        recovery::lemma_scan_len(files[i].1);
        assert(files[i].1.take(files[i].1.len() as int) =~= files[i].1);
    }
    assert(log_model(segs) =~= files);
    lemma_replay_model(segs);
}

/// What opening a log in `dir` makes of it.
pub open spec fn open_outcome(
    pre: storage::Disk,
    post: storage::Disk,
    dir: Seq<u8>,
    r: StorageResult<(Wal, Recovered)>,
) -> bool {
    let files = recovery::seen_in(pre.fs, dir);
    &&& storage::used(pre, post, 2)
    &&& post.room() ==> {
        &&& pre.room()
        &&& facts::sound(pre.fs) ==> facts::sound(post.fs)
        &&& pre.halted ==> post.halted
        &&& recovery::plainly_named(pre.fs, dir) ==> {
            &&& facts::keeps(pre.fs, post.fs, recovery::log_names(dir))
            &&& !post.halted ==> facts::calm(pre.fs, post.fs, recovery::log_names(dir))
            &&& !post.halted && r is Ok ==> {
                let log = r->Ok_0.0;
                &&& log.inv(post.fs)
                &&& recovery::log_on(pre.fs, dir, files) ==> log.is_anchored()
                &&& recovery::log_stable(pre.fs, dir, files) ==> log.is_safe()
                &&& log.records() == recovery::replay(files).records
                &&& r->Ok_0.1@ == recovery::replay(files)
                &&& log_model(log.segments()) == adopted(files)
            }
            &&& recovery::log_stable(pre.fs, dir, files) ==> recovery::log_says(
                post.fs,
                dir,
                recovery::replay(files).records,
            )
            &&& pre.reliable && !pre.halted && recovery::fits_memory(pre.fs, dir) ==> r is Ok
                && !post.halted
        }
    }
}

/// What opening makes of the segments that it finds: those behind a bad frame are gone,
/// that frame and what follows it are cut off, and there is at least one segment.
pub open spec fn adopted(files: Seq<(u64, Seq<u8>)>) -> Seq<(u64, Seq<u8>)> {
    started(trimmed(recovery::kept(files)))
}

/// The log with what is not valid in its last segment cut off.
pub open spec fn trimmed(files: Seq<(u64, Seq<u8>)>) -> Seq<(u64, Seq<u8>)> {
    if files.len() == 0 {
        files
    } else {
        let last = files.last().1;
        recovery::set_last(files, last.take(recovery::scan(last).valid_len as int))
    }
}

/// The log, or if it has no segment, one with an empty first segment.
pub open spec fn started(files: Seq<(u64, Seq<u8>)>) -> Seq<(u64, Seq<u8>)> {
    if files.len() == 0 {
        seq![(1u64, Seq::<u8>::empty())]
    } else {
        files
    }
}

proof fn lemma_trimmed(files: Seq<(u64, Seq<u8>)>)
    requires
        recovery::clean_front(files),
    ensures
        forall|i: int|
            0 <= i < trimmed(files).len() ==> recovery::scan((#[trigger] trimmed(files)[i]).1).reason
                == StopReason::Clean,
        recovery::replay(trimmed(files)).records == recovery::replay(files).records,
        files.len() > 0 && recovery::scan(files.last().1).reason == StopReason::Clean ==> trimmed(
            files,
        ) == files,
{
    if files.len() > 0 {
        let last = files.last().1;
        let cut = trimmed(files);
        recovery::lemma_scan_valid(last);
        recovery::lemma_scan_len(last);
        recovery::lemma_replay_set_last(files, last.take(recovery::scan(last).valid_len as int));
        if recovery::scan(last).reason == StopReason::Clean {
            assert(last.take(last.len() as int) =~= last);
            assert(cut =~= files);
        }
        assert forall|i: int| 0 <= i < cut.len() implies recovery::scan(
            (#[trigger] cut[i]).1,
        ).reason == StopReason::Clean by {
            if i < files.len() - 1 {
                assert(cut[i] == files[i]);
            }
        }
    }
}

proof fn lemma_started(files: Seq<(u64, Seq<u8>)>)
    requires
        forall|i: int|
            0 <= i < files.len() ==> recovery::scan((#[trigger] files[i]).1).reason
                == StopReason::Clean,
    ensures
        forall|i: int|
            0 <= i < started(files).len() ==> recovery::scan((#[trigger] started(files)[i]).1).reason
                == StopReason::Clean,
        recovery::replay(started(files)).records == recovery::replay(files).records,
{
    if files.len() == 0 {
        lemma_replay_empty(files, 1);
        assert(files.push((1, Seq::empty())) =~= started(files));
    }
}

/// The log replays to what is in it, whatever became of an operation.
spec fn still_says(
    pre: storage::Disk,
    post: storage::Disk,
    dir: Seq<u8>,
    files: Seq<(u64, Seq<u8>)>,
) -> bool {
    &&& facts::keeps(pre.fs, post.fs, recovery::log_names(dir))
    &&& !post.halted ==> facts::calm(pre.fs, post.fs, recovery::log_names(dir))
    &&& recovery::log_stable(pre.fs, dir, files) ==> recovery::log_says(
        post.fs,
        dir,
        recovery::replay(files).records,
    )
}

proof fn lemma_tail_names(dir: Seq<u8>, tail: u64)
    ensures
        set![(dir, names::segment_tmp_name(tail)), segment::segment_at(dir, tail)].subset_of(
            recovery::log_names(dir),
        ),
        names::segment_id(names::segment_tmp_name(tail)) is None,
{
    names::lemma_segment_name(tail);
    names::lemma_kinds_apart(tail);
}

/// What rewriting the last segment of a log to its valid part leaves.
proof fn lemma_tail_cut(fs: FsState, post: FsState, dir: Seq<u8>, files: Seq<(u64, Seq<u8>)>)
    requires
        facts::sound(fs),
        recovery::log_on(fs, dir, files),
        files.len() > 0,
        facts::keeps(
            fs,
            post,
            set![
                (dir, names::segment_tmp_name(files.last().0)),
                segment::segment_at(dir, files.last().0),
            ],
        ),
    ensures
        facts::keeps(fs, post, recovery::log_names(dir)),
        facts::stable(
            post,
            segment::segment_at(dir, files.last().0),
            trimmed(files).last().1,
        ) ==> recovery::log_stable(post, dir, trimmed(files)) && recovery::log_says(
            post,
            dir,
            recovery::replay(files).records,
        ),
        recovery::log_stable(fs, dir, files) && replace::unreplaced(
            fs,
            post,
            segment::segment_at(dir, files.last().0),
        ) ==> recovery::log_says(post, dir, recovery::replay(files).records),
{
    let tail = files.last().0;
    let p = segment::segment_at(dir, tail);
    let tmp = (dir, names::segment_tmp_name(tail));
    lemma_tail_names(dir, tail);
    facts::lemma_keeps_mono(fs, post, set![tmp, p], recovery::log_names(dir));
    let last = files.last().1;
    let keep = trimmed(files).last().1;
    lemma_trimmed(files);
    if facts::stable(post, p, keep) {
        recovery::lemma_log_replaced(fs, post, set![tmp, p], dir, files, keep);
    }
    if recovery::log_stable(fs, dir, files) && replace::unreplaced(fs, post, p) {
        assert(facts::stable(
            fs,
            segment::segment_at(dir, files[files.len() - 1].0),
            files[files.len() - 1].1,
        ));
        assert(facts::stable(post, p, last));
        recovery::lemma_log_replaced(fs, post, set![tmp, p], dir, files, last);
        assert(recovery::set_last(files, last) =~= files);
    }
}

/// The last of the segments deleted.
proof fn lemma_seen_deleted(fs: FsState, dir: Seq<u8>, files: Seq<(u64, Seq<u8>)>)
    requires
        facts::sound(fs),
        recovery::log_seen(fs, dir, files),
        files.len() > 0,
    ensures
        fs.live.contains_key(segment::segment_at(dir, files.last().0)),
        recovery::log_seen(
            fs.deleted(segment::segment_at(dir, files.last().0)),
            dir,
            files.drop_last(),
        ),
{
    let p = segment::segment_at(dir, files.last().0);
    let post = fs.deleted(p);
    let less = files.drop_last();
    facts::lemma_delete_keeps(fs, p);
    assert(files[files.len() - 1] == files.last());
    assert forall|i: int| 0 <= i < less.len() implies post.live.contains_key(
        segment::segment_at(dir, (#[trigger] less[i]).0),
    ) && post.content(segment::segment_at(dir, less[i].0)) == less[i].1 by {
        let q = segment::segment_at(dir, files[i].0);
        assert(files[i].0 < files[files.len() - 1].0);
        if q == p {
            recovery::lemma_segment_at_injective(dir, files[i].0, files.last().0);
        }
        assert(facts::visible(fs, q, fs.data[fs.live[q]]));
        assert(facts::visible(post, q, fs.data[fs.live[q]]));
    }
    assert forall|i: int, j: int| 0 <= i < j < less.len() implies (#[trigger] less[i]).0 < (
    #[trigger] less[j]).0 by {
        assert(files[i].0 < files[j].0);
    }
    assert forall|q: PathView| #[trigger]
        facts::is_live(post, q) && q.0 == dir && names::segment_id(q.1) is Some implies exists|
        i: int,
    |
        0 <= i < less.len() && q == segment::segment_at(dir, (#[trigger] less[i]).0) by {
        assert(facts::is_live(fs, q) && q != p);
        let i = choose|i: int|
            0 <= i < files.len() && q == segment::segment_at(dir, (#[trigger] files[i]).0);
        assert(less[i] == files[i]);
    }
}

/// Deletes the segments behind one with a bad frame, and makes that durable. Does nothing
/// if there are none.
fn drop_unreached<S: Storage>(fs: &mut S, dir: &[u8], recovered: &Recovered) -> (r: StorageResult<
    (),
>)
    requires
        old(fs).wf(),
        old(fs).disk().dependable,
        old(fs).disk().room() ==> facts::sound(old(fs).disk().fs),
    ensures
        final(fs).wf(),
        facts::carried(old(fs).disk(), final(fs).disk(), recovery::log_names(plain(dir@))),
        storage::used(old(fs).disk(), final(fs).disk(), 0),
        ({
            let pre = old(fs).disk();
            let post = final(fs).disk();
            let files = recovery::seen_in(pre.fs, plain(dir@));
            post.room() && recovery::plainly_named(pre.fs, plain(dir@)) && recovered@
                == recovery::replay(files) ==> {
                &&& recovery::kept(files) == files ==> *final(fs) == *old(fs)
                &&& !post.halted && r is Ok ==> recovery::log_seen(
                    post.fs,
                    plain(dir@),
                    recovery::kept(files),
                )
                &&& pre.reliable && !pre.halted ==> r is Ok
            }
        }),
{
    let ghost d0 = fs.disk();
    let ghost t = recovery::log_names(plain(dir@));
    let ghost files = recovery::seen_in(d0.fs, plain(dir@));
    let ghost keep = recovery::kept(files);
    let ghost known = recovery::plainly_named(d0.fs, plain(dir@)) && recovered@
        == recovery::replay(files) && d0.room();
    proof {
        facts::lemma_carried_refl(d0, t);
        recovery::lemma_kept(files);
    }
    let segments: Vec<(u64, FilePath)> = match segment::list_segments(fs, dir) {
        Ok(v) => v,
        Err(e) => {
            return Err(e);
        },
    };
    let ghost v = segment::numbered(segments@);
    proof {
        if known {
            recovery::lemma_listed_seen(d0.fs, plain(dir@), v);
            assert(files == recovery::segment_contents(d0.fs, v));
            assert(files.take(files.len() as int) =~= files);
        }
    }
    let mut n: usize = segments.len();
    if let Some(tail) = recovered.tail_segment {
        if recovered.stop_reason != StopReason::Clean {
            while n > 0 && segments[n - 1].0 > tail
                invariant
                    n <= segments@.len(),
                    v == segment::numbered(segments@),
                    known ==> files == recovery::segment_contents(d0.fs, v)
                        && recovery::log_seen(d0.fs, plain(dir@), files) && recovery::reached(
                        files,
                    ) <= n && recovery::reached(files) > 0 && files[recovery::reached(files)
                        - 1].0 == tail,
                decreases n,
            {
                assert(v[n - 1].0 == segments@[n - 1].0);
                proof {
                    if known {
                        assert(files[n - 1].0 == v[n - 1].0);
                    }
                }
                n = n - 1;
            }
            proof {
                if known && n > recovery::reached(files) {
                    assert(v[n - 1].0 == segments@[n - 1].0);
                    assert(files[n - 1].0 == v[n - 1].0);
                    assert(files[recovery::reached(files) - 1].0 < files[n - 1].0);
                }
            }
        }
    }
    assert(known ==> n == recovery::reached(files));
    if n == segments.len() {
        assert(known ==> keep =~= files);
        return Ok(());
    }
    let mut i: usize = segments.len();
    while i > n
        invariant
            n <= i <= segments@.len(),
            fs.wf(),
            fs.disk().dependable,
            d0 == old(fs).disk(),
            d0.room() ==> facts::sound(d0.fs),
            t == recovery::log_names(plain(dir@)),
            v == segment::numbered(segments@),
            segment::lists_segments(d0.fs, plain(dir@), v),
            facts::carried(d0, fs.disk(), t),
            storage::used(d0, fs.disk(), 0),
            files == recovery::seen_in(d0.fs, plain(dir@)),
            known == (recovery::plainly_named(d0.fs, plain(dir@)) && recovered@
                == recovery::replay(files) && d0.room()),
            known ==> files == recovery::segment_contents(d0.fs, v) && n == recovery::reached(
                files,
            ) && d0.room(),
            known ==> forall|j: int|
                0 <= j < v.len() ==> (#[trigger] v[j]).1 == segment::segment_at(
                    plain(dir@),
                    v[j].0,
                ),
            known && fs.disk().room() && !fs.disk().halted ==> recovery::log_seen(
                fs.disk().fs,
                plain(dir@),
                files.take(i as int),
            ),
            keep == recovery::kept(files),
            n < segments@.len(),
        decreases i,
    {
        i = i - 1;
        let ghost d1 = fs.disk();
        let ghost p = v[i as int].1;
        assert(p == segments@[i as int].1@);
        let done = fs.delete(&segments[i].1);
        proof {
            assert(t.contains(p));
            facts::lemma_delete_keeps(d1.fs, p);
            facts::lemma_calm_mono(d1.fs, d1.fs.deleted(p), set![p], t);
            facts::lemma_outcome_carries(
                d1,
                fs.disk(),
                d1.fs.live.contains_key(p),
                d1.fs.deleted(p),
                done is Ok,
                t,
            );
            facts::lemma_carried_trans(d0, d1, fs.disk(), t);
            if known && d1.room() && !d1.halted {
                let some = files.take(i + 1);
                assert(some.last() == files[i as int]);
                assert(some.drop_last() =~= files.take(i as int));
                assert(files[i as int].0 == v[i as int].0);
                lemma_seen_deleted(d1.fs, plain(dir@), some);
            }
            if known && fs.disk().room() && d0.reliable && !d0.halted {
                assert(!d1.halted && !fs.disk().halted);
                assert(d1.fs.live.contains_key(p));
                assert(done is Ok);
            }
            if known {
                assert(keep.len() < files.len());
            }
        }
        match done {
            Ok(_) => {},
            Err(e) => {
                return Err(e);
            },
        }
    }
    assert(known ==> files.take(i as int) == keep && keep.len() < files.len());
    let ghost d2 = fs.disk();
    let synced = fs.sync_dir(dir);
    proof {
        facts::lemma_sync_dir_keeps(d2.fs, plain(dir@));
        facts::lemma_calm_mono(d2.fs, d2.fs.dir_synced(plain(dir@)), Set::empty(), t);
        facts::lemma_outcome_carries(
            d2,
            fs.disk(),
            true,
            d2.fs.dir_synced(plain(dir@)),
            synced is Ok,
            t,
        );
        facts::lemma_carried_trans(d0, d2, fs.disk(), t);
        if known && d2.room() && !d2.halted {
            lemma_seen_dir_synced(d2.fs, plain(dir@), keep);
        }
    }
    synced
}

/// The last segment rewritten to its valid part, as it is seen.
proof fn lemma_seen_cut(fs: FsState, post: FsState, dir: Seq<u8>, files: Seq<(u64, Seq<u8>)>)
    requires
        facts::sound(fs),
        recovery::log_seen(fs, dir, files),
        files.len() > 0,
        facts::calm(
            fs,
            post,
            set![
                (dir, names::segment_tmp_name(files.last().0)),
                segment::segment_at(dir, files.last().0),
            ],
        ),
        facts::stable(
            post,
            segment::segment_at(dir, files.last().0),
            trimmed(files).last().1,
        ),
    ensures
        recovery::log_seen(post, dir, trimmed(files)),
{
    let tail = files.last().0;
    let p = segment::segment_at(dir, tail);
    let tmp = (dir, names::segment_tmp_name(tail));
    let cut = trimmed(files);
    let last = files.len() - 1;
    lemma_tail_names(dir, tail);
    assert forall|i: int| 0 <= i < cut.len() implies (#[trigger] cut[i]).0 == files[i].0 by {}
    assert forall|i: int, j: int| 0 <= i < j < cut.len() implies (#[trigger] cut[i]).0 < (
    #[trigger] cut[j]).0 by {
        assert(files[i].0 < files[j].0);
    }
    assert forall|i: int| 0 <= i < cut.len() implies post.live.contains_key(
        segment::segment_at(dir, (#[trigger] cut[i]).0),
    ) && post.content(segment::segment_at(dir, cut[i].0)) == cut[i].1 by {
        let q = segment::segment_at(dir, files[i].0);
        names::lemma_segment_name(files[i].0);
        if i < last {
            assert(cut[i] == files[i]);
            assert(files[i].0 < files[last].0);
            if q == p {
                recovery::lemma_segment_at_injective(dir, files[i].0, files[last].0);
            }
            assert(q != tmp);
            assert(facts::visible(fs, q, fs.data[fs.live[q]]));
            assert(facts::visible(post, q, fs.data[fs.live[q]]));
        }
    }
    assert forall|q: PathView| #[trigger]
        facts::is_live(post, q) && q.0 == dir && names::segment_id(q.1) is Some implies exists|
        i: int,
    |
        0 <= i < cut.len() && q == segment::segment_at(dir, (#[trigger] cut[i]).0) by {
        if q == p {
            assert(q == segment::segment_at(dir, cut[last].0));
        } else {
            assert(q != tmp);
            assert(facts::is_live(fs, q));
            let i = choose|i: int|
                0 <= i < files.len() && q == segment::segment_at(dir, (#[trigger] files[i]).0);
            assert(q == segment::segment_at(dir, cut[i].0));
        }
    }
}

/// Cuts the torn end off the last segment of the log `files`, if it has one.
fn clean_tail<S: Storage>(
    fs: &mut S,
    dir: &[u8],
    recovered: &Recovered,
    files: Ghost<Seq<(u64, Seq<u8>)>>,
) -> (r: StorageResult<()>)
    requires
        old(fs).wf(),
        old(fs).disk().dependable,
        old(fs).disk().room() ==> facts::sound(old(fs).disk().fs),
    ensures
        final(fs).wf(),
        final(fs).disk().dependable,
        final(fs).disk().reliable == old(fs).disk().reliable,
        storage::used(old(fs).disk(), final(fs).disk(), 1),
        final(fs).disk().room() ==> {
            let pre = old(fs).disk();
            let post = final(fs).disk();
            &&& pre.room()
            &&& facts::sound(post.fs)
            &&& pre.halted ==> post.halted && post.fs == pre.fs
            &&& recovery::log_seen(pre.fs, plain(dir@), files@) && recovery::clean_front(files@)
                && recovered@ == recovery::replay(files@) ==> {
                &&& still_says(pre, post, plain(dir@), files@)
                &&& !post.halted && r is Ok ==> {
                    &&& recovery::log_seen(post.fs, plain(dir@), trimmed(files@))
                    &&& recovery::log_on(pre.fs, plain(dir@), files@) ==> recovery::log_on(
                        post.fs,
                        plain(dir@),
                        trimmed(files@),
                    )
                    &&& recovery::log_stable(pre.fs, plain(dir@), files@) ==> recovery::log_stable(
                        post.fs,
                        plain(dir@),
                        trimmed(files@),
                    )
                }
                &&& pre.reliable && !pre.halted ==> !post.halted && (recovery::fits_memory(
                    pre.fs,
                    plain(dir@),
                ) ==> r is Ok)
            }
        },
{
    let ghost d0 = fs.disk();
    let ghost t = recovery::log_names(plain(dir@));
    let ghost files = files@;
    let ghost on = recovery::log_seen(d0.fs, plain(dir@), files) && recovery::clean_front(files)
        && recovered@ == recovery::replay(files);
    proof {
        facts::lemma_calm_refl(d0.fs, t);
        if on {
            lemma_trimmed(files);
            if files.len() > 0 {
                recovery::lemma_replay_tail(files);
                recovery::lemma_scan_len(files.last().1);
            }
        }
    }
    match recovered.stop_reason {
        StopReason::Clean => {
            return Ok(());
        },
        _ => {},
    }
    let tail: u64 = match recovered.tail_segment {
        Some(tail) => tail,
        None => {
            return Ok(());
        },
    };
    let ghost p = segment::segment_at(plain(dir@), tail);
    let ghost tmp = (plain(dir@), names::segment_tmp_name(tail));
    proof {
        if on {
            assert(d0.fs.live.contains_key(
                segment::segment_at(plain(dir@), files[files.len() - 1].0),
            ));
        }
    }
    let done = recovery::truncate_tail(fs, dir, tail, recovered.tail_valid_len);
    let ghost d1 = fs.disk();
    proof {
        if d1.room() && on {
            names::lemma_segment_name(tail);
            lemma_tail_names(plain(dir@), tail);
            facts::lemma_keeps_mono(d0.fs, d1.fs, set![tmp, p], t);
            if recovery::log_on(d0.fs, plain(dir@), files) {
                lemma_tail_cut(d0.fs, d1.fs, plain(dir@), files);
            }
            if !d1.halted {
                facts::lemma_calm_mono(d0.fs, d1.fs, set![tmp, p], t);
                if done is Ok {
                    lemma_seen_cut(d0.fs, d1.fs, plain(dir@), files);
                }
            }
        }
    }
    done
}

/// Opens the last segment of the clean log `files` for appending, or creates its
/// first one.
fn adopt_tail<S: Storage>(
    fs: &mut S,
    dir: &[u8],
    files: Ghost<Seq<(u64, Seq<u8>)>>,
) -> (r: StorageResult<Segment>)
    requires
        old(fs).wf(),
        old(fs).disk().dependable,
        old(fs).disk().room() ==> facts::sound(old(fs).disk().fs),
    ensures
        final(fs).wf(),
        final(fs).disk().dependable,
        final(fs).disk().reliable == old(fs).disk().reliable,
        storage::used(old(fs).disk(), final(fs).disk(), 1),
        final(fs).disk().room() ==> {
            let pre = old(fs).disk();
            let post = final(fs).disk();
            let clean = forall|i: int|
                0 <= i < files@.len() ==> recovery::scan((#[trigger] files@[i]).1).reason
                    == StopReason::Clean;
            &&& pre.room()
            &&& facts::sound(post.fs)
            &&& pre.halted ==> post.halted && post.fs == pre.fs
            &&& recovery::log_seen(pre.fs, plain(dir@), files@) && clean && !pre.halted ==> {
                let now = started(files@);
                &&& still_says(pre, post, plain(dir@), files@)
                &&& !post.halted && r is Ok ==> {
                    &&& recovery::log_seen(post.fs, plain(dir@), now)
                    &&& recovery::log_on(pre.fs, plain(dir@), files@) ==> recovery::log_on(
                        post.fs,
                        plain(dir@),
                        now,
                    )
                    &&& recovery::log_stable(pre.fs, plain(dir@), files@) ==> recovery::log_stable(
                        post.fs,
                        plain(dir@),
                        now,
                    )
                    &&& r->Ok_0.number() == now.last().0
                    &&& r->Ok_0.location() == segment::segment_at(plain(dir@), now.last().0)
                    &&& r->Ok_0.offset() == segment::clamped(now.last().1.len())
                }
                &&& pre.reliable ==> !post.halted && r is Ok
            }
        },
{
    let ghost d1 = fs.disk();
    let ghost t = recovery::log_names(plain(dir@));
    let ghost cut = files@;
    let ghost held = recovery::log_on(d1.fs, plain(dir@), cut);
    let ghost on = recovery::log_seen(d1.fs, plain(dir@), cut) && (forall|i: int|
        0 <= i < cut.len() ==> recovery::scan((#[trigger] cut[i]).1).reason == StopReason::Clean);
    proof {
        facts::lemma_calm_refl(d1.fs, t);
    }
    let segments: Vec<(u64, FilePath)> = match segment::list_segments(fs, dir) {
        Ok(v) => v,
        Err(e) => {
            return Err(e);
        },
    };
    let ghost v1 = segment::numbered(segments@);
    proof {
        if d1.room() && on {
            recovery::lemma_seen_named(d1.fs, plain(dir@), cut);
            recovery::lemma_listed_seen(d1.fs, plain(dir@), v1);
        }
    }
    if segments.len() > 0 {
        let id: u64 = segments[segments.len() - 1].0;
        proof {
            if d1.room() && on {
                assert(v1[v1.len() - 1].0 == id);
                assert(recovery::segment_contents(d1.fs, v1)[v1.len() - 1].0 == id);
                assert(d1.fs.live.contains_key(
                    segment::segment_at(plain(dir@), cut[cut.len() - 1].0),
                ));
            }
        }
        return Segment::open(fs, dir, id);
    }
    let ghost q = segment::segment_at(plain(dir@), 1);
    let created = Segment::create(fs, dir, 1);
    let ghost d2 = fs.disk();
    proof {
        names::lemma_segment_name(1);
        if d2.room() && on && !d1.halted {
            assert(cut.len() == 0);
            lemma_seen_rolled(d1.fs, plain(dir@), cut, 1);
            if held {
                lemma_log_rolled(d1.fs, plain(dir@), cut, 1);
            }
            facts::lemma_calm_mono(d1.fs, d1.fs.created(q), set![q], t);
            facts::lemma_outcome_keeps(d1, d2, true, d1.fs.created(q), created is Ok, t);
            if d2.halted && held {
                facts::lemma_power_loss_keeps(d1.fs, d2.fs);
                recovery::lemma_log_kept(d1.fs, d2.fs, Set::empty(), plain(dir@), cut);
            }
        }
    }
    let seg: Segment = match created {
        Ok(seg) => seg,
        Err(e) => {
            return Err(e);
        },
    };
    let committed = fs.sync_dir(dir);
    let ghost d3 = fs.disk();
    proof {
        if d3.room() && on && !d1.halted && !d2.halted {
            let n = d2.fs.dir_synced(plain(dir@));
            facts::lemma_sync_dir_keeps(d2.fs, plain(dir@));
            facts::lemma_calm_mono(d2.fs, n, Set::empty(), t);
            facts::lemma_outcome_keeps(d2, d3, true, n, committed is Ok, t);
            facts::lemma_keeps_trans(d1.fs, d2.fs, d3.fs, t);
            lemma_started(cut);
            assert(started(cut) =~= cut.push((1, Seq::empty())));
            if d3.halted {
                if !held {
                } else if storage::power_loss(d2.fs, d3.fs) {
                    facts::lemma_power_loss_keeps(d1.fs, d3.fs);
                    recovery::lemma_log_kept(d1.fs, d3.fs, Set::empty(), plain(dir@), cut);
                } else {
                    facts::lemma_power_loss_keeps(n, d3.fs);
                    recovery::lemma_log_kept(n, d3.fs, Set::empty(), plain(dir@), started(cut));
                }
            } else {
                lemma_seen_dir_synced(d2.fs, plain(dir@), started(cut));
                facts::lemma_calm_trans(d1.fs, d2.fs, d3.fs, t);
            }
        }
    }
    match committed {
        Ok(_) => Ok(seg),
        Err(e) => Err(e),
    }
}

/// What a replay reads fits into memory if all segments do.
proof fn lemma_kept_fits(pre: FsState, post: FsState, dir: Seq<u8>, files: Seq<(u64, Seq<u8>)>)
    requires
        recovery::log_seen(pre, dir, files),
        recovery::log_seen(post, dir, recovery::kept(files)),
        recovery::fits_memory(pre, dir),
    ensures
        recovery::fits_memory(post, dir),
{
    recovery::lemma_kept(files);
    let keep = recovery::kept(files);
    assert forall|p: PathView| #[trigger]
        post.live.contains_key(p) && p.0 == dir && names::segment_id(p.1)
            is Some implies post.content(p).len() <= usize::MAX by {
        assert(facts::is_live(post, p));
        let i = choose|i: int|
            0 <= i < keep.len() && p == segment::segment_at(dir, (#[trigger] keep[i]).0);
        assert(keep[i] == files[i]);
        assert(pre.live.contains_key(segment::segment_at(dir, files[i].0)));
    }
}

/// What dropping the segments behind a bad frame, and that frame, leaves.
proof fn lemma_opening(
    d0: storage::Disk,
    d1: storage::Disk,
    d2: storage::Disk,
    dir: Seq<u8>,
    files: Seq<(u64, Seq<u8>)>,
)
    requires
        facts::carried(d0, d1, recovery::log_names(dir)),
        d2.room(),
        d1.room(),
        d1.halted ==> d2.halted && d2.fs == d1.fs,
        !d1.halted ==> still_says(d1, d2, dir, recovery::kept(files)),
        recovery::log_stable(d0.fs, dir, files) ==> d1 == d0,
    ensures
        facts::keeps(d0.fs, d2.fs, recovery::log_names(dir)),
        !d2.halted ==> facts::calm(d0.fs, d2.fs, recovery::log_names(dir)),
        recovery::log_stable(d0.fs, dir, files) ==> recovery::log_says(
            d2.fs,
            dir,
            recovery::replay(files).records,
        ),
{
    let t = recovery::log_names(dir);
    recovery::lemma_kept(files);
    if recovery::log_stable(d0.fs, dir, files) {
        assert(recovery::clean_front(files));
    }
    if !d1.halted {
        facts::lemma_keeps_trans(d0.fs, d1.fs, d2.fs, t);
        if !d2.halted {
            facts::lemma_calm_trans(d0.fs, d1.fs, d2.fs, t);
        }
    }
}

/// Discards the first bad frame that a replay has found with everything behind it.
fn mend<S: Storage>(fs: &mut S, dir: &[u8], recovered: &Recovered) -> (r: StorageResult<()>)
    requires
        old(fs).wf(),
        old(fs).disk().dependable,
        old(fs).disk().room() ==> facts::sound(old(fs).disk().fs),
    ensures
        final(fs).wf(),
        final(fs).disk().dependable,
        final(fs).disk().reliable == old(fs).disk().reliable,
        storage::used(old(fs).disk(), final(fs).disk(), 1),
        final(fs).disk().room() ==> {
            let pre = old(fs).disk();
            let post = final(fs).disk();
            let files = recovery::seen_in(pre.fs, plain(dir@));
            &&& facts::sound(post.fs)
            &&& pre.halted ==> post.halted
            &&& recovery::plainly_named(pre.fs, plain(dir@)) && recovered@ == recovery::replay(files)
                ==> {
                &&& facts::keeps(pre.fs, post.fs, recovery::log_names(plain(dir@)))
                &&& !post.halted ==> facts::calm(pre.fs, post.fs, recovery::log_names(plain(dir@)))
                &&& !post.halted && r is Ok ==> {
                    let left = trimmed(recovery::kept(files));
                    &&& recovery::log_seen(post.fs, plain(dir@), left)
                    &&& recovery::log_on(pre.fs, plain(dir@), files) ==> recovery::log_on(
                        post.fs,
                        plain(dir@),
                        left,
                    )
                    &&& recovery::log_stable(pre.fs, plain(dir@), files) ==> recovery::log_stable(
                        post.fs,
                        plain(dir@),
                        left,
                    )
                }
                &&& recovery::log_stable(pre.fs, plain(dir@), files) ==> recovery::log_says(
                    post.fs,
                    plain(dir@),
                    recovery::replay(files).records,
                )
                &&& pre.reliable && !pre.halted ==> !post.halted && (recovery::fits_memory(
                    pre.fs,
                    plain(dir@),
                ) && recovery::log_seen(pre.fs, plain(dir@), files) ==> r is Ok)
            }
        },
{
    let ghost d0 = fs.disk();
    let ghost files = recovery::seen_in(d0.fs, plain(dir@));
    let ghost keep = recovery::kept(files);
    let ghost has = recovery::plainly_named(d0.fs, plain(dir@)) && recovered@ == recovery::replay(files);
    proof {
        recovery::lemma_kept(files);
        if recovery::log_on(d0.fs, plain(dir@), files) {
            assert(recovery::clean_front(files));
        }
    }
    let dropped = drop_unreached(fs, dir, recovered);
    let ghost d1 = fs.disk();
    match dropped {
        Ok(_) => {},
        Err(e) => {
            return Err(e);
        },
    }
    proof {
        if d1.room() && has && !d1.halted {
            if recovery::fits_memory(d0.fs, plain(dir@)) && recovery::log_seen(d0.fs, plain(dir@), files) {
                lemma_kept_fits(d0.fs, d1.fs, plain(dir@), files);
            }
        }
    }
    let cleaned = clean_tail(fs, dir, recovered, Ghost(keep));
    proof {
        if has && fs.disk().room() {
            lemma_opening(d0, d1, fs.disk(), plain(dir@), files);
        }
    }
    cleaned
}

impl Wal {
    /// Opens (recovering, or creating fresh) the log in `dir`.
    ///
    /// Recovery replays every segment under the torn-tail rule. A torn or corrupt frame
    /// is discarded with everything behind it: later segments are deleted, and the
    /// segment is truncated to its last clean boundary. Returns the handle and the
    /// recovered records in log order.
    pub fn open<S: Storage>(fs: &mut S, dir: &[u8], options: WalOptions) -> (r: StorageResult<
        (Wal, Recovered),
    >)
        requires
            old(fs).wf(),
            old(fs).disk().dependable,
            old(fs).disk().room() ==> facts::sound(old(fs).disk().fs),
        ensures
            final(fs).wf(),
            final(fs).disk().dependable,
            final(fs).disk().reliable == old(fs).disk().reliable,
            r matches Ok((log, _)) ==> {
                &&& log.wf()
                &&& log.idle()
                &&& log.commits() == 0
                &&& log.home() == plain(dir@)
                &&& log.mode() == options.durability
                &&& log.roll_size() == options.segment_size
            },
            r matches Ok((_, found)) ==> exists|v: Seq<(u64, PathView)>|
                {
                    &&& #[trigger] segment::lists_segments(old(fs).disk().fs, plain(dir@), v)
                    &&& found@ == recovery::replay(
                        recovery::segment_contents(old(fs).disk().fs, v),
                    )
                },
            open_outcome(old(fs).disk(), final(fs).disk(), plain(dir@), r),
    {
        let ghost d0 = fs.disk();
        let ghost t = recovery::log_names(plain(dir@));
        let ghost files = recovery::seen_in(d0.fs, plain(dir@));
        let ghost keep = recovery::kept(files);
        let ghost has = recovery::plainly_named(d0.fs, plain(dir@));
        proof {
            facts::lemma_calm_refl(d0.fs, t);
        }
        let recovered: Recovered = match recovery::recover(fs, dir) {
            Ok(found) => found,
            Err(e) => {
                return Err(e);
            },
        };
        let ghost v = choose|v: Seq<(u64, PathView)>|
            {
                &&& #[trigger] segment::lists_segments(d0.fs, plain(dir@), v)
                &&& recovered@ == recovery::replay(recovery::segment_contents(d0.fs, v))
            };
        proof {
            recovery::lemma_kept(files);
            if has {
                recovery::lemma_listed_seen(d0.fs, plain(dir@), v);
            }
        }
        match mend(fs, dir, &recovered) {
            Ok(_) => {},
            Err(e) => {
                return Err(e);
            },
        }
        let ghost d1 = fs.disk();
        proof {
            if has && d1.room() && !d1.halted {
                lemma_trimmed(keep);
                lemma_started(trimmed(keep));
                lemma_segments_of(started(trimmed(keep)));
            }
        }
        let adopted = adopt_tail(fs, dir, Ghost(trimmed(keep)));
        let ghost d2 = fs.disk();
        proof {
            if d2.room() && has {
                if d1.halted {
                    assert(d2.fs == d1.fs);
                } else {
                    facts::lemma_keeps_trans(d0.fs, d1.fs, d2.fs, t);
                    if !d2.halted {
                        facts::lemma_calm_trans(d0.fs, d1.fs, d2.fs, t);
                    }
                }
            }
        }
        let active: Segment = match adopted {
            Ok(seg) => seg,
            Err(e) => {
                return Err(e);
            },
        };
        let ghost segs = segments_of(started(trimmed(keep)));
        let ghost anchored = recovery::log_on(d2.fs, plain(dir@), log_model(segs));
        let ghost safe = recovery::log_stable(d2.fs, plain(dir@), log_model(segs));
        let log = Wal {
            dir: codec::copied(dir),
            durability: options.durability,
            segment_size: options.segment_size,
            active,
            coord: Coord::new(),
            segs: Ghost(segs),
            anchored: Ghost(anchored),
            safe: Ghost(safe),
        };
        Ok((log, recovered))
    }
}

} // verus!
