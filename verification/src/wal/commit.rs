//! What many writers that commit through one [`Coord`](super::Coord) may rely on, in
//! whatever order they take their steps.

use vstd::prelude::*;

use super::recovery;
use super::{append_outcome, coordinated, payloads, CoordView, Wal};
use crate::storage::facts;
use crate::storage::{Disk, FsState};

verus! {

/// Commits under way: the coordinator, the batch that a leader has with it, the frames
/// that were handed in so far, by their commit numbers, the log, and the backend it is on.
pub struct Commits {
    pub coord: CoordView,
    pub hand: Seq<(u64, Seq<u8>)>,
    pub claimed: Seq<Seq<u8>>,
    pub log: Wal,
    pub disk: Disk,
}

/// A step of one of the writers.
pub enum CommitEvent {
    /// It hands in a frame.
    Claim(Seq<u8>),
    /// It asks what to do, and is told to lead.
    Lead(u64),
    /// It asks what to do, and is told that its frame is durable.
    Done(u64),
    /// It asks what to do, and is told to wait.
    Wait(u64),
    /// It has written its batch with a sync, and publishes that.
    Written,
    /// It could not write its batch, and publishes that.
    Failed,
}

/// No commits yet on this log.
pub open spec fn no_commits(log: Wal, disk: Disk) -> Commits {
    Commits {
        coord: CoordView {
            queue: Seq::empty(),
            next_seq: 0,
            synced_through: 0,
            taken: 0,
            leader_active: false,
        },
        hand: Seq::empty(),
        claimed: Seq::empty(),
        log,
        disk,
    }
}

/// From `a` to `b`, the leader wrote its batch to the log, or failed to.
pub open spec fn batch_written(a: Commits, b: Commits, ok: bool) -> bool {
    &&& append_outcome(a.disk, b.disk, &a.log, &b.log, payloads(a.hand), true, ok)
    &&& b.disk.room() && !b.disk.halted && a.log.is_anchored() ==> b.log.is_safe()
}

/// From `a` to `b`, the writer took the step: what [`Coord::enqueue`](super::Coord::enqueue),
/// [`Coord::poll`](super::Coord::poll), [`Coord::publish`](super::Coord::publish) and
/// [`Wal::write_batch`](super::Wal::write_batch) make of it.
pub open spec fn commit_step(a: Commits, e: CommitEvent, b: Commits) -> bool {
    match e {
        CommitEvent::Claim(frame) => {
            &&& a.coord.next_seq < u64::MAX
            &&& b == (Commits {
                coord: CoordView {
                    queue: a.coord.queue.push(((a.coord.next_seq + 1) as u64, frame)),
                    next_seq: (a.coord.next_seq + 1) as u64,
                    ..a.coord
                },
                claimed: a.claimed.push(frame),
                ..a
            })
        },
        CommitEvent::Lead(seq) => {
            &&& a.coord.synced_through < seq <= a.coord.next_seq
            &&& !a.coord.leader_active
            &&& b == (Commits {
                coord: CoordView {
                    queue: Seq::empty(),
                    taken: a.coord.queue.len(),
                    leader_active: true,
                    ..a.coord
                },
                hand: a.coord.queue,
                ..a
            })
        },
        CommitEvent::Done(seq) => 1 <= seq <= a.coord.synced_through && b == a,
        CommitEvent::Wait(seq) => a.coord.synced_through < seq && a.coord.leader_active && b == a,
        CommitEvent::Written => {
            &&& a.coord.leader_active
            &&& batch_written(a, b, true)
            &&& b == (Commits {
                coord: CoordView {
                    synced_through: (a.coord.synced_through + a.coord.taken) as u64,
                    taken: 0,
                    leader_active: false,
                    ..a.coord
                },
                hand: Seq::empty(),
                log: b.log,
                disk: b.disk,
                ..a
            })
        },
        CommitEvent::Failed => {
            &&& a.coord.leader_active
            &&& batch_written(a, b, false)
            &&& b == (Commits {
                coord: CoordView {
                    queue: a.hand + a.coord.queue,
                    taken: 0,
                    leader_active: false,
                    ..a.coord
                },
                hand: Seq::empty(),
                log: b.log,
                disk: b.disk,
                ..a
            })
        },
    }
}

/// `states` are the states before, between and after the steps of some writers, on a log
/// whose segments have durable names.
pub open spec fn is_commit_run(states: Seq<Commits>, events: Seq<CommitEvent>) -> bool {
    &&& states.len() == events.len() + 1
    &&& states[0] == no_commits(states[0].log, states[0].disk)
    &&& states[0].log.inv(states[0].disk.fs)
    &&& states[0].log.is_anchored()
    &&& facts::sound(states[0].disk.fs)
    &&& !states[0].disk.halted
    &&& forall|i: int|
        0 <= i < events.len() ==> commit_step(states[i], #[trigger] events[i], states[i + 1])
}

/// The payloads of frames.
pub open spec fn unframed(frames: Seq<Seq<u8>>) -> Seq<Seq<u8>> {
    Seq::new(frames.len(), |i: int| frames[i].skip(8))
}

/// Each frame that was handed in is in the log, with the leader or in the queue, once, in
/// the order of the commit numbers.
spec fn accounted(first: Commits, c: Commits) -> bool {
    let synced = c.coord.synced_through as int;
    &&& coordinated(c.coord)
    &&& c.claimed.len() == c.coord.next_seq
    &&& c.hand.len() == c.coord.taken
    &&& forall|i: int|
        0 <= i < c.hand.len() ==> #[trigger] c.hand[i] == (
            (synced + 1 + i) as u64,
            c.claimed[synced + i],
        )
    &&& forall|i: int|
        0 <= i < c.coord.queue.len() ==> #[trigger] c.coord.queue[i] == (
            (synced + c.coord.taken + 1 + i) as u64,
            c.claimed[synced + c.coord.taken + i],
        )
    &&& c.log.records() == first.log.records() + unframed(c.claimed.take(synced))
    &&& c.log.home() == first.log.home()
    &&& facts::sound(c.disk.fs)
    &&& !c.disk.halted ==> {
        &&& c.log.inv(c.disk.fs)
        &&& c.log.is_anchored()
        &&& synced > 0 || first.log.is_safe() ==> c.log.is_safe()
    }
}

proof fn lemma_accounted_step(first: Commits, a: Commits, e: CommitEvent, b: Commits)
    requires
        accounted(first, a),
        commit_step(a, e, b),
        b.disk.room(),
    ensures
        a.disk.room(),
        accounted(first, b),
{
    let synced = a.coord.synced_through as int;
    match e {
        CommitEvent::Claim(frame) => {
            assert(b.claimed.take(synced) =~= a.claimed.take(synced));
            assert forall|i: int| 0 <= i < b.coord.queue.len() implies #[trigger] b.coord.queue[i]
                == (
                (synced + b.coord.taken + 1 + i) as u64,
                b.claimed[synced + b.coord.taken + i],
            ) by {
                if i < a.coord.queue.len() {
                    assert(a.coord.queue[i] == b.coord.queue[i]);
                }
            }
            assert forall|i: int| 0 <= i < b.hand.len() implies #[trigger] b.hand[i] == (
                (synced + 1 + i) as u64,
                b.claimed[synced + i],
            ) by {
                assert(a.hand[i] == b.hand[i]);
            }
        },
        CommitEvent::Lead(seq) => {
            assert forall|i: int| 0 <= i < b.hand.len() implies #[trigger] b.hand[i] == (
                (synced + 1 + i) as u64,
                b.claimed[synced + i],
            ) by {
                assert(a.coord.queue[i] == b.hand[i]);
            }
        },
        CommitEvent::Written => {
            let taken = a.coord.taken as int;
            assert(unframed(a.claimed.take(synced + taken)) =~= unframed(a.claimed.take(synced))
                + payloads(a.hand)) by {
                assert forall|i: int| 0 <= i < taken implies #[trigger] payloads(a.hand)[i]
                    == a.claimed[synced + i].skip(8) by {
                    assert(a.hand[i].1 == a.claimed[synced + i]);
                }
            }
            assert(b.log.records() =~= first.log.records() + unframed(
                b.claimed.take(synced + taken),
            ));
            assert forall|i: int| 0 <= i < b.coord.queue.len() implies #[trigger] b.coord.queue[i]
                == (
                (synced + taken + b.coord.taken + 1 + i) as u64,
                b.claimed[synced + taken + b.coord.taken + i],
            ) by {
                assert(a.coord.queue[i] == b.coord.queue[i]);
            }
        },
        CommitEvent::Failed => {
            let taken = a.coord.taken as int;
            assert forall|i: int| 0 <= i < b.coord.queue.len() implies #[trigger] b.coord.queue[i]
                == (
                (synced + b.coord.taken + 1 + i) as u64,
                b.claimed[synced + b.coord.taken + i],
            ) by {
                if i < taken {
                    assert(a.hand[i] == b.coord.queue[i]);
                } else {
                    assert(a.coord.queue[i - taken] == b.coord.queue[i]);
                }
            }
        },
        _ => {},
    }
}

proof fn lemma_accounted(states: Seq<Commits>, events: Seq<CommitEvent>, n: int)
    requires
        is_commit_run(states, events),
        0 <= n <= events.len(),
        states[n].disk.room(),
    ensures
        accounted(states[0], states[n]),
    decreases n,
{
    let first = states[0];
    if n == 0 {
        let none = Seq::<Seq<u8>>::empty();
        assert(unframed(none.take(0)) =~= none);
        assert(first.log.records() + none =~= first.log.records());
    } else {
        assert(commit_step(states[n - 1], events[n - 1], states[n - 1 + 1]));
        assert(states[n - 1].disk.room());
        lemma_accounted(states, events, n - 1);
        lemma_accounted_step(first, states[n - 1], events[n - 1], states[n]);
    }
}

/// However many writers commit, and in whatever order they take their steps: the log has the
/// records it had, and then the payloads of the frames up to a commit number, in the order
/// in which they were handed in, each once. A writer that is told that its frame is durable
/// finds it among them. Once no frame is queued or with a leader, all of them are in the log.
/// A recovery finds what the log has, and once a batch was written, or where the log was
/// durable at first, also after a power loss.
pub proof fn lemma_commits_durable(
    states: Seq<Commits>,
    events: Seq<CommitEvent>,
    n: int,
    later: FsState,
)
    requires
        is_commit_run(states, events),
        0 <= n <= events.len(),
        states[n].disk.room(),
        facts::same_or_lost(states[n].disk.fs, later),
    ensures
        ({
            let first = states[0].log;
            let c = states[n];
            let synced = c.coord.synced_through as int;
            let has = c.log.records();
            &&& synced <= c.claimed.len()
            &&& has == first.records() + unframed(c.claimed.take(synced))
            &&& c.coord.queue.len() == 0 && !c.coord.leader_active ==> has == first.records()
                + unframed(c.claimed)
            &&& n < events.len() ==> (events[n] matches CommitEvent::Done(seq) ==> seq <= synced
                && has[first.records().len() + seq - 1] == c.claimed[seq - 1].skip(8))
            &&& !c.disk.halted && (later == c.disk.fs || synced > 0 || first.is_safe()) ==> {
                &&& recovery::plainly_named(later, first.home())
                &&& recovery::replay(recovery::seen_in(later, first.home())).records == has
            }
        }),
{
    lemma_accounted(states, events, n);
    let c = states[n];
    let dir = c.log.home();
    if c.coord.queue.len() == 0 && !c.coord.leader_active {
        assert(c.claimed.take(c.coord.synced_through as int) =~= c.claimed);
    }
    if n < events.len() {
        assert(commit_step(states[n], events[n], states[n + 1]));
    }
    if !c.disk.halted {
        c.log.lemma_inv(c.disk.fs);
        let files = super::log_model(c.log.segments());
        if later == c.disk.fs {
            recovery::lemma_seen_named(later, dir, files);
        } else if c.log.is_safe() {
            facts::lemma_power_loss_keeps(c.disk.fs, later);
            recovery::lemma_log_kept(c.disk.fs, later, Set::empty(), dir, files);
            recovery::lemma_log_seen(later, dir, files);
        }
    }
}

} // verus!
