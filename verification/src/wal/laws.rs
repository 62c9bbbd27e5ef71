//! What a recovery finds after other operations on the log.

use vstd::prelude::*;

use super::frame;
use super::recovery;
use super::recovery::{Replay, StopReason};
use super::segment;
use super::{coordinated, CoordView, Wal};
use crate::checksum;
use crate::codec;
use crate::names;
use crate::storage::facts;
use crate::storage::{Disk, FsState, PathView};

verus! {

/// A log whose bytes and names are durable is found as it is, also after a power loss.
proof fn lemma_stable_recovers(
    fs: FsState,
    later: FsState,
    dir: Seq<u8>,
    files: Seq<(u64, Seq<u8>)>,
)
    requires
        facts::sound(fs),
        recovery::log_stable(fs, dir, files),
        facts::same_or_lost(fs, later),
    ensures
        recovery::plainly_named(later, dir),
        recovery::seen_in(later, dir) == files,
{
    if later != fs {
        facts::lemma_power_loss_keeps(fs, later);
        recovery::lemma_log_kept(fs, later, Set::empty(), dir, files);
    }
    recovery::lemma_log_seen(later, dir, files);
}

/// After [`Wal::reset`] a recovery finds no record, also where power was lost during the
/// reset or is lost after it.
pub proof fn lemma_reset_recovers(
    pre: Disk,
    post: Disk,
    before: &Wal,
    after: &Wal,
    later: FsState,
)
    requires
        super::reset_outcome(pre, post, before, after, true),
        post.room(),
        facts::sound(pre.fs),
        facts::same_or_lost(post.fs, later),
    ensures
        recovery::plainly_named(later, before.home()),
        recovery::replay(recovery::seen_in(later, before.home())).records == Seq::<
            Seq<u8>,
        >::empty(),
        !post.halted ==> recovery::replay(recovery::seen_in(later, before.home())) == (Replay {
            records: Seq::empty(),
            tail_segment: Some((before.segments().last().id + 1) as u64),
            tail_valid_len: 0,
            stop_reason: StopReason::Clean,
        }),
{
    let dir = before.home();
    if post.halted {
        let files = choose|files: Seq<(u64, Seq<u8>)>| #[trigger]
            recovery::log_stable(post.fs, dir, files) && recovery::replay(files).records
                == Seq::<Seq<u8>>::empty();
        lemma_stable_recovers(post.fs, later, dir, files);
    } else {
        after.lemma_inv(post.fs);
        let files = super::log_model(after.segments());
        lemma_stable_recovers(post.fs, later, dir, files);
        assert(files[0].1 =~= Seq::empty());
    }
}

/// After [`truncate_tail`](recovery::truncate_tail) of a log in which only the last segment
/// may end in anything but a whole frame, to what a recovery found valid of that segment: a
/// recovery finds the same records and a clean end. Where the names of the segments and the
/// bytes of all but the last were durable, that also holds where power was lost during the
/// truncation, or is lost after one that had something to cut.
pub proof fn lemma_truncate_recovers(
    pre: Disk,
    post: Disk,
    dir: Seq<u8>,
    files: Seq<(u64, Seq<u8>)>,
    valid_len: u64,
    later: FsState,
)
    requires
        files.len() > 0,
        recovery::clean_front(files),
        recovery::log_seen(pre.fs, dir, files),
        valid_len == recovery::replay(files).tail_valid_len,
        recovery::truncate_outcome(pre, post, dir, files.last().0, valid_len, true),
        post.room(),
        facts::sound(pre.fs),
        recovery::log_on(pre.fs, dir, files) && valid_len < files.last().1.len()
            && facts::same_or_lost(post.fs, later) || !post.halted && later == post.fs,
    ensures
        recovery::replay(files).tail_segment == Some(files.last().0),
        recovery::plainly_named(later, dir),
        recovery::replay(recovery::seen_in(later, dir)) == (Replay {
            stop_reason: StopReason::Clean,
            ..recovery::replay(files)
        }),
{
    let tail = files.last().0;
    let last = files.last().1;
    let p = segment::segment_at(dir, tail);
    let tmp = (dir, names::segment_tmp_name(tail));
    let cut = super::trimmed(files);
    assert(pre.fs.content(p) == last && pre.fs.live.contains_key(p)) by {
        assert(pre.fs.live.contains_key(segment::segment_at(dir, files[files.len() - 1].0)));
    }
    recovery::lemma_replay_tail(files);
    recovery::lemma_scan_len(last);
    recovery::lemma_scan_valid(last);
    super::lemma_trimmed(files);
    super::lemma_tail_names(dir, tail);
    assert(cut.len() == files.len());
    assert(cut.last() == (tail, last.take(valid_len as int)));
    assert(recovery::clean_front(cut));
    recovery::lemma_replay_tail(cut);
    assert(recovery::scan(cut.last().1).reason == StopReason::Clean) by {
        assert(recovery::scan(cut[cut.len() - 1].1).reason == StopReason::Clean);
    }
    recovery::lemma_scan_len(cut.last().1);
    if valid_len < last.len() {
        if recovery::log_on(pre.fs, dir, files) && facts::same_or_lost(post.fs, later) {
            assert forall|q: PathView| #[trigger] set![tmp, p].contains(q) implies q == p || q.0
                != dir || names::segment_id(q.1) is None by {}
            recovery::lemma_log_replaced(
                pre.fs,
                post.fs,
                set![tmp, p],
                dir,
                files,
                last.take(valid_len as int),
            );
            assert(cut =~= recovery::set_last(files, last.take(valid_len as int)));
            lemma_stable_recovers(post.fs, later, dir, cut);
        } else {
            super::lemma_seen_cut(pre.fs, post.fs, dir, files);
            recovery::lemma_seen_named(post.fs, dir, cut);
        }
    } else {
        assert(last.take(valid_len as int) =~= last);
        assert(cut =~= files);
        recovery::lemma_seen_named(pre.fs, dir, files);
    }
}

/// How many bytes records take in a segment: each its own, and eight more.
pub open spec fn bytes_in_log(records: Seq<Seq<u8>>) -> nat
    decreases records.len(),
{
    if records.len() == 0 {
        0
    } else {
        bytes_in_log(records.drop_last()) + 8 + records.last().len()
    }
}

proof fn lemma_bytes_in_log(records: Seq<Seq<u8>>)
    requires
        frame::all_fit(records),
    ensures
        frame::frames_of(records).len() == bytes_in_log(records),
    decreases records.len(),
{
    if records.len() > 0 {
        let front = records.drop_last();
        assert forall|i: int| 0 <= i < front.len() implies frame::fits(#[trigger] front[i]) by {
            assert(front[i] == records[i]);
        }
        lemma_bytes_in_log(front);
        assert(front.push(records.last()) =~= records);
        assert(frame::fits(records[records.len() - 1]));
        frame::lemma_frames_push(front, records.last());
        frame::lemma_head_frame(records.last(), Seq::empty());
    }
}

/// The log rolls at the segment size, whatever that is. After an append the segment in use has
/// fewer bytes than the segment size, or is new and empty, unless no id is left for another.
/// The log goes on in the segment that it was in if that is still below the segment size with
/// what was appended, and otherwise begins the next, and leaves behind a segment that has
/// reached the size.
pub proof fn lemma_rolls_at_size(
    pre: Disk,
    post: Disk,
    before: &Wal,
    after: &Wal,
    extra: Seq<Seq<u8>>,
    sync: bool,
)
    requires
        super::append_outcome(pre, post, before, after, extra, sync, true),
        before.inv(pre.fs),
        frame::all_fit(extra),
        post.room(),
        !post.halted,
    ensures
        ({
            let was = before.segments().last().id;
            let now = after.segments().last().id;
            let old_len = pre.fs.content(segment::segment_at(before.home(), was)).len();
            let reached = post.fs.content(segment::segment_at(before.home(), was)).len();
            let in_use = post.fs.content(segment::segment_at(before.home(), now)).len();
            &&& reached == old_len + bytes_in_log(extra)
            &&& in_use < before.roll_size() || in_use == 0 || now == u64::MAX
            &&& reached < before.roll_size() ==> now == was
            &&& reached >= before.roll_size() && was < u64::MAX ==> now == was + 1 && in_use == 0
            &&& now == was || now == was + 1
        }),
{
    let dir = before.home();
    let old_segs = before.segments();
    let segs = after.segments();
    before.lemma_inv(pre.fs);
    after.lemma_inv(post.fs);
    let k = old_segs.len() - 1;
    let more = super::with_last(old_segs, extra);
    assert(super::log_model(old_segs)[k].0 == old_segs[k].id);
    assert(pre.fs.content(segment::segment_at(dir, super::log_model(old_segs)[k].0))
        == super::log_model(old_segs)[k].1);
    assert(super::log_model(segs)[k].0 == old_segs[k].id);
    assert(post.fs.content(segment::segment_at(dir, super::log_model(segs)[k].0))
        == super::log_model(segs)[k].1);
    let n = segs.len() - 1;
    assert(post.fs.content(segment::segment_at(dir, super::log_model(segs)[n].0))
        == super::log_model(segs)[n].1);
    assert(segs[k].records == old_segs[k].records + extra);
    frame::lemma_frames_concat(old_segs[k].records, extra);
    lemma_bytes_in_log(extra);
}

/// What a scan finds in whole frames with something behind them that is no frame: the payloads
/// of the frames and nothing else, as many bytes as these frames have, and why it stopped. It
/// is clean if nothing is behind them. It is cut short if what is there ends before a header
/// does, or before the payload that the header announces. Otherwise the payload that is there
/// does not match the checksum in front of it.
pub proof fn lemma_scan_stops(records: Seq<Seq<u8>>, rest: Seq<u8>)
    requires
        frame::all_fit(records),
        ({
            let n = rest[0] + 0x100 * rest[1] + 0x1_0000 * rest[2] + 0x100_0000 * rest[3];
            let crc = rest[4] + 0x100 * rest[5] + 0x1_0000 * rest[6] + 0x100_0000 * rest[7];
            rest.len() >= 8 ==> 8 + n > rest.len() || checksum::crc32(rest.subrange(8, 8 + n))
                != crc
        }),
    ensures
        ({
            let found = recovery::scan(frame::frames_of(records) + rest);
            let n = rest[0] + 0x100 * rest[1] + 0x1_0000 * rest[2] + 0x100_0000 * rest[3];
            &&& found.records == records
            &&& found.valid_len == bytes_in_log(records)
            &&& rest.len() == 0 ==> found.reason == StopReason::Clean
            &&& 0 < rest.len() < 8 || rest.len() >= 8 && 8 + n > rest.len() ==> found.reason
                == StopReason::Truncated
            &&& rest.len() >= 8 && 8 + n <= rest.len() ==> found.reason == StopReason::BadCrc
        }),
{
    recovery::lemma_scan_frames(records, rest);
    lemma_bytes_in_log(records);
    if rest.len() >= 8 {
        codec::lemma_little_endian(rest.subrange(0, 4), 0, 0);
        codec::lemma_little_endian(rest.subrange(4, 8), 0, 0);
        codec::lemma_bytes_u32(rest.subrange(0, 4));
        codec::lemma_bytes_u32(rest.subrange(4, 8));
    }
    assert(recovery::scan(rest).records =~= Seq::empty());
    assert(records + recovery::scan(rest).records =~= records);
}

/// All that scans of the segments find, in order.
pub open spec fn all_found(files: Seq<(u64, Seq<u8>)>) -> Seq<Seq<u8>>
    decreases files.len(),
{
    if files.len() == 0 {
        Seq::empty()
    } else {
        all_found(files.drop_last()) + recovery::scan(files.last().1).records
    }
}

proof fn lemma_found_front(files: Seq<(u64, Seq<u8>)>)
    requires
        files.len() > 0,
    ensures
        all_found(files) == recovery::scan(files[0].1).records + all_found(files.drop_first()),
    decreases files.len(),
{
    let first = recovery::scan(files[0].1).records;
    if files.len() == 1 {
        assert(files.drop_last() =~= Seq::empty());
        assert(files.drop_first() =~= Seq::empty());
        assert(all_found(files) =~= first + all_found(files.drop_first()));
    } else {
        lemma_found_front(files.drop_last());
        assert(files.drop_last().drop_first() =~= files.drop_first().drop_last());
        assert(files.drop_first().last() == files.last());
        assert(all_found(files) =~= first + all_found(files.drop_first()));
    }
}

/// What a replay of a log finds: the records of all segments up to the first that does not end
/// with a whole frame, and of that one those before what is wrong with it. Where it stopped,
/// and why, is what the scan of that segment says. What is behind it does not count. If every
/// segment ends with a whole frame, all records are found, and the end is clean.
pub proof fn lemma_replay_stops(
    front: Seq<(u64, Seq<u8>)>,
    last: (u64, Seq<u8>),
    behind: Seq<(u64, Seq<u8>)>,
)
    requires
        forall|i: int|
            0 <= i < front.len() ==> recovery::scan((#[trigger] front[i]).1).reason
                == StopReason::Clean,
        behind.len() > 0 ==> recovery::scan(last.1).reason != StopReason::Clean,
    ensures
        recovery::replay(front + seq![last] + behind) == (Replay {
            records: all_found(front) + recovery::scan(last.1).records,
            tail_segment: Some(last.0),
            tail_valid_len: recovery::scan(last.1).valid_len,
            stop_reason: recovery::scan(last.1).reason,
        }),
    decreases front.len(),
{
    let files = front + seq![last] + behind;
    if front.len() == 0 {
        assert(files[0] == last);
        assert(all_found(front) + recovery::scan(last.1).records =~= recovery::scan(
            last.1,
        ).records);
    } else {
        let rest = front.drop_first();
        assert forall|i: int| 0 <= i < rest.len() implies recovery::scan(
            (#[trigger] rest[i]).1,
        ).reason == StopReason::Clean by {
            assert(rest[i] == front[i + 1]);
        }
        lemma_replay_stops(rest, last, behind);
        lemma_found_front(front);
        assert(files[0] == front[0]);
        assert(files.drop_first() =~= rest + seq![last] + behind);
        assert(recovery::replay(files).records =~= all_found(front) + recovery::scan(
            last.1,
        ).records);
    }
}

/// What opening makes of a log is a log that ends cleanly: it has a segment, no segment ends in
/// anything but a whole frame, a replay finds the records that it found before, and opening it
/// again leaves it as it is.
pub proof fn lemma_opening_settles(files: Seq<(u64, Seq<u8>)>)
    ensures
        ({
            let after = super::adopted(files);
            &&& after.len() > 0
            &&& files.len() == 0 ==> after == seq![(1u64, Seq::<u8>::empty())]
            &&& forall|i: int|
                0 <= i < after.len() ==> recovery::scan((#[trigger] after[i]).1).reason
                    == StopReason::Clean
            &&& recovery::replay(after).records == recovery::replay(files).records
            &&& recovery::replay(after).stop_reason == StopReason::Clean
            &&& recovery::replay(after).tail_segment == Some(after.last().0)
            &&& super::adopted(after) == after
        }),
{
    let kept = recovery::kept(files);
    let cut = super::trimmed(kept);
    let after = super::adopted(files);
    recovery::lemma_kept(files);
    if files.len() == 0 {
        assert(kept =~= files);
        assert(cut =~= files);
    }
    super::lemma_trimmed(kept);
    super::lemma_started(cut);
    assert(after == super::started(cut));
    assert(recovery::clean_front(after));
    recovery::lemma_replay_tail(after);
    assert(recovery::scan(after[after.len() - 1].1).reason == StopReason::Clean);
    recovery::lemma_kept(after);
    super::lemma_trimmed(after);
    assert(recovery::kept(after) == after);
}

/// What the log says of the segments that opening it finds: those up to the first that does not
/// end with a whole frame stay, with the same ids, and all but that one with the same bytes; of
/// that one what is valid stays; those behind it are gone.
pub proof fn lemma_opening_keeps(
    front: Seq<(u64, Seq<u8>)>,
    last: (u64, Seq<u8>),
    behind: Seq<(u64, Seq<u8>)>,
)
    requires
        forall|i: int|
            0 <= i < front.len() ==> recovery::scan((#[trigger] front[i]).1).reason
                == StopReason::Clean,
        behind.len() > 0 ==> recovery::scan(last.1).reason != StopReason::Clean,
    ensures
        super::adopted(front + seq![last] + behind) == front.push(
            (last.0, last.1.take(recovery::scan(last.1).valid_len as int)),
        ),
{
    let files = front + seq![last] + behind;
    lemma_reached(front, last, behind);
    assert(recovery::kept(files) =~= front.push(last));
    assert(super::trimmed(front.push(last)) =~= front.push(
        (last.0, last.1.take(recovery::scan(last.1).valid_len as int)),
    ));
}

proof fn lemma_reached(
    front: Seq<(u64, Seq<u8>)>,
    last: (u64, Seq<u8>),
    behind: Seq<(u64, Seq<u8>)>,
)
    requires
        forall|i: int|
            0 <= i < front.len() ==> recovery::scan((#[trigger] front[i]).1).reason
                == StopReason::Clean,
        behind.len() > 0 ==> recovery::scan(last.1).reason != StopReason::Clean,
    ensures
        recovery::reached(front + seq![last] + behind) == front.len() + 1,
    decreases front.len(),
{
    let files = front + seq![last] + behind;
    if front.len() == 0 {
        assert(files[0] == last);
        assert(files.drop_first() =~= behind);
        if behind.len() == 0 {
            assert(recovery::reached(behind) == 0);
        }
    } else {
        let rest = front.drop_first();
        assert forall|i: int| 0 <= i < rest.len() implies recovery::scan(
            (#[trigger] rest[i]).1,
        ).reason == StopReason::Clean by {
            assert(rest[i] == front[i + 1]);
        }
        lemma_reached(rest, last, behind);
        assert(files[0] == front[0]);
        assert(files.drop_first() =~= rest + seq![last] + behind);
    }
}

/// What an append makes durable, where the log stays in its segment: with a sync all that is in
/// the segment then, and without one no more than was durable before.
pub proof fn lemma_append_syncs(
    pre: Disk,
    post: Disk,
    before: &Wal,
    after: &Wal,
    extra: Seq<Seq<u8>>,
    sync: bool,
)
    requires
        super::append_outcome(pre, post, before, after, extra, sync, true),
        before.inv(pre.fs),
        frame::all_fit(extra),
        post.room(),
        !post.halted,
        after.segments().last().id == before.segments().last().id,
    ensures
        ({
            let p = segment::segment_at(before.home(), before.segments().last().id);
            let d = post.fs.data[post.fs.live[p]];
            &&& post.fs.content(p) == pre.fs.content(p) + frame::frames_of(extra)
            &&& sync ==> d.synced == d.live
            &&& !sync ==> d.synced == pre.fs.data[pre.fs.live[p]].synced
            &&& post.fs.durable == pre.fs.durable
        }),
{
    let p = segment::segment_at(before.home(), before.segments().last().id);
    before.lemma_inv(pre.fs);
    let segs = before.segments();
    let more = super::with_last(segs, extra);
    if super::rolls(more.last(), before.roll_size()) {
        assert(after.segments().last().id == more.last().id + 1);
        assert(false);
    }
    lemma_frames_appended(pre.fs, p, extra);
}

proof fn lemma_frames_appended(fs: FsState, p: PathView, extra: Seq<Seq<u8>>)
    ensures
        ({
            let after = super::frames_appended(fs, p, extra);
            &&& after.live == fs.live
            &&& after.durable == fs.durable
            &&& after.content(p) == fs.content(p) + frame::frames_of(extra)
            &&& after.data[after.live[p]].synced == fs.data[fs.live[p]].synced
        }),
    decreases extra.len(),
{
    if extra.len() == 0 {
        assert(frame::frames_of(extra) =~= Seq::empty());
        assert(fs.content(p) + frame::frames_of(extra) =~= fs.content(p));
    } else {
        let front = extra.drop_last();
        lemma_frames_appended(fs, p, front);
        frame::lemma_frames_push(front, extra.last());
        assert(front.push(extra.last()) =~= extra);
        let after = super::frames_appended(fs, p, extra);
        assert(after.content(p) =~= fs.content(p) + frame::frames_of(extra));
    }
}

/// What the commit of one payload makes of a pipeline that no one leads: one that was written
/// is counted with all that waited before it, and nothing waits; one that was not written waits
/// behind those that wait, under the next number.
pub proof fn lemma_commit_counted(c: CoordView, payload: Seq<u8>, ok: bool)
    requires
        coordinated(c),
        !c.leader_active,
        c.next_seq < u64::MAX,
    ensures
        ({
            let after = super::after_commit(c, payload, ok);
            &&& after.next_seq == c.next_seq + 1
            &&& !after.leader_active
            &&& ok ==> after.queue.len() == 0 && after.synced_through == c.next_seq + 1
            &&& !ok ==> after.synced_through == c.synced_through && after.queue == c.queue.push(
                ((c.next_seq + 1) as u64, frame::frame_of(payload)),
            )
        }),
{
}

} // verus!
