//! WAL recovery: replay durable records and locate the clean truncation point.
//!
//! Recovery reads each segment in id order and decodes frames back to back. The
//! torn-tail rule governs where replay stops: at the first frame that is short
//! or fails its checksum, discarding that frame and everything after it.
//!
//! In a durable mode a write is acknowledged only after its frame has been
//! synced, so every acknowledged frame precedes the torn tail; only bytes that
//! were never acknowledged are discarded.

use vstd::prelude::*;

use crate::codec;
use crate::names;
use crate::storage;
use crate::storage::facts;
use crate::storage::replace;
use crate::storage::plain;
use crate::storage::{FileData, FilePath, FsState, PathView, Storage, StorageResult};
use crate::wal::frame;
use crate::wal::frame::FrameError;
use crate::wal::segment;

verus! {

/// How recovery stopped scanning a segment.
#[derive(Debug, Clone, Copy, PartialEq, Eq, Structural)]
pub enum StopReason {
    /// Every byte of the segment decoded into a valid frame with no leftover.
    Clean,
    /// A frame's header or payload ran past the end of the file.
    Truncated,
    /// A frame was fully present but its checksum did not match.
    BadCrc,
}

impl Default for StopReason {
    fn default() -> (r: Self)
        ensures
            r == StopReason::Clean,
    {
        StopReason::Clean
    }
}

/// The outcome of replaying the whole log.
#[derive(Debug, Clone, PartialEq, Eq)]
pub struct Recovered {
    /// Every valid record payload, in log order across all segments.
    pub records: Vec<Vec<u8>>,
    /// The id of the segment where scanning stopped, if any segments existed.
    pub tail_segment: Option<u64>,
    /// The offset within that segment of the first byte that is not part of a
    /// valid record.
    pub tail_valid_len: u64,
    /// Why the scan of that segment stopped.
    pub stop_reason: StopReason,
}

/// What a [`Recovered`] says.
#[verifier::ext_equal]
pub struct Replay {
    pub records: Seq<Seq<u8>>,
    pub tail_segment: Option<u64>,
    pub tail_valid_len: nat,
    pub stop_reason: StopReason,
}

impl View for Recovered {
    type V = Replay;

    open spec fn view(&self) -> Replay {
        Replay {
            records: codec::byte_seqs(self.records@),
            tail_segment: self.tail_segment,
            tail_valid_len: self.tail_valid_len as nat,
            stop_reason: self.stop_reason,
        }
    }
}

impl Default for Recovered {
    fn default() -> (r: Self)
        ensures
            r@ == replay(Seq::empty()),
    {
        let r = Recovered {
            records: Vec::new(),
            tail_segment: None,
            tail_valid_len: 0,
            stop_reason: StopReason::Clean,
        };
        assert(r@.records =~= Seq::empty());
        r
    }
}

/// What scanning one segment finds.
#[verifier::ext_equal]
pub struct Scan {
    /// The payloads of the valid frames at its start.
    pub records: Seq<Seq<u8>>,
    /// How many bytes those frames are.
    pub valid_len: nat,
    /// Why the scan stopped there.
    pub reason: StopReason,
}

/// Decodes frames from the start of `buf` until one is missing or bad.
pub open spec fn scan(buf: Seq<u8>) -> Scan
    decreases buf.len(),
{
    if buf.len() == 0 {
        Scan { records: Seq::empty(), valid_len: 0, reason: StopReason::Clean }
    } else {
        match frame::head_frame(buf) {
            Ok((payload, n)) => {
                if 0 < n <= buf.len() {
                    let rest = scan(buf.skip(n as int));
                    Scan {
                        records: seq![payload] + rest.records,
                        valid_len: n + rest.valid_len,
                        reason: rest.reason,
                    }
                } else {
                    Scan { records: Seq::empty(), valid_len: 0, reason: StopReason::Truncated }
                }
            },
            Err(FrameError::Truncated) => Scan {
                records: Seq::empty(),
                valid_len: 0,
                reason: StopReason::Truncated,
            },
            Err(FrameError::BadCrc) => Scan {
                records: Seq::empty(),
                valid_len: 0,
                reason: StopReason::BadCrc,
            },
        }
    }
}

/// What replaying segments with these ids and contents, in this order, finds:
/// a segment that is not clean to its end is where the log ends.
pub open spec fn replay(files: Seq<(u64, Seq<u8>)>) -> Replay
    decreases files.len(),
{
    if files.len() == 0 {
        Replay {
            records: Seq::empty(),
            tail_segment: None,
            tail_valid_len: 0,
            stop_reason: StopReason::Clean,
        }
    } else {
        let first = scan(files[0].1);
        if first.reason == StopReason::Clean && files.len() > 1 {
            let rest = replay(files.drop_first());
            Replay { records: first.records + rest.records, ..rest }
        } else {
            Replay {
                records: first.records,
                tail_segment: Some(files[0].0),
                tail_valid_len: first.valid_len,
                stop_reason: first.reason,
            }
        }
    }
}

/// The ids and contents of the listed segments.
pub open spec fn segment_contents(
    fs: FsState,
    v: Seq<(u64, PathView)>,
) -> Seq<(u64, Seq<u8>)> {
    Seq::new(v.len(), |i: int| (v[i].0, fs.content(v[i].1)))
}

/// What of `records` is valid does not reach past the end.
pub proof fn lemma_scan_len(buf: Seq<u8>)
    ensures
        scan(buf).valid_len <= buf.len(),
        scan(buf).reason == StopReason::Clean <==> scan(buf).valid_len == buf.len(),
    decreases buf.len(),
{
    if buf.len() > 0 {
        if let Ok((payload, n)) = frame::head_frame(buf) {
            if 0 < n <= buf.len() {
                lemma_scan_len(buf.skip(n as int));
            }
        }
    }
}

/// The records a scan finds are framed in what it finds valid.
proof fn lemma_scan_framed(buf: Seq<u8>)
    ensures
        scan(buf).valid_len <= buf.len(),
        frame::frames_of(scan(buf).records) == buf.take(scan(buf).valid_len as int),
        frame::all_fit(scan(buf).records),
    decreases buf.len(),
{
    lemma_scan_len(buf);
    if buf.len() > 0 && frame::head_frame(buf) is Ok {
        let (payload, n) = frame::head_frame(buf)->Ok_0;
        frame::lemma_head_frame_is_frame(buf);
        let rest = buf.skip(n as int);
        lemma_scan_framed(rest);
        lemma_framed_step(buf, payload, n as int, scan(rest).records, scan(rest).valid_len as int);
        assert(scan(buf).records == seq![payload] + scan(rest).records);
        assert(scan(buf).valid_len == n + scan(rest).valid_len);
    } else {
        assert(scan(buf).records =~= Seq::empty());
        assert(frame::frames_of(scan(buf).records) =~= buf.take(0));
    }
}

/// A frame in front of framed records is framed with them.
proof fn lemma_framed_step(buf: Seq<u8>, payload: Seq<u8>, n: int, recs: Seq<Seq<u8>>, v: int)
    requires
        0 < n <= buf.len(),
        buf.take(n) == frame::frame_of(payload),
        frame::fits(payload),
        frame::all_fit(recs),
        0 <= v <= buf.len() - n,
        frame::frames_of(recs) == buf.skip(n).take(v),
    ensures
        frame::frames_of(seq![payload] + recs) == buf.take(n + v),
        frame::all_fit(seq![payload] + recs),
{
    let all = seq![payload] + recs;
    assert(all.drop_first() =~= recs);
    assert(buf.take(n) + buf.skip(n).take(v) =~= buf.take(n + v));
    assert forall|i: int| 0 <= i < all.len() implies frame::fits(#[trigger] all[i]) by {
        if i > 0 {
            assert(all[i] == recs[i - 1]);
        }
    }
}

/// The records a scan finds are framed in what it finds valid, and scanning
/// that part alone is clean.
pub proof fn lemma_scan_valid(buf: Seq<u8>)
    ensures
        scan(buf).valid_len <= buf.len(),
        scan(buf.take(scan(buf).valid_len as int)) == (Scan {
            reason: StopReason::Clean,
            ..scan(buf)
        }),
        frame::frames_of(scan(buf).records) == buf.take(scan(buf).valid_len as int),
        frame::all_fit(scan(buf).records),
{
    lemma_scan_framed(buf);
    lemma_scan_clean(scan(buf).records);
}

/// Scanning frames followed by anything finds their records first.
pub proof fn lemma_scan_frames(records: Seq<Seq<u8>>, rest: Seq<u8>)
    requires
        frame::all_fit(records),
    ensures
        scan(frame::frames_of(records) + rest) == (Scan {
            records: records + scan(rest).records,
            valid_len: frame::frames_of(records).len() + scan(rest).valid_len,
            reason: scan(rest).reason,
        }),
    decreases records.len(),
{
    let buf = frame::frames_of(records) + rest;
    if records.len() == 0 {
        assert(buf =~= rest);
        assert(records + scan(rest).records =~= scan(rest).records);
    } else {
        let tail = frame::frames_of(records.drop_first()) + rest;
        assert forall|i: int| 0 <= i < records.drop_first().len() implies frame::fits(
            #[trigger] records.drop_first()[i],
        ) by {
            assert(frame::fits(records[i + 1]));
        }
        assert(frame::fits(records[0]));
        lemma_scan_frames(records.drop_first(), rest);
        assert(buf =~= frame::frame_of(records[0]) + tail);
        frame::lemma_head_frame(records[0], tail);
        assert(buf.skip(8 + records[0].len() as int) =~= tail);
        assert(seq![records[0]] + (records.drop_first() + scan(rest).records) =~= records + scan(
            rest,
        ).records);
    }
}

/// Clean frames scan to their records.
pub proof fn lemma_scan_clean(records: Seq<Seq<u8>>)
    requires
        frame::all_fit(records),
    ensures
        scan(frame::frames_of(records)) == (Scan {
            records,
            valid_len: frame::frames_of(records).len(),
            reason: StopReason::Clean,
        }),
{
    lemma_scan_frames(records, Seq::empty());
    assert(frame::frames_of(records) + Seq::<u8>::empty() =~= frame::frames_of(records));
    assert(records + Seq::<Seq<u8>>::empty() =~= records);
}

/// `some` is how `all` begins.
pub open spec fn is_prefix(some: Seq<Seq<u8>>, all: Seq<Seq<u8>>) -> bool {
    some.len() <= all.len() && some == all.take(some.len() as int)
}

/// Frames cut anywhere scan to the first so many of their records.
pub proof fn lemma_scan_cut(records: Seq<Seq<u8>>, k: int)
    requires
        frame::all_fit(records),
        0 <= k <= frame::frames_of(records).len(),
    ensures
        is_prefix(scan(frame::frames_of(records).take(k)).records, records),
    decreases records.len(),
{
    let cut = frame::frames_of(records).take(k);
    if records.len() > 0 && cut.len() > 0 {
        let first = frame::frame_of(records[0]);
        let later = records.drop_first();
        assert(frame::fits(records[0]));
        frame::lemma_head_frame(records[0], Seq::empty());
        if k < first.len() {
            assert(cut =~= first.take(k));
            frame::lemma_head_frame_cut(records[0], cut);
            assert(records.take(0) =~= Seq::empty());
        } else {
            assert forall|i: int| 0 <= i < later.len() implies frame::fits(
                #[trigger] later[i],
            ) by {
                assert(frame::fits(records[i + 1]));
            }
            let rest = frame::frames_of(later).take(k - first.len());
            lemma_scan_cut(later, k - first.len());
            assert(cut =~= first + rest);
            frame::lemma_head_frame(records[0], rest);
            assert(cut.skip(first.len() as int) =~= rest);
            let found = scan(rest).records;
            assert(seq![records[0]] + found =~= records.take(1 + found.len() as int));
        }
    } else {
        assert(records.take(0) =~= Seq::empty());
        if records.len() == 0 {
            assert(frame::frames_of(records).len() == 0);
        }
        assert(scan(cut).records =~= Seq::empty());
    }
}

/// The checksums of the frames of `records` give away a flipped bit: with any
/// one bit of those frames inverted, scanning them finds the first so many of
/// the records, and nothing else.
pub open spec fn tamper_evident(records: Seq<Seq<u8>>) -> bool {
    forall|bit: int|
        0 <= bit < 8 * frame::frames_of(records).len() ==> is_prefix(
            scan(#[trigger] storage::flipped(frame::frames_of(records), bit)).records,
            records,
        )
}

/// The torn-tail rule: when the frames of `kept` were durable and those of
/// `extra` behind them were not, a power loss leaves a file that scans to `kept`
/// and the first so many of `extra`.
pub proof fn lemma_scan_torn(kept: Seq<Seq<u8>>, extra: Seq<Seq<u8>>, after: Seq<u8>)
    requires
        frame::all_fit(kept),
        frame::all_fit(extra),
        tamper_evident(extra),
        storage::torn(
            FileData {
                live: frame::frames_of(kept + extra),
                synced: frame::frames_of(kept),
            },
            after,
        ),
    ensures
        is_prefix(kept, scan(after).records),
        is_prefix(scan(after).records, kept + extra),
{
    let head = frame::frames_of(kept);
    let tail = frame::frames_of(extra);
    frame::lemma_frames_concat(kept, extra);
    assert((head + tail).skip(head.len() as int) =~= tail);
    let rest = after.skip(head.len() as int);
    let found = scan(rest).records;
    if after == head {
        assert(rest =~= tail.take(0));
        lemma_scan_cut(extra, 0);
    } else if exists|k: int| 0 <= k <= tail.len() && after == head + #[trigger] tail.take(k) {
        let k = choose|k: int| 0 <= k <= tail.len() && after == head + #[trigger] tail.take(k);
        assert(rest =~= tail.take(k));
        lemma_scan_cut(extra, k);
    } else {
        let bit = choose|bit: int|
            0 <= bit < 8 * tail.len() && after == head + #[trigger] storage::flipped(tail, bit);
        assert(rest =~= storage::flipped(tail, bit));
    }
    assert(after =~= head + rest);
    lemma_scan_frames(kept, rest);
    assert(is_prefix(found, extra));
    assert((kept + found).take(kept.len() as int) =~= kept);
    assert((kept + extra).take((kept.len() + found.len()) as int) =~= kept + found);
}

/// Scans a single segment's bytes, appending decoded payloads to `out`. Returns
/// the offset of the first byte past the last valid frame, and why it stopped.
pub fn scan_buffer(buf: &[u8], out: &mut Vec<Vec<u8>>) -> (r: (u64, StopReason))
    ensures
        codec::byte_seqs(final(out)@) == codec::byte_seqs(old(out)@) + scan(buf@).records,
        r.0 == scan(buf@).valid_len,
        r.1 == scan(buf@).reason,
{
    let mut off: usize = 0;
    assert(buf@.skip(0) =~= buf@);
    assert(codec::byte_seqs(out@) + scan(buf@).records =~= codec::byte_seqs(old(out)@) + scan(
        buf@,
    ).records);
    loop
        invariant
            off <= buf@.len(),
            codec::byte_seqs(out@) + scan(buf@.skip(off as int)).records == codec::byte_seqs(
                old(out)@,
            ) + scan(buf@).records,
            off + scan(buf@.skip(off as int)).valid_len == scan(buf@).valid_len,
            scan(buf@.skip(off as int)).reason == scan(buf@).reason,
        decreases buf@.len() - off,
    {
        let ghost here = buf@.skip(off as int);
        if off == buf.len() {
            assert(codec::byte_seqs(out@) + Seq::<Seq<u8>>::empty() =~= codec::byte_seqs(out@));
            return (off as u64, StopReason::Clean);
        }
        match frame::decode(buf, off) {
            Ok(f) => {
                let ghost payload = f.payload@;
                let ghost before = codec::byte_seqs(out@);
                let n: usize = f.total_len;
                out.push(f.payload);
                proof {
                    assert(here.skip(n as int) =~= buf@.skip(off + n));
                    assert(codec::byte_seqs(out@) =~= before.push(payload));
                    let rest = scan(buf@.skip(off + n));
                    assert(before.push(payload) + rest.records =~= before + (seq![payload]
                        + rest.records));
                }
                off = off + n;
            },
            Err(FrameError::Truncated) => {
                assert(codec::byte_seqs(out@) + Seq::<Seq<u8>>::empty() =~= codec::byte_seqs(
                    out@,
                ));
                return (off as u64, StopReason::Truncated);
            },
            Err(FrameError::BadCrc) => {
                assert(codec::byte_seqs(out@) + Seq::<Seq<u8>>::empty() =~= codec::byte_seqs(
                    out@,
                ));
                return (off as u64, StopReason::BadCrc);
            },
        }
    }
}

/// The segments in `dir` are those in `files`, with these contents. Their names
/// are durable, and so are the bytes of all but the last; only the last may end
/// in anything but a whole frame.
pub open spec fn log_on(fs: FsState, dir: Seq<u8>, files: Seq<(u64, Seq<u8>)>) -> bool {
    &&& forall|i: int, j: int|
        0 <= i < j < files.len() ==> (#[trigger] files[i]).0 < (#[trigger] files[j]).0
    &&& forall|i: int|
        0 <= i < files.len() ==> bound(fs, segment::segment_at(dir, (#[trigger] files[i]).0))
            && fs.content(segment::segment_at(dir, files[i].0)) == files[i].1
    &&& forall|i: int|
        0 <= i < files.len() - 1 ==> facts::stable(
            fs,
            segment::segment_at(dir, (#[trigger] files[i]).0),
            files[i].1,
        ) && scan(files[i].1).reason == StopReason::Clean
    &&& forall|p: PathView| #[trigger]
        facts::named(fs, p) && p.0 == dir && names::segment_id(p.1) is Some ==> exists|i: int|
            0 <= i < files.len() && p == segment::segment_at(dir, (#[trigger] files[i]).0)
}

/// `p` names the same file in both namespaces.
pub open spec fn bound(fs: FsState, p: PathView) -> bool {
    fs.live.contains_key(p) && fs.durable.contains_key(p) && fs.live[p] == fs.durable[p]
}

/// As [`log_on`], and every byte is durable.
pub open spec fn log_stable(fs: FsState, dir: Seq<u8>, files: Seq<(u64, Seq<u8>)>) -> bool {
    &&& log_on(fs, dir, files)
    &&& forall|i: int|
        0 <= i < files.len() ==> facts::stable(
            fs,
            segment::segment_at(dir, (#[trigger] files[i]).0),
            files[i].1,
        )
}

/// The names that the log uses in `dir`.
pub open spec fn log_names(dir: Seq<u8>) -> Set<PathView> {
    Set::new(
        |p: PathView|
            p.0 == dir && (names::segment_id(p.1) is Some || exists|id: u64|
                p.1 == #[trigger] names::segment_tmp_name(id)),
    )
}

/// Every segment in `dir` is short enough to be read into memory.
pub open spec fn fits_memory(fs: FsState, dir: Seq<u8>) -> bool {
    forall|p: PathView| #[trigger]
        fs.live.contains_key(p) && p.0 == dir && names::segment_id(p.1) is Some ==> fs.content(
            p,
        ).len() <= usize::MAX
}

/// Segments have different names.
pub proof fn lemma_segment_at_injective(dir: Seq<u8>, a: u64, b: u64)
    requires
        segment::segment_at(dir, a) == segment::segment_at(dir, b),
    ensures
        a == b,
{
    names::lemma_segment_name(a);
    names::lemma_segment_name(b);
}

/// Two strictly ascending lists of numbers with the same members are the same.
proof fn lemma_ascending_unique(a: Seq<u64>, b: Seq<u64>)
    requires
        forall|i: int, j: int| 0 <= i < j < a.len() ==> #[trigger] a[i] < #[trigger] a[j],
        forall|i: int, j: int| 0 <= i < j < b.len() ==> #[trigger] b[i] < #[trigger] b[j],
        forall|x: u64| #[trigger] a.contains(x) <==> b.contains(x),
    ensures
        a == b,
    decreases a.len(),
{
    if a.len() == 0 {
        if b.len() > 0 {
            assert(b.contains(b[0]));
            assert(a.contains(b[0]));
        }
        assert(a =~= b);
    } else {
        assert(a.contains(a.last()));
        assert(b.contains(a.last()));
        let k = choose|k: int| 0 <= k < b.len() && b[k] == a.last();
        assert(b.contains(b.last()));
        assert(a.contains(b.last()));
        let m = choose|m: int| 0 <= m < a.len() && a[m] == b.last();
        assert(a.last() == b.last()) by {
            if k < b.len() - 1 {
                assert(b[k] < b[b.len() - 1]);
            }
            if m < a.len() - 1 {
                assert(a[m] < a[a.len() - 1]);
            }
        }
        let a1 = a.drop_last();
        let b1 = b.drop_last();
        assert forall|x: u64| #[trigger] a1.contains(x) <==> b1.contains(x) by {
            if a1.contains(x) {
                let i = choose|i: int| 0 <= i < a1.len() && a1[i] == x;
                assert(a[i] == x && a[i] < a[a.len() - 1]);
                assert(a.contains(x));
                let j = choose|j: int| 0 <= j < b.len() && b[j] == x;
                assert(b1[j] == x);
            }
            if b1.contains(x) {
                let i = choose|i: int| 0 <= i < b1.len() && b1[i] == x;
                assert(b[i] == x && b[i] < b[b.len() - 1]);
                assert(b.contains(x));
                assert(a.contains(x));
                let j = choose|j: int| 0 <= j < a.len() && a[j] == x;
                assert(a1[j] == x);
            }
        }
        lemma_ascending_unique(a1, b1);
        assert(a =~= a1.push(a.last()));
        assert(b =~= b1.push(b.last()));
    }
}

/// Listing the segments of a log yields the log.
pub proof fn lemma_listed(
    fs: FsState,
    dir: Seq<u8>,
    files: Seq<(u64, Seq<u8>)>,
    v: Seq<(u64, PathView)>,
)
    requires
        log_on(fs, dir, files),
        segment::lists_segments(fs, dir, v),
    ensures
        v.len() == files.len(),
        segment_contents(fs, v) == files,
        forall|i: int|
            0 <= i < v.len() ==> (#[trigger] v[i]).1 == segment::segment_at(dir, v[i].0),
{
    assert forall|i: int| 0 <= i < v.len() implies (#[trigger] v[i]).1 == segment::segment_at(
        dir,
        v[i].0,
    ) && exists|k: int| 0 <= k < files.len() && (#[trigger] files[k]).0 == v[i].0 by {
        let p = v[i].1;
        assert(facts::named(fs, p));
        let k = choose|k: int|
            0 <= k < files.len() && p == segment::segment_at(dir, (#[trigger] files[k]).0);
        names::lemma_segment_name(files[k].0);
        assert(files[k].0 == v[i].0);
    }
    let a = Seq::new(v.len(), |i: int| v[i].0);
    let b = Seq::new(files.len(), |i: int| files[i].0);
    assert forall|i: int, j: int| 0 <= i < j < a.len() implies #[trigger] a[i]
        < #[trigger] a[j] by {
        assert(v[i].0 <= v[j].0 && v[i].1 != v[j].1);
    }
    assert forall|i: int, j: int| 0 <= i < j < b.len() implies #[trigger] b[i]
        < #[trigger] b[j] by {
        assert(files[i].0 < files[j].0);
    }
    assert forall|x: u64| #[trigger] a.contains(x) <==> b.contains(x) by {
        if a.contains(x) {
            let i = choose|i: int| 0 <= i < a.len() && a[i] == x;
            assert(v[i].0 == x);
            let k = choose|k: int| 0 <= k < files.len() && (#[trigger] files[k]).0 == v[i].0;
            assert(b[k] == x);
        }
        if b.contains(x) {
            let k = choose|k: int| 0 <= k < b.len() && b[k] == x;
            assert(files[k].0 == x);
            let p = segment::segment_at(dir, x);
            names::lemma_segment_name(x);
            assert(bound(fs, p));
            assert(fs.live.contains_key(p));
            let i = choose|i: int| 0 <= i < v.len() && (#[trigger] v[i]).1 == p;
            assert(a[i] == x);
        }
    }
    lemma_ascending_unique(a, b);
    assert forall|i: int| 0 <= i < v.len() implies segment_contents(fs, v)[i] == files[i] by {
        assert(a[i] == b[i]);
        assert(v[i].0 == files[i].0);
    }
    assert(a.len() == b.len());
    assert(segment_contents(fs, v) =~= files);
}

/// What operations on other names do to a log.
pub proof fn lemma_log_kept(
    pre: FsState,
    post: FsState,
    touched: Set<PathView>,
    dir: Seq<u8>,
    files: Seq<(u64, Seq<u8>)>,
)
    requires
        facts::sound(pre),
        facts::keeps(pre, post, touched),
        forall|p: PathView| #[trigger]
            touched.contains(p) ==> p.0 != dir || names::segment_id(p.1) is None,
        log_stable(pre, dir, files),
    ensures
        log_stable(post, dir, files),
{
    assert forall|i: int| 0 <= i < files.len() implies facts::stable(
        post,
        segment::segment_at(dir, (#[trigger] files[i]).0),
        files[i].1,
    ) by {
        names::lemma_segment_name(files[i].0);
        assert(facts::stable(pre, segment::segment_at(dir, files[i].0), files[i].1));
    }
    assert forall|p: PathView| #[trigger]
        facts::named(post, p) && p.0 == dir && names::segment_id(p.1) is Some implies exists|i: int|
        0 <= i < files.len() && p == segment::segment_at(dir, (#[trigger] files[i]).0) by {
        assert(facts::named(pre, p));
    }
}

/// What operations on other names do to a log while power stays on.
pub proof fn lemma_log_calm(
    pre: FsState,
    post: FsState,
    touched: Set<PathView>,
    dir: Seq<u8>,
    files: Seq<(u64, Seq<u8>)>,
)
    requires
        facts::sound(pre),
        facts::calm(pre, post, touched),
        forall|p: PathView| #[trigger]
            touched.contains(p) ==> p.0 != dir || names::segment_id(p.1) is None,
        log_on(pre, dir, files),
    ensures
        log_on(post, dir, files),
{
    assert forall|i: int| 0 <= i < files.len() implies bound(
        post,
        segment::segment_at(dir, (#[trigger] files[i]).0),
    ) && post.content(segment::segment_at(dir, files[i].0)) == files[i].1 by {
        let p = segment::segment_at(dir, files[i].0);
        names::lemma_segment_name(files[i].0);
        assert(bound(pre, p));
        assert(facts::held(pre, p, pre.data[pre.live[p]]));
        assert(facts::held(post, p, pre.data[pre.live[p]]));
    }
    assert forall|i: int| 0 <= i < files.len() - 1 implies facts::stable(
        post,
        segment::segment_at(dir, (#[trigger] files[i]).0),
        files[i].1,
    ) by {
        names::lemma_segment_name(files[i].0);
        assert(facts::stable(pre, segment::segment_at(dir, files[i].0), files[i].1));
    }
    assert forall|p: PathView| #[trigger]
        facts::named(post, p) && p.0 == dir && names::segment_id(p.1) is Some implies exists|i: int|
        0 <= i < files.len() && p == segment::segment_at(dir, (#[trigger] files[i]).0) by {
        assert(facts::named(pre, p));
    }
}

/// The step of a replay over a clean segment that is not the last.
proof fn lemma_replay_step(files: Seq<(u64, Seq<u8>)>, i: int)
    requires
        0 <= i < files.len() - 1,
        scan(files[i].1).reason == StopReason::Clean,
    ensures
        replay(files.skip(i)) == (Replay {
            records: scan(files[i].1).records + replay(files.skip(i + 1)).records,
            ..replay(files.skip(i + 1))
        }),
{
    assert(files.skip(i).drop_first() =~= files.skip(i + 1));
    assert(files.skip(i)[0] == files[i]);
}

/// Replays every WAL segment under `dir` in id order, applying the torn-tail
/// rule.
pub fn recover<S: Storage>(fs: &S, dir: &[u8]) -> (r: StorageResult<Recovered>)
    requires
        fs.wf(),
    ensures
        fs.disk().dependable && r is Ok ==> exists|v: Seq<(u64, PathView)>|
            {
                &&& #[trigger] segment::lists_segments(fs.disk().fs, plain(dir@), v)
                &&& r->Ok_0@ == replay(segment_contents(fs.disk().fs, v))
            },
        fs.disk().dependable && r is Ok && plainly_named(fs.disk().fs, plain(dir@))
            ==> r->Ok_0@ == replay(seen_in(fs.disk().fs, plain(dir@))),
        fs.disk().dependable && fs.disk().reliable && fits_memory(fs.disk().fs, plain(dir@))
            ==> r is Ok,
{
    let segments: Vec<(u64, FilePath)> = match segment::list_segments(fs, dir) {
        Ok(v) => v,
        Err(e) => {
            return Err(e);
        },
    };
    let ghost state = fs.disk().fs;
    let ghost v = segment::numbered(segments@);
    let ghost files = segment_contents(state, v);
    let mut result: Recovered = Recovered::default();
    let mut i: usize = 0;
    proof {
        assert(files.skip(0) =~= files);
        assert(result@.records + replay(files).records =~= replay(files).records);
        if segments.len() == 0 {
            assert(files =~= Seq::empty());
        }
        if fs.disk().dependable && plainly_named(state, plain(dir@)) {
            lemma_listed_seen(state, plain(dir@), v);
        }
    }
    while i < segments.len()
        invariant
            fs.wf(),
            i <= segments.len(),
            state == fs.disk().fs,
            v == segment::numbered(segments@),
            files == segment_contents(state, v),
            fs.disk().dependable ==> segment::lists_segments(state, plain(dir@), v),
            fs.disk().dependable && plainly_named(state, plain(dir@)) ==> seen_in(
                state,
                plain(dir@),
            ) == files,
            i == segments.len() ==> fs.disk().dependable ==> result@ == replay(files),
            i < segments.len() ==> fs.disk().dependable ==> {
                &&& result@.records + replay(files.skip(i as int)).records == replay(files).records
                &&& replay(files.skip(i as int)).tail_segment == replay(files).tail_segment
                &&& replay(files.skip(i as int)).tail_valid_len == replay(files).tail_valid_len
                &&& replay(files.skip(i as int)).stop_reason == replay(files).stop_reason
            },
        decreases segments.len() - i,
    {
        let ghost before = result@.records;
        assert(v[i as int].1 == segments@[i as int].1@);
        let buf: Vec<u8> = match segment::read_all(fs, &segments[i].1) {
            Ok(buf) => buf,
            Err(e) => {
                return Err(e);
            },
        };
        assert(fs.disk().dependable ==> buf@ == files[i as int].1);
        let (valid_len, reason) = scan_buffer(&buf, &mut result.records);
        result.tail_segment = Some(segments[i].0);
        result.tail_valid_len = valid_len;
        result.stop_reason = reason;
        let is_last: bool = i + 1 == segments.len();
        proof {
            assert(files.skip(i as int)[0] == files[i as int]);
            if fs.disk().dependable && !is_last && reason == StopReason::Clean {
                lemma_replay_step(files, i as int);
                let a = scan(files[i as int].1).records;
                let b = replay(files.skip(i + 1)).records;
                assert(before + (a + b) =~= (before + a) + b);
            }
        }
        match reason {
            StopReason::Clean => {},
            _ => {
                assert(fs.disk().dependable ==> result@ =~= replay(files));
                return Ok(result);
            },
        }
        if is_last {
            assert(fs.disk().dependable ==> result@ =~= replay(files));
        }
        i = i + 1;
    }
    Ok(result)
}

/// The path of the scratch file used while a segment is rewritten.
fn tmp_path(dir: &[u8], id: u64) -> (p: FilePath)
    ensures
        p@ == (plain(dir@), names::segment_tmp_name(id)),
{
    proof {
        names::lemma_names_simple(id);
    }
    FilePath::new(dir, &names::segment_tmp_file(id))
}

/// What becomes of the tail segment when a truncation ends, in success, failure or a
/// power loss.
pub open spec fn truncate_outcome(
    pre: storage::Disk,
    post: storage::Disk,
    dir: Seq<u8>,
    tail_segment: u64,
    valid_len: u64,
    ok: bool,
) -> bool {
    let p = segment::segment_at(dir, tail_segment);
    let tmp = (dir, names::segment_tmp_name(tail_segment));
    let content = pre.fs.content(p);
    let torn = pre.fs.live.contains_key(p) && valid_len < content.len();
    post.room() ==> {
        &&& pre.room()
        &&& facts::keeps(pre.fs, post.fs, set![tmp, p])
        &&& pre.halted ==> post.halted && post.fs == pre.fs && (torn ==> !ok)
        &&& !post.halted ==> facts::calm(pre.fs, post.fs, set![tmp, p])
        &&& !torn || (!post.halted && !ok) ==> post.fs == pre.fs && post.halted == pre.halted
        &&& !post.halted && torn && ok ==> facts::stable(
            post.fs,
            p,
            content.take(valid_len as int),
        )
        &&& !pre.halted && post.halted ==> {
            &&& !pre.reliable
            &&& facts::stable(post.fs, p, content.take(valid_len as int))
                || replace::unreplaced(pre.fs, post.fs, p)
            &&& ok ==> facts::stable(post.fs, p, content.take(valid_len as int))
        }
        &&& ok ==> pre.fs.live.contains_key(p)
        &&& pre.reliable && !pre.halted && pre.fs.live.contains_key(p) && content.len()
            <= usize::MAX ==> ok
    }
}

/// Truncates the tail segment to its valid length, so that later appends land at
/// a clean boundary. The segment is rewritten to its valid prefix in a scratch
/// file that then replaces it: a crash on the way leaves either the old segment
/// or the clean one.
pub fn truncate_tail<S: Storage>(
    fs: &mut S,
    dir: &[u8],
    tail_segment: u64,
    valid_len: u64,
) -> (r: StorageResult<()>)
    requires
        old(fs).wf(),
        old(fs).disk().dependable,
        old(fs).disk().room() ==> facts::sound(old(fs).disk().fs),
    ensures
        final(fs).wf(),
        final(fs).disk().dependable,
        final(fs).disk().reliable == old(fs).disk().reliable,
        storage::used(old(fs).disk(), final(fs).disk(), 1),
        truncate_outcome(
            old(fs).disk(),
            final(fs).disk(),
            plain(dir@),
            tail_segment,
            valid_len,
            r is Ok,
        ),
{
    let path: FilePath = segment::segment_path(dir, tail_segment);
    let tmp: FilePath = tmp_path(dir, tail_segment);
    proof {
        names::lemma_segment_name(tail_segment);
        facts::lemma_calm_refl(fs.disk().fs, set![tmp@, path@]);
    }
    let current: u64 = match fs.len(&path) {
        Ok(n) => n,
        Err(e) => {
            return Err(e);
        },
    };
    if valid_len >= current {
        return Ok(());
    }
    let buf: Vec<u8> = match segment::read_all(fs, &path) {
        Ok(buf) => buf,
        Err(e) => {
            return Err(e);
        },
    };
    assert(valid_len < buf.len());
    let keep: Vec<u8> = codec::copy_range(&buf, 0, valid_len as usize);
    assert(keep@ =~= fs.disk().fs.content(path@).take(valid_len as int));
    assert(tmp@.1.len() == 28);
    replace::replace_file(fs, dir, &tmp, &path, &keep)
}

/// Every segment that this process sees in `dir` has the name that its id gives it.
pub open spec fn plainly_named(fs: FsState, dir: Seq<u8>) -> bool {
    forall|p: PathView| #[trigger]
        fs.live.contains_key(p) && p.0 == dir && names::segment_id(p.1) is Some ==> p
            == segment::segment_at(dir, names::segment_id(p.1)->0)
}

/// The segments that this process sees in `dir` are those in `files`, with these
/// contents.
pub open spec fn log_seen(fs: FsState, dir: Seq<u8>, files: Seq<(u64, Seq<u8>)>) -> bool {
    &&& forall|i: int, j: int|
        0 <= i < j < files.len() ==> (#[trigger] files[i]).0 < (#[trigger] files[j]).0
    &&& forall|i: int|
        0 <= i < files.len() ==> fs.live.contains_key(
            segment::segment_at(dir, (#[trigger] files[i]).0),
        ) && fs.content(segment::segment_at(dir, files[i].0)) == files[i].1
    &&& forall|p: PathView| #[trigger]
        facts::is_live(fs, p) && p.0 == dir && names::segment_id(p.1) is Some ==> exists|i: int|
            0 <= i < files.len() && p == segment::segment_at(dir, (#[trigger] files[i]).0)
}

/// The segments that this process sees in `dir`.
pub open spec fn seen_in(fs: FsState, dir: Seq<u8>) -> Seq<(u64, Seq<u8>)> {
    choose|files: Seq<(u64, Seq<u8>)>| log_seen(fs, dir, files)
}

/// A directory holds one log.
pub proof fn lemma_seen_unique(
    fs: FsState,
    dir: Seq<u8>,
    a: Seq<(u64, Seq<u8>)>,
    b: Seq<(u64, Seq<u8>)>,
)
    requires
        log_seen(fs, dir, a),
        log_seen(fs, dir, b),
    ensures
        a == b,
{
    let ia = Seq::new(a.len(), |i: int| a[i].0);
    let ib = Seq::new(b.len(), |i: int| b[i].0);
    assert forall|i: int, j: int| 0 <= i < j < ia.len() implies #[trigger] ia[i]
        < #[trigger] ia[j] by {
        assert(a[i].0 < a[j].0);
    }
    assert forall|i: int, j: int| 0 <= i < j < ib.len() implies #[trigger] ib[i]
        < #[trigger] ib[j] by {
        assert(b[i].0 < b[j].0);
    }
    assert forall|x: u64| #[trigger] ia.contains(x) <==> ib.contains(x) by {
        let p = segment::segment_at(dir, x);
        names::lemma_segment_name(x);
        if ia.contains(x) {
            let i = choose|i: int| 0 <= i < ia.len() && ia[i] == x;
            assert(fs.live.contains_key(segment::segment_at(dir, a[i].0)));
            assert(facts::is_live(fs, p));
            let j = choose|j: int|
                0 <= j < b.len() && p == segment::segment_at(dir, (#[trigger] b[j]).0);
            lemma_segment_at_injective(dir, x, b[j].0);
            assert(ib[j] == x);
        }
        if ib.contains(x) {
            let i = choose|i: int| 0 <= i < ib.len() && ib[i] == x;
            assert(fs.live.contains_key(segment::segment_at(dir, b[i].0)));
            assert(facts::is_live(fs, p));
            let j = choose|j: int|
                0 <= j < a.len() && p == segment::segment_at(dir, (#[trigger] a[j]).0);
            lemma_segment_at_injective(dir, x, a[j].0);
            assert(ia[j] == x);
        }
    }
    lemma_ascending_unique(ia, ib);
    assert(ia.len() == ib.len());
    assert forall|i: int| 0 <= i < a.len() implies a[i] == b[i] by {
        assert(ia[i] == ib[i]);
        assert(a[i].0 == b[i].0);
    }
    assert(a =~= b);
}

/// Listing plainly named segments yields what is seen.
pub proof fn lemma_listed_seen(fs: FsState, dir: Seq<u8>, v: Seq<(u64, PathView)>)
    requires
        plainly_named(fs, dir),
        segment::lists_segments(fs, dir, v),
    ensures
        log_seen(fs, dir, segment_contents(fs, v)),
        seen_in(fs, dir) == segment_contents(fs, v),
        forall|i: int|
            0 <= i < v.len() ==> (#[trigger] v[i]).1 == segment::segment_at(dir, v[i].0),
{
    let files = segment_contents(fs, v);
    assert forall|i: int| 0 <= i < v.len() implies (#[trigger] v[i]).1 == segment::segment_at(
        dir,
        v[i].0,
    ) by {
        assert(fs.live.contains_key(v[i].1));
    }
    assert forall|i: int, j: int| 0 <= i < j < files.len() implies (#[trigger] files[i]).0 < (
    #[trigger] files[j]).0 by {
        assert(v[i].0 <= v[j].0 && v[i].1 != v[j].1);
    }
    assert forall|i: int| 0 <= i < files.len() implies fs.live.contains_key(
        segment::segment_at(dir, (#[trigger] files[i]).0),
    ) && fs.content(segment::segment_at(dir, files[i].0)) == files[i].1 by {
        assert(v[i].1 == segment::segment_at(dir, v[i].0));
    }
    assert forall|p: PathView| #[trigger]
        facts::is_live(fs, p) && p.0 == dir && names::segment_id(p.1) is Some implies exists|i: int|
        0 <= i < files.len() && p == segment::segment_at(dir, (#[trigger] files[i]).0) by {
        let i = choose|i: int| 0 <= i < v.len() && (#[trigger] v[i]).1 == p;
        assert(p == segment::segment_at(dir, files[i].0));
    }
    assert(log_seen(fs, dir, files));
    lemma_seen_unique(fs, dir, seen_in(fs, dir), files);
}

/// A log is what is seen.
pub proof fn lemma_log_seen(fs: FsState, dir: Seq<u8>, files: Seq<(u64, Seq<u8>)>)
    requires
        log_on(fs, dir, files),
    ensures
        plainly_named(fs, dir),
        log_seen(fs, dir, files),
        seen_in(fs, dir) == files,
{
    assert forall|i: int| 0 <= i < files.len() implies fs.live.contains_key(
        segment::segment_at(dir, (#[trigger] files[i]).0),
    ) by {
        assert(bound(fs, segment::segment_at(dir, files[i].0)));
    }
    assert forall|p: PathView| #[trigger]
        facts::is_live(fs, p) && p.0 == dir && names::segment_id(p.1) is Some implies exists|i: int|
        0 <= i < files.len() && p == segment::segment_at(dir, (#[trigger] files[i]).0) by {
        assert(facts::named(fs, p));
    }
    assert forall|p: PathView| #[trigger]
        fs.live.contains_key(p) && p.0 == dir && names::segment_id(p.1) is Some implies p
        == segment::segment_at(dir, names::segment_id(p.1)->0) by {
        assert(facts::named(fs, p));
        let i = choose|i: int|
            0 <= i < files.len() && p == segment::segment_at(dir, (#[trigger] files[i]).0);
        names::lemma_segment_name(files[i].0);
    }
    assert(log_seen(fs, dir, files));
    lemma_seen_unique(fs, dir, seen_in(fs, dir), files);
}

/// Operations on other names leave what is seen while power stays on.
pub proof fn lemma_seen_calm(
    pre: FsState,
    post: FsState,
    touched: Set<PathView>,
    dir: Seq<u8>,
    files: Seq<(u64, Seq<u8>)>,
)
    requires
        facts::sound(pre),
        facts::calm(pre, post, touched),
        forall|p: PathView| #[trigger]
            touched.contains(p) ==> p.0 != dir || names::segment_id(p.1) is None,
        log_seen(pre, dir, files),
    ensures
        log_seen(post, dir, files),
{
    assert forall|i: int| 0 <= i < files.len() implies post.live.contains_key(
        segment::segment_at(dir, (#[trigger] files[i]).0),
    ) && post.content(segment::segment_at(dir, files[i].0)) == files[i].1 by {
        let p = segment::segment_at(dir, files[i].0);
        names::lemma_segment_name(files[i].0);
        assert(facts::visible(pre, p, pre.data[pre.live[p]]));
        assert(facts::visible(post, p, pre.data[pre.live[p]]));
    }
    assert forall|p: PathView| #[trigger]
        facts::is_live(post, p) && p.0 == dir && names::segment_id(p.1) is Some implies exists|
        i: int,
    |
        0 <= i < files.len() && p == segment::segment_at(dir, (#[trigger] files[i]).0) by {
        assert(facts::is_live(pre, p));
    }
}

/// Plain names are what is seen.
pub proof fn lemma_seen_named(fs: FsState, dir: Seq<u8>, files: Seq<(u64, Seq<u8>)>)
    requires
        log_seen(fs, dir, files),
    ensures
        plainly_named(fs, dir),
        seen_in(fs, dir) == files,
{
    assert forall|p: PathView| #[trigger]
        fs.live.contains_key(p) && p.0 == dir && names::segment_id(p.1) is Some implies p
        == segment::segment_at(dir, names::segment_id(p.1)->0) by {
        assert(facts::is_live(fs, p));
        let i = choose|i: int|
            0 <= i < files.len() && p == segment::segment_at(dir, (#[trigger] files[i]).0);
        names::lemma_segment_name(files[i].0);
    }
    lemma_seen_unique(fs, dir, seen_in(fs, dir), files);
}

/// How many segments a replay reads: up to the first that is not clean to its end.
pub open spec fn reached(files: Seq<(u64, Seq<u8>)>) -> nat
    decreases files.len(),
{
    if files.len() == 0 {
        0
    } else if scan(files[0].1).reason == StopReason::Clean {
        1 + reached(files.drop_first())
    } else {
        1
    }
}

/// The segments that a replay reads.
pub open spec fn kept(files: Seq<(u64, Seq<u8>)>) -> Seq<(u64, Seq<u8>)> {
    files.take(reached(files) as int)
}

/// A replay finds all there is to find in the segments that it reads.
pub proof fn lemma_kept(files: Seq<(u64, Seq<u8>)>)
    ensures
        reached(files) <= files.len(),
        files.len() > 0 ==> reached(files) > 0,
        clean_front(kept(files)),
        replay(kept(files)) == replay(files),
        files.len() > 0 ==> replay(files).tail_segment == Some(files[reached(files) - 1].0),
        replay(files).stop_reason == StopReason::Clean ==> reached(files) == files.len(),
        clean_front(files) ==> kept(files) == files,
    decreases files.len(),
{
    if files.len() > 0 {
        let rest = files.drop_first();
        lemma_kept(rest);
        if scan(files[0].1).reason == StopReason::Clean {
            assert(kept(files).drop_first() =~= kept(rest));
            assert forall|i: int| 0 <= i < kept(files).len() - 1 implies scan(
                (#[trigger] kept(files)[i]).1,
            ).reason == StopReason::Clean by {
                if i > 0 {
                    assert(kept(rest)[i - 1] == kept(files)[i]);
                }
            }
            if files.len() > 1 {
                assert(kept(files)[0] == files[0]);
                assert(replay(kept(files)) =~= replay(files));
            } else {
                assert(kept(files) =~= files);
            }
            if clean_front(files) {
                assert forall|i: int| 0 <= i < rest.len() - 1 implies scan(
                    (#[trigger] rest[i]).1,
                ).reason == StopReason::Clean by {
                    assert(rest[i] == files[i + 1]);
                }
                assert(kept(files) =~= files);
            }
        } else {
            assert(kept(files) =~= seq![files[0]]);
            assert(replay(kept(files)) =~= replay(files));
            if clean_front(files) && files.len() > 1 {
                assert(scan(files[0].1).reason == StopReason::Clean);
            }
        }
    } else {
        assert(kept(files) =~= files);
    }
}

/// All segments but the last end with a whole frame.
pub open spec fn clean_front(files: Seq<(u64, Seq<u8>)>) -> bool {
    forall|i: int|
        0 <= i < files.len() - 1 ==> scan((#[trigger] files[i]).1).reason == StopReason::Clean
}

/// The log with other bytes in its last segment.
pub open spec fn set_last(files: Seq<(u64, Seq<u8>)>, bytes: Seq<u8>) -> Seq<(u64, Seq<u8>)> {
    files.update(files.len() - 1, (files.last().0, bytes))
}

/// A replay of a log stops in its last segment.
pub proof fn lemma_replay_tail(files: Seq<(u64, Seq<u8>)>)
    requires
        files.len() > 0,
        clean_front(files),
    ensures
        replay(files).tail_segment == Some(files.last().0),
        replay(files).tail_valid_len == scan(files.last().1).valid_len,
        replay(files).stop_reason == scan(files.last().1).reason,
    decreases files.len(),
{
    if files.len() > 1 {
        let rest = files.drop_first();
        assert forall|i: int| 0 <= i < rest.len() - 1 implies scan((#[trigger] rest[i]).1).reason
            == StopReason::Clean by {
            assert(rest[i] == files[i + 1]);
        }
        lemma_replay_tail(rest);
        assert(scan(files[0].1).reason == StopReason::Clean);
    }
}

/// Replay finds the same in a last segment that scans to the same records.
pub proof fn lemma_replay_set_last(files: Seq<(u64, Seq<u8>)>, bytes: Seq<u8>)
    requires
        files.len() > 0,
        clean_front(files),
        scan(bytes).records == scan(files.last().1).records,
    ensures
        replay(set_last(files, bytes)).records == replay(files).records,
        clean_front(set_last(files, bytes)),
    decreases files.len(),
{
    let files2 = set_last(files, bytes);
    assert forall|i: int| 0 <= i < files2.len() - 1 implies scan((#[trigger] files2[i]).1).reason
        == StopReason::Clean by {
        assert(files2[i] == files[i]);
    }
    if files.len() > 1 {
        let rest = files.drop_first();
        assert forall|i: int| 0 <= i < rest.len() - 1 implies scan((#[trigger] rest[i]).1).reason
            == StopReason::Clean by {
            assert(rest[i] == files[i + 1]);
        }
        lemma_replay_set_last(rest, bytes);
        assert(files2.drop_first() =~= set_last(rest, bytes));
        assert(scan(files[0].1).reason == StopReason::Clean);
        assert(files2[0] == files[0]);
    }
}

/// A log whose last segment was replaced by durable bytes.
pub proof fn lemma_log_replaced(
    fs: FsState,
    post: FsState,
    touched: Set<PathView>,
    dir: Seq<u8>,
    files: Seq<(u64, Seq<u8>)>,
    bytes: Seq<u8>,
)
    requires
        facts::sound(fs),
        log_on(fs, dir, files),
        files.len() > 0,
        facts::keeps(fs, post, touched),
        forall|p: PathView| #[trigger]
            touched.contains(p) ==> p == segment::segment_at(dir, files.last().0) || p.0 != dir
                || names::segment_id(p.1) is None,
        facts::stable(post, segment::segment_at(dir, files.last().0), bytes),
    ensures
        log_stable(post, dir, set_last(files, bytes)),
{
    let last = files.len() - 1;
    let files2 = set_last(files, bytes);
    assert forall|i: int, j: int| 0 <= i < j < files2.len() implies (#[trigger] files2[i]).0 < (
    #[trigger] files2[j]).0 by {
        assert(files[i].0 < files[j].0);
    }
    assert forall|i: int| 0 <= i < files2.len() implies facts::stable(
        post,
        segment::segment_at(dir, (#[trigger] files2[i]).0),
        files2[i].1,
    ) by {
        if i < last {
            assert(files2[i] == files[i]);
            assert(files[i].0 < files[last].0);
            let p = segment::segment_at(dir, files[i].0);
            names::lemma_segment_name(files[i].0);
            if touched.contains(p) {
                lemma_segment_at_injective(dir, files[i].0, files[last].0);
            }
            assert(facts::stable(fs, p, files[i].1));
        }
    }
    assert forall|i: int| 0 <= i < files2.len() - 1 implies scan((#[trigger] files2[i]).1).reason
        == StopReason::Clean by {
        assert(files2[i] == files[i]);
    }
    assert forall|p: PathView| #[trigger]
        facts::named(post, p) && p.0 == dir && names::segment_id(p.1) is Some implies exists|i: int|
        0 <= i < files2.len() && p == segment::segment_at(dir, (#[trigger] files2[i]).0) by {
        if p == segment::segment_at(dir, files[last].0) {
            assert(p == segment::segment_at(dir, files2[last].0));
        } else {
            assert(facts::named(fs, p));
            let i = choose|i: int|
                0 <= i < files.len() && p == segment::segment_at(dir, (#[trigger] files[i]).0);
            assert(p == segment::segment_at(dir, files2[i].0));
        }
    }
}

/// `dir` durably holds a log that replays to `records`.
pub open spec fn log_says(fs: FsState, dir: Seq<u8>, records: Seq<Seq<u8>>) -> bool {
    exists|files: Seq<(u64, Seq<u8>)>| #[trigger]
        log_stable(fs, dir, files) && replay(files).records == records
}

} // verus!
