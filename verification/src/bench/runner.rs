//! How a benchmark phase is divided among workers, which phases a workload has, and
//! what a read has to give.

use rand::rngs::StdRng;
use vstd::prelude::*;

use super::clock;
use super::hist::Histogram;
use super::kv;
use super::kv::{BenchError, BenchResult, KvBench};
use super::workload;
use super::workload::FillOrder;
use crate::db::read;
use crate::order;

verus! {

/// How many workers there are: at least one.
pub open spec fn staff(workers: nat) -> nat {
    if workers == 0 {
        1
    } else {
        workers
    }
}

/// The items of worker `w`: chunks of equal size, one after the other, of which the
/// last takes in the remainder.
pub open spec fn share(n: nat, workers: nat, w: int) -> (int, int) {
    let base = (n / staff(workers)) as int;
    (
        w * base,
        if w == staff(workers) - 1 {
            n as int
        } else {
            (w + 1) * base
        },
    )
}

/// The chunks cover all items, each once: the first begins with the first item, each
/// begins where the one before it ends, and the last ends with the last item.
pub proof fn lemma_shares_cover(n: nat, workers: nat, w: int)
    requires
        0 <= w < staff(workers),
    ensures
        share(n, workers, 0).0 == 0,
        w + 1 < staff(workers) ==> share(n, workers, w).1 == share(n, workers, w + 1).0,
        share(n, workers, staff(workers) - 1).1 == n,
        0 <= share(n, workers, w).0 <= share(n, workers, w).1 <= n,
{
    let s = staff(workers) as int;
    let base = n as int / s;
    assert(s * base <= n) by (nonlinear_arith)
        requires
            s > 0,
            base == n as int / s,
            n >= 0,
    ;
    assert(base >= 0) by (nonlinear_arith)
        requires
            s > 0,
            base == n as int / s,
            n >= 0,
    ;
    assert(0 <= w * base && (w + 1) * base <= s * base && (w + 1) * base == w * base + base)
        by (nonlinear_arith)
        requires
            0 <= w,
            w + 1 <= s,
            base >= 0,
    ;
}

/// Splits `n` items among `workers` workers, as ranges of indices.
pub fn partition(n: usize, workers: usize) -> (r: Vec<(usize, usize)>)
    ensures
        r@.len() == staff(workers as nat),
        forall|w: int|
            0 <= w < r@.len() ==> {
                &&& (#[trigger] r@[w]).0 == share(n as nat, workers as nat, w).0
                &&& r@[w].1 == share(n as nat, workers as nat, w).1
            },
{
    let workers: usize = if workers == 0 {
        1
    } else {
        workers
    };
    let base: usize = n / workers;
    let mut ranges: Vec<(usize, usize)> = Vec::with_capacity(workers);
    let mut start: usize = 0;
    let mut w: usize = 0;
    proof {
        lemma_shares_cover(n as nat, workers as nat, 0);
    }
    while w < workers
        invariant
            w <= workers,
            workers > 0,
            base == n as nat / workers as nat,
            ranges@.len() == w,
            w < workers ==> start == share(n as nat, workers as nat, w as int).0,
            forall|k: int|
                0 <= k < ranges@.len() ==> {
                    &&& (#[trigger] ranges@[k]).0 == share(n as nat, workers as nat, k).0
                    &&& ranges@[k].1 == share(n as nat, workers as nat, k).1
                },
        decreases workers - w,
    {
        proof {
            lemma_shares_cover(n as nat, workers as nat, w as int);
            assert((w + 1) * base == w * base + base) by (nonlinear_arith);
        }
        let len: usize = if w == workers - 1 {
            n - start
        } else {
            base
        };
        ranges.push((start, start + len));
        start = start + len;
        w = w + 1;
    }
    ranges
}

/// The samples of several histograms, one after the other.
pub open spec fn all_samples(hists: Seq<Histogram>) -> Seq<u64>
    decreases hists.len(),
{
    if hists.len() == 0 {
        Seq::empty()
    } else {
        all_samples(hists.drop_last()) + hists.last()@
    }
}

/// Merges the histograms of the workers into one.
pub fn merge_hists(hists: Vec<Histogram>) -> (merged: Histogram)
    ensures
        merged.inv(),
        merged@ == all_samples(hists@),
{
    let mut total: usize = 0;
    let mut k: usize = 0;
    while k < hists.len()
        invariant
            k <= hists@.len(),
        decreases hists.len() - k,
    {
        total = total.saturating_add(hists[k].len());
        k = k + 1;
    }
    let mut merged = Histogram::with_capacity(total);
    let mut i: usize = 0;
    assert(hists@.take(0) =~= Seq::empty());
    while i < hists.len()
        invariant
            i <= hists@.len(),
            merged.inv(),
            merged@ == all_samples(hists@.take(i as int)),
        decreases hists.len() - i,
    {
        let samples = hists[i].samples_slice();
        let ghost before = merged@;
        let mut j: usize = 0;
        assert(before + samples@.take(0) =~= before);
        while j < samples.len()
            invariant
                j <= samples@.len(),
                merged.inv(),
                merged@ == before + samples@.take(j as int),
            decreases samples.len() - j,
        {
            merged.record(samples[j]);
            j = j + 1;
            assert(merged@ =~= before + samples@.take(j as int));
        }
        proof {
            assert(samples@.take(j as int) =~= samples@);
            assert(hists@.take(i + 1).drop_last() =~= hists@.take(i as int));
        }
        i = i + 1;
    }
    assert(hists@.take(i as int) =~= hists@);
    merged
}

/// One phase of a benchmark.
#[derive(Debug, Clone, Copy, PartialEq, Eq, Structural)]
pub enum Phase {
    /// Writes every key, in this order.
    Fill(FillOrder),
    /// Moves what was written to tables, so that reads find it there.
    Flush,
    /// Looks up random keys.
    PointRead,
    /// Scans ranges from random keys on.
    ScanRange,
}

/// The phases of a workload. Reads need something to read, so a fill precedes them.
pub open spec fn phases_of(workload: Seq<char>) -> Seq<Phase> {
    if workload == "fill-seq"@ {
        seq![Phase::Fill(FillOrder::Sequential)]
    } else if workload == "fill-random"@ {
        seq![Phase::Fill(FillOrder::Random)]
    } else if workload == "point-read"@ {
        seq![Phase::Fill(FillOrder::Random), Phase::Flush, Phase::PointRead]
    } else if workload == "scan"@ {
        seq![Phase::Fill(FillOrder::Random), Phase::Flush, Phase::ScanRange]
    } else if workload == "all"@ {
        seq![Phase::Fill(FillOrder::Random), Phase::Flush, Phase::PointRead, Phase::ScanRange]
    } else {
        Seq::empty()
    }
}

/// Whether a string is `text`.
pub(crate) fn is_text(s: &String, text: &str) -> (r: bool)
    ensures
        r == (s@ == text@),
{
    *s == String::from_str(text)
}

/// The phases of the workload with the given name.
pub fn plan(workload: &String) -> (phases: Vec<Phase>)
    ensures
        phases@ == phases_of(workload@),
{
    let mut phases: Vec<Phase> = Vec::new();
    if is_text(workload, "fill-seq") {
        phases.push(Phase::Fill(FillOrder::Sequential));
        assert(phases@ =~= phases_of(workload@));
        return phases;
    }
    if is_text(workload, "fill-random") {
        phases.push(Phase::Fill(FillOrder::Random));
        assert(phases@ =~= phases_of(workload@));
        return phases;
    }
    let all: bool = is_text(workload, "all");
    let reads: bool = is_text(workload, "point-read");
    let scans: bool = is_text(workload, "scan");
    if all || reads || scans {
        phases.push(Phase::Fill(FillOrder::Random));
        phases.push(Phase::Flush);
    }
    if all || reads {
        phases.push(Phase::PointRead);
    }
    if all || scans {
        phases.push(Phase::ScanRange);
    }
    proof {
        reveal_strlit("all");
        reveal_strlit("point-read");
        reveal_strlit("scan");
        assert("all"@.len() == 3 && "point-read"@.len() == 10 && "scan"@.len() == 4);
        assert(phases@ =~= phases_of(workload@));
    }
    phases
}

/// How many keys one scan covers: a hundredth of them, but from 1 to 1000.
pub fn scan_window(keys: u64) -> (w: u64)
    ensures
        w == (if keys / 100 < 1 {
            1
        } else if keys / 100 > 1000 {
            1000
        } else {
            keys / 100
        }),
{
    let w: u64 = keys / 100;
    if w < 1 {
        1
    } else if w > 1000 {
        1000
    } else {
        w
    }
}

/// How many scans are run: as many as reads, but no more than 1000.
pub fn scan_count(reads: usize) -> (n: usize)
    ensures
        n == (if reads < 1000 {
            reads
        } else {
            1000usize
        }),
{
    if reads < 1000 {
        reads
    } else {
        1000
    }
}

/// The indices at which `count` scans of `window` keys out of `n` begin: random ones
/// that leave room for a window.
pub open spec fn start_indices(n: u64, count: nat, window: u64, seed: u64) -> Seq<u64> {
    workload::drawn(
        seed,
        if n > window {
            (n - window) as u64
        } else {
            1
        },
        count,
    )
}

/// The indices at which `count` scans of `window` keys out of `n` begin.
pub fn scan_starts(n: u64, count: usize, window: u64, seed: u64) -> (starts: Vec<u64>)
    ensures
        starts@ == start_indices(n, count as nat, window, seed),
        forall|i: int|
            0 <= i < starts@.len() ==> {
                &&& n > window ==> #[trigger] starts@[i] + window < n
                &&& n <= window ==> starts@[i] == 0
            },
{
    let bound: u64 = if n > window {
        n - window
    } else {
        1
    };
    workload::read_indices(bound, count, seed)
}

/// The keys from which, and up to which, a scan of `window` keys goes that begins at
/// index `start`.
pub fn scan_bounds(start: u64, window: u64) -> (r: (Vec<u8>, Vec<u8>))
    requires
        start + window <= u64::MAX,
    ensures
        r.0@ == workload::key_bytes(start),
        r.1@ == workload::key_bytes((start + window) as u64),
{
    (workload::key_for(start), workload::key_for(start + window))
}

/// What a point read found.
#[derive(Debug, Clone, Copy, PartialEq, Eq, Structural)]
pub enum ReadCheck {
    /// The value that was written.
    Correct,
    /// Another value.
    Mismatch,
    /// No value, though one was written.
    Missing,
}

/// Judges what a point read of index `i` gave, so that a read which is silently wrong
/// cannot pass as fast.
pub fn check_read(i: u64, got: &Option<Vec<u8>>) -> (r: ReadCheck)
    ensures
        r is Correct <==> (got is Some && got->0@ == workload::value_bytes(i)),
        r is Missing <==> got is None,
{
    match got {
        Some(v) => {
            if order::same_bytes(v, &workload::value_for(i)) {
                ReadCheck::Correct
            } else {
                ReadCheck::Mismatch
            }
        },
        None => ReadCheck::Missing,
    }
}

/// Index `i` has its value in `m`.
pub open spec fn is_filled(m: Map<Seq<u8>, Seq<u8>>, i: u64) -> bool {
    m.contains_key(workload::key_bytes(i)) && m[workload::key_bytes(i)] == workload::value_bytes(i)
}

/// Every index below `n` has its value in `m`.
pub open spec fn filled(m: Map<Seq<u8>, Seq<u8>>, n: u64) -> bool {
    forall|i: u64| i < n ==> #[trigger] is_filled(m, i)
}

/// What a fill of some indices makes of `m`.
pub open spec fn filling(m: Map<Seq<u8>, Seq<u8>>, indices: Seq<u64>) -> Map<Seq<u8>, Seq<u8>>
    decreases indices.len(),
{
    if indices.len() == 0 {
        m
    } else {
        filling(m, indices.drop_last()).insert(
            workload::key_bytes(indices.last()),
            workload::value_bytes(indices.last()),
        )
    }
}

/// The writes of a fill.
pub open spec fn fill_writes(indices: Seq<u64>) -> kv::Writes {
    Seq::new(
        indices.len(),
        |k: int| (workload::key_bytes(indices[k]), workload::value_bytes(indices[k])),
    )
}

/// What a fill writes, it leaves: each of its indices has its value.
pub proof fn lemma_filling(m: Map<Seq<u8>, Seq<u8>>, indices: Seq<u64>, i: u64)
    ensures
        indices.contains(i) ==> is_filled(filling(m, indices), i),
        is_filled(m, i) ==> is_filled(filling(m, indices), i),
    decreases indices.len(),
{
    if indices.len() > 0 {
        let last = indices.last();
        lemma_filling(m, indices.drop_last(), i);
        if i != last {
            if i < last {
                workload::lemma_keys_sorted(i, last);
            } else {
                workload::lemma_keys_sorted(last, i);
            }
            order::lemma_lex_irreflexive(workload::key_bytes(i));
            if indices.contains(i) {
                let k = choose|k: int| 0 <= k < indices.len() && indices[k] == i;
                assert(indices.drop_last()[k] == i);
            }
        }
    }
}

/// A fill in any order leaves every index below `n` with its value.
pub proof fn lemma_fill_complete(m: Map<Seq<u8>, Seq<u8>>, indices: Seq<u64>, n: u64)
    requires
        indices.to_multiset() == workload::ascending(n as nat).to_multiset(),
    ensures
        filled(filling(m, indices), n),
{
    let all = workload::ascending(n as nat);
    assert forall|i: u64| i < n implies #[trigger] is_filled(filling(m, indices), i) by {
        assert(all[i as int] == i);
        assert(all.contains(i));
        vstd::seq_lib::to_multiset_contains(all, i);
        vstd::seq_lib::to_multiset_contains(indices, i);
        lemma_filling(m, indices, i);
    }
}

/// One worker's share of the fill phase: writes the indices from `lo` up to `hi`, in
/// their order, and times each write.
pub fn fill_share<K: KvBench>(engine: &mut K, indices: &Vec<u64>, lo: usize, hi: usize) -> (r:
    BenchResult<Histogram>)
    requires
        old(engine).ready(),
        lo <= hi <= indices@.len(),
    ensures
        final(engine).ready(),
        !final(engine).lost() ==> !old(engine).lost(),
        lo == hi || old(engine).takes(fill_writes(indices@.subrange(lo as int, hi as int))) ==> r
            is Ok,
        r matches Ok(hist) ==> hist.inv() && hist@.len() == hi - lo,
        old(engine).known() && !final(engine).lost() ==> {
            &&& final(engine).known()
            &&& r is Ok ==> final(engine).pairs() == filling(
                old(engine).pairs(),
                indices@.subrange(lo as int, hi as int),
            )
            &&& r is Err ==> exists|k: int|
                lo <= k <= hi && final(engine).pairs() == filling(
                    old(engine).pairs(),
                    #[trigger] indices@.subrange(lo as int, k),
                )
        },
{
    let mut hist = Histogram::with_capacity(hi - lo);
    let mut k: usize = lo;
    assert(indices@.subrange(lo as int, lo as int) =~= Seq::<u64>::empty());
    while k < hi
        invariant
            lo <= k <= hi <= indices@.len(),
            engine.ready(),
            !engine.lost() ==> !old(engine).lost(),
            hist.inv(),
            hist@.len() == k - lo,
            old(engine).takes(fill_writes(indices@.subrange(lo as int, hi as int)))
                ==> engine.takes(fill_writes(indices@.subrange(k as int, hi as int))),
            old(engine).known() && !engine.lost() ==> {
                &&& engine.known()
                &&& engine.pairs() == filling(
                    old(engine).pairs(),
                    indices@.subrange(lo as int, k as int),
                )
            },
        decreases hi - k,
    {
        let i: u64 = indices[k];
        let key = workload::key_for(i);
        let value = workload::value_for(i);
        proof {
            let next = indices@.subrange(lo as int, k + 1);
            assert(next.drop_last() =~= indices@.subrange(lo as int, k as int));
            assert(next.last() == i);
            let left = fill_writes(indices@.subrange(k as int, hi as int));
            assert(left.drop_first() =~= fill_writes(indices@.subrange(k + 1, hi as int)));
            assert(left[0] == (workload::key_bytes(i), workload::value_bytes(i)));
        }
        let start = clock::now();
        match engine.put(&key, &value) {
            Ok(_) => {},
            Err(e) => {
                return Err(e);
            },
        }
        hist.record(clock::nanos_since(start));
        k = k + 1;
    }
    Ok(hist)
}

/// One worker's share of the point-read phase: looks up the indices from `lo` up to
/// `hi`, times each lookup, and fails at the first that does not give its value.
pub fn read_share<K: KvBench>(engine: &mut K, indices: &Vec<u64>, lo: usize, hi: usize) -> (r:
    BenchResult<Histogram>)
    requires
        old(engine).ready(),
        lo <= hi <= indices@.len(),
    ensures
        final(engine).ready(),
        final(engine).lost() == old(engine).lost(),
        old(engine).answers() ==> final(engine).answers() && final(engine).pairs() == old(
            engine,
        ).pairs(),
        lo == hi ==> r is Ok,
        old(engine).answers() ==> (r is Ok <==> forall|k: int|
            lo <= k < hi ==> is_filled(old(engine).pairs(), #[trigger] indices@[k])),
        old(engine).answers() && r is Err ==> r->Err_0 is Missing || r->Err_0 is Mismatch,
        r matches Ok(hist) ==> hist.inv() && hist@.len() == hi - lo,
        old(engine).known() ==> {
            let m = old(engine).pairs();
            &&& final(engine).known()
            &&& final(engine).pairs() == m
            &&& r is Ok ==> forall|k: int| lo <= k < hi ==> is_filled(m, #[trigger] indices@[k])
            &&& r matches Err(e) ==> (e is Missing || e is Mismatch) ==> exists|k: int|
                lo <= k < hi && !is_filled(m, #[trigger] indices@[k])
        },
{
    let mut hist = Histogram::with_capacity(hi - lo);
    let mut k: usize = lo;
    while k < hi
        invariant
            lo <= k <= hi <= indices@.len(),
            engine.ready(),
            engine.lost() == old(engine).lost(),
            hist.inv(),
            hist@.len() == k - lo,
            old(engine).answers() ==> {
                &&& engine.answers()
                &&& engine.pairs() == old(engine).pairs()
                &&& forall|j: int|
                    lo <= j < k ==> is_filled(old(engine).pairs(), #[trigger] indices@[j])
            },
            old(engine).known() ==> {
                &&& engine.known()
                &&& engine.pairs() == old(engine).pairs()
                &&& forall|j: int|
                    lo <= j < k ==> is_filled(old(engine).pairs(), #[trigger] indices@[j])
            },
        decreases hi - k,
    {
        let i: u64 = indices[k];
        let key = workload::key_for(i);
        let start = clock::now();
        let got = match engine.get(&key) {
            Ok(got) => got,
            Err(e) => {
                return Err(e);
            },
        };
        hist.record(clock::nanos_since(start));
        assert(indices@[k as int] == i);
        match check_read(i, &got) {
            ReadCheck::Correct => {},
            ReadCheck::Mismatch => {
                return Err(BenchError::Mismatch);
            },
            ReadCheck::Missing => {
                return Err(BenchError::Missing);
            },
        }
        k = k + 1;
    }
    Ok(hist)
}

/// Reading what a fill wrote finds no wrong value: no index below `n` is unfilled.
pub proof fn lemma_reads_find_fill(m: Map<Seq<u8>, Seq<u8>>, n: u64, indices: Seq<u64>)
    requires
        filled(m, n),
        forall|k: int| 0 <= k < indices.len() ==> #[trigger] indices[k] < n,
    ensures
        forall|k: int| 0 <= k < indices.len() ==> is_filled(m, #[trigger] indices[k]),
{
}

/// The sum of some counts.
pub open spec fn sum(counts: Seq<nat>) -> nat
    decreases counts.len(),
{
    if counts.len() == 0 {
        0
    } else {
        sum(counts.drop_last()) + counts.last()
    }
}

/// The counts of the pairs of `m` in the windows that begin at the given indices.
pub open spec fn window_counts(
    m: Map<Seq<u8>, Seq<u8>>,
    starts: Seq<u64>,
    width: u64,
    counts: Seq<nat>,
) -> bool {
    &&& counts.len() == starts.len()
    &&& forall|k: int|
        0 <= k < starts.len() ==> kv::tallies(
            m,
            kv::window(
                workload::key_bytes(starts[k]),
                workload::key_bytes((starts[k] + width) as u64),
            ),
            #[trigger] counts[k],
        )
}

/// The seed of the point-read phase.
pub fn read_seed(seed: u64) -> (r: u64)
    ensures
        r == seed ^ 0xa5a5u64,
{
    seed ^ 0xa5a5
}

/// The seed of the scan phase.
pub fn scan_seed(seed: u64) -> (r: u64)
    ensures
        r == seed ^ 0x1234u64,
{
    seed ^ 0x1234
}

/// The scan phase: `count` scans of `width` keys each, out of `n`, each from a random
/// key on and each timed. Returns the times and how many pairs the scans visited.
pub fn run_scan<K: KvBench>(engine: &mut K, n: u64, count: usize, width: u64, seed: u64) -> (r:
    BenchResult<(Histogram, u128)>)
    requires
        old(engine).ready(),
    ensures
        final(engine).ready(),
        final(engine).lost() == old(engine).lost(),
        old(engine).answers() ==> final(engine).answers(),
        count == 0 || old(engine).answers() ==> r is Ok,
        r matches Ok(done) ==> done.0.inv() && done.0@.len() == count,
        old(engine).known() ==> {
            &&& final(engine).known()
            &&& final(engine).pairs() == old(engine).pairs()
            &&& r matches Ok(done) ==> exists|counts: Seq<nat>|
                {
                    &&& #[trigger] window_counts(
                        old(engine).pairs(),
                        start_indices(n, count as nat, width, seed),
                        width,
                        counts,
                    )
                    &&& done.1 == sum(counts)
                }
        },
{
    let starts = scan_starts(n, count, width, seed);
    let mut hist = Histogram::with_capacity(count);
    let mut total: u128 = 0;
    let ghost mut counts: Seq<nat> = Seq::empty();
    let mut k: usize = 0;
    while k < starts.len()
        invariant
            k <= starts@.len() == count,
            forall|j: int|
                0 <= j < starts@.len() ==> (n > width ==> #[trigger] starts@[j] + width < n) && (n
                    <= width ==> starts@[j] == 0),
            engine.ready(),
            engine.lost() == old(engine).lost(),
            old(engine).answers() ==> engine.answers(),
            hist.inv(),
            hist@.len() == k,
            counts.len() == k,
            total == sum(counts),
            total <= k * 0xffff_ffff_ffff_ffff,
            old(engine).known() ==> {
                &&& engine.known()
                &&& engine.pairs() == old(engine).pairs()
                &&& window_counts(
                    old(engine).pairs(),
                    starts@.subrange(0, k as int),
                    width,
                    counts,
                )
            },
        decreases starts.len() - k,
    {
        assert(starts@[k as int] + width <= u64::MAX);
        let bounds = scan_bounds(starts[k], width);
        proof {
            let (from, to) = (starts@[k as int], (starts@[k as int] + width) as u64);
            if from < to {
                workload::lemma_keys_sorted(from, to);
                order::lemma_lex_asymmetric(workload::key_bytes(from), workload::key_bytes(to));
            } else {
                order::lemma_lex_irreflexive(workload::key_bytes(from));
            }
        }
        let start = clock::now();
        let visited: usize = match engine.scan_count(&bounds.0, &bounds.1) {
            Ok(visited) => visited,
            Err(e) => {
                return Err(e);
            },
        };
        proof {
            assert(total + visited <= (k + 1) * 0xffff_ffff_ffff_ffff) by (nonlinear_arith)
                requires
                    total <= k * 0xffff_ffff_ffff_ffff,
                    visited <= 0xffff_ffff_ffff_ffff,
            ;
            assert((k + 1) * 0xffff_ffff_ffff_ffff <= u128::MAX) by (nonlinear_arith)
                requires
                    k < 0xffff_ffff_ffff_ffff,
            ;
            let more = counts.push(visited as nat);
            assert(more.drop_last() =~= counts);
            if old(engine).known() {
                let part = starts@.subrange(0, k + 1);
                assert forall|j: int| 0 <= j < part.len() implies kv::tallies(
                    old(engine).pairs(),
                    kv::window(
                        workload::key_bytes(part[j]),
                        workload::key_bytes((part[j] + width) as u64),
                    ),
                    #[trigger] more[j],
                ) by {
                    if j < k {
                        assert(starts@.subrange(0, k as int)[j] == part[j]);
                        assert(more[j] == counts[j]);
                    }
                }
            }
            counts = more;
        }
        total = total + visited as u128;
        hist.record(clock::nanos_since(start));
        k = k + 1;
    }
    assert(starts@.subrange(0, k as int) =~= starts@);
    Ok((hist, total))
}

/// How items are shared: among as many workers as were asked for, or one; each has the same
/// number of items, but the last has what is left over, too, which is less than one for each
/// worker.
pub proof fn lemma_shares_even(n: nat, workers: nat, w: int, v: int)
    requires
        0 <= w < staff(workers) - 1,
        0 <= v < staff(workers) - 1,
    ensures
        staff(workers) == workers,
        share(n, workers, w).1 - share(n, workers, w).0 == share(n, workers, v).1 - share(
            n,
            workers,
            v,
        ).0,
        ({
            let each = share(n, workers, w).1 - share(n, workers, w).0;
            let last = share(n, workers, workers - 1);
            each <= last.1 - last.0 < each + workers
        }),
{
    let s = workers as int;
    let base = n as int / s;
    assert((w + 1) * base == w * base + base && (v + 1) * base == v * base + base && (s - 1) * base
        + base == s * base) by (nonlinear_arith);
    assert(s * base <= n < s * base + s) by (nonlinear_arith)
        requires
            s > 0,
            base == n as int / s,
            n >= 0,
    ;
}

/// One worker, or none, has everything.
pub proof fn lemma_share_alone(n: nat)
    ensures
        staff(0) == 1 && staff(1) == 1,
        share(n, 0, 0) == (0int, n as int),
        share(n, 1, 0) == (0int, n as int),
{
}

/// What merging histograms gives: all their samples, those of the first histogram first.
pub proof fn lemma_samples(hists: Seq<Histogram>, more: Histogram)
    ensures
        all_samples(Seq::empty()) == Seq::<u64>::empty(),
        all_samples(hists.push(more)) == all_samples(hists) + more@,
{
    assert(hists.push(more).drop_last() =~= hists);
}

/// What every plan is like: it begins with a fill if it has any phase, nothing is filled twice,
/// and each read and each scan comes after a flush, which comes after the fill.
pub proof fn lemma_plans(workload: Seq<char>, i: int)
    requires
        0 <= i < phases_of(workload).len(),
    ensures
        phases_of(workload)[0] is Fill,
        i > 0 ==> !(phases_of(workload)[i] is Fill),
        phases_of(workload)[i] is PointRead || phases_of(workload)[i] is ScanRange ==> i > 1
            && phases_of(workload)[1] is Flush,
        phases_of(workload)[i] is Flush ==> i == 1 && phases_of(workload).len() > 2,
{
}

/// A window of keys has those of the indices from its start on, as many as its width.
pub proof fn lemma_window_keys(start: u64, width: u64, i: u64)
    requires
        start + width <= u64::MAX,
    ensures
        kv::window(workload::key_bytes(start), workload::key_bytes((start + width) as u64)).has(
            workload::key_bytes(i),
        ) <==> start <= i < start + width,
{
    let end = (start + width) as u64;
    let key = workload::key_bytes(i);
    order::lemma_lex_irreflexive(key);
    if i < start {
        workload::lemma_keys_sorted(i, start);
    }
    if start < i {
        workload::lemma_keys_sorted(start, i);
        order::lemma_lex_asymmetric(workload::key_bytes(start), key);
    }
    if i < end {
        workload::lemma_keys_sorted(i, end);
    }
    if end < i {
        workload::lemma_keys_sorted(end, i);
        order::lemma_lex_asymmetric(workload::key_bytes(end), key);
    }
}

/// What counts add up to.
pub proof fn lemma_sum(counts: Seq<nat>, more: nat)
    ensures
        sum(Seq::empty()) == 0,
        sum(counts.push(more)) == sum(counts) + more,
{
    assert(counts.push(more).drop_last() =~= counts);
}

/// Where scans begin: at indices that are drawn from all those that leave room for a window,
/// or at the first where there is no such choice.
pub proof fn lemma_starts(n: u64, count: nat, window: u64, seed: u64)
    ensures
        start_indices(n, count, window, seed).len() == count,
        n > window ==> exists|states: Seq<StdRng>| #[trigger]
            workload::draws(
                states,
                seed,
                (n - window - 1) as u64,
                start_indices(n, count, window, seed),
            ),
        n <= window ==> exists|states: Seq<StdRng>| #[trigger]
            workload::draws(states, seed, 0, start_indices(n, count, window, seed)),
{
    if n > window {
        workload::lemma_drawn(seed, (n - window) as u64, count, count);
    } else {
        workload::lemma_drawn(seed, 1, count, count);
    }
}

/// What scans of a store count that holds the pairs of a fill of `n` indices and no others:
/// each window that lies within them, as many pairs as it is wide.
pub proof fn lemma_scans_count(
    m: Map<Seq<u8>, Seq<u8>>,
    n: u64,
    starts: Seq<u64>,
    width: u64,
    counts: Seq<nat>,
    k: int,
)
    requires
        window_counts(m, starts, width, counts),
        forall|key: Seq<u8>| #[trigger]
            m.contains_key(key) <==> exists|i: u64| i < n && key == #[trigger] workload::key_bytes(
                i,
            ),
        0 <= k < starts.len(),
        starts[k] + width <= n,
    ensures
        counts.len() == starts.len(),
        counts[k] == width,
{
    let start = starts[k];
    let end = (start + width) as u64;
    let range = kv::window(workload::key_bytes(start), workload::key_bytes(end));
    let keys = Seq::new(width as nat, |j: int| workload::key_bytes((start + j) as u64));
    assert(kv::tallies(m, range, counts[k]));
    assert forall|a: int, b: int| 0 <= a < b < keys.len() implies order::lex_lt(
        #[trigger] keys[a],
        #[trigger] keys[b],
    ) by {
        workload::lemma_keys_sorted((start + a) as u64, (start + b) as u64);
    }
    assert(keys.no_duplicates()) by {
        assert forall|a: int, b: int| 0 <= a < keys.len() && 0 <= b < keys.len() && a != b implies
            keys[a] != keys[b] by {
            order::lemma_lex_irreflexive(keys[a]);
            if a < b {
                assert(order::lex_lt(keys[a], keys[b]));
            } else {
                assert(order::lex_lt(keys[b], keys[a]));
            }
        }
    }
    assert forall|key: Seq<u8>| #[trigger] keys.contains(key) <==> m.contains_key(key) && range.has(
        key,
    ) by {
        if keys.contains(key) {
            let j = choose|j: int| 0 <= j < keys.len() && keys[j] == key;
            let i = (start + j) as u64;
            assert(key == workload::key_bytes(i));
            lemma_window_keys(start, width, i);
        }
        if m.contains_key(key) && range.has(key) {
            let i = choose|i: u64| i < n && key == #[trigger] workload::key_bytes(i);
            lemma_window_keys(start, width, i);
            assert(keys[i - start] == key);
        }
    }
    kv::lemma_tallies(m, range, counts[k], keys);
}

/// Which phases a workload has: reads if it is named after them or is all of them, scans
/// likewise, and a fill in the order that it names, which is random unless it says otherwise.
/// A name that is not known has none.
pub proof fn lemma_named_phases(workload: Seq<char>)
    ensures
        phases_of(workload).contains(Phase::PointRead) <==> workload == "point-read"@ || workload
            == "all"@,
        phases_of(workload).contains(Phase::ScanRange) <==> workload == "scan"@ || workload
            == "all"@,
        phases_of(workload).contains(Phase::Fill(FillOrder::Sequential)) <==> workload
            == "fill-seq"@,
        phases_of(workload).contains(Phase::Fill(FillOrder::Random)) <==> workload
            == "fill-random"@ || workload == "point-read"@ || workload == "scan"@ || workload
            == "all"@,
{
    reveal_strlit("fill-seq");
    reveal_strlit("fill-random");
    reveal_strlit("point-read");
    reveal_strlit("scan");
    reveal_strlit("all");
    assert("fill-seq"@.len() == 8 && "fill-random"@.len() == 11 && "point-read"@.len() == 10
        && "scan"@.len() == 4 && "all"@.len() == 3);
    let phases = phases_of(workload);
    if workload == "fill-seq"@ || workload == "fill-random"@ {
        assert(phases.len() == 1);
        assert(phases.contains(phases[0]));
    } else if phases.len() > 0 {
        assert(phases.contains(phases[0]));
        assert(phases.contains(phases[2]));
        if phases.len() > 3 {
            assert(phases.contains(phases[3]));
        }
    }
}

} // verus!
