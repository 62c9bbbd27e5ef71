//! An exact latency histogram: record every sample, read percentiles off the sorted
//! samples.
//!
//! Raw nanosecond samples are kept rather than buckets: percentiles are then exact,
//! by the nearest-rank method.

use vstd::prelude::*;

verus! {

/// Accumulates per-operation latencies, in nanoseconds, for one workload phase.
#[derive(Debug)]
pub struct Histogram {
    /// The samples in the order in which they were recorded.
    samples: Vec<u64>,
    /// The samples in ascending order, if they were sorted since the last was recorded.
    sorted: Option<Vec<u64>>,
}

/// The samples ascend.
pub open spec fn ascends(s: Seq<u64>) -> bool {
    forall|i: int, j: int| 0 <= i <= j < s.len() ==> #[trigger] s[i] <= #[trigger] s[j]
}

/// The sum of the samples.
pub open spec fn total(s: Seq<u64>) -> nat
    decreases s.len(),
{
    if s.len() == 0 {
        0
    } else {
        total(s.drop_last()) + s.last() as nat
    }
}

/// The sample of the given rank, counted from one, among `n`: a rank outside the
/// range stands for the nearest one in it.
pub open spec fn nearest(rank: nat, n: nat) -> int {
    if rank < 1 {
        0
    } else if rank > n {
        n - 1
    } else {
        rank - 1
    }
}

/// Calls `slice::sort_unstable`: the same numbers, in ascending order.
#[verifier::external_body]
fn sort_numbers(v: &mut Vec<u64>)
    ensures
        final(v)@.to_multiset() == old(v)@.to_multiset(),
        ascends(final(v)@),
{
    v.sort_unstable();
}

/// A permutation has the length, and the members, of what it permutes.
proof fn lemma_permuted(a: Seq<u64>, b: Seq<u64>)
    requires
        a.to_multiset() == b.to_multiset(),
    ensures
        a.len() == b.len(),
        forall|x: u64| #[trigger] a.contains(x) <==> b.contains(x),
{
    broadcast use vstd::seq_lib::group_to_multiset_ensures;

    assert(a.len() == a.to_multiset().len());
    assert(b.len() == b.to_multiset().len());
    assert forall|x: u64| #[trigger] a.contains(x) <==> b.contains(x) by {
        assert(a.contains(x) <==> a.to_multiset().count(x) > 0);
        assert(b.contains(x) <==> b.to_multiset().count(x) > 0);
    }
}

/// `s` has the samples of `all`, in ascending order.
pub open spec fn in_order_of(s: Seq<u64>, all: Seq<u64>) -> bool {
    s.to_multiset() == all.to_multiset() && ascends(s)
}

/// Samples have one ascending order.
proof fn lemma_sorted_unique(a: Seq<u64>, b: Seq<u64>)
    requires
        a.to_multiset() == b.to_multiset(),
        ascends(a),
        ascends(b),
    ensures
        a == b,
{
    let leq = |x: u64, y: u64| x <= y;
    assert(vstd::relations::total_ordering(leq));
    assert(vstd::relations::sorted_by(a, leq));
    assert(vstd::relations::sorted_by(b, leq));
    vstd::seq_lib::lemma_sorted_unique(a, b, leq);
}

/// Samples have an ascending order.
pub proof fn lemma_has_order(all: Seq<u64>) -> (s: Seq<u64>)
    ensures
        in_order_of(s, all),
{
    let leq = |x: u64, y: u64| x <= y;
    assert(vstd::relations::total_ordering(leq));
    all.lemma_sort_by_ensures(leq);
    let s = all.sort_by(leq);
    assert(ascends(s)) by {
        assert forall|i: int, j: int| 0 <= i <= j < s.len() implies #[trigger] s[i]
            <= #[trigger] s[j] by {
            if i < j {
                assert(leq(s[i], s[j]));
            }
        }
    }
    s
}

/// Those of some samples that pass, of three parts.
proof fn lemma_filter_parts(a: Seq<u64>, j: int, f: spec_fn(u64) -> bool)
    requires
        0 <= j < a.len(),
    ensures
        a.filter(f).len() == a.remove(j).filter(f).len() + if f(a[j]) {
            1int
        } else {
            0
        },
{
    let one = seq![a[j]];
    assert(a =~= a.take(j) + one + a.skip(j + 1));
    assert(a.remove(j) =~= a.take(j) + a.skip(j + 1));
    Seq::filter_distributes_over_add(a.take(j) + one, a.skip(j + 1), f);
    Seq::filter_distributes_over_add(a.take(j), one, f);
    Seq::filter_distributes_over_add(a.take(j), a.skip(j + 1), f);
    reveal(Seq::filter);
    assert(one.drop_last() =~= Seq::empty());
    assert(one.drop_last().filter(f) =~= Seq::empty());
}

/// As many samples pass in whatever order they are.
proof fn lemma_filter_permuted(a: Seq<u64>, b: Seq<u64>, f: spec_fn(u64) -> bool)
    requires
        a.to_multiset() == b.to_multiset(),
    ensures
        a.filter(f).len() == b.filter(f).len(),
    decreases a.len(),
{
    lemma_permuted(a, b);
    if a.len() > 0 {
        let last = a.len() - 1;
        assert(a.contains(a[last]));
        assert(b.contains(a[last]));
        let j = choose|j: int| 0 <= j < b.len() && b[j] == a[last];
        lemma_filter_parts(a, last, f);
        lemma_filter_parts(b, j, f);
        a.to_multiset_ensures();
        b.to_multiset_ensures();
        assert(a.remove(last).to_multiset() =~= a.to_multiset().remove(a[last]));
        assert(b.remove(j).to_multiset() =~= b.to_multiset().remove(b[j]));
        lemma_filter_permuted(a.remove(last), b.remove(j), f);
    } else {
        assert(a =~= b);
    }
}

/// Where all samples pass they all count, and where none does none.
proof fn lemma_filter_all(a: Seq<u64>, f: spec_fn(u64) -> bool)
    ensures
        (forall|i: int| 0 <= i < a.len() ==> f(#[trigger] a[i])) ==> a.filter(f).len() == a.len(),
        (forall|i: int| 0 <= i < a.len() ==> !f(#[trigger] a[i])) ==> a.filter(f).len() == 0,
        a.filter(f).len() <= a.len(),
    decreases a.len(),
{
    reveal(Seq::filter);
    if a.len() > 0 {
        lemma_filter_all(a.drop_last(), f);
    }
}

/// What the sample of a rank is: one of the samples, with so many that are no greater, itself
/// among them, and fewer that are less.
pub open spec fn has_rank(all: Seq<u64>, rank: int, r: u64) -> bool {
    &&& all.contains(r)
    &&& all.filter(|x: u64| x <= r).len() >= rank
    &&& all.filter(|x: u64| x < r).len() < rank
}

/// The sample that is read off for a rank has that rank, and for a rank outside the range
/// the nearest one in it. There is only one such sample.
pub proof fn lemma_rank(all: Seq<u64>, s: Seq<u64>, rank: nat)
    requires
        all.len() > 0,
        in_order_of(s, all),
    ensures
        s.len() == all.len(),
        0 <= nearest(rank, all.len()) < s.len(),
        1 <= rank <= all.len() ==> has_rank(all, rank as int, s[nearest(rank, all.len())]),
        rank < 1 ==> has_rank(all, 1, s[nearest(rank, all.len())]),
        rank > all.len() ==> has_rank(all, all.len() as int, s[nearest(rank, all.len())]),
        forall|r: u64, t: u64, k: int|
            #![trigger has_rank(all, k, r), has_rank(all, k, t)]
            has_rank(all, k, r) && has_rank(all, k, t) ==> r == t,
{
    lemma_permuted(s, all);
    let at = nearest(rank, all.len());
    let r = s[at];
    let le = |x: u64| x <= r;
    let lt = |x: u64| x < r;
    assert(s.contains(r));
    lemma_filter_permuted(s, all, le);
    lemma_filter_permuted(s, all, lt);
    assert(s =~= s.take(at + 1) + s.skip(at + 1));
    assert(s =~= s.take(at) + s.skip(at));
    Seq::filter_distributes_over_add(s.take(at + 1), s.skip(at + 1), le);
    Seq::filter_distributes_over_add(s.take(at), s.skip(at), lt);
    lemma_filter_all(s.take(at + 1), le);
    lemma_filter_all(s.take(at), lt);
    lemma_filter_all(s.skip(at), lt);
    assert forall|r: u64, t: u64, k: int|
        #![trigger has_rank(all, k, r), has_rank(all, k, t)]
        has_rank(all, k, r) && has_rank(all, k, t) implies r == t by {
        lemma_rank_order(all, k, r, t);
        lemma_rank_order(all, k, t, r);
    }
}

/// No sample of a rank is less than another of that rank.
proof fn lemma_rank_order(all: Seq<u64>, k: int, r: u64, t: u64)
    requires
        has_rank(all, k, r),
        has_rank(all, k, t),
    ensures
        r >= t,
{
    if r < t {
        lemma_filter_implies(all, |x: u64| x <= r, |x: u64| x < t);
    }
}

/// More samples pass a weaker test.
proof fn lemma_filter_implies(a: Seq<u64>, f: spec_fn(u64) -> bool, g: spec_fn(u64) -> bool)
    requires
        forall|x: u64| #[trigger] f(x) ==> g(x),
    ensures
        a.filter(f).len() <= a.filter(g).len(),
    decreases a.len(),
{
    reveal(Seq::filter);
    if a.len() > 0 {
        lemma_filter_implies(a.drop_last(), f, g);
    }
}

/// The mean of samples that lie between two numbers lies between them, and one more sample
/// adds itself to the sum.
pub proof fn lemma_mean(all: Seq<u64>, low: u64, high: u64, more: u64)
    requires
        forall|i: int| 0 <= i < all.len() ==> low <= #[trigger] all[i] <= high,
    ensures
        all.len() > 0 ==> low <= total(all) / all.len() <= high,
        all.len() > 0 ==> total(all) - all.len() < all.len() * (total(all) / all.len()) <= total(
            all,
        ),
        total(all.push(more)) == total(all) + more,
        total(Seq::empty()) == 0,
{
    lemma_total_between(all, low, high);
    assert(all.push(more).drop_last() =~= all);
    if all.len() > 0 {
        let sum = total(all) as int;
        let n = all.len() as int;
        assert(low <= sum / n <= high && sum - n < n * (sum / n) <= sum) by (nonlinear_arith)
            requires
                n > 0,
                n * low <= sum <= n * high,
        ;
    }
}

proof fn lemma_total_between(all: Seq<u64>, low: u64, high: u64)
    requires
        forall|i: int| 0 <= i < all.len() ==> low <= #[trigger] all[i] <= high,
    ensures
        all.len() * low <= total(all) <= all.len() * high,
    decreases all.len(),
{
    if all.len() > 0 {
        let front = all.drop_last();
        assert forall|i: int| 0 <= i < front.len() implies low <= #[trigger] front[i] <= high by {
            assert(front[i] == all[i]);
        }
        lemma_total_between(front, low, high);
        assert(low <= all[all.len() - 1] <= high);
        let n = all.len() as int;
        assert(n * low == (n - 1) * low + low) by (nonlinear_arith);
        assert(n * high == (n - 1) * high + high) by (nonlinear_arith);
    } else {
        assert(all.len() * low == 0 && all.len() * high == 0) by (nonlinear_arith)
            requires
                all.len() == 0,
        ;
    }
}

impl View for Histogram {
    type V = Seq<u64>;

    /// The samples, in the order in which they were recorded.
    closed spec fn view(&self) -> Seq<u64> {
        self.samples@
    }
}

impl Default for Histogram {
    fn default() -> (h: Self)
        ensures
            h.inv(),
            h@ == Seq::<u64>::empty(),
    {
        Histogram { samples: Vec::new(), sorted: None }
    }
}

impl Histogram {
    /// What was sorted are the samples.
    pub closed spec fn inv(&self) -> bool {
        self.sorted matches Some(s) ==> in_order_of(s@, self.samples@)
    }

    /// A histogram with memory for `expected` samples.
    pub fn with_capacity(expected: usize) -> (h: Self)
        ensures
            h.inv(),
            h@ == Seq::<u64>::empty(),
    {
        Histogram { samples: Vec::with_capacity(expected), sorted: None }
    }

    /// Records one latency sample in nanoseconds.
    pub fn record(&mut self, nanos: u64)
        ensures
            final(self).inv(),
            final(self)@ == old(self)@.push(nanos),
    {
        self.samples.push(nanos);
        self.sorted = None;
    }

    /// Number of recorded samples.
    pub fn len(&self) -> (n: usize)
        ensures
            n == self@.len(),
    {
        self.samples.len()
    }

    /// The samples, in nanoseconds, in the order in which they were recorded.
    pub fn samples_slice(&self) -> (s: &[u64])
        ensures
            s@ == self@,
    {
        self.samples.as_slice()
    }

    /// Whether no samples were recorded.
    pub fn is_empty(&self) -> (r: bool)
        ensures
            r == (self@.len() == 0),
    {
        self.samples.len() == 0
    }

    /// Sorts a copy of the samples, unless there is one.
    fn ensure_sorted(&mut self)
        requires
            old(self).inv(),
        ensures
            final(self).inv(),
            final(self)@ == old(self)@,
            final(self).sorted is Some,
    {
        if self.sorted.is_none() {
            let mut copy: Vec<u64> = self.samples.clone();
            assert(copy@ =~= self.samples@);
            sort_numbers(&mut copy);
            self.sorted = Some(copy);
        }
    }

    /// The sample of the given rank among the sorted ones, counted from one, or 0 if
    /// there are none. A rank outside the range stands for the nearest one in it.
    pub fn at_rank(&mut self, rank: usize) -> (r: u64)
        requires
            old(self).inv(),
        ensures
            final(self).inv(),
            final(self)@ == old(self)@,
            old(self)@.len() == 0 ==> r == 0,
            old(self)@.len() > 0 ==> forall|s: Seq<u64>| #[trigger]
                in_order_of(s, old(self)@) ==> r == s[nearest(rank as nat, old(self)@.len())],
            1 <= rank <= old(self)@.len() ==> has_rank(old(self)@, rank as int, r),
    {
        if self.samples.len() == 0 {
            return 0;
        }
        self.ensure_sorted();
        let sorted: &Vec<u64> = match &self.sorted {
            Some(v) => v,
            None => {
                assert(false);
                &self.samples
            },
        };
        proof {
            lemma_permuted(sorted@, self.samples@);
            assert forall|s: Seq<u64>| #[trigger] in_order_of(s, self.samples@) implies s
                == sorted@ by {
                lemma_sorted_unique(s, sorted@);
            }
            lemma_rank(self.samples@, sorted@, rank as nat);
        }
        let n: usize = sorted.len();
        let at: usize = if rank < 1 {
            0
        } else if rank > n {
            n - 1
        } else {
            rank - 1
        };
        sorted[at]
    }

    /// The least sample in nanoseconds, or 0 if there are none.
    pub fn min(&mut self) -> (r: u64)
        requires
            old(self).inv(),
        ensures
            final(self).inv(),
            final(self)@ == old(self)@,
            old(self)@.len() == 0 ==> r == 0,
            old(self)@.len() > 0 ==> old(self)@.contains(r) && forall|i: int|
                0 <= i < old(self)@.len() ==> r <= #[trigger] old(self)@[i],
    {
        let ghost before = self.samples@;
        let r: u64 = self.at_rank(1);
        proof {
            if before.len() > 0 {
                let s = lemma_has_order(before);
                lemma_permuted(s, before);
                assert(s.contains(r));
                assert forall|i: int| 0 <= i < before.len() implies r <= #[trigger] before[i] by {
                    assert(before.contains(before[i]));
                    assert(s.contains(before[i]));
                    let j = choose|j: int| 0 <= j < s.len() && s[j] == before[i];
                    assert(s[0] <= s[j]);
                }
            }
        }
        r
    }

    /// The greatest sample in nanoseconds, or 0 if there are none.
    pub fn max(&mut self) -> (r: u64)
        requires
            old(self).inv(),
        ensures
            final(self).inv(),
            final(self)@ == old(self)@,
            old(self)@.len() == 0 ==> r == 0,
            old(self)@.len() > 0 ==> old(self)@.contains(r) && forall|i: int|
                0 <= i < old(self)@.len() ==> #[trigger] old(self)@[i] <= r,
    {
        let ghost before = self.samples@;
        let n: usize = self.samples.len();
        let r: u64 = self.at_rank(n);
        proof {
            if before.len() > 0 {
                let s = lemma_has_order(before);
                lemma_permuted(s, before);
                assert(s.contains(r));
                assert forall|i: int| 0 <= i < before.len() implies #[trigger] before[i] <= r by {
                    assert(before.contains(before[i]));
                    assert(s.contains(before[i]));
                    let j = choose|j: int| 0 <= j < s.len() && s[j] == before[i];
                    assert(s[j] <= s[before.len() - 1]);
                }
            }
        }
        r
    }

    /// The arithmetic mean in nanoseconds, rounded down, or 0 if there are no samples.
    pub fn mean(&self) -> (r: u64)
        ensures
            self@.len() == 0 ==> r == 0,
            self@.len() > 0 ==> r == total(self@) / self@.len(),
    {
        let n: usize = self.samples.len();
        if n == 0 {
            return 0;
        }
        let mut sum: u128 = 0;
        let mut i: usize = 0;
        assert(self.samples@.take(0) =~= Seq::empty());
        while i < n
            invariant
                i <= n,
                n == self.samples@.len(),
                sum == total(self.samples@.take(i as int)),
                sum <= i * u64::MAX,
            decreases n - i,
        {
            proof {
                assert(self.samples@.take(i + 1).drop_last() =~= self.samples@.take(i as int));
                assert(i * u64::MAX + u64::MAX <= u128::MAX) by (nonlinear_arith)
                    requires
                        i <= u64::MAX,
                ;
                assert((i + 1) * u64::MAX == i * u64::MAX + u64::MAX) by (nonlinear_arith);
            }
            sum = sum + self.samples[i] as u128;
            i = i + 1;
        }
        proof {
            assert(self.samples@.take(n as int) =~= self.samples@);
            assert(0 <= sum / (n as u128) <= u64::MAX) by (nonlinear_arith)
                requires
                    sum <= n * u64::MAX,
                    n > 0,
            ;
        }
        (sum / n as u128) as u64
    }
}

} // verus!
