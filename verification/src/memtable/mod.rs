//! The in-memory write buffer: sorted tables, with a size-triggered freeze that
//! keeps reads correct while a frozen buffer is being flushed.
//!
//! * [`Memtable`] is one sorted table with an approximate byte accounting. The
//!   active table is mutated in place; a frozen one is shared and never changes.
//! * [`MemtableSet`] owns the active table and the frozen ones. A freeze moves the
//!   active table onto the frozen list and installs an empty one in its place.
//!
//! A frozen table stays readable until the flusher discards it, which it does
//! only once the table on disk that supersedes it is installed: a key is covered
//! by both, never by neither.

use std::sync::Arc;

use vstd::prelude::*;

use crate::model;
use crate::model::Rec;
use crate::order;
use crate::order::Position;
use crate::range::KeyRange;

verus! {

/// A logical timestamp assigned to every write: the higher one is newer.
pub type SeqNo = u64;

/// One key with the versioned value that wins for it in a single source.
pub type Entry = (Vec<u8>, InternalValue);

/// What a versioned value is: a live value or a deletion marker.
#[derive(Debug, PartialEq, Eq)]
pub enum ValueKind {
    /// A live value.
    Value(Vec<u8>),
    /// A deletion marker shadowing any older value for the same key.
    Tombstone,
}

impl View for ValueKind {
    type V = Option<Seq<u8>>;

    open spec fn view(&self) -> Option<Seq<u8>> {
        match self {
            ValueKind::Value(v) => Some(v@),
            ValueKind::Tombstone => None,
        }
    }
}

impl Clone for ValueKind {
    fn clone(&self) -> (r: Self)
        ensures
            r@ == self@,
    {
        match self {
            ValueKind::Value(v) => ValueKind::Value(v.clone()),
            ValueKind::Tombstone => ValueKind::Tombstone,
        }
    }
}

/// A value tagged with the sequence number of the write that produced it.
#[derive(Debug, PartialEq, Eq)]
pub struct InternalValue {
    /// The sequence number of the write that produced this value.
    pub seq: SeqNo,
    /// Whether this is a live value or a tombstone.
    pub kind: ValueKind,
}

impl View for InternalValue {
    type V = (u64, Option<Seq<u8>>);

    open spec fn view(&self) -> (u64, Option<Seq<u8>>) {
        (self.seq, self.kind@)
    }
}

impl Clone for InternalValue {
    fn clone(&self) -> (r: Self)
        ensures
            r@ == self@,
    {
        InternalValue { seq: self.seq, kind: self.kind.clone() }
    }
}

impl InternalValue {
    /// A live value written at `seq`.
    pub fn value(seq: SeqNo, value: Vec<u8>) -> (v: Self)
        ensures
            v@ == (seq, Some(value@)),
    {
        InternalValue { seq, kind: ValueKind::Value(value) }
    }

    /// A tombstone written at `seq`.
    pub fn tombstone(seq: SeqNo) -> (v: Self)
        ensures
            v@ == (seq, None::<Seq<u8>>),
    {
        InternalValue { seq, kind: ValueKind::Tombstone }
    }

    /// Whether this value is a tombstone.
    pub fn is_tombstone(&self) -> (r: bool)
        ensures
            r == (self@.1 is None),
    {
        match self.kind {
            ValueKind::Value(_) => false,
            ValueKind::Tombstone => true,
        }
    }

    /// The live bytes, or `None` if this is a tombstone.
    pub fn as_value(&self) -> (r: Option<&[u8]>)
        ensures
            match r {
                Some(v) => self@.1 == Some(v@),
                None => self@.1 is None,
            },
    {
        match &self.kind {
            ValueKind::Value(v) => Some(v.as_slice()),
            ValueKind::Tombstone => None,
        }
    }

    /// Length of the value.
    fn payload_bytes(&self) -> (n: usize)
        ensures
            n == payload_len(self@.1),
    {
        match &self.kind {
            ValueKind::Value(v) => v.len(),
            ValueKind::Tombstone => 0,
        }
    }
}

/// The length of a value; a deletion has none.
pub open spec fn payload_len(val: Option<Seq<u8>>) -> nat {
    match val {
        Some(v) => v.len(),
        None => 0,
    }
}

/// The record that an entry is.
pub open spec fn rec_of(e: Entry) -> Rec {
    Rec { key: e.0@, seq: e.1.seq, val: e.1.kind@ }
}

/// The records that entries are.
pub open spec fn recs_of(v: Seq<Entry>) -> Seq<Rec> {
    Seq::new(v.len(), |i: int| rec_of(v[i]))
}

/// A copy of the entries whose keys are in `range`, in their order.
pub fn within(entries: &Vec<Entry>, range: &KeyRange) -> (out: Vec<Entry>)
    ensures
        recs_of(out@) == recs_of(entries@).filter(|x: Rec| range@.has(x.key)),
{
    let mut out: Vec<Entry> = Vec::new();
    let mut i: usize = 0;
    let ghost recs = recs_of(entries@);
    let ghost keep = |x: Rec| range@.has(x.key);
    proof {
        reveal(Seq::filter);
        assert(recs.take(0) =~= Seq::empty());
        assert(recs_of(out@) =~= recs.take(0).filter(keep));
    }
    while i < entries.len()
        invariant
            i <= entries@.len(),
            recs == recs_of(entries@),
            keep == (|x: Rec| range@.has(x.key)),
            recs_of(out@) == recs.take(i as int).filter(keep),
        decreases entries.len() - i,
    {
        proof {
            reveal(Seq::filter);
            assert(recs.take(i + 1).drop_last() =~= recs.take(i as int));
            assert(recs.take(i + 1).last() == rec_of(entries@[i as int]));
        }
        if range.contains(&entries[i].0) {
            let ghost before = recs_of(out@);
            let e: Entry = clone_entry(&entries[i]);
            out.push(e);
            assert(recs_of(out@) =~= before.push(recs[i as int]));
        }
        i = i + 1;
    }
    assert(recs.take(i as int) =~= recs);
    out
}

/// A copy of an entry.
pub fn clone_entry(e: &Entry) -> (r: Entry)
    ensures
        rec_of(r) == rec_of(*e),
{
    (e.0.clone(), e.1.clone())
}

/// Fixed per-entry bookkeeping charge, so that a table full of tiny keys
/// eventually freezes too.
pub const ENTRY_OVERHEAD: usize = 32;

/// The total length of the keys in a run.
spec fn key_total(run: Seq<Rec>) -> nat
    decreases run.len(),
{
    if run.len() == 0 {
        0
    } else {
        key_total(run.drop_last()) + run.last().key.len()
    }
}

/// The total length of the values in a run.
spec fn payload_total(run: Seq<Rec>) -> nat
    decreases run.len(),
{
    if run.len() == 0 {
        0
    } else {
        payload_total(run.drop_last()) + payload_len(run.last().val)
    }
}

/// The bytes that a run is charged: keys, values and a fixed charge per entry.
pub open spec fn footprint(run: Seq<Rec>) -> nat
    decreases run.len(),
{
    if run.len() == 0 {
        0
    } else {
        footprint(run.drop_last()) + run.last().key.len() + payload_len(run.last().val) + 32
    }
}

proof fn lemma_footprint(run: Seq<Rec>)
    ensures
        footprint(run) == key_total(run) + payload_total(run) + 32 * run.len(),
    decreases run.len(),
{
    if run.len() > 0 {
        lemma_footprint(run.drop_last());
    }
}

proof fn lemma_totals_insert(run: Seq<Rec>, i: int, r: Rec)
    requires
        0 <= i <= run.len(),
    ensures
        key_total(run.insert(i, r)) == key_total(run) + r.key.len(),
        payload_total(run.insert(i, r)) == payload_total(run) + payload_len(r.val),
    decreases run.len(),
{
    let more = run.insert(i, r);
    if i == run.len() {
        assert(more.drop_last() =~= run);
    } else {
        lemma_totals_insert(run.drop_last(), i, r);
        assert(more.drop_last() =~= run.drop_last().insert(i, r));
        assert(more.last() == run.last());
    }
}

proof fn lemma_totals_update(run: Seq<Rec>, i: int, r: Rec)
    requires
        0 <= i < run.len(),
    ensures
        key_total(run.update(i, r)) == key_total(run) - run[i].key.len() + r.key.len(),
        payload_total(run.update(i, r)) == payload_total(run) - payload_len(run[i].val)
            + payload_len(r.val),
        payload_len(run[i].val) <= payload_total(run),
    decreases run.len(),
{
    let other = run.update(i, r);
    if i == run.len() - 1 {
        assert(other.drop_last() =~= run.drop_last());
    } else {
        lemma_totals_update(run.drop_last(), i, r);
        assert(other.drop_last() =~= run.drop_last().update(i, r));
        assert(other.last() == run.last());
    }
}

/// A fitting bound on the total lengths of what memory can hold.
proof fn lemma_totals_bounded(v: Seq<Entry>)
    ensures
        key_total(recs_of(v)) <= v.len() * usize::MAX,
        payload_total(recs_of(v)) <= v.len() * usize::MAX,
    decreases v.len(),
{
    if v.len() > 0 {
        let rest = v.drop_last();
        lemma_totals_bounded(rest);
        assert(recs_of(v).drop_last() =~= recs_of(rest));
        let last = v.last();
        assert(last.0@.len() <= usize::MAX) by {
            assert(last.0@.len() == last.0.len());
        }
        assert(payload_len(last.1.kind@) <= usize::MAX) by {
            match last.1.kind {
                ValueKind::Value(b) => {
                    assert(b@.len() == b.len());
                },
                ValueKind::Tombstone => {},
            }
        }
        assert(v.len() * usize::MAX == rest.len() * usize::MAX + usize::MAX) by (nonlinear_arith)
            requires
                v.len() == rest.len() + 1,
        ;
    }
}

proof fn lemma_product_fits(n: nat)
    requires
        n <= usize::MAX,
    ensures
        n * usize::MAX <= 0xffff_ffff_ffff_fffe_0000_0000_0000_0001,
{
    assert(n * usize::MAX <= 0xffff_ffff_ffff_fffe_0000_0000_0000_0001) by (nonlinear_arith)
        requires
            n <= usize::MAX,
            usize::MAX <= 0xffff_ffff_ffff_ffff,
    ;
}

/// A single sorted in-memory table.
#[derive(Debug)]
pub struct Memtable {
    entries: Vec<Entry>,
    key_bytes: u128,
    payload_bytes: u128,
    /// Which of the tables of its set this is.
    generation: u64,
    /// Whether it is one of the tables of a set.
    in_set: bool,
}

impl View for Memtable {
    type V = Seq<Rec>;

    closed spec fn view(&self) -> Seq<Rec> {
        recs_of(self.entries@)
    }
}

impl Memtable {
    /// The table is a run, and its accounting is right.
    pub closed spec fn inv(&self) -> bool {
        &&& model::is_run(self@)
        &&& self.key_bytes == key_total(self@)
        &&& self.payload_bytes == payload_total(self@)
    }

    /// Which of the tables of its set this is.
    pub closed spec fn identity(&self) -> u64 {
        self.generation
    }

    /// Whether it is one of the tables of a set.
    pub closed spec fn is_member(&self) -> bool {
        self.in_set
    }

    /// What the invariant says of the records: they are a run, each key once and in
    /// order.
    pub proof fn lemma_inv(&self)
        requires
            self.inv(),
        ensures
            model::is_run(self@),
    {
    }

    /// A fresh, empty table of its own.
    pub fn new() -> (t: Self)
        ensures
            t.inv(),
            t@ == Seq::<Rec>::empty(),
            t.identity() == 0,
            !t.is_member(),
    {
        let t = Memtable {
            entries: Vec::new(),
            key_bytes: 0,
            payload_bytes: 0,
            generation: 0,
            in_set: false,
        };
        assert(t@ =~= Seq::empty());
        t
    }

    /// A fresh, empty table of a set.
    fn numbered(generation: u64) -> (t: Self)
        ensures
            t.inv(),
            t@ == Seq::<Rec>::empty(),
            t.identity() == generation,
            t.is_member(),
    {
        let t = Memtable {
            entries: Vec::new(),
            key_bytes: 0,
            payload_bytes: 0,
            generation,
            in_set: true,
        };
        assert(t@ =~= Seq::empty());
        t
    }

    /// How many entries have a key before `key`.
    fn lower_bound(&self, key: &[u8]) -> (at: usize)
        requires
            self.inv(),
        ensures
            at <= self.entries@.len(),
            forall|j: int| 0 <= j < at ==> order::lex_lt((#[trigger] self@[j]).key, key@),
            forall|j: int|
                at <= j < self@.len() ==> !order::lex_lt((#[trigger] self@[j]).key, key@),
    {
        let mut low: usize = 0;
        let mut high: usize = self.entries.len();
        while low < high
            invariant
                self.inv(),
                low <= high <= self.entries@.len(),
                forall|j: int| 0 <= j < low ==> order::lex_lt((#[trigger] self@[j]).key, key@),
                forall|j: int|
                    high <= j < self@.len() ==> !order::lex_lt((#[trigger] self@[j]).key, key@),
            decreases high - low,
        {
            let mid: usize = low + (high - low) / 2;
            let ghost at_mid = self@[mid as int].key;
            assert(at_mid == self.entries@[mid as int].0@);
            match order::position(&self.entries[mid].0, key) {
                Position::Before => {
                    proof {
                        assert forall|j: int| 0 <= j < mid + 1 implies order::lex_lt(
                            (#[trigger] self@[j]).key,
                            key@,
                        ) by {
                            if j < mid {
                                assert(order::lex_lt(self@[j].key, self@[mid as int].key));
                                order::lemma_lex_transitive(self@[j].key, at_mid, key@);
                            }
                        }
                    }
                    low = mid + 1;
                },
                _ => {
                    proof {
                        assert forall|j: int| mid <= j < self@.len() implies !order::lex_lt(
                            (#[trigger] self@[j]).key,
                            key@,
                        ) by {
                            if j > mid && order::lex_lt(self@[j].key, key@) {
                                assert(order::lex_lt(self@[mid as int].key, self@[j].key));
                                order::lemma_lex_transitive(at_mid, self@[j].key, key@);
                            }
                        }
                    }
                    high = mid;
                },
            }
        }
        low
    }

    /// The position of `key`, if it is there.
    fn position_of(&self, key: &[u8]) -> (r: (usize, bool))
        requires
            self.inv(),
        ensures
            r.0 <= self.entries@.len(),
            forall|j: int| 0 <= j < r.0 ==> order::lex_lt((#[trigger] self@[j]).key, key@),
            r.1 ==> r.0 < self.entries@.len() && self@[r.0 as int].key == key@ && model::find(
                self@,
                key@,
            ) == Some(self@[r.0 as int]),
            !r.1 ==> model::find(self@, key@) is None && forall|j: int|
                r.0 <= j < self@.len() ==> order::lex_lt(key@, (#[trigger] self@[j]).key),
    {
        let at: usize = self.lower_bound(key);
        if at < self.entries.len() && order::same_bytes(&self.entries[at].0, key) {
            assert(self@[at as int].key == key@);
            proof {
                model::lemma_find_at(self@, at as int);
            }
            return (at, true);
        }
        proof {
            assert forall|j: int| at <= j < self@.len() implies order::lex_lt(
                key@,
                (#[trigger] self@[j]).key,
            ) by {
                let first = self@[at as int].key;
                assert(first == self.entries@[at as int].0@);
                order::lemma_lex_total(first, key@);
                if j > at {
                    assert(order::lex_lt(self@[at as int].key, self@[j].key));
                    order::lemma_lex_transitive(key@, first, self@[j].key);
                }
            }
            model::lemma_find(self@, key@);
            if model::find(self@, key@) is Some {
                let i = choose|i: int|
                    0 <= i < self@.len() && #[trigger] self@[i] == model::find(self@, key@)->0;
                order::lemma_lex_irreflexive(key@);
                if i < at {
                    assert(order::lex_lt(self@[i].key, key@));
                } else {
                    assert(order::lex_lt(key@, self@[i].key));
                }
            }
        }
        (at, false)
    }

    /// Inserts or overwrites `key` with `val`, keeping the byte accounting
    /// current.
    pub fn insert(&mut self, key: Vec<u8>, val: InternalValue)
        requires
            old(self).inv(),
        ensures
            final(self).inv(),
            final(self).identity() == old(self).identity(),
            final(self).is_member() == old(self).is_member(),
            forall|k: Seq<u8>| #[trigger]
                model::find(final(self)@, k) == if k == key@ {
                    Some(Rec { key: key@, seq: val.seq, val: val.kind@ })
                } else {
                    model::find(old(self)@, k)
                },
            final(self)@.len() == old(self)@.len() + if model::find(old(self)@, key@) is None {
                1nat
            } else {
                0
            },
            model::find(old(self)@, key@) is None ==> footprint(final(self)@) == footprint(
                old(self)@,
            ) + key@.len() + payload_len(val.kind@) + 32,
            model::find(old(self)@, key@) matches Some(prev) ==> footprint(final(self)@)
                == footprint(old(self)@) - payload_len(prev.val) + payload_len(val.kind@),
    {
        let (at, present) = self.position_of(&key);
        let ghost before = self@;
        let ghost r = Rec { key: key@, seq: val.seq, val: val.kind@ };
        let incoming_key: u128 = key.len() as u128;
        let incoming: u128 = val.payload_bytes() as u128;
        proof {
            lemma_footprint(before);
        }
        if present {
            let outgoing: u128 = self.entries[at].1.payload_bytes() as u128;
            let ghost n = self.entries@.len();
            self.entries[at] = (key, val);
            proof {
                assert(self@ =~= before.update(at as int, r));
                lemma_totals_update(before, at as int, r);
                lemma_totals_bounded(self.entries@);
                assert(self.entries@.len() == self.entries.len());
                lemma_product_fits(self.entries@.len());
                lemma_updated(before, at as int, r);
            }
            self.payload_bytes = self.payload_bytes - outgoing + incoming;
        } else {
            let ghost n = self.entries@.len();
            self.entries.insert(at, (key, val));
            proof {
                assert(self@ =~= before.insert(at as int, r));
                lemma_totals_insert(before, at as int, r);
                lemma_totals_bounded(self.entries@);
                assert(self.entries@.len() == self.entries.len());
                lemma_product_fits(self.entries@.len());
                lemma_inserted(before, at as int, r);
            }
            self.key_bytes = self.key_bytes + incoming_key;
            self.payload_bytes = self.payload_bytes + incoming;
        }
        proof {
            lemma_footprint(self@);
        }
    }

    /// Looks up `key` in this table only.
    pub fn get(&self, key: &[u8]) -> (r: Option<&InternalValue>)
        requires
            self.inv(),
        ensures
            match r {
                Some(v) => model::find(self@, key@) == Some(
                    Rec { key: key@, seq: v.seq, val: v.kind@ },
                ),
                None => model::find(self@, key@) is None,
            },
    {
        let (at, present) = self.position_of(key);
        if present {
            assert(self@[at as int] == rec_of(self.entries@[at as int]));
            Some(&self.entries[at].1)
        } else {
            None
        }
    }

    /// Number of distinct keys held.
    pub fn len(&self) -> (n: usize)
        ensures
            n == self@.len(),
    {
        self.entries.len()
    }

    /// Whether the table holds no entries.
    pub fn is_empty(&self) -> (r: bool)
        ensures
            r == (self@.len() == 0),
    {
        self.entries.len() == 0
    }

    /// The table's [`footprint`], as far as a `usize` can say it.
    pub fn approx_bytes(&self) -> (n: usize)
        requires
            self.inv(),
        ensures
            footprint(self@) <= usize::MAX ==> n == footprint(self@),
            footprint(self@) > usize::MAX ==> n == usize::MAX,
    {
        proof {
            lemma_footprint(self@);
            lemma_totals_bounded(self.entries@);
            assert(self.entries@.len() == self.entries.len());
            lemma_product_fits(self.entries@.len());
        }
        let max: u128 = usize::MAX as u128;
        let fixed: u128 = 32 * (self.entries.len() as u128);
        if self.key_bytes > max || self.payload_bytes > max {
            return usize::MAX;
        }
        let total: u128 = self.key_bytes + self.payload_bytes + fixed;
        if total > max {
            usize::MAX
        } else {
            total as usize
        }
    }

    /// Whether the table's [`footprint`] exceeds `limit`.
    fn exceeds(&self, limit: usize) -> (r: bool)
        requires
            self.inv(),
        ensures
            r == (footprint(self@) > limit),
    {
        proof {
            lemma_footprint(self@);
            lemma_totals_bounded(self.entries@);
            assert(self.entries@.len() == self.entries.len());
            lemma_product_fits(self.entries@.len());
        }
        let max: u128 = usize::MAX as u128;
        let fixed: u128 = 32 * (self.entries.len() as u128);
        if self.key_bytes > max || self.payload_bytes > max {
            return true;
        }
        self.key_bytes + self.payload_bytes + fixed > limit as u128
    }

    /// All entries in ascending key order.
    pub fn iter(&self) -> (r: &Vec<Entry>)
        ensures
            recs_of(r@) == self@,
    {
        &self.entries
    }

    /// A copy of every entry, in ascending key order.
    pub fn snapshot(&self) -> (r: Vec<Entry>)
        ensures
            recs_of(r@) == self@,
    {
        let mut out: Vec<Entry> = Vec::new();
        let mut i: usize = 0;
        assert(recs_of(out@) =~= self@.take(0));
        while i < self.entries.len()
            invariant
                i <= self.entries@.len(),
                recs_of(out@) == self@.take(i as int),
            decreases self.entries.len() - i,
        {
            let e: Entry = clone_entry(&self.entries[i]);
            let ghost before = recs_of(out@);
            out.push(e);
            assert(recs_of(out@) =~= before.push(self@[i as int]));
            assert(self@.take(i + 1) =~= self@.take(i as int).push(self@[i as int]));
            i = i + 1;
        }
        assert(self@.take(i as int) =~= self@);
        out
    }

    /// A copy of the entries whose keys are in `range`, in ascending key order.
    pub fn range_snapshot(&self, range: &KeyRange) -> (r: Vec<Entry>)
        requires
            self.inv(),
            range@.in_order(),
        ensures
            recs_of(r@) == self@.filter(|x: Rec| range@.has(x.key)),
    {
        within(&self.entries, range)
    }
}

impl Default for Memtable {
    fn default() -> (t: Self)
        ensures
            t.inv(),
            t@ == Seq::<Rec>::empty(),
    {
        Memtable::new()
    }
}

/// Overwriting a version in a run.
proof fn lemma_updated(run: Seq<Rec>, i: int, r: Rec)
    requires
        model::is_run(run),
        0 <= i < run.len(),
        run[i].key == r.key,
    ensures
        model::is_run(run.update(i, r)),
        forall|k: Seq<u8>| #[trigger]
            model::find(run.update(i, r), k) == if k == r.key {
                Some(r)
            } else {
                model::find(run, k)
            },
{
    let other = run.update(i, r);
    assert forall|a: int, b: int| 0 <= a < b < other.len() implies order::lex_lt(
        (#[trigger] other[a]).key,
        (#[trigger] other[b]).key,
    ) by {
        assert(order::lex_lt(run[a].key, run[b].key));
    }
    assert forall|k: Seq<u8>| #[trigger] model::find(other, k) == if k == r.key {
        Some(r)
    } else {
        model::find(run, k)
    } by {
        if k == r.key {
            model::lemma_find_at(other, i);
        } else {
            model::lemma_find(run, k);
            model::lemma_find(other, k);
            match model::find(run, k) {
                Some(f) => {
                    let j = choose|j: int| 0 <= j < run.len() && #[trigger] run[j] == f;
                    assert(other[j] == f);
                    model::lemma_find_at(other, j);
                },
                None => {
                    if model::find(other, k) is Some {
                        let j = choose|j: int|
                            0 <= j < other.len() && #[trigger] other[j] == model::find(other, k)->0;
                        assert(run[j].key == k);
                    }
                },
            }
        }
    }
}

/// Adding a version where it belongs in a run.
proof fn lemma_inserted(run: Seq<Rec>, i: int, r: Rec)
    requires
        model::is_run(run),
        0 <= i <= run.len(),
        forall|j: int| 0 <= j < i ==> order::lex_lt((#[trigger] run[j]).key, r.key),
        forall|j: int| i <= j < run.len() ==> order::lex_lt(r.key, (#[trigger] run[j]).key),
    ensures
        model::is_run(run.insert(i, r)),
        forall|k: Seq<u8>| #[trigger]
            model::find(run.insert(i, r), k) == if k == r.key {
                Some(r)
            } else {
                model::find(run, k)
            },
{
    let other = run.insert(i, r);
    assert forall|a: int, b: int| 0 <= a < b < other.len() implies order::lex_lt(
        (#[trigger] other[a]).key,
        (#[trigger] other[b]).key,
    ) by {
        let a0 = if a < i { a } else { a - 1 };
        let b0 = if b < i { b } else { b - 1 };
        if a != i {
            assert(other[a] == run[a0]);
        }
        if b != i {
            assert(other[b] == run[b0]);
        }
        if a != i && b != i {
            assert(order::lex_lt(run[a0].key, run[b0].key));
        }
    }
    assert forall|k: Seq<u8>| #[trigger] model::find(other, k) == if k == r.key {
        Some(r)
    } else {
        model::find(run, k)
    } by {
        if k == r.key {
            assert(other[i] == r);
            model::lemma_find_at(other, i);
        } else {
            model::lemma_find(run, k);
            model::lemma_find(other, k);
            match model::find(run, k) {
                Some(f) => {
                    let j = choose|j: int| 0 <= j < run.len() && #[trigger] run[j] == f;
                    let j2 = if j < i { j } else { j + 1 };
                    assert(other[j2] == f);
                    model::lemma_find_at(other, j2);
                },
                None => {
                    if model::find(other, k) is Some {
                        let j = choose|j: int|
                            0 <= j < other.len() && #[trigger] other[j] == model::find(other, k)->0;
                        let j0 = if j < i { j } else { j - 1 };
                        assert(j != i);
                        assert(run[j0].key == k);
                    }
                },
            }
        }
    }
}

/// A run with one version more, or in place of another of its key.
pub proof fn lemma_with(run: Seq<Rec>, r: Rec) -> (more: Seq<Rec>)
    requires
        model::is_run(run),
    ensures
        model::is_run(more),
        forall|k: Seq<u8>| #[trigger]
            model::find(more, k) == if k == r.key {
                Some(r)
            } else {
                model::find(run, k)
            },
        footprint(more) <= footprint(run) + r.key.len() + payload_len(r.val) + 32,
        model::find(run, r.key) is None ==> footprint(more) == footprint(run) + r.key.len()
            + payload_len(r.val) + 32,
        model::find(run, r.key) matches Some(f) ==> footprint(more) + payload_len(f.val)
            == footprint(run) + payload_len(r.val),
{
    model::lemma_find(run, r.key);
    lemma_footprint(run);
    if model::find(run, r.key) is Some {
        let i = choose|i: int|
            0 <= i < run.len() && #[trigger] run[i] == model::find(run, r.key)->0;
        lemma_updated(run, i, r);
        lemma_totals_update(run, i, r);
        lemma_footprint(run.update(i, r));
        run.update(i, r)
    } else {
        let i = lemma_place(run, r.key, run.len() as int);
        lemma_inserted(run, i, r);
        lemma_totals_insert(run, i, r);
        lemma_footprint(run.insert(i, r));
        run.insert(i, r)
    }
}

/// Where a key belongs in a run.
proof fn lemma_place(run: Seq<Rec>, key: Seq<u8>, n: int) -> (i: int)
    requires
        model::is_run(run),
        0 <= n <= run.len(),
        forall|j: int| 0 <= j < run.len() ==> (#[trigger] run[j]).key != key,
        forall|j: int| n <= j < run.len() ==> order::lex_lt(key, (#[trigger] run[j]).key),
    ensures
        0 <= i <= run.len(),
        forall|j: int| 0 <= j < i ==> order::lex_lt((#[trigger] run[j]).key, key),
        forall|j: int| i <= j < run.len() ==> order::lex_lt(key, (#[trigger] run[j]).key),
    decreases n,
{
    if n == 0 {
        0
    } else {
        order::lemma_lex_total(run[n - 1].key, key);
        if order::lex_lt(run[n - 1].key, key) {
            assert forall|j: int| 0 <= j < n implies order::lex_lt((#[trigger] run[j]).key, key) by {
                if j < n - 1 {
                    assert(order::lex_lt(run[j].key, run[n - 1].key));
                    order::lemma_lex_transitive(run[j].key, run[n - 1].key, key);
                }
            }
            n
        } else {
            lemma_place(run, key, n - 1)
        }
    }
}

/// `more` is `run` with `r` in place of what it said of `r`'s key.
pub open spec fn extends(run: Seq<Rec>, r: Rec, more: Seq<Rec>) -> bool {
    &&& model::is_run(more)
    &&& forall|k: Seq<u8>| #[trigger]
        model::find(more, k) == if k == r.key {
            Some(r)
        } else {
            model::find(run, k)
        }
}

/// `run` with `r` in place of what it said of `r`'s key.
pub open spec fn with(run: Seq<Rec>, r: Rec) -> Seq<Rec> {
    choose|more: Seq<Rec>| extends(run, r, more)
}

/// There is one run that extends another in this way.
pub proof fn lemma_extends(run: Seq<Rec>, r: Rec, more: Seq<Rec>)
    requires
        extends(run, r, more),
    ensures
        with(run, r) == more,
{
    let other = with(run, r);
    assert(extends(run, r, other));
    assert forall|k: Seq<u8>| #[trigger] model::find(other, k) == model::find(more, k) by {}
    model::lemma_run_unique(other, more);
}

/// What a run with one record more is charged.
pub proof fn lemma_footprint_with(run: Seq<Rec>, r: Rec)
    requires
        model::is_run(run),
    ensures
        footprint(with(run, r)) <= footprint(run) + r.key.len() + payload_len(r.val) + 32,
{
    let more = lemma_with(run, r);
    assert(extends(run, r, more));
    lemma_extends(run, r, more);
}

/// `run` with each of the records in turn.
pub open spec fn with_all(run: Seq<Rec>, recs: Seq<Rec>) -> Seq<Rec>
    decreases recs.len(),
{
    if recs.len() == 0 {
        run
    } else {
        with(with_all(run, recs.drop_last()), recs.last())
    }
}

/// One record in turn.
pub proof fn lemma_with_all(run: Seq<Rec>, recs: Seq<Rec>, r: Rec)
    ensures
        with_all(run, Seq::empty()) == run,
        with_all(run, recs.push(r)) == with(with_all(run, recs), r),
{
    assert(recs.push(r).drop_last() =~= recs);
}

/// Every record of the run has a sequence number below `next`.
pub open spec fn numbered_below(run: Seq<Rec>, next: int) -> bool {
    forall|i: int| 0 <= i < run.len() ==> (#[trigger] run[i]).seq < next
}

/// A run with one record more has that record's number and those it had.
pub proof fn lemma_numbered_with(run: Seq<Rec>, r: Rec, next: int)
    requires
        model::is_run(run),
        numbered_below(run, next),
        r.seq < next,
    ensures
        numbered_below(with(run, r), next),
        model::is_run(with(run, r)),
{
    let more = lemma_with(run, r);
    assert(extends(run, r, more));
    lemma_extends(run, r, more);
    assert forall|i: int| 0 <= i < more.len() implies (#[trigger] more[i]).seq < next by {
        model::lemma_find_at(more, i);
        let key = more[i].key;
        if key != r.key {
            model::lemma_find(run, key);
            let j = choose|j: int| 0 <= j < run.len() && #[trigger] run[j] == more[i];
            assert(run[j].seq < next);
        }
    }
}

/// `a` and `b` stand for one table: they have the same place in a set, and hold the same
/// records.
pub open spec fn same_table(a: Memtable, b: Memtable) -> bool {
    &&& a.is_member() == b.is_member()
    &&& a.identity() == b.identity()
    &&& a@ == b@
}

/// Whether two values are the same.
fn same_value(a: &InternalValue, b: &InternalValue) -> (r: bool)
    ensures
        r == (a@ == b@),
{
    if a.seq != b.seq {
        return false;
    }
    match (&a.kind, &b.kind) {
        (ValueKind::Value(x), ValueKind::Value(y)) => order::same_bytes(x, y),
        (ValueKind::Tombstone, ValueKind::Tombstone) => true,
        _ => false,
    }
}

impl Memtable {
    /// Whether `other` stands for this table.
    fn is_same(&self, other: &Memtable) -> (r: bool)
        ensures
            r == same_table(*self, *other),
    {
        if self.in_set != other.in_set || self.generation != other.generation
            || self.entries.len() != other.entries.len() {
            assert(self.entries@.len() != other.entries@.len() ==> self@.len() != other@.len());
            return false;
        }
        let mut i: usize = 0;
        while i < self.entries.len()
            invariant
                i <= self.entries@.len(),
                self.entries@.len() == other.entries@.len(),
                forall|j: int| 0 <= j < i ==> #[trigger] self@[j] == other@[j],
            decreases self.entries.len() - i,
        {
            assert(self@[i as int] == rec_of(self.entries@[i as int]));
            assert(other@[i as int] == rec_of(other.entries@[i as int]));
            if !order::same_bytes(&self.entries[i].0, &other.entries[i].0) || !same_value(
                &self.entries[i].1,
                &other.entries[i].1,
            ) {
                assert(self@[i as int] != other@[i as int]);
                return false;
            }
            i = i + 1;
        }
        assert(self@ =~= other@);
        true
    }
}

/// The records of a list of frozen tables, each newest one first.
pub open spec fn newest_first(frozen: Seq<Arc<Memtable>>) -> Seq<Seq<Rec>> {
    Seq::new(frozen.len(), |i: int| frozen[frozen.len() - 1 - i]@)
}

/// The engine's in-memory buffer: one mutable active table and the frozen tables
/// that await flush, oldest first.
///
/// Reads consult the active table first and then the frozen ones, newest first.
#[derive(Debug)]
pub struct MemtableSet {
    active: Memtable,
    frozen: Vec<Arc<Memtable>>,
    max_bytes: usize,
}

impl MemtableSet {
    /// The records in the active table.
    pub closed spec fn buffered(&self) -> Seq<Rec> {
        self.active@
    }

    /// The frozen tables, oldest first.
    pub closed spec fn waiting(&self) -> Seq<Arc<Memtable>> {
        self.frozen@
    }

    /// The size past which the active table is full.
    pub closed spec fn limit(&self) -> usize {
        self.max_bytes
    }

    /// How many tables were frozen, as far as a `u64` can say it.
    pub closed spec fn freezes(&self) -> u64 {
        self.active.generation
    }

    /// What the buffer holds, as a stack of runs, newest first.
    pub open spec fn layers(&self) -> Seq<Seq<Rec>> {
        seq![self.buffered()] + newest_first(self.waiting())
    }

    /// Every table is in order, and each frozen table is one of its own.
    pub closed spec fn inv(&self) -> bool {
        &&& self.active.inv()
        &&& self.active.in_set
        &&& forall|i: int|
            0 <= i < self.frozen@.len() ==> (#[trigger] self.frozen@[i]).inv()
                && self.frozen@[i].in_set
        &&& self.active.generation < u64::MAX ==> {
            &&& forall|i: int|
                0 <= i < self.frozen@.len() ==> (#[trigger] self.frozen@[i]).generation
                    < self.active.generation
            &&& forall|i: int, j: int|
                0 <= i < j < self.frozen@.len() ==> (#[trigger] self.frozen@[i]).generation < (
                #[trigger] self.frozen@[j]).generation
        }
    }

    /// What the invariant says of the tables.
    pub proof fn lemma_inv(&self)
        requires
            self.inv(),
        ensures
            model::is_run(self.buffered()),
            forall|i: int|
                0 <= i < self.waiting().len() ==> model::is_run((#[trigger] self.waiting()[i])@)
                    && self.waiting()[i].is_member(),
            forall|i: int| 0 <= i < self.layers().len() ==> model::is_run(#[trigger] self.layers()[i]),
            self.freezes() < u64::MAX ==> forall|i: int, j: int|
                0 <= i < self.waiting().len() && 0 <= j < self.waiting().len() && i != j ==> (
                #[trigger] self.waiting()[i]).identity() != (
                #[trigger] self.waiting()[j]).identity(),
    {
        assert forall|i: int| 0 <= i < self.layers().len() implies model::is_run(
            #[trigger] self.layers()[i],
        ) by {
            if i > 0 {
                let k = self.frozen@.len() - i;
                assert(self.frozen@[k].inv());
                assert(self.layers()[i] == self.frozen@[k]@);
            }
        }
    }

    /// A set whose active table freezes once it exceeds `max_bytes`.
    pub fn new(max_bytes: usize) -> (s: Self)
        ensures
            s.inv(),
            s.buffered() == Seq::<Rec>::empty(),
            s.waiting() == Seq::<Arc<Memtable>>::empty(),
            s.limit() == max_bytes,
            s.freezes() == 0,
    {
        MemtableSet { active: Memtable::numbered(0), frozen: Vec::new(), max_bytes }
    }

    /// Inserts or overwrites `key` in the active table.
    pub fn insert(&mut self, key: Vec<u8>, val: InternalValue)
        requires
            old(self).inv(),
        ensures
            final(self).inv(),
            forall|k: Seq<u8>| #[trigger]
                model::find(final(self).buffered(), k) == if k == key@ {
                    Some(Rec { key: key@, seq: val.seq, val: val.kind@ })
                } else {
                    model::find(old(self).buffered(), k)
                },
            final(self).buffered() == with(
                old(self).buffered(),
                Rec { key: key@, seq: val.seq, val: val.kind@ },
            ),
            final(self).buffered().len() > 0,
            footprint(final(self).buffered()) <= footprint(old(self).buffered()) + key@.len()
                + payload_len(val.kind@) + 32,
            final(self).waiting() == old(self).waiting(),
            final(self).limit() == old(self).limit(),
            final(self).freezes() == old(self).freezes(),
    {
        let ghost r = Rec { key: key@, seq: val.seq, val: val.kind@ };
        self.active.insert(key, val);
        proof {
            assert(extends(old(self).buffered(), r, self.active@));
            lemma_extends(old(self).buffered(), r, self.active@);
            assert(model::find(self.active@, key@) is Some);
            model::lemma_find(self.active@, key@);
        }
    }

    /// Inserts `key` into the active table unless that holds a version of it
    /// with the same or a higher sequence number.
    pub fn insert_if_newer(&mut self, key: Vec<u8>, val: InternalValue)
        requires
            old(self).inv(),
        ensures
            final(self).inv(),
            forall|k: Seq<u8>| #[trigger]
                model::find(final(self).buffered(), k) == if k == key@ && !(model::find(
                    old(self).buffered(),
                    key@,
                ) matches Some(prev) && prev.seq >= val.seq) {
                    Some(Rec { key: key@, seq: val.seq, val: val.kind@ })
                } else {
                    model::find(old(self).buffered(), k)
                },
            final(self).buffered() == if model::find(
                old(self).buffered(),
                key@,
            ) matches Some(prev) && prev.seq >= val.seq {
                old(self).buffered()
            } else {
                with(old(self).buffered(), Rec { key: key@, seq: val.seq, val: val.kind@ })
            },
            final(self).buffered().len() > 0,
            footprint(final(self).buffered()) <= footprint(old(self).buffered()) + key@.len()
                + payload_len(val.kind@) + 32,
            final(self).waiting() == old(self).waiting(),
            final(self).limit() == old(self).limit(),
            final(self).freezes() == old(self).freezes(),
    {
        match self.active.get(&key) {
            Some(prev) => {
                if prev.seq >= val.seq {
                    proof {
                        model::lemma_find(self.active@, key@);
                    }
                    return;
                }
            },
            None => {},
        }
        self.insert(key, val);
    }

    /// Resolves `key` to its newest version across the active and the frozen
    /// tables, or `None` if no table mentions it. The version may be a
    /// tombstone.
    pub fn get(&self, key: &[u8]) -> (r: Option<InternalValue>)
        requires
            self.inv(),
        ensures
            match r {
                Some(v) => model::top(self.layers(), key@) == Some(
                    Rec { key: key@, seq: v.seq, val: v.kind@ },
                ),
                None => model::top(self.layers(), key@) is None,
            },
    {
        match self.active.get(key) {
            Some(v) => {
                proof {
                    assert(self.layers()[0] == self.active@);
                    model::lemma_top_at(self.layers(), key@, 0);
                }
                return Some(v.clone());
            },
            None => {},
        }
        let mut left: usize = self.frozen.len();
        while left > 0
            invariant
                left <= self.frozen@.len(),
                self.inv(),
                model::find(self.active@, key@) is None,
                forall|j: int|
                    left <= j < self.frozen@.len() ==> model::find(
                        (#[trigger] self.frozen@[j])@,
                        key@,
                    ) is None,
            decreases left,
        {
            left = left - 1;
            assert(self.frozen@[left as int].inv());
            match self.frozen[left].get(key) {
                Some(v) => {
                    proof {
                        let at = self.frozen@.len() - left;
                        assert(self.layers()[at] == self.frozen@[left as int]@);
                        assert forall|j: int| 0 <= j < at implies model::find(
                            #[trigger] self.layers()[j],
                            key@,
                        ) is None by {
                            if j > 0 {
                                assert(self.layers()[j] == self.frozen@[self.frozen@.len() - j]@);
                            }
                        }
                        model::lemma_top_at(self.layers(), key@, at);
                    }
                    return Some(v.clone());
                },
                None => {},
            }
        }
        proof {
            model::lemma_top(self.layers(), key@);
            if model::top(self.layers(), key@) is Some {
                let i = choose|i: int|
                    0 <= i < self.layers().len() && #[trigger] model::find(
                        self.layers()[i],
                        key@,
                    ) == model::top(self.layers(), key@);
                if i > 0 {
                    assert(self.layers()[i] == self.frozen@[self.frozen@.len() - i]@);
                }
            }
        }
        None
    }

    /// Approximate byte footprint of the active table.
    pub fn active_bytes(&self) -> (n: usize)
        requires
            self.inv(),
        ensures
            footprint(self.buffered()) <= usize::MAX ==> n == footprint(self.buffered()),
            footprint(self.buffered()) > usize::MAX ==> n == usize::MAX,
    {
        self.active.approx_bytes()
    }

    /// Whether the active table has grown past its freeze threshold.
    pub fn is_full(&self) -> (r: bool)
        requires
            self.inv(),
        ensures
            r == (footprint(self.buffered()) > self.limit()),
    {
        self.active.exceeds(self.max_bytes)
    }

    /// Number of frozen tables that await flush.
    pub fn frozen_count(&self) -> (n: usize)
        ensures
            n == self.waiting().len(),
    {
        self.frozen.len()
    }

    /// Moves the active table onto the frozen list and installs a fresh empty
    /// one; returns the just-frozen table.
    pub fn freeze(&mut self) -> (r: Arc<Memtable>)
        requires
            old(self).inv(),
        ensures
            final(self).inv(),
            r@ == old(self).buffered(),
            final(self).waiting() == old(self).waiting().push(r),
            final(self).buffered() == Seq::<Rec>::empty(),
            final(self).limit() == old(self).limit(),
            final(self).freezes() == if old(self).freezes() < u64::MAX {
                (old(self).freezes() + 1) as u64
            } else {
                u64::MAX
            },
            r.identity() == old(self).freezes(),
    {
        let mut fresh: Memtable = Memtable::numbered(self.active.generation.saturating_add(1));
        std::mem::swap(&mut fresh, &mut self.active);
        let frozen: Arc<Memtable> = Arc::new(fresh);
        self.frozen.push(Arc::clone(&frozen));
        frozen
    }

    /// Freezes only if the active table is full and not empty; returns the
    /// frozen table when a freeze happened.
    pub fn freeze_if_full(&mut self) -> (r: Option<Arc<Memtable>>)
        requires
            old(self).inv(),
        ensures
            final(self).inv(),
            r is Some <==> old(self).buffered().len() > 0 && footprint(old(self).buffered())
                > old(self).limit(),
            r is None ==> final(self).buffered() == old(self).buffered() && final(self).waiting()
                == old(self).waiting() && final(self).freezes() == old(self).freezes(),
            r matches Some(t) ==> {
                &&& t@ == old(self).buffered()
                &&& final(self).waiting() == old(self).waiting().push(t)
                &&& final(self).buffered() == Seq::<Rec>::empty()
            },
            final(self).limit() == old(self).limit(),
    {
        if self.active.is_empty() || !self.active.exceeds(self.max_bytes) {
            return None;
        }
        Some(self.freeze())
    }

    /// The frozen tables, oldest first.
    pub fn frozen(&self) -> (r: Vec<Arc<Memtable>>)
        ensures
            r@ == self.waiting(),
    {
        let mut out: Vec<Arc<Memtable>> = Vec::new();
        let mut i: usize = 0;
        while i < self.frozen.len()
            invariant
                i <= self.frozen@.len(),
                out@ == self.frozen@.take(i as int),
            decreases self.frozen.len() - i,
        {
            out.push(Arc::clone(&self.frozen[i]));
            assert(out@ =~= self.frozen@.take(i + 1));
            i = i + 1;
        }
        assert(out@ =~= self.frozen@);
        out
    }

    /// Removes `table` from the frozen list, once its contents are durable
    /// elsewhere. Does nothing if it is already gone, or was never one of this set's.
    pub fn discard_frozen(&mut self, table: &Arc<Memtable>)
        requires
            old(self).inv(),
        ensures
            final(self).inv(),
            final(self).waiting() == old(self).waiting().filter(
                |t: Arc<Memtable>| !same_table(*t, **table),
            ),
            final(self).buffered() == old(self).buffered(),
            final(self).limit() == old(self).limit(),
            final(self).freezes() == old(self).freezes(),
    {
        let mut kept: Vec<Arc<Memtable>> = Vec::new();
        let mut i: usize = 0;
        let ghost keep = |t: Arc<Memtable>| !same_table(*t, **table);
        proof {
            reveal(Seq::filter);
            assert(self.frozen@.take(0) =~= Seq::empty());
            assert(kept@ =~= self.frozen@.take(0).filter(keep));
        }
        while i < self.frozen.len()
            invariant
                i <= self.frozen@.len(),
                self.inv(),
                *self == *old(self),
                keep == (|t: Arc<Memtable>| !same_table(*t, **table)),
                kept@ == self.frozen@.take(i as int).filter(keep),
                forall|j: int|
                    0 <= j < kept@.len() ==> (#[trigger] kept@[j]).inv() && kept@[j].in_set,
                self.active.generation < u64::MAX ==> {
                    &&& forall|j: int|
                        0 <= j < kept@.len() ==> (#[trigger] kept@[j]).generation
                            < self.active.generation
                    &&& forall|a: int, b: int|
                        0 <= a < b < kept@.len() ==> (#[trigger] kept@[a]).generation < (
                        #[trigger] kept@[b]).generation
                    &&& forall|j: int, k: int|
                        0 <= j < kept@.len() && i <= k < self.frozen@.len() ==> (
                        #[trigger] kept@[j]).generation < (#[trigger] self.frozen@[k]).generation
                },
            decreases self.frozen.len() - i,
        {
            proof {
                reveal(Seq::filter);
                assert(self.frozen@.take(i + 1).drop_last() =~= self.frozen@.take(i as int));
                assert(self.frozen@.take(i + 1).last() == self.frozen@[i as int]);
            }
            if !self.frozen[i].is_same(table) {
                kept.push(Arc::clone(&self.frozen[i]));
            }
            i = i + 1;
        }
        assert(self.frozen@.take(i as int) =~= self.frozen@);
        self.frozen = kept;
    }

    /// One list of entries per in-memory table, the active one first and then
    /// the frozen ones from the oldest on, each limited to `range`.
    pub fn scan_iters(&self, range: &KeyRange) -> (r: Vec<Vec<Entry>>)
        requires
            self.inv(),
            range@.in_order(),
        ensures
            r@.len() == self.waiting().len() + 1,
            recs_of(r@[0]@) == self.buffered().filter(|x: Rec| range@.has(x.key)),
            forall|i: int|
                1 <= i < r@.len() ==> recs_of((#[trigger] r@[i])@) == self.waiting()[i - 1]@.filter(
                    |x: Rec| range@.has(x.key),
                ),
    {
        let mut out: Vec<Vec<Entry>> = Vec::new();
        out.push(self.active.range_snapshot(range));
        let mut i: usize = 0;
        while i < self.frozen.len()
            invariant
                i <= self.frozen@.len(),
                self.inv(),
                range@.in_order(),
                out@.len() == i + 1,
                recs_of(out@[0]@) == self.active@.filter(|x: Rec| range@.has(x.key)),
                forall|j: int|
                    1 <= j < out@.len() ==> recs_of((#[trigger] out@[j])@) == self.frozen@[j
                        - 1]@.filter(|x: Rec| range@.has(x.key)),
            decreases self.frozen.len() - i,
        {
            assert(self.frozen@[i as int].inv());
            out.push(self.frozen[i].range_snapshot(range));
            i = i + 1;
        }
        out
    }

    /// One list of entries per in-memory table, over every key.
    pub fn full_iters(&self) -> (r: Vec<Vec<Entry>>)
        requires
            self.inv(),
        ensures
            r@.len() == self.waiting().len() + 1,
            recs_of(r@[0]@) == self.buffered(),
            forall|i: int|
                1 <= i < r@.len() ==> recs_of((#[trigger] r@[i])@) == self.waiting()[i - 1]@,
    {
        let mut out: Vec<Vec<Entry>> = Vec::new();
        out.push(self.active.snapshot());
        let mut i: usize = 0;
        while i < self.frozen.len()
            invariant
                i <= self.frozen@.len(),
                out@.len() == i + 1,
                recs_of(out@[0]@) == self.active@,
                forall|j: int|
                    1 <= j < out@.len() ==> recs_of((#[trigger] out@[j])@) == self.frozen@[j - 1]@,
            decreases self.frozen.len() - i,
        {
            out.push(self.frozen[i].snapshot());
            i = i + 1;
        }
        out
    }
}

/// Freezing keeps reads: what the buffer says of a key is what it said before
/// the active table moved onto the frozen list.
pub proof fn lemma_freeze_keeps_reads(before: &MemtableSet, after: &MemtableSet, t: Arc<Memtable>)
    requires
        t@ == before.buffered(),
        after.waiting() == before.waiting().push(t),
        after.buffered() == Seq::<Rec>::empty(),
    ensures
        after.layers() == seq![Seq::<Rec>::empty()] + before.layers(),
        forall|key: Seq<u8>| #[trigger]
            model::top(after.layers(), key) == model::top(before.layers(), key),
{
    assert(newest_first(after.waiting()) =~= before.layers());
    assert forall|key: Seq<u8>| #[trigger] model::top(after.layers(), key) == model::top(
        before.layers(),
        key,
    ) by {
        assert(after.layers().drop_first() =~= before.layers());
        assert(after.layers()[0] =~= Seq::<Rec>::empty());
    }
}

/// What a run is charged: nothing if it is empty, for each entry its key, its value and 32 bytes,
/// and for several runs what each is charged.
pub proof fn lemma_charges(a: Seq<Rec>, b: Seq<Rec>, r: Rec)
    ensures
        footprint(Seq::empty()) == 0,
        footprint(seq![r]) == r.key.len() + 32 + match r.val {
            Some(v) => v.len(),
            None => 0,
        },
        footprint(a + b) == footprint(a) + footprint(b),
    decreases b.len(),
{
    assert(seq![r].drop_last() =~= Seq::empty());
    assert(footprint(seq![r].drop_last()) == 0);
    if b.len() == 0 {
        assert(a + b =~= a);
    } else {
        assert((a + b).drop_last() =~= a + b.drop_last());
        lemma_charges(a, b.drop_last(), r);
    }
}

/// A record put into a run replaces what the run has of its key, and nothing else, and so it is
/// with what the run is charged.
pub proof fn lemma_put_replaces(run: Seq<Rec>, r: Rec, key: Seq<u8>)
    requires
        model::is_run(run),
    ensures
        model::is_run(with(run, r)),
        with(run, r).contains(r),
        key == r.key ==> model::find(with(run, r), key) == Some(r),
        key != r.key ==> model::find(with(run, r), key) == model::find(run, key),
        with(run, r).len() == run.len() + if model::find(run, r.key) is Some {
            0int
        } else {
            1
        },
        model::find(run, r.key) is None ==> footprint(with(run, r)) == footprint(run) + footprint(
            seq![r],
        ),
        model::find(run, r.key) matches Some(f) ==> footprint(with(run, r)) + footprint(seq![f])
            == footprint(run) + footprint(seq![r]),
{
    let more = lemma_with(run, r);
    lemma_charges(run, run, r);
    model::lemma_find(run, r.key);
    if let Some(f) = model::find(run, r.key) {
        lemma_charges(run, run, f);
    }
    lemma_extends(run, r, more);
    model::lemma_find(more, r.key);
    let i = choose|i: int| 0 <= i < more.len() && #[trigger] more[i] == r;
    assert(more.contains(more[i]));
    lemma_with_len(run, r, more);
}

proof fn lemma_with_len(run: Seq<Rec>, r: Rec, more: Seq<Rec>)
    requires
        model::is_run(run),
        extends(run, r, more),
    ensures
        more.len() == run.len() + if model::find(run, r.key) is Some {
            0int
        } else {
            1
        },
{
    let a = keys_in(run);
    let b = keys_in(more);
    lemma_keys_in(run);
    lemma_keys_in(more);
    assert(b =~= a.insert(r.key)) by {
        assert forall|k: Seq<u8>| b.contains(k) <==> a.insert(r.key).contains(k) by {
            assert(model::find(more, k) is Some <==> (k == r.key || model::find(run, k) is Some));
        }
    }
}

/// The keys of a run.
spec fn keys_in(run: Seq<Rec>) -> Set<Seq<u8>> {
    Seq::new(run.len(), |i: int| run[i].key).to_set()
}

proof fn lemma_keys_in(run: Seq<Rec>)
    requires
        model::is_run(run),
    ensures
        keys_in(run).finite(),
        keys_in(run).len() == run.len(),
        forall|k: Seq<u8>| #[trigger] keys_in(run).contains(k) <==> model::find(run, k) is Some,
{
    let keys = Seq::new(run.len(), |i: int| run[i].key);
    assert(keys.no_duplicates()) by {
        assert forall|i: int, j: int| 0 <= i < keys.len() && 0 <= j < keys.len() && i != j implies
            keys[i] != keys[j] by {
            crate::order::lemma_lex_irreflexive(keys[i]);
            if i < j {
                assert(crate::order::lex_lt(run[i].key, run[j].key));
            } else {
                assert(crate::order::lex_lt(run[j].key, run[i].key));
            }
        }
    }
    keys.unique_seq_to_set();
    vstd::seq_lib::seq_to_set_is_finite(keys);
    assert forall|k: Seq<u8>| #[trigger] keys_in(run).contains(k) <==> model::find(run, k)
        is Some by {
        model::lemma_find(run, k);
        if keys.contains(k) {
            let i = choose|i: int| 0 <= i < keys.len() && keys[i] == k;
            assert(run[i].key == k);
        }
        if model::find(run, k) is Some {
            let i = choose|i: int|
                0 <= i < run.len() && #[trigger] run[i] == model::find(run, k)->0;
            assert(keys[i] == k);
        }
    }
}

} // verus!
