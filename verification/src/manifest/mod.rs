//! The manifest: the crash-safe, versioned record of which tables exist and
//! which tier each lives in.
//!
//! The set of live tables changes every time a memtable is flushed or a
//! compaction merges a tier. Each such change installs a new, immutable
//! [`Version`]; a reader pins the current version as an `Arc<Version>` and keeps
//! reading it while a newer one is installed.
//!
//! Installing a version writes the whole manifest to a scratch file, syncs it,
//! renames it over `MANIFEST` and syncs the directory. Table files are removed
//! only after the manifest that stops referencing them is durable, and only once
//! neither the current version nor a pinned older one references them.

use std::collections::BTreeSet;
use std::sync::Arc;

use vstd::prelude::*;

use crate::codec;
use crate::names;
use crate::order;
use crate::order::Position;
use crate::sstable::Corruption;
use crate::storage;
use crate::storage::facts;
use crate::storage::replace;
use crate::storage::path;
use crate::storage::plain;
use crate::storage::{FileData, FilePath, FsState, PathView, Storage, StorageError};
use crate::wal::segment;

pub mod laws;
pub mod record;

verus! {

broadcast use vstd::std_specs::btree::group_btree_axioms;

/// Errors produced while reading or writing the manifest.
#[derive(Debug)]
pub enum ManifestError {
    /// An error from the underlying storage backend.
    Storage(StorageError),
    /// The manifest's bytes are inconsistent with the format.
    Corrupt(Corruption),
    /// The version is larger than the format can describe.
    TooLarge,
}

/// Result alias for manifest operations.
pub type Result<T> = std::result::Result<T, ManifestError>;

/// Immutable metadata of one table file.
#[derive(Debug, PartialEq, Eq)]
pub struct TableMeta {
    /// Unique file id.
    pub id: u64,
    /// Number of entries the table holds, tombstones included.
    pub num_entries: u64,
    /// Smallest key in the table.
    pub first_key: Vec<u8>,
    /// Largest key in the table.
    pub last_key: Vec<u8>,
}

/// What a [`TableMeta`] says.
#[verifier::ext_equal]
pub struct MetaView {
    pub id: u64,
    pub num_entries: u64,
    pub first_key: Seq<u8>,
    pub last_key: Seq<u8>,
}

impl View for TableMeta {
    type V = MetaView;

    open spec fn view(&self) -> MetaView {
        MetaView {
            id: self.id,
            num_entries: self.num_entries,
            first_key: self.first_key@,
            last_key: self.last_key@,
        }
    }
}

impl Clone for TableMeta {
    fn clone(&self) -> (r: Self)
        ensures
            r@ == self@,
    {
        TableMeta {
            id: self.id,
            num_entries: self.num_entries,
            first_key: self.first_key.clone(),
            last_key: self.last_key.clone(),
        }
    }
}

impl MetaView {
    /// `key` is within the table's key range.
    pub open spec fn spans(self, key: Seq<u8>) -> bool {
        !order::lex_lt(key, self.first_key) && !order::lex_lt(self.last_key, key)
    }
}

impl TableMeta {
    /// Whether `key` falls within this table's key range. If not, the table
    /// definitely does not contain `key`.
    pub fn key_in_range(&self, key: &[u8]) -> (r: bool)
        ensures
            r == self@.spans(key@),
    {
        let from_start: bool = match order::position(key, &self.first_key) {
            Position::Before => false,
            _ => true,
        };
        let to_end: bool = match order::position(&self.last_key, key) {
            Position::Before => false,
            _ => true,
        };
        proof {
            order::lemma_lex_irreflexive(key@);
            if order::lex_lt(self.first_key@, key@) {
                order::lemma_lex_asymmetric(self.first_key@, key@);
            }
            if order::lex_lt(key@, self.last_key@) {
                order::lemma_lex_asymmetric(key@, self.last_key@);
            }
        }
        from_start && to_end
    }
}

/// The tables of a tier.
pub open spec fn metas_of(tier: Seq<Arc<TableMeta>>) -> Seq<MetaView> {
    Seq::new(tier.len(), |i: int| tier[i]@)
}

/// The tables of each tier.
pub open spec fn tiers_of(tiers: Seq<Vec<Arc<TableMeta>>>) -> Seq<Seq<MetaView>> {
    Seq::new(tiers.len(), |t: int| metas_of(tiers[t]@))
}

/// An immutable snapshot of the file layout at one point in time.
///
/// `tiers[0]` is the youngest tier; higher indices hold older, larger, previously
/// compacted tables. Within a tier, tables are ordered oldest first.
#[derive(Debug, PartialEq, Eq)]
pub struct Version {
    /// Tables grouped by tier, the youngest tier first.
    pub tiers: Vec<Vec<Arc<TableMeta>>>,
    /// Next sequence number the engine should hand out.
    pub next_seq: u64,
    /// Next table file id to allocate.
    pub next_table_id: u64,
}

/// What a [`Version`] says.
#[verifier::ext_equal]
pub struct VersionView {
    pub tiers: Seq<Seq<MetaView>>,
    pub next_seq: u64,
    pub next_table_id: u64,
}

impl View for Version {
    type V = VersionView;

    open spec fn view(&self) -> VersionView {
        VersionView {
            tiers: tiers_of(self.tiers@),
            next_seq: self.next_seq,
            next_table_id: self.next_table_id,
        }
    }
}

/// The tables of all tiers in order.
pub open spec fn flat(tiers: Seq<Seq<MetaView>>) -> Seq<MetaView>
    decreases tiers.len(),
{
    if tiers.len() == 0 {
        Seq::empty()
    } else {
        flat(tiers.drop_last()) + tiers.last()
    }
}

/// How many of the tiers hold tables.
pub open spec fn populated(tiers: Seq<Seq<MetaView>>) -> nat
    decreases tiers.len(),
{
    if tiers.len() == 0 {
        0
    } else {
        populated(tiers.drop_last()) + if tiers.last().len() > 0 {
            1nat
        } else {
            0
        }
    }
}

/// The tables of a tier, the newest first.
pub open spec fn reversed(tier: Seq<MetaView>) -> Seq<MetaView> {
    Seq::new(tier.len(), |i: int| tier[tier.len() - 1 - i])
}

/// The tables of all tiers, the youngest tier and in it the newest table first.
pub open spec fn newest_first(tiers: Seq<Seq<MetaView>>) -> Seq<MetaView>
    decreases tiers.len(),
{
    if tiers.len() == 0 {
        Seq::empty()
    } else {
        newest_first(tiers.drop_last()) + reversed(tiers.last())
    }
}

/// The tiers without the empty ones at the end.
pub open spec fn trimmed(tiers: Seq<Seq<MetaView>>) -> Seq<Seq<MetaView>>
    decreases tiers.len(),
{
    if tiers.len() > 0 && tiers.last().len() == 0 {
        trimmed(tiers.drop_last())
    } else {
        tiers
    }
}

/// The tiers and as many empty ones as make `n`.
pub open spec fn padded(tiers: Seq<Seq<MetaView>>, n: nat) -> Seq<Seq<MetaView>> {
    if tiers.len() >= n {
        tiers
    } else {
        tiers + Seq::new((n - tiers.len()) as nat, |i: int| Seq::empty())
    }
}

/// The larger of two numbers.
pub open spec fn at_least(a: int, b: int) -> int {
    if a >= b {
        a
    } else {
        b
    }
}

impl VersionView {
    /// No tables, sequence numbers and file ids starting at 1.
    pub open spec fn empty() -> VersionView {
        VersionView { tiers: Seq::empty(), next_seq: 1, next_table_id: 1 }
    }

    /// The version references table `id`.
    pub open spec fn references(self, id: u64) -> bool {
        exists|t: int, i: int|
            0 <= t < self.tiers.len() && 0 <= i < self.tiers[t].len() && (
            #[trigger] self.tiers[t][i]).id == id
    }

    /// The version after a flush: `m` is the newest table of the youngest tier.
    pub open spec fn flushed(self, m: MetaView, next_seq: u64) -> VersionView {
        let tiers = padded(self.tiers, 1);
        VersionView {
            tiers: tiers.update(0, tiers[0].push(m)),
            next_seq: at_least(next_seq as int, self.next_seq as int) as u64,
            next_table_id: at_least(self.next_table_id as int, m.id + 1) as u64,
        }
    }

    /// The version after tier `t` was merged into `m`, which is the newest table
    /// of the next tier.
    pub open spec fn compacted(self, t: int, m: MetaView) -> VersionView {
        let tiers = padded(self.tiers, (t + 2) as nat);
        let moved = tiers.update(t, Seq::empty()).update(t + 1, tiers[t + 1].push(m));
        VersionView {
            tiers: trimmed(moved),
            next_seq: self.next_seq,
            next_table_id: at_least(self.next_table_id as int, m.id + 1) as u64,
        }
    }

    /// The version after tier `t` was merged into nothing.
    pub open spec fn cleared(self, t: int) -> VersionView {
        VersionView { tiers: trimmed(self.tiers.update(t, Seq::empty())), ..self }
    }
}

/// A copy of a tier.
fn clone_tier(tier: &Vec<Arc<TableMeta>>) -> (r: Vec<Arc<TableMeta>>)
    ensures
        r@ == tier@,
{
    let mut out: Vec<Arc<TableMeta>> = Vec::new();
    let mut i: usize = 0;
    while i < tier.len()
        invariant
            i <= tier@.len(),
            out@ == tier@.take(i as int),
        decreases tier.len() - i,
    {
        out.push(Arc::clone(&tier[i]));
        i = i + 1;
        assert(out@ =~= tier@.take(i as int));
    }
    assert(out@ =~= tier@);
    out
}

impl Clone for Version {
    fn clone(&self) -> (r: Self)
        ensures
            r@ == self@,
    {
        let mut tiers: Vec<Vec<Arc<TableMeta>>> = Vec::new();
        let mut t: usize = 0;
        while t < self.tiers.len()
            invariant
                t <= self.tiers@.len(),
                tiers_of(tiers@) == self@.tiers.take(t as int),
            decreases self.tiers.len() - t,
        {
            let ghost before = tiers_of(tiers@);
            tiers.push(clone_tier(&self.tiers[t]));
            t = t + 1;
            assert(tiers_of(tiers@) =~= before.push(self@.tiers[t - 1]));
            assert(tiers_of(tiers@) =~= self@.tiers.take(t as int));
        }
        assert(tiers_of(tiers@) =~= self@.tiers);
        Version { tiers, next_seq: self.next_seq, next_table_id: self.next_table_id }
    }
}

impl Default for Version {
    fn default() -> (r: Self)
        ensures
            r@ == (VersionView { tiers: Seq::empty(), next_seq: 0, next_table_id: 0 }),
    {
        let v = Version { tiers: Vec::new(), next_seq: 0, next_table_id: 0 };
        assert(tiers_of(v.tiers@) =~= Seq::empty());
        v
    }
}

impl Version {
    /// An empty version: no tables, sequence numbers and file ids starting at 1.
    pub fn empty() -> (v: Self)
        ensures
            v@ == VersionView::empty(),
    {
        let v = Version { tiers: Vec::new(), next_seq: 1, next_table_id: 1 };
        assert(tiers_of(v.tiers@) =~= Seq::empty());
        v
    }

    /// Every table in this version, across all tiers.
    pub fn all_tables(&self) -> (r: Vec<Arc<TableMeta>>)
        ensures
            metas_of(r@) == flat(self@.tiers),
    {
        let mut out: Vec<Arc<TableMeta>> = Vec::new();
        let mut t: usize = 0;
        assert(self@.tiers.take(0) =~= Seq::empty());
        assert(metas_of(out@) =~= flat(self@.tiers.take(0)));
        while t < self.tiers.len()
            invariant
                t <= self.tiers@.len(),
                metas_of(out@) == flat(self@.tiers.take(t as int)),
            decreases self.tiers.len() - t,
        {
            let ghost before = metas_of(out@);
            let ghost tier = self.tiers@[t as int]@;
            let mut more: Vec<Arc<TableMeta>> = clone_tier(&self.tiers[t]);
            let ghost old_out = out@;
            out.append(&mut more);
            proof {
                assert(out@ =~= old_out + tier);
                assert(metas_of(out@) =~= before + metas_of(tier));
                let next = self@.tiers.take(t + 1);
                assert(next.drop_last() =~= self@.tiers.take(t as int));
                assert(next.last() == metas_of(tier));
            }
            t = t + 1;
        }
        assert(self@.tiers.take(self@.tiers.len() as int) =~= self@.tiers);
        out
    }

    /// The set of table file ids this version references.
    pub fn referenced_ids(&self) -> (r: BTreeSet<u64>)
        ensures
            forall|id: u64| #[trigger] r@.contains(id) <==> self@.references(id),
    {
        let mut out: BTreeSet<u64> = BTreeSet::new();
        self.add_ids(&mut out);
        out
    }

    /// Adds the table file ids this version references.
    fn add_ids(&self, out: &mut BTreeSet<u64>)
        ensures
            forall|id: u64| #[trigger]
                final(out)@.contains(id) <==> old(out)@.contains(id) || self@.references(id),
    {
        let mut t: usize = 0;
        while t < self.tiers.len()
            invariant
                t <= self.tiers@.len(),
                forall|id: u64| #[trigger]
                    out@.contains(id) <==> old(out)@.contains(id) || within(
                        self@.tiers,
                        t as int,
                        0,
                        id,
                    ),
            decreases self.tiers.len() - t,
        {
            let tier = &self.tiers[t];
            let mut i: usize = 0;
            while i < tier.len()
                invariant
                    t < self.tiers@.len(),
                    *tier == self.tiers@[t as int],
                    i <= tier@.len(),
                    forall|id: u64| #[trigger]
                        out@.contains(id) <==> old(out)@.contains(id) || within(
                            self@.tiers,
                            t as int,
                            i as int,
                            id,
                        ),
                decreases tier.len() - i,
            {
                let ghost before = out@;
                assert(self@.tiers[t as int][i as int] == tier@[i as int]@);
                out.insert(tier[i].id);
                proof {
                    lemma_within_step(self@.tiers, t as int, i as int);
                }
                i = i + 1;
            }
            proof {
                lemma_within_tier(self@.tiers, t as int);
            }
            t = t + 1;
        }
        proof {
            assert forall|id: u64| within(self@.tiers, self@.tiers.len() as int, 0, id)
                == #[trigger] self@.references(id) by {
                if self@.references(id) {
                    let (a, b) = choose|a: int, b: int|
                        0 <= a < self@.tiers.len() && 0 <= b < self@.tiers[a].len() && (
                        #[trigger] self@.tiers[a][b]).id == id;
                    assert(self@.tiers[a][b].id == id);
                }
            }
        }
    }

    /// Number of tables in tier `t`, 0 if the tier does not exist.
    pub fn tier_len(&self, t: usize) -> (n: usize)
        ensures
            n == if t < self@.tiers.len() {
                self@.tiers[t as int].len()
            } else {
                0
            },
    {
        if t < self.tiers.len() {
            self.tiers[t].len()
        } else {
            0
        }
    }

    /// Total number of tiers currently populated.
    pub fn num_tiers(&self) -> (n: usize)
        ensures
            n == populated(self@.tiers),
    {
        let mut n: usize = 0;
        let mut t: usize = 0;
        assert(self@.tiers.take(0) =~= Seq::empty());
        while t < self.tiers.len()
            invariant
                t <= self.tiers@.len(),
                n <= t,
                n == populated(self@.tiers.take(t as int)),
            decreases self.tiers.len() - t,
        {
            proof {
                assert(self@.tiers.take(t + 1).drop_last() =~= self@.tiers.take(t as int));
                assert(self@.tiers.take(t + 1).last() == metas_of(self.tiers@[t as int]@));
            }
            if self.tiers[t].len() > 0 {
                n = n + 1;
            }
            t = t + 1;
        }
        assert(self@.tiers.take(t as int) =~= self@.tiers);
        n
    }

    /// Tables ordered newest first for a point lookup: youngest tier first, and
    /// within a tier the most recently added first.
    pub fn tables_newest_first(&self) -> (r: Vec<Arc<TableMeta>>)
        ensures
            metas_of(r@) == newest_first(self@.tiers),
    {
        let mut out: Vec<Arc<TableMeta>> = Vec::new();
        let mut t: usize = 0;
        assert(self@.tiers.take(0) =~= Seq::empty());
        assert(metas_of(out@) =~= newest_first(self@.tiers.take(0)));
        while t < self.tiers.len()
            invariant
                t <= self.tiers@.len(),
                metas_of(out@) == newest_first(self@.tiers.take(t as int)),
            decreases self.tiers.len() - t,
        {
            let tier = &self.tiers[t];
            let ghost before = metas_of(out@);
            let ghost rev = reversed(metas_of(tier@));
            let mut i: usize = tier.len();
            assert(rev.take(0) =~= Seq::empty());
            assert(before + rev.take(0) =~= before);
            while i > 0
                invariant
                    i <= tier@.len(),
                    rev == reversed(metas_of(tier@)),
                    metas_of(out@) == before + rev.take(tier@.len() - i),
                decreases i,
            {
                i = i - 1;
                let ghost so_far = metas_of(out@);
                out.push(Arc::clone(&tier[i]));
                proof {
                    let n = tier@.len() - i;
                    assert(rev[n - 1] == tier@[i as int]@);
                    assert(metas_of(out@) =~= so_far.push(tier@[i as int]@));
                    assert(metas_of(out@) =~= before + rev.take(n));
                }
            }
            proof {
                assert(rev.take(tier@.len() as int) =~= rev);
                let next = self@.tiers.take(t + 1);
                assert(next.drop_last() =~= self@.tiers.take(t as int));
                assert(next.last() == metas_of(tier@));
            }
            t = t + 1;
        }
        assert(self@.tiers.take(self@.tiers.len() as int) =~= self@.tiers);
        out
    }

    /// A new version with `table` appended to tier 0, carrying `next_seq` forward
    /// and consuming `table.id` from the id space.
    pub fn flushed(&self, table: TableMeta, next_seq: u64) -> (v: Version)
        requires
            table.id < u64::MAX,
        ensures
            v@ == self@.flushed(table@, next_seq),
    {
        let mut v: Version = self.clone();
        let ghost m = table@;
        if v.tiers.len() == 0 {
            v.tiers.push(Vec::new());
            assert(metas_of(v.tiers@[0]@) =~= Seq::empty());
            assert(v@.tiers =~= padded(self@.tiers, 1));
        }
        assert(v@.tiers == padded(self@.tiers, 1));
        let id: u64 = table.id;
        let ghost tiers = v@.tiers;
        push_table(&mut v.tiers, 0, table);
        v.next_seq = if next_seq >= v.next_seq {
            next_seq
        } else {
            v.next_seq
        };
        v.next_table_id = if v.next_table_id >= id + 1 {
            v.next_table_id
        } else {
            id + 1
        };
        v
    }

    /// A new version in which every table of tier `t` is replaced by the single
    /// merged `output` table in tier `t + 1`. Empty tiers are trimmed from the
    /// tail.
    pub fn compacted(&self, t: usize, output: TableMeta) -> (v: Version)
        requires
            t < usize::MAX,
            output.id < u64::MAX,
        ensures
            v@ == self@.compacted(t as int, output@),
    {
        let mut v: Version = self.clone();
        let ghost m = output@;
        while v.tiers.len() <= t + 1
            invariant
                t < usize::MAX,
                v@.next_seq == self@.next_seq,
                v@.next_table_id == self@.next_table_id,
                padded(v@.tiers, (t + 2) as nat) == padded(self@.tiers, (t + 2) as nat),
            decreases t + 2 - v.tiers.len(),
        {
            let ghost before = v@.tiers;
            v.tiers.push(Vec::new());
            proof {
                assert(metas_of(v.tiers@[before.len() as int]@) =~= Seq::empty());
                assert(v@.tiers =~= before.push(Seq::empty()));
                assert(padded(v@.tiers, (t + 2) as nat) =~= padded(before, (t + 2) as nat));
            }
        }
        assert(v@.tiers == padded(self@.tiers, (t + 2) as nat));
        clear_tier(&mut v.tiers, t);
        assert(tiers_of(v.tiers@).len() == v.tiers@.len());
        let id: u64 = output.id;
        push_table(&mut v.tiers, t + 1, output);
        v.next_table_id = if v.next_table_id >= id + 1 {
            v.next_table_id
        } else {
            id + 1
        };
        trim(&mut v.tiers);
        v
    }

    /// A new version without the tables of tier `t`. Empty tiers are trimmed from
    /// the tail.
    pub fn cleared(&self, t: usize) -> (v: Version)
        requires
            t < self@.tiers.len(),
        ensures
            v@ == self@.cleared(t as int),
    {
        let mut v: Version = self.clone();
        clear_tier(&mut v.tiers, t);
        trim(&mut v.tiers);
        v
    }
}

/// Appends a table to a tier.
fn push_table(tiers: &mut Vec<Vec<Arc<TableMeta>>>, t: usize, m: TableMeta)
    requires
        t < old(tiers)@.len(),
    ensures
        tiers_of(final(tiers)@) == tiers_of(old(tiers)@).update(
            t as int,
            tiers_of(old(tiers)@)[t as int].push(m@),
        ),
{
    let mut tier: Vec<Arc<TableMeta>> = clone_tier(&tiers[t]);
    let ghost before = tier@;
    let ghost mv = m@;
    tier.push(Arc::new(m));
    assert(metas_of(tier@) =~= metas_of(before).push(mv));
    tiers[t] = tier;
    assert(tiers_of(tiers@) =~= tiers_of(old(tiers)@).update(
        t as int,
        tiers_of(old(tiers)@)[t as int].push(mv),
    ));
}

/// Empties a tier.
fn clear_tier(tiers: &mut Vec<Vec<Arc<TableMeta>>>, t: usize)
    requires
        t < old(tiers)@.len(),
    ensures
        tiers_of(final(tiers)@) == tiers_of(old(tiers)@).update(t as int, Seq::empty()),
{
    tiers[t] = Vec::new();
    assert(metas_of(tiers@[t as int]@) =~= Seq::empty());
    assert(tiers_of(tiers@) =~= tiers_of(old(tiers)@).update(t as int, Seq::empty()));
}

/// Removes the empty tiers at the end.
fn trim(tiers: &mut Vec<Vec<Arc<TableMeta>>>)
    ensures
        tiers_of(final(tiers)@) == trimmed(tiers_of(old(tiers)@)),
{
    while tiers.len() > 0 && tiers[tiers.len() - 1].len() == 0
        invariant
            trimmed(tiers_of(tiers@)) == trimmed(tiers_of(old(tiers)@)),
        decreases tiers.len(),
    {
        let ghost before = tiers_of(tiers@);
        let _ = tiers.pop();
        assert(tiers_of(tiers@) =~= before.drop_last());
    }
}

/// One of the first `t` tiers, or of the first `i` tables of tier `t`, is table
/// `id`.
spec fn within(tiers: Seq<Seq<MetaView>>, t: int, i: int, id: u64) -> bool {
    exists|a: int, b: int|
        0 <= a < tiers.len() && 0 <= b < tiers[a].len() && (a < t || a == t && b < i) && (
        #[trigger] tiers[a][b]).id == id
}

proof fn lemma_within_step(tiers: Seq<Seq<MetaView>>, t: int, i: int)
    requires
        0 <= t < tiers.len(),
        0 <= i < tiers[t].len(),
    ensures
        forall|id: u64| #[trigger]
            within(tiers, t, i + 1, id) <==> within(tiers, t, i, id) || id == tiers[t][i].id,
{
    assert forall|id: u64| #[trigger]
        within(tiers, t, i + 1, id) <==> within(tiers, t, i, id) || id == tiers[t][i].id by {
        if within(tiers, t, i, id) {
            let (a, b) = choose|a: int, b: int|
                0 <= a < tiers.len() && 0 <= b < tiers[a].len() && (a < t || a == t && b < i) && (
                #[trigger] tiers[a][b]).id == id;
            assert(tiers[a][b].id == id);
        }
    }
}

proof fn lemma_within_tier(tiers: Seq<Seq<MetaView>>, t: int)
    requires
        0 <= t < tiers.len(),
    ensures
        forall|id: u64| #[trigger]
            within(tiers, t + 1, 0, id) <==> within(tiers, t, tiers[t].len() as int, id),
{
    assert forall|id: u64| #[trigger]
        within(tiers, t + 1, 0, id) <==> within(tiers, t, tiers[t].len() as int, id) by {
        if within(tiers, t, tiers[t].len() as int, id) {
            let (a, b) = choose|a: int, b: int|
                0 <= a < tiers.len() && 0 <= b < tiers[a].len() && (a < t || a == t && b
                    < tiers[t].len()) && (#[trigger] tiers[a][b]).id == id;
            assert(tiers[a][b].id == id);
        }
    }
}

/// The path of the manifest in `dir`.
pub open spec fn manifest_at(dir: Seq<u8>) -> PathView {
    (dir, names::manifest_name())
}

/// The path of the manifest's scratch file in `dir`.
pub open spec fn manifest_tmp_at(dir: Seq<u8>) -> PathView {
    (dir, names::manifest_tmp_name())
}

/// The names that writing a manifest touches.
pub open spec fn manifest_names(dir: Seq<u8>) -> Set<PathView> {
    set![manifest_tmp_at(dir), manifest_at(dir)]
}

/// The path of table `id` in `dir`.
pub open spec fn table_at(dir: Seq<u8>, id: u64) -> PathView {
    (dir, names::table_name(id))
}

/// `dir` durably holds a manifest that says `v`.
pub open spec fn says(fs: FsState, dir: Seq<u8>, v: VersionView) -> bool {
    record::version_fits(v) && facts::stable(fs, manifest_at(dir), record::version_bytes(v))
}

/// One of the versions references table `id`.
pub open spec fn any_references(vs: Seq<VersionView>, id: u64) -> bool {
    exists|i: int| 0 <= i < vs.len() && (#[trigger] vs[i]).references(id)
}

/// The names of tables in `dir` that none of the versions references.
pub open spec fn garbage_names(dir: Seq<u8>, vs: Seq<VersionView>) -> Set<PathView> {
    Set::new(
        |p: PathView|
            p.0 == dir && (names::table_id(p.1) matches Some(id) && !any_references(vs, id)),
    )
}

/// No table in `dir` is left that none of the versions references.
pub open spec fn swept(fs: FsState, dir: Seq<u8>, vs: Seq<VersionView>) -> bool {
    forall|p: PathView| #[trigger]
        garbage_names(dir, vs).contains(p) ==> !fs.live.contains_key(p)
}

/// The tables in `dir` that none of the versions references are gone, and their names
/// durably so: if there were any, the names in `dir` are those that a power loss leaves,
/// and if there were none, nothing was touched.
pub open spec fn collected(
    pre: FsState,
    post: FsState,
    dir: Seq<u8>,
    vs: Seq<VersionView>,
) -> bool {
    &&& swept(post, dir, vs)
    &&& swept(pre, dir, vs) ==> post == pre
    &&& !swept(pre, dir, vs) ==> facts::names_durable(post, dir)
}

/// Every version in `after` was among those in `before`.
pub open spec fn among(after: Seq<VersionView>, before: Seq<VersionView>) -> bool {
    forall|i: int| 0 <= i < after.len() ==> before.contains(#[trigger] after[i])
}

/// Of the files in `dir`, those whose bytes were durable have durable names now,
/// too, but for garbage.
pub open spec fn settled_except(
    fs: FsState,
    after: FsState,
    dir: Seq<u8>,
    vs: Seq<VersionView>,
) -> bool {
    forall|p: PathView, bytes: Seq<u8>|
        p.0 == dir && !manifest_names(dir).contains(p) && !garbage_names(dir, vs).contains(p)
            && #[trigger] facts::visible(fs, p, FileData { live: bytes, synced: bytes })
            ==> facts::stable(after, p, bytes)
}

/// The path of the file of table `id` within `dir`.
pub fn table_path(dir: &[u8], id: u64) -> (p: FilePath)
    ensures
        p@ == table_at(plain(dir@), id),
{
    let name: Vec<u8> = names::table_file(id);
    proof {
        names::lemma_names_simple(id);
    }
    FilePath::new(dir, &name)
}

/// The id of the table that `path` names, or `None` if it names none.
pub fn parse_table_id(path: &FilePath) -> (r: Option<u64>)
    ensures
        r == names::table_id(path@.1),
{
    names::table_of(&path.base())
}

/// How many handles share a version: `Arc::strong_count`, which its documentation
/// says is the number of strong pointers to the value; `v` is one of them. How
/// many others there are depends on what else the process holds.
#[verifier::external_body]
fn pins(v: &Arc<Version>) -> (n: usize)
    ensures
        n >= 1,
{
    Arc::strong_count(v)
}

/// The versions that have a handle besides the manifest's own, in their order.
pub open spec fn pinned(versions: Seq<Arc<Version>>, counts: Seq<usize>) -> Seq<Arc<Version>>
    decreases versions.len(),
{
    if versions.len() == 0 {
        versions
    } else {
        let before = pinned(versions.drop_last(), counts);
        if counts[versions.len() - 1] > 1 {
            before.push(versions.last())
        } else {
            before
        }
    }
}

/// A pinned version is one of those there were.
proof fn lemma_pinned(versions: Seq<Arc<Version>>, counts: Seq<usize>, i: int)
    requires
        0 <= i < pinned(versions, counts).len(),
    ensures
        exists|k: int|
            0 <= k < versions.len() && #[trigger] versions[k] == pinned(versions, counts)[i],
    decreases versions.len(),
{
    if versions.len() > 0 {
        let before = pinned(versions.drop_last(), counts);
        if i < before.len() {
            lemma_pinned(versions.drop_last(), counts, i);
            let k = choose|k: int|
                0 <= k < versions.len() - 1 && #[trigger] versions.drop_last()[k] == before[i];
            assert(versions[k] == before[i]);
        } else {
            assert(versions[versions.len() - 1] == pinned(versions, counts)[i]);
        }
    }
}

/// The versions that have a handle besides the manifest's own, by their numbers of
/// handles.
pub fn still_pinned(versions: &Vec<Arc<Version>>, counts: &Vec<usize>) -> (kept: Vec<Arc<Version>>)
    requires
        versions@.len() == counts@.len(),
    ensures
        kept@ == pinned(versions@, counts@),
{
    let mut kept: Vec<Arc<Version>> = Vec::new();
    let mut i: usize = 0;
    assert(versions@.take(0) =~= Seq::empty());
    while i < versions.len()
        invariant
            i <= versions@.len() == counts@.len(),
            kept@ == pinned(versions@.take(i as int), counts@),
        decreases versions.len() - i,
    {
        proof {
            assert(versions@.take(i + 1).drop_last() =~= versions@.take(i as int));
        }
        if counts[i] > 1 {
            kept.push(Arc::clone(&versions[i]));
        }
        i = i + 1;
    }
    assert(versions@.take(i as int) =~= versions@);
    kept
}

/// The views of versions.
pub open spec fn version_views(vs: Seq<Arc<Version>>) -> Seq<VersionView> {
    Seq::new(vs.len(), |i: int| vs[i]@)
}

/// The crash-safe, versioned manifest handle: the current [`Version`] and every
/// superseded one that a reader may still pin.
#[derive(Debug)]
pub struct Manifest {
    dir: Vec<u8>,
    current: Arc<Version>,
    obsolete: Vec<Arc<Version>>,
}

/// What opening the manifest in `dir` makes of it.
pub open spec fn open_outcome(
    pre: storage::Disk,
    post: storage::Disk,
    dir: Seq<u8>,
    r: Result<Manifest>,
) -> bool {
    let p = manifest_at(dir);
    let content = pre.fs.content(p);
    post.room() ==> {
        &&& pre.fs.live.contains_key(p) ==> {
            &&& post == pre
            &&& match r {
                Ok(m) => record::parsed_version(content) == Ok::<VersionView, Corruption>(
                    m.version(),
                ),
                Err(ManifestError::Corrupt(e)) => record::parsed_version(content) == Err::<
                    VersionView,
                    Corruption,
                >(e),
                Err(ManifestError::Storage(_)) => !pre.reliable || content.len() > usize::MAX,
                Err(ManifestError::TooLarge) => false,
            }
        }
        &&& !pre.fs.live.contains_key(p) ==> {
            &&& r is Err ==> r->Err_0 is Storage
            &&& r matches Ok(m) ==> m.version() == VersionView::empty()
            &&& pre.halted ==> r is Err
            &&& !post.halted ==> r is Ok && says(post.fs, dir, VersionView::empty())
            &&& !pre.halted && post.halted ==> says(post.fs, dir, VersionView::empty())
                || replace::unreplaced(pre.fs, post.fs, p)
            &&& !pre.halted && post.halted && r is Ok ==> says(
                post.fs,
                dir,
                VersionView::empty(),
            )
        }
    }
}

/// What installing `new` makes of the files in `dir`, when afterwards the versions
/// in `kept` are alive.
#[verifier::opaque]
pub open spec fn install_outcome(
    pre: storage::Disk,
    post: storage::Disk,
    dir: Seq<u8>,
    new: VersionView,
    kept: Seq<VersionView>,
) -> bool {
    post.room() && !pre.halted ==> {
        ||| {
            &&& says(post.fs, dir, new)
            &&& settled_except(pre.fs, post.fs, dir, kept.push(new))
        }
        ||| {
            &&& post.halted
            &&& facts::keeps(pre.fs, post.fs, manifest_names(dir))
            &&& replace::unreplaced(pre.fs, post.fs, manifest_at(dir))
        }
    }
}

impl Manifest {
    /// The directory of the manifest.
    pub closed spec fn home(&self) -> Seq<u8> {
        plain(self.dir@)
    }

    /// The current version.
    pub closed spec fn version(&self) -> VersionView {
        self.current@
    }

    /// The superseded versions that may still be pinned.
    pub closed spec fn retained(&self) -> Seq<VersionView> {
        version_views(self.obsolete@)
    }

    /// The versions whose tables are kept.
    pub open spec fn alive(&self) -> Seq<VersionView> {
        seq![self.version()] + self.retained()
    }

    /// Opens the manifest in `dir`, creating an empty one if there is none. The
    /// empty manifest is durable before this returns.
    pub fn open<S: Storage>(fs: &mut S, dir: &[u8]) -> (r: Result<Manifest>)
        requires
            old(fs).wf(),
            old(fs).disk().dependable,
            old(fs).disk().room() ==> facts::sound(old(fs).disk().fs),
        ensures
            final(fs).wf(),
            facts::carried(old(fs).disk(), final(fs).disk(), manifest_names(plain(dir@))),
            storage::used(old(fs).disk(), final(fs).disk(), 1),
            open_outcome(old(fs).disk(), final(fs).disk(), plain(dir@), r),
            r matches Ok(m) ==> m.home() == plain(dir@) && m.retained().len() == 0,
    {
        let name: Vec<u8> = names::manifest_file();
        proof {
            names::lemma_names_simple(0);
        }
        let path: FilePath = FilePath::new(dir, &name);
        proof {
            facts::lemma_carried_refl(fs.disk(), manifest_names(plain(dir@)));
        }
        let current: Version = match fs.open(&path) {
            Ok(_) => {
                let buf: Vec<u8> = match segment::read_all(fs, &path) {
                    Ok(buf) => buf,
                    Err(e) => {
                        return Err(ManifestError::Storage(e));
                    },
                };
                match record::decode_version(&buf) {
                    Ok(v) => v,
                    Err(c) => {
                        return Err(ManifestError::Corrupt(c));
                    },
                }
            },
            Err(_) => {
                let v: Version = Version::empty();
                match write_manifest(fs, dir, &v) {
                    Ok(_) => {},
                    Err(e) => {
                        return Err(ManifestError::Storage(e));
                    },
                }
                v
            },
        };
        let m = Manifest { dir: codec::copied(dir), current: Arc::new(current), obsolete: Vec::new() };
        Ok(m)
    }

    /// The directory this manifest lives in.
    pub fn dir(&self) -> (d: &[u8])
        ensures
            plain(d@) == self.home(),
    {
        &self.dir
    }

    /// Pins and returns the current version.
    pub fn current(&self) -> (v: Arc<Version>)
        ensures
            v@ == self.version(),
    {
        Arc::clone(&self.current)
    }

    /// Durably installs `new` as the current version, then deletes the table files
    /// that no live version references any more. The new manifest is durable before
    /// any file is deleted.
    pub fn install<S: Storage>(&mut self, fs: &mut S, new: Version) -> (r: Result<Arc<Version>>)
        requires
            old(fs).wf(),
            old(fs).disk().dependable,
            old(fs).disk().room() ==> facts::sound(old(fs).disk().fs),
        ensures
            final(fs).wf(),
            final(self).home() == old(self).home(),
            facts::carried(
                old(fs).disk(),
                final(fs).disk(),
                manifest_names(old(self).home()).union(
                    garbage_names(old(self).home(), final(self).alive()),
                ),
            ),
            storage::used(old(fs).disk(), final(fs).disk(), 1),
            (r is Err && r->Err_0 is TooLarge) <==> !record::version_fits(new@),
            r is Err ==> !(r->Err_0 is Corrupt),
            !record::version_fits(new@) ==> *final(fs) == *old(fs) && *final(self) == *old(self),
            record::version_fits(new@) ==> install_outcome(
                old(fs).disk(),
                final(fs).disk(),
                old(self).home(),
                new@,
                final(self).alive(),
            ),
            r matches Ok(v) ==> v@ == new@ && final(self).version() == new@,
            final(self).version() == new@ || (r is Err && *final(self) == *old(self)),
            final(fs).disk().room() ==> {
                ||| r is Err && *final(self) == *old(self) && facts::carried(
                    old(fs).disk(),
                    final(fs).disk(),
                    manifest_names(old(self).home()),
                )
                ||| final(self).version() == new@ && says(
                    final(fs).disk().fs,
                    old(self).home(),
                    new@,
                )
            },
            record::version_fits(new@) && final(fs).disk().room() ==> {
                &&& old(fs).disk().halted ==> r is Err
                &&& !final(fs).disk().halted ==> {
                    &&& final(self).version() == new@
                    &&& r is Err ==> !old(fs).disk().reliable
                    &&& r is Ok ==> swept(
                        final(fs).disk().fs,
                        old(self).home(),
                        final(self).alive(),
                    ) && facts::names_durable(final(fs).disk().fs, old(self).home())
                }
            },
            among(final(self).retained(), old(self).alive()),
    {
        let ghost pre = fs.disk();
        let ghost dir = plain(self.dir@);
        proof {
            reveal(install_outcome);
            facts::lemma_carried_refl(
                pre,
                manifest_names(dir).union(garbage_names(dir, self.alive())),
            );
            assert forall|i: int| 0 <= i < self.retained().len() implies self.alive().contains(
                #[trigger] self.retained()[i],
            ) by {
                assert(self.alive()[i + 1] == self.retained()[i]);
            }
        }
        let ghost new_view = new@;
        if !record::fits(&new) {
            return Err(ManifestError::TooLarge);
        }
        let written = write_manifest(fs, &self.dir, &new);
        let ghost mid = fs.disk();
        match written {
            Ok(_) => {},
            Err(e) => {
                proof {
                    facts::lemma_carried_mono(
                        pre,
                        mid,
                        manifest_names(dir),
                        manifest_names(dir).union(garbage_names(dir, self.alive())),
                    );
                }
                return Err(ManifestError::Storage(e));
            },
        }
        let ghost alive0 = self.alive();
        let new_version: Arc<Version> = Arc::new(new);
        let mut prev: Arc<Version> = Arc::clone(&new_version);
        std::mem::swap(&mut prev, &mut self.current);
        let ghost old_obsolete = self.obsolete@;
        self.obsolete.push(prev);
        proof {
            assert forall|i: int| 0 <= i < self.retained().len() implies alive0.contains(
                #[trigger] self.retained()[i],
            ) by {
                if i < old_obsolete.len() {
                    assert(alive0[i + 1] == self.retained()[i]);
                } else {
                    assert(alive0[0] == self.retained()[i]);
                }
            }
        }
        let ghost retained1 = self.retained();
        let collected = self.gc(fs);
        let ghost kept = self.alive();
        let ghost g = garbage_names(dir, kept);
        proof {
            facts::lemma_carried_mono(pre, mid, manifest_names(dir), manifest_names(dir).union(g));
            facts::lemma_carried_mono(mid, fs.disk(), g, manifest_names(dir).union(g));
            facts::lemma_carried_trans(pre, mid, fs.disk(), manifest_names(dir).union(g));
            lemma_manifest_not_garbage(dir, kept);
            if fs.disk().room() && !pre.halted {
                let post = fs.disk();
                assert forall|p: PathView| g.contains(p) implies #[trigger] garbage_names(
                    dir,
                    kept.push(new_view),
                ).contains(p) by {
                    let id = names::table_id(p.1)->0;
                    let more = kept.push(new_view);
                    if any_references(more, id) {
                        let k = choose|k: int| 0 <= k < more.len() && (#[trigger] more[k]).references(id);
                        if k < kept.len() {
                            assert(kept[k].references(id));
                        } else {
                            assert(kept[0].references(id));
                        }
                    }
                }
                assert forall|p: PathView, bytes: Seq<u8>|
                    p.0 == dir && !manifest_names(dir).contains(p) && !garbage_names(
                        dir,
                        kept.push(new_view),
                    ).contains(p)
                        && settled_around_now(pre.fs, mid.fs, dir) && #[trigger] facts::visible(
                        pre.fs,
                        p,
                        FileData { live: bytes, synced: bytes },
                    ) implies facts::stable(post.fs, p, bytes) by {
                    assert(facts::stable(mid.fs, p, bytes));
                }
                if mid.halted {
                    assert(post.fs == mid.fs);
                }
            }
        }
        match collected {
            Ok(_) => Ok(new_version),
            Err(e) => Err(e),
        }
    }

    /// Deletes the table files that no live version references: neither the current
    /// one nor a superseded one that is still pinned. Forgets the superseded
    /// versions that no reader pins any more.
    pub(crate) fn gc<S: Storage>(&mut self, fs: &mut S) -> (r: Result<()>)
        requires
            old(fs).wf(),
            old(fs).disk().dependable,
            old(fs).disk().room() ==> facts::sound(old(fs).disk().fs),
        ensures
            final(fs).wf(),
            final(self).home() == old(self).home(),
            final(self).version() == old(self).version(),
            facts::carried(
                old(fs).disk(),
                final(fs).disk(),
                garbage_names(old(self).home(), final(self).alive()),
            ),
            storage::used(old(fs).disk(), final(fs).disk(), 0),
            r is Err ==> r->Err_0 is Storage,
            final(fs).disk().room() && !final(fs).disk().halted ==> {
                &&& r is Err ==> !old(fs).disk().reliable
                &&& r is Ok ==> collected(
                    old(fs).disk().fs,
                    final(fs).disk().fs,
                    old(self).home(),
                    final(self).alive(),
                )
            },
            forall|i: int|
                0 <= i < final(self).retained().len() ==> old(self).retained().contains(
                    #[trigger] final(self).retained()[i],
                ),
    {
        self.drop_unpinned();
        let mut live_ids: BTreeSet<u64> = self.current.referenced_ids();
        self.add_retained(&mut live_ids);
        let ghost dir = plain(self.dir@);
        let ghost kept = self.alive();
        let ghost g = garbage_names(dir, kept);
        let ghost d0 = fs.disk();
        proof {
            facts::lemma_carried_refl(d0, g);
            lemma_alive_ids(self.version(), self.retained(), live_ids@);
        }
        let entries: Vec<FilePath> = match fs.list(&self.dir) {
            Ok(v) => v,
            Err(e) => {
                return Err(ManifestError::Storage(e));
            },
        };
        let ghost all = storage::path_views(entries@);
        let mut deleted_any: bool = false;
        let mut i: usize = 0;
        while i < entries.len()
            invariant
                i <= entries@.len(),
                all == storage::path_views(entries@),
                dir == plain(self.dir@),
                dir == plain(old(self).dir@),
                kept == self.alive(),
                self.version() == old(self).version(),
                forall|k: int|
                    0 <= k < self.retained().len() ==> old(self).retained().contains(
                        #[trigger] self.retained()[k],
                    ),
                d0 == old(fs).disk(),
                fs.wf(),
                fs.disk().dependable,
                d0.room() ==> facts::sound(d0.fs),
                facts::carried(d0, fs.disk(), g),
                storage::lists(d0.fs, dir, all),
                g == garbage_names(dir, kept),
                forall|id: u64| #[trigger] live_ids@.contains(id) <==> any_references(kept, id),
                storage::used(d0, fs.disk(), 0),
                fs.disk().room() && !fs.disk().halted ==> cleaned(d0.fs, fs.disk().fs, all, i as int, g),
                !deleted_any ==> *fs == *old(fs) && forall|k: int|
                    0 <= k < i ==> !g.contains(#[trigger] all[k]),
                deleted_any ==> exists|p: PathView| #[trigger]
                    g.contains(p) && d0.fs.live.contains_key(p),
            decreases entries.len() - i,
        {
            let ghost d1 = fs.disk();
            let ghost p = all[i as int];
            assert(p == entries@[i as int]@);
            if let Some(id) = parse_table_id(&entries[i]) {
                if !live_ids.contains(&id) {
                    assert(g.contains(p));
                    let done = fs.delete(&entries[i]);
                    proof {
                        facts::lemma_delete_keeps(d1.fs, p);
                        facts::lemma_calm_mono(d1.fs, d1.fs.deleted(p), set![p], g);
                        facts::lemma_outcome_carries(
                            d1,
                            fs.disk(),
                            d1.fs.live.contains_key(p),
                            d1.fs.deleted(p),
                            done is Ok,
                            g,
                        );
                        facts::lemma_carried_trans(d0, d1, fs.disk(), g);
                        if fs.disk().room() && !fs.disk().halted {
                            lemma_cleaned_delete(d0.fs, d1.fs, all, i as int, g, dir);
                        }
                    }
                    match done {
                        Ok(_) => {},
                        Err(e) => {
                            return Err(ManifestError::Storage(e));
                        },
                    }
                    deleted_any = true;
                    assert(g.contains(p) && d0.fs.live.contains_key(p));
                }
            }
            proof {
                if !g.contains(p) && fs.disk().room() && !fs.disk().halted {
                    assert(cleaned(d0.fs, fs.disk().fs, all, i + 1, g));
                }
            }
            i = i + 1;
        }
        let ghost d2 = fs.disk();
        proof {
            if d2.room() && !d2.halted {
                assert forall|p: PathView| #[trigger] g.contains(p) implies !d2.fs.live.contains_key(
                    p,
                ) by {
                    if d2.fs.live.contains_key(p) {
                        assert(d0.fs.live.contains_key(p));
                        let k = choose|k: int| 0 <= k < all.len() && all[k] == p;
                        assert(all[k] == p);
                    }
                }
            }
        }
        if deleted_any {
            let synced = fs.sync_dir(&self.dir);
            proof {
                facts::lemma_sync_dir_keeps(d2.fs, dir);
                facts::lemma_calm_mono(d2.fs, d2.fs.dir_synced(dir), Set::empty(), g);
                facts::lemma_outcome_carries(
                    d2,
                    fs.disk(),
                    true,
                    d2.fs.dir_synced(dir),
                    synced is Ok,
                    g,
                );
                facts::lemma_carried_trans(d0, d2, fs.disk(), g);
            }
            match synced {
                Ok(_) => {},
                Err(e) => {
                    return Err(ManifestError::Storage(e));
                },
            }
        }
        Ok(())
    }

    /// Forgets the superseded versions that no reader pins any more.
    fn drop_unpinned(&mut self)
        ensures
            final(self).dir == old(self).dir,
            final(self).current == old(self).current,
            exists|counts: Seq<usize>|
                counts.len() == old(self).obsolete@.len() && final(self).obsolete@
                    == #[trigger] pinned(old(self).obsolete@, counts),
            forall|i: int|
                0 <= i < final(self).retained().len() ==> old(self).retained().contains(
                    #[trigger] final(self).retained()[i],
                ),
    {
        let mut counts: Vec<usize> = Vec::new();
        while counts.len() < self.obsolete.len()
            invariant
                *self == *old(self),
                counts@.len() <= self.obsolete@.len(),
            decreases self.obsolete.len() - counts.len(),
        {
            let n: usize = pins(&self.obsolete[counts.len()]);
            counts.push(n);
        }
        let kept = still_pinned(&self.obsolete, &counts);
        proof {
            assert forall|i: int| 0 <= i < kept@.len() implies version_views(
                self.obsolete@,
            ).contains(#[trigger] version_views(kept@)[i]) by {
                lemma_pinned(self.obsolete@, counts@, i);
                let k = choose|k: int|
                    0 <= k < self.obsolete@.len() && self.obsolete@[k] == kept@[i];
                assert(version_views(self.obsolete@)[k] == kept@[i]@);
            }
        }
        self.obsolete = kept;
    }

    /// Adds the ids that superseded versions reference.
    fn add_retained(&self, out: &mut BTreeSet<u64>)
        ensures
            forall|id: u64| #[trigger]
                final(out)@.contains(id) <==> old(out)@.contains(id) || any_references(
                    self.retained(),
                    id,
                ),
    {
        let mut i: usize = 0;
        while i < self.obsolete.len()
            invariant
                i <= self.obsolete@.len(),
                forall|id: u64| #[trigger]
                    out@.contains(id) <==> old(out)@.contains(id) || any_references(
                        self.retained().take(i as int),
                        id,
                    ),
            decreases self.obsolete.len() - i,
        {
            self.obsolete[i].add_ids(out);
            proof {
                let r = self.retained();
                assert(r[i as int] == self.obsolete@[i as int]@);
                assert forall|id: u64| #[trigger] any_references(r.take(i + 1), id) <==> any_references(
                    r.take(i as int),
                    id,
                ) || r[i as int].references(id) by {
                    let a = r.take(i as int);
                    let b = r.take(i + 1);
                    if any_references(a, id) {
                        let k = choose|k: int| 0 <= k < a.len() && (#[trigger] a[k]).references(id);
                        assert(b[k] == a[k]);
                    }
                    if r[i as int].references(id) {
                        assert(b[i as int].references(id));
                    }
                    if any_references(b, id) {
                        let k = choose|k: int| 0 <= k < b.len() && (#[trigger] b[k]).references(id);
                        if k < i {
                            assert(a[k] == b[k]);
                        }
                    }
                }
            }
            i = i + 1;
        }
        assert(self.retained().take(self.retained().len() as int) =~= self.retained());
    }
}

proof fn lemma_alive_ids(v: VersionView, retained: Seq<VersionView>, ids: Set<u64>)
    requires
        forall|id: u64| #[trigger]
            ids.contains(id) <==> v.references(id) || any_references(retained, id),
    ensures
        forall|id: u64| #[trigger] ids.contains(id) <==> any_references(seq![v] + retained, id),
{
    let all = seq![v] + retained;
    assert forall|id: u64| #[trigger] ids.contains(id) <==> any_references(all, id) by {
        if v.references(id) {
            assert(all[0].references(id));
        }
        if any_references(retained, id) {
            let k = choose|k: int| 0 <= k < retained.len() && (#[trigger] retained[k]).references(id);
            assert(all[k + 1].references(id));
        }
        if any_references(all, id) {
            let k = choose|k: int| 0 <= k < all.len() && (#[trigger] all[k]).references(id);
            if k > 0 {
                assert(retained[k - 1] == all[k]);
            }
        }
    }
}

/// Of the first `n` listed names, the garbage is gone, and no name is new.
spec fn cleaned(
    fs: FsState,
    now: FsState,
    all: Seq<PathView>,
    n: int,
    g: Set<PathView>,
) -> bool {
    &&& forall|p: PathView| #[trigger] now.live.contains_key(p) ==> fs.live.contains_key(p)
    &&& forall|k: int| 0 <= k < n && g.contains(#[trigger] all[k]) ==> !now.live.contains_key(all[k])
    &&& forall|k: int| n <= k < all.len() ==> now.live.contains_key(#[trigger] all[k])
}

proof fn lemma_cleaned_delete(
    fs: FsState,
    now: FsState,
    all: Seq<PathView>,
    n: int,
    g: Set<PathView>,
    dir: Seq<u8>,
)
    requires
        storage::lists(fs, dir, all),
        cleaned(fs, now, all, n, g),
        0 <= n < all.len(),
    ensures
        cleaned(fs, now.deleted(all[n]), all, n + 1, g),
{
    let after = now.deleted(all[n]);
    assert(after.live =~= now.live.remove(all[n]));
    assert forall|k: int| n + 1 <= k < all.len() implies after.live.contains_key(
        #[trigger] all[k],
    ) by {
        path::lemma_name_before(all[n].1, all[n].1, all[n].1);
        assert(path::name_before(all[n].1, all[k].1));
    }
}

/// The manifest is no table.
pub proof fn lemma_manifest_not_garbage(dir: Seq<u8>, vs: Seq<VersionView>)
    ensures
        !garbage_names(dir, vs).contains(manifest_at(dir)),
        !garbage_names(dir, vs).contains(manifest_tmp_at(dir)),
        manifest_at(dir) != manifest_tmp_at(dir),
{
    names::lemma_kinds_apart(0);
    assert(names::manifest_name().len() == 8);
    assert(names::manifest_tmp_name().len() == 12);
}

/// The files of `dir` whose bytes were durable have durable names now, too.
spec fn settled_around_now(fs: FsState, after: FsState, dir: Seq<u8>) -> bool {
    replace::settled_around(fs, after, manifest_tmp_at(dir), manifest_at(dir))
}

/// Writes the manifest of `version` to `dir` durably.
fn write_manifest<S: Storage>(fs: &mut S, dir: &[u8], version: &Version) -> (r: storage::StorageResult<
    (),
>)
    requires
        old(fs).wf(),
        old(fs).disk().dependable,
        old(fs).disk().room() ==> facts::sound(old(fs).disk().fs),
    ensures
        final(fs).wf(),
        facts::carried(old(fs).disk(), final(fs).disk(), manifest_names(plain(dir@))),
        storage::used(old(fs).disk(), final(fs).disk(), 1),
        final(fs).disk().room() ==> {
            let pre = old(fs).disk();
            let post = final(fs).disk();
            let bytes = record::version_bytes(version@);
            &&& pre.halted ==> r is Err
            &&& !post.halted ==> r is Ok && facts::stable(post.fs, manifest_at(plain(dir@)), bytes)
                && settled_around_now(pre.fs, post.fs, plain(dir@)) && facts::names_durable(
                post.fs,
                plain(dir@),
            )
            &&& !pre.halted && post.halted ==> facts::stable(post.fs, manifest_at(plain(dir@)), bytes)
                && settled_around_now(pre.fs, post.fs, plain(dir@)) || replace::unreplaced(
                pre.fs,
                post.fs,
                manifest_at(plain(dir@)),
            )
            &&& !pre.halted && post.halted && r is Ok ==> facts::stable(
                post.fs,
                manifest_at(plain(dir@)),
                bytes,
            ) && settled_around_now(pre.fs, post.fs, plain(dir@))
        },
{
    let tmp_name: Vec<u8> = names::manifest_tmp_file();
    let name: Vec<u8> = names::manifest_file();
    proof {
        names::lemma_names_simple(0);
    }
    let tmp: FilePath = FilePath::new(dir, &tmp_name);
    let target: FilePath = FilePath::new(dir, &name);
    let bytes: Vec<u8> = record::encode_version(version);
    proof {
        lemma_manifest_not_garbage(plain(dir@), Seq::empty());
    }
    replace::replace_file(fs, dir, &tmp, &target, &bytes)
}

} // verus!
