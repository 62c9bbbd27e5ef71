//! What the tables of a version hold, as a stack of runs.

use vstd::prelude::*;

use crate::manifest;
use crate::manifest::{MetaView, VersionView};
use crate::model;
use crate::model::Rec;
use crate::names;
use crate::sstable::reader;
use crate::sstable::table;
use crate::storage::facts;
use crate::storage::{FsState, PathView};

verus! {

/// The records of a table file.
pub open spec fn table_recs(bytes: Seq<u8>) -> Seq<Rec> {
    reader::collected(table::items_from(bytes, table::opened(bytes)->Ok_0.index, 0))->Ok_0
}

/// A table's records are those it was written with.
pub proof fn lemma_table_recs(bytes: Seq<u8>, recs: Seq<Rec>)
    requires
        table::is_table(bytes, recs),
    ensures
        table_recs(bytes) == recs,
{
    reader::lemma_table_reads(bytes, recs);
}

/// `m` describes a table with these records.
pub open spec fn describes(m: MetaView, recs: Seq<Rec>) -> bool {
    &&& recs.len() > 0
    &&& m.num_entries == recs.len()
    &&& m.first_key == recs[0].key
    &&& m.last_key == recs.last().key
}

/// The records in the file of table `m`.
pub open spec fn held_by(fs: FsState, dir: Seq<u8>, m: MetaView) -> Seq<Rec> {
    table_recs(fs.content(manifest::table_at(dir, m.id)))
}

/// The file of table `m` is durable, and `m` describes it.
pub open spec fn meta_good(fs: FsState, dir: Seq<u8>, m: MetaView) -> bool {
    let p = manifest::table_at(dir, m.id);
    &&& facts::stable(fs, p, fs.content(p))
    &&& table::is_table(fs.content(p), held_by(fs, dir, m))
    &&& describes(m, held_by(fs, dir, m))
}

/// The records of each of the tables.
pub open spec fn runs_of(fs: FsState, dir: Seq<u8>, metas: Seq<MetaView>) -> Seq<Seq<Rec>> {
    Seq::new(metas.len(), |i: int| held_by(fs, dir, metas[i]))
}

/// What the tables of a version hold, newest first.
pub open spec fn stack_of(fs: FsState, dir: Seq<u8>, v: VersionView) -> Seq<Seq<Rec>> {
    runs_of(fs, dir, manifest::newest_first(v.tiers))
}

/// Every record of every run has a sequence number below `next`.
pub open spec fn below(runs: Seq<Seq<Rec>>, next: u64) -> bool {
    forall|i: int, j: int|
        0 <= i < runs.len() && 0 <= j < runs[i].len() ==> (#[trigger] runs[i][j]).seq < next
}

/// Every table of the version is good and has an id that was handed out.
pub open spec fn metas_good(fs: FsState, dir: Seq<u8>, v: VersionView) -> bool {
    forall|k: int|
        0 <= k < manifest::newest_first(v.tiers).len() ==> meta_good(
            fs,
            dir,
            #[trigger] manifest::newest_first(v.tiers)[k],
        ) && manifest::newest_first(v.tiers)[k].id < v.next_table_id
}

/// The tables of a version are whole, and no older one has a newer record.
#[verifier::opaque]
pub open spec fn good_version(fs: FsState, dir: Seq<u8>, v: VersionView) -> bool {
    &&& metas_good(fs, dir, v)
    &&& model::is_stack(stack_of(fs, dir, v))
    &&& below(stack_of(fs, dir, v), v.next_seq)
}

/// What a good version is.
pub proof fn lemma_good(fs: FsState, dir: Seq<u8>, v: VersionView)
    ensures
        good_version(fs, dir, v) == (metas_good(fs, dir, v) && model::is_stack(
            stack_of(fs, dir, v),
        ) && below(stack_of(fs, dir, v), v.next_seq)),
{
    reveal(good_version);
}

/// The youngest tier comes first.
pub proof fn lemma_newest_first_concat(a: Seq<Seq<MetaView>>, b: Seq<Seq<MetaView>>)
    ensures
        manifest::newest_first(a + b) == manifest::newest_first(a) + manifest::newest_first(b),
    decreases b.len(),
{
    if b.len() == 0 {
        assert(a + b =~= a);
        assert(manifest::newest_first(a) + manifest::newest_first(b) =~= manifest::newest_first(a));
    } else {
        assert((a + b).drop_last() =~= a + b.drop_last());
        lemma_newest_first_concat(a, b.drop_last());
        assert(manifest::newest_first(a + b) =~= manifest::newest_first(a) + manifest::newest_first(
            b,
        ));
    }
}

/// One tier alone.
pub proof fn lemma_newest_first_one(tier: Seq<MetaView>)
    ensures
        manifest::newest_first(seq![tier]) == manifest::reversed(tier),
{
    assert(seq![tier].drop_last() =~= Seq::empty());
    assert(manifest::newest_first(seq![tier].drop_last()) =~= Seq::empty());
    assert(seq![tier].last() == tier);
    assert(manifest::newest_first(seq![tier]) =~= manifest::reversed(tier));
}

/// Empty tiers hold no tables.
pub proof fn lemma_newest_first_empty(tiers: Seq<Seq<MetaView>>)
    requires
        forall|t: int| 0 <= t < tiers.len() ==> (#[trigger] tiers[t]).len() == 0,
    ensures
        manifest::newest_first(tiers) == Seq::<MetaView>::empty(),
    decreases tiers.len(),
{
    if tiers.len() > 0 {
        lemma_newest_first_empty(tiers.drop_last());
        assert(tiers.last().len() == 0);
        assert(manifest::newest_first(tiers) =~= Seq::empty());
    }
}

/// Trimming empty tiers loses no table.
pub proof fn lemma_trimmed(tiers: Seq<Seq<MetaView>>)
    ensures
        manifest::newest_first(manifest::trimmed(tiers)) == manifest::newest_first(tiers),
    decreases tiers.len(),
{
    if tiers.len() > 0 && tiers.last().len() == 0 {
        lemma_trimmed(tiers.drop_last());
        assert(manifest::newest_first(tiers) =~= manifest::newest_first(tiers.drop_last()));
    }
}

/// Empty tiers more hold no tables.
pub proof fn lemma_padded(tiers: Seq<Seq<MetaView>>, n: nat)
    ensures
        manifest::newest_first(manifest::padded(tiers, n)) == manifest::newest_first(tiers),
{
    if tiers.len() < n {
        let more = Seq::new((n - tiers.len()) as nat, |i: int| Seq::<MetaView>::empty());
        lemma_newest_first_concat(tiers, more);
        lemma_newest_first_empty(more);
        assert(manifest::newest_first(tiers) + Seq::<MetaView>::empty() =~= manifest::newest_first(
            tiers,
        ));
    }
}

/// The tables before tier `t`, in it and behind it.
pub proof fn lemma_split(tiers: Seq<Seq<MetaView>>, t: int)
    requires
        0 <= t < tiers.len(),
    ensures
        manifest::newest_first(tiers) == manifest::newest_first(tiers.take(t))
            + manifest::reversed(tiers[t]) + manifest::newest_first(tiers.skip(t + 1)),
{
    let a = tiers.take(t);
    let b = seq![tiers[t]];
    let c = tiers.skip(t + 1);
    assert(tiers =~= a + b + c);
    lemma_newest_first_concat(a + b, c);
    lemma_newest_first_concat(a, b);
    lemma_newest_first_one(tiers[t]);
}

/// A table of the version has its place in the order of tables.
pub proof fn lemma_placed(tiers: Seq<Seq<MetaView>>, t: int, i: int) -> (k: int)
    requires
        0 <= t < tiers.len(),
        0 <= i < tiers[t].len(),
    ensures
        0 <= k < manifest::newest_first(tiers).len(),
        manifest::newest_first(tiers)[k] == tiers[t][i],
{
    lemma_split(tiers, t);
    let k = manifest::newest_first(tiers.take(t)).len() + (tiers[t].len() - 1 - i);
    assert(manifest::reversed(tiers[t])[tiers[t].len() - 1 - i] == tiers[t][i]);
    k
}

/// A table in the order of tables is one of the version.
pub proof fn lemma_listed(tiers: Seq<Seq<MetaView>>, k: int) -> (r: (int, int))
    requires
        0 <= k < manifest::newest_first(tiers).len(),
    ensures
        0 <= r.0 < tiers.len(),
        0 <= r.1 < tiers[r.0].len(),
        tiers[r.0][r.1] == manifest::newest_first(tiers)[k],
    decreases tiers.len(),
{
    let front = manifest::newest_first(tiers.drop_last());
    if k < front.len() {
        lemma_listed(tiers.drop_last(), k)
    } else {
        let last = tiers.last();
        (tiers.len() - 1, last.len() - 1 - (k - front.len()))
    }
}

/// The order of tables after a flush.
pub proof fn lemma_flushed(v: VersionView, m: MetaView, next_seq: u64)
    ensures
        manifest::newest_first(v.flushed(m, next_seq).tiers) == seq![m] + manifest::newest_first(
            v.tiers,
        ),
{
    let tiers = manifest::padded(v.tiers, 1);
    let after = v.flushed(m, next_seq).tiers;
    lemma_padded(v.tiers, 1);
    lemma_split(tiers, 0);
    lemma_split(after, 0);
    assert(after.take(0) =~= tiers.take(0));
    assert(after.skip(1) =~= tiers.skip(1));
    assert(after[0] == tiers[0].push(m));
    assert(tiers.take(0) =~= Seq::empty());
    assert(manifest::reversed(tiers[0].push(m)) =~= seq![m] + manifest::reversed(tiers[0]));
    assert(manifest::newest_first(after) =~= seq![m] + manifest::newest_first(tiers));
}

/// The tables before tier `t`.
pub open spec fn above(v: VersionView, t: int) -> Seq<MetaView> {
    manifest::newest_first(v.tiers.take(t))
}

/// The tables behind tier `t`.
pub open spec fn beneath(v: VersionView, t: int) -> Seq<MetaView> {
    manifest::newest_first(v.tiers.skip(t + 1))
}

/// The order of tables after a compaction.
pub proof fn lemma_compacted(v: VersionView, t: int, m: MetaView)
    requires
        0 <= t < v.tiers.len(),
    ensures
        manifest::newest_first(v.compacted(t, m).tiers) == above(v, t) + seq![m] + beneath(v, t),
{
    let tiers = manifest::padded(v.tiers, (t + 2) as nat);
    let moved = tiers.update(t, Seq::empty()).update(t + 1, tiers[t + 1].push(m));
    lemma_trimmed(moved);
    lemma_split(moved, t);
    assert(moved.take(t) =~= v.tiers.take(t));
    let low = moved.skip(t + 1);
    lemma_split(low, 0);
    assert(low.take(0) =~= Seq::empty());
    assert(low[0] == tiers[t + 1].push(m));
    assert(manifest::reversed(tiers[t + 1].push(m)) =~= seq![m] + manifest::reversed(
        tiers[t + 1],
    ));
    let before = tiers.skip(t + 1);
    lemma_split(before, 0);
    assert(before.take(0) =~= Seq::empty());
    assert(before.skip(1) =~= low.skip(1));
    assert(manifest::newest_first(low) =~= seq![m] + manifest::newest_first(before));
    let rest = v.tiers.skip(t + 1);
    lemma_padded(rest, 1);
    assert(before =~= manifest::padded(rest, 1));
    assert(manifest::reversed(moved[t]) =~= Seq::empty());
    assert(manifest::newest_first(moved) =~= above(v, t) + seq![m] + beneath(v, t));
}

/// The order of tables after a tier was cleared.
pub proof fn lemma_cleared(v: VersionView, t: int)
    requires
        0 <= t < v.tiers.len(),
    ensures
        manifest::newest_first(v.cleared(t).tiers) == above(v, t) + beneath(v, t),
{
    let moved = v.tiers.update(t, Seq::empty());
    lemma_trimmed(moved);
    lemma_split(moved, t);
    assert(moved.take(t) =~= v.tiers.take(t));
    assert(moved.skip(t + 1) =~= v.tiers.skip(t + 1));
    assert(manifest::reversed(moved[t]) =~= Seq::empty());
    assert(manifest::newest_first(moved) =~= above(v, t) + beneath(v, t));
}

/// What is stable in one state is so in another, with the same bytes.
pub proof fn lemma_meta_kept(pre: FsState, post: FsState, dir: Seq<u8>, m: MetaView)
    requires
        meta_good(pre, dir, m),
        facts::stable(
            post,
            manifest::table_at(dir, m.id),
            pre.content(manifest::table_at(dir, m.id)),
        ),
    ensures
        meta_good(post, dir, m),
        held_by(post, dir, m) == held_by(pre, dir, m),
        post.content(manifest::table_at(dir, m.id)) == pre.content(manifest::table_at(dir, m.id)),
{
}

/// Operations that touch none of a version's tables leave the version as it is.
pub proof fn lemma_version_kept(
    pre: FsState,
    post: FsState,
    touched: Set<PathView>,
    dir: Seq<u8>,
    v: VersionView,
)
    requires
        facts::sound(pre),
        facts::keeps(pre, post, touched),
        good_version(pre, dir, v),
        forall|id: u64|
            v.references(id) ==> !touched.contains(#[trigger] manifest::table_at(dir, id)),
    ensures
        good_version(post, dir, v),
        stack_of(post, dir, v) == stack_of(pre, dir, v),
        forall|id: u64|
            v.references(id) ==> post.content(#[trigger] manifest::table_at(dir, id))
                == pre.content(manifest::table_at(dir, id)) && post.live.contains_key(
                manifest::table_at(dir, id),
            ),
{
    reveal(good_version);
    let order = manifest::newest_first(v.tiers);
    assert forall|k: int| 0 <= k < order.len() implies meta_good(post, dir, #[trigger] order[k])
        && order[k].id < v.next_table_id && held_by(post, dir, order[k]) == held_by(
        pre,
        dir,
        order[k],
    ) by {
        let r = lemma_listed(v.tiers, k);
        assert(v.tiers[r.0][r.1].id == order[k].id);
        assert(v.references(order[k].id));
        lemma_meta_kept(pre, post, dir, order[k]);
    }
    assert(stack_of(post, dir, v) =~= stack_of(pre, dir, v));
    assert forall|id: u64| v.references(id) implies post.content(
        #[trigger] manifest::table_at(dir, id),
    ) == pre.content(manifest::table_at(dir, id)) && post.live.contains_key(
        manifest::table_at(dir, id),
    ) by {
        let (t, i) = choose|t: int, i: int|
            0 <= t < v.tiers.len() && 0 <= i < v.tiers[t].len() && (
            #[trigger] v.tiers[t][i]).id == id;
        let k = lemma_placed(v.tiers, t, i);
        assert(meta_good(pre, dir, order[k]));
    }
}

/// The names of tables differ.
pub proof fn lemma_table_at_injective(dir: Seq<u8>, a: u64, b: u64)
    requires
        manifest::table_at(dir, a) == manifest::table_at(dir, b),
    ensures
        a == b,
{
    names::lemma_table_name(a);
    names::lemma_table_name(b);
}

/// An id that a version references was handed out.
pub proof fn lemma_referenced_below(fs: FsState, dir: Seq<u8>, v: VersionView, id: u64)
    requires
        metas_good(fs, dir, v),
        v.references(id),
    ensures
        id < v.next_table_id,
        exists|k: int|
            0 <= k < manifest::newest_first(v.tiers).len() && (
            #[trigger] manifest::newest_first(v.tiers)[k]).id == id,
{
    let (t, i) = choose|t: int, i: int|
        0 <= t < v.tiers.len() && 0 <= i < v.tiers[t].len() && (#[trigger] v.tiers[t][i]).id == id;
    let k = lemma_placed(v.tiers, t, i);
    assert(meta_good(fs, dir, manifest::newest_first(v.tiers)[k]));
}

/// What a version references is in the order of its tables.
pub proof fn lemma_references(v: VersionView, id: u64)
    ensures
        v.references(id) <==> exists|k: int|
            0 <= k < manifest::newest_first(v.tiers).len() && (
            #[trigger] manifest::newest_first(v.tiers)[k]).id == id,
{
    let order = manifest::newest_first(v.tiers);
    if v.references(id) {
        let (t, i) = choose|t: int, i: int|
            0 <= t < v.tiers.len() && 0 <= i < v.tiers[t].len() && (
            #[trigger] v.tiers[t][i]).id == id;
        let k = lemma_placed(v.tiers, t, i);
        assert(order[k].id == id);
    }
    if exists|k: int| 0 <= k < order.len() && (#[trigger] order[k]).id == id {
        let k = choose|k: int| 0 <= k < order.len() && (#[trigger] order[k]).id == id;
        let r = lemma_listed(v.tiers, k);
        assert(v.tiers[r.0][r.1].id == id);
    }
}

/// The tables that two versions share have the same bytes in both states, and what
/// only the second one references is new.
pub open spec fn grown(
    pre: FsState,
    post: FsState,
    dir: Seq<u8>,
    v: VersionView,
    v2: VersionView,
) -> bool {
    &&& v2.next_table_id >= v.next_table_id
    &&& forall|id: u64| #[trigger]
        v2.references(id) ==> id == v.next_table_id && id < v2.next_table_id || v.references(id)
            && post.content(manifest::table_at(dir, id)) == pre.content(
            manifest::table_at(dir, id),
        )
}

/// Nothing happened.
pub proof fn lemma_grown_same(
    pre: FsState,
    post: FsState,
    touched: Set<PathView>,
    dir: Seq<u8>,
    v: VersionView,
)
    requires
        facts::sound(pre),
        facts::keeps(pre, post, touched),
        good_version(pre, dir, v),
        forall|id: u64|
            v.references(id) ==> !touched.contains(#[trigger] manifest::table_at(dir, id)),
    ensures
        grown(pre, post, dir, v, v),
{
    lemma_version_kept(pre, post, touched, dir, v);
    assert forall|id: u64| #[trigger] v.references(id) implies post.content(
        manifest::table_at(dir, id),
    ) == pre.content(manifest::table_at(dir, id)) by {
        let p = manifest::table_at(dir, id);
    }
}

} // verus!
