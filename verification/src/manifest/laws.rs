//! What a manifest is found to say later, and what becomes of the tables of a version that
//! is held.

use std::sync::Arc;

use vstd::prelude::*;

use super::record;
use super::{
    garbage_names, manifest_at, manifest_names, open_outcome, says, table_at, Manifest, MetaView,
    Result, Version, VersionView,
};
use crate::names;
use crate::order;
use crate::storage;
use crate::storage::facts;
use crate::storage::{Disk, FsState, PathView};

verus! {

/// A manifest that durably says a version, such as [`Manifest::install`] left behind it with
/// success, is opened as that version, also after a power loss. Only the backend can make
/// the opening fail.
pub proof fn lemma_installed_opens(
    fs: FsState,
    dir: Seq<u8>,
    v: VersionView,
    pre: Disk,
    post: Disk,
    r: Result<Manifest>,
)
    requires
        facts::sound(fs),
        says(fs, dir, v),
        facts::same_or_lost(fs, pre.fs),
        open_outcome(pre, post, dir, r),
        post.room(),
    ensures
        post == pre,
        says(post.fs, dir, v),
        r matches Ok(m) ==> m.version() == v,
        r matches Err(e) ==> e is Storage,
        pre.reliable && record::version_bytes(v).len() <= usize::MAX ==> r is Ok,
{
    if pre.fs != fs {
        facts::lemma_power_loss_keeps(fs, pre.fs);
    }
    assert(facts::stable(pre.fs, manifest_at(dir), record::version_bytes(v)));
    record::lemma_version_round_trip(v);
}

/// Where there is no manifest, one is opened that is empty, and the empty version durably
/// stands there, also after a power loss.
pub proof fn lemma_fresh_opens(
    pre: Disk,
    post: Disk,
    dir: Seq<u8>,
    r: Result<Manifest>,
    later: FsState,
)
    requires
        facts::sound(pre.fs),
        facts::carried(pre, post, manifest_names(dir)),
        open_outcome(pre, post, dir, r),
        post.room(),
        !pre.fs.live.contains_key(manifest_at(dir)),
        r is Ok,
        facts::same_or_lost(post.fs, later),
    ensures
        r->Ok_0.version() == VersionView::empty(),
        r->Ok_0.version().tiers.len() == 0,
        r->Ok_0.version().next_seq == 1,
        r->Ok_0.version().next_table_id == 1,
        says(later, dir, VersionView::empty()),
{
    if later != post.fs {
        facts::lemma_power_loss_keeps(post.fs, later);
    }
}

/// A manifest in which bytes were changed is refused as corrupt, where its checksum tells:
/// it always does where only the checksum itself was changed, and where only other bytes
/// were, if these have another checksum than before. One that is too short for a checksum
/// is refused as corrupt, too.
pub proof fn lemma_damaged_refused(
    pre: Disk,
    post: Disk,
    dir: Seq<u8>,
    v: VersionView,
    r: Result<Manifest>,
)
    requires
        open_outcome(pre, post, dir, r),
        post.room(),
        pre.fs.live.contains_key(manifest_at(dir)),
        record::version_fits(v),
        ({
            let s = pre.fs.content(manifest_at(dir));
            let was = record::version_bytes(v);
            ||| s.len() < 4
            ||| {
                &&& s.len() == was.len()
                &&& s != was
                &&& s.take(s.len() - 4) == was.take(was.len() - 4)
            }
            ||| {
                &&& s.len() == was.len()
                &&& s.skip(s.len() - 4) == was.skip(was.len() - 4)
                &&& record::crc_of(s) != record::crc_of(was)
            }
        }),
    ensures
        post == pre,
        r is Err,
        r->Err_0 is Corrupt || r->Err_0 is Storage,
        pre.reliable && pre.fs.content(manifest_at(dir)).len() <= usize::MAX
            ==> r->Err_0 is Corrupt,
{
    let s = pre.fs.content(manifest_at(dir));
    if s.len() < 4 {
        record::lemma_version_short(s);
    } else {
        record::lemma_version_parts(v);
        record::lemma_version_damaged(v, s);
    }
}

/// None of the tables of `v` is named in `touched`.
pub open spec fn spares(touched: Set<PathView>, dir: Seq<u8>, v: VersionView) -> bool {
    forall|id: u64| #[trigger] v.references(id) ==> !touched.contains(table_at(dir, id))
}

/// Installing a version touches no table of a version that is alive afterwards.
pub proof fn lemma_install_spares(dir: Seq<u8>, alive: Seq<VersionView>, v: VersionView)
    requires
        alive.contains(v),
    ensures
        spares(manifest_names(dir).union(garbage_names(dir, alive)), dir, v),
{
    assert forall|id: u64| #[trigger] v.references(id) implies !manifest_names(dir).union(
        garbage_names(dir, alive),
    ).contains(table_at(dir, id)) by {
        names::lemma_table_name(id);
        names::lemma_kinds_apart(id);
        let i = choose|i: int| 0 <= i < alive.len() && alive[i] == v;
        assert(alive[i].references(id));
        assert(names::manifest_name().len() == 8);
        assert(names::manifest_tmp_name().len() == 12);
    }
}

/// A version that is held keeps its tables: over any number of installs, after each of which
/// it is still alive, and whatever else is done meanwhile to other files, its tables stay as
/// they are, also when power is lost.
pub proof fn lemma_held_keeps_tables(
    dir: Seq<u8>,
    v: VersionView,
    disks: Seq<Disk>,
    touched: Seq<Set<PathView>>,
    alive: Seq<Seq<VersionView>>,
    id: u64,
    bytes: Seq<u8>,
)
    requires
        disks.len() == touched.len() + 1,
        disks.len() == alive.len() + 1,
        forall|i: int|
            0 <= i < touched.len() ==> facts::carried(
                disks[i],
                disks[i + 1],
                #[trigger] touched[i],
            ),
        forall|i: int|
            0 <= i < touched.len() ==> {
                ||| spares(#[trigger] touched[i], dir, v)
                ||| alive[i].contains(v) && touched[i] == manifest_names(dir).union(
                    garbage_names(dir, alive[i]),
                )
            },
        disks.last().room(),
        facts::sound(disks[0].fs),
        v.references(id),
        facts::stable(disks[0].fs, table_at(dir, id), bytes),
    ensures
        facts::sound(disks.last().fs),
        facts::stable(disks.last().fs, table_at(dir, id), bytes),
    decreases disks.len(),
{
    if disks.len() > 1 {
        let n = touched.len() - 1;
        assert(facts::carried(disks[n], disks[n + 1], touched[n]));
        lemma_held_keeps_tables(
            dir,
            v,
            disks.drop_last(),
            touched.drop_last(),
            alive.drop_last(),
            id,
            bytes,
        );
        if !spares(touched[n], dir, v) {
            lemma_install_spares(dir, alive[n], v);
        }
        assert(!touched[n].contains(table_at(dir, id)));
    }
}

/// The tables of tier `t`, none if there is no such tier.
pub open spec fn tier_of(v: VersionView, t: int) -> Seq<MetaView> {
    if 0 <= t < v.tiers.len() {
        v.tiers[t]
    } else {
        Seq::empty()
    }
}

proof fn lemma_trimmed(tiers: Seq<Seq<MetaView>>, t: int)
    ensures
        ({
            let less = super::trimmed(tiers);
            &&& less.len() <= tiers.len()
            &&& less.len() > 0 ==> less.last().len() > 0
            &&& 0 <= t < less.len() ==> less[t] == tiers[t]
            &&& less.len() <= t < tiers.len() ==> tiers[t].len() == 0
        }),
    decreases tiers.len(),
{
    if tiers.len() > 0 && tiers.last().len() == 0 {
        lemma_trimmed(tiers.drop_last(), t);
    }
}

/// What a flush makes of a version: the new table is the last of the youngest tier, every other
/// tier is as it was, the next sequence number is the greater of the two, and the next table id
/// is behind that of the new table and no smaller than it was.
pub proof fn lemma_version_flushed(v: VersionView, m: MetaView, next_seq: u64, t: int)
    requires
        m.id < u64::MAX,
    ensures
        ({
            let after = v.flushed(m, next_seq);
            &&& tier_of(after, 0) == tier_of(v, 0).push(m)
            &&& t != 0 ==> tier_of(after, t) == tier_of(v, t)
            &&& after.next_seq >= next_seq && after.next_seq >= v.next_seq
            &&& after.next_seq == next_seq || after.next_seq == v.next_seq
            &&& after.next_table_id > m.id && after.next_table_id >= v.next_table_id
            &&& after.next_table_id == m.id + 1 || after.next_table_id == v.next_table_id
        }),
{
    assert(super::padded(v.tiers, 1)[0] =~= tier_of(v, 0));
}

/// What a merge makes of a version: the tables of tier `t` are gone, the new one is the last of
/// the next tier, every other tier is as it was, none at the end is empty, the next sequence
/// number is as it was, and the next table id is behind that of the new table and no smaller
/// than it was.
pub proof fn lemma_version_compacted(v: VersionView, t: int, m: MetaView, s: int)
    requires
        0 <= t < v.tiers.len(),
        m.id < u64::MAX,
    ensures
        ({
            let after = v.compacted(t, m);
            &&& tier_of(after, t).len() == 0
            &&& tier_of(after, t + 1) == tier_of(v, t + 1).push(m)
            &&& s != t && s != t + 1 ==> tier_of(after, s) == tier_of(v, s)
            &&& after.tiers.len() > 0 ==> after.tiers.last().len() > 0
            &&& after.next_seq == v.next_seq
            &&& after.next_table_id > m.id && after.next_table_id >= v.next_table_id
            &&& after.next_table_id == m.id + 1 || after.next_table_id == v.next_table_id
        }),
        ({
            let after = v.cleared(t);
            &&& tier_of(after, t).len() == 0
            &&& s != t ==> tier_of(after, s) =~= tier_of(v, s)
            &&& after.tiers.len() > 0 ==> after.tiers.last().len() > 0
            &&& after.next_seq == v.next_seq
            &&& after.next_table_id == v.next_table_id
        }),
{
    let tiers = super::padded(v.tiers, (t + 2) as nat);
    let moved = tiers.update(t, Seq::empty()).update(t + 1, tiers[t + 1].push(m));
    assert(tiers[t + 1] =~= tier_of(v, t + 1));
    lemma_trimmed(moved, t);
    lemma_trimmed(moved, t + 1);
    lemma_trimmed(moved, s);
    let less = v.tiers.update(t, Seq::empty());
    lemma_trimmed(less, t);
    lemma_trimmed(less, s);
    if 0 <= s < tiers.len() {
        assert(tiers[s] =~= tier_of(v, s));
    }
    if s != t && s != t + 1 {
        assert(tier_of(v.compacted(t, m), s) =~= tier_of(v, s));
    }
}

/// How many tables there are in the first tiers.
pub open spec fn tables_in(tiers: Seq<Seq<MetaView>>) -> nat
    decreases tiers.len(),
{
    if tiers.len() == 0 {
        0
    } else {
        tables_in(tiers.drop_last()) + tiers.last().len()
    }
}

/// The two orders of the tables of a version have each of them once. In the order that begins
/// with the newest, the tables of a younger tier come first, and of a tier the last one. In the
/// other, too, those of a younger tier come first, and each tier is as it is.
pub proof fn lemma_table_orders(tiers: Seq<Seq<MetaView>>, t: int, i: int)
    requires
        0 <= t < tiers.len(),
        0 <= i < tiers[t].len(),
    ensures
        ({
            let start = tables_in(tiers.take(t)) as int;
            let n = tiers[t].len() as int;
            &&& super::newest_first(tiers).len() == tables_in(tiers)
            &&& super::flat(tiers).len() == tables_in(tiers)
            &&& start + n <= tables_in(tiers)
            &&& super::newest_first(tiers)[start + n - 1 - i] == tiers[t][i]
            &&& super::flat(tiers)[start + i] == tiers[t][i]
        }),
    decreases tiers.len(),
{
    lemma_orders_len(tiers);
    let front = tiers.drop_last();
    lemma_orders_len(front);
    if t < front.len() {
        lemma_table_orders(front, t, i);
        assert(front.take(t) =~= tiers.take(t));
    } else {
        assert(tiers.take(t) =~= front);
    }
}

proof fn lemma_orders_len(tiers: Seq<Seq<MetaView>>)
    ensures
        super::newest_first(tiers).len() == tables_in(tiers),
        super::flat(tiers).len() == tables_in(tiers),
    decreases tiers.len(),
{
    if tiers.len() > 0 {
        lemma_orders_len(tiers.drop_last());
    }
}

/// How many tiers hold tables: one more with each tier that does, and with one that does not,
/// as many; so all of them exactly if none is empty, and none exactly if all are.
pub proof fn lemma_populated(tiers: Seq<Seq<MetaView>>, tier: Seq<MetaView>)
    ensures
        super::populated(tiers.push(tier)) == super::populated(tiers) + if tier.len() == 0 {
            0nat
        } else {
            1
        },
        super::populated(tiers) <= tiers.len(),
        super::populated(tiers) == tiers.len() <==> forall|t: int|
            0 <= t < tiers.len() ==> (#[trigger] tiers[t]).len() > 0,
        super::populated(tiers) == 0 <==> forall|t: int|
            0 <= t < tiers.len() ==> (#[trigger] tiers[t]).len() == 0,
    decreases tiers.len(),
{
    assert(tiers.push(tier).drop_last() =~= tiers);
    if tiers.len() > 0 {
        let front = tiers.drop_last();
        lemma_populated(front, tier);
        assert forall|t: int| 0 <= t < front.len() implies #[trigger] front[t] == tiers[t] by {}
        assert(tiers[tiers.len() - 1] == tiers.last());
        if super::populated(tiers) == tiers.len() {
            assert forall|t: int| 0 <= t < tiers.len() implies (#[trigger] tiers[t]).len() > 0 by {
                if t < front.len() {
                    assert(front[t].len() > 0);
                }
            }
        }
        if super::populated(tiers) == 0 {
            assert forall|t: int| 0 <= t < tiers.len() implies (#[trigger] tiers[t]).len() == 0 by {
                if t < front.len() {
                    assert(front[t].len() == 0);
                }
            }
        }
    }
}

/// Which keys a table may have: those from its first to its last one.
pub proof fn lemma_spans(m: MetaView, key: Seq<u8>)
    ensures
        m.spans(key) <==> (key == m.first_key || order::lex_lt(m.first_key, key)) && (key
            == m.last_key || order::lex_lt(key, m.last_key)),
{
    order::lemma_lex_irreflexive(key);
    order::lemma_lex_total(key, m.first_key);
    order::lemma_lex_total(key, m.last_key);
    if order::lex_lt(m.first_key, key) {
        order::lemma_lex_asymmetric(m.first_key, key);
    }
    if order::lex_lt(key, m.last_key) {
        order::lemma_lex_asymmetric(key, m.last_key);
    }
}

/// Which files are deleted as garbage: those in the directory whose name is that of a table
/// that no version that is alive has in any of its tiers.
pub proof fn lemma_garbage(dir: Seq<u8>, vs: Seq<VersionView>, p: PathView)
    ensures
        garbage_names(dir, vs).contains(p) <==> p.0 == dir && names::table_id(p.1) is Some && forall|
            n: int,
            t: int,
            i: int,
        |
            0 <= n < vs.len() && 0 <= t < vs[n].tiers.len() && 0 <= i < vs[n].tiers[t].len()
                ==> (#[trigger] vs[n].tiers[t][i]).id != names::table_id(p.1)->0,
{
    if let Some(id) = names::table_id(p.1) {
        if super::any_references(vs, id) {
            let n = choose|n: int| 0 <= n < vs.len() && (#[trigger] vs[n]).references(id);
            let (t, i) = choose|t: int, i: int|
                0 <= t < vs[n].tiers.len() && 0 <= i < vs[n].tiers[t].len() && (
                #[trigger] vs[n].tiers[t][i]).id == id;
            assert(vs[n].tiers[t][i].id == id);
        } else {
            assert forall|n: int, t: int, i: int|
                0 <= n < vs.len() && 0 <= t < vs[n].tiers.len() && 0 <= i
                    < vs[n].tiers[t].len() implies (#[trigger] vs[n].tiers[t][i]).id != id by {
                if vs[n].tiers[t][i].id == id {
                    assert(vs[n].references(id));
                }
            }
        }
    }
}

/// Which superseded versions are kept: those with a handle besides the manifest's own, in their
/// order, and no others.
pub proof fn lemma_pinned_kept(versions: Seq<Arc<Version>>, counts: Seq<usize>, more: Arc<Version>)
    requires
        counts.len() == versions.len() + 1,
    ensures
        super::pinned(Seq::empty(), counts) == Seq::<Arc<Version>>::empty(),
        counts.last() > 1 ==> super::pinned(versions.push(more), counts) == super::pinned(
            versions,
            counts,
        ).push(more),
        counts.last() <= 1 ==> super::pinned(versions.push(more), counts) == super::pinned(
            versions,
            counts,
        ),
{
    assert(versions.push(more).drop_last() =~= versions);
}

/// What is left once garbage was swept: a file in the directory that has the name of a table is
/// one of a version that is alive.
pub proof fn lemma_swept(fs: FsState, dir: Seq<u8>, vs: Seq<VersionView>, p: PathView)
    requires
        super::swept(fs, dir, vs),
        fs.live.contains_key(p),
        p.0 == dir,
        names::table_id(p.1) is Some,
    ensures
        exists|n: int|
            0 <= n < vs.len() && (#[trigger] vs[n]).references(names::table_id(p.1)->0),
        forall|v: VersionView, id: u64| #[trigger]
            v.references(id) <==> exists|t: int, i: int|
                0 <= t < v.tiers.len() && 0 <= i < v.tiers[t].len() && (#[trigger] v.tiers[t][i]).id
                    == id,
{
    let id = names::table_id(p.1)->0;
    if !super::any_references(vs, id) {
        assert(garbage_names(dir, vs).contains(p));
    }
}

/// What was swept does not come back: where the names in the directory are durable, a power loss
/// brings back no table that no version references.
pub proof fn lemma_swept_stays(fs: FsState, dir: Seq<u8>, vs: Seq<VersionView>, later: FsState)
    requires
        super::swept(fs, dir, vs),
        facts::names_durable(fs, dir),
        storage::power_loss(fs, later),
    ensures
        super::swept(later, dir, vs),
        forall|p: PathView|
            p.0 == dir ==> (#[trigger] later.live.contains_key(p) <==> fs.live.contains_key(p)),
{
    assert forall|p: PathView| p.0 == dir implies (#[trigger] later.live.contains_key(p)
        <==> fs.live.contains_key(p)) by {
        assert(fs.durable.contains_key(p) <==> fs.live.contains_key(p));
    }
    assert forall|p: PathView| #[trigger] garbage_names(dir, vs).contains(p) implies
        !later.live.contains_key(p) by {
        assert(p.0 == dir);
    }
}

} // verus!
