//! What single operations and power losses do to files that an operation does
//! not touch, and to files that are durable.

use vstd::prelude::*;

use super::{Disk, FileData, FsState, PathView};
use crate::storage;

verus! {

/// `p` names a file in both namespaces that holds `bytes`, all of them durable.
pub open spec fn stable(fs: FsState, p: PathView, bytes: Seq<u8>) -> bool {
    &&& fs.live.contains_key(p)
    &&& fs.durable.contains_key(p)
    &&& fs.live[p] == fs.durable[p]
    &&& fs.data[fs.live[p]] == (FileData { live: bytes, synced: bytes })
}

/// After a power loss `p` will name a file that holds `bytes`.
pub open spec fn persists(fs: FsState, p: PathView, bytes: Seq<u8>) -> bool {
    &&& fs.durable.contains_key(p)
    &&& fs.data[fs.durable[p]] == (FileData { live: bytes, synced: bytes })
}

/// The names in `dir` are those that survive a power loss, and stand for the same files.
pub open spec fn names_durable(fs: FsState, dir: Seq<u8>) -> bool {
    forall|p: PathView|
        p.0 == dir ==> (#[trigger] fs.durable.contains_key(p) <==> fs.live.contains_key(p)) && (
        fs.live.contains_key(p) ==> fs.durable[p] == fs.live[p])
}

/// `p` is a name in one of the namespaces.
pub open spec fn named(fs: FsState, p: PathView) -> bool {
    fs.live.contains_key(p) || fs.durable.contains_key(p)
}

/// This process sees a file named `p`.
pub open spec fn is_live(fs: FsState, p: PathView) -> bool {
    fs.live.contains_key(p)
}

/// A file system without dangling or double names.
pub open spec fn sound(fs: FsState) -> bool {
    fs.valid() && fs.tidy()
}

/// From `pre` to `post`, of the names outside `touched` none is new, and what is
/// stable stays as it is.
pub open spec fn keeps(pre: FsState, post: FsState, touched: Set<PathView>) -> bool {
    &&& sound(pre) ==> sound(post)
    &&& forall|p: PathView, bytes: Seq<u8>|
        sound(pre) && !touched.contains(p) && #[trigger] stable(pre, p, bytes) ==> stable(
            post,
            p,
            bytes,
        )
    &&& forall|p: PathView|
        !touched.contains(p) && #[trigger] named(post, p) ==> named(pre, p)
}

/// `p` names one file in both namespaces, with these bytes.
pub open spec fn held(fs: FsState, p: PathView, d: FileData) -> bool {
    &&& fs.live.contains_key(p)
    &&& fs.durable.contains_key(p)
    &&& fs.live[p] == fs.durable[p]
    &&& fs.data[fs.live[p]] == d
}

/// This process reads these bytes at `p`, so much of them durable.
pub open spec fn visible(fs: FsState, p: PathView, d: FileData) -> bool {
    fs.live.contains_key(p) && fs.data[fs.live[p]] == d
}

/// As [`keeps`], and also bytes and names that are not durable stay as they are:
/// no power was lost.
pub open spec fn calm(pre: FsState, post: FsState, touched: Set<PathView>) -> bool {
    &&& keeps(pre, post, touched)
    &&& forall|p: PathView, d: FileData|
        sound(pre) && !touched.contains(p) && #[trigger] held(pre, p, d) ==> held(post, p, d)
    &&& forall|p: PathView, d: FileData|
        sound(pre) && !touched.contains(p) && #[trigger] visible(pre, p, d) ==> visible(post, p, d)
    &&& forall|p: PathView|
        !touched.contains(p) && #[trigger] is_live(post, p) ==> is_live(pre, p)
}

pub proof fn lemma_calm_refl(fs: FsState, touched: Set<PathView>)
    ensures
        calm(fs, fs, touched),
{
}

pub proof fn lemma_calm_trans(a: FsState, b: FsState, c: FsState, touched: Set<PathView>)
    requires
        calm(a, b, touched),
        calm(b, c, touched),
    ensures
        calm(a, c, touched),
{
    lemma_keeps_trans(a, b, c, touched);
    assert forall|p: PathView, d: FileData|
        sound(a) && !touched.contains(p) && #[trigger] held(a, p, d) implies held(c, p, d) by {
        assert(held(b, p, d));
    }
    assert forall|p: PathView, d: FileData|
        sound(a) && !touched.contains(p) && #[trigger] visible(a, p, d) implies visible(
        c,
        p,
        d,
    ) by {
        assert(visible(b, p, d));
    }
    assert forall|p: PathView| !touched.contains(p) && #[trigger] is_live(c, p) implies is_live(
        a,
        p,
    ) by {
        assert(is_live(b, p));
    }
}

pub proof fn lemma_calm_mono(a: FsState, b: FsState, small: Set<PathView>, large: Set<PathView>)
    requires
        calm(a, b, small),
        small.subset_of(large),
    ensures
        calm(a, b, large),
{
}

pub proof fn lemma_keeps_trans(a: FsState, b: FsState, c: FsState, touched: Set<PathView>)
    requires
        keeps(a, b, touched),
        keeps(b, c, touched),
    ensures
        keeps(a, c, touched),
{
    assert forall|p: PathView, bytes: Seq<u8>|
        sound(a) && !touched.contains(p) && #[trigger] stable(a, p, bytes) implies stable(
        c,
        p,
        bytes,
    ) by {
        assert(stable(b, p, bytes));
    }
    assert forall|p: PathView| !touched.contains(p) && #[trigger] named(c, p) implies named(
        a,
        p,
    ) by {
        assert(named(b, p));
    }
}

pub proof fn lemma_keeps_mono(a: FsState, b: FsState, small: Set<PathView>, large: Set<PathView>)
    requires
        keeps(a, b, small),
        small.subset_of(large),
    ensures
        keeps(a, b, large),
{
}

/// What is stable is held.
proof fn lemma_held_is_enough(fs: FsState, post: FsState, touched: Set<PathView>)
    requires
        forall|q: PathView, d: FileData|
            !touched.contains(q) && #[trigger] held(fs, q, d) ==> held(post, q, d),
    ensures
        forall|q: PathView, b: Seq<u8>|
            !touched.contains(q) && #[trigger] stable(fs, q, b) ==> stable(post, q, b),
{
    assert forall|q: PathView, b: Seq<u8>|
        !touched.contains(q) && #[trigger] stable(fs, q, b) implies stable(post, q, b) by {
        assert(held(fs, q, FileData { live: b, synced: b }));
        assert(held(post, q, FileData { live: b, synced: b }));
    }
}

pub proof fn lemma_create_keeps(fs: FsState, p: PathView)
    requires
        !fs.live.contains_key(p),
    ensures
        calm(fs, fs.created(p), set![p]),
{
    let post = fs.created(p);
    if sound(fs) {
        fs.lemma_created(p);
        assert(post.tidy()) by {
            assert forall|a: PathView, b: PathView|
                #![trigger post.live[a], post.live[b]]
                post.live.contains_key(a) && post.live.contains_key(b) && post.live[a]
                    == post.live[b] implies a == b by {
                if a != p && b != p {
                    assert(fs.live[a] == fs.live[b]);
                } else if a == p && b != p {
                    assert(fs.live.contains_key(b));
                    assert(fs.data.contains_key(fs.live[b]));
                } else if a != p && b == p {
                    assert(fs.live.contains_key(a));
                    assert(fs.data.contains_key(fs.live[a]));
                }
            }
            assert forall|a: PathView, b: PathView|
                #![trigger post.live[a], post.durable[b]]
                post.live.contains_key(a) && post.durable.contains_key(b) && post.live[a]
                    == post.durable[b] implies a == b by {
                assert(fs.durable.contains_key(b));
                assert(fs.data.contains_key(fs.durable[b]));
                if a != p {
                    assert(fs.live[a] == fs.durable[b]);
                }
            }
        }
    }
}

pub proof fn lemma_append_keeps(fs: FsState, p: PathView, bytes: Seq<u8>)
    requires
        fs.live.contains_key(p),
    ensures
        calm(fs, fs.appended(p, bytes), set![p]),
{
    let post = fs.appended(p, bytes);
    if sound(fs) {
        fs.lemma_appended(p, bytes);
        assert forall|q: PathView, d: FileData|
            !set![p].contains(q) && #[trigger] held(fs, q, d) implies held(post, q, d) by {
            assert(fs.live[p] != fs.live[q]);
        }
        assert forall|q: PathView, d: FileData|
            !set![p].contains(q) && #[trigger] visible(fs, q, d) implies visible(post, q, d) by {
            assert(fs.live[p] != fs.live[q]);
        }
        lemma_held_is_enough(fs, post, set![p]);
    }
}

pub proof fn lemma_sync_file_keeps(fs: FsState, p: PathView)
    requires
        fs.live.contains_key(p),
    ensures
        calm(fs, fs.file_synced(p), set![p]),
{
    let post = fs.file_synced(p);
    if sound(fs) {
        fs.lemma_file_synced(p);
        assert forall|q: PathView, d: FileData|
            !set![p].contains(q) && #[trigger] held(fs, q, d) implies held(post, q, d) by {
            assert(fs.live[p] != fs.live[q]);
        }
        assert forall|q: PathView, d: FileData|
            !set![p].contains(q) && #[trigger] visible(fs, q, d) implies visible(post, q, d) by {
            assert(fs.live[p] != fs.live[q]);
        }
        lemma_held_is_enough(fs, post, set![p]);
    }
}

/// Forgetting unnamed files touches no name.
proof fn lemma_prune_keeps(fs: FsState)
    ensures
        calm(fs, fs.pruned(), Set::empty()),
{
    if sound(fs) {
        fs.lemma_pruned();
    }
}

pub proof fn lemma_sync_dir_keeps(fs: FsState, dir: Seq<u8>)
    ensures
        calm(fs, fs.dir_synced(dir), Set::empty()),
{
    let mid = fs.dir_committed(dir);
    if sound(fs) {
        fs.lemma_dir_synced(dir);
        assert(mid.tidy()) by {
            assert forall|a: PathView, b: PathView|
                #![trigger mid.durable[a], mid.durable[b]]
                mid.durable.contains_key(a) && mid.durable.contains_key(b) && mid.durable[a]
                    == mid.durable[b] implies a == b by {
                if a.0 == dir && b.0 == dir {
                    assert(fs.live[a] == fs.live[b]);
                } else if a.0 == dir {
                    assert(fs.live[a] == fs.durable[b]);
                } else if b.0 == dir {
                    assert(fs.live[b] == fs.durable[a]);
                } else {
                    assert(fs.durable[a] == fs.durable[b]);
                }
            }
            assert forall|a: PathView, b: PathView|
                #![trigger mid.live[a], mid.durable[b]]
                mid.live.contains_key(a) && mid.durable.contains_key(b) && mid.live[a]
                    == mid.durable[b] implies a == b by {
                if b.0 == dir {
                    assert(fs.live[a] == fs.live[b]);
                } else {
                    assert(fs.live[a] == fs.durable[b]);
                }
            }
        }
        assert forall|q: PathView, b: Seq<u8>| #[trigger] stable(fs, q, b) implies stable(
            mid,
            q,
            b,
        ) by {}
    }
    assert(calm(fs, mid, Set::empty()));
    lemma_prune_keeps(mid);
    lemma_calm_trans(fs, mid, fs.dir_synced(dir), Set::empty());
}

pub proof fn lemma_delete_keeps(fs: FsState, p: PathView)
    ensures
        calm(fs, fs.deleted(p), set![p]),
{
    let mid = fs.unlinked(p);
    if sound(fs) {
        fs.lemma_deleted(p);
        assert(mid.tidy()) by {
            assert forall|a: PathView, b: PathView|
                #![trigger mid.live[a], mid.live[b]]
                mid.live.contains_key(a) && mid.live.contains_key(b) && mid.live[a] == mid.live[b]
                    implies a == b by {
                assert(fs.live[a] == fs.live[b]);
            }
            assert forall|a: PathView, b: PathView|
                #![trigger mid.live[a], mid.durable[b]]
                mid.live.contains_key(a) && mid.durable.contains_key(b) && mid.live[a]
                    == mid.durable[b] implies a == b by {
                assert(fs.live[a] == fs.durable[b]);
            }
        }
    }
    assert(calm(fs, mid, set![p]));
    lemma_prune_keeps(mid);
    lemma_calm_mono(mid, fs.deleted(p), Set::empty(), set![p]);
    lemma_calm_trans(fs, mid, fs.deleted(p), set![p]);
}

/// Renaming a file whose name is not durable yet touches the two names alone.
pub proof fn lemma_rename_keeps(fs: FsState, from: PathView, to: PathView)
    requires
        fs.live.contains_key(from),
        from != to,
        !(fs.durable.contains_key(from) && fs.durable[from] == fs.live[from]),
    ensures
        calm(fs, fs.renamed(from, to), set![from, to]),
{
    let mid = fs.moved(from, to);
    if sound(fs) {
        fs.lemma_renamed(from, to);
        assert(mid.tidy()) by {
            assert forall|a: PathView, b: PathView|
                #![trigger mid.live[a], mid.live[b]]
                mid.live.contains_key(a) && mid.live.contains_key(b) && mid.live[a] == mid.live[b]
                    implies a == b by {
                let a0 = if a == to { from } else { a };
                let b0 = if b == to { from } else { b };
                assert(fs.live[a0] == fs.live[b0]);
            }
            assert forall|a: PathView, b: PathView|
                #![trigger mid.live[a], mid.durable[b]]
                mid.live.contains_key(a) && mid.durable.contains_key(b) && mid.live[a]
                    == mid.durable[b] implies a == b by {
                let a0 = if a == to { from } else { a };
                assert(fs.live[a0] == fs.durable[b]);
            }
        }
    }
    assert(calm(fs, mid, set![from, to]));
    lemma_prune_keeps(mid);
    lemma_calm_mono(mid, fs.renamed(from, to), Set::empty(), set![from, to]);
    lemma_calm_trans(fs, mid, fs.renamed(from, to), set![from, to]);
}

/// Syncing a directory makes the durable files in it stable.
pub proof fn lemma_sync_dir_settles(fs: FsState, dir: Seq<u8>)
    requires
        sound(fs),
    ensures
        forall|p: PathView, bytes: Seq<u8>|
            p.0 == dir && #[trigger] visible(fs, p, FileData { live: bytes, synced: bytes })
                ==> stable(fs.dir_synced(dir), p, bytes),
{
    fs.lemma_dir_synced(dir);
    fs.dir_committed(dir).lemma_pruned();
    assert forall|p: PathView, bytes: Seq<u8>|
        p.0 == dir && #[trigger] visible(
            fs,
            p,
            FileData { live: bytes, synced: bytes },
        ) implies stable(fs.dir_synced(dir), p, bytes) by {
        assert(fs.dir_committed(dir).live.contains_key(p));
    }
}

/// The same file system, or what a power loss left of it.
pub open spec fn same_or_lost(fs: FsState, later: FsState) -> bool {
    later == fs || storage::power_loss(fs, later)
}

/// A power loss touches nothing that is stable, and adds no name.
pub proof fn lemma_power_loss_keeps(fs: FsState, after: FsState)
    requires
        storage::power_loss(fs, after),
    ensures
        keeps(fs, after, Set::empty()),
        sound(fs) ==> forall|p: PathView, bytes: Seq<u8>| #[trigger]
            persists(fs, p, bytes) ==> stable(after, p, bytes),
        sound(fs) ==> forall|p: PathView| #[trigger] named(after, p) ==> fs.durable.contains_key(p),
{
    if sound(fs) {
        assert forall|p: PathView, bytes: Seq<u8>| #[trigger]
            persists(fs, p, bytes) implies stable(after, p, bytes) by {
            lemma_persists(fs, after, p, bytes);
        }
        assert(after.valid()) by {
            assert forall|p: PathView| #[trigger]
                after.live.contains_key(p) implies after.data.contains_key(after.live[p]) by {
                assert(fs.durable.contains_key(p));
            }
            assert forall|p: PathView| #[trigger]
                after.durable.contains_key(p) implies after.data.contains_key(after.durable[p]) by {
                assert(fs.durable.contains_key(p));
            }
            assert forall|id: nat| #[trigger] after.data.contains_key(id) implies id < after.next by {
                let p = choose|p: PathView| #[trigger]
                    fs.durable.contains_key(p) && fs.durable[p] == id;
                assert(fs.data.contains_key(fs.durable[p]));
            }
        }
        assert(after.tidy()) by {
            assert forall|a: PathView, b: PathView|
                #![trigger after.live[a], after.live[b]]
                after.live.contains_key(a) && after.live.contains_key(b) && after.live[a]
                    == after.live[b] implies a == b by {
                assert(fs.durable[a] == fs.durable[b]);
            }
            assert forall|a: PathView, b: PathView|
                #![trigger after.durable[a], after.durable[b]]
                after.durable.contains_key(a) && after.durable.contains_key(b) && after.durable[a]
                    == after.durable[b] implies a == b by {
                assert(fs.durable[a] == fs.durable[b]);
            }
            assert forall|a: PathView, b: PathView|
                #![trigger after.live[a], after.durable[b]]
                after.live.contains_key(a) && after.durable.contains_key(b) && after.live[a]
                    == after.durable[b] implies a == b by {
                assert(fs.durable[a] == fs.durable[b]);
            }
        }
        assert forall|p: PathView, bytes: Seq<u8>| #[trigger]
            stable(fs, p, bytes) implies stable(after, p, bytes) by {
            assert(persists(fs, p, bytes));
        }
    }
}

proof fn lemma_persists(fs: FsState, after: FsState, p: PathView, bytes: Seq<u8>)
    requires
        storage::power_loss(fs, after),
        persists(fs, p, bytes),
    ensures
        stable(after, p, bytes),
{
    let id = fs.durable[p];
    assert(fs.durable.contains_key(p));
    assert(after.data.contains_key(id));
    let d = fs.data[id];
    let tail = d.live.skip(d.synced.len() as int);
    assert(storage::torn(d, after.data[id].live));
    assert(after.data[id].live == bytes);
    assert(after.data[id] =~= (FileData { live: bytes, synced: bytes }));
}

/// A power loss sees only the durable names and the files they stand for.
pub proof fn lemma_power_loss_sees(a: FsState, b: FsState, after: FsState)
    requires
        storage::power_loss(a, after),
        a.durable == b.durable,
        forall|p: PathView| #[trigger]
            b.durable.contains_key(p) ==> a.data[b.durable[p]] == b.data[b.durable[p]],
        a.next >= b.next,
    ensures
        storage::power_loss(b, after),
{
    assert forall|id: nat| #[trigger] after.data.contains_key(id) implies storage::torn(
        b.data[id],
        after.data[id].live,
    ) && after.data[id].synced == after.data[id].live by {
        let p = choose|p: PathView| #[trigger] a.durable.contains_key(p) && a.durable[p] == id;
        assert(b.durable.contains_key(p));
    }
}

/// Whatever became of an operation, it kept what its effect keeps.
pub proof fn lemma_outcome_keeps(
    pre: Disk,
    post: Disk,
    can: bool,
    effect: FsState,
    ok: bool,
    touched: Set<PathView>,
)
    requires
        storage::outcome(pre, post, can, effect, ok),
        pre.dependable,
        post.room(),
        can ==> calm(pre.fs, effect, touched),
    ensures
        keeps(pre.fs, post.fs, touched),
        !post.halted ==> calm(pre.fs, post.fs, touched),
{
    lemma_calm_refl(pre.fs, touched);
    if !pre.halted && post.halted {
        if storage::power_loss(pre.fs, post.fs) {
            lemma_power_loss_keeps(pre.fs, post.fs);
            lemma_keeps_mono(pre.fs, post.fs, Set::empty(), touched);
        } else {
            lemma_power_loss_keeps(effect, post.fs);
            lemma_keeps_mono(effect, post.fs, Set::empty(), touched);
            lemma_keeps_trans(pre.fs, effect, post.fs, touched);
        }
    }
}

/// What a sequence of operations that touches only the names in `touched` may do
/// to a dependable backend.
pub open spec fn carried(pre: Disk, post: Disk, touched: Set<PathView>) -> bool {
    &&& post.dependable
    &&& post.reliable == pre.reliable
    &&& post.room() ==> {
        &&& pre.room()
        &&& keeps(pre.fs, post.fs, touched)
        &&& pre.halted ==> post.halted && post.fs == pre.fs
        &&& !post.halted ==> calm(pre.fs, post.fs, touched)
        &&& !pre.halted && post.halted ==> !pre.reliable
    }
}

pub proof fn lemma_carried_refl(d: Disk, touched: Set<PathView>)
    requires
        d.dependable,
    ensures
        carried(d, d, touched),
{
    lemma_calm_refl(d.fs, touched);
}

pub proof fn lemma_carried_trans(a: Disk, b: Disk, c: Disk, touched: Set<PathView>)
    requires
        carried(a, b, touched),
        carried(b, c, touched),
    ensures
        carried(a, c, touched),
{
    if c.room() {
        lemma_keeps_trans(a.fs, b.fs, c.fs, touched);
        if !c.halted {
            lemma_calm_trans(a.fs, b.fs, c.fs, touched);
        }
    }
}

pub proof fn lemma_carried_mono(a: Disk, b: Disk, small: Set<PathView>, large: Set<PathView>)
    requires
        carried(a, b, small),
        small.subset_of(large),
    ensures
        carried(a, b, large),
{
}

/// One operation carries the backend on.
pub proof fn lemma_outcome_carries(
    pre: Disk,
    post: Disk,
    can: bool,
    effect: FsState,
    ok: bool,
    touched: Set<PathView>,
)
    requires
        storage::outcome(pre, post, can, effect, ok),
        pre.dependable,
        post.room() && can ==> calm(pre.fs, effect, touched),
    ensures
        carried(pre, post, touched),
{
    if post.room() {
        lemma_outcome_keeps(pre, post, can, effect, ok, touched);
    }
}

} // verus!
