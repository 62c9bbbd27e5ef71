//! Replacing the contents of a file atomically with respect to power loss.

use vstd::prelude::*;

use super::{FileData, FilePath, FsState, PathView, Storage, StorageResult};
use crate::storage;
use crate::storage::facts;
use crate::storage::plain;

verus! {

/// A power loss makes of `target` in `m` what it makes of it in `fs`.
spec fn pending(fs: FsState, m: FsState, tmp: PathView, target: PathView) -> bool {
    &&& facts::calm(fs, m, set![tmp, target])
    &&& m.durable.contains_key(target) == fs.durable.contains_key(target)
    &&& fs.durable.contains_key(target) ==> {
        &&& m.durable[target] == fs.durable[target]
        &&& m.data[m.durable[target]] == fs.data[fs.durable[target]]
    }
}

/// From `fs` to `after`, `target` is as durable as it was.
pub open spec fn unreplaced(fs: FsState, after: FsState, target: PathView) -> bool {
    &&& forall|bytes: Seq<u8>| #[trigger]
        facts::stable(fs, target, bytes) ==> facts::stable(after, target, bytes)
    &&& !fs.durable.contains_key(target) ==> !facts::named(after, target)
}

proof fn lemma_pending_crash(
    fs: FsState,
    m: FsState,
    after: FsState,
    tmp: PathView,
    target: PathView,
)
    requires
        facts::sound(fs),
        pending(fs, m, tmp, target),
        storage::power_loss(m, after),
    ensures
        facts::keeps(fs, after, set![tmp, target]),
        unreplaced(fs, after, target),
{
    facts::lemma_power_loss_keeps(m, after);
    facts::lemma_keeps_mono(m, after, Set::empty(), set![tmp, target]);
    facts::lemma_keeps_trans(fs, m, after, set![tmp, target]);
    assert forall|bytes: Seq<u8>| #[trigger]
        facts::stable(fs, target, bytes) implies facts::stable(after, target, bytes) by {
        assert(facts::persists(m, target, bytes));
    }
}

proof fn lemma_deleted_pending(fs: FsState, tmp: PathView, target: PathView)
    requires
        facts::sound(fs),
        tmp != target,
    ensures
        pending(fs, fs.deleted(tmp), tmp, target),
{
    facts::lemma_delete_keeps(fs, tmp);
    facts::lemma_calm_mono(fs, fs.deleted(tmp), set![tmp], set![tmp, target]);
    fs.lemma_deleted(tmp);
    fs.unlinked(tmp).lemma_pruned();
    if fs.durable.contains_key(target) {
        assert(fs.unlinked(tmp).durable.contains_key(target));
    }
}

/// The scratch file is new, and what it holds is durable as far as `synced`.
spec fn scratch(m: FsState, tmp: PathView, d: FileData) -> bool {
    &&& facts::sound(m)
    &&& m.live.contains_key(tmp)
    &&& !(m.durable.contains_key(tmp) && m.durable[tmp] == m.live[tmp])
    &&& m.data[m.live[tmp]] == d
}

proof fn lemma_created_pending(fs: FsState, m: FsState, tmp: PathView, target: PathView)
    requires
        facts::sound(fs),
        tmp != target,
        pending(fs, m, tmp, target),
        !m.live.contains_key(tmp),
    ensures
        pending(fs, m.created(tmp), tmp, target),
        scratch(m.created(tmp), tmp, FileData { live: Seq::empty(), synced: Seq::empty() }),
{
    let n = m.created(tmp);
    facts::lemma_create_keeps(m, tmp);
    facts::lemma_calm_mono(m, n, set![tmp], set![tmp, target]);
    facts::lemma_calm_trans(fs, m, n, set![tmp, target]);
    if m.durable.contains_key(target) {
        assert(m.data.contains_key(m.durable[target]));
    }
    if m.durable.contains_key(tmp) {
        assert(m.data.contains_key(m.durable[tmp]));
    }
}

proof fn lemma_scratch_written(
    fs: FsState,
    m: FsState,
    n: FsState,
    tmp: PathView,
    target: PathView,
    d: FileData,
    e: FileData,
)
    requires
        facts::sound(fs),
        tmp != target,
        pending(fs, m, tmp, target),
        scratch(m, tmp, d),
        n == (FsState { data: m.data.insert(m.live[tmp], e), ..m }),
        facts::calm(m, n, set![tmp]),
    ensures
        pending(fs, n, tmp, target),
        scratch(n, tmp, e),
{
    facts::lemma_calm_mono(m, n, set![tmp], set![tmp, target]);
    facts::lemma_calm_trans(fs, m, n, set![tmp, target]);
    if m.durable.contains_key(target) {
        assert(m.live[tmp] != m.durable[target]);
    }
}

proof fn lemma_renamed_pending(
    fs: FsState,
    m: FsState,
    tmp: PathView,
    target: PathView,
    bytes: Seq<u8>,
)
    requires
        facts::sound(fs),
        tmp != target,
        tmp.0 == target.0,
        pending(fs, m, tmp, target),
        scratch(m, tmp, FileData { live: bytes, synced: bytes }),
    ensures
        pending(fs, m.renamed(tmp, target), tmp, target),
        facts::calm(fs, m.renamed(tmp, target).dir_synced(target.0), set![tmp, target]),
        facts::stable(m.renamed(tmp, target).dir_synced(target.0), target, bytes),
        !facts::named(m.renamed(tmp, target).dir_synced(target.0), tmp),
{
    let n = m.renamed(tmp, target);
    facts::lemma_rename_keeps(m, tmp, target);
    facts::lemma_calm_trans(fs, m, n, set![tmp, target]);
    m.lemma_renamed(tmp, target);
    m.moved(tmp, target).lemma_pruned();
    if m.durable.contains_key(target) {
        assert(m.moved(tmp, target).durable.contains_key(target));
    }
    assert(m.moved(tmp, target).live.contains_key(target));
    assert(n.data[n.live[target]] == (FileData { live: bytes, synced: bytes }));
    let o = n.dir_synced(target.0);
    facts::lemma_sync_dir_keeps(n, target.0);
    facts::lemma_calm_mono(n, o, Set::empty(), set![tmp, target]);
    facts::lemma_calm_trans(fs, n, o, set![tmp, target]);
    n.lemma_dir_synced(target.0);
    n.dir_committed(target.0).lemma_pruned();
    assert(n.dir_committed(target.0).live.contains_key(target));
}

/// The files of `target`'s directory whose bytes were durable have durable names
/// now, too.
pub open spec fn settled_around(
    fs: FsState,
    after: FsState,
    tmp: PathView,
    target: PathView,
) -> bool {
    forall|p: PathView, bytes: Seq<u8>|
        p != tmp && p != target && p.0 == target.0 && #[trigger] facts::visible(
            fs,
            p,
            FileData { live: bytes, synced: bytes },
        ) ==> facts::stable(after, p, bytes)
}

/// Makes `target` hold `bytes`, durably and all at once: `bytes` go to the
/// scratch file `tmp`, which is synced and renamed to `target`, and then the
/// directory is synced. A power loss on the way leaves `target` as it was, or
/// replaced.
pub fn replace_file<S: Storage>(
    fs: &mut S,
    dir: &[u8],
    tmp: &FilePath,
    target: &FilePath,
    bytes: &[u8],
) -> (r: StorageResult<()>)
    requires
        old(fs).wf(),
        old(fs).disk().dependable,
        old(fs).disk().room() ==> facts::sound(old(fs).disk().fs),
        tmp@.0 == plain(dir@),
        target@.0 == plain(dir@),
        tmp@ != target@,
    ensures
        final(fs).wf(),
        final(fs).disk().dependable,
        final(fs).disk().reliable == old(fs).disk().reliable,
        storage::used(old(fs).disk(), final(fs).disk(), 1),
        final(fs).disk().room() ==> {
            let pre = old(fs).disk();
            let post = final(fs).disk();
            &&& pre.room()
            &&& facts::keeps(pre.fs, post.fs, set![tmp@, target@])
            &&& pre.halted ==> r is Err && post.halted && post.fs == pre.fs
            &&& !post.halted ==> r is Ok && facts::calm(pre.fs, post.fs, set![tmp@, target@])
                && facts::stable(post.fs, target@, bytes@) && !facts::named(post.fs, tmp@)
                && settled_around(pre.fs, post.fs, tmp@, target@) && facts::names_durable(
                post.fs,
                target@.0,
            )
            &&& !pre.halted && post.halted ==> {
                &&& !pre.reliable
                &&& facts::stable(post.fs, target@, bytes@) && settled_around(
                    pre.fs,
                    post.fs,
                    tmp@,
                    target@,
                ) || unreplaced(pre.fs, post.fs, target@)
                &&& r is Ok ==> facts::stable(post.fs, target@, bytes@) && settled_around(
                    pre.fs,
                    post.fs,
                    tmp@,
                    target@,
                )
            }
        },
{
    let ghost fs0 = fs.disk().fs;
    let ghost t = set![tmp@, target@];
    proof {
        facts::lemma_calm_refl(fs0, t);
        if fs.disk().room() {
            lemma_deleted_pending(fs0, tmp@, target@);
        }
        assert(pending(fs0, fs0, tmp@, target@));
    }
    let ghost d0 = fs.disk();
    let _ = fs.delete(tmp);
    let ghost d1 = fs.disk();
    proof {
        if d1.room() && !d0.halted && d1.halted {
            if storage::power_loss(d0.fs, d1.fs) {
                lemma_pending_crash(fs0, d0.fs, d1.fs, tmp@, target@);
            } else {
                lemma_pending_crash(fs0, fs0.deleted(tmp@), d1.fs, tmp@, target@);
            }
        }
    }
    match fs.create(tmp) {
        Ok(_) => {},
        Err(e) => {
            proof {
                let d2 = fs.disk();
                if d2.room() && !d1.halted {
                    assert(pending(fs0, d1.fs, tmp@, target@));
                    assert(!d1.fs.live.contains_key(tmp@));
                    lemma_created_pending(fs0, d1.fs, tmp@, target@);
                    assert(d2.halted);
                    if storage::power_loss(d1.fs, d2.fs) {
                        lemma_pending_crash(fs0, d1.fs, d2.fs, tmp@, target@);
                    } else {
                        lemma_pending_crash(fs0, d1.fs.created(tmp@), d2.fs, tmp@, target@);
                    }
                }
            }
            return Err(e);
        },
    }
    let ghost d2 = fs.disk();
    proof {
        if d2.room() {
            assert(!d1.halted);
            assert(pending(fs0, d1.fs, tmp@, target@));
            assert(!d1.fs.live.contains_key(tmp@));
            lemma_created_pending(fs0, d1.fs, tmp@, target@);
            if d2.halted {
                if storage::power_loss(d1.fs, d2.fs) {
                    lemma_pending_crash(fs0, d1.fs, d2.fs, tmp@, target@);
                } else {
                    lemma_pending_crash(fs0, d1.fs.created(tmp@), d2.fs, tmp@, target@);
                }
            }
        }
    }
    let ghost empty = FileData { live: Seq::<u8>::empty(), synced: Seq::<u8>::empty() };
    let ghost written = FileData { live: bytes@, synced: Seq::<u8>::empty() };
    let ghost full = FileData { live: bytes@, synced: bytes@ };
    let appended = fs.append(tmp, bytes);
    let ghost d3 = fs.disk();
    proof {
        if d3.room() && !d2.halted {
            let m = d2.fs;
            let n = m.appended(tmp@, bytes@);
            facts::lemma_append_keeps(m, tmp@, bytes@);
            assert(Seq::<u8>::empty() + bytes@ =~= bytes@);
            lemma_scratch_written(fs0, m, n, tmp@, target@, empty, written);
            if d3.halted {
                if storage::power_loss(m, d3.fs) {
                    lemma_pending_crash(fs0, m, d3.fs, tmp@, target@);
                } else {
                    lemma_pending_crash(fs0, n, d3.fs, tmp@, target@);
                }
            }
        }
    }
    match appended {
        Ok(_) => {},
        Err(e) => {
            return Err(e);
        },
    }
    let synced = fs.sync_file(tmp);
    let ghost d4 = fs.disk();
    proof {
        if d4.room() && !d3.halted {
            let m = d3.fs;
            let n = m.file_synced(tmp@);
            facts::lemma_sync_file_keeps(m, tmp@);
            lemma_scratch_written(fs0, m, n, tmp@, target@, written, full);
            if d4.halted {
                if storage::power_loss(m, d4.fs) {
                    lemma_pending_crash(fs0, m, d4.fs, tmp@, target@);
                } else {
                    lemma_pending_crash(fs0, n, d4.fs, tmp@, target@);
                }
            }
        }
    }
    match synced {
        Ok(_) => {},
        Err(e) => {
            return Err(e);
        },
    }
    let renamed = fs.rename(tmp, target);
    let ghost d5 = fs.disk();
    proof {
        if d5.room() && !d4.halted {
            let m = d4.fs;
            lemma_renamed_pending(fs0, m, tmp@, target@, bytes@);
            if d5.halted {
                if storage::power_loss(m, d5.fs) {
                    lemma_pending_crash(fs0, m, d5.fs, tmp@, target@);
                } else {
                    lemma_pending_crash(fs0, m.renamed(tmp@, target@), d5.fs, tmp@, target@);
                }
            }
        }
    }
    match renamed {
        Ok(_) => {},
        Err(e) => {
            return Err(e);
        },
    }
    let committed = fs.sync_dir(dir);
    let ghost d6 = fs.disk();
    proof {
        if d6.room() && !d5.halted {
            let m = d5.fs;
            let n = m.dir_synced(target@.0);
            facts::lemma_sync_dir_settles(m, target@.0);
            assert(settled_around(fs0, n, tmp@, target@)) by {
                assert forall|p: PathView, b: Seq<u8>|
                    p != tmp@ && p != target@ && p.0 == target@.0 && #[trigger] facts::visible(
                        fs0,
                        p,
                        FileData { live: b, synced: b },
                    ) implies facts::stable(n, p, b) by {
                    assert(facts::visible(m, p, FileData { live: b, synced: b }));
                }
            }
            if d6.halted {
                if storage::power_loss(m, d6.fs) && committed is Err {
                    lemma_pending_crash(fs0, m, d6.fs, tmp@, target@);
                } else {
                    facts::lemma_power_loss_keeps(n, d6.fs);
                    facts::lemma_keeps_mono(n, d6.fs, Set::empty(), t);
                    facts::lemma_keeps_trans(fs0, n, d6.fs, t);
                    assert(facts::stable(d6.fs, target@, bytes@));
                    assert forall|p: PathView, b: Seq<u8>|
                        p != tmp@ && p != target@ && p.0 == target@.0 && #[trigger] facts::visible(
                            fs0,
                            p,
                            FileData { live: b, synced: b },
                        ) implies facts::stable(d6.fs, p, b) by {
                        assert(facts::stable(n, p, b));
                    }
                }
            }
        }
    }
    committed
}

} // verus!
