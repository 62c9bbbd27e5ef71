//! The storage seam: a single narrow trait ([`Storage`]) that the entire engine
//! is written against.
//!
//! A backend behaves like a flat namespace of append-mostly files, each named by
//! a directory and a file name, with positional reads and writes, atomic rename
//! and explicit durability barriers.
//!
//! # The durability contract
//!
//! A mutating call (`append`, `write_at`, `create`, `delete`, `rename`) only
//! promises that its effect is visible to later operations of this process.
//! Durability is earned separately:
//!
//! * `sync_file(p)` makes every buffered byte of `p` durable;
//! * `sync_dir(d)` makes the directory entries under `d` durable.
//!
//! A power loss discards what was not made durable by those barriers, and may
//! keep a torn or damaged piece of what had been appended to a file since it was
//! last synced.

use vstd::prelude::*;

use crate::order;

pub mod facts;
pub mod path;
pub mod replace;
pub mod sim;

pub use path::{plain, FilePath, PathView};
pub use sim::{CrashReport, SimConfig, SimFs, TearMode};

verus! {

/// Result alias for storage operations.
pub type StorageResult<T> = Result<T, StorageError>;

/// Errors returned by a [`Storage`] backend.
#[derive(Debug, Clone, PartialEq, Eq)]
pub enum StorageError {
    /// The named path does not exist.
    NotFound(FilePath),
    /// A `create` targeted a path that already exists.
    AlreadyExists(FilePath),
    /// A positional read or write addressed a range past the end of the file.
    OutOfBounds {
        /// The file that was addressed.
        path: FilePath,
        /// The offset the caller asked for.
        offset: u64,
        /// The current length of the file.
        len: u64,
    },
    /// The path named a directory where a file was expected, or the reverse.
    NotADirectory(FilePath),
    /// An underlying I/O error.
    Io {
        /// The path being operated on when the error occurred.
        path: FilePath,
        /// A human-readable description of the error.
        message: String,
    },
}

/// The bytes of one file.
#[verifier::ext_equal]
pub struct FileData {
    /// What this process reads.
    pub live: Seq<u8>,
    /// What was last made durable.
    pub synced: Seq<u8>,
}

/// A file system: two namespaces over one set of files.
#[verifier::ext_equal]
pub struct FsState {
    /// The names that this process sees, each with the file it stands for.
    pub live: Map<PathView, nat>,
    /// The names that survive a power loss, each with the file it stands for.
    pub durable: Map<PathView, nat>,
    /// The bytes of every file that some name stands for.
    pub data: Map<nat, FileData>,
    /// The number that the next file gets.
    pub next: nat,
}

/// A storage backend as its users see it.
pub struct Disk {
    /// The files and their names.
    pub fs: FsState,
    /// Power was lost: every later mutating operation fails.
    pub halted: bool,
    /// Power is never lost, and no operation fails that could be carried out.
    pub reliable: bool,
    /// A power loss halts the backend, and an operation that could be carried
    /// out fails only with a power loss.
    pub dependable: bool,
    /// How many more files can be created.
    pub spare: nat,
}

impl Disk {
    /// The backend has not run out of what new files are made of.
    pub open spec fn room(self) -> bool {
        self.spare > 0
    }
}

/// Of what new files are made of, at most `n` were used from `pre` to `post`.
pub open spec fn used(pre: Disk, post: Disk, n: nat) -> bool {
    post.spare <= pre.spare <= post.spare + n
}

impl FsState {
    /// The empty file system.
    pub open spec fn empty() -> FsState {
        FsState { live: Map::empty(), durable: Map::empty(), data: Map::empty(), next: 0 }
    }

    /// Every name stands for a file that exists, and no number is reused.
    pub open spec fn valid(self) -> bool {
        &&& forall|p: PathView| #[trigger]
            self.live.contains_key(p) ==> self.data.contains_key(self.live[p])
        &&& forall|p: PathView| #[trigger]
            self.durable.contains_key(p) ==> self.data.contains_key(self.durable[p])
        &&& forall|id: nat| #[trigger] self.data.contains_key(id) ==> id < self.next
    }

    /// No file has two names, within a namespace or across the two.
    pub open spec fn tidy(self) -> bool {
        &&& forall|p: PathView, q: PathView|
            #![trigger self.live[p], self.live[q]]
            self.live.contains_key(p) && self.live.contains_key(q) && self.live[p] == self.live[q]
                ==> p == q
        &&& forall|p: PathView, q: PathView|
            #![trigger self.durable[p], self.durable[q]]
            self.durable.contains_key(p) && self.durable.contains_key(q) && self.durable[p]
                == self.durable[q] ==> p == q
        &&& forall|p: PathView, q: PathView|
            #![trigger self.live[p], self.durable[q]]
            self.live.contains_key(p) && self.durable.contains_key(q) && self.live[p]
                == self.durable[q] ==> p == q
    }

    /// Some name stands for file `id`.
    pub open spec fn referenced(self, id: nat) -> bool {
        ||| exists|p: PathView| #[trigger] self.live.contains_key(p) && self.live[p] == id
        ||| exists|p: PathView| #[trigger] self.durable.contains_key(p) && self.durable[p] == id
    }

    /// Forgets the files that no name stands for.
    pub open spec fn pruned(self) -> FsState {
        FsState { data: self.data.restrict(Set::new(|id: nat| self.referenced(id))), ..self }
    }

    /// The bytes that a read of `p` sees.
    pub open spec fn content(self, p: PathView) -> Seq<u8> {
        self.data[self.live[p]].live
    }

    /// A new, empty file named `p`.
    pub open spec fn created(self, p: PathView) -> FsState {
        FsState {
            live: self.live.insert(p, self.next),
            data: self.data.insert(
                self.next,
                FileData { live: Seq::empty(), synced: Seq::empty() },
            ),
            next: self.next + 1,
            ..self
        }
    }

    /// `bytes` more at the end of `p`.
    pub open spec fn appended(self, p: PathView, bytes: Seq<u8>) -> FsState {
        let d = self.data[self.live[p]];
        FsState {
            data: self.data.insert(self.live[p], FileData { live: d.live + bytes, ..d }),
            ..self
        }
    }

    /// `bytes` in place of what `p` held from `offset` on.
    pub open spec fn written(self, p: PathView, offset: int, bytes: Seq<u8>) -> FsState {
        let d = self.data[self.live[p]];
        FsState {
            data: self.data.insert(
                self.live[p],
                FileData {
                    live: d.live.take(offset) + bytes + d.live.skip(offset + bytes.len()),
                    ..d
                },
            ),
            ..self
        }
    }

    /// The bytes of `p` made durable.
    pub open spec fn file_synced(self, p: PathView) -> FsState {
        let d = self.data[self.live[p]];
        FsState {
            data: self.data.insert(self.live[p], FileData { live: d.live, synced: d.live }),
            ..self
        }
    }

    /// The names in `dir` made durable.
    pub open spec fn dir_synced(self, dir: Seq<u8>) -> FsState {
        self.dir_committed(dir).pruned()
    }

    /// The file named `from` named `to` instead.
    pub open spec fn renamed(self, from: PathView, to: PathView) -> FsState {
        self.moved(from, to).pruned()
    }

    /// The name `p` gone.
    pub open spec fn deleted(self, p: PathView) -> FsState {
        self.unlinked(p).pruned()
    }
}

/// `s` with its bit number `bit` inverted.
pub open spec fn flipped(s: Seq<u8>, bit: int) -> Seq<u8> {
    s.update(bit / 8, s[bit / 8] ^ (1u8 << ((bit % 8) as u8)))
}

/// What a power loss may leave of a file: the durable bytes; or, where more had
/// been appended, those and a prefix of the rest, or all of it with one bit
/// inverted in the rest.
pub open spec fn torn(d: FileData, after: Seq<u8>) -> bool {
    let tail = d.live.skip(d.synced.len() as int);
    ||| after == d.synced
    ||| d.live.len() > d.synced.len() && exists|k: int|
        0 <= k <= tail.len() && after == d.synced + #[trigger] tail.take(k)
    ||| d.live.len() > d.synced.len() && exists|bit: int|
        0 <= bit < 8 * tail.len() && after == d.synced + #[trigger] flipped(tail, bit)
}

/// What a power loss may make of a file system: the durable names, each file
/// as [`torn`] says.
pub open spec fn power_loss(before: FsState, after: FsState) -> bool {
    &&& after.live == before.durable
    &&& after.durable == before.durable
    &&& after.next >= before.next
    &&& forall|id: nat| #[trigger]
        after.data.contains_key(id) <==> exists|p: PathView| #[trigger]
            before.durable.contains_key(p) && before.durable[p] == id
    &&& forall|id: nat| #[trigger]
        after.data.contains_key(id) ==> torn(before.data[id], after.data[id].live)
            && after.data[id].synced == after.data[id].live
}

/// What a mutating operation may do to a dependable backend with room left. The
/// operation can be carried out when `can` holds, has the effect `effect` then,
/// and reports success when `ok`. A new file uses up one number, and nothing else
/// uses one.
pub open spec fn outcome(pre: Disk, post: Disk, can: bool, effect: FsState, ok: bool) -> bool {
    &&& post.spare <= pre.spare <= post.spare + (effect.next - pre.fs.next)
    &&& pre.dependable ==> post.dependable && post.reliable == pre.reliable
    &&& pre.dependable && post.room() ==> {
        &&& pre.halted ==> !ok && post.halted && post.fs == pre.fs
        &&& !pre.halted && !post.halted ==> ok == can && post.fs == if can {
            effect
        } else {
            pre.fs
        }
        &&& !pre.halted && post.halted ==> {
            &&& !pre.reliable
            &&& ok ==> can && power_loss(effect, post.fs)
            &&& power_loss(pre.fs, post.fs) || can && power_loss(effect, post.fs)
        }
    }
}

/// The at most `n` bytes of `s` from `offset` on.
pub open spec fn window(s: Seq<u8>, offset: int, n: int) -> Seq<u8> {
    if offset >= s.len() {
        Seq::empty()
    } else if offset + n <= s.len() {
        s.subrange(offset, offset + n)
    } else {
        s.skip(offset)
    }
}

/// The views of a list of paths.
pub open spec fn path_views(v: Seq<FilePath>) -> Seq<PathView> {
    Seq::new(v.len(), |i: int| v[i]@)
}

/// `v` holds every live name in `dir` once, in order.
pub open spec fn lists(fs: FsState, dir: Seq<u8>, v: Seq<PathView>) -> bool {
    &&& forall|i: int|
        0 <= i < v.len() ==> (#[trigger] v[i]).0 == dir && fs.live.contains_key(v[i])
    &&& forall|p: PathView| #[trigger]
        fs.live.contains_key(p) && p.0 == dir ==> exists|i: int| 0 <= i < v.len() && v[i] == p
    &&& forall|i: int, j: int|
        0 <= i < j < v.len() ==> path::name_before((#[trigger] v[i]).1, (#[trigger] v[j]).1)
}

impl FsState {
    /// Forgetting unnamed files changes no named one.
    pub proof fn lemma_pruned(self)
        requires
            self.valid(),
        ensures
            self.pruned().valid(),
            forall|p: PathView| #[trigger]
                self.live.contains_key(p) ==> self.pruned().data.contains_key(self.live[p])
                    && self.pruned().data[self.live[p]] == self.data[self.live[p]],
            forall|p: PathView| #[trigger]
                self.durable.contains_key(p) ==> self.pruned().data.contains_key(self.durable[p])
                    && self.pruned().data[self.durable[p]] == self.data[self.durable[p]],
    {
        assert forall|p: PathView| #[trigger] self.live.contains_key(p) implies self.referenced(
            self.live[p],
        ) by {}
        assert forall|p: PathView| #[trigger] self.durable.contains_key(p) implies self.referenced(
            self.durable[p],
        ) by {}
    }

    pub proof fn lemma_created(self, p: PathView)
        requires
            self.valid(),
        ensures
            self.created(p).valid(),
    {
    }

    pub proof fn lemma_appended(self, p: PathView, bytes: Seq<u8>)
        requires
            self.valid(),
            self.live.contains_key(p),
        ensures
            self.appended(p, bytes).valid(),
    {
    }

    pub proof fn lemma_written(self, p: PathView, offset: int, bytes: Seq<u8>)
        requires
            self.valid(),
            self.live.contains_key(p),
        ensures
            self.written(p, offset, bytes).valid(),
    {
    }

    pub proof fn lemma_file_synced(self, p: PathView)
        requires
            self.valid(),
            self.live.contains_key(p),
        ensures
            self.file_synced(p).valid(),
    {
    }

    /// What `dir_synced` is before it forgets unnamed files.
    pub open spec fn dir_committed(self, dir: Seq<u8>) -> FsState {
        FsState {
            durable: Map::new(
                |p: PathView|
                    if p.0 == dir {
                        self.live.contains_key(p)
                    } else {
                        self.durable.contains_key(p)
                    },
                |p: PathView|
                    if p.0 == dir {
                        self.live[p]
                    } else {
                        self.durable[p]
                    },
            ),
            ..self
        }
    }

    pub proof fn lemma_dir_synced(self, dir: Seq<u8>)
        requires
            self.valid(),
        ensures
            self.dir_committed(dir).valid(),
            self.dir_synced(dir).valid(),
    {
        let c = self.dir_committed(dir);
        assert forall|p: PathView| #[trigger] c.durable.contains_key(p) implies c.data.contains_key(
            c.durable[p],
        ) by {
            if p.0 == dir {
                assert(self.live.contains_key(p));
            } else {
                assert(self.durable.contains_key(p));
            }
        }
        c.lemma_pruned();
    }

    /// What `renamed` is before it forgets unnamed files.
    pub open spec fn moved(self, from: PathView, to: PathView) -> FsState {
        if from == to {
            self
        } else {
            FsState { live: self.live.insert(to, self.live[from]).remove(from), ..self }
        }
    }

    pub proof fn lemma_renamed(self, from: PathView, to: PathView)
        requires
            self.valid(),
            self.live.contains_key(from),
        ensures
            self.moved(from, to).valid(),
            self.renamed(from, to).valid(),
    {
        let c = self.moved(from, to);
        assert forall|p: PathView| #[trigger] c.live.contains_key(p) implies c.data.contains_key(
            c.live[p],
        ) by {
            if p == to {
                assert(self.live.contains_key(from));
            } else {
                assert(self.live.contains_key(p));
            }
        }
        c.lemma_pruned();
    }

    /// What `deleted` is before it forgets unnamed files.
    pub open spec fn unlinked(self, p: PathView) -> FsState {
        FsState { live: self.live.remove(p), ..self }
    }

    pub proof fn lemma_deleted(self, p: PathView)
        requires
            self.valid(),
        ensures
            self.unlinked(p).valid(),
            self.deleted(p).valid(),
    {
        let c = self.unlinked(p);
        assert forall|q: PathView| #[trigger] c.live.contains_key(q) implies c.data.contains_key(
            c.live[q],
        ) by {
            assert(self.live.contains_key(q));
        }
        c.lemma_pruned();
    }
}

/// A flat namespace of append-mostly files with explicit durability barriers.
///
/// See the module documentation for the durability contract. Every promise
/// below is about a backend that is [dependable](Disk::dependable) and has
/// [room](Disk::room) left after the call; of another nothing is promised.
pub trait Storage: Sized {
    /// What the backend holds.
    spec fn disk(&self) -> Disk;

    /// The backend's own invariant.
    spec fn wf(&self) -> bool;

    /// Creates a new, empty file at `path`. Fails with
    /// [`StorageError::AlreadyExists`] if the path is already present. The new
    /// name is not durable until a `sync_dir` on its directory.
    fn create(&mut self, path: &FilePath) -> (r: StorageResult<()>)
        requires
            old(self).wf(),
        ensures
            final(self).wf(),
            outcome(
                old(self).disk(),
                final(self).disk(),
                !old(self).disk().fs.live.contains_key(path@),
                old(self).disk().fs.created(path@),
                r is Ok,
            ),
    ;

    /// Succeeds if a file exists at `path`; fails with
    /// [`StorageError::NotFound`] otherwise.
    fn open(&self, path: &FilePath) -> (r: StorageResult<()>)
        requires
            self.wf(),
        ensures
            self.disk().dependable ==> (r is Ok <==> self.disk().fs.live.contains_key(path@)),
    ;

    /// Appends `data` to the end of `path` and returns the offset at which it
    /// begins. The bytes are not durable until a `sync_file`.
    fn append(&mut self, path: &FilePath, data: &[u8]) -> (r: StorageResult<u64>)
        requires
            old(self).wf(),
        ensures
            final(self).wf(),
            outcome(
                old(self).disk(),
                final(self).disk(),
                old(self).disk().fs.live.contains_key(path@),
                old(self).disk().fs.appended(path@, data@),
                r is Ok,
            ),
            old(self).disk().dependable && final(self).disk().room() && r is Ok ==> r->Ok_0
                == old(self).disk().fs.content(path@).len(),
    ;

    /// Overwrites `data.len()` bytes at `offset` within `path`. The range must
    /// lie within the file, else [`StorageError::OutOfBounds`].
    fn write_at(&mut self, path: &FilePath, offset: u64, data: &[u8]) -> (r: StorageResult<()>)
        requires
            old(self).wf(),
        ensures
            final(self).wf(),
            outcome(
                old(self).disk(),
                final(self).disk(),
                old(self).disk().fs.live.contains_key(path@) && offset + data@.len()
                    <= old(self).disk().fs.content(path@).len(),
                old(self).disk().fs.written(path@, offset as int, data@),
                r is Ok,
            ),
    ;

    /// Reads at most `n` bytes of `path` from `offset` on; fewer come back only
    /// at the end of the file. Reads see bytes that are not durable yet.
    fn read_at(&self, path: &FilePath, offset: u64, n: usize) -> (r: StorageResult<Vec<u8>>)
        requires
            self.wf(),
        ensures
            self.disk().dependable ==> {
                let fs = self.disk().fs;
                &&& r is Ok ==> fs.live.contains_key(path@) && r->Ok_0@ == window(
                    fs.content(path@),
                    offset as int,
                    n as int,
                )
                &&& self.disk().reliable && fs.live.contains_key(path@) && offset <= fs.content(
                    path@,
                ).len() ==> r is Ok
            },
    ;

    /// Makes every byte of `path` durable.
    fn sync_file(&mut self, path: &FilePath) -> (r: StorageResult<()>)
        requires
            old(self).wf(),
        ensures
            final(self).wf(),
            outcome(
                old(self).disk(),
                final(self).disk(),
                old(self).disk().fs.live.contains_key(path@),
                old(self).disk().fs.file_synced(path@),
                r is Ok,
            ),
    ;

    /// Makes the names in directory `dir` durable.
    fn sync_dir(&mut self, dir: &[u8]) -> (r: StorageResult<()>)
        requires
            old(self).wf(),
        ensures
            final(self).wf(),
            outcome(
                old(self).disk(),
                final(self).disk(),
                true,
                old(self).disk().fs.dir_synced(plain(dir@)),
                r is Ok,
            ),
    ;

    /// Atomically renames `from` to `to`, replacing `to` if it exists. Volatile
    /// until the directories of both are synced.
    fn rename(&mut self, from: &FilePath, to: &FilePath) -> (r: StorageResult<()>)
        requires
            old(self).wf(),
        ensures
            final(self).wf(),
            outcome(
                old(self).disk(),
                final(self).disk(),
                old(self).disk().fs.live.contains_key(from@),
                old(self).disk().fs.renamed(from@, to@),
                r is Ok,
            ),
    ;

    /// Removes the file at `path`. Volatile until its directory is synced.
    fn delete(&mut self, path: &FilePath) -> (r: StorageResult<()>)
        requires
            old(self).wf(),
        ensures
            final(self).wf(),
            outcome(
                old(self).disk(),
                final(self).disk(),
                old(self).disk().fs.live.contains_key(path@),
                old(self).disk().fs.deleted(path@),
                r is Ok,
            ),
    ;

    /// Lists the files of directory `dir` in the order of their names,
    /// including those whose names are not durable yet.
    fn list(&self, dir: &[u8]) -> (r: StorageResult<Vec<FilePath>>)
        requires
            self.wf(),
        ensures
            self.disk().dependable ==> {
                &&& r is Ok ==> lists(self.disk().fs, plain(dir@), path_views(r->Ok_0@))
                &&& self.disk().reliable ==> r is Ok
            },
    ;

    /// The length of `path` in bytes, appends that are not durable included.
    fn len(&self, path: &FilePath) -> (r: StorageResult<u64>)
        requires
            self.wf(),
        ensures
            self.disk().dependable ==> {
                let fs = self.disk().fs;
                &&& r is Ok ==> fs.live.contains_key(path@) && r->Ok_0 == fs.content(path@).len()
                &&& r matches Err(StorageError::NotFound(_)) ==> !fs.live.contains_key(path@)
                &&& self.disk().reliable && fs.live.contains_key(path@) ==> r is Ok
            },
    ;
}

/// What the operations make of a file system, and what they leave alone: `p` and `q` are names of
/// files, two different ones, and `n` is a name that is not in use.
pub proof fn lemma_effects(
    fs: FsState,
    p: PathView,
    q: PathView,
    n: PathView,
    bytes: Seq<u8>,
    offset: int,
)
    requires
        fs.valid(),
        fs.live.contains_key(p),
        fs.live.contains_key(q),
        fs.live[p] != fs.live[q],
        !fs.live.contains_key(n),
        0 <= offset,
        offset + bytes.len() <= fs.content(p).len(),
    ensures
        ({
            let after = fs.created(n);
            &&& after.live.contains_key(n) && after.content(n) == Seq::<u8>::empty()
            &&& after.live.contains_key(p) && after.content(p) == fs.content(p)
            &&& after.durable == fs.durable
        }),
        ({
            let after = fs.appended(p, bytes);
            &&& after.content(p) == fs.content(p) + bytes
            &&& after.data[after.live[p]].synced == fs.data[fs.live[p]].synced
            &&& after.content(q) == fs.content(q)
            &&& after.live == fs.live && after.durable == fs.durable
        }),
        ({
            let after = fs.written(p, offset, bytes);
            &&& after.content(p).len() == fs.content(p).len()
            &&& forall|i: int|
                0 <= i < fs.content(p).len() ==> #[trigger] after.content(p)[i] == if offset <= i
                    < offset + bytes.len() {
                    bytes[i - offset]
                } else {
                    fs.content(p)[i]
                }
            &&& after.data[after.live[p]].synced == fs.data[fs.live[p]].synced
            &&& after.content(q) == fs.content(q)
            &&& after.live == fs.live && after.durable == fs.durable
        }),
        ({
            let after = fs.file_synced(p);
            &&& after.data[after.live[p]].synced == fs.content(p)
            &&& after.content(p) == fs.content(p)
            &&& after.data[after.live[q]] == fs.data[fs.live[q]]
            &&& after.live == fs.live && after.durable == fs.durable
        }),
        ({
            let after = fs.deleted(p);
            &&& !after.live.contains_key(p)
            &&& after.live.contains_key(q) && after.content(q) == fs.content(q)
            &&& after.durable == fs.durable
        }),
        ({
            let after = fs.renamed(p, q);
            &&& !after.live.contains_key(p)
            &&& after.live.contains_key(q) && after.content(q) == fs.content(p)
            &&& after.durable == fs.durable
        }),
        ({
            let after = fs.renamed(p, n);
            &&& !after.live.contains_key(p)
            &&& after.live.contains_key(n) && after.content(n) == fs.content(p)
            &&& after.live.contains_key(q) && after.content(q) == fs.content(q)
            &&& after.durable == fs.durable
        }),
        ({
            let after = fs.dir_synced(p.0);
            &&& after.live == fs.live
            &&& after.content(p) == fs.content(p) && after.content(q) == fs.content(q)
            &&& after.durable.contains_key(p) && after.durable[p] == fs.live[p]
            &&& n.0 == p.0 ==> !after.durable.contains_key(n)
            &&& q.0 != p.0 ==> after.durable.contains_key(q) == fs.durable.contains_key(q)
            &&& q.0 != p.0 && fs.durable.contains_key(q) ==> after.durable[q] == fs.durable[q]
        }),
{
    assert(p != q && p != n && q != n);
    let gone = fs.unlinked(p);
    assert(gone.live.contains_key(q));
    assert(gone.referenced(fs.live[q]));
    let over = fs.moved(p, q);
    assert(over.live.contains_key(q));
    assert(over.referenced(fs.live[p]));
    let moved = fs.moved(p, n);
    assert(moved.live.contains_key(n));
    assert(moved.referenced(fs.live[p]));
    assert(moved.live.contains_key(q));
    assert(moved.referenced(fs.live[q]));
    let committed = fs.dir_committed(p.0);
    assert(committed.live.contains_key(p));
    assert(committed.referenced(fs.live[p]));
    assert(committed.live.contains_key(q));
    assert(committed.referenced(fs.live[q]));
}

/// What a read sees of a file: as many of the bytes from the offset on as were asked for, or as
/// there are.
pub proof fn lemma_window(s: Seq<u8>, offset: int, n: int, i: int)
    requires
        0 <= offset <= s.len(),
        0 <= n,
    ensures
        offset + n <= s.len() ==> window(s, offset, n).len() == n,
        offset + n > s.len() ==> window(s, offset, n).len() == s.len() - offset,
        0 <= i < window(s, offset, n).len() ==> window(s, offset, n)[i] == s[offset + i],
{
}

/// What a listing is: every name in the directory that is in use, and no other, each once, and
/// any two of them in the order of names.
pub proof fn lemma_listing(fs: FsState, dir: Seq<u8>, v: Seq<PathView>, p: PathView, i: int, j: int)
    requires
        lists(fs, dir, v),
    ensures
        v.contains(p) <==> p.0 == dir && fs.live.contains_key(p),
        0 <= i < j < v.len() ==> v[i] != v[j] && path::name_before(v[i].1, v[j].1),
{
    if v.contains(p) {
        let k = choose|k: int| 0 <= k < v.len() && v[k] == p;
        assert(v[k].0 == dir);
    }
    if 0 <= i < j < v.len() {
        assert(path::name_before(v[i].1, v[j].1));
        order::lemma_lex_irreflexive(v[i].1);
        order::lemma_lex_irreflexive(path::part_key(v[i].1));
    }
}

} // verus!
