//! WAL segment files: naming, creation, and the thin per-file operations that
//! the commit pipeline drives.
//!
//! The log is split into monotonically numbered segment files, so that once
//! every record up to some point has been captured elsewhere, whole segments can
//! be deleted. A segment is named `<id>.wal` with a zero-padded id, so a sorted
//! list of the directory yields segments in write order.

use vstd::prelude::*;

use crate::codec;
use crate::names;
use crate::storage;
use crate::storage::plain;
use crate::storage::{FilePath, FsState, PathView, Storage, StorageError, StorageResult};

verus! {

/// The path of segment `id` in `dir`.
pub open spec fn segment_at(dir: Seq<u8>, id: u64) -> PathView {
    (dir, names::segment_name(id))
}

/// The path of segment `id` within `dir`.
pub fn segment_path(dir: &[u8], id: u64) -> (p: FilePath)
    ensures
        p@ == segment_at(plain(dir@), id),
{
    proof {
        names::lemma_names_simple(id);
    }
    FilePath::new(dir, &names::segment_file(id))
}

/// The id of the segment that `path` names, or `None` if it names none.
pub fn parse_segment_id(path: &FilePath) -> (r: Option<u64>)
    ensures
        r == names::segment_id(path@.1),
{
    names::segment_of(&path.base())
}

/// A segment's path gives its id back.
pub proof fn lemma_segment_path_reversible(dir: Seq<u8>, id: u64)
    ensures
        names::segment_id(segment_at(dir, id).1) == Some(id),
{
    names::lemma_segment_name(id);
}

/// The views of a list of numbered paths.
pub open spec fn numbered(v: Seq<(u64, FilePath)>) -> Seq<(u64, PathView)> {
    Seq::new(v.len(), |i: int| (v[i].0, v[i].1@))
}

/// `v` holds every segment that is live in `dir` once, by ascending id.
pub open spec fn lists_segments(fs: FsState, dir: Seq<u8>, v: Seq<(u64, PathView)>) -> bool {
    &&& forall|i: int|
        0 <= i < v.len() ==> (#[trigger] v[i]).1.0 == dir && fs.live.contains_key(v[i].1)
            && names::segment_id(v[i].1.1) == Some(v[i].0)
    &&& forall|p: PathView| #[trigger]
        fs.live.contains_key(p) && p.0 == dir && names::segment_id(p.1) is Some ==> exists|i: int|
            0 <= i < v.len() && (#[trigger] v[i]).1 == p
    &&& forall|i: int, j: int|
        0 <= i < j < v.len() ==> (#[trigger] v[i]).0 <= (#[trigger] v[j]).0 && v[i].1 != v[j].1
}

/// No two of the paths are the same.
spec fn distinct(all: Seq<PathView>) -> bool {
    forall|i: int, j: int| 0 <= i < j < all.len() ==> #[trigger] all[i] != #[trigger] all[j]
}

/// One of the first `n` paths is `p`.
spec fn among(all: Seq<PathView>, n: int, p: PathView) -> bool {
    exists|k: int| 0 <= k < n && #[trigger] all[k] == p
}

/// One of the entries is `p`.
spec fn taken(v: Seq<(u64, PathView)>, p: PathView) -> bool {
    exists|j: int| 0 <= j < v.len() && (#[trigger] v[j]).1 == p
}

spec fn ascending(v: Seq<(u64, PathView)>) -> bool {
    forall|i: int, j: int|
        0 <= i < j < v.len() ==> (#[trigger] v[i]).0 <= (#[trigger] v[j]).0 && v[i].1 != v[j].1
}

/// `v` holds the segments among the first `n` paths, by ascending id.
spec fn gathered(all: Seq<PathView>, n: int, v: Seq<(u64, PathView)>) -> bool {
    &&& forall|j: int|
        0 <= j < v.len() ==> among(all, n, (#[trigger] v[j]).1) && names::segment_id(v[j].1.1)
            == Some(v[j].0)
    &&& forall|k: int|
        0 <= k < n && names::segment_id((#[trigger] all[k]).1) is Some ==> taken(v, all[k])
    &&& distinct(all) ==> ascending(v)
}

proof fn lemma_gathered_skip(all: Seq<PathView>, n: int, v: Seq<(u64, PathView)>)
    requires
        gathered(all, n, v),
        0 <= n < all.len(),
        names::segment_id(all[n].1) is None,
    ensures
        gathered(all, n + 1, v),
{
    assert forall|j: int| 0 <= j < v.len() implies among(all, n + 1, (#[trigger] v[j]).1) by {
        let k = choose|k: int| 0 <= k < n && #[trigger] all[k] == v[j].1;
        assert(all[k] == v[j].1);
    }
}

proof fn lemma_gathered_insert(
    all: Seq<PathView>,
    n: int,
    v: Seq<(u64, PathView)>,
    at: int,
    id: u64,
)
    requires
        gathered(all, n, v),
        0 <= n < all.len(),
        names::segment_id(all[n].1) == Some(id),
        0 <= at <= v.len(),
        ascending(v) ==> (forall|j: int| 0 <= j < at ==> (#[trigger] v[j]).0 <= id) && (
        forall|j: int| at <= j < v.len() ==> id < (#[trigger] v[j]).0),
    ensures
        gathered(all, n + 1, v.insert(at, (id, all[n]))),
{
    let w = v.insert(at, (id, all[n]));
    assert forall|j: int| 0 <= j < w.len() implies among(all, n + 1, (#[trigger] w[j]).1)
        && names::segment_id(w[j].1.1) == Some(w[j].0) by {
        if j == at {
            assert(all[n] == w[j].1);
        } else {
            let j0 = if j < at { j } else { j - 1 };
            assert(w[j] == v[j0]);
            let k = choose|k: int| 0 <= k < n && #[trigger] all[k] == v[j0].1;
            assert(all[k] == w[j].1);
        }
    }
    assert forall|k: int|
        0 <= k < n + 1 && names::segment_id((#[trigger] all[k]).1) is Some implies taken(
        w,
        all[k],
    ) by {
        if k == n {
            assert(w[at].1 == all[k]);
        } else {
            let j0 = choose|j: int| 0 <= j < v.len() && (#[trigger] v[j]).1 == all[k];
            let j = if j0 < at { j0 } else { j0 + 1 };
            assert(w[j] == v[j0]);
        }
    }
    if distinct(all) {
        assert forall|i: int, j: int| 0 <= i < j < w.len() implies (#[trigger] w[i]).0 <= (
        #[trigger] w[j]).0 && w[i].1 != w[j].1 by {
            let i0 = if i < at { i } else { i - 1 };
            let j0 = if j < at { j } else { j - 1 };
            if i != at {
                assert(w[i] == v[i0]);
                assert(among(all, n, v[i0].1));
            }
            if j != at {
                assert(w[j] == v[j0]);
                assert(among(all, n, v[j0].1));
            }
        }
    }
}

/// Lists every WAL segment in `dir`, sorted by id. Other files are ignored.
pub fn list_segments<S: Storage>(fs: &S, dir: &[u8]) -> (r: StorageResult<Vec<(u64, FilePath)>>)
    requires
        fs.wf(),
    ensures
        fs.disk().dependable ==> {
            &&& r is Ok ==> lists_segments(fs.disk().fs, plain(dir@), numbered(r->Ok_0@))
            &&& fs.disk().reliable ==> r is Ok
        },
{
    let paths: Vec<FilePath> = match fs.list(dir) {
        Ok(paths) => paths,
        Err(e) => {
            return Err(e);
        },
    };
    let mut out: Vec<(u64, FilePath)> = Vec::new();
    let mut i: usize = 0;
    let ghost all = storage::path_views(paths@);
    while i < paths.len()
        invariant
            i <= paths.len(),
            all == storage::path_views(paths@),
            gathered(all, i as int, numbered(out@)),
        decreases paths.len() - i,
    {
        assert(all[i as int] == paths@[i as int]@);
        match parse_segment_id(&paths[i]) {
            Some(id) => {
                let at: usize = place_of(&out, id);
                let p: FilePath = paths[i].clone();
                let ghost before = numbered(out@);
                proof {
                    if ascending(before) {
                        assert forall|a: int, b: int| 0 <= a < b < out@.len() implies (
                        #[trigger] out@[a]).0 <= (#[trigger] out@[b]).0 by {
                            assert(before[a].0 <= before[b].0);
                        }
                    }
                    assert forall|j: int| 0 <= j < before.len() implies (#[trigger] before[j]).0
                        == out@[j].0 by {}
                    lemma_gathered_insert(all, i as int, before, at as int, id);
                }
                out.insert(at, (id, p));
                assert(numbered(out@) =~= before.insert(at as int, (id, all[i as int])));
            },
            None => {
                proof {
                    lemma_gathered_skip(all, i as int, numbered(out@));
                }
            },
        }
        i = i + 1;
    }
    proof {
        let state = fs.disk().fs;
        let v = numbered(out@);
        if storage::lists(state, plain(dir@), all) {
            assert(distinct(all)) by {
                assert forall|i: int, j: int| 0 <= i < j < all.len() implies #[trigger] all[i]
                    != #[trigger] all[j] by {
                    storage::path::lemma_name_before(all[i].1, all[i].1, all[i].1);
                }
            }
            assert forall|p: PathView| #[trigger]
                state.live.contains_key(p) && p.0 == plain(dir@) && names::segment_id(p.1)
                    is Some implies exists|j: int| 0 <= j < v.len() && (#[trigger] v[j]).1 == p by {
                let k = choose|k: int| 0 <= k < all.len() && all[k] == p;
                assert(taken(v, all[k]));
            }
            assert forall|j: int| 0 <= j < v.len() implies (#[trigger] v[j]).1.0 == plain(dir@)
                && state.live.contains_key(v[j].1) by {
                assert(among(all, all.len() as int, v[j].1));
            }
        }
    }
    Ok(out)
}

/// Where an entry with this id belongs in a list sorted by id.
fn place_of(out: &Vec<(u64, FilePath)>, id: u64) -> (at: usize)
    ensures
        at <= out@.len(),
        (forall|a: int, b: int|
            0 <= a < b < out@.len() ==> (#[trigger] out@[a]).0 <= (#[trigger] out@[b]).0) ==> (
        forall|j: int| 0 <= j < at ==> (#[trigger] out@[j]).0 <= id) && (forall|j: int|
            at <= j < out@.len() ==> id < (#[trigger] out@[j]).0),
{
    let mut at: usize = 0;
    while at < out.len() && out[at].0 <= id
        invariant
            at <= out@.len(),
            forall|j: int| 0 <= j < at ==> (#[trigger] out@[j]).0 <= id,
        decreases out.len() - at,
    {
        at = at + 1;
    }
    at
}

/// A length as far as a `u64` can say it.
pub open spec fn clamped(n: nat) -> u64 {
    if n <= u64::MAX {
        n as u64
    } else {
        u64::MAX
    }
}

/// A handle to one open, writable segment file.
#[derive(Debug)]
pub struct Segment {
    id: u64,
    path: FilePath,
    /// Byte length written so far.
    write_offset: u64,
}

impl Segment {
    /// The segment's number.
    pub closed spec fn number(&self) -> u64 {
        self.id
    }

    /// The path of the segment's file.
    pub closed spec fn location(&self) -> PathView {
        self.path@
    }

    /// The number of bytes written to the segment, as far as a `u64` can say it.
    pub closed spec fn offset(&self) -> u64 {
        self.write_offset
    }

    /// Creates a new, empty segment file `<id>.wal` in `dir`. Its name is not
    /// durable until the caller syncs the directory.
    pub fn create<S: Storage>(fs: &mut S, dir: &[u8], id: u64) -> (r: StorageResult<Segment>)
        requires
            old(fs).wf(),
        ensures
            final(fs).wf(),
            storage::outcome(
                old(fs).disk(),
                final(fs).disk(),
                !old(fs).disk().fs.live.contains_key(segment_at(plain(dir@), id)),
                old(fs).disk().fs.created(segment_at(plain(dir@), id)),
                r is Ok,
            ),
            r matches Ok(s) ==> s.number() == id && s.location() == segment_at(plain(dir@), id)
                && s.offset() == 0,
    {
        let path: FilePath = segment_path(dir, id);
        match fs.create(&path) {
            Ok(_) => Ok(Segment { id, path, write_offset: 0 }),
            Err(e) => Err(e),
        }
    }

    /// Adopts an existing segment file, taking its length as the write offset.
    pub fn open<S: Storage>(fs: &S, dir: &[u8], id: u64) -> (r: StorageResult<Segment>)
        requires
            fs.wf(),
        ensures
            fs.disk().dependable ==> {
                let state = fs.disk().fs;
                let p = segment_at(plain(dir@), id);
                &&& r matches Ok(s) ==> state.live.contains_key(p) && s.number() == id
                    && s.location() == p && s.offset() == state.content(p).len()
                &&& fs.disk().reliable && state.live.contains_key(p) ==> r is Ok
            },
    {
        let path: FilePath = segment_path(dir, id);
        match fs.len(&path) {
            Ok(write_offset) => Ok(Segment { id, path, write_offset }),
            Err(e) => Err(e),
        }
    }

    /// This segment's id.
    pub fn id(&self) -> (id: u64)
        ensures
            id == self.number(),
    {
        self.id
    }

    /// This segment's on-disk path.
    pub fn path(&self) -> (p: &FilePath)
        ensures
            p@ == self.location(),
    {
        &self.path
    }

    /// Byte length written to this segment.
    pub fn len(&self) -> (n: u64)
        ensures
            n == self.offset(),
    {
        self.write_offset
    }

    /// Appends already-encoded bytes, advancing the write offset. They are not
    /// durable until [`sync`](Segment::sync).
    pub fn append<S: Storage>(&mut self, fs: &mut S, bytes: &[u8]) -> (r: StorageResult<()>)
        requires
            old(fs).wf(),
        ensures
            final(fs).wf(),
            storage::outcome(
                old(fs).disk(),
                final(fs).disk(),
                old(fs).disk().fs.live.contains_key(old(self).location()),
                old(fs).disk().fs.appended(old(self).location(), bytes@),
                r is Ok,
            ),
            final(self).number() == old(self).number(),
            final(self).location() == old(self).location(),
            final(self).offset() == if r is Ok {
                clamped((old(self).offset() + bytes@.len()) as nat)
            } else {
                old(self).offset()
            },
    {
        match fs.append(&self.path, bytes) {
            Ok(_) => {
                self.write_offset = self.write_offset.saturating_add(bytes.len() as u64);
                Ok(())
            },
            Err(e) => Err(e),
        }
    }

    /// Makes every byte of this segment durable.
    pub fn sync<S: Storage>(&self, fs: &mut S) -> (r: StorageResult<()>)
        requires
            old(fs).wf(),
        ensures
            final(fs).wf(),
            storage::outcome(
                old(fs).disk(),
                final(fs).disk(),
                old(fs).disk().fs.live.contains_key(self.location()),
                old(fs).disk().fs.file_synced(self.location()),
                r is Ok,
            ),
    {
        fs.sync_file(&self.path)
    }
}

/// Reads an entire file. A missing file reads as empty; one that memory cannot
/// address is an error.
pub fn read_all<S: Storage>(fs: &S, path: &FilePath) -> (r: StorageResult<Vec<u8>>)
    requires
        fs.wf(),
    ensures
        fs.disk().dependable ==> {
            let state = fs.disk().fs;
            &&& r matches Ok(buf) ==> buf@ == if state.live.contains_key(path@) {
                state.content(path@)
            } else {
                Seq::empty()
            }
            &&& fs.disk().reliable && state.live.contains_key(path@) && state.content(path@).len()
                <= usize::MAX ==> r is Ok
        },
{
    let len: u64 = match fs.len(path) {
        Ok(l) => l,
        Err(StorageError::NotFound(_)) => {
            let empty: Vec<u8> = Vec::new();
            assert(empty@ =~= Seq::empty());
            return Ok(empty);
        },
        Err(e) => {
            return Err(e);
        },
    };
    if len > usize::MAX as u64 {
        return Err(
            StorageError::Io {
                path: path.clone(),
                message: String::from_str("file does not fit in memory"),
            },
        );
    }
    let len: usize = len as usize;
    let mut buf: Vec<u8> = Vec::new();
    let ghost state = fs.disk().fs;
    assert(fs.disk().dependable ==> buf@ =~= state.content(path@).take(0));
    while buf.len() < len
        invariant_except_break
            fs.wf(),
            state == fs.disk().fs,
            fs.disk().dependable ==> {
                &&& state.live.contains_key(path@)
                &&& len == state.content(path@).len()
                &&& buf@.len() <= len
                &&& buf@ == state.content(path@).take(buf@.len() as int)
            },
        ensures
            fs.disk().dependable ==> buf@ == state.content(path@),
        decreases len - buf.len(),
    {
        let at: usize = buf.len();
        let chunk: Vec<u8> = match fs.read_at(path, at as u64, len - at) {
            Ok(chunk) => chunk,
            Err(e) => {
                return Err(e);
            },
        };
        let ghost before = buf@;
        if chunk.len() == 0 {
            break;
        }
        codec::put_bytes(&mut buf, &chunk);
        assert(fs.disk().dependable ==> buf@ =~= state.content(path@).take(buf@.len() as int));
        if buf.len() >= len {
            assert(fs.disk().dependable ==> buf@ =~= state.content(path@));
            break;
        }
    }
    Ok(buf)
}

} // verus!
