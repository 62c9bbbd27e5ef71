//! [`SimFs`]: a deterministic power-loss simulator.
//!
//! `SimFs` keeps an in-memory page-cache model:
//!
//! * every byte range written is buffered (visible to this process) until a
//!   `sync_file` makes it durable;
//! * a `rename`, `create` or `delete` is likewise volatile: visible now, but the
//!   directory entry does not survive a crash until a `sync_dir`;
//! * [`crash`](SimFs::crash) discards everything that is not durable and, as a
//!   seeded random number generator decides, tears the most recent unsynced
//!   append at a random byte boundary, or drops it, or flips a bit inside it.
//!
//! A monotonic op counter lets a crash be armed after the n-th mutating
//! operation ([`arm_crash_after`](SimFs::arm_crash_after)).

use rand::rngs::StdRng;
use vstd::prelude::*;

use super::{Disk, FileData, FilePath, FsState, PathView, Storage, StorageError, StorageResult};
use crate::codec;
use crate::order;
use crate::order::Position;
use crate::random;
use crate::storage;
use crate::storage::path;
use crate::storage::plain;

verus! {

/// How a crash mangles the most recent unsynced append.
#[derive(Debug, Clone, Copy, PartialEq, Eq, Structural)]
pub enum TearMode {
    /// The unsynced tail is dropped in full.
    Drop,
    /// The unsynced tail is cut at a random byte boundary.
    Truncate,
    /// A single bit inside the unsynced tail is flipped.
    BitFlip,
}

impl Default for TearMode {
    fn default() -> (m: Self)
        ensures
            m == TearMode::Drop,
    {
        TearMode::Drop
    }
}

/// Configuration for a [`SimFs`] instance.
#[derive(Debug, Clone)]
pub struct SimConfig {
    /// Seed for the random number generator that drives every crash decision.
    pub seed: u64,
}

impl Default for SimConfig {
    fn default() -> (c: Self)
        ensures
            c.seed == 0,
    {
        SimConfig { seed: 0 }
    }
}

/// A summary of what a simulated [`crash`](SimFs::crash) did.
#[derive(Debug, PartialEq, Eq)]
pub struct CrashReport {
    /// Number of mutating storage ops observed before the crash.
    pub ops_before_crash: u64,
    /// The file whose unsynced tail was subjected to tearing, if any.
    pub torn_path: Option<FilePath>,
    /// How the tail of that file was mangled.
    pub tear_mode: TearMode,
    /// Length of the unsynced tail that existed at crash time.
    pub tail_len: u64,
    /// How many bytes of that tail survived the crash.
    pub tail_kept: u64,
}

/// What a [`CrashReport`] says.
pub struct ReportView {
    pub ops_before_crash: u64,
    pub torn_path: Option<PathView>,
    pub tear_mode: TearMode,
    pub tail_len: u64,
    pub tail_kept: u64,
}

impl View for CrashReport {
    type V = ReportView;

    open spec fn view(&self) -> ReportView {
        ReportView {
            ops_before_crash: self.ops_before_crash,
            torn_path: match self.torn_path {
                Some(p) => Some(p@),
                None => None,
            },
            tear_mode: self.tear_mode,
            tail_len: self.tail_len,
            tail_kept: self.tail_kept,
        }
    }
}

impl Clone for CrashReport {
    fn clone(&self) -> (r: Self)
        ensures
            r@ == self@,
    {
        CrashReport {
            ops_before_crash: self.ops_before_crash,
            torn_path: match &self.torn_path {
                Some(p) => Some(p.clone()),
                None => None,
            },
            tear_mode: self.tear_mode,
            tail_len: self.tail_len,
            tail_kept: self.tail_kept,
        }
    }
}

impl Default for CrashReport {
    fn default() -> (r: Self)
        ensures
            r@ == (ReportView {
                ops_before_crash: 0,
                torn_path: None,
                tear_mode: TearMode::Drop,
                tail_len: 0,
                tail_kept: 0,
            }),
    {
        CrashReport {
            ops_before_crash: 0,
            torn_path: None,
            tear_mode: TearMode::Drop,
            tail_len: 0,
            tail_kept: 0,
        }
    }
}

/// What is left of an unsynced `tail` behind the bytes `synced`: nothing of it,
/// its first `draw` bytes, or all of it with bit `draw` flipped.
pub open spec fn torn_bytes(synced: Seq<u8>, tail: Seq<u8>, mode: TearMode, draw: int) -> Seq<u8> {
    match mode {
        TearMode::Drop => synced,
        TearMode::Truncate => synced + tail.take(draw),
        TearMode::BitFlip => synced + storage::flipped(tail, draw),
    }
}

/// How many bytes of the tail a tear keeps.
pub open spec fn bytes_kept(tail: Seq<u8>, mode: TearMode, draw: int) -> int {
    match mode {
        TearMode::Drop => 0,
        TearMode::Truncate => draw,
        TearMode::BitFlip => tail.len() as int,
    }
}

/// The draws that [`tear`] accepts.
pub open spec fn draw_in_range(tail: Seq<u8>, mode: TearMode, draw: int) -> bool {
    match mode {
        TearMode::Drop => true,
        TearMode::Truncate => 0 <= draw <= tail.len(),
        TearMode::BitFlip => 0 <= draw < 8 * tail.len(),
    }
}

/// Tears the unsynced `tail` behind `synced`. Returns what is left of the file
/// and how many bytes of the tail survived.
pub fn tear(synced: &[u8], tail: &[u8], mode: TearMode, draw: u64) -> (r: (Vec<u8>, u64))
    requires
        draw_in_range(tail@, mode, draw as int),
    ensures
        r.0@ == torn_bytes(synced@, tail@, mode, draw as int),
        r.1 == bytes_kept(tail@, mode, draw as int),
{
    let mut kept: Vec<u8> = codec::copy_range(synced, 0, synced.len());
    assert(kept@ =~= synced@);
    match mode {
        TearMode::Drop => (kept, 0),
        TearMode::Truncate => {
            assert(tail@.len() == tail.len());
            let part: Vec<u8> = codec::copy_range(tail, 0, draw as usize);
            codec::put_bytes(&mut kept, &part);
            assert(tail@.subrange(0, draw as int) =~= tail@.take(draw as int));
            (kept, draw)
        },
        TearMode::BitFlip => {
            assert(tail@.len() == tail.len());
            let mut damaged: Vec<u8> = codec::copy_range(tail, 0, tail.len());
            assert(damaged@ =~= tail@);
            let byte: usize = (draw / 8) as usize;
            let bit: u8 = (draw % 8) as u8;
            let old_byte: u8 = damaged[byte];
            damaged[byte] = old_byte ^ (1u8 << bit);
            assert(damaged@ =~= storage::flipped(tail@, draw as int));
            codec::put_bytes(&mut kept, &damaged);
            (kept, tail.len() as u64)
        },
    }
}

/// One file generation.
#[derive(Debug)]
struct Inode {
    /// The generation's number.
    id: u64,
    /// Bytes visible to the process.
    live: Vec<u8>,
    /// Bytes that survive a crash.
    durable: Vec<u8>,
    /// Order of the newest append not yet covered by `sync_file`.
    last_append: Option<u64>,
}

/// One name, with the generation it stands for in each of the two namespaces.
#[derive(Debug)]
struct Entry {
    path: FilePath,
    live: Option<u64>,
    durable: Option<u64>,
}

spec fn names_unique(files: Seq<Entry>) -> bool {
    forall|i: int, j: int|
        0 <= i < files.len() && 0 <= j < files.len() && (#[trigger] files[i]).path@ == (
        #[trigger] files[j]).path@ ==> i == j
}

spec fn ids_unique(inodes: Seq<Inode>) -> bool {
    forall|i: int, j: int|
        0 <= i < inodes.len() && 0 <= j < inodes.len() && (#[trigger] inodes[i]).id == (
        #[trigger] inodes[j]).id ==> i == j
}

/// `files[i]` is the entry of `p`.
spec fn names(files: Seq<Entry>, i: int, p: PathView) -> bool {
    0 <= i < files.len() && files[i].path@ == p
}

/// One of the first `n` entries is that of `p`.
spec fn seen(files: Seq<Entry>, n: int, p: PathView) -> bool {
    exists|i: int| #[trigger] names(files, i, p) && i < n
}

spec fn slot(files: Seq<Entry>, p: PathView) -> int {
    choose|i: int| names(files, i, p)
}

spec fn live_names(files: Seq<Entry>) -> Map<PathView, nat> {
    Map::new(
        |p: PathView| exists|i: int| #[trigger] names(files, i, p) && files[i].live is Some,
        |p: PathView| files[slot(files, p)].live->0 as nat,
    )
}

spec fn durable_names(files: Seq<Entry>) -> Map<PathView, nat> {
    Map::new(
        |p: PathView| exists|i: int| #[trigger] names(files, i, p) && files[i].durable is Some,
        |p: PathView| files[slot(files, p)].durable->0 as nat,
    )
}

/// `inodes[i]` is the generation `id`.
spec fn holds(inodes: Seq<Inode>, i: int, id: nat) -> bool {
    0 <= i < inodes.len() && inodes[i].id == id
}

spec fn place(inodes: Seq<Inode>, id: nat) -> int {
    choose|i: int| holds(inodes, i, id)
}

spec fn generations(inodes: Seq<Inode>) -> Map<nat, Inode> {
    Map::new(|id: nat| exists|i: int| holds(inodes, i, id), |id: nat| inodes[place(inodes, id)])
}

spec fn contents(inodes: Seq<Inode>) -> Map<nat, FileData> {
    Map::new(
        |id: nat| generations(inodes).contains_key(id),
        |id: nat|
            FileData {
                live: generations(inodes)[id].live@,
                synced: generations(inodes)[id].durable@,
            },
    )
}

spec fn append_times(inodes: Seq<Inode>) -> Map<nat, u64> {
    Map::new(
        |id: nat|
            generations(inodes).contains_key(id) && generations(inodes)[id].last_append is Some,
        |id: nat| generations(inodes)[id].last_append->0,
    )
}

spec fn times_bounded(times: Map<nat, u64>, bound: u64) -> bool {
    forall|id: nat| #[trigger] times.contains_key(id) ==> times[id] <= bound
}

proof fn lemma_slot(files: Seq<Entry>, i: int)
    requires
        names_unique(files),
        0 <= i < files.len(),
    ensures
        slot(files, files[i].path@) == i,
        live_names(files).contains_key(files[i].path@) == files[i].live is Some,
        durable_names(files).contains_key(files[i].path@) == files[i].durable is Some,
        files[i].live is Some ==> live_names(files)[files[i].path@] == files[i].live->0,
        files[i].durable is Some ==> durable_names(files)[files[i].path@] == files[i].durable->0,
{
    assert(names(files, i, files[i].path@));
}

proof fn lemma_place(inodes: Seq<Inode>, i: int)
    requires
        ids_unique(inodes),
        0 <= i < inodes.len(),
    ensures
        place(inodes, inodes[i].id as nat) == i,
        generations(inodes).contains_key(inodes[i].id as nat),
        generations(inodes)[inodes[i].id as nat] == inodes[i],
{
    assert(holds(inodes, i, inodes[i].id as nat));
}

/// Changing what one name stands for changes that name alone.
proof fn lemma_entry_updated(files: Seq<Entry>, i: int, e: Entry)
    requires
        names_unique(files),
        0 <= i < files.len(),
        e.path@ == files[i].path@,
    ensures
        names_unique(files.update(i, e)),
        live_names(files.update(i, e)) == match e.live {
            Some(id) => live_names(files).insert(e.path@, id as nat),
            None => live_names(files).remove(e.path@),
        },
        durable_names(files.update(i, e)) == match e.durable {
            Some(id) => durable_names(files).insert(e.path@, id as nat),
            None => durable_names(files).remove(e.path@),
        },
{
    let files2 = files.update(i, e);
    assert(names_unique(files2)) by {
        assert forall|a: int, b: int|
            0 <= a < files2.len() && 0 <= b < files2.len() && (#[trigger] files2[a]).path@ == (
            #[trigger] files2[b]).path@ implies a == b by {
            assert(files[a].path@ == files2[a].path@);
            assert(files[b].path@ == files2[b].path@);
        }
    }
    lemma_slot(files2, i);
    lemma_slot(files, i);
    assert forall|p: PathView| #![trigger slot(files2, p)]
        p != e.path@ && (exists|j: int| names(files2, j, p)) implies slot(files2, p) == slot(
        files,
        p,
    ) && files2[slot(files2, p)] == files[slot(files, p)] by {
        let j = choose|j: int| names(files2, j, p);
        assert(names(files, j, p));
        lemma_slot(files2, j);
        lemma_slot(files, j);
    }
    assert forall|p: PathView, j: int| p != e.path@ implies names(files2, j, p) == names(
        files,
        j,
        p,
    ) && (names(files, j, p) ==> files2[j] == files[j]) by {}
    assert forall|p: PathView| p != e.path@ implies live_names(files2).contains_key(p)
        == live_names(files).contains_key(p) && durable_names(files2).contains_key(p)
        == durable_names(files).contains_key(p) by {
        if live_names(files2).contains_key(p) {
            let j = choose|j: int| #[trigger] names(files2, j, p) && files2[j].live is Some;
            assert(names(files, j, p));
        }
        if live_names(files).contains_key(p) {
            let j = choose|j: int| #[trigger] names(files, j, p) && files[j].live is Some;
            assert(names(files2, j, p));
        }
        if durable_names(files2).contains_key(p) {
            let j = choose|j: int| #[trigger] names(files2, j, p) && files2[j].durable is Some;
            assert(names(files, j, p));
        }
        if durable_names(files).contains_key(p) {
            let j = choose|j: int| #[trigger] names(files, j, p) && files[j].durable is Some;
            assert(names(files2, j, p));
        }
    }
    assert forall|p: PathView|
        p != e.path@ && live_names(files2).contains_key(p) implies live_names(files2)[p]
        == live_names(files)[p] by {
        assert(exists|j: int| names(files2, j, p));
    }
    assert forall|p: PathView|
        p != e.path@ && durable_names(files2).contains_key(p) implies durable_names(files2)[p]
        == durable_names(files)[p] by {
        assert(exists|j: int| names(files2, j, p));
    }
    match e.live {
        Some(id) => {
            assert(live_names(files2) =~= live_names(files).insert(e.path@, id as nat));
        },
        None => {
            assert(live_names(files2) =~= live_names(files).remove(e.path@));
        },
    }
    match e.durable {
        Some(id) => {
            assert(durable_names(files2) =~= durable_names(files).insert(e.path@, id as nat));
        },
        None => {
            assert(durable_names(files2) =~= durable_names(files).remove(e.path@));
        },
    }
}

/// A new name changes that name alone.
proof fn lemma_entry_pushed(files: Seq<Entry>, e: Entry)
    requires
        names_unique(files),
        forall|i: int| 0 <= i < files.len() ==> (#[trigger] files[i]).path@ != e.path@,
    ensures
        names_unique(files.push(e)),
        live_names(files.push(e)) == match e.live {
            Some(id) => live_names(files).insert(e.path@, id as nat),
            None => live_names(files),
        },
        durable_names(files.push(e)) == match e.durable {
            Some(id) => durable_names(files).insert(e.path@, id as nat),
            None => durable_names(files),
        },
{
    let files2 = files.push(e);
    let last = files.len() as int;
    assert(names(files2, last, e.path@));
    assert forall|p: PathView, j: int| p != e.path@ implies names(files2, j, p) == names(
        files,
        j,
        p,
    ) by {}
    assert forall|j: int| !names(files, j, e.path@) by {}
    lemma_slot(files2, last);
    assert forall|p: PathView| #![trigger slot(files2, p)]
        p != e.path@ && (exists|j: int| names(files, j, p)) implies slot(files2, p) == slot(
        files,
        p,
    ) && 0 <= slot(files, p) < last by {
        let j = choose|j: int| names(files, j, p);
        assert(names(files2, j, p));
        lemma_slot(files2, j);
        lemma_slot(files, j);
    }
    assert forall|p: PathView| p != e.path@ implies live_names(files2).contains_key(p)
        == live_names(files).contains_key(p) && durable_names(files2).contains_key(p)
        == durable_names(files).contains_key(p) by {
        if live_names(files2).contains_key(p) {
            let j = choose|j: int| #[trigger] names(files2, j, p) && files2[j].live is Some;
            assert(names(files, j, p));
        }
        if live_names(files).contains_key(p) {
            let j = choose|j: int| #[trigger] names(files, j, p) && files[j].live is Some;
            assert(names(files2, j, p));
        }
        if durable_names(files2).contains_key(p) {
            let j = choose|j: int| #[trigger] names(files2, j, p) && files2[j].durable is Some;
            assert(names(files, j, p));
        }
        if durable_names(files).contains_key(p) {
            let j = choose|j: int| #[trigger] names(files, j, p) && files[j].durable is Some;
            assert(names(files2, j, p));
        }
    }
    assert(!live_names(files).contains_key(e.path@));
    assert(!durable_names(files).contains_key(e.path@));
    assert forall|p: PathView|
        p != e.path@ && live_names(files2).contains_key(p) implies live_names(files2)[p]
        == live_names(files)[p] by {
        let j = choose|j: int| #[trigger] names(files2, j, p) && files2[j].live is Some;
        assert(names(files, j, p));
    }
    assert forall|p: PathView|
        p != e.path@ && durable_names(files2).contains_key(p) implies durable_names(files2)[p]
        == durable_names(files)[p] by {
        let j = choose|j: int| #[trigger] names(files2, j, p) && files2[j].durable is Some;
        assert(names(files, j, p));
    }
    match e.live {
        Some(id) => {
            assert(live_names(files2) =~= live_names(files).insert(e.path@, id as nat));
        },
        None => {
            assert(live_names(files2) =~= live_names(files));
        },
    }
    match e.durable {
        Some(id) => {
            assert(durable_names(files2) =~= durable_names(files).insert(e.path@, id as nat));
        },
        None => {
            assert(durable_names(files2) =~= durable_names(files));
        },
    }
}

/// What follows for bytes and append times from a change of one generation.
proof fn lemma_generation_set(a: Seq<Inode>, b: Seq<Inode>, n: Inode)
    requires
        generations(b) == generations(a).insert(n.id as nat, n),
    ensures
        contents(b) == contents(a).insert(
            n.id as nat,
            FileData { live: n.live@, synced: n.durable@ },
        ),
        append_times(b) == match n.last_append {
            Some(t) => append_times(a).insert(n.id as nat, t),
            None => append_times(a).remove(n.id as nat),
        },
{
    assert(contents(b) =~= contents(a).insert(
        n.id as nat,
        FileData { live: n.live@, synced: n.durable@ },
    ));
    match n.last_append {
        Some(t) => {
            assert(append_times(b) =~= append_times(a).insert(n.id as nat, t));
        },
        None => {
            assert(append_times(b) =~= append_times(a).remove(n.id as nat));
        },
    }
}

/// Changing one generation changes that generation alone.
proof fn lemma_inode_updated(inodes: Seq<Inode>, i: int, n: Inode)
    requires
        ids_unique(inodes),
        0 <= i < inodes.len(),
        n.id == inodes[i].id,
    ensures
        ids_unique(inodes.update(i, n)),
        generations(inodes.update(i, n)) == generations(inodes).insert(n.id as nat, n),
{
    let inodes2 = inodes.update(i, n);
    assert(ids_unique(inodes2)) by {
        assert forall|a: int, b: int|
            0 <= a < inodes2.len() && 0 <= b < inodes2.len() && (#[trigger] inodes2[a]).id == (
            #[trigger] inodes2[b]).id implies a == b by {
            assert(inodes[a].id == inodes2[a].id);
            assert(inodes[b].id == inodes2[b].id);
        }
    }
    lemma_place(inodes2, i);
    assert forall|id: nat| #![trigger generations(inodes2)[id]]
        id != n.id && generations(inodes2).contains_key(id) implies generations(inodes2)[id]
        == generations(inodes)[id] by {
        let j = choose|j: int| holds(inodes2, j, id);
        lemma_place(inodes2, j);
        lemma_place(inodes, j);
    }
    assert forall|id: nat| generations(inodes2).contains_key(id) == generations(
        inodes,
    ).contains_key(id) by {
        assert forall|j: int| holds(inodes2, j, id) == holds(inodes, j, id) by {}
        if generations(inodes2).contains_key(id) {
            let j = choose|j: int| holds(inodes2, j, id);
            assert(holds(inodes, j, id));
        }
        if generations(inodes).contains_key(id) {
            let j = choose|j: int| holds(inodes, j, id);
            assert(holds(inodes2, j, id));
        }
    }
    assert(generations(inodes2) =~= generations(inodes).insert(n.id as nat, n));
}

/// A new generation changes nothing of the others.
proof fn lemma_inode_pushed(inodes: Seq<Inode>, n: Inode)
    requires
        ids_unique(inodes),
        forall|i: int| 0 <= i < inodes.len() ==> (#[trigger] inodes[i]).id != n.id,
    ensures
        ids_unique(inodes.push(n)),
        generations(inodes.push(n)) == generations(inodes).insert(n.id as nat, n),
{
    let inodes2 = inodes.push(n);
    let last = inodes.len() as int;
    lemma_place(inodes2, last);
    assert forall|id: nat| #![trigger generations(inodes2)[id]]
        id != n.id && generations(inodes2).contains_key(id) implies generations(
        inodes,
    ).contains_key(id) && generations(inodes2)[id] == generations(inodes)[id] by {
        let j = choose|j: int| holds(inodes2, j, id);
        assert(holds(inodes, j, id));
        lemma_place(inodes2, j);
        lemma_place(inodes, j);
    }
    assert forall|id: nat| id != n.id implies generations(inodes2).contains_key(id)
        == generations(inodes).contains_key(id) by {
        if generations(inodes2).contains_key(id) {
            let j = choose|j: int| holds(inodes2, j, id);
            assert(holds(inodes, j, id));
        }
        if generations(inodes).contains_key(id) {
            let j = choose|j: int| holds(inodes, j, id);
            assert(holds(inodes2, j, id));
        }
    }
    assert(generations(inodes2) =~= generations(inodes).insert(n.id as nat, n));
}

/// Dropping a generation changes nothing of the others.
proof fn lemma_inode_removed(inodes: Seq<Inode>, i: int)
    requires
        ids_unique(inodes),
        0 <= i < inodes.len(),
    ensures
        ids_unique(inodes.remove(i)),
        generations(inodes.remove(i)) == generations(inodes).remove(inodes[i].id as nat),
{
    let inodes2 = inodes.remove(i);
    let gone = inodes[i].id as nat;
    assert(ids_unique(inodes2)) by {
        assert forall|a: int, b: int|
            0 <= a < inodes2.len() && 0 <= b < inodes2.len() && (#[trigger] inodes2[a]).id == (
            #[trigger] inodes2[b]).id implies a == b by {
            let a0 = if a < i { a } else { a + 1 };
            let b0 = if b < i { b } else { b + 1 };
            assert(inodes[a0] == inodes2[a]);
            assert(inodes[b0] == inodes2[b]);
        }
    }
    lemma_place(inodes, i);
    assert forall|id: nat| #[trigger] generations(inodes2).contains_key(id) == (generations(
        inodes,
    ).contains_key(id) && id != gone) && (generations(inodes2).contains_key(id) ==> generations(
        inodes2,
    )[id] == generations(inodes)[id]) by {
        if generations(inodes2).contains_key(id) {
            let j = choose|j: int| holds(inodes2, j, id);
            let j0 = if j < i { j } else { j + 1 };
            assert(inodes[j0] == inodes2[j]);
            assert(holds(inodes, j0, id));
            lemma_place(inodes2, j);
            lemma_place(inodes, j0);
        }
        if generations(inodes).contains_key(id) && id != gone {
            let j = choose|j: int| holds(inodes, j, id);
            let j2 = if j < i { j } else { j - 1 };
            assert(inodes[j] == inodes2[j2]);
            assert(holds(inodes2, j2, id));
        }
    }
    assert(generations(inodes2) =~= generations(inodes).remove(gone));
}

/// A deterministic, seeded power-loss simulator implementing [`Storage`]. See
/// the module documentation for the fault model.
#[derive(Debug)]
pub struct SimFs {
    files: Vec<Entry>,
    inodes: Vec<Inode>,
    next_inode: u64,
    op_count: u64,
    next_append: u64,
    crash_after: Option<u64>,
    last_report: Option<CrashReport>,
    rng: StdRng,
}

impl SimFs {
    /// The file system that the simulator holds.
    pub closed spec fn fs(&self) -> FsState {
        FsState {
            live: live_names(self.files@),
            durable: durable_names(self.files@),
            data: contents(self.inodes@),
            next: self.next_inode as nat,
        }
    }

    /// Number of mutating operations so far.
    pub closed spec fn ops(&self) -> u64 {
        self.op_count
    }

    /// The operation count at which a crash fires.
    pub closed spec fn armed(&self) -> Option<u64> {
        self.crash_after
    }

    /// What the most recent crash reported.
    pub closed spec fn report(&self) -> Option<ReportView> {
        match self.last_report {
            Some(r) => Some(r@),
            None => None,
        }
    }

    /// For each file with an append that no `sync_file` covers yet, when its
    /// newest such append came.
    pub closed spec fn unsynced(&self) -> Map<nat, u64> {
        append_times(self.inodes@)
    }

    /// When the next append comes.
    pub closed spec fn stamp(&self) -> u64 {
        self.next_append
    }

    /// The state of the generator that decides how a crash tears.
    pub closed spec fn dice(&self) -> StdRng {
        self.rng
    }

    /// File numbers are left.
    pub open spec fn has_room(&self) -> bool {
        self.fs().next < u64::MAX
    }

    /// How many file numbers are left.
    pub open spec fn spare(&self) -> nat {
        if self.has_room() {
            (u64::MAX - self.fs().next) as nat
        } else {
            0
        }
    }

    /// The simulator's invariant.
    pub closed spec fn inv(&self) -> bool {
        &&& names_unique(self.files@)
        &&& ids_unique(self.inodes@)
        &&& self.fs().valid()
        &&& times_bounded(append_times(self.inodes@), self.next_append)
    }
}

/// File `id` survives a crash and has lost the race to its last sync: more was
/// appended to it than is durable.
pub open spec fn tearable(fs: FsState, times: Map<nat, u64>, id: nat) -> bool {
    &&& times.contains_key(id)
    &&& fs.data[id].live.len() > fs.data[id].synced.len()
    &&& exists|p: PathView| #[trigger] fs.durable.contains_key(p) && fs.durable[p] == id
}

/// File `id` is the [`tearable`] one with the newest append, and of several with the
/// newest number.
pub open spec fn newest_tearable(fs: FsState, times: Map<nat, u64>, id: nat) -> bool {
    &&& tearable(fs, times, id)
    &&& forall|c: nat| #[trigger]
        tearable(fs, times, c) ==> times[c] < times[id] || (times[c] == times[id] && c <= id)
}

/// `q` comes before `p` in the order of paths: component by component, and paths that
/// spell the same components by their directories and names.
pub open spec fn sorts_before(q: PathView, p: PathView) -> bool {
    ||| order::lex_lt(path::component_key(q), path::component_key(p))
    ||| path::component_key(q) == path::component_key(p) && (order::lex_lt(q.0, p.0) || (q.0 == p.0
        && order::lex_lt(q.1, p.1)))
}

proof fn lemma_sorts_before(a: PathView, b: PathView, c: PathView)
    ensures
        !sorts_before(a, a),
        a == b || sorts_before(a, b) || sorts_before(b, a),
        sorts_before(a, b) && sorts_before(b, c) ==> sorts_before(a, c),
{
    order::lemma_lex_irreflexive(path::component_key(a));
    order::lemma_lex_irreflexive(a.0);
    order::lemma_lex_irreflexive(a.1);
    order::lemma_lex_total(path::component_key(a), path::component_key(b));
    order::lemma_lex_total(a.0, b.0);
    order::lemma_lex_total(a.1, b.1);
    if order::lex_lt(path::component_key(a), path::component_key(b)) && order::lex_lt(
        path::component_key(b),
        path::component_key(c),
    ) {
        order::lemma_lex_transitive(path::component_key(a), path::component_key(b), path::component_key(c));
    }
    if order::lex_lt(a.0, b.0) && order::lex_lt(b.0, c.0) {
        order::lemma_lex_transitive(a.0, b.0, c.0);
    }
    if order::lex_lt(a.1, b.1) && order::lex_lt(b.1, c.1) {
        order::lemma_lex_transitive(a.1, b.1, c.1);
    }
}

/// Whether `q` comes before `p` in the order of paths.
fn comes_before(q: &FilePath, p: &FilePath) -> (r: bool)
    ensures
        r == sorts_before(q@, p@),
{
    match order::position(&q.key(), &p.key()) {
        Position::Before => true,
        Position::After => {
            proof {
                order::lemma_lex_asymmetric(path::component_key(p@), path::component_key(q@));
                order::lemma_lex_irreflexive(path::component_key(p@));
            }
            false
        },
        Position::Same => {
            proof {
                order::lemma_lex_irreflexive(path::component_key(p@));
                order::lemma_lex_irreflexive(p@.0);
                order::lemma_lex_irreflexive(p@.1);
            }
            let (q_dir, q_name) = q.parts();
            let (p_dir, p_name) = p.parts();
            match order::position(&q_dir, &p_dir) {
                Position::Before => true,
                Position::After => {
                    proof {
                        order::lemma_lex_asymmetric(p@.0, q@.0);
                    }
                    false
                },
                Position::Same => match order::position(&q_name, &p_name) {
                    Position::Before => true,
                    Position::After => {
                        proof {
                            order::lemma_lex_asymmetric(p@.1, q@.1);
                        }
                        false
                    },
                    Position::Same => false,
                },
            }
        },
    }
}

/// `p` comes first among the durable names of its file.
pub open spec fn first_durable_name(fs: FsState, p: PathView) -> bool {
    &&& fs.durable.contains_key(p)
    &&& forall|q: PathView| #[trigger]
        fs.durable.contains_key(q) && fs.durable[q] == fs.durable[p] ==> !sorts_before(q, p)
}

/// The last of the bits that a flip chooses from in a tail of `len` bytes.
pub open spec fn last_bit(len: nat) -> u64 {
    if 8 * len <= u64::MAX {
        (8 * len - 1) as u64
    } else {
        u64::MAX
    }
}

/// How a generator in state `dice` tears a tail of `len` bytes: the mode, the draw, and
/// the state of the generator after that.
pub open spec fn tear_drawn(dice: StdRng, len: nat) -> (TearMode, u64, StdRng) {
    let (kind, next) = random::byte_drawn(dice, 2);
    if kind == 0 {
        (TearMode::Drop, 0, next)
    } else if kind == 1 {
        let (kept, left) = random::number_drawn(next, len as u64);
        (TearMode::Truncate, kept, left)
    } else {
        let (bit, left) = random::number_drawn(next, last_bit(len));
        (TearMode::BitFlip, bit, left)
    }
}

/// What a crash makes of the file system `fs`, of whose files those in `times`
/// have unsynced appends: every file reverts to its durable bytes, except that
/// the newest unsynced append is torn as the generator in state `dice` decides and
/// the report `r` says. The generator is left in state `left`.
pub open spec fn crash_outcome(
    fs: FsState,
    times: Map<nat, u64>,
    ops: u64,
    dice: StdRng,
    after: FsState,
    r: ReportView,
    left: StdRng,
) -> bool {
    &&& r.ops_before_crash == ops
    &&& after.live == fs.durable
    &&& after.durable == fs.durable
    &&& after.next == fs.next
    &&& forall|id: nat| #[trigger]
        after.data.contains_key(id) <==> exists|p: PathView| #[trigger]
            fs.durable.contains_key(p) && fs.durable[p] == id
    &&& forall|id: nat|
        #![trigger after.data[id]]
        after.data.contains_key(id) && !(r.torn_path is Some && fs.durable[r.torn_path->0] == id)
            ==> after.data[id] == (FileData {
            live: fs.data[id].synced,
            synced: fs.data[id].synced,
        })
    &&& r.torn_path is None ==> {
        &&& forall|id: nat| !tearable(fs, times, id)
        &&& r.tear_mode == TearMode::Drop
        &&& r.tail_len == 0
        &&& r.tail_kept == 0
        &&& left == dice
    }
    &&& r.torn_path matches Some(p) ==> {
        let id = fs.durable[p];
        let d = fs.data[id];
        let tail = d.live.skip(d.synced.len() as int);
        let (mode, draw, next) = tear_drawn(dice, tail.len());
        &&& first_durable_name(fs, p)
        &&& newest_tearable(fs, times, id)
        &&& r.tail_len == tail.len()
        &&& r.tear_mode == mode
        &&& draw_in_range(tail, mode, draw as int)
        &&& r.tail_kept == bytes_kept(tail, mode, draw as int)
        &&& after.data[id] == (FileData {
            live: torn_bytes(d.synced, tail, mode, draw as int),
            synced: torn_bytes(d.synced, tail, mode, draw as int),
        })
        &&& left == next
    }
}

/// What a crash leaves, for a tail of whatever length: a file is torn if one survives that has
/// more bytes than are durable, an append to it not being covered by a sync, and it is the one
/// with the newest such append; every other file has its durable bytes. One draw picks the
/// mode. A draw of 0 drops the tail. A draw of 1 keeps a number of its bytes that is drawn
/// from none to all. A draw of 2 keeps all of it and inverts one bit, which is drawn from all
/// the bits of the tail.
pub proof fn lemma_crash_tears(
    fs: FsState,
    times: Map<nat, u64>,
    ops: u64,
    dice: StdRng,
    after: FsState,
    r: ReportView,
    left: StdRng,
)
    requires
        crash_outcome(fs, times, ops, dice, after, r, left),
    ensures
        r.ops_before_crash == ops,
        r.torn_path is None <==> forall|p: PathView| #[trigger]
            fs.durable.contains_key(p) && times.contains_key(fs.durable[p]) ==> fs.data[fs.durable[p]].live.len()
                <= fs.data[fs.durable[p]].synced.len(),
        forall|p: PathView| #[trigger]
            fs.durable.contains_key(p) && !(r.torn_path matches Some(q) && fs.durable[q]
                == fs.durable[p]) ==> after.content(p) == fs.data[fs.durable[p]].synced,
        forall|p: PathView| #[trigger] after.live.contains_key(p) <==> fs.durable.contains_key(p),
        r.torn_path is None ==> r.tear_mode == TearMode::Drop && r.tail_len == 0 && r.tail_kept == 0
            && left == dice,
        r.torn_path matches Some(p) ==> {
            let d = fs.data[fs.durable[p]];
            let n = (d.live.len() - d.synced.len()) as nat;
            let kind = random::byte_drawn(dice, 2).0;
            let next = random::byte_drawn(dice, 2).1;
            let kept = random::number_drawn(next, n as u64);
            let bit = random::number_drawn(next, (8 * n - 1) as u64);
            &&& fs.durable.contains_key(p)
            &&& n > 0
            &&& r.tail_len == n
            &&& forall|q: PathView| #[trigger]
                fs.durable.contains_key(q) && fs.durable[q] == fs.durable[p] && q.0 == p.0
                    && q.0.len() > 0 && q.0.last() != 47 && path::is_simple(q.1) && path::is_simple(
                    p.1,
                ) ==> !path::name_before(q.1, p.1)
            &&& forall|q: PathView| #[trigger]
                fs.durable.contains_key(q) && times.contains_key(fs.durable[q])
                    && fs.data[fs.durable[q]].live.len() > fs.data[fs.durable[q]].synced.len()
                    ==> times[fs.durable[q]] <= times[fs.durable[p]]
            &&& kind == 0 ==> {
                &&& r.tear_mode == TearMode::Drop
                &&& r.tail_kept == 0
                &&& after.content(p) == d.synced
                &&& left == next
            }
            &&& kind == 1 ==> {
                &&& r.tear_mode == TearMode::Truncate
                &&& r.tail_kept == kept.0
                &&& kept.0 <= n
                &&& after.content(p) == d.synced + d.live.subrange(
                    d.synced.len() as int,
                    d.synced.len() + kept.0,
                )
                &&& left == kept.1
            }
            &&& kind == 2 && 8 * n <= u64::MAX ==> {
                let at = d.synced.len() + bit.0 / 8;
                &&& r.tear_mode == TearMode::BitFlip
                &&& r.tail_kept == n
                &&& bit.0 < 8 * n
                &&& after.content(p).len() == d.live.len()
                &&& after.content(p).take(d.synced.len() as int) == d.synced
                &&& forall|j: int|
                    d.synced.len() <= j < d.live.len() && j != at ==> #[trigger] after.content(p)[j]
                        == d.live[j]
                &&& after.content(p)[at as int] == d.live[at as int] ^ (1u8 << ((bit.0 % 8) as u8))
                &&& left == bit.1
            }
        },
{
    if let Some(p) = r.torn_path {
        let id = fs.durable[p];
        let d = fs.data[id];
        let tail = d.live.skip(d.synced.len() as int);
        assert(tearable(fs, times, id));
        assert(after.data.contains_key(id));
        assert forall|q: PathView| #[trigger]
            fs.durable.contains_key(q) && times.contains_key(fs.durable[q])
                && fs.data[fs.durable[q]].live.len() > fs.data[fs.durable[q]].synced.len() implies
            times[fs.durable[q]] <= times[fs.durable[p]] by {
            assert(tearable(fs, times, fs.durable[q]));
        }
        assert forall|q: PathView| #[trigger]
            fs.durable.contains_key(q) && fs.durable[q] == fs.durable[p] && q.0 == p.0 && q.0.len()
                > 0 && q.0.last() != 47 && path::is_simple(q.1) && path::is_simple(p.1) implies
            !path::name_before(q.1, p.1) by {
            path::lemma_siblings_sort(p.0, q.1, p.1);
            assert(!sorts_before(q, p));
            assert(q == (p.0, q.1));
            assert(p == (p.0, p.1));
        }
        let (mode, draw, next) = tear_drawn(dice, tail.len());
        if mode == TearMode::Truncate {
            assert(tail.take(draw as int) =~= d.live.subrange(
                d.synced.len() as int,
                d.synced.len() + draw,
            ));
        }
        if mode == TearMode::BitFlip {
            let torn = after.content(p);
            assert(torn.take(d.synced.len() as int) =~= d.synced);
        }
    } else {
        assert forall|p: PathView| #[trigger]
            fs.durable.contains_key(p) && times.contains_key(fs.durable[p]) implies
            fs.data[fs.durable[p]].live.len() <= fs.data[fs.durable[p]].synced.len() by {
            assert(!tearable(fs, times, fs.durable[p]));
        }
    }
    assert forall|p: PathView| #[trigger]
        fs.durable.contains_key(p) && !(r.torn_path matches Some(q) && fs.durable[q]
            == fs.durable[p]) implies after.content(p) == fs.data[fs.durable[p]].synced by {
        assert(after.data.contains_key(fs.durable[p]));
    }
}

/// Whether a tail is dropped, cut or inverted in a bit does not depend on the tail: two crashes
/// of simulators whose generators are in the same state tear in the same mode.
pub proof fn lemma_tear_mode_drawn(
    dice: StdRng,
    a: (FsState, Map<nat, u64>, u64, FsState, ReportView, StdRng),
    b: (FsState, Map<nat, u64>, u64, FsState, ReportView, StdRng),
)
    requires
        crash_outcome(a.0, a.1, a.2, dice, a.3, a.4, a.5),
        crash_outcome(b.0, b.1, b.2, dice, b.3, b.4, b.5),
        a.4.torn_path is Some,
        b.4.torn_path is Some,
    ensures
        a.4.tear_mode == b.4.tear_mode,
{
}

/// Crashes can be repeated: what a crash leaves, and what it reports, is settled by the
/// file system, the unsynced appends and the state of the generator.
pub proof fn lemma_crash_repeats(
    fs: FsState,
    times: Map<nat, u64>,
    ops: u64,
    dice: StdRng,
    a: (FsState, ReportView, StdRng),
    b: (FsState, ReportView, StdRng),
)
    requires
        crash_outcome(fs, times, ops, dice, a.0, a.1, a.2),
        crash_outcome(fs, times, ops, dice, b.0, b.1, b.2),
    ensures
        a == b,
{
    if let Some(p) = a.1.torn_path {
        assert(tearable(fs, times, fs.durable[p]));
        assert(b.1.torn_path is Some);
        let q = b.1.torn_path->0;
        assert(tearable(fs, times, fs.durable[q]));
        assert(fs.durable[p] == fs.durable[q]);
        lemma_sorts_before(p, q, p);
        assert(p == q);
    } else {
        if let Some(q) = b.1.torn_path {
            assert(tearable(fs, times, fs.durable[q]));
        }
    }
    assert(a.0.data.dom() =~= b.0.data.dom());
    assert forall|id: nat| #[trigger] a.0.data.contains_key(id) implies a.0.data[id]
        == b.0.data[id] by {
        assert(b.0.data.contains_key(id));
    }
    assert(a.0.data =~= b.0.data);
    assert(a.0 =~= b.0);
}

/// A crash as the simulator makes it is a power loss.
pub proof fn lemma_crash_is_power_loss(
    fs: FsState,
    times: Map<nat, u64>,
    ops: u64,
    dice: StdRng,
    after: FsState,
    r: ReportView,
    left: StdRng,
)
    requires
        fs.valid(),
        crash_outcome(fs, times, ops, dice, after, r, left),
    ensures
        storage::power_loss(fs, after),
        after.valid(),
{
    assert forall|id: nat| #[trigger] after.data.contains_key(id) implies storage::torn(
        fs.data[id],
        after.data[id].live,
    ) && after.data[id].synced == after.data[id].live by {
        let d = fs.data[id];
        let tail = d.live.skip(d.synced.len() as int);
        if r.torn_path is Some && fs.durable[r.torn_path->0] == id {
            let draw = choose|draw: int|
                {
                    &&& draw_in_range(tail, r.tear_mode, draw)
                    &&& r.tail_kept == bytes_kept(tail, r.tear_mode, draw)
                    &&& after.data[id] == (FileData {
                        live: torn_bytes(d.synced, tail, r.tear_mode, draw),
                        synced: #[trigger] torn_bytes(d.synced, tail, r.tear_mode, draw),
                    })
                };
            match r.tear_mode {
                TearMode::Drop => {},
                TearMode::Truncate => {
                    assert(after.data[id].live == d.synced + tail.take(draw));
                },
                TearMode::BitFlip => {
                    assert(after.data[id].live == d.synced + storage::flipped(tail, draw));
                },
            }
        } else {
            assert(after.data[id].live == d.synced);
        }
    }
    assert forall|p: PathView| #[trigger] after.live.contains_key(p) implies after.data.contains_key(
        after.live[p],
    ) by {
        assert(fs.durable.contains_key(p));
    }
    assert forall|id: nat| #[trigger] after.data.contains_key(id) implies id < after.next by {
        let p = choose|p: PathView| #[trigger] fs.durable.contains_key(p) && fs.durable[p] == id;
        assert(fs.data.contains_key(id));
    }
}

/// What follows when every generation reverts to its durable bytes.
proof fn lemma_reverted(a: Seq<Inode>, b: Seq<Inode>)
    requires
        ids_unique(a),
        a.len() == b.len(),
        forall|i: int|
            0 <= i < a.len() ==> (#[trigger] b[i]).id == a[i].id && b[i].live@ == a[i].durable@
                && b[i].durable@ == a[i].durable@ && b[i].last_append is None,
    ensures
        ids_unique(b),
        contents(b).dom() == contents(a).dom(),
        forall|id: nat| #[trigger]
            contents(b).contains_key(id) ==> contents(b)[id] == (FileData {
                live: contents(a)[id].synced,
                synced: contents(a)[id].synced,
            }),
        append_times(b) == Map::<nat, u64>::empty(),
{
    assert(ids_unique(b)) by {
        assert forall|i: int, j: int|
            0 <= i < b.len() && 0 <= j < b.len() && (#[trigger] b[i]).id == (#[trigger] b[j]).id
                implies i == j by {
            assert(a[i].id == b[i].id);
            assert(a[j].id == b[j].id);
        }
    }
    assert forall|id: nat| #[trigger] contents(b).contains_key(id) == contents(a).contains_key(
        id,
    ) && (contents(b).contains_key(id) ==> contents(b)[id] == (FileData {
        live: contents(a)[id].synced,
        synced: contents(a)[id].synced,
    })) by {
        if contents(b).contains_key(id) {
            let j = choose|j: int| holds(b, j, id);
            lemma_place(b, j);
            lemma_place(a, j);
        }
        if contents(a).contains_key(id) {
            let j = choose|j: int| holds(a, j, id);
            assert(holds(b, j, id));
        }
    }
    assert(contents(b).dom() =~= contents(a).dom());
    assert forall|id: nat| !append_times(b).contains_key(id) by {
        if append_times(b).contains_key(id) {
            let j = choose|j: int| holds(b, j, id);
            lemma_place(b, j);
        }
    }
    assert(append_times(b) =~= Map::<nat, u64>::empty());
}

/// A simulator that nothing was done to, seeded with `seed`.
pub open spec fn is_new(s: SimFs, seed: u64) -> bool {
    &&& s.fs() == (FsState { next: 1, ..FsState::empty() })
    &&& s.ops() == 0
    &&& s.armed() is None
    &&& s.report() is None
    &&& s.unsynced() == Map::<nat, u64>::empty()
    &&& s.stamp() == 0
    &&& s.dice() == random::seeded_state(seed)
}

/// Two simulators that behave alike from here on.
pub open spec fn alike(a: SimFs, b: SimFs) -> bool {
    &&& a.fs() == b.fs()
    &&& a.ops() == b.ops()
    &&& a.armed() == b.armed()
    &&& a.report() == b.report()
    &&& a.unsynced() == b.unsynced()
    &&& a.stamp() == b.stamp()
    &&& a.dice() == b.dice()
}

impl SimFs {
    /// Constructs a `SimFs` from an explicit [`SimConfig`].
    pub fn new(config: SimConfig) -> (s: Self)
        ensures
            s.inv(),
            is_new(s, config.seed),
    {
        let s = SimFs {
            files: Vec::new(),
            inodes: Vec::new(),
            next_inode: 1,
            op_count: 0,
            next_append: 0,
            crash_after: None,
            last_report: None,
            rng: random::seeded(config.seed),
        };
        proof {
            assert(live_names(s.files@) =~= Map::empty());
            assert(durable_names(s.files@) =~= Map::empty());
            assert(contents(s.inodes@) =~= Map::empty());
            assert(append_times(s.inodes@) =~= Map::empty());
        }
        s
    }

    /// Constructs a `SimFs` with the given seed.
    pub fn with_seed(seed: u64) -> (s: Self)
        ensures
            s.inv(),
            is_new(s, seed),
    {
        SimFs::new(SimConfig { seed })
    }

    /// Number of mutating operations so far, durability barriers included. The
    /// count stays at its maximum once it is reached.
    pub fn op_count(&self) -> (n: u64)
        ensures
            n == self.ops(),
    {
        self.op_count
    }

    /// Arms a crash to fire the instant the operation count reaches `n`. An
    /// already-reached `n` fires on the next mutating operation; the arm is
    /// one-shot.
    pub fn arm_crash_after(&mut self, n: u64)
        ensures
            final(self).armed() == Some(n),
            final(self).fs() == old(self).fs(),
            final(self).ops() == old(self).ops(),
            final(self).report() == old(self).report(),
            final(self).unsynced() == old(self).unsynced(),
            final(self).stamp() == old(self).stamp(),
            final(self).dice() == old(self).dice(),
            old(self).inv() ==> final(self).inv(),
    {
        self.crash_after = Some(n);
    }

    /// The report of the most recent crash, if one has occurred.
    pub fn last_report(&self) -> (r: Option<CrashReport>)
        ensures
            r is Some == self.report() is Some,
            r is Some ==> self.report() == Some(r->0@),
    {
        match &self.last_report {
            Some(r) => Some(r.clone()),
            None => None,
        }
    }

    /// How many file generations some name stands for.
    pub fn inode_count(&self) -> (n: usize)
        requires
            self.inv(),
        ensures
            n == self.fs().data.dom().len(),
    {
        proof {
            lemma_generation_count(self.inodes@);
        }
        self.inodes.len()
    }

    /// The entry of `path`, if it has one.
    fn slot_of(&self, path: &FilePath) -> (r: Option<usize>)
        ensures
            match r {
                Some(i) => names(self.files@, i as int, path@),
                None => forall|i: int| !names(self.files@, i, path@),
            },
    {
        let mut i: usize = 0;
        while i < self.files.len()
            invariant
                i <= self.files.len(),
                forall|j: int| 0 <= j < i ==> !names(self.files@, j, path@),
            decreases self.files.len() - i,
        {
            if self.files[i].path.same(path) {
                return Some(i);
            }
            i = i + 1;
        }
        None
    }

    /// The generation that `path` stands for in the live namespace.
    fn live_inode(&self, path: &FilePath) -> (r: Option<usize>)
        requires
            self.inv(),
        ensures
            r is Some == self.fs().live.contains_key(path@),
            r matches Some(i) ==> {
                &&& i < self.inodes@.len()
                &&& self.inodes@[i as int].id == self.fs().live[path@]
                &&& self.fs().data[self.fs().live[path@]] == (FileData {
                    live: self.inodes@[i as int].live@,
                    synced: self.inodes@[i as int].durable@,
                })
            },
    {
        match self.slot_of(path) {
            Some(i) => {
                proof {
                    lemma_slot(self.files@, i as int);
                    assert(self.fs().live.contains_key(path@) ==> self.fs().data.contains_key(
                        self.fs().live[path@],
                    ));
                }
                match self.files[i].live {
                    Some(id) => Some(self.position_of(id)),
                    None => None,
                }
            },
            None => None,
        }
    }

    /// Where the generation `id` is kept.
    fn position_of(&self, id: u64) -> (i: usize)
        requires
            self.inv(),
            self.fs().data.contains_key(id as nat),
        ensures
            i < self.inodes@.len(),
            self.inodes@[i as int].id == id,
            self.fs().data[id as nat] == (FileData {
                live: self.inodes@[i as int].live@,
                synced: self.inodes@[i as int].durable@,
            }),
    {
        let mut i: usize = 0;
        let ghost k = place(self.inodes@, id as nat);
        proof {
            let j = choose|j: int| holds(self.inodes@, j, id as nat);
            lemma_place(self.inodes@, j);
        }
        while self.inodes[i].id != id
            invariant
                i <= k < self.inodes.len(),
                self.inodes@[k].id == id,
            decreases k - i,
        {
            i = i + 1;
        }
        proof {
            lemma_place(self.inodes@, i as int);
        }
        i
    }

    /// Whether some name stands for generation `id`.
    fn is_referenced(&self, id: u64) -> (r: bool)
        requires
            self.inv(),
        ensures
            r == self.fs().referenced(id as nat),
    {
        let mut i: usize = 0;
        while i < self.files.len()
            invariant
                i <= self.files.len(),
                self.inv(),
                forall|j: int|
                    0 <= j < i ==> (#[trigger] self.files@[j]).live != Some(id)
                        && self.files@[j].durable != Some(id),
            decreases self.files.len() - i,
        {
            proof {
                lemma_slot(self.files@, i as int);
            }
            match self.files[i].live {
                Some(x) => {
                    if x == id {
                        assert(self.fs().live.contains_key(self.files@[i as int].path@));
                        return true;
                    }
                },
                None => {},
            }
            match self.files[i].durable {
                Some(x) => {
                    if x == id {
                        assert(self.fs().durable.contains_key(self.files@[i as int].path@));
                        return true;
                    }
                },
                None => {},
            }
            i = i + 1;
        }
        proof {
            if self.fs().referenced(id as nat) {
                if exists|p: PathView| #[trigger]
                    self.fs().live.contains_key(p) && self.fs().live[p] == id as nat {
                    let p = choose|p: PathView| #[trigger]
                        self.fs().live.contains_key(p) && self.fs().live[p] == id as nat;
                    let j = choose|j: int| #[trigger]
                        names(self.files@, j, p) && self.files@[j].live is Some;
                    lemma_slot(self.files@, j);
                } else {
                    let p = choose|p: PathView| #[trigger]
                        self.fs().durable.contains_key(p) && self.fs().durable[p] == id as nat;
                    let j = choose|j: int| #[trigger]
                        names(self.files@, j, p) && self.files@[j].durable is Some;
                    lemma_slot(self.files@, j);
                }
            }
        }
        false
    }

    /// Forgets the generations that no name stands for.
    fn collect_unreferenced_inodes(&mut self)
        requires
            old(self).inv(),
        ensures
            final(self).inv(),
            final(self).fs() == old(self).fs().pruned(),
            final(self).files@ == old(self).files@,
            final(self).unsynced() == old(self).unsynced().restrict(
                Set::new(|id: nat| old(self).fs().referenced(id)),
            ),
            final(self).op_count == old(self).op_count,
            final(self).next_append == old(self).next_append,
            final(self).next_inode == old(self).next_inode,
            final(self).crash_after == old(self).crash_after,
            final(self).last_report == old(self).last_report,
            final(self).rng == old(self).rng,
    {
        let mut i: usize = 0;
        let ghost all = generations(self.inodes@);
        while i < self.inodes.len()
            invariant
                i <= self.inodes.len(),
                self.inv(),
                old(self).inv(),
                self.files@ == old(self).files@,
                self.next_inode == old(self).next_inode,
                self.op_count == old(self).op_count,
                self.next_append == old(self).next_append,
                self.crash_after == old(self).crash_after,
                self.last_report == old(self).last_report,
                self.rng == old(self).rng,
                all == generations(old(self).inodes@),
                forall|j: int|
                    0 <= j < i ==> old(self).fs().referenced(
                        (#[trigger] self.inodes@[j]).id as nat,
                    ),
                forall|id: nat| #[trigger]
                    generations(self.inodes@).contains_key(id) ==> all.contains_key(id)
                        && generations(self.inodes@)[id] == all[id],
                forall|id: nat|
                    all.contains_key(id) && old(self).fs().referenced(id) ==> #[trigger] generations(
                        self.inodes@,
                    ).contains_key(id),
            decreases self.inodes.len() - i,
        {
            assert(self.fs().live =~= old(self).fs().live);
            assert(self.fs().durable =~= old(self).fs().durable);
            let id: u64 = self.inodes[i].id;
            if self.is_referenced(id) {
                i = i + 1;
            } else {
                let ghost before = self.inodes@;
                self.inodes.remove(i);
                proof {
                    lemma_inode_removed(before, i as int);
                    assert(self.inodes@ =~= before.remove(i as int));
                    assert forall|x: nat| #[trigger]
                        append_times(self.inodes@).contains_key(x) implies append_times(
                        self.inodes@,
                    )[x] <= self.next_append by {
                        assert(append_times(before).contains_key(x));
                    }
                    assert forall|p: PathView| #[trigger]
                        self.fs().live.contains_key(p) implies self.fs().data.contains_key(
                        self.fs().live[p],
                    ) by {
                        assert(old(self).fs().live.contains_key(p));
                    }
                    assert forall|p: PathView| #[trigger]
                        self.fs().durable.contains_key(p) implies self.fs().data.contains_key(
                        self.fs().durable[p],
                    ) by {
                        assert(old(self).fs().durable.contains_key(p));
                    }
                    assert forall|x: nat| #[trigger]
                        self.fs().data.contains_key(x) implies x < self.fs().next by {
                        assert(contents(before).contains_key(x));
                        assert(all.contains_key(x));
                        assert(old(self).fs().data.contains_key(x));
                    }
                }
            }
        }
        proof {
            assert forall|id: nat| generations(self.inodes@).contains_key(id) implies #[trigger] old(self).fs().referenced(id) by {
                let j = choose|j: int| holds(self.inodes@, j, id);
                assert(old(self).fs().referenced(self.inodes@[j].id as nat));
            }
            assert(self.fs().data =~= old(self).fs().pruned().data);
            assert(self.fs().live =~= old(self).fs().live);
            assert(self.fs().durable =~= old(self).fs().durable);
            assert(self.unsynced() =~= old(self).unsynced().restrict(
                Set::new(|id: nat| old(self).fs().referenced(id)),
            ));
        }
    }
}

impl SimFs {
    /// The entry that comes first among those whose durable name stands for `id`.
    fn first_durable_slot(&self, id: u64) -> (r: Option<usize>)
        requires
            self.inv(),
        ensures
            match r {
                Some(i) => {
                    &&& i < self.files@.len()
                    &&& self.files@[i as int].durable == Some(id)
                    &&& first_durable_name(self.fs(), self.files@[i as int].path@)
                    &&& self.fs().durable[self.files@[i as int].path@] == id
                },
                None => forall|p: PathView| #[trigger]
                    self.fs().durable.contains_key(p) ==> self.fs().durable[p] != id,
            },
    {
        let mut best: Option<usize> = None;
        let mut i: usize = 0;
        while i < self.files.len()
            invariant
                i <= self.files.len(),
                self.inv(),
                match best {
                    Some(b) => {
                        &&& b < i
                        &&& self.files@[b as int].durable == Some(id)
                        &&& forall|j: int|
                            0 <= j < i && (#[trigger] self.files@[j]).durable == Some(id)
                                ==> !sorts_before(
                                self.files@[j].path@,
                                self.files@[b as int].path@,
                            )
                    },
                    None => forall|j: int|
                        0 <= j < i ==> (#[trigger] self.files@[j]).durable != Some(id),
                },
            decreases self.files.len() - i,
        {
            match self.files[i].durable {
                Some(x) => {
                    if x == id {
                        let better: bool = match best {
                            Some(b) => comes_before(&self.files[i].path, &self.files[b].path),
                            None => true,
                        };
                        proof {
                            let p = self.files@[i as int].path@;
                            lemma_sorts_before(p, p, p);
                            if let Some(b) = best {
                                assert forall|j: int|
                                    better && 0 <= j < i && (#[trigger] self.files@[j]).durable
                                        == Some(id) implies !sorts_before(
                                    self.files@[j].path@,
                                    p,
                                ) by {
                                    lemma_sorts_before(
                                        self.files@[j].path@,
                                        p,
                                        self.files@[b as int].path@,
                                    );
                                }
                            }
                        }
                        if better {
                            best = Some(i);
                        }
                    }
                },
                None => {},
            }
            i = i + 1;
        }
        proof {
            assert forall|p: PathView| #[trigger] self.fs().durable.contains_key(p) && self.fs().durable[p]
                == id implies exists|j: int|
                0 <= j < self.files@.len() && (#[trigger] self.files@[j]).path@ == p
                    && self.files@[j].durable == Some(id) by {
                let j = choose|j: int| #[trigger]
                    names(self.files@, j, p) && self.files@[j].durable is Some;
                lemma_slot(self.files@, j);
                assert(self.files@[j].path@ == p);
            }
            if let Some(b) = best {
                lemma_slot(self.files@, b as int);
            }
        }
        best
    }

    /// The tearable generation with the newest append and its first durable
    /// name, as positions among the generations and the entries.
    fn tear_target(&self) -> (r: Option<(usize, usize)>)
        requires
            self.inv(),
        ensures
            match r {
                Some((k, f)) => {
                    &&& k < self.inodes@.len()
                    &&& f < self.files@.len()
                    &&& newest_tearable(
                        self.fs(),
                        self.unsynced(),
                        self.inodes@[k as int].id as nat,
                    )
                    &&& first_durable_name(self.fs(), self.files@[f as int].path@)
                    &&& self.fs().durable[self.files@[f as int].path@]
                        == self.inodes@[k as int].id
                },
                None => forall|id: nat| !tearable(self.fs(), self.unsynced(), id),
            },
    {
        let mut best: Option<(u64, usize, usize)> = None;
        let mut i: usize = 0;
        while i < self.inodes.len()
            invariant
                i <= self.inodes.len(),
                self.inv(),
                match best {
                    Some((t, k, f)) => {
                        &&& k < i
                        &&& f < self.files@.len()
                        &&& tearable(
                            self.fs(),
                            self.unsynced(),
                            self.inodes@[k as int].id as nat,
                        )
                        &&& t == self.unsynced()[self.inodes@[k as int].id as nat]
                        &&& first_durable_name(self.fs(), self.files@[f as int].path@)
                        &&& self.fs().durable[self.files@[f as int].path@]
                            == self.inodes@[k as int].id
                        &&& forall|j: int|
                            0 <= j < i && tearable(
                                self.fs(),
                                self.unsynced(),
                                (#[trigger] self.inodes@[j]).id as nat,
                            ) ==> self.unsynced()[self.inodes@[j].id as nat] < t || (
                            self.unsynced()[self.inodes@[j].id as nat] == t && self.inodes@[j].id
                                <= self.inodes@[k as int].id)
                    },
                    None => forall|j: int|
                        0 <= j < i ==> !tearable(
                            self.fs(),
                            self.unsynced(),
                            (#[trigger] self.inodes@[j]).id as nat,
                        ),
                },
            decreases self.inodes.len() - i,
        {
            proof {
                lemma_place(self.inodes@, i as int);
            }
            let id: u64 = self.inodes[i].id;
            match self.inodes[i].last_append {
                Some(t) => {
                    if self.inodes[i].live.len() > self.inodes[i].durable.len() {
                        match self.first_durable_slot(id) {
                            Some(f) => {
                                assert(tearable(self.fs(), self.unsynced(), id as nat));
                                let newer: bool = match best {
                                    Some((other, k, _)) => t > other || (t == other && id
                                        > self.inodes[k].id),
                                    None => true,
                                };
                                if newer {
                                    best = Some((t, i, f));
                                }
                            },
                            None => {},
                        }
                    }
                },
                None => {},
            }
            i = i + 1;
        }
        proof {
            assert forall|id: nat| #[trigger]
                tearable(self.fs(), self.unsynced(), id) implies exists|j: int|
                0 <= j < self.inodes@.len() && (#[trigger] self.inodes@[j]).id == id by {
                let j = choose|j: int| holds(self.inodes@, j, id);
                assert(self.inodes@[j].id == id);
            }
        }
        match best {
            Some((_, k, f)) => Some((k, f)),
            None => None,
        }
    }

    /// Makes the durable namespace the live one.
    fn revert_names(&mut self)
        requires
            names_unique(old(self).files@),
        ensures
            names_unique(final(self).files@),
            live_names(final(self).files@) == durable_names(old(self).files@),
            durable_names(final(self).files@) == durable_names(old(self).files@),
            final(self).inodes@ == old(self).inodes@,
            final(self).op_count == old(self).op_count,
            final(self).next_append == old(self).next_append,
            final(self).next_inode == old(self).next_inode,
            final(self).crash_after == old(self).crash_after,
            final(self).last_report == old(self).last_report,
            final(self).rng == old(self).rng,
    {
        let mut kept: Vec<Entry> = Vec::new();
        let mut i: usize = 0;
        assert(live_names(kept@) =~= Map::empty());
        assert(durable_names(kept@) =~= Map::empty());
        while i < self.files.len()
            invariant
                i <= self.files.len(),
                *self == *old(self),
                names_unique(self.files@),
                names_unique(kept@),
                live_names(kept@) == durable_names(kept@),
                forall|j: int|
                    0 <= j < kept@.len() ==> exists|k: int| #[trigger]
                        names(self.files@, k, (#[trigger] kept@[j]).path@) && k < i,
                forall|p: PathView| #[trigger]
                    durable_names(kept@).contains_key(p) ==> durable_names(
                        self.files@,
                    ).contains_key(p) && durable_names(kept@)[p] == durable_names(self.files@)[p],
                forall|j: int|
                    0 <= j < i && (#[trigger] self.files@[j]).durable is Some ==> durable_names(
                        kept@,
                    ).contains_key(self.files@[j].path@),
            decreases self.files.len() - i,
        {
            proof {
                lemma_slot(self.files@, i as int);
            }
            let durable: Option<u64> = self.files[i].durable;
            if durable.is_some() {
                let e = Entry { path: self.files[i].path.clone(), live: durable, durable };
                proof {
                    assert forall|j: int| 0 <= j < kept@.len() implies (
                    #[trigger] kept@[j]).path@ != e.path@ by {
                        let k = choose|k: int| #[trigger]
                            names(self.files@, k, kept@[j].path@) && k < i;
                        lemma_slot(self.files@, k);
                    }
                    lemma_entry_pushed(kept@, e);
                    assert(names(self.files@, i as int, e.path@));
                }
                let ghost before = kept@;
                kept.push(e);
                proof {
                    assert forall|j: int| 0 <= j < kept@.len() implies exists|k: int| #[trigger]
                        names(self.files@, k, (#[trigger] kept@[j]).path@) && k < i + 1 by {
                        if j < before.len() {
                            assert(kept@[j] == before[j]);
                            let k = choose|k: int| #[trigger]
                                names(self.files@, k, before[j].path@) && k < i;
                            assert(names(self.files@, k, kept@[j].path@) && k < i + 1);
                        } else {
                            assert(names(self.files@, i as int, kept@[j].path@));
                        }
                    }
                }
            }
            i = i + 1;
        }
        proof {
            assert forall|p: PathView| durable_names(self.files@).contains_key(
                p,
            ) implies #[trigger] durable_names(kept@).contains_key(p) by {
                let j = choose|j: int| #[trigger]
                    names(self.files@, j, p) && self.files@[j].durable is Some;
                assert(self.files@[j].path@ == p);
            }
            assert(durable_names(kept@) =~= durable_names(self.files@));
        }
        self.files = kept;
    }

    /// Makes the durable bytes of every generation its only ones.
    fn revert_contents(&mut self)
        requires
            ids_unique(old(self).inodes@),
        ensures
            final(self).files@ == old(self).files@,
            final(self).inodes@.len() == old(self).inodes@.len(),
            forall|i: int|
                0 <= i < old(self).inodes@.len() ==> {
                    let was = old(self).inodes@[i];
                    let now = #[trigger] final(self).inodes@[i];
                    &&& now.id == was.id
                    &&& now.live@ == was.durable@
                    &&& now.durable@ == was.durable@
                    &&& now.last_append is None
                },
            final(self).op_count == old(self).op_count,
            final(self).next_append == old(self).next_append,
            final(self).next_inode == old(self).next_inode,
            final(self).crash_after == old(self).crash_after,
            final(self).last_report == old(self).last_report,
            final(self).rng == old(self).rng,
    {
        let mut i: usize = 0;
        while i < self.inodes.len()
            invariant
                i <= self.inodes.len(),
                self.inodes@.len() == old(self).inodes@.len(),
                self.files@ == old(self).files@,
                self.op_count == old(self).op_count,
                self.next_append == old(self).next_append,
                self.next_inode == old(self).next_inode,
                self.crash_after == old(self).crash_after,
                self.last_report == old(self).last_report,
                self.rng == old(self).rng,
                forall|j: int|
                    0 <= j < i ==> (#[trigger] self.inodes@[j]).id == old(self).inodes@[j].id
                        && self.inodes@[j].live@ == old(self).inodes@[j].durable@
                        && self.inodes@[j].durable@ == old(self).inodes@[j].durable@
                        && self.inodes@[j].last_append is None,
                forall|j: int|
                    i <= j < self.inodes@.len() ==> (#[trigger] self.inodes@[j]) == old(self).inodes@[j],
            decreases self.inodes.len() - i,
        {
            let bytes: Vec<u8> = self.inodes[i].durable.clone();
            self.inodes[i].live = bytes;
            self.inodes[i].last_append = None;
            i = i + 1;
        }
    }

    /// Simulates a power loss: discards all buffered state, reverts the
    /// namespace to its durable image, and tears the most recent unsynced
    /// append. The report is also kept for [`last_report`](SimFs::last_report).
    pub fn crash(&mut self) -> (r: CrashReport)
        requires
            old(self).inv(),
        ensures
            final(self).inv(),
            crash_outcome(
                old(self).fs(),
                old(self).unsynced(),
                old(self).ops(),
                old(self).dice(),
                final(self).fs(),
                r@,
                final(self).dice(),
            ),
            storage::power_loss(old(self).fs(), final(self).fs()),
            final(self).report() == Some(r@),
            final(self).armed() is None,
            final(self).ops() == old(self).ops(),
            final(self).unsynced() == Map::<nat, u64>::empty(),
            final(self).stamp() == old(self).stamp(),
    {
        let mut report = CrashReport::default();
        report.ops_before_crash = self.op_count;
        let ghost fs0 = self.fs();
        let ghost times0 = self.unsynced();
        let ghost inodes0 = self.inodes@;
        let ghost mut torn_draw: int = 0;
        match self.tear_target() {
            Some((k, f)) => {
                proof {
                    lemma_place(self.inodes@, k as int);
                }
                let synced_len: usize = self.inodes[k].durable.len();
                let live_len: usize = self.inodes[k].live.len();
                let tail: Vec<u8> = codec::copy_range(&self.inodes[k].live, synced_len, live_len);
                assert(tail@ =~= self.inodes@[k as int].live@.skip(synced_len as int));
                let mode: TearMode = match random::draw_byte(&mut self.rng, 2) {
                    0 => TearMode::Drop,
                    1 => TearMode::Truncate,
                    _ => TearMode::BitFlip,
                };
                let tail_len: u64 = tail.len() as u64;
                let last: u64 = if tail_len <= u64::MAX / 8 {
                    tail_len * 8 - 1
                } else {
                    u64::MAX
                };
                let draw: u64 = match mode {
                    TearMode::Drop => 0,
                    TearMode::Truncate => random::draw_number(&mut self.rng, tail_len),
                    TearMode::BitFlip => random::draw_number(&mut self.rng, last),
                };
                let (kept, tail_kept) = tear(&self.inodes[k].durable, &tail, mode, draw);
                report.torn_path = Some(self.files[f].path.clone());
                report.tear_mode = mode;
                report.tail_len = tail_len;
                report.tail_kept = tail_kept;
                proof {
                    torn_draw = draw as int;
                    lemma_inode_updated(
                        self.inodes@,
                        k as int,
                        Inode { durable: kept, ..self.inodes@[k as int] },
                    );
                    lemma_generation_set(
                        self.inodes@,
                        self.inodes@.update(
                            k as int,
                            Inode { durable: kept, ..self.inodes@[k as int] },
                        ),
                        Inode { durable: kept, ..self.inodes@[k as int] },
                    );
                }
                self.inodes[k].durable = kept;
                assert(self.inodes@ =~= inodes0.update(
                    k as int,
                    Inode { durable: kept, ..inodes0[k as int] },
                ));
            },
            None => {},
        }
        let ghost inodes1 = self.inodes@;
        self.revert_contents();
        proof {
            lemma_reverted(inodes1, self.inodes@);
        }
        self.revert_names();
        let ghost reverted = self.fs();
        proof {
            assert(reverted.live == fs0.durable);
            assert(reverted.durable == fs0.durable);
            assert forall|p: PathView| #[trigger]
                self.fs().live.contains_key(p) implies self.fs().data.contains_key(
                self.fs().live[p],
            ) by {
                assert(fs0.durable.contains_key(p));
            }
            assert forall|p: PathView| #[trigger]
                self.fs().durable.contains_key(p) implies self.fs().data.contains_key(
                self.fs().durable[p],
            ) by {
                assert(fs0.durable.contains_key(p));
            }
            assert forall|id: nat| #[trigger]
                self.fs().data.contains_key(id) implies id < self.fs().next by {
                assert(fs0.data.contains_key(id));
            }
        }
        self.collect_unreferenced_inodes();
        self.crash_after = None;
        self.last_report = Some(report.clone());
        proof {
            let after = self.fs();
            assert forall|id: nat| #[trigger]
                after.data.contains_key(id) implies exists|p: PathView| #[trigger]
                fs0.durable.contains_key(p) && fs0.durable[p] == id by {
                assert(reverted.referenced(id));
                if exists|p: PathView| #[trigger]
                    reverted.live.contains_key(p) && reverted.live[p] == id {
                    let p = choose|p: PathView| #[trigger]
                        reverted.live.contains_key(p) && reverted.live[p] == id;
                    assert(fs0.durable.contains_key(p));
                } else {
                    let p = choose|p: PathView| #[trigger]
                        reverted.durable.contains_key(p) && reverted.durable[p] == id;
                    assert(fs0.durable.contains_key(p));
                }
            }
            assert forall|p: PathView| #[trigger] fs0.durable.contains_key(p) implies after.data.contains_key(
                fs0.durable[p],
            ) by {
                assert(fs0.data.contains_key(fs0.durable[p]));
                assert(reverted.durable.contains_key(p));
                assert(reverted.referenced(fs0.durable[p]));
            }
            assert(self.unsynced() =~= Map::<nat, u64>::empty());
            assert(report@.torn_path is Some ==> report@.torn_path->0 == report.torn_path->0@);
            assert forall|id: nat|
                #![trigger after.data[id]]
                after.data.contains_key(id) && !(report@.torn_path is Some
                    && fs0.durable[report@.torn_path->0] == id) implies after.data[id] == (FileData {
                live: fs0.data[id].synced,
                synced: fs0.data[id].synced,
            }) by {
                assert(contents(inodes1)[id].synced == fs0.data[id].synced);
            }
            if report.torn_path is Some {
                let p = report.torn_path->0@;
                assert(first_durable_name(fs0, p));
                assert(newest_tearable(fs0, times0, fs0.durable[p]));
                assert(after.data.contains_key(fs0.durable[p]));
                let id = fs0.durable[p];
                let d = fs0.data[id];
                let tail = d.live.skip(d.synced.len() as int);
                assert(after.data[id] == (FileData {
                    live: torn_bytes(d.synced, tail, report.tear_mode, torn_draw),
                    synced: torn_bytes(d.synced, tail, report.tear_mode, torn_draw),
                }));
            }
            lemma_crash_is_power_loss(
                fs0,
                times0,
                report.ops_before_crash,
                old(self).dice(),
                after,
                report@,
                self.dice(),
            );
        }
        report
    }
}

/// What one mutating operation leaves behind whose effect on the file system
/// `pre` holds is `effect`, and after which the files in `times` have unsynced
/// appends and the next append comes at `stamp`: that state, or what a crash makes of
/// it if one was armed for this operation.
pub open spec fn settled(
    pre: &SimFs,
    effect: FsState,
    times: Map<nat, u64>,
    stamp: u64,
    post: &SimFs,
) -> bool {
    let ops = if pre.ops() == u64::MAX {
        u64::MAX
    } else {
        (pre.ops() + 1) as u64
    };
    &&& post.inv()
    &&& post.ops() == ops
    &&& post.stamp() == stamp
    &&& if pre.armed() is Some && pre.armed()->0 <= ops {
        &&& post.armed() is None
        &&& post.report() is Some
        &&& crash_outcome(
            effect,
            times,
            ops,
            pre.dice(),
            post.fs(),
            post.report()->0,
            post.dice(),
        )
        &&& storage::power_loss(effect, post.fs())
        &&& post.unsynced() == Map::<nat, u64>::empty()
    } else {
        &&& post.fs() == effect
        &&& post.unsynced() == times
        &&& post.armed() == pre.armed()
        &&& post.report() == pre.report()
        &&& post.dice() == pre.dice()
    }
}

/// Runs can be repeated: an operation with the same effect on two simulators that are
/// alike leaves them alike, whether a crash fires or not. So what becomes of a new
/// simulator depends on its seed and on what is done to it alone.
pub proof fn lemma_run_repeats(
    a: SimFs,
    b: SimFs,
    effect: FsState,
    times: Map<nat, u64>,
    stamp: u64,
    after_a: SimFs,
    after_b: SimFs,
)
    requires
        alike(a, b),
        settled(&a, effect, times, stamp, &after_a),
        settled(&b, effect, times, stamp, &after_b),
    ensures
        alike(after_a, after_b),
{
    if a.armed() is Some && a.armed()->0 <= after_a.ops() {
        lemma_crash_repeats(
            effect,
            times,
            after_a.ops(),
            a.dice(),
            (after_a.fs(), after_a.report()->0, after_a.dice()),
            (after_b.fs(), after_b.report()->0, after_b.dice()),
        );
    }
}

impl SimFs {
    /// Counts one mutating operation and, if an armed threshold has now been
    /// reached, fires the crash.
    fn bump(&mut self)
        requires
            old(self).inv(),
        ensures
            settled(
                old(self),
                old(self).fs(),
                old(self).unsynced(),
                old(self).stamp(),
                final(self),
            ),
    {
        self.op_count = self.op_count.saturating_add(1);
        match self.crash_after {
            Some(n) => {
                if self.op_count >= n {
                    self.crash();
                }
            },
            None => {},
        }
    }

    /// Makes the live names in `dir` the durable ones there.
    fn commit_names(&mut self, dir: &[u8])
        requires
            old(self).inv(),
        ensures
            final(self).inv(),
            final(self).fs() == old(self).fs().dir_committed(plain(dir@)),
            final(self).unsynced() == old(self).unsynced(),
            final(self).stamp() == old(self).stamp(),
            final(self).dice() == old(self).dice(),
            final(self).ops() == old(self).ops(),
            final(self).armed() == old(self).armed(),
            final(self).report() == old(self).report(),
    {
        let mut kept: Vec<Entry> = Vec::new();
        let mut i: usize = 0;
        let ghost want = self.fs().dir_committed(plain(dir@));
        assert(live_names(kept@) =~= Map::empty());
        assert(durable_names(kept@) =~= Map::empty());
        while i < self.files.len()
            invariant
                i <= self.files.len(),
                *self == *old(self),
                self.inv(),
                want == self.fs().dir_committed(plain(dir@)),
                names_unique(kept@),
                forall|j: int|
                    0 <= j < kept@.len() ==> exists|k: int| #[trigger]
                        names(self.files@, k, (#[trigger] kept@[j]).path@) && k < i,
                forall|p: PathView| #[trigger]
                    durable_names(kept@).contains_key(p) ==> want.durable.contains_key(p)
                        && durable_names(kept@)[p] == want.durable[p],
                forall|p: PathView| #[trigger]
                    live_names(kept@).contains_key(p) ==> want.live.contains_key(p) && live_names(
                        kept@,
                    )[p] == want.live[p],
                forall|j: int|
                    #![trigger self.files@[j]]
                    0 <= j < i && want.durable.contains_key(self.files@[j].path@) ==> durable_names(
                        kept@,
                    ).contains_key(self.files@[j].path@),
                forall|j: int|
                    #![trigger self.files@[j]]
                    0 <= j < i && want.live.contains_key(self.files@[j].path@) ==> live_names(
                        kept@,
                    ).contains_key(self.files@[j].path@),
            decreases self.files.len() - i,
        {
            proof {
                lemma_slot(self.files@, i as int);
            }
            let live: Option<u64> = self.files[i].live;
            let durable: Option<u64> = if self.files[i].path.is_in(dir) {
                live
            } else {
                self.files[i].durable
            };
            if live.is_some() || durable.is_some() {
                let e = Entry { path: self.files[i].path.clone(), live, durable };
                proof {
                    assert forall|j: int| 0 <= j < kept@.len() implies (
                    #[trigger] kept@[j]).path@ != e.path@ by {
                        let k = choose|k: int| #[trigger]
                            names(self.files@, k, kept@[j].path@) && k < i;
                        lemma_slot(self.files@, k);
                    }
                    lemma_entry_pushed(kept@, e);
                    assert(names(self.files@, i as int, e.path@));
                }
                let ghost before = kept@;
                kept.push(e);
                proof {
                    assert forall|j: int| 0 <= j < kept@.len() implies exists|k: int| #[trigger]
                        names(self.files@, k, (#[trigger] kept@[j]).path@) && k < i + 1 by {
                        if j < before.len() {
                            assert(kept@[j] == before[j]);
                            let k = choose|k: int| #[trigger]
                                names(self.files@, k, before[j].path@) && k < i;
                            assert(names(self.files@, k, kept@[j].path@) && k < i + 1);
                        } else {
                            assert(names(self.files@, i as int, kept@[j].path@));
                        }
                    }
                }
            }
            i = i + 1;
        }
        proof {
            assert forall|p: PathView| want.durable.contains_key(p) implies #[trigger] durable_names(
                kept@,
            ).contains_key(p) by {
                let j = choose|j: int| names(self.files@, j, p);
                assert(exists|j: int| names(self.files@, j, p));
                assert(self.files@[j].path@ == p);
            }
            assert forall|p: PathView| want.live.contains_key(p) implies #[trigger] live_names(
                kept@,
            ).contains_key(p) by {
                let j = choose|j: int| names(self.files@, j, p);
                assert(exists|j: int| names(self.files@, j, p));
                assert(self.files@[j].path@ == p);
            }
            assert(durable_names(kept@) =~= want.durable);
            assert(live_names(kept@) =~= want.live);
            self.fs().lemma_dir_synced(plain(dir@));
        }
        self.files = kept;
        assert(self.fs() == want);
    }
}

/// What creating `path` does: it fails if there is such a file, or if no number is left
/// for one.
pub open spec fn create_done(
    pre: &SimFs,
    path: PathView,
    post: &SimFs,
    r: StorageResult<()>,
) -> bool {
    &&& pre.fs().live.contains_key(path) ==> *post == *pre && (r
        matches Err(StorageError::AlreadyExists(p)) && p@ == path)
    &&& !pre.fs().live.contains_key(path) && pre.has_room() ==> r is Ok && settled(
        pre,
        pre.fs().created(path),
        pre.unsynced(),
        pre.stamp(),
        post,
    )
    &&& !pre.fs().live.contains_key(path) && !pre.has_room() ==> *post == *pre && (r
        matches Err(StorageError::Io { path: p, .. }) && p@ == path)
}

/// What appending to `path` does: it fails if there is no such file, and tells where
/// the bytes begin.
pub open spec fn append_done(
    pre: &SimFs,
    path: PathView,
    data: Seq<u8>,
    post: &SimFs,
    r: StorageResult<u64>,
) -> bool {
    &&& !pre.fs().live.contains_key(path) ==> *post == *pre && (r
        matches Err(StorageError::NotFound(p)) && p@ == path)
    &&& pre.fs().live.contains_key(path) ==> {
        &&& r is Ok
        &&& r->Ok_0 == pre.fs().content(path).len()
        &&& settled(
            pre,
            pre.fs().appended(path, data),
            pre.unsynced().insert(pre.fs().live[path], pre.stamp()),
            if pre.stamp() == u64::MAX {
                u64::MAX
            } else {
                (pre.stamp() + 1) as u64
            },
            post,
        )
        &&& forall|id: nat| #[trigger]
            pre.unsynced().contains_key(id) ==> pre.unsynced()[id]
                <= pre.stamp()
    }
}

/// What writing into `path` does: it fails if there is no such file, or if the bytes
/// do not lie within it.
pub open spec fn write_at_done(
    pre: &SimFs,
    path: PathView,
    offset: u64,
    data: Seq<u8>,
    post: &SimFs,
    r: StorageResult<()>,
) -> bool {
    &&& !pre.fs().live.contains_key(path) ==> *post == *pre && (r
        matches Err(StorageError::NotFound(p)) && p@ == path)
    &&& pre.fs().live.contains_key(path) ==> if offset + data.len() > pre.fs().content(path).len() {
        &&& *post == *pre
        &&& r matches Err(StorageError::OutOfBounds { path: p, offset: o, len })
        &&& p@ == path
        &&& o == offset
        &&& len == pre.fs().content(path).len()
    } else {
        &&& r is Ok
        &&& settled(
            pre,
            pre.fs().written(path, offset as int, data),
            pre.unsynced(),
            pre.stamp(),
            post,
        )
    }
}

/// What syncing `path` does: it fails if there is no such file.
pub open spec fn sync_file_done(
    pre: &SimFs,
    path: PathView,
    post: &SimFs,
    r: StorageResult<()>,
) -> bool {
    &&& !pre.fs().live.contains_key(path) ==> *post == *pre && (r
        matches Err(StorageError::NotFound(p)) && p@ == path)
    &&& pre.fs().live.contains_key(path) ==> r is Ok && settled(
        pre,
        pre.fs().file_synced(path),
        pre.unsynced().remove(pre.fs().live[path]),
        pre.stamp(),
        post,
    )
}

/// What syncing the names in `dir` does: it never fails.
pub open spec fn sync_dir_done(
    pre: &SimFs,
    dir: Seq<u8>,
    post: &SimFs,
    r: StorageResult<()>,
) -> bool {
    &&& r is Ok
    &&& settled(
        pre,
        pre.fs().dir_synced(dir),
        pre.unsynced().restrict(
            Set::new(|id: nat| pre.fs().dir_committed(dir).referenced(id)),
        ),
        pre.stamp(),
        post,
    )
}

/// What renaming `from` to `to` does: it fails if there is no file `from`.
pub open spec fn rename_done(
    pre: &SimFs,
    from: PathView,
    to: PathView,
    post: &SimFs,
    r: StorageResult<()>,
) -> bool {
    &&& !pre.fs().live.contains_key(from) ==> *post == *pre && (r
        matches Err(StorageError::NotFound(p)) && p@ == from)
    &&& pre.fs().live.contains_key(from) ==> r is Ok && settled(
        pre,
        pre.fs().renamed(from, to),
        pre.unsynced().restrict(
            Set::new(|id: nat| pre.fs().moved(from, to).referenced(id)),
        ),
        pre.stamp(),
        post,
    )
}

/// What deleting `path` does: it fails if there is no such file.
pub open spec fn delete_done(
    pre: &SimFs,
    path: PathView,
    post: &SimFs,
    r: StorageResult<()>,
) -> bool {
    &&& !pre.fs().live.contains_key(path) ==> *post == *pre && (r
        matches Err(StorageError::NotFound(p)) && p@ == path)
    &&& pre.fs().live.contains_key(path) ==> r is Ok && settled(
        pre,
        pre.fs().deleted(path),
        pre.unsynced().restrict(
            Set::new(|id: nat| pre.fs().unlinked(path).referenced(id)),
        ),
        pre.stamp(),
        post,
    )
}

/// What opening `path` gives: an error if there is no such file.
pub open spec fn open_seen(s: &SimFs, path: PathView, r: StorageResult<()>) -> bool {
    &&& s.fs().live.contains_key(path) ==> r is Ok
    &&& !s.fs().live.contains_key(path) ==> (r matches Err(StorageError::NotFound(p)) && p@
        == path)
}

/// What reading from `path` gives: an error if there is no such file, or if the read
/// begins behind its end.
pub open spec fn read_at_seen(
    s: &SimFs,
    path: PathView,
    offset: u64,
    n: usize,
    r: StorageResult<Vec<u8>>,
) -> bool {
    &&& !s.fs().live.contains_key(path) ==> (r matches Err(StorageError::NotFound(p)) && p@
        == path)
    &&& s.fs().live.contains_key(path) && offset > s.fs().content(path).len() ==> (r
        matches Err(StorageError::OutOfBounds { path: p, offset: o, len }) && p@ == path
        && o == offset && len == s.fs().content(path).len())
    &&& s.fs().live.contains_key(path) && offset <= s.fs().content(path).len() ==> r
        is Ok && r->Ok_0@ == storage::window(
        s.fs().content(path),
        offset as int,
        n as int,
    )
}

/// What listing `dir` gives: it never fails.
pub open spec fn list_seen(s: &SimFs, dir: Seq<u8>, r: StorageResult<Vec<FilePath>>) -> bool {
    &&& r is Ok
    &&& storage::lists(s.fs(), dir, storage::path_views(r->Ok_0@))
}

/// What the length of `path` is: an error if there is no such file.
pub open spec fn len_seen(s: &SimFs, path: PathView, r: StorageResult<u64>) -> bool {
    &&& !s.fs().live.contains_key(path) ==> (r matches Err(StorageError::NotFound(p)) && p@
        == path)
    &&& s.fs().live.contains_key(path) ==> r is Ok && r->Ok_0 == s.fs().content(
        path,
    ).len()
}

impl Storage for SimFs {
    open spec fn disk(&self) -> Disk {
        Disk {
            fs: self.fs(),
            halted: false,
            reliable: self.armed() is None,
            dependable: self.armed() is None,
            spare: self.spare(),
        }
    }

    open spec fn wf(&self) -> bool {
        self.inv()
    }

    fn create(&mut self, path: &FilePath) -> (r: StorageResult<()>)
        ensures
            create_done(old(self), path@, final(self), r),
    {
        let found: Option<usize> = self.slot_of(path);
        let ghost fs0 = self.fs();
        match found {
            Some(i) => {
                proof {
                    lemma_slot(self.files@, i as int);
                }
                if self.files[i].live.is_some() {
                    return Err(StorageError::AlreadyExists(path.clone()));
                }
            },
            None => {},
        }
        if self.next_inode == u64::MAX {
            return Err(
                StorageError::Io {
                    path: path.clone(),
                    message: String::from_str("file numbers exhausted"),
                },
            );
        }
        let id: u64 = self.next_inode;
        self.next_inode = id + 1;
        let inode = Inode { id, live: Vec::new(), durable: Vec::new(), last_append: None };
        proof {
            assert forall|i: int| 0 <= i < self.inodes@.len() implies (
            #[trigger] self.inodes@[i]).id != id by {
                lemma_place(self.inodes@, i);
                assert(fs0.data.contains_key(self.inodes@[i].id as nat));
            }
            lemma_inode_pushed(self.inodes@, inode);
            lemma_generation_set(self.inodes@, self.inodes@.push(inode), inode);
            assert(!append_times(self.inodes@).contains_key(id as nat)) by {
                if append_times(self.inodes@).contains_key(id as nat) {
                    assert(fs0.data.contains_key(id as nat));
                }
            }
            assert(append_times(self.inodes@.push(inode)) =~= append_times(self.inodes@));
        }
        self.inodes.push(inode);
        match found {
            Some(i) => {
                let ghost e = Entry { live: Some(id), ..self.files@[i as int] };
                proof {
                    lemma_entry_updated(self.files@, i as int, e);
                    assert(durable_names(self.files@.update(i as int, e)) =~= durable_names(
                        self.files@,
                    ));
                }
                let ghost before = self.files@;
                self.files[i].live = Some(id);
                assert(self.files@ =~= before.update(i as int, e));
            },
            None => {
                let e = Entry { path: path.clone(), live: Some(id), durable: None };
                proof {
                    assert forall|i: int| 0 <= i < self.files@.len() implies (
                    #[trigger] self.files@[i]).path@ != e.path@ by {
                        assert(!names(self.files@, i, path@));
                    }
                    lemma_entry_pushed(self.files@, e);
                }
                self.files.push(e);
            },
        }
        proof {
            assert(inode.live@ =~= Seq::empty());
            assert(inode.durable@ =~= Seq::empty());
            assert(self.fs() == fs0.created(path@));
            fs0.lemma_created(path@);
        }
        self.bump();
        Ok(())
    }

    fn open(&self, path: &FilePath) -> (r: StorageResult<()>)
        ensures
            open_seen(self, path@, r),
    {
        match self.live_inode(path) {
            Some(_) => Ok(()),
            None => Err(StorageError::NotFound(path.clone())),
        }
    }

    fn append(&mut self, path: &FilePath, data: &[u8]) -> (r: StorageResult<u64>)
        ensures
            append_done(old(self), path@, data@, final(self), r),
    {
        match self.live_inode(path) {
            Some(k) => {
                let ghost pre = *self;
                let t: u64 = self.next_append;
                self.next_append = t.saturating_add(1);
                let offset: u64 = self.inodes[k].live.len() as u64;
                let mut bytes: Vec<u8> = self.inodes[k].live.clone();
                codec::put_bytes(&mut bytes, data);
                let ghost n = Inode {
                    live: bytes,
                    last_append: Some(t),
                    ..self.inodes@[k as int]
                };
                proof {
                    lemma_inode_updated(self.inodes@, k as int, n);
                    lemma_generation_set(self.inodes@, self.inodes@.update(k as int, n), n);
                }
                self.inodes[k].live = bytes;
                self.inodes[k].last_append = Some(t);
                proof {
                    assert(self.inodes@ =~= pre.inodes@.update(k as int, n));
                    assert(self.fs() == pre.fs().appended(path@, data@));
                    pre.fs().lemma_appended(path@, data@);
                    assert(self.unsynced() == pre.unsynced().insert(pre.fs().live[path@], t));
                }
                self.bump();
                Ok(offset)
            },
            None => Err(StorageError::NotFound(path.clone())),
        }
    }

    fn write_at(&mut self, path: &FilePath, offset: u64, data: &[u8]) -> (r: StorageResult<()>)
        ensures
            write_at_done(old(self), path@, offset, data@, final(self), r),
    {
        match self.live_inode(path) {
            Some(k) => {
                let ghost pre = *self;
                let len: u64 = self.inodes[k].live.len() as u64;
                if offset > len || data.len() as u64 > len - offset {
                    return Err(StorageError::OutOfBounds { path: path.clone(), offset, len });
                }
                let start: usize = offset as usize;
                let mut bytes: Vec<u8> = codec::copy_range(&self.inodes[k].live, 0, start);
                codec::put_bytes(&mut bytes, data);
                let rest: Vec<u8> = codec::copy_range(
                    &self.inodes[k].live,
                    start + data.len(),
                    len as usize,
                );
                codec::put_bytes(&mut bytes, &rest);
                let ghost n = Inode { live: bytes, ..self.inodes@[k as int] };
                proof {
                    let all = self.inodes@[k as int].live@;
                    assert(bytes@ =~= all.take(start as int) + data@ + all.skip(
                        start + data@.len(),
                    ));
                    lemma_place(self.inodes@, k as int);
                    lemma_inode_updated(self.inodes@, k as int, n);
                    lemma_generation_set(self.inodes@, self.inodes@.update(k as int, n), n);
                    assert(append_times(self.inodes@.update(k as int, n)) =~= append_times(
                        self.inodes@,
                    ));
                }
                self.inodes[k].live = bytes;
                proof {
                    assert(self.inodes@ =~= pre.inodes@.update(k as int, n));
                    assert(self.fs() == pre.fs().written(path@, offset as int, data@));
                    pre.fs().lemma_written(path@, offset as int, data@);
                }
                self.bump();
                Ok(())
            },
            None => Err(StorageError::NotFound(path.clone())),
        }
    }

    fn read_at(&self, path: &FilePath, offset: u64, n: usize) -> (r: StorageResult<Vec<u8>>)
        ensures
            read_at_seen(self, path@, offset, n, r),
    {
        match self.live_inode(path) {
            Some(k) => {
                let len: u64 = self.inodes[k].live.len() as u64;
                if offset > len {
                    return Err(StorageError::OutOfBounds { path: path.clone(), offset, len });
                }
                let start: usize = offset as usize;
                let left: usize = self.inodes[k].live.len() - start;
                let take: usize = if n < left {
                    n
                } else {
                    left
                };
                let out: Vec<u8> = codec::copy_range(&self.inodes[k].live, start, start + take);
                assert(out@ =~= storage::window(
                    self.fs().content(path@),
                    offset as int,
                    n as int,
                ));
                Ok(out)
            },
            None => Err(StorageError::NotFound(path.clone())),
        }
    }

    fn sync_file(&mut self, path: &FilePath) -> (r: StorageResult<()>)
        ensures
            sync_file_done(old(self), path@, final(self), r),
    {
        match self.live_inode(path) {
            Some(k) => {
                let ghost pre = *self;
                let bytes: Vec<u8> = self.inodes[k].live.clone();
                let ghost n = Inode {
                    durable: bytes,
                    last_append: None,
                    ..self.inodes@[k as int]
                };
                proof {
                    lemma_inode_updated(self.inodes@, k as int, n);
                    lemma_generation_set(self.inodes@, self.inodes@.update(k as int, n), n);
                }
                self.inodes[k].durable = bytes;
                self.inodes[k].last_append = None;
                proof {
                    assert(self.inodes@ =~= pre.inodes@.update(k as int, n));
                    assert(self.fs() == pre.fs().file_synced(path@));
                    pre.fs().lemma_file_synced(path@);
                }
                self.bump();
                Ok(())
            },
            None => Err(StorageError::NotFound(path.clone())),
        }
    }

    fn sync_dir(&mut self, dir: &[u8]) -> (r: StorageResult<()>)
        ensures
            sync_dir_done(old(self), plain(dir@), final(self), r),
    {
        self.commit_names(dir);
        self.collect_unreferenced_inodes();
        self.bump();
        Ok(())
    }

    fn rename(&mut self, from: &FilePath, to: &FilePath) -> (r: StorageResult<()>)
        ensures
            rename_done(old(self), from@, to@, final(self), r),
    {
        let ghost pre = *self;
        let source: usize = match self.slot_of(from) {
            Some(i) => i,
            None => {
                return Err(StorageError::NotFound(from.clone()));
            },
        };
        proof {
            lemma_slot(self.files@, source as int);
        }
        let id: u64 = match self.files[source].live {
            Some(id) => id,
            None => {
                return Err(StorageError::NotFound(from.clone()));
            },
        };
        if !from.same(to) {
            match self.slot_of(to) {
                Some(i) => {
                    let ghost e = Entry { live: Some(id), ..self.files@[i as int] };
                    proof {
                        lemma_slot(self.files@, i as int);
                        lemma_entry_updated(self.files@, i as int, e);
                        assert(durable_names(self.files@.update(i as int, e)) =~= durable_names(
                            self.files@,
                        ));
                    }
                    self.files[i].live = Some(id);
                    assert(self.files@ =~= pre.files@.update(i as int, e));
                },
                None => {
                    let e = Entry { path: to.clone(), live: Some(id), durable: None };
                    proof {
                        assert forall|i: int| 0 <= i < self.files@.len() implies (
                        #[trigger] self.files@[i]).path@ != e.path@ by {
                            assert(!names(self.files@, i, to@));
                        }
                        lemma_entry_pushed(self.files@, e);
                    }
                    self.files.push(e);
                },
            }
            let ghost linked = self.files@;
            let ghost e = Entry { live: None, ..linked[source as int] };
            proof {
                assert(linked[source as int] == pre.files@[source as int]);
                lemma_slot(linked, source as int);
                lemma_entry_updated(linked, source as int, e);
                assert(durable_names(linked.update(source as int, e)) =~= durable_names(linked));
            }
            self.files[source].live = None;
            assert(self.files@ =~= linked.update(source as int, e));
        }
        proof {
            assert(self.fs() == pre.fs().moved(from@, to@));
            pre.fs().lemma_renamed(from@, to@);
        }
        self.collect_unreferenced_inodes();
        self.bump();
        Ok(())
    }

    fn delete(&mut self, path: &FilePath) -> (r: StorageResult<()>)
        ensures
            delete_done(old(self), path@, final(self), r),
    {
        let ghost pre = *self;
        let i: usize = match self.slot_of(path) {
            Some(i) => i,
            None => {
                return Err(StorageError::NotFound(path.clone()));
            },
        };
        proof {
            lemma_slot(self.files@, i as int);
        }
        if self.files[i].live.is_none() {
            return Err(StorageError::NotFound(path.clone()));
        }
        let ghost e = Entry { live: None, ..self.files@[i as int] };
        proof {
            lemma_entry_updated(self.files@, i as int, e);
            assert(durable_names(self.files@.update(i as int, e)) =~= durable_names(self.files@));
        }
        self.files[i].live = None;
        proof {
            assert(self.files@ =~= pre.files@.update(i as int, e));
            assert(self.fs() == pre.fs().unlinked(path@));
            pre.fs().lemma_deleted(path@);
        }
        self.collect_unreferenced_inodes();
        self.bump();
        Ok(())
    }

    fn list(&self, dir: &[u8]) -> (r: StorageResult<Vec<FilePath>>)
        ensures
            list_seen(self, plain(dir@), r),
    {
        let mut out: Vec<FilePath> = Vec::new();
        let mut i: usize = 0;
        while i < self.files.len()
            invariant
                i <= self.files.len(),
                self.inv(),
                forall|j: int|
                    0 <= j < out@.len() ==> (#[trigger] out@[j])@.0 == plain(dir@)
                        && self.fs().live.contains_key(out@[j]@) && seen(
                        self.files@,
                        i as int,
                        out@[j]@,
                    ),
                forall|k: int|
                    0 <= k < i && (#[trigger] self.files@[k]).live is Some && self.files@[k].path@.0
                        == plain(dir@) ==> exists|j: int|
                        0 <= j < out@.len() && (#[trigger] out@[j])@ == self.files@[k].path@,
                forall|a: int, b: int|
                    0 <= a < b < out@.len() ==> path::name_before(
                        (#[trigger] out@[a])@.1,
                        (#[trigger] out@[b])@.1,
                    ),
            decreases self.files.len() - i,
        {
            proof {
                lemma_slot(self.files@, i as int);
                assert(names(self.files@, i as int, self.files@[i as int].path@));
            }
            if self.files[i].live.is_some() && self.files[i].path.is_in(dir) {
                let p: FilePath = self.files[i].path.clone();
                let ghost before = out@;
                proof {
                    assert forall|j: int| 0 <= j < before.len() implies (
                    #[trigger] before[j])@ != p@ by {
                        let k = choose|k: int| #[trigger]
                            names(self.files@, k, before[j]@) && k < i;
                        lemma_slot(self.files@, k);
                    }
                }
                let at: usize = insertion_point(&out, &p);
                out.insert(at, p);
                proof {
                    assert(out@ =~= before.insert(at as int, p));
                    assert forall|j: int| 0 <= j < out@.len() implies (#[trigger] out@[j])@.0
                        == plain(dir@) && self.fs().live.contains_key(out@[j]@) && seen(
                        self.files@,
                        i + 1,
                        out@[j]@,
                    ) by {
                        if j == at {
                            assert(names(self.files@, i as int, out@[j]@) && i < i + 1);
                        } else {
                            let j0 = if j < at { j } else { j - 1 };
                            assert(out@[j] == before[j0]);
                            let k = choose|k: int| #[trigger]
                                names(self.files@, k, before[j0]@) && k < i;
                            assert(names(self.files@, k, out@[j]@) && k < i + 1);
                        }
                    }
                    assert forall|k: int|
                        0 <= k < i + 1 && (#[trigger] self.files@[k]).live is Some
                            && self.files@[k].path@.0 == plain(dir@) implies exists|j: int|
                        0 <= j < out@.len() && (#[trigger] out@[j])@ == self.files@[k].path@ by {
                        if k == i {
                            assert(out@[at as int]@ == self.files@[k].path@);
                        } else {
                            let j0 = choose|j: int|
                                0 <= j < before.len() && (#[trigger] before[j])@
                                    == self.files@[k].path@;
                            let j = if j0 < at { j0 } else { j0 + 1 };
                            assert(out@[j] == before[j0]);
                        }
                    }
                    assert forall|a: int, b: int| 0 <= a < b < out@.len() implies path::name_before(
                        (#[trigger] out@[a])@.1,
                        (#[trigger] out@[b])@.1,
                    ) by {
                        let a0 = if a < at { a } else { a - 1 };
                        let b0 = if b < at { b } else { b - 1 };
                        if a != at {
                            assert(out@[a] == before[a0]);
                        }
                        if b != at {
                            assert(out@[b] == before[b0]);
                        }
                    }
                }
            } else {
                proof {
                    assert forall|j: int| 0 <= j < out@.len() implies seen(
                        self.files@,
                        i + 1,
                        (#[trigger] out@[j])@,
                    ) by {
                        let k = choose|k: int| #[trigger]
                            names(self.files@, k, out@[j]@) && k < i;
                        assert(names(self.files@, k, out@[j]@) && k < i + 1);
                    }
                }
            }
            i = i + 1;
        }
        proof {
            let v = storage::path_views(out@);
            assert forall|p: PathView| #[trigger]
                self.fs().live.contains_key(p) && p.0 == plain(dir@) implies exists|j: int|
                0 <= j < v.len() && v[j] == p by {
                let k = choose|k: int| #[trigger]
                    names(self.files@, k, p) && self.files@[k].live is Some;
                assert(self.files@[k].path@ == p);
                let j = choose|j: int| 0 <= j < out@.len() && (#[trigger] out@[j])@ == p;
                assert(v[j] == p);
            }
        }
        Ok(out)
    }

    fn len(&self, path: &FilePath) -> (r: StorageResult<u64>)
        ensures
            len_seen(self, path@, r),
    {
        match self.live_inode(path) {
            Some(k) => Ok(self.inodes[k].live.len() as u64),
            None => Err(StorageError::NotFound(path.clone())),
        }
    }
}

/// Where `p` belongs among the names `out` of one directory.
fn insertion_point(out: &Vec<FilePath>, p: &FilePath) -> (at: usize)
    requires
        forall|a: int, b: int|
            0 <= a < b < out@.len() ==> path::name_before(
                (#[trigger] out@[a])@.1,
                (#[trigger] out@[b])@.1,
            ),
        forall|j: int| 0 <= j < out@.len() ==> (#[trigger] out@[j])@.0 == p@.0 && out@[j]@ != p@,
    ensures
        at <= out@.len(),
        forall|j: int| 0 <= j < at ==> path::name_before((#[trigger] out@[j])@.1, p@.1),
        forall|j: int| at <= j < out@.len() ==> path::name_before(p@.1, (#[trigger] out@[j])@.1),
{
    let mut at: usize = 0;
    while at < out.len()
        invariant_except_break
            at <= out@.len(),
            forall|j: int| 0 <= j < at ==> path::name_before((#[trigger] out@[j])@.1, p@.1),
        ensures
            at <= out@.len(),
            forall|j: int| 0 <= j < at ==> path::name_before((#[trigger] out@[j])@.1, p@.1),
            at < out@.len() ==> !path::name_before(out@[at as int]@.1, p@.1),
        decreases out.len() - at,
    {
        if !path::comes_before(&out[at].base(), &p.base()) {
            break;
        }
        at = at + 1;
    }
    proof {
        assert forall|j: int| at <= j < out@.len() implies path::name_before(
            p@.1,
            (#[trigger] out@[j])@.1,
        ) by {
            let first = out@[at as int]@.1;
            path::lemma_name_before(first, p@.1, first);
            assert(out@[at as int]@ != p@);
            if j > at {
                path::lemma_name_before(p@.1, first, out@[j]@.1);
            }
        }
    }
    at
}

impl Default for SimFs {
    fn default() -> (s: Self)
        ensures
            s.inv(),
            is_new(s, 0),
    {
        SimFs::new(SimConfig::default())
    }
}

/// There are as many generations as are kept.
proof fn lemma_generation_count(inodes: Seq<Inode>)
    requires
        ids_unique(inodes),
    ensures
        contents(inodes).dom().finite(),
        contents(inodes).dom().len() == inodes.len(),
    decreases inodes.len(),
{
    if inodes.len() == 0 {
        assert(contents(inodes).dom() =~= Set::empty());
    } else {
        let last = inodes.len() - 1;
        let rest = inodes.drop_last();
        assert(rest =~= inodes.remove(last));
        lemma_inode_removed(inodes, last);
        lemma_generation_count(rest);
        lemma_place(inodes, last);
        assert(contents(inodes).dom() =~= contents(rest).dom().insert(inodes[last].id as nat));
        assert(!contents(rest).dom().contains(inodes[last].id as nat));
    }
}

/// What a successful operation on a simulator does on which no crash is armed, and what a
/// failed one does: a failed one does nothing, and a successful one counts as one operation
/// more.
pub open spec fn counted<T>(pre: SimFs, post: SimFs, r: StorageResult<T>) -> bool {
    &&& r is Err ==> post == pre
    &&& r is Ok && pre.ops() < u64::MAX ==> post.ops() == pre.ops() + 1
    &&& pre.armed() is None ==> post.armed() is None && post.report() == pre.report()
}

/// What each operation does to what it names, when no crash is armed: when it succeeds, what is
/// read afterwards, and what is durable.
pub proof fn lemma_operations(
    pre: SimFs,
    post: SimFs,
    path: PathView,
    to: PathView,
    offset: u64,
    data: Seq<u8>,
    done: StorageResult<()>,
    added: StorageResult<u64>,
)
    requires
        pre.inv(),
        pre.armed() is None,
    ensures
        create_done(&pre, path, &post, done) ==> {
            &&& counted(pre, post, done)
            &&& done is Ok <==> !pre.fs().live.contains_key(path) && pre.has_room()
            &&& done is Ok ==> post.fs().live.contains_key(path) && post.fs().content(path).len()
                == 0
            &&& post.unsynced() == pre.unsynced() && post.stamp() == pre.stamp()
        },
        append_done(&pre, path, data, &post, added) ==> {
            &&& counted(pre, post, added)
            &&& added is Ok <==> pre.fs().live.contains_key(path)
            &&& added is Ok ==> post.unsynced() == pre.unsynced().insert(
                pre.fs().live[path],
                pre.stamp(),
            ) && (pre.stamp() < u64::MAX ==> post.stamp() == pre.stamp() + 1)
            &&& added is Ok ==> added->Ok_0 == pre.fs().content(path).len() && post.fs().content(path)
                == pre.fs().content(path) + data && post.fs().data[post.fs().live[path]].synced
                == pre.fs().data[pre.fs().live[path]].synced
        },
        write_at_done(&pre, path, offset, data, &post, done) ==> {
            &&& counted(pre, post, done)
            &&& done is Ok <==> pre.fs().live.contains_key(path) && offset + data.len()
                <= pre.fs().content(path).len()
            &&& done is Ok ==> post.fs().content(path).len() == pre.fs().content(path).len()
            &&& post.unsynced() == pre.unsynced() && post.stamp() == pre.stamp()
            &&& done is Ok ==> post.fs().content(path).subrange(
                offset as int,
                offset + data.len(),
            ) == data
            &&& done is Ok ==> post.fs().content(path).take(offset as int) == pre.fs().content(
                path,
            ).take(offset as int)
            &&& done is Ok ==> post.fs().content(path).skip(offset + data.len())
                == pre.fs().content(path).skip(offset + data.len())
        },
        sync_file_done(&pre, path, &post, done) ==> {
            &&& counted(pre, post, done)
            &&& done is Ok <==> pre.fs().live.contains_key(path)
            &&& done is Ok ==> post.fs().content(path) == pre.fs().content(path)
                && post.fs().data[post.fs().live[path]].synced == pre.fs().content(path)
                && post.unsynced() == pre.unsynced().remove(pre.fs().live[path])
        },
        sync_dir_done(&pre, path.0, &post, done) ==> {
            &&& counted(pre, post, done)
            &&& done is Ok
            &&& post.fs().live == pre.fs().live
            &&& post.fs().durable.contains_key(path) <==> pre.fs().live.contains_key(path)
            &&& pre.fs().live.contains_key(path) ==> post.fs().durable[path] == pre.fs().live[path]
        },
        rename_done(&pre, path, to, &post, done) ==> {
            &&& counted(pre, post, done)
            &&& done is Ok <==> pre.fs().live.contains_key(path)
            &&& done is Ok && path != to ==> !post.fs().live.contains_key(path)
            &&& done is Ok && pre.unsynced().contains_key(pre.fs().live[path])
                ==> post.unsynced().contains_key(pre.fs().live[path])
                && post.unsynced()[pre.fs().live[path]] == pre.unsynced()[pre.fs().live[path]]
            &&& done is Ok ==> post.fs().live.contains_key(to) && post.fs().content(to)
                == pre.fs().content(path) && post.fs().durable == pre.fs().durable
        },
        delete_done(&pre, path, &post, done) ==> {
            &&& counted(pre, post, done)
            &&& done is Ok <==> pre.fs().live.contains_key(path)
            &&& done is Ok ==> !post.fs().live.contains_key(path) && post.fs().durable
                == pre.fs().durable
        },
{
    let fs = pre.fs();
    if fs.live.contains_key(path) {
        let over = fs.moved(path, to);
        assert(over.live.contains_key(to));
        assert(over.referenced(fs.live[path]));
        let w = fs.written(path, offset as int, data);
        if offset + data.len() <= fs.content(path).len() {
            let old_bytes = fs.content(path);
            let new_bytes = w.content(path);
            assert(new_bytes.subrange(offset as int, offset + data.len()) =~= data);
            assert(new_bytes.take(offset as int) =~= old_bytes.take(offset as int));
            assert(new_bytes.skip(offset + data.len()) =~= old_bytes.skip(offset + data.len()));
        }
    }
}

/// What reading sees: the bytes that were written, from the offset on, as many as were asked
/// for or as there are; the length of the file; the names in a directory. A file that is not
/// there cannot be read, nor can one from behind its end.
pub proof fn lemma_reads(
    s: SimFs,
    path: PathView,
    offset: u64,
    n: usize,
    opened: StorageResult<()>,
    read: StorageResult<Vec<u8>>,
    len: StorageResult<u64>,
    i: int,
)
    requires
        open_seen(&s, path, opened),
        read_at_seen(&s, path, offset, n, read),
        len_seen(&s, path, len),
    ensures
        opened is Ok <==> s.fs().live.contains_key(path),
        len is Ok <==> s.fs().live.contains_key(path),
        len is Ok ==> len->Ok_0 == s.fs().content(path).len(),
        read is Ok <==> s.fs().live.contains_key(path) && offset <= s.fs().content(path).len(),
        read matches Ok(b) ==> {
            let rest = s.fs().content(path).len() - offset;
            &&& b@.len() == if n <= rest {
                n as int
            } else {
                rest
            }
            &&& 0 <= i < b@.len() ==> b@[i] == s.fs().content(path)[offset + i]
        },
{
}

/// What a new simulator is: without files, with nothing done, no crash armed and none reported.
pub proof fn lemma_new(s: SimFs, seed: u64, p: PathView)
    requires
        is_new(s, seed),
    ensures
        !s.fs().live.contains_key(p),
        !s.fs().durable.contains_key(p),
        s.ops() == 0,
        s.armed() is None,
        s.report() is None,
        s.dice() == random::seeded_state(seed),
{
}

} // verus!
