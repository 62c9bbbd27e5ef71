//! The engine: [`Db`], which wires the log, the memtables, the table tiers, the
//! manifest and compaction into one key-value store.
//!
//! # Write path
//!
//! A write claims the next sequence number, appends its record to the log, which
//! returns once the configured [`Durability`] contract is met, and goes into the
//! active memtable. If that is now full, it is frozen and flushed: written to a new
//! table in tier 0, which is installed in the manifest; then the log is released,
//! and compaction runs until no tier is over the fanout.
//!
//! The order of a flush makes a crash at any point recoverable: a table that the
//! manifest does not reference is garbage, and what the log still has is replayed.
//!
//! # Read path
//!
//! A lookup asks the memtables, newest first, and then the tables, newest first.
//! The first one that answers holds the newest version. A scan folds all of them
//! through the merge iterator.

use std::collections::HashMap;
use std::sync::Arc;

use vstd::prelude::*;

use crate::codec;
use crate::compaction;
use crate::compaction::CompactionError;
use crate::manifest;
use crate::manifest::{Manifest, ManifestError, TableMeta, Version, VersionView};
use crate::memtable;
use crate::memtable::{Entry, InternalValue, Memtable, MemtableSet, SeqNo, ValueKind};
use crate::model;
use crate::model::Rec;
use crate::sstable::table;
use crate::sstable::{Corruption, SsTableError, SsTableReader, Value};
use crate::storage;
use crate::storage::facts;
use crate::storage::plain;
use crate::storage::{Disk, FileData, FilePath, FsState, PathView, Storage, StorageError};
use crate::tables;
use crate::wal;
use crate::wal::recovery;
use crate::wal::{Durability, Wal};

pub mod gate;
pub mod group;
pub mod history;
pub mod layout;
pub mod open;
pub mod read;
pub mod record;
pub mod state;

use gate::WriteState;
use layout::Layout;

verus! {

broadcast use vstd::std_specs::hash::group_hash_axioms;

/// Default memtable freeze threshold in bytes (4 MiB).
pub const DEFAULT_MEMTABLE_SIZE: usize = 4 * 1024 * 1024;

/// Default number of tables a tier holds before it compacts.
pub const DEFAULT_TIER_FANOUT: usize = 4;

/// Engine configuration.
#[derive(Debug, Clone)]
pub struct Options {
    /// The durability contract that each write honours before returning.
    pub durability: Durability,
    /// Byte threshold past which the active memtable freezes and flushes.
    pub memtable_size: usize,
    /// Number of tables a tier accumulates before it is compacted down.
    pub tier_fanout: usize,
}

impl Default for Options {
    fn default() -> (o: Self)
        ensures
            o.durability == Durability::Always,
            o.memtable_size == DEFAULT_MEMTABLE_SIZE,
            o.tier_fanout == DEFAULT_TIER_FANOUT,
    {
        Options {
            durability: Durability::Always,
            memtable_size: DEFAULT_MEMTABLE_SIZE,
            tier_fanout: DEFAULT_TIER_FANOUT,
        }
    }
}

/// Errors surfaced by the engine.
#[derive(Debug)]
pub enum DbError {
    /// An error from the underlying storage backend.
    Storage(StorageError),
    /// An error building or reading a table.
    SsTable(SsTableError),
    /// An error reading or writing the manifest.
    Manifest(ManifestError),
    /// An error during a flush or compaction.
    Compaction(CompactionError),
}

/// Result alias for engine operations.
pub type Result<T> = std::result::Result<T, DbError>;

/// The error says that a limit of the file formats was reached.
pub open spec fn is_limit(e: DbError) -> bool {
    ||| e matches DbError::Manifest(ManifestError::TooLarge)
    ||| e matches DbError::Compaction(c) && compaction::is_limit(c)
}

/// Every frozen table has entries.
spec fn filled(waiting: Seq<Arc<Memtable>>) -> bool {
    forall|i: int| 0 <= i < waiting.len() ==> (#[trigger] waiting[i])@.len() > 0
}

/// The open tables are those of the files that the version references.
spec fn cached(
    readers: Map<u64, Arc<SsTableReader>>,
    fs: FsState,
    dir: Seq<u8>,
    v: VersionView,
) -> bool {
    forall|id: u64| #[trigger]
        readers.contains_key(id) ==> {
            let p = manifest::table_at(dir, id);
            &&& id < v.next_table_id
            &&& v.references(id) ==> readers[id].location() == p && readers[id].inv()
                && table::opened(fs.content(p)) == Ok::<table::TableView, Corruption>(readers[id]@)
        }
}

/// Open tables stay those of their files while versions grow.
proof fn lemma_cached(
    readers: Map<u64, Arc<SsTableReader>>,
    pre: FsState,
    post: FsState,
    dir: Seq<u8>,
    v: VersionView,
    v2: VersionView,
)
    requires
        cached(readers, pre, dir, v),
        tables::grown(pre, post, dir, v, v2),
    ensures
        cached(readers, post, dir, v2),
{
    assert forall|id: u64| #[trigger] readers.contains_key(id) implies {
        let p = manifest::table_at(dir, id);
        &&& id < v2.next_table_id
        &&& v2.references(id) ==> readers[id].location() == p && readers[id].inv()
            && table::opened(post.content(p)) == Ok::<table::TableView, Corruption>(readers[id]@)
    } by {
        if v2.references(id) {
            assert(v.references(id));
        }
    }
}

/// No file has the name of a table whose id was not handed out yet, and no version
/// that is alive references such an id.
spec fn ids_ahead(fs: FsState, dir: Seq<u8>, alive: Seq<VersionView>) -> bool {
    let next = alive[0].next_table_id;
    &&& forall|id: u64|
        id >= next ==> !facts::is_live(fs, #[trigger] manifest::table_at(dir, id))
    &&& forall|i: int, id: u64|
        #![trigger alive[i].references(id)]
        0 <= i < alive.len() && alive[i].references(id) ==> id < next
}

/// An embeddable key-value store.
pub struct Db<S: Storage> {
    storage: S,
    dir: Vec<u8>,
    options: Options,
    wal: Wal,
    memtables: MemtableSet,
    manifest: Manifest,
    /// Open tables; a file id is never reused.
    readers: HashMap<u64, Arc<SsTableReader>>,
    write: WriteState,
}

impl<S: Storage> Db<S> {
    /// What the backend holds.
    pub closed spec fn disk(&self) -> Disk {
        self.storage.disk()
    }

    /// The directory of the database.
    pub closed spec fn home(&self) -> Seq<u8> {
        plain(self.dir@)
    }

    /// The configuration.
    pub closed spec fn settings(&self) -> Options {
        self.options
    }

    /// The sequence number of the next write.
    pub closed spec fn next_seq(&self) -> u64 {
        self.write@.next_seq
    }

    /// The current version.
    pub closed spec fn version(&self) -> VersionView {
        self.manifest.version()
    }

    /// What is in memory, newest first.
    pub closed spec fn memory(&self) -> Seq<Seq<Rec>> {
        self.memtables.layers()
    }

    /// The active table.
    pub closed spec fn active(&self) -> Seq<Rec> {
        self.memtables.buffered()
    }

    /// How many frozen tables await flush.
    pub closed spec fn frozen_tables(&self) -> nat {
        self.memtables.waiting().len()
    }

    /// What is in the log.
    pub closed spec fn log(&self) -> Seq<Seq<u8>> {
        self.wal.records()
    }

    /// Every record in the log is durable.
    pub closed spec fn is_safe(&self) -> bool {
        self.wal.is_safe()
    }

    /// The log loses nothing to a power loss but what is at its end.
    pub closed spec fn is_tied(&self) -> bool {
        self.wal.is_anchored()
    }

    /// What is made durable at the end of the log makes all of it durable.
    pub open spec fn is_anchored(&self) -> bool {
        self.is_safe() || self.is_tied()
    }

    /// The id of the segment that the log is written to.
    pub closed spec fn last_segment(&self) -> u64 {
        self.wal.segments().last().id
    }

    /// The log has segment ids left: one for a write, and one for a flush.
    pub open spec fn has_segment_ids(&self) -> bool {
        self.last_segment() + 1 < u64::MAX
    }

    /// The log has a segment id left.
    pub open spec fn has_segment_id(&self) -> bool {
        self.last_segment() < u64::MAX
    }

    /// Memory and tables as a stack of runs, newest first.
    pub open spec fn layers(&self) -> Seq<Seq<Rec>> {
        self.memory() + tables::stack_of(self.disk().fs, self.home(), self.version())
    }

    /// The current version and what its tables hold.
    pub open spec fn layout(&self) -> Layout {
        layout::layout_of(self.disk().fs, self.home(), self.version())
    }

    /// What a flush writes to tables, one after the other.
    pub open spec fn pending(&self) -> Seq<Seq<Rec>> {
        layout::pending_of(self.memory())
    }

    /// The formats can take what a flush makes of the tables.
    pub open spec fn can_absorb(&self) -> bool {
        self.layout().can_absorb(
            self.pending(),
            self.next_seq(),
            self.settings().tier_fanout as nat,
        )
    }

    /// What is in memory once it has taken the records.
    pub open spec fn memory_with(&self, recs: Seq<Rec>) -> Seq<Seq<Rec>> {
        self.memory().update(0, memtable::with_all(self.memory()[0], recs))
    }

    /// The records make the active table grow past its limit.
    pub open spec fn filled_by(&self, recs: Seq<Rec>) -> bool {
        memtable::footprint(self.memory_with(recs)[0]) > self.settings().memtable_size
    }

    /// The formats can take what a flush makes of the tables once memory has taken the
    /// records.
    pub open spec fn can_absorb_with(&self, recs: Seq<Rec>) -> bool {
        self.layout().can_absorb(
            layout::pending_of(self.memory_with(recs)),
            (self.next_seq() + recs.len()) as u64,
            self.settings().tier_fanout as nat,
        )
    }

    /// What the records of writes make of memory and tables while the backend works.
    /// Memory takes them; once the active table has grown past its limit, it is
    /// flushed, and that fails only where the formats cannot take the outcome.
    pub open spec fn took(&self, before: &Self, recs: Seq<Rec>, ok: bool) -> bool {
        &&& !before.filled_by(recs) ==> ok && self.memory() == before.memory_with(recs)
            && self.layout() == before.layout()
        &&& before.filled_by(recs) && ok ==> {
            &&& self.active().len() == 0
            &&& self.frozen_tables() == 0
            &&& self.log().len() == 0
            &&& settled(self.version(), before.settings().tier_fanout as nat)
            &&& self.layout() == before.layout().absorbed(
                layout::pending_of(before.memory_with(recs)),
                (before.next_seq() + recs.len()) as u64,
                before.settings().tier_fanout as nat,
            )
        }
        &&& ok ==> memtable::footprint(self.active()) <= before.settings().memtable_size
        &&& before.disk().reliable && before.ids_free() && before.has_segment_ids() ==> (ok
            <==> !before.filled_by(recs) || before.can_absorb_with(recs))
    }

    /// How many segments of the log writes may begin: one when they are logged, and one
    /// when a flush releases the log.
    pub open spec fn segments_to_write(&self, recs: Seq<Rec>) -> int {
        if self.filled_by(recs) {
            2
        } else {
            1
        }
    }

    /// Memory and tables are as they were.
    pub open spec fn untouched(&self, before: &Self) -> bool {
        self.memory() == before.memory() && self.version() == before.version()
    }

    /// The log is as it was: it took nothing, and was not released.
    pub open spec fn log_kept(&self, before: &Self) -> bool {
        self.log() == before.log() && self.last_segment() == before.last_segment()
    }

    /// The log was released.
    pub open spec fn log_released(&self, before: &Self) -> bool {
        self.log().len() == 0 && self.last_segment() == before.last_segment() + 1
    }

    /// How many files a write may take: a segment of the log, and those of a flush.
    pub open spec fn files_to_write(&self) -> nat {
        1 + self.layout().files_to_absorb(self.memory().len())
    }

    /// How many files a flush may take.
    pub open spec fn files_to_flush(&self) -> nat {
        self.layout().files_to_absorb(self.pending().len())
    }

    /// The keys that have a value, and their values.
    pub open spec fn contents(&self) -> Map<Seq<u8>, Seq<u8>> {
        model::contents(self.layers())
    }

    /// The parts are usable, and no write or flush is under way.
    pub closed spec fn inv(&self) -> bool {
        self.whole() && self.write@.quiet()
    }

    /// The parts are usable.
    spec fn whole(&self) -> bool {
        let d = self.storage.disk();
        &&& self.storage.wf()
        &&& d.dependable
        &&& d.room() ==> facts::sound(d.fs)
        &&& self.wal.wf()
        &&& self.wal.home() == plain(self.dir@)
        &&& self.wal.mode() == self.options.durability
        &&& self.wal.roll_size() == 0x40_0000
        &&& d.room() && !d.halted ==> self.wal.inv(d.fs) && self.wal.idle()
        &&& self.manifest.home() == plain(self.dir@)
        &&& self.memtables.inv()
        &&& self.memtables.limit() == self.options.memtable_size
        &&& self.options.tier_fanout >= 2
        &&& self.wal.commits() <= self.write@.next_seq
        &&& self.memtables.freezes() + (if self.memtables.buffered().len() > 0 {
            1int
        } else {
            0
        }) <= self.write@.next_seq
        &&& forall|id: u64| #[trigger]
            self.readers@.contains_key(id) ==> self.readers@[id].inv()
    }

    /// The backend works, and memory, log and tables agree.
    pub closed spec fn good(&self) -> bool {
        let d = self.storage.disk();
        &&& d.room()
        &&& !d.halted
        &&& state::in_order(
            d.fs,
            plain(self.dir@),
            self.manifest.version(),
            self.memtables.layers(),
            self.wal.records(),
            self.write@.next_seq,
        )
        &&& filled(self.memtables.waiting())
        &&& cached(self.readers@, d.fs, plain(self.dir@), self.manifest.version())
    }

    /// The open tables show what the files hold.
    pub closed spec fn in_step(&self) -> bool {
        let fs = self.storage.disk().fs;
        forall|id: u64| #[trigger]
            self.readers@.contains_key(id) && self.manifest.version().references(id) ==> {
                let p = manifest::table_at(plain(self.dir@), id);
                &&& self.readers@[id].location() == p
                &&& table::opened(fs.content(p)) == Ok::<table::TableView, Corruption>(
                    self.readers@[id]@,
                )
            }
    }

    /// The open tables of a good database show what the files hold.
    pub proof fn lemma_good_in_step(&self)
        requires
            self.good(),
        ensures
            self.in_step(),
    {
    }

    /// The names of the tables to come are free.
    pub closed spec fn ids_free(&self) -> bool {
        ids_ahead(self.storage.disk().fs, plain(self.dir@), self.manifest.alive())
    }

    /// The size at which the log begins another segment.
    pub closed spec fn roll_size(&self) -> u64 {
        self.wal.roll_size()
    }

    /// The log of every database begins another segment at four mebibytes.
    pub proof fn lemma_roll_size(&self)
        requires
            self.inv(),
        ensures
            self.roll_size() == 4 * 1024 * 1024,
    {
    }

    /// The active table is a run.
    pub proof fn lemma_active_run(&self)
        requires
            self.inv(),
        ensures
            model::is_run(self.active()),
    {
        self.memtables.lemma_inv();
    }

    /// What is in memory: the active table, and the frozen ones.
    pub proof fn lemma_memory(&self)
        ensures
            self.memory().len() == self.frozen_tables() + 1,
            self.memory()[0] == self.active(),
    {
    }

    /// A write that fits into the active table does not fill it.
    pub proof fn lemma_takes(&self, rec: Rec)
        requires
            self.inv(),
            memtable::footprint(self.active()) + rec.key.len() + memtable::payload_len(rec.val)
                + 32 <= self.settings().memtable_size,
        ensures
            !self.filled_by(seq![rec]),
            memtable::footprint(self.memory_with(seq![rec])[0]) <= memtable::footprint(
                self.active(),
            ) + rec.key.len() + memtable::payload_len(rec.val) + 32,
    {
        self.lemma_memory();
        self.memtables.lemma_inv();
        memtable::lemma_with_all(self.active(), Seq::empty(), rec);
        assert(Seq::<Rec>::empty().push(rec) =~= seq![rec]);
        memtable::lemma_footprint_with(self.active(), rec);
    }

    /// While there is little data, a flush does not fail for want of space in the file
    /// formats, nor does a write that causes one.
    pub proof fn lemma_small_absorbs(&self, recs: Seq<Rec>)
        requires
            self.inv(),
            self.good(),
        ensures
            self.layout().is_small(self.pending().len(), layout::weight(self.pending()))
                ==> self.can_absorb(),
            ({
                let pending = layout::pending_of(self.memory_with(recs));
                self.layout().is_small(pending.len(), layout::weight(pending))
                    ==> self.can_absorb_with(recs)
            }),
    {
        let waiting = self.memtables.waiting();
        let fanout = self.options.tier_fanout as nat;
        let pending = self.pending();
        let more = layout::pending_of(self.memory_with(recs));
        self.lemma_memory();
        assert forall|i: int| 0 <= i < pending.len() implies (#[trigger] pending[i]).len() > 0 by {
            if i < waiting.len() {
                assert(waiting[i]@.len() > 0);
                assert(pending[i] == waiting[i]@);
            }
        }
        assert forall|i: int| 0 <= i < more.len() implies (#[trigger] more[i]).len() > 0 by {
            if i < waiting.len() {
                assert(waiting[i]@.len() > 0);
                assert(more[i] == waiting[i]@);
            }
        }
        if self.layout().is_small(pending.len(), layout::weight(pending)) {
            self.layout().lemma_small_absorbs(pending, self.next_seq(), fanout, 0, 0);
        }
        if self.layout().is_small(more.len(), layout::weight(more)) {
            self.layout().lemma_small_absorbs(
                more,
                (self.next_seq() + recs.len()) as u64,
                fanout,
                0,
                0,
            );
        }
    }

    /// The log of a good database is on disk: a recovery of its directory finds the
    /// records of the log.
    pub proof fn lemma_log(&self)
        requires
            self.inv(),
            self.good(),
        ensures
            recovery::plainly_named(self.disk().fs, self.home()),
            recovery::replay(recovery::seen_in(self.disk().fs, self.home())).records == self.log(),
    {
        let fs = self.disk().fs;
        self.wal.lemma_inv(fs);
        recovery::lemma_seen_named(fs, self.home(), wal::log_model(self.wal.segments()));
    }

    /// What holds in every good database: each version has a number that was handed out; of
    /// two versions of a key the one that lies above is the newer; what memory has of a key
    /// is in the log, as the newest there; and the manifest durably says which tables there
    /// are.
    pub proof fn lemma_good_means(&self, i: int, j: int, k: int, key: Seq<u8>)
        requires
            self.good(),
        ensures
            0 <= i < self.layers().len() && 0 <= k < self.layers()[i].len()
                ==> self.layers()[i][k].seq < self.next_seq(),
            0 <= i < j < self.layers().len() ==> (model::find(self.layers()[i], key) matches Some(
                a,
            ) ==> (model::find(self.layers()[j], key) matches Some(b) ==> a == b || a.seq > b.seq)),
            model::top(self.memory(), key) matches Some(r) ==> state::newest(
                state::decoded(self.log()),
                key,
            ) == Some(r),
            facts::stable(
                self.disk().fs,
                manifest::manifest_at(self.home()),
                manifest::record::version_bytes(self.version()),
            ),
            self.version().next_seq <= self.next_seq(),
    {
        reveal(state::in_order);
    }

    /// The backend of a good database works.
    pub proof fn lemma_good_works(&self)
        requires
            self.good(),
        ensures
            self.disk().room(),
            !self.disk().halted,
    {
    }

    /// A good database is on disk, too: closing it and opening it again finds the
    /// same contents, and if its log is durable, so does a recovery.
    pub proof fn lemma_good_holds(&self)
        requires
            self.inv(),
            self.good(),
        ensures
            state::holds(self.disk().fs, self.home(), self.contents()),
            self.is_safe() ==> state::recovers_to(self.disk().fs, self.home(), self.contents()),
    {
        let fs = self.disk().fs;
        self.wal.lemma_inv(fs);
        state::lemma_order_holds(
            fs,
            plain(self.dir@),
            self.version(),
            self.memory(),
            wal::log_model(self.wal.segments()),
            self.next_seq(),
        );
    }

    /// What was acknowledged survives: whenever power is lost while the log is
    /// durable, recovery finds the contents as they were.
    pub proof fn lemma_survives_power_loss(&self, after: FsState)
        requires
            self.inv(),
            self.good(),
            self.is_safe(),
            storage::power_loss(self.disk().fs, after),
        ensures
            state::recovers_to(after, self.home(), self.contents()),
    {
        let fs = self.disk().fs;
        let files = wal::log_model(self.wal.segments());
        let none = Set::<PathView>::empty();
        self.wal.lemma_inv(fs);
        facts::lemma_power_loss_keeps(fs, after);
        recovery::lemma_log_kept(fs, after, none, plain(self.dir@), files);
        state::lemma_order_kept(
            fs,
            after,
            none,
            plain(self.dir@),
            self.version(),
            self.memory(),
            self.wal.records(),
            self.next_seq(),
        );
        state::lemma_order_holds(
            after,
            plain(self.dir@),
            self.version(),
            self.memory(),
            files,
            self.next_seq(),
        );
    }
}

/// A state in order whose log is durable recovers to its contents.
proof fn lemma_recovers(
    pre: FsState,
    post: FsState,
    log: &Wal,
    dir: Seq<u8>,
    v: VersionView,
    mem: Seq<Seq<Rec>>,
    next_seq: u64,
)
    requires
        facts::sound(pre),
        log.inv(pre),
        log.is_safe(),
        log.home() == dir,
        facts::keeps(pre, post, compaction::layout_names(dir)),
        state::in_order(post, dir, v, mem, log.records(), next_seq),
    ensures
        state::recovers_to(
            post,
            dir,
            model::contents(mem + tables::stack_of(post, dir, v)),
        ),
{
    let files = wal::log_model(log.segments());
    log.lemma_inv(pre);
    state::lemma_log_names_apart(dir);
    recovery::lemma_log_kept(pre, post, compaction::layout_names(dir), dir, files);
    state::lemma_order_holds(post, dir, v, mem, files, next_seq);
}

/// The frozen tables without the first.
proof fn lemma_without_first(s: Seq<Arc<Memtable>>)
    requires
        s.len() > 0,
        forall|i: int, j: int|
            0 <= i < s.len() && 0 <= j < s.len() && i != j ==> (#[trigger] s[i]).identity() != (
            #[trigger] s[j]).identity(),
    ensures
        s.filter(|t: Arc<Memtable>| !memtable::same_table(*t, *s[0])) == s.skip(1),
    decreases s.len(),
{
    reveal(Seq::filter);
    let f = |t: Arc<Memtable>| !memtable::same_table(*t, *s[0]);
    let less = s.drop_last();
    if s.len() == 1 {
        assert(less.filter(f) =~= Seq::empty());
        assert(s.filter(f) =~= s.skip(1));
    } else {
        assert(less[0] == s[0]);
        lemma_without_first(less);
        assert(s[s.len() - 1].identity() != s[0].identity());
        assert(s.filter(f) =~= less.skip(1).push(s.last()));
        assert(s.filter(f) =~= s.skip(1));
    }
}

/// What is in memory above the oldest frozen table.
spec fn above_oldest(active: Seq<Rec>, waiting: Seq<Arc<Memtable>>) -> Seq<Seq<Rec>> {
    seq![active] + memtable::newest_first(waiting.skip(1))
}

proof fn lemma_memory_split(active: Seq<Rec>, waiting: Seq<Arc<Memtable>>)
    requires
        waiting.len() > 0,
    ensures
        seq![active] + memtable::newest_first(waiting) == above_oldest(active, waiting)
            + seq![waiting[0]@],
{
    assert(seq![active] + memtable::newest_first(waiting) =~= above_oldest(active, waiting)
        + seq![waiting[0]@]);
}

/// No version references an id that was not handed out.
spec fn issued(alive: Seq<VersionView>) -> bool {
    forall|i: int, id: u64|
        #![trigger alive[i].references(id)]
        0 <= i < alive.len() && alive[i].references(id) ==> id < alive[0].next_table_id
}

/// The ids to come are ahead when a version was installed and the garbage swept.
proof fn lemma_ids_ahead(
    post: FsState,
    dir: Seq<u8>,
    before: Seq<VersionView>,
    after: Seq<VersionView>,
)
    requires
        issued(before),
        before.len() > 0,
        after.len() > 0,
        manifest::swept(post, dir, after),
        forall|i: int| 1 <= i < after.len() ==> before.contains(#[trigger] after[i]),
        after[0].next_table_id >= before[0].next_table_id,
        forall|id: u64| #[trigger] after[0].references(id) ==> id < after[0].next_table_id,
    ensures
        ids_ahead(post, dir, after),
{
    let next = after[0].next_table_id;
    assert forall|i: int, id: u64|
        #![trigger after[i].references(id)]
        0 <= i < after.len() && after[i].references(id) implies id < next by {
        if i > 0 {
            let j = choose|j: int| 0 <= j < before.len() && before[j] == after[i];
            assert(before[j].references(id));
        }
    }
    assert forall|id: u64| id >= next implies !facts::is_live(
        post,
        #[trigger] manifest::table_at(dir, id),
    ) by {
        compaction::lemma_table_name_apart(dir, id);
        if manifest::any_references(after, id) {
            let i = choose|i: int| 0 <= i < after.len() && (#[trigger] after[i]).references(id);
            assert(after[i].references(id));
        }
        assert(manifest::garbage_names(dir, after).contains(manifest::table_at(dir, id)));
    }
}

/// From one state to another, only manifest and tables were touched.
#[verifier::opaque]
spec fn moved(pre: Disk, post: Disk, dir: Seq<u8>) -> bool {
    facts::carried(pre, post, compaction::layout_names(dir))
}

proof fn lemma_moved_refl(d: Disk, dir: Seq<u8>)
    requires
        d.dependable,
    ensures
        moved(d, d, dir),
{
    reveal(moved);
    facts::lemma_carried_refl(d, compaction::layout_names(dir));
}

proof fn lemma_moved_trans(a: Disk, b: Disk, c: Disk, dir: Seq<u8>)
    requires
        moved(a, b, dir),
        moved(b, c, dir),
    ensures
        moved(a, c, dir),
{
    reveal(moved);
    facts::lemma_carried_trans(a, b, c, compaction::layout_names(dir));
}

proof fn lemma_moved(pre: Disk, post: Disk, dir: Seq<u8>)
    requires
        moved(pre, post, dir),
    ensures
        post.dependable,
        post.reliable == pre.reliable,
        post.room() ==> pre.room(),
        post.room() && pre.halted ==> post.halted && post.fs == pre.fs,
        post.room() && post.halted && !pre.halted ==> !pre.reliable,
        post.room() && facts::sound(pre.fs) ==> facts::sound(post.fs),
{
    reveal(moved);
}

/// The log is as it was when only manifest and tables were touched.
proof fn lemma_moved_log(pre: Disk, post: Disk, dir: Seq<u8>, log: &Wal)
    requires
        moved(pre, post, dir),
        post.room(),
        !post.halted,
        facts::sound(pre.fs),
        log.inv(pre.fs),
        log.home() == dir,
    ensures
        log.inv(post.fs),
{
    reveal(moved);
    state::lemma_log_names_apart(dir);
    log.lemma_inv_kept(pre.fs, post.fs, compaction::layout_names(dir));
}

/// A file holds table `id`, which has these records.
#[verifier::opaque]
spec fn table_there(fs: FsState, dir: Seq<u8>, id: u64, recs: Seq<Rec>) -> bool {
    exists|bytes: Seq<u8>| #[trigger]
        table::is_table(bytes, recs) && facts::visible(
            fs,
            manifest::table_at(dir, id),
            FileData { live: bytes, synced: bytes },
        )
}

/// Writing a new table's file leaves the database in order.
proof fn lemma_table_written(
    d0: Disk,
    d1: Disk,
    dir: Seq<u8>,
    id: u64,
    v: VersionView,
    mem: Seq<Seq<Rec>>,
    log: &Wal,
    next: u64,
    readers: Map<u64, Arc<SsTableReader>>,
)
    requires
        facts::carried(d0, d1, set![manifest::table_at(dir, id)]),
        d1.room(),
        !d0.halted,
        facts::sound(d0.fs),
        state::in_order(d0.fs, dir, v, mem, log.records(), next),
        id >= v.next_table_id,
        log.inv(d0.fs),
        log.home() == dir,
        cached(readers, d0.fs, dir, v),
    ensures
        state::in_order(d1.fs, dir, v, mem, log.records(), next),
        tables::stack_of(d1.fs, dir, v) == tables::stack_of(d0.fs, dir, v),
        cached(readers, d1.fs, dir, v),
        log.is_safe() ==> state::recovers_to(
            d1.fs,
            dir,
            model::contents(mem + tables::stack_of(d0.fs, dir, v)),
        ),
{
    let one = set![manifest::table_at(dir, id)];
    state::lemma_order_version(d0.fs, dir, v, mem, log.records(), next);
    compaction::lemma_fresh_table(d0.fs, dir, v, id);
    state::lemma_order_fresh(d0.fs, d1.fs, id, dir, v, mem, log.records(), next);
    tables::lemma_grown_same(d0.fs, d1.fs, one, dir, v);
    lemma_cached(readers, d0.fs, d1.fs, dir, v, v);
    if log.is_safe() {
        facts::lemma_keeps_mono(d0.fs, d1.fs, one, compaction::layout_names(dir));
        lemma_recovers(d0.fs, d1.fs, log, dir, v, mem, next);
    }
}

impl<S: Storage> Db<S> {
    /// The parts that a flush of a table leaves alone.
    spec fn same_but_tables(&self, other: &Self) -> bool {
        &&& self.dir == other.dir
        &&& self.options == other.options
        &&& self.wal == other.wal
        &&& self.write == other.write
        &&& self.readers == other.readers
    }

    /// A step that only touches manifest and tables kept the contents: the database
    /// is good, or power was lost and it recovers to them.
    spec fn kept_contents(&self, before: &Self) -> bool {
        before.good() && self.disk().room() ==> {
            &&& !self.disk().halted ==> self.good() && self.contents() == before.contents()
            &&& self.disk().halted && before.is_safe() ==> state::recovers_to(
                self.disk().fs,
                before.home(),
                before.contents(),
            )
        }
    }

    /// Writes a frozen table to the file of table `id`.
    fn write_frozen(&mut self, frozen: &Arc<Memtable>, id: u64) -> (r: compaction::Result<
        Option<TableMeta>,
    >)
        requires
            old(self).whole(),
            id == old(self).manifest.version().next_table_id,
            id < u64::MAX,
        ensures
            final(self).whole(),
            final(self).same_but_tables(old(self)),
            final(self).manifest == old(self).manifest,
            final(self).memtables == old(self).memtables,
            moved(old(self).disk(), final(self).disk(), plain(old(self).dir@)),
            r matches Ok(None) ==> frozen@.len() == 0,
            r matches Ok(Some(m)) ==> {
                &&& m@.id == id
                &&& tables::describes(m@, frozen@)
                &&& final(self).disk().room() && !final(self).disk().halted ==> table_there(
                    final(self).disk().fs,
                    plain(old(self).dir@),
                    id,
                    frozen@,
                )
            },
            final(self).kept_contents(old(self)),
            old(self).ids_free() && final(self).disk().room() && !final(self).disk().halted
                && model::is_run(frozen@) ==> {
                &&& r matches Err(e) ==> compaction::is_limit(e)
                &&& r is Ok <==> compaction::sized(frozen@, frozen@.len())
            },
            storage::used(old(self).disk(), final(self).disk(), 1),
            old(self).good() && final(self).disk().room() && !final(self).disk().halted
                ==> final(self).layout() == old(self).layout(),
    {
        let ghost d0 = self.storage.disk();
        let entries: Vec<Entry> = frozen.snapshot();
        let n: usize = entries.len();
        let path: FilePath = manifest::table_path(&self.dir, id);
        let written = compaction::write_table(&mut self.storage, &path, id, n, entries);
        let ghost d1 = self.storage.disk();
        proof {
            let dir = plain(self.dir@);
            assert(moved(d0, d1, dir)) by {
                reveal(moved);
                compaction::lemma_table_name_apart(dir, id);
                facts::lemma_carried_mono(
                    d0,
                    d1,
                    set![manifest::table_at(dir, id)],
                    compaction::layout_names(dir),
                );
            }
            lemma_moved(d0, d1, dir);
            if d1.room() && !d1.halted {
                lemma_moved_log(d0, d1, dir, &self.wal);
            }
            if old(self).good() && d1.room() {
                lemma_table_written(
                    d0,
                    d1,
                    dir,
                    id,
                    self.manifest.version(),
                    self.memtables.layers(),
                    &self.wal,
                    self.write@.next_seq,
                    self.readers@,
                );
            }
            reveal(table_there);
        }
        written
    }

    /// Installs the version in which table `meta` is flushed.
    fn install_flushed(
        &mut self,
        version: &Version,
        meta: TableMeta,
        Ghost(upper): Ghost<Seq<Seq<Rec>>>,
        Ghost(x): Ghost<Seq<Rec>>,
    ) -> (r: manifest::Result<()>)
        requires
            old(self).whole(),
            version@ == old(self).manifest.version(),
            meta@.id == version@.next_table_id,
            meta@.id < u64::MAX,
        ensures
            final(self).whole(),
            final(self).same_but_tables(old(self)),
            final(self).memtables == old(self).memtables,
            moved(old(self).disk(), final(self).disk(), plain(old(self).dir@)),
            storage::used(old(self).disk(), final(self).disk(), 1),
            (r is Err && r->Err_0 is TooLarge) <==> !manifest::record::version_fits(
                version@.flushed(meta@, old(self).write@.next_seq),
            ),
            r is Ok ==> final(self).manifest.version() == version@.flushed(
                meta@,
                old(self).write@.next_seq,
            ),
            old(self).good() && old(self).memtables.layers() == upper + seq![x]
                && tables::describes(meta@, x) && table_there(
                old(self).disk().fs,
                plain(old(self).dir@),
                meta@.id,
                x,
            ) ==> {
                &&& final(self).kept_contents(old(self))
                &&& r is Ok && final(self).disk().room() && !final(self).disk().halted ==> {
                    let d = final(self).disk();
                    let v2 = final(self).manifest.version();
                    &&& state::in_order(
                        d.fs,
                        plain(old(self).dir@),
                        v2,
                        upper,
                        old(self).wal.records(),
                        old(self).write@.next_seq,
                    )
                    &&& model::contents(upper + tables::stack_of(d.fs, plain(old(self).dir@), v2))
                        == old(self).contents()
                    &&& tables::stack_of(d.fs, plain(old(self).dir@), v2) == seq![x] + tables::stack_of(
                        old(self).disk().fs,
                        plain(old(self).dir@),
                        version@,
                    )
                    &&& issued(old(self).manifest.alive()) ==> final(self).ids_free()
                }
                &&& r matches Err(e) ==> final(self).disk().room() && old(self).disk().reliable ==> e
                    is TooLarge
            },
    {
        let ghost d1 = self.storage.disk();
        let ghost dir = plain(self.dir@);
        let ghost v = version@;
        let ghost m = meta@;
        let ghost next = self.write@.next_seq;
        let ghost records = self.wal.records();
        let ghost alive0 = self.manifest.alive();
        let ghost v2 = v.flushed(m, next);
        let new_version: Version = version.flushed(meta, self.write.next_seq());
        let installed = self.manifest.install(&mut self.storage, new_version);
        let ghost d2 = self.storage.disk();
        let ghost kept = self.manifest.alive();
        proof {
            assert(moved(d1, d2, dir)) by {
                reveal(moved);
                compaction::lemma_garbage_is_layout(dir, kept);
                facts::lemma_carried_mono(
                    d1,
                    d2,
                    manifest::manifest_names(dir).union(manifest::garbage_names(dir, kept)),
                    compaction::layout_names(dir),
                );
            }
            lemma_moved(d1, d2, dir);
            if d2.room() && !d2.halted {
                lemma_moved_log(d1, d2, dir, &self.wal);
            }
            if old(self).good() && old(self).memtables.layers() == upper + seq![x]
                && tables::describes(m, x) && table_there(d1.fs, dir, m.id, x) && d2.room()
                && manifest::record::version_fits(v2) {
                self.lemma_flush_outcome(d1, d2, v, m, upper, x, kept);
                if installed is Ok && !d2.halted && issued(alive0) {
                    assert forall|i: int| 1 <= i < kept.len() implies alive0.contains(
                        #[trigger] kept[i],
                    ) by {
                        assert(self.manifest.retained()[i - 1] == kept[i]);
                    }
                    assert forall|id: u64| #[trigger] kept[0].references(id) implies id
                        < kept[0].next_table_id by {
                        state::lemma_order_version(d2.fs, dir, v2, upper, records, next);
                        tables::lemma_referenced_below(d2.fs, dir, v2, id);
                    }
                    lemma_ids_ahead(d2.fs, dir, alive0, kept);
                }
            }
        }
        match installed {
            Ok(_) => Ok(()),
            Err(e) => Err(e),
        }
    }

    /// What installing a flushed table makes of the database.
    proof fn lemma_flush_outcome(
        &self,
        d1: Disk,
        d2: Disk,
        v: VersionView,
        m: manifest::MetaView,
        upper: Seq<Seq<Rec>>,
        x: Seq<Rec>,
        kept: Seq<VersionView>,
    )
        requires
            !d1.halted,
            d2.room(),
            facts::sound(d1.fs),
            moved(d1, d2, plain(self.dir@)),
            state::in_order(
                d1.fs,
                plain(self.dir@),
                v,
                upper + seq![x],
                self.wal.records(),
                self.write@.next_seq,
            ),
            cached(self.readers@, d1.fs, plain(self.dir@), v),
            self.wal.inv(d1.fs),
            self.wal.home() == plain(self.dir@),
            m.id == v.next_table_id,
            m.id < u64::MAX,
            tables::describes(m, x),
            table_there(d1.fs, plain(self.dir@), m.id, x),
            manifest::install_outcome(
                d1,
                d2,
                plain(self.dir@),
                v.flushed(m, self.write@.next_seq),
                kept,
            ),
        ensures
            ({
                let dir = plain(self.dir@);
                let v2 = v.flushed(m, self.write@.next_seq);
                let records = self.wal.records();
                let next = self.write@.next_seq;
                let before = model::contents((upper + seq![x]) + tables::stack_of(d1.fs, dir, v));
                &&& !d2.halted ==> {
                    &&& state::in_order(d2.fs, dir, v2, upper, records, next)
                    &&& state::in_order(d2.fs, dir, v2, upper + seq![x], records, next)
                    &&& model::contents(upper + tables::stack_of(d2.fs, dir, v2)) == before
                    &&& model::contents((upper + seq![x]) + tables::stack_of(d2.fs, dir, v2))
                        == before
                    &&& cached(self.readers@, d2.fs, dir, v2)
                    &&& tables::stack_of(d2.fs, dir, v2) == seq![x] + tables::stack_of(
                        d1.fs,
                        dir,
                        v,
                    )
                }
                &&& d2.halted && self.wal.is_safe() ==> state::recovers_to(d2.fs, dir, before)
            }),
    {
        let dir = plain(self.dir@);
        let next = self.write@.next_seq;
        let records = self.wal.records();
        let v2 = v.flushed(m, next);
        reveal(table_there);
        let bytes = choose|bytes: Seq<u8>| #[trigger]
            table::is_table(bytes, x) && facts::visible(
                d1.fs,
                manifest::table_at(dir, m.id),
                FileData { live: bytes, synced: bytes },
            );
        state::lemma_flush_installed(d1, d2, dir, v, m, upper, x, records, next, bytes, kept);
        assert(facts::keeps(d1.fs, d2.fs, compaction::layout_names(dir))) by {
            reveal(moved);
        }
        if state::flush_done(d1.fs, d2.fs, dir, v, m, upper, x, records, next) {
            lemma_cached(self.readers@, d1.fs, d2.fs, dir, v, v2);
            if self.wal.is_safe() {
                lemma_recovers(d1.fs, d2.fs, &self.wal, dir, v2, upper, next);
            }
        } else if self.wal.is_safe() {
            lemma_recovers(d1.fs, d2.fs, &self.wal, dir, v, upper + seq![x], next);
        }
    }

    /// Writes one frozen table to a new table in tier 0, installs it, and drops it
    /// from memory.
    fn flush_table(&mut self, frozen: &Arc<Memtable>) -> (r: Result<()>)
        requires
            old(self).whole(),
        ensures
            final(self).whole(),
            final(self).same_but_tables(old(self)),
            moved(old(self).disk(), final(self).disk(), plain(old(self).dir@)),
            r is Ok ==> final(self).memtables.waiting() == old(self).memtables.waiting().filter(
                |t: Arc<Memtable>| !memtable::same_table(*t, **frozen),
            ),
            r is Err ==> final(self).memtables == old(self).memtables,
            final(self).memtables.buffered() == old(self).memtables.buffered(),
            final(self).memtables.limit() == old(self).memtables.limit(),
            final(self).memtables.freezes() == old(self).memtables.freezes(),
            storage::used(old(self).disk(), final(self).disk(), 2),
            r is Ok ==> final(self).layout().tables() <= old(self).layout().tables() + 1,
            old(self).next_seq() < u64::MAX && old(self).memtables.waiting().len() > 0 && *frozen
                == old(self).memtables.waiting()[0] ==> {
                &&& final(self).kept_contents(old(self))
                &&& old(self).good() && final(self).disk().room() && !final(self).disk().halted
                    && r is Ok ==> final(self).layout() == old(self).layout().flushed(
                    frozen@,
                    old(self).next_seq(),
                )
                &&& old(self).good() && final(self).disk().room() && old(self).disk().reliable
                    && old(self).ids_free() ==> {
                    &&& r is Ok <==> old(self).layout().can_flush(frozen@, old(self).next_seq())
                    &&& r matches Err(e) ==> is_limit(e)
                    &&& r is Ok ==> final(self).ids_free()
                }
            },
    {
        let ghost waiting = self.memtables.waiting();
        let ghost x = frozen@;
        let ghost upper = above_oldest(self.memtables.buffered(), waiting);
        let ghost d0 = self.storage.disk();
        proof {
            lemma_moved_refl(d0, plain(self.dir@));
        }
        let version: Arc<Version> = self.manifest.current();
        let id: u64 = version.next_table_id;
        if id == u64::MAX {
            return Err(DbError::Manifest(ManifestError::TooLarge));
        }
        proof {
            self.memtables.lemma_inv();
            if waiting.len() > 0 {
                lemma_memory_split(self.memtables.buffered(), waiting);
            }
        }
        let table: Option<TableMeta> = match self.write_frozen(frozen, id) {
            Ok(t) => t,
            Err(e) => {
                proof {
                    lemma_moved(d0, self.storage.disk(), plain(self.dir@));
                }
                return Err(DbError::Compaction(e));
            },
        };
        let ghost d1 = self.storage.disk();
        if let Some(meta) = table {
            proof {
                assert(meta@ == layout::table_of(id, x));
                tables::lemma_flushed(version@, meta@, self.write@.next_seq);
            }
            let installed = self.install_flushed(&version, meta, Ghost(upper), Ghost(x));
            proof {
                lemma_moved_trans(d0, d1, self.storage.disk(), plain(self.dir@));
                lemma_moved(d0, d1, plain(self.dir@));
                lemma_moved(d1, self.storage.disk(), plain(self.dir@));
                lemma_moved(d0, self.storage.disk(), plain(self.dir@));
            }
            match installed {
                Ok(_) => {},
                Err(e) => {
                    return Err(DbError::Manifest(e));
                },
            }
        }
        let ghost last = *self;
        self.memtables.discard_frozen(frozen);
        proof {
            lemma_moved(d0, d1, plain(self.dir@));
            if waiting.len() > 0 && *frozen == waiting[0] && old(self).next_seq() < u64::MAX {
                lemma_without_first(waiting);
                assert(self.memtables.waiting() == waiting.skip(1));
                assert(self.memtables.layers() == upper);
                if old(self).good() && self.disk().room() && !self.disk().halted {
                    assert(last.good());
                    assert(filled(waiting.skip(1))) by {
                        assert forall|i: int| 0 <= i < waiting.skip(1).len() implies (
                        #[trigger] waiting.skip(1)[i])@.len() > 0 by {
                            assert(waiting[i + 1]@.len() > 0);
                        }
                    }
                    assert(self.good());
                }
            }
        }
        Ok(())
    }
}

/// The footprint of a run tells whether it is empty.
proof fn lemma_footprint_empty(run: Seq<Rec>)
    ensures
        memtable::footprint(run) == 0 <==> run.len() == 0,
{
}

/// The records of each of the tables.
spec fn run_views(waiting: Seq<Arc<Memtable>>) -> Seq<Seq<Rec>> {
    Seq::new(waiting.len(), |i: int| waiting[i]@)
}

/// What is pending when nothing is buffered are the frozen tables.
proof fn lemma_pending_waiting(active: Seq<Rec>, waiting: Seq<Arc<Memtable>>)
    requires
        active.len() == 0,
    ensures
        layout::pending_of(seq![active] + memtable::newest_first(waiting)) == run_views(waiting),
{
    assert(layout::pending_of(seq![active] + memtable::newest_first(waiting)) =~= run_views(
        waiting,
    ));
}

/// An empty memory says nothing.
proof fn lemma_memory_empty(active: Seq<Rec>, waiting: Seq<Arc<Memtable>>)
    requires
        active.len() == 0,
        waiting.len() == 0,
    ensures
        forall|key: Seq<u8>| (#[trigger] model::top(
            seq![active] + memtable::newest_first(waiting),
            key,
        )) is None,
{
    let mem = seq![active] + memtable::newest_first(waiting);
    assert(mem =~= seq![active]);
    assert forall|key: Seq<u8>| (#[trigger] model::top(mem, key)) is None by {
        model::lemma_top_one(active, key);
    }
}

impl<S: Storage> Db<S> {
    /// Keeping contents step by step keeps them.
    proof fn lemma_kept_trans(a: &Self, b: &Self, c: &Self)
        requires
            b.kept_contents(a),
            c.kept_contents(b),
            c.disk().room() ==> b.disk().room(),
            c.disk().room() && b.disk().halted ==> c.disk().halted && c.disk().fs == b.disk().fs,
            c.disk().room() && !b.disk().halted && a.is_safe() ==> b.is_safe(),
            b.home() == a.home(),
        ensures
            c.kept_contents(a),
    {
    }

    /// Freezes the active table, if it has entries.
    fn freeze_active(&mut self)
        requires
            old(self).whole(),
        ensures
            final(self).whole(),
            final(self).same_but_tables(old(self)),
            final(self).storage == old(self).storage,
            final(self).manifest == old(self).manifest,
            final(self).memtables.buffered().len() == 0,
            final(self).memtables.limit() == old(self).memtables.limit(),
            final(self).kept_contents(old(self)) || !old(self).good(),
            old(self).good() ==> final(self).good() && final(self).contents()
                == old(self).contents(),
            run_views(final(self).memtables.waiting()) == old(self).pending(),
    {
        proof {
            lemma_footprint_empty(self.memtables.buffered());
            if self.memtables.buffered().len() == 0 {
                lemma_pending_waiting(self.memtables.buffered(), self.memtables.waiting());
            }
        }
        if self.memtables.active_bytes() > 0 {
            let ghost before = self.memtables;
            let t: Arc<Memtable> = self.memtables.freeze();
            proof {
                memtable::lemma_freeze_keeps_reads(&before, &self.memtables, t);
                lemma_pending_waiting(self.memtables.buffered(), self.memtables.waiting());
                layout::lemma_pending_frozen(before.layers(), self.memtables.buffered());
                if old(self).good() {
                    let d = self.storage.disk();
                    state::lemma_order_freeze(
                        d.fs,
                        plain(self.dir@),
                        self.manifest.version(),
                        before.layers(),
                        self.wal.records(),
                        self.write@.next_seq,
                    );
                    assert(filled(self.memtables.waiting())) by {
                        let w = self.memtables.waiting();
                        assert forall|i: int| 0 <= i < w.len() implies (#[trigger] w[i])@.len()
                            > 0 by {
                            if i < before.waiting().len() {
                                assert(before.waiting()[i]@.len() > 0);
                            }
                        }
                    }
                }
            }
        }
    }

    /// Flushes every frozen table, the oldest first.
    fn flush_frozen(&mut self) -> (r: Result<()>)
        requires
            old(self).whole(),
            old(self).next_seq() < u64::MAX,
        ensures
            final(self).whole(),
            final(self).same_but_tables(old(self)),
            moved(old(self).disk(), final(self).disk(), plain(old(self).dir@)),
            final(self).memtables.buffered() == old(self).memtables.buffered(),
            final(self).memtables.limit() == old(self).memtables.limit(),
            r is Ok ==> final(self).memtables.waiting().len() == 0,
            final(self).kept_contents(old(self)),
            storage::used(
                old(self).disk(),
                final(self).disk(),
                2 * old(self).memtables.waiting().len(),
            ),
            r is Ok ==> final(self).layout().tables() <= old(self).layout().tables() + old(
                self,
            ).memtables.waiting().len(),
            ({
                let runs = run_views(old(self).memtables.waiting());
                &&& old(self).good() && final(self).disk().room() && !final(self).disk().halted
                    && r is Ok ==> final(self).layout() == old(self).layout().all_flushed(
                    runs,
                    old(self).next_seq(),
                )
                &&& old(self).good() && final(self).disk().room() && old(self).disk().reliable
                    && old(self).ids_free() ==> {
                    &&& r is Ok <==> old(self).layout().can_flush_all(runs, old(self).next_seq())
                    &&& r matches Err(e) ==> is_limit(e)
                    &&& r is Ok ==> final(self).ids_free()
                }
            }),
    {
        let frozen: Vec<Arc<Memtable>> = self.memtables.frozen();
        let ghost start = *self;
        let ghost runs = run_views(frozen@);
        let ghost next = self.next_seq();
        let mut i: usize = 0;
        proof {
            lemma_moved_refl(self.storage.disk(), plain(self.dir@));
            assert(frozen@.skip(0) =~= frozen@);
            assert(runs.take(0) =~= Seq::empty());
        }
        while i < frozen.len()
            invariant
                start == *old(self),
                start.next_seq() < u64::MAX,
                i <= frozen@.len(),
                self.whole(),
                self.same_but_tables(&start),
                moved(start.disk(), self.disk(), plain(start.dir@)),
                self.memtables.buffered() == start.memtables.buffered(),
                self.memtables.limit() == start.memtables.limit(),
                self.memtables.waiting() == frozen@.skip(i as int),
                self.kept_contents(&start),
                start.good() && self.disk().room() && start.disk().reliable && start.ids_free()
                    ==> self.ids_free() && start.layout().can_flush_all(
                    runs.take(i as int),
                    next,
                ),
                runs == run_views(frozen@),
                next == start.next_seq(),
                frozen@ == start.memtables.waiting(),
                storage::used(start.disk(), self.disk(), (2 * i) as nat),
                self.layout().tables() <= start.layout().tables() + i,
                start.good() && self.disk().room() && !self.disk().halted ==> self.layout()
                    == start.layout().all_flushed(runs.take(i as int), next),
            decreases frozen.len() - i,
        {
            let ghost before = *self;
            let flushed = self.flush_table(&frozen[i]);
            proof {
                start.layout().lemma_flush_next(runs, next, i as int);
                assert(runs[i as int] == frozen@[i as int]@);
                if start.layout().can_flush_all(runs, next) {
                    start.layout().lemma_flush_first(runs, next, i + 1);
                }
                lemma_moved_trans(start.disk(), before.disk(), self.disk(), plain(start.dir@));
                lemma_moved(start.disk(), before.disk(), plain(start.dir@));
                lemma_moved(before.disk(), self.disk(), plain(start.dir@));
                Self::lemma_kept_trans(&start, &before, self);
            }
            match flushed {
                Ok(_) => {},
                Err(e) => {
                    return Err(e);
                },
            }
            proof {
                before.memtables.lemma_inv();
                lemma_without_first(frozen@.skip(i as int));
                assert(frozen@.skip(i as int).skip(1) =~= frozen@.skip(i + 1));
            }
            i = i + 1;
        }
        assert(runs.take(i as int) =~= runs);
        Ok(())
    }

    /// Releases the log, once nothing in memory needs it.
    fn release_log(&mut self) -> (r: Result<()>)
        requires
            old(self).whole(),
            old(self).memtables.buffered().len() == 0,
            old(self).memtables.waiting().len() == 0,
        ensures
            final(self).whole(),
            final(self).dir == old(self).dir,
            final(self).options == old(self).options,
            final(self).write == old(self).write,
            final(self).readers == old(self).readers,
            final(self).memtables == old(self).memtables,
            final(self).manifest == old(self).manifest,
            final(self).kept_contents(old(self)),
            final(self).disk().reliable == old(self).disk().reliable,
            final(self).disk().room() ==> old(self).disk().room(),
            final(self).disk().room() && old(self).disk().halted ==> final(self).disk().halted
                && final(self).disk().fs == old(self).disk().fs && r is Err,
            final(self).disk().room() && final(self).disk().halted && !old(self).disk().halted
                ==> !old(self).disk().reliable,
            final(self).disk().room() && !final(self).disk().halted ==> {
                &&& r is Ok ==> final(self).log() == Seq::<Seq<u8>>::empty() && final(self).is_safe()
                &&& r is Err ==> final(self).is_tied() == old(self).is_tied()
                &&& r is Err ==> (old(self).disk().reliable ==> old(self).wal.segments().last().id
                    == u64::MAX)
                    && final(self).is_safe() == old(self).is_safe()
                &&& old(self).ids_free() ==> final(self).ids_free()
                &&& final(self).last_segment() == old(self).last_segment() + if r is Ok {
                    1int
                } else {
                    0
                }
            },
            r is Err ==> r->Err_0 is Storage && final(self).log_kept(old(self)),
            r is Ok && final(self).disk().room() ==> final(self).log_released(old(self)),
            storage::used(old(self).disk(), final(self).disk(), 1),
            old(self).good() && final(self).disk().room() && !final(self).disk().halted
                ==> final(self).layout() == old(self).layout(),
            final(self).disk().room() && !final(self).disk().halted && r is Ok
                ==> old(self).wal.segments().last().id < u64::MAX,
    {
        let ghost d0 = self.storage.disk();
        let ghost dir = plain(self.dir@);
        let ghost before = self.wal;
        let ghost v = self.manifest.version();
        let ghost mem = self.memtables.layers();
        let ghost next = self.write@.next_seq;
        let released = self.wal.reset(&mut self.storage);
        let ghost d1 = self.storage.disk();
        proof {
            Wal::lemma_pipeline(&before, &self.wal);
            if d1.room() {
                if old(self).good() {
                    lemma_memory_empty(self.memtables.buffered(), self.memtables.waiting());
                    lemma_log_released(d0.fs, d1.fs, dir, v, mem, before.records(), next);
                    assert(tables::grown(d0.fs, d1.fs, dir, v, v)) by {
                        state::lemma_order_version(d0.fs, dir, v, mem, before.records(), next);
                        lemma_log_leaves_tables(d0.fs, d1.fs, dir, v);
                    }
                    lemma_cached(self.readers@, d0.fs, d1.fs, dir, v, v);
                }
                if !d1.halted && old(self).ids_free() {
                    lemma_log_leaves_ids(d0.fs, d1.fs, dir, self.manifest.alive());
                }
            }
        }
        match released {
            Ok(_) => Ok(()),
            Err(e) => Err(DbError::Storage(e)),
        }
    }
}

/// Releasing the log leaves no file where there was none.
proof fn lemma_log_leaves_ids(
    pre: FsState,
    post: FsState,
    dir: Seq<u8>,
    alive: Seq<VersionView>,
)
    requires
        ids_ahead(pre, dir, alive),
        facts::calm(pre, post, recovery::log_names(dir)),
    ensures
        ids_ahead(post, dir, alive),
{
    assert forall|id: u64| id >= alive[0].next_table_id implies !facts::is_live(
        post,
        #[trigger] manifest::table_at(dir, id),
    ) by {
        compaction::lemma_table_name_apart(dir, id);
        state::lemma_log_names_apart(dir);
        assert(compaction::layout_names(dir).contains(manifest::table_at(dir, id)));
    }
}

/// Releasing the log leaves the tables alone.
proof fn lemma_log_leaves_tables(pre: FsState, post: FsState, dir: Seq<u8>, v: VersionView)
    requires
        facts::sound(pre),
        facts::keeps(pre, post, recovery::log_names(dir)),
        tables::good_version(pre, dir, v),
    ensures
        tables::grown(pre, post, dir, v, v),
{
    let names = recovery::log_names(dir);
    state::lemma_log_names_apart(dir);
    assert forall|id: u64| v.references(id) implies !names.contains(
        #[trigger] manifest::table_at(dir, id),
    ) by {
        compaction::lemma_table_name_apart(dir, id);
        assert(compaction::layout_names(dir).contains(manifest::table_at(dir, id)));
    }
    tables::lemma_grown_same(pre, post, names, dir, v);
}

/// What releasing the log of a database with nothing in memory makes of it.
proof fn lemma_log_released(
    pre: FsState,
    post: FsState,
    dir: Seq<u8>,
    v: VersionView,
    mem: Seq<Seq<Rec>>,
    records: Seq<Seq<u8>>,
    next: u64,
)
    requires
        facts::sound(pre),
        facts::keeps(pre, post, recovery::log_names(dir)),
        state::in_order(pre, dir, v, mem, records, next),
        forall|key: Seq<u8>| (#[trigger] model::top(mem, key)) is None,
    ensures
        state::in_order(post, dir, v, mem, records, next),
        state::in_order(post, dir, v, mem, Seq::empty(), next),
        tables::stack_of(post, dir, v) == tables::stack_of(pre, dir, v),
        recovery::log_says(post, dir, records) || recovery::log_says(post, dir, Seq::empty())
            ==> state::recovers_to(
            post,
            dir,
            model::contents(mem + tables::stack_of(pre, dir, v)),
        ),
{
    let names = recovery::log_names(dir);
    state::lemma_log_names_apart(dir);
    state::lemma_order_kept(pre, post, names, dir, v, mem, records, next);
    state::lemma_order_reset(post, dir, v, mem, records, next);
    if recovery::log_says(post, dir, records) {
        let files = choose|files: Seq<(u64, Seq<u8>)>| #[trigger]
            recovery::log_stable(post, dir, files) && recovery::replay(files).records == records;
        state::lemma_order_holds(post, dir, v, mem, files, next);
    } else if recovery::log_says(post, dir, Seq::empty()) {
        let files = choose|files: Seq<(u64, Seq<u8>)>| #[trigger]
            recovery::log_stable(post, dir, files) && recovery::replay(files).records
                == Seq::<Seq<u8>>::empty();
        state::lemma_order_holds(post, dir, v, mem, files, next);
    }
}

/// If a tier has reached the fanout, there is a youngest one.
proof fn lemma_full_tier(v: VersionView, fanout: nat, t: int) -> (r: int)
    requires
        0 <= t < v.tiers.len(),
        v.tiers[t].len() >= fanout,
    ensures
        compaction::is_full_tier(v, fanout, r),
    decreases t,
{
    if exists|s: int| 0 <= s < t && (#[trigger] v.tiers[s]).len() >= fanout {
        let s = choose|s: int| 0 <= s < t && (#[trigger] v.tiers[s]).len() >= fanout;
        lemma_full_tier(v, fanout, s)
    } else {
        t
    }
}

/// Every tier is below the fanout.
pub open spec fn settled(v: VersionView, fanout: nat) -> bool {
    forall|t: int| 0 <= t < v.tiers.len() ==> (#[trigger] v.tiers[t]).len() < fanout
}

/// What a compaction makes of a database whose log is empty.
proof fn lemma_compaction_step(
    d0: Disk,
    d1: Disk,
    dir: Seq<u8>,
    v: VersionView,
    t: int,
    v2: VersionView,
    mem: Seq<Seq<Rec>>,
    log: &Wal,
    next: u64,
    readers: Map<u64, Arc<SsTableReader>>,
)
    requires
        facts::sound(d0.fs),
        d1.room(),
        moved(d0, d1, dir),
        state::in_order(d0.fs, dir, v, mem, log.records(), next),
        log.records() == Seq::<Seq<u8>>::empty(),
        log.inv(d0.fs),
        log.home() == dir,
        cached(readers, d0.fs, dir, v),
        0 <= t < v.tiers.len(),
        compaction::stepped(d0.fs, d1.fs, dir, v, t, v2),
    ensures
        state::in_order(d1.fs, dir, v2, mem, log.records(), next),
        model::contents(mem + tables::stack_of(d1.fs, dir, v2)) == model::contents(
            mem + tables::stack_of(d0.fs, dir, v),
        ),
        cached(readers, d1.fs, dir, v2),
        log.is_safe() ==> state::recovers_to(
            d1.fs,
            dir,
            model::contents(mem + tables::stack_of(d0.fs, dir, v)),
        ),
        v2.next_table_id >= v.next_table_id,
{
    state::lemma_order_compacted(d0.fs, d1.fs, dir, v, t, v2, mem, next);
    assert(tables::grown(d0.fs, d1.fs, dir, v, v2)) by {
        reveal(compaction::stepped);
    }
    lemma_cached(readers, d0.fs, d1.fs, dir, v, v2);
    if log.is_safe() {
        assert(facts::keeps(d0.fs, d1.fs, compaction::layout_names(dir))) by {
            reveal(moved);
        }
        lemma_recovers(d0.fs, d1.fs, log, dir, v2, mem, next);
    }
}

impl<S: Storage> Db<S> {
    /// Runs one compaction pass; returns whether there was anything to compact.
    fn compact_once(&mut self) -> (r: Result<bool>)
        requires
            old(self).whole(),
        ensures
            final(self).whole(),
            final(self).same_but_tables(old(self)),
            final(self).memtables == old(self).memtables,
            moved(old(self).disk(), final(self).disk(), plain(old(self).dir@)),
            r matches Ok(false) ==> settled(
                final(self).version(),
                old(self).options.tier_fanout as nat,
            ) && final(self).manifest == old(self).manifest,
            r matches Ok(true) ==> manifest::newest_first(final(self).version().tiers).len()
                < manifest::newest_first(old(self).version().tiers).len(),
            r matches Ok(false) ==> final(self).storage == old(self).storage,
            !(r matches Ok(false)) ==> old(self).layout().tables() > 0,
            storage::used(old(self).disk(), final(self).disk(), 2),
            old(self).log().len() == 0 ==> {
                let fanout = old(self).options.tier_fanout as nat;
                &&& final(self).kept_contents(old(self))
                &&& old(self).good() && final(self).disk().room() && !final(self).disk().halted
                    && r is Ok ==> {
                    &&& final(self).layout().settled(fanout) == old(self).layout().settled(fanout)
                    &&& r->Ok_0 ==> final(self).layout().can_settle(fanout) || !old(
                        self,
                    ).layout().can_settle(fanout)
                }
                &&& old(self).good() && final(self).disk().room() && old(self).disk().reliable
                    && old(self).ids_free() ==> {
                    &&& r is Ok ==> final(self).layout().can_settle(fanout) == old(
                        self,
                    ).layout().can_settle(fanout)
                    &&& r matches Err(e) ==> is_limit(e) && !old(self).layout().can_settle(fanout)
                    &&& r is Ok ==> final(self).ids_free()
                }
            },
    {
        let ghost d0 = self.storage.disk();
        let ghost dir = plain(self.dir@);
        let ghost before = self.manifest;
        let ghost v = self.manifest.version();
        let ghost fanout = self.options.tier_fanout as nat;
        let ghost mem = self.memtables.layers();
        let ghost next = self.write@.next_seq;
        let done = compaction::maybe_compact(
            &mut self.storage,
            &mut self.manifest,
            self.options.tier_fanout,
        );
        let ghost d1 = self.storage.disk();
        proof {
            assert(moved(d0, d1, dir)) by {
                reveal(moved);
            }
            lemma_moved(d0, d1, dir);
            if d1.room() && !d1.halted {
                lemma_moved_log(d0, d1, dir, &self.wal);
            }
            if !(done matches Ok(false)) {
                let t0 = choose|t: int| 0 <= t < v.tiers.len() && (#[trigger] v.tiers[t]).len() >= fanout;
                let k = tables::lemma_placed(v.tiers, t0, 0);
            }
            if !(done matches Ok(false)) && old(self).good() && old(self).log().len() == 0
                && d1.room() {
                let t0 = choose|t: int| 0 <= t < v.tiers.len() && (#[trigger] v.tiers[t]).len() >= fanout;
                let t = lemma_full_tier(v, fanout, t0);
                state::lemma_order_version(d0.fs, dir, v, mem, self.wal.records(), next);
                layout::lemma_compactable(d0.fs, dir, v, t);
                old(self).layout().lemma_settle_next(fanout, t);
                if done is Ok && !d1.halted {
                    layout::lemma_compacted(d0.fs, d1.fs, dir, v, t, self.manifest.version());
                }
                assert(self.wal.records() =~= Seq::empty());
                let v2 = if !d1.halted {
                    self.manifest.version()
                } else {
                    choose|v2: VersionView| #[trigger]
                        compaction::stepped(d0.fs, d1.fs, dir, v, t, v2)
                };
                lemma_compaction_step(
                    d0,
                    d1,
                    dir,
                    v,
                    t,
                    v2,
                    mem,
                    &self.wal,
                    next,
                    self.readers@,
                );
                let alive0 = before.alive();
                let kept = self.manifest.alive();
                if !d1.halted && done is Ok && old(self).ids_free() {
                    assert forall|i: int| 1 <= i < kept.len() implies alive0.contains(
                        #[trigger] kept[i],
                    ) by {
                        assert(self.manifest.retained()[i - 1] == kept[i]);
                    }
                    assert forall|id: u64| #[trigger] kept[0].references(id) implies id
                        < kept[0].next_table_id by {
                        state::lemma_order_version(
                            d1.fs,
                            dir,
                            v2,
                            mem,
                            self.wal.records(),
                            next,
                        );
                        tables::lemma_referenced_below(d1.fs, dir, v2, id);
                    }
                    lemma_ids_ahead(d1.fs, dir, alive0, kept);
                }
            }
        }
        match done {
            Ok(b) => Ok(b),
            Err(e) => Err(DbError::Compaction(e)),
        }
    }

    /// Compacts until no tier is over the fanout.
    fn compact_all(&mut self) -> (r: Result<()>)
        requires
            old(self).whole(),
        ensures
            final(self).whole(),
            final(self).same_but_tables(old(self)),
            final(self).memtables == old(self).memtables,
            moved(old(self).disk(), final(self).disk(), plain(old(self).dir@)),
            r is Ok ==> settled(final(self).version(), old(self).options.tier_fanout as nat),
            storage::used(
                old(self).disk(),
                final(self).disk(),
                2 * old(self).layout().tables(),
            ),
            old(self).log().len() == 0 ==> {
                let fanout = old(self).options.tier_fanout as nat;
                &&& final(self).kept_contents(old(self))
                &&& old(self).good() && final(self).disk().room() && !final(self).disk().halted
                    && r is Ok ==> final(self).layout() == old(self).layout().settled(fanout)
                &&& old(self).good() && final(self).disk().room() && old(self).disk().reliable
                    && old(self).ids_free() ==> {
                    &&& r is Ok <==> old(self).layout().can_settle(fanout)
                    &&& r matches Err(e) ==> is_limit(e)
                    &&& r is Ok ==> final(self).ids_free()
                }
            },
    {
        let ghost start = *self;
        let ghost fanout = self.options.tier_fanout as nat;
        proof {
            lemma_moved_refl(self.storage.disk(), plain(self.dir@));
        }
        loop
            invariant
                start == *old(self),
                self.whole(),
                self.same_but_tables(&start),
                self.memtables == start.memtables,
                moved(start.disk(), self.disk(), plain(start.dir@)),
                start.log().len() == 0 ==> self.kept_contents(&start),
                start.log().len() == 0 && start.good() && self.disk().room()
                    && start.disk().reliable && start.ids_free() ==> self.ids_free()
                    && self.layout().can_settle(fanout) == start.layout().can_settle(fanout),
                fanout == start.options.tier_fanout,
                start.log().len() == 0 && start.good() && self.disk().room()
                    && !self.disk().halted ==> self.layout().settled(fanout)
                    == start.layout().settled(fanout),
                storage::used(
                    start.disk(),
                    self.disk(),
                    (2 * (start.layout().tables() - self.layout().tables())) as nat,
                ),
                self.layout().tables() <= start.layout().tables(),
            decreases manifest::newest_first(self.version().tiers).len(),
        {
            let ghost before = *self;
            let done = self.compact_once();
            proof {
                lemma_moved_trans(start.disk(), before.disk(), self.disk(), plain(start.dir@));
                lemma_moved(start.disk(), before.disk(), plain(start.dir@));
                lemma_moved(before.disk(), self.disk(), plain(start.dir@));
                if start.log().len() == 0 {
                    Self::lemma_kept_trans(&start, &before, self);
                }
            }
            match done {
                Ok(true) => {},
                Ok(false) => {
                    return Ok(());
                },
                Err(e) => {
                    return Err(e);
                },
            }
        }
    }
}

impl<S: Storage> Db<S> {
    /// What a flush makes of the database, in success, failure or a power loss.
    pub open spec fn flush_outcome(&self, before: &Self, r: Result<()>) -> bool {
        &&& self.home() == before.home()
        &&& self.settings() == before.settings()
        &&& self.next_seq() == before.next_seq()
        &&& self.disk().reliable == before.disk().reliable
        &&& self.disk().room() ==> before.disk().room()
        &&& self.disk().room() && before.disk().halted ==> self.disk().halted && self.disk().fs
            == before.disk().fs && r is Err
        &&& before.good() && self.disk().room() ==> {
            &&& !self.disk().halted ==> self.good() && self.contents() == before.contents()
            &&& !self.disk().halted ==> before.last_segment() <= self.last_segment()
                <= before.last_segment() + 1
            &&& !self.disk().halted && before.is_safe() ==> self.is_safe()
            &&& !self.disk().halted && before.is_anchored() ==> self.is_anchored()
            &&& self.disk().halted ==> !before.disk().reliable
            &&& self.disk().halted && before.is_safe() ==> state::recovers_to(
                self.disk().fs,
                before.home(),
                before.contents(),
            )
            &&& !self.disk().halted && r is Ok ==> {
                &&& self.active().len() == 0
                &&& self.frozen_tables() == 0
                &&& self.log().len() == 0
                &&& self.is_safe()
                &&& settled(self.version(), before.settings().tier_fanout as nat)
                &&& self.layout() == before.layout().absorbed(
                    before.pending(),
                    before.next_seq(),
                    before.settings().tier_fanout as nat,
                )
            }
            &&& before.disk().reliable && before.ids_free() ==> {
                &&& r is Ok <==> before.has_segment_id() && before.can_absorb()
                &&& r matches Err(e) ==> is_limit(e) || !before.has_segment_id()
                &&& r is Ok ==> self.ids_free()
            }
        }
        &&& storage::used(before.disk(), self.disk(), before.files_to_flush())
        &&& self.disk().room() ==> self.log_kept(before) || self.log_released(before)
    }

    /// What a call of [`flush`](Db::flush) makes of the database: nothing if nothing is
    /// buffered, and otherwise what a flush does.
    pub open spec fn flush_done(&self, before: &Self, r: Result<()>) -> bool {
        &&& before.pending().len() == 0 ==> r is Ok && *self == *before
        &&& before.pending().len() > 0 ==> self.flush_outcome(before, r)
    }

    /// Forces the active memtable to freeze and flush to a table in tier 0, then
    /// cascades compaction. A no-op if there is nothing buffered.
    pub fn flush(&mut self) -> (r: Result<()>)
        requires
            old(self).inv(),
            old(self).next_seq() < u64::MAX,
        ensures
            final(self).inv(),
            final(self).flush_done(old(self), r),
    {
        proof {
            lemma_footprint_empty(self.memtables.buffered());
        }
        if self.memtables.active_bytes() == 0 && self.memtables.frozen_count() == 0 {
            return Ok(());
        }
        self.flush_locked()
    }

    /// Blocks new writes, waits until none is under way, and flushes.
    fn flush_locked(&mut self) -> (r: Result<()>)
        requires
            old(self).inv(),
            old(self).next_seq() < u64::MAX,
        ensures
            final(self).inv(),
            final(self).flush_outcome(old(self), r),
    {
        self.write.begin_flush();
        let ghost before = *self;
        proof {
            assert(before.good() == old(self).good());
            assert(before.contents() == old(self).contents());
        }
        let r = self.flush_quiesced();
        let ghost mid = *self;
        self.write.end_flush();
        proof {
            assert(self.good() == mid.good());
            assert(self.contents() == mid.contents());
        }
        r
    }

    /// The flush itself: every frozen table becomes a table in tier 0, the log is
    /// released, and compaction runs.
    fn flush_quiesced(&mut self) -> (r: Result<()>)
        requires
            old(self).whole(),
            old(self).next_seq() < u64::MAX,
        ensures
            final(self).whole(),
            final(self).write == old(self).write,
            final(self).flush_outcome(old(self), r),
    {
        let ghost s0 = *self;
        self.freeze_active();
        let ghost s1 = *self;
        let flushed = self.flush_frozen();
        let ghost s2 = *self;
        proof {
            lemma_moved(s1.disk(), s2.disk(), plain(s0.dir@));
            Self::lemma_kept_trans(&s0, &s1, &s2);
        }
        match flushed {
            Ok(_) => {},
            Err(e) => {
                return Err(e);
            },
        }
        let released = self.release_log();
        let ghost s3 = *self;
        proof {
            Self::lemma_kept_trans(&s0, &s2, &s3);
        }
        match released {
            Ok(_) => {},
            Err(e) => {
                return Err(e);
            },
        }
        let compacted = self.compact_all();
        proof {
            lemma_moved(s3.disk(), self.disk(), plain(s0.dir@));
            if s3.disk().room() && !s3.disk().halted {
                Self::lemma_kept_trans(&s0, &s3, self);
            }
        }
        compacted
    }
}

/// What a power loss during an append leaves is the log as it was, or with the
/// record.
proof fn lemma_left_one(fs: FsState, dir: Seq<u8>, records: Seq<Seq<u8>>, bytes: Seq<u8>)
    requires
        wal::left_log(fs, dir, records, records + seq![bytes]),
    ensures
        recovery::log_says(fs, dir, records) || recovery::log_says(
            fs,
            dir,
            records.push(bytes),
        ),
{
    let hi = records + seq![bytes];
    let files = choose|files: Seq<(u64, Seq<u8>)>|
        {
            &&& #[trigger] recovery::log_stable(fs, dir, files)
            &&& files.len() > 0
            &&& recovery::is_prefix(records, recovery::replay(files).records)
            &&& recovery::is_prefix(recovery::replay(files).records, hi)
        };
    let found = recovery::replay(files).records;
    if found.len() == records.len() {
        assert(found =~= records);
    } else {
        assert(found =~= records.push(bytes));
    }
}

/// A log that has all of `records` and nothing more says `records`.
proof fn lemma_left_all(fs: FsState, dir: Seq<u8>, records: Seq<Seq<u8>>)
    requires
        wal::left_log(fs, dir, records, records),
    ensures
        recovery::log_says(fs, dir, records),
{
    let files = choose|files: Seq<(u64, Seq<u8>)>|
        {
            &&& #[trigger] recovery::log_stable(fs, dir, files)
            &&& files.len() > 0
            &&& recovery::is_prefix(records, recovery::replay(files).records)
            &&& recovery::is_prefix(recovery::replay(files).records, records)
        };
    assert(recovery::replay(files).records =~= records);
}

/// What a power loss during a write leaves recovers to the contents before it or
/// after it, as the log says.
proof fn lemma_write_recovers(
    pre: FsState,
    post: FsState,
    dir: Seq<u8>,
    v: VersionView,
    buf: Seq<Rec>,
    rest: Seq<Seq<Rec>>,
    records: Seq<Seq<u8>>,
    r: Rec,
)
    requires
        facts::sound(pre),
        facts::keeps(pre, post, recovery::log_names(dir)),
        state::in_order(pre, dir, v, seq![buf] + rest, records, r.seq),
        r.seq < u64::MAX,
        record::write_fits(r.key, r.val),
        model::is_run(buf),
    ensures
        ({
            let m = model::contents((seq![buf] + rest) + tables::stack_of(pre, dir, v));
            &&& recovery::log_says(post, dir, records) ==> state::recovers_to(post, dir, m)
            &&& recovery::log_says(post, dir, records.push(record::record_bytes(r)))
                ==> state::recovers_to(post, dir, state::written(m, r.key, r.val))
        }),
{
    let names = recovery::log_names(dir);
    let mem = seq![buf] + rest;
    state::lemma_log_names_apart(dir);
    state::lemma_order_kept(pre, post, names, dir, v, mem, records, r.seq);
    if recovery::log_says(post, dir, records) {
        let files = choose|files: Seq<(u64, Seq<u8>)>| #[trigger]
            recovery::log_stable(post, dir, files) && recovery::replay(files).records == records;
        state::lemma_order_holds(post, dir, v, mem, files, r.seq);
    }
    let longer = records.push(record::record_bytes(r));
    if recovery::log_says(post, dir, longer) {
        let files = choose|files: Seq<(u64, Seq<u8>)>| #[trigger]
            recovery::log_stable(post, dir, files) && recovery::replay(files).records == longer;
        let more = memtable::lemma_with(buf, r);
        state::lemma_order_put(post, dir, v, buf, more, rest, records, r);
        state::lemma_order_holds(post, dir, v, seq![more] + rest, files, (r.seq + 1) as u64);
    }
}

/// The record of a write.
pub open spec fn write_record(key: Seq<u8>, seq: u64, val: Option<Seq<u8>>) -> Rec {
    Rec { key, seq, val }
}

/// The log gives away a flipped bit in the record of this write.
pub open spec fn write_evident(key: Seq<u8>, seq: u64, val: Option<Seq<u8>>) -> bool {
    wal::all_evident(seq![record::record_bytes(write_record(key, seq, val))])
}

impl<S: Storage> Db<S> {
    /// What a write makes of the database, in success, failure or a power loss.
    ///
    /// While the backend works, the write is done, whatever is returned: it fails
    /// only when the memtable was full and the flush failed. When the log does not take
    /// the record, the error is the backend's, and memory and tables are as they were.
    /// When power is lost during the write in a durable mode, recovery finds the contents
    /// before the write or after it, and if success was returned, those after it.
    pub open spec fn write_outcome(
        &self,
        before: &Self,
        key: Seq<u8>,
        val: Option<Seq<u8>>,
        r: Result<()>,
    ) -> bool {
        let m = before.contents();
        let n = state::written(m, key, val);
        let durable = before.settings().durability.durable();
        let rec = write_record(key, before.next_seq(), val);
        &&& self.home() == before.home()
        &&& self.settings() == before.settings()
        &&& self.next_seq() == before.next_seq() + 1
        &&& self.disk().reliable == before.disk().reliable
        &&& self.disk().room() ==> before.disk().room()
        &&& storage::used(before.disk(), self.disk(), before.files_to_write())
        &&& self.disk().room() && before.disk().halted ==> self.disk().halted && self.disk().fs
            == before.disk().fs && self.log_kept(before)
        &&& self.disk().room() && self.log_kept(before) ==> (r matches Err(DbError::Storage(_)))
            && self.untouched(before)
        &&& before.good() && !before.filled_by(seq![rec]) ==> storage::used(
            before.disk(),
            self.disk(),
            1,
        )
        &&& before.good() && self.disk().room() ==> {
            &&& !before.filled_by(seq![rec]) && r is Err ==> self.log_kept(before)
            &&& !self.disk().halted ==> {
                &&& self.good()
                &&& self.contents() == n
                &&& self.took(before, seq![rec], r is Ok)
                &&& before.last_segment() <= self.last_segment() <= before.last_segment()
                    + before.segments_to_write(seq![rec])
                &&& durable && before.is_anchored() ==> self.is_safe()
                &&& before.is_anchored() ==> self.is_anchored()
                &&& memtable::footprint(before.active()) + key.len() + memtable::payload_len(val)
                    + 32 <= before.settings().memtable_size ==> r is Ok
            }
            &&& self.disk().halted ==> !before.disk().reliable
            &&& self.disk().halted && durable && before.is_safe() && write_evident(
                key,
                before.next_seq(),
                val,
            ) ==> {
                &&& state::recovers_to(self.disk().fs, before.home(), m) || state::recovers_to(
                    self.disk().fs,
                    before.home(),
                    n,
                )
                &&& r is Ok ==> state::recovers_to(self.disk().fs, before.home(), n)
            }
            &&& before.disk().reliable && before.ids_free() ==> {
                &&& r matches Err(e) ==> is_limit(e) || !before.has_segment_ids()
                &&& r is Ok ==> self.ids_free()
            }
        }
    }

    /// Whether a [`put`](Db::put) can be taken: its record fits into the log, and
    /// sequence numbers are left.
    pub fn can_put(&self, key: &[u8], value: &[u8]) -> (r: bool)
        ensures
            r == (self.next_seq() + 1 < u64::MAX && record::write_fits(key@, Some(value@))),
    {
        self.write.next_seq() < u64::MAX - 1 && key.len() as u128 + value.len() as u128 + 17
            <= u32::MAX as u128
    }

    /// Whether a [`delete`](Db::delete) can be taken: its record fits into the log, and
    /// sequence numbers are left.
    pub fn can_delete(&self, key: &[u8]) -> (r: bool)
        ensures
            r == (self.next_seq() + 1 < u64::MAX && record::write_fits(key@, None)),
    {
        self.write.next_seq() < u64::MAX - 1 && key.len() as u128 + 13 <= u32::MAX as u128
    }

    /// Whether a flush can be taken: a sequence number is left.
    pub fn can_flush(&self) -> (r: bool)
        ensures
            r == (self.next_seq() < u64::MAX),
    {
        self.write.next_seq() < u64::MAX
    }

    /// Inserts or overwrites `key` with `value`. Returns only once the configured
    /// durability contract is met.
    pub fn put(&mut self, key: &[u8], value: &[u8]) -> (r: Result<()>)
        requires
            old(self).inv(),
            old(self).next_seq() + 1 < u64::MAX,
            record::write_fits(key@, Some(value@)),
        ensures
            final(self).inv(),
            final(self).write_outcome(old(self), key@, Some(value@), r),
    {
        self.write(key, ValueKind::Value(codec::copied(value)))
    }

    /// Deletes `key` by writing a tombstone. Returns only once the configured
    /// durability contract is met.
    pub fn delete(&mut self, key: &[u8]) -> (r: Result<()>)
        requires
            old(self).inv(),
            old(self).next_seq() + 1 < u64::MAX,
            record::write_fits(key@, None),
        ensures
            final(self).inv(),
            final(self).write_outcome(old(self), key@, None, r),
    {
        self.write(key, ValueKind::Tombstone)
    }

    /// Appends the record of a write to the log.
    fn log_write(&mut self, seq: SeqNo, key: &[u8], kind: &ValueKind) -> (r: storage::StorageResult<
        (),
    >)
        requires
            old(self).whole(),
            old(self).write@.next_seq == seq + 1,
            old(self).wal.commits() <= seq,
            old(self).memtables.freezes() + (if old(self).memtables.buffered().len() > 0 {
                1int
            } else {
                0
            }) <= seq,
            record::write_fits(key@, kind@),
            seq < u64::MAX,
        ensures
            final(self).dir == old(self).dir,
            final(self).options == old(self).options,
            final(self).write == old(self).write,
            final(self).readers == old(self).readers,
            final(self).memtables == old(self).memtables,
            final(self).manifest == old(self).manifest,
            final(self).whole(),
            final(self).disk().reliable == old(self).disk().reliable,
            storage::used(old(self).disk(), final(self).disk(), 1),
            r is Err ==> final(self).log_kept(old(self)),
            r is Ok && final(self).disk().room() ==> final(self).log().len() == old(
                self,
            ).log().len() + 1 && old(self).last_segment() <= final(self).last_segment(),
            final(self).disk().room() ==> old(self).disk().room(),
            final(self).disk().room() && old(self).disk().halted ==> final(self).disk().halted
                && final(self).disk().fs == old(self).disk().fs && r is Err,
            final(self).disk().room() && final(self).disk().halted && !old(self).disk().halted
                ==> !old(self).disk().reliable,
            final(self).disk().room() && !final(self).disk().halted ==> r is Ok,
            old(self).logging(seq) && final(self).disk().room() ==> {
                let rec = write_record(key@, seq, kind@);
                let bytes = record::record_bytes(rec);
                let dir = plain(old(self).dir@);
                let v = old(self).manifest.version();
                let m = old(self).contents();
                let n = state::written(m, key@, kind@);
                let durable = old(self).options.durability.durable();
                &&& !final(self).disk().halted ==> {
                    &&& state::in_order(
                        final(self).disk().fs,
                        dir,
                        v,
                        old(self).memtables.layers(),
                        old(self).wal.records(),
                        seq,
                    )
                    &&& tables::stack_of(final(self).disk().fs, dir, v) == tables::stack_of(
                        old(self).disk().fs,
                        dir,
                        v,
                    )
                    &&& final(self).wal.records() == old(self).wal.records().push(bytes)
                    &&& cached(old(self).readers@, final(self).disk().fs, dir, v)
                    &&& durable && old(self).is_anchored() ==> final(self).wal.is_safe()
                    &&& old(self).is_anchored() ==> final(self).is_anchored()
                    &&& old(self).ids_free() ==> final(self).ids_free()
                    &&& old(self).last_segment() <= final(self).last_segment() <= old(
                        self,
                    ).last_segment() + 1
                }
                &&& final(self).disk().halted && durable && old(self).wal.is_safe()
                    && wal::all_evident(seq![bytes]) ==> {
                    &&& state::recovers_to(final(self).disk().fs, dir, m) || state::recovers_to(
                        final(self).disk().fs,
                        dir,
                        n,
                    )
                    &&& r is Ok ==> state::recovers_to(final(self).disk().fs, dir, n)
                }
            },
    {
        let ghost d0 = self.storage.disk();
        let ghost dir = plain(self.dir@);
        let ghost before = self.wal;
        let ghost v = self.manifest.version();
        let ghost mem = self.memtables.layers();
        let ghost rec = write_record(key@, seq, kind@);
        let bytes: Vec<u8> = record::encode_record(seq, key, kind);
        proof {
            record::lemma_record_round_trip(rec);
            self.memtables.lemma_inv();
            if d0.room() && !d0.halted {
                self.wal.lemma_inv(d0.fs);
            }
        }
        let appended = self.wal.append(&mut self.storage, &bytes);
        let ghost d1 = self.storage.disk();
        proof {
            let records = before.records();
            assert(records + seq![bytes@] =~= records.push(bytes@));
            if d1.room() && old(self).logging(seq) {
                if d1.halted {
                    lemma_write_recovers(
                        d0.fs,
                        d1.fs,
                        dir,
                        v,
                        self.memtables.buffered(),
                        memtable::newest_first(self.memtables.waiting()),
                        records,
                        rec,
                    );
                    if before.is_safe() && before.mode().durable() && wal::all_evident(
                        seq![bytes@],
                    ) {
                        lemma_left_one(d1.fs, dir, records, bytes@);
                        if appended is Ok {
                            lemma_left_all(d1.fs, dir, records.push(bytes@));
                        }
                    }
                } else {
                    assert(state::in_order(d1.fs, dir, v, mem, records, seq) && tables::stack_of(
                        d1.fs,
                        dir,
                        v,
                    ) == tables::stack_of(d0.fs, dir, v)) by {
                        state::lemma_log_names_apart(dir);
                        state::lemma_order_kept(
                            d0.fs,
                            d1.fs,
                            recovery::log_names(dir),
                            dir,
                            v,
                            mem,
                            records,
                            seq,
                        );
                    }
                    assert(tables::grown(d0.fs, d1.fs, dir, v, v)) by {
                        state::lemma_order_version(d0.fs, dir, v, mem, records, seq);
                        lemma_log_leaves_tables(d0.fs, d1.fs, dir, v);
                    }
                    lemma_cached(self.readers@, d0.fs, d1.fs, dir, v, v);
                    if old(self).ids_free() {
                        lemma_log_leaves_ids(d0.fs, d1.fs, dir, self.manifest.alive());
                    }
                }
            }
        }
        appended
    }

    /// As [`Db::good`], with `seq` as the next sequence number.
    spec fn logging(&self, seq: u64) -> bool {
        let d = self.storage.disk();
        &&& d.room()
        &&& !d.halted
        &&& state::in_order(
            d.fs,
            plain(self.dir@),
            self.manifest.version(),
            self.memtables.layers(),
            self.wal.records(),
            seq,
        )
        &&& filled(self.memtables.waiting())
        &&& cached(self.readers@, d.fs, plain(self.dir@), self.manifest.version())
    }

    /// The write path that `put` and `delete` share.
    fn write(&mut self, key: &[u8], kind: ValueKind) -> (r: Result<()>)
        requires
            old(self).inv(),
            old(self).next_seq() + 1 < u64::MAX,
            record::write_fits(key@, kind@),
        ensures
            final(self).inv(),
            final(self).write_outcome(old(self), key@, kind@, r),
    {
        let seq: u64 = match self.write.claim() {
            Some(seq) => seq,
            None => {
                assert(false);
                0
            },
        };
        let ghost claimed = *self;
        let ghost val = kind@;
        assert(claimed.logging(seq) == old(self).good());
        let logged = self.log_write(seq, key, &kind);
        let ghost d1 = self.storage.disk();
        self.write.settle();
        match logged {
            Ok(_) => {},
            Err(e) => {
                return Err(DbError::Storage(e));
            },
        }
        let ghost before = self.memtables;
        self.memtables.insert_if_newer(codec::copied(key), InternalValue { seq, kind });
        let ghost rec = write_record(key@, seq, val);
        proof {
            memtable::lemma_with_all(before.buffered(), Seq::empty(), rec);
            assert(Seq::<Rec>::empty().push(rec) =~= seq![rec]);
            if old(self).good() {
                let d0 = old(self).disk();
                let v = self.manifest.version();
                before.lemma_inv();
                state::lemma_order_version(
                    d0.fs,
                    plain(self.dir@),
                    v,
                    before.layers(),
                    claimed.wal.records(),
                    seq,
                );
                model::lemma_find(before.buffered(), key@);
                if let Some(prev) = model::find(before.buffered(), key@) {
                    let layers = before.layers() + tables::stack_of(d0.fs, plain(self.dir@), v);
                    let i = choose|i: int|
                        0 <= i < before.buffered().len() && #[trigger] before.buffered()[i] == prev;
                    assert(layers[0] == before.buffered());
                    assert(layers[0][i].seq < seq);
                }
            }
            if old(self).good() && d1.room() && !d1.halted {
                let dir = plain(self.dir@);
                let v = self.manifest.version();
                let rest = memtable::newest_first(before.waiting());
                let records = claimed.wal.records();
                before.lemma_inv();
                self.memtables.lemma_inv();
                state::lemma_order_put(
                    d1.fs,
                    dir,
                    v,
                    before.buffered(),
                    self.memtables.buffered(),
                    rest,
                    records,
                    rec,
                );
                assert(self.good());
                assert(self.contents() == state::written(old(self).contents(), key@, val));
            }
        }
        proof {
            let rest = memtable::newest_first(before.waiting());
            assert(self.memory().len() == old(self).memory().len());
            if old(self).good() {
                assert(self.memory() =~= old(self).memory_with(seq![rec]));
                if d1.room() && !d1.halted {
                    assert(self.layout() == old(self).layout());
                }
            }
        }
        if self.memtables.is_full() {
            let ghost mid = *self;
            let flushed = self.flush_locked();
            proof {
                assert(mid.pending().len() <= mid.memory().len());
                assert(mid.layout().tables() == old(self).layout().tables());
                lemma_footprint_empty(self.memtables.buffered());
            }
            return flushed;
        }
        Ok(())
    }
}

impl<S: Storage> Db<S> {
    /// The store works, and is far from every limit, also when it takes `n` more writes
    /// that memory is charged `bytes` for in all.
    pub open spec fn has_space(&self, n: nat, bytes: nat) -> bool {
        let tables = self.layout().tables() + self.memory().len() + n;
        &&& self.good()
        &&& self.disk().reliable
        &&& self.ids_free()
        &&& self.next_seq() + n < u64::MAX
        &&& self.last_segment() + 2 * n < u64::MAX
        &&& self.disk().spare > n * (2 + 4 * tables)
        &&& self.layout().is_small(
            self.memory().len() + n,
            layout::weight(self.memory()) + bytes,
        )
    }

    /// A store with space takes a write, whatever flush and compaction that causes, and has
    /// space for the others then.
    pub proof fn lemma_space(
        before: &Self,
        after: &Self,
        key: Seq<u8>,
        val: Option<Seq<u8>>,
        r: Result<()>,
        n: nat,
        bytes: nat,
    )
        requires
            before.inv(),
            before.has_space(n + 1, bytes + key.len() + memtable::payload_len(val) + 32),
            after.write_outcome(before, key, val, r),
        ensures
            r is Ok,
            after.has_space(n, bytes),
    {
        let rec = write_record(key, before.next_seq(), val);
        let recs = seq![rec];
        let fanout = before.settings().tier_fanout as nat;
        let charge = key.len() + memtable::payload_len(val) + 32;
        let mem = before.memory();
        let mem2 = before.memory_with(recs);
        let tables = before.layout().tables() + mem.len() + n + 1;
        before.lemma_memory();
        after.lemma_memory();
        before.memtables.lemma_inv();
        memtable::lemma_with_all(mem[0], Seq::empty(), rec);
        assert(Seq::<Rec>::empty().push(rec) =~= recs);
        memtable::lemma_footprint_with(mem[0], rec);
        layout::lemma_weight_update(mem, 0, mem2[0]);
        layout::lemma_pending_weight(mem2);
        let pending = layout::pending_of(mem2);
        let waiting = before.memtables.waiting();
        assert forall|i: int| 0 <= i < pending.len() implies (#[trigger] pending[i]).len() > 0 by {
            if i < waiting.len() {
                assert(waiting[i]@.len() > 0);
                assert(pending[i] == waiting[i]@);
            }
        }
        let left = (mem.len() + n + 1 - pending.len()) as nat;
        let spare = (layout::weight(mem) + bytes + charge - layout::weight(mem2)) as nat;
        before.layout().lemma_small_absorbs(
            pending,
            (before.next_seq() + 1) as u64,
            fanout,
            left,
            spare,
        );
        assert((n + 1) * (2 + 4 * tables) == n * (2 + 4 * tables) + (2 + 4 * tables))
            by (nonlinear_arith);
        assert(0 <= n * (2 + 4 * tables)) by (nonlinear_arith);
        assert(before.files_to_write() <= 2 + 4 * tables);
        assert(after.disk().room());
        assert(before.can_absorb_with(recs));
        assert(r is Ok);
        let now = after.layout().tables() + after.memory().len() + n;
        if before.filled_by(recs) {
            assert(after.memory().len() == 1);
            assert(after.memory() =~= seq![Seq::<Rec>::empty()]) by {
                assert(after.memory()[0].len() == 0);
                assert(after.memory()[0] =~= Seq::<Rec>::empty());
            }
            layout::lemma_weight_empty();
            assert(now <= tables);
        } else {
            assert(after.memory() == mem2);
            assert(now <= tables);
        }
        assert(n * (2 + 4 * now) <= n * (2 + 4 * tables)) by (nonlinear_arith)
            requires
                now <= tables,
        ;
    }
}

} // verus!
