//! The surface that the benchmark driver speaks, so that every engine runs the same
//! driver, the same workload and the same histogram.

use vstd::prelude::*;

use crate::codec;
use crate::db;
use crate::db::open;
use crate::db::read;
use crate::db::record;
use crate::db::{Db, DbError, Options};
use crate::iter;
use crate::memtable;
use crate::order;
use crate::range::{BoundView, KeyRange, RangeView};
use crate::storage::facts;
use crate::storage::plain;
use crate::storage::Storage;
use crate::wal::Durability;

verus! {

/// What a benchmarked engine reports when it fails.
#[derive(Debug)]
pub enum BenchError {
    /// Opening failed.
    Open(DbError),
    /// A write failed.
    Put(DbError),
    /// A lookup failed.
    Get(DbError),
    /// A scan failed.
    ScanRange(DbError),
    /// A flush failed.
    Flush(DbError),
    /// A point read gave another value than was written.
    Mismatch,
    /// A point read found nothing, though a value was written.
    Missing,
    /// The request is beyond what the engine takes.
    Refused,
    /// Another engine failed, as it says.
    Other(String),
}

/// The driver's result alias.
pub type BenchResult<T> = std::result::Result<T, BenchError>;

/// The keys from `start` up to but not including `end`.
pub open spec fn window(start: Seq<u8>, end: Seq<u8>) -> RangeView {
    RangeView { start: BoundView::Included(start), end: BoundView::Excluded(end) }
}

/// Keys and values in the order in which they are written.
pub type Writes = Seq<(Seq<u8>, Seq<u8>)>;

/// Keys with their values.
pub type Pairs = Map<Seq<u8>, Seq<u8>>;

/// `n` pairs of `m` have keys in `range`.
pub open spec fn tallies(m: Pairs, range: RangeView, n: nat) -> bool {
    exists|pairs: Seq<(Seq<u8>, Seq<u8>)>| #[trigger]
        read::lists(pairs, m, range) && n == pairs.len()
}

/// What memory is charged for the writes, at most.
pub open spec fn charge(writes: Writes) -> nat
    decreases writes.len(),
{
    if writes.len() == 0 {
        0
    } else {
        writes[0].0.len() + writes[0].1.len() + 32 + charge(writes.drop_first())
    }
}

/// The uniform surface the driver benchmarks against. `put` returns only once the
/// engine's durability contract for the configured mode is met.
pub trait KvBench: Sized {
    /// The engine can be used.
    spec fn ready(&self) -> bool;

    /// The engine's backend lost power or ran full.
    spec fn lost(&self) -> bool;

    /// What the engine holds is known.
    spec fn known(&self) -> bool;

    /// The engine answers every lookup, and every scan of a range that is in order.
    spec fn answers(&self) -> bool;

    /// The engine takes these writes, one after the other.
    spec fn takes(&self, writes: Writes) -> bool;

    /// The pairs that the engine holds, if that is known.
    spec fn pairs(&self) -> Pairs;

    /// Engine and durability, for the results table.
    fn label(&self) -> (r: String);

    /// Inserts or overwrites `key` with `value`.
    fn put(&mut self, key: &[u8], value: &[u8]) -> (r: BenchResult<()>)
        requires
            old(self).ready(),
        ensures
            final(self).ready(),
            !final(self).lost() ==> !old(self).lost(),
            forall|writes: Writes| #[trigger]
                old(self).takes(writes) && writes.len() > 0 && writes[0] == (key@, value@) ==> r
                    is Ok && final(self).takes(writes.drop_first()),
            old(self).known() && !final(self).lost() ==> {
                &&& final(self).known()
                &&& final(self).pairs() == old(self).pairs().insert(key@, value@) || (r is Err
                    && final(self).pairs() == old(self).pairs())
            },
    ;

    /// Looks up `key`.
    fn get(&mut self, key: &[u8]) -> (r: BenchResult<Option<Vec<u8>>>)
        requires
            old(self).ready(),
        ensures
            final(self).ready(),
            final(self).lost() == old(self).lost(),
            old(self).answers() ==> final(self).answers() && r is Ok,
            old(self).answers() ==> final(self).pairs() == old(self).pairs() && read::value_view(
                r->Ok_0,
            ) == read::lookup(old(self).pairs(), key@),
            old(self).known() ==> {
                &&& final(self).known()
                &&& final(self).pairs() == old(self).pairs()
                &&& r matches Ok(v) ==> read::value_view(v) == read::lookup(
                    old(self).pairs(),
                    key@,
                )
                &&& r matches Err(e) ==> !(e is Missing) && !(e is Mismatch)
            },
    ;

    /// Counts the live pairs from `start` up to but not including `end`.
    fn scan_count(&mut self, start: &[u8], end: &[u8]) -> (r: BenchResult<usize>)
        requires
            old(self).ready(),
        ensures
            final(self).ready(),
            final(self).lost() == old(self).lost(),
            old(self).answers() ==> final(self).answers(),
            old(self).answers() && !order::lex_lt(end@, start@) ==> r is Ok,
            old(self).known() ==> {
                &&& final(self).known()
                &&& final(self).pairs() == old(self).pairs()
                &&& r matches Ok(n) ==> tallies(old(self).pairs(), window(start@, end@), n as nat)
            },
    ;

    /// Brings what is buffered to a durable resting point.
    fn flush(&mut self) -> (r: BenchResult<()>)
        requires
            old(self).ready(),
        ensures
            final(self).ready(),
            !final(self).lost() ==> !old(self).lost(),
            old(self).known() && !final(self).lost() ==> {
                &&& final(self).known()
                &&& final(self).pairs() == old(self).pairs()
            },
    ;
}

/// This store, in a chosen [`Durability`] mode.
pub struct AccretionBench<S: Storage> {
    db: Db<S>,
    durability: Durability,
}

/// How many tables a tier of a benchmarked store takes.
const BENCH_FANOUT: usize = 4;

/// The options of a benchmarked store.
pub open spec fn bench_options(durability: Durability, memtable_size: usize) -> Options {
    Options { durability, memtable_size, tier_fanout: 4 }
}

impl<S: Storage> AccretionBench<S> {
    /// The database that is benchmarked.
    pub closed spec fn engine(&self) -> Db<S> {
        self.db
    }

    /// The durability mode.
    pub closed spec fn mode(&self) -> Durability {
        self.durability
    }

    /// The store works, and its memory takes these writes without a flush.
    pub open spec fn remembers(&self, writes: Writes) -> bool {
        let db = self.engine();
        &&& db.good()
        &&& db.disk().reliable
        &&& db.disk().spare > writes.len()
        &&& db.next_seq() + writes.len() < u64::MAX
        &&& memtable::footprint(db.active()) + charge(writes) <= db.settings().memtable_size
    }

    /// Opens a database in `dir` on the given backend.
    pub fn open_on(
        storage: S,
        dir: &[u8],
        durability: Durability,
        memtable_size: usize,
    ) -> (r: std::result::Result<Self, (BenchError, S)>)
        requires
            storage.wf(),
            storage.disk().dependable,
            storage.disk().room() ==> facts::sound(storage.disk().fs),
        ensures
            match r {
                Ok(b) => b.mode() == durability && open::open_outcome(
                    storage.disk(),
                    plain(dir@),
                    bench_options(durability, memtable_size),
                    Ok::<Db<S>, (DbError, S)>(b.engine()),
                ),
                Err((e, s)) => e is Open && open::open_outcome(
                    storage.disk(),
                    plain(dir@),
                    bench_options(durability, memtable_size),
                    Err::<Db<S>, (DbError, S)>((e->Open_0, s)),
                ),
            },
    {
        let options = Options { durability, memtable_size, tier_fanout: BENCH_FANOUT };
        match Db::open_on(storage, dir, options) {
            Ok(db) => Ok(AccretionBench { db, durability }),
            Err((e, storage)) => Err((BenchError::Open(e), storage)),
        }
    }
}

impl<S: Storage> KvBench for AccretionBench<S> {
    open spec fn ready(&self) -> bool {
        self.engine().inv()
    }

    open spec fn lost(&self) -> bool {
        self.engine().disk().halted || !self.engine().disk().room()
    }

    open spec fn known(&self) -> bool {
        self.engine().good()
    }

    open spec fn answers(&self) -> bool {
        self.engine().good() && self.engine().disk().reliable
    }

    open spec fn takes(&self, writes: Writes) -> bool {
        &&& forall|i: int|
            0 <= i < writes.len() ==> record::write_fits(
                (#[trigger] writes[i]).0,
                Some(writes[i].1),
            )
        &&& self.remembers(writes) || self.engine().has_space(writes.len(), charge(writes))
    }

    open spec fn pairs(&self) -> Pairs {
        self.engine().contents()
    }

    fn label(&self) -> (r: String)
        ensures
            r@ == match self.mode() {
                Durability::Always => "accretion-db/Always"@,
                Durability::GroupCommit => "accretion-db/GroupCommit"@,
                Durability::OsBuffered => "accretion-db/OsBuffered"@,
            },
    {
        match self.durability {
            Durability::Always => String::from_str("accretion-db/Always"),
            Durability::GroupCommit => String::from_str("accretion-db/GroupCommit"),
            Durability::OsBuffered => String::from_str("accretion-db/OsBuffered"),
        }
    }

    fn put(&mut self, key: &[u8], value: &[u8]) -> (r: BenchResult<()>)
        ensures
            (r is Err && r->Err_0 is Refused) <==> !(old(self).engine().next_seq() + 1 < u64::MAX
                && record::write_fits(key@, Some(value@))),
            r is Err && r->Err_0 is Refused ==> final(self).engine() == old(self).engine(),
            !(r is Err && r->Err_0 is Refused) ==> exists|done: db::Result<()>|
                {
                    &&& r is Ok <==> done is Ok
                    &&& r matches Err(e) ==> e == BenchError::Put(done->Err_0)
                    &&& #[trigger] final(self).engine().write_outcome(
                        &old(self).engine(),
                        key@,
                        Some(value@),
                        done,
                    )
                },
    {
        if !self.db.can_put(key, value) {
            return Err(BenchError::Refused);
        }
        let ghost before = self.db;
        let done = self.db.put(key, value);
        assert(self.db.write_outcome(&before, key@, Some(value@), done));
        proof {
            assert forall|writes: Writes| #[trigger]
                old(self).takes(writes) && writes.len() > 0 && writes[0] == (
                key@,
                value@,
            ) implies done is Ok && self.takes(writes.drop_first()) by {
                let rest = writes.drop_first();
                let rec = db::write_record(key@, before.next_seq(), Some(value@));
                before.lemma_good_works();
                if old(self).remembers(writes) {
                    before.lemma_takes(rec);
                } else {
                    Db::lemma_space(
                        &before,
                        &self.db,
                        key@,
                        Some(value@),
                        done,
                        rest.len(),
                        charge(rest),
                    );
                }
                assert forall|i: int| 0 <= i < rest.len() implies record::write_fits(
                    (#[trigger] rest[i]).0,
                    Some(rest[i].1),
                ) by {
                    assert(rest[i] == writes[i + 1]);
                }
                self.db.lemma_memory();
            }
            assert(self.engine().write_outcome(
                &old(self).engine(),
                key@,
                Some(value@),
                done,
            ));
        }
        match done {
            Ok(_) => Ok(()),
            Err(e) => Err(BenchError::Put(e)),
        }
    }

    fn get(&mut self, key: &[u8]) -> (r: BenchResult<Option<Vec<u8>>>)
        ensures
            final(self).engine().only_read(&old(self).engine()),
            old(self).engine().good() ==> match r {
                Ok(v) => read::value_view(v) == read::lookup(old(self).engine().contents(), key@),
                Err(_) => !old(self).engine().disk().reliable,
            },
    {
        let ghost before = self.db;
        let found = self.db.get(key);
        proof {
            self.db.lemma_only_read(&before);
        }
        match found {
            Ok(v) => Ok(v),
            Err(e) => Err(BenchError::Get(e)),
        }
    }

    fn scan_count(&mut self, start: &[u8], end: &[u8]) -> (r: BenchResult<usize>)
        ensures
            (r is Err && r->Err_0 is Refused) <==> order::lex_lt(end@, start@),
            final(self).engine() == old(self).engine() || final(self).engine().only_read(
                &old(self).engine(),
            ),
            old(self).engine().good() && !order::lex_lt(end@, start@) ==> match r {
                Ok(n) => tallies(old(self).engine().contents(), window(start@, end@), n as nat),
                Err(_) => !old(self).engine().disk().reliable,
            },
    {
        let range = KeyRange::half_open(codec::copied(start), codec::copied(end));
        if !range.is_in_order() {
            return Err(BenchError::Refused);
        }
        let ghost before = self.db;
        let scan = self.db.scan(&range);
        proof {
            self.db.lemma_only_read(&before);
        }
        match scan {
            Ok(found) => {
                let ghost pairs = found@;
                let all = found.collect();
                assert(all@.len() == iter::pair_views(all@).len());
                Ok(all.len())
            },
            Err(e) => Err(BenchError::ScanRange(e)),
        }
    }

    fn flush(&mut self) -> (r: BenchResult<()>)
        ensures
            (r is Err && r->Err_0 is Refused) <==> old(self).engine().next_seq() == u64::MAX,
            r is Err && r->Err_0 is Refused ==> final(self).engine() == old(self).engine(),
            !(r is Err && r->Err_0 is Refused) ==> exists|done: db::Result<()>|
                {
                    &&& r is Ok <==> done is Ok
                    &&& r matches Err(e) ==> e == BenchError::Flush(done->Err_0)
                    &&& #[trigger] final(self).engine().flush_done(
                        &old(self).engine(),
                        done,
                    )
                },
    {
        if !self.db.can_flush() {
            return Err(BenchError::Refused);
        }
        let ghost before = self.db;
        let done = self.db.flush();
        assert(self.db.flush_done(&before, done));
        match done {
            Ok(_) => Ok(()),
            Err(e) => Err(BenchError::Flush(e)),
        }
    }
}

/// What writes are charged: for each its key, its value and 32 bytes.
pub proof fn lemma_charge(writes: Writes, key: Seq<u8>, value: Seq<u8>)
    ensures
        charge(Seq::empty()) == 0,
        charge(seq![(key, value)] + writes) == key.len() + value.len() + 32 + charge(writes),
{
    let all = seq![(key, value)] + writes;
    assert(all.drop_first() =~= writes);
}

/// A store with space takes all writes that its log can hold.
pub proof fn lemma_takes<S: Storage>(b: &AccretionBench<S>, writes: Writes)
    requires
        b.engine().has_space(writes.len(), charge(writes)),
        forall|i: int|
            0 <= i < writes.len() ==> (#[trigger] writes[i]).0.len() + writes[i].1.len() + 17
                <= 0xffff_ffff,
    ensures
        b.takes(writes),
{
}

/// A store whose memory has room for the writes takes them, if its backend works.
pub proof fn lemma_remembers<S: Storage>(b: &AccretionBench<S>, writes: Writes)
    requires
        b.engine().good(),
        b.engine().disk().reliable,
        b.engine().disk().spare > writes.len(),
        b.engine().next_seq() + writes.len() < u64::MAX,
        memtable::footprint(b.engine().active()) + charge(writes)
            <= b.engine().settings().memtable_size,
        forall|i: int|
            0 <= i < writes.len() ==> (#[trigger] writes[i]).0.len() + writes[i].1.len() + 17
                <= 0xffff_ffff,
    ensures
        b.takes(writes),
{
}

/// What a count of pairs is: that of the keys in the range, each counted once. `keys` are some
/// keys, all different, that are those of the map in the range.
pub proof fn lemma_tallies(m: Pairs, range: RangeView, n: nat, keys: Seq<Seq<u8>>)
    requires
        tallies(m, range, n),
        keys.no_duplicates(),
        forall|key: Seq<u8>| #[trigger]
            keys.contains(key) <==> m.contains_key(key) && range.has(key),
    ensures
        n == keys.len(),
{
    let pairs = choose|pairs: Seq<(Seq<u8>, Seq<u8>)>| #[trigger]
        read::lists(pairs, m, range) && n == pairs.len();
    let found = Seq::new(pairs.len(), |i: int| pairs[i].0);
    assert(found.no_duplicates()) by {
        assert forall|i: int, j: int| 0 <= i < found.len() && 0 <= j < found.len() && i != j implies
            found[i] != found[j] by {
            order::lemma_lex_irreflexive(found[i]);
            if i < j {
                assert(order::lex_lt(pairs[i].0, pairs[j].0));
            } else {
                assert(order::lex_lt(pairs[j].0, pairs[i].0));
            }
        }
    }
    assert forall|key: Seq<u8>| #[trigger] found.contains(key) <==> keys.contains(key) by {
        if found.contains(key) {
            let i = choose|i: int| 0 <= i < found.len() && found[i] == key;
            assert(range.has(pairs[i].0));
        }
        if keys.contains(key) {
            assert(m.contains_key(key));
            let i = choose|i: int| 0 <= i < pairs.len() && (#[trigger] pairs[i]).0 == key;
            assert(found[i] == key);
        }
    }
    assert(found.to_set() =~= keys.to_set());
    found.unique_seq_to_set();
    keys.unique_seq_to_set();
}

} // verus!
