//! Reading a database: lookups and scans.

use std::sync::Arc;

use vstd::prelude::*;

use super::state;
use super::{Db, DbError, Result};
use crate::compaction;
use crate::iter;
use crate::iter::{LiveIter, MergeIterator};
use crate::manifest;
use crate::manifest::{MetaView, TableMeta, Version, VersionView};
use crate::memtable;
use crate::memtable::{Entry, Memtable, ValueKind};
use crate::model;
use crate::model::Rec;
use crate::order;
use crate::range::{KeyRange, RangeView};
use crate::sstable;
use crate::sstable::reader;
use crate::sstable::table;
use crate::sstable::{Corruption, SsTableError, SsTableReader, Value};
use crate::storage::plain;
use crate::storage::{FsState, Storage};
use crate::tables;

verus! {

broadcast use vstd::std_specs::hash::group_hash_axioms;

/// A value that may be there.
pub open spec fn value_view(v: Option<Vec<u8>>) -> Option<Seq<u8>> {
    match v {
        Some(v) => Some(v@),
        None => None,
    }
}

/// What a map has for a key.
pub open spec fn lookup(m: Map<Seq<u8>, Seq<u8>>, key: Seq<u8>) -> Option<Seq<u8>> {
    if m.contains_key(key) {
        Some(m[key])
    } else {
        None
    }
}

/// The pairs are those of `m` whose keys are in `range`, each once, in ascending
/// order of keys.
pub open spec fn lists(
    pairs: Seq<(Seq<u8>, Seq<u8>)>,
    m: Map<Seq<u8>, Seq<u8>>,
    range: RangeView,
) -> bool {
    &&& forall|i: int, j: int|
        0 <= i < j < pairs.len() ==> order::lex_lt(
            (#[trigger] pairs[i]).0,
            (#[trigger] pairs[j]).0,
        )
    &&& forall|i: int|
        0 <= i < pairs.len() ==> {
            &&& range.has((#[trigger] pairs[i]).0)
            &&& m.contains_key(pairs[i].0)
            &&& m[pairs[i].0] == pairs[i].1
        }
    &&& forall|key: Seq<u8>| #[trigger]
        m.contains_key(key) && range.has(key) ==> exists|i: int|
            0 <= i < pairs.len() && (#[trigger] pairs[i]).0 == key
}

/// A read gives back the last write: the key written has what was written, and every
/// other key has what it had.
pub proof fn lemma_reads_writes(
    m: Map<Seq<u8>, Seq<u8>>,
    key: Seq<u8>,
    val: Option<Seq<u8>>,
    other: Seq<u8>,
)
    ensures
        lookup(state::written(m, key, val), key) == val,
        other != key ==> lookup(state::written(m, key, val), other) == lookup(m, other),
{
}

/// A scan and the lookups agree: the scan gives exactly the pairs whose keys are in the range
/// and have that value in a lookup, no key twice, in strictly ascending order.
pub proof fn lemma_scan_reads(
    pairs: Seq<(Seq<u8>, Seq<u8>)>,
    m: Map<Seq<u8>, Seq<u8>>,
    range: RangeView,
)
    requires
        lists(pairs, m, range),
    ensures
        forall|key: Seq<u8>, val: Seq<u8>| #[trigger]
            pairs.contains((key, val)) <==> range.has(key) && lookup(m, key) == Some(val),
        forall|i: int, j: int|
            0 <= i < j < pairs.len() ==> order::lex_lt(
                (#[trigger] pairs[i]).0,
                (#[trigger] pairs[j]).0,
            ) && pairs[i].0 != pairs[j].0,
{
    assert forall|key: Seq<u8>, val: Seq<u8>| #[trigger]
        pairs.contains((key, val)) <==> range.has(key) && lookup(m, key) == Some(val) by {
        if pairs.contains((key, val)) {
            let i = choose|i: int| 0 <= i < pairs.len() && pairs[i] == (key, val);
            assert(range.has(pairs[i].0));
        }
        if range.has(key) && lookup(m, key) == Some(val) {
            assert(m.contains_key(key));
            let i = choose|i: int| 0 <= i < pairs.len() && (#[trigger] pairs[i]).0 == key;
            assert(pairs[i] == (key, val));
        }
    }
    assert forall|i: int, j: int| 0 <= i < j < pairs.len() implies order::lex_lt(
        (#[trigger] pairs[i]).0,
        (#[trigger] pairs[j]).0,
    ) && pairs[i].0 != pairs[j].0 by {
        order::lemma_lex_irreflexive(pairs[i].0);
    }
}

/// A table does not hold a key that its range of keys does not span.
proof fn lemma_not_spanned(m: MetaView, recs: Seq<Rec>, key: Seq<u8>)
    requires
        tables::describes(m, recs),
        model::is_run(recs),
        !m.spans(key),
    ensures
        model::find(recs, key) is None,
{
    model::lemma_find(recs, key);
    if let Some(r) = model::find(recs, key) {
        let i = choose|i: int| 0 <= i < recs.len() && #[trigger] recs[i] == r;
        order::lemma_lex_irreflexive(key);
        if i > 0 {
            assert(order::lex_lt(recs[0].key, recs[i].key));
            order::lemma_lex_asymmetric(recs[0].key, key);
        }
        if i < recs.len() - 1 {
            assert(order::lex_lt(recs[i].key, recs[recs.len() - 1].key));
            order::lemma_lex_asymmetric(key, recs.last().key);
        }
        assert(false);
    }
}

/// A table of a good version can be read, and reads as what it holds.
proof fn lemma_table_ready(fs: FsState, dir: Seq<u8>, v: VersionView, k: int)
    requires
        tables::metas_good(fs, dir, v),
        0 <= k < manifest::newest_first(v.tiers).len(),
    ensures
        ({
            let m = manifest::newest_first(v.tiers)[k];
            let p = manifest::table_at(dir, m.id);
            let bytes = fs.content(p);
            let recs = tables::stack_of(fs, dir, v)[k];
            &&& m.id < v.next_table_id
            &&& v.references(m.id)
            &&& fs.live.contains_key(p)
            &&& table::opened(bytes) is Ok
            &&& tables::describes(m, recs)
            &&& forall|key: Seq<u8>| #[trigger]
                table::looked_up(bytes, table::opened(bytes)->Ok_0, key) == Ok::<
                    Option<Rec>,
                    Corruption,
                >(model::find(recs, key))
            &&& reader::collected(table::items_from(bytes, table::opened(bytes)->Ok_0.index, 0))
                == Ok::<Seq<Rec>, Corruption>(recs)
            &&& !reader::strays(bytes, table::opened(bytes)->Ok_0.index)
        }),
{
    let m = manifest::newest_first(v.tiers)[k];
    assert(tables::meta_good(fs, dir, m));
    tables::lemma_references(v, m.id);
    reader::lemma_table_reads(
        fs.content(manifest::table_at(dir, m.id)),
        tables::held_by(fs, dir, m),
    );
}

/// What the file of the table `m` describes says of `key`.
pub open spec fn table_says(
    fs: FsState,
    dir: Seq<u8>,
    m: MetaView,
    key: Seq<u8>,
) -> std::result::Result<Option<Rec>, Corruption> {
    let content = fs.content(manifest::table_at(dir, m.id));
    if !m.spans(key) {
        Ok(None)
    } else {
        match table::opened(content) {
            Err(c) => Err(c),
            Ok(t) => table::looked_up(content, t, key),
        }
    }
}

/// What the files of the tables say of `key`: what the first says that says anything, or is
/// corrupt.
pub open spec fn tables_say(
    fs: FsState,
    dir: Seq<u8>,
    metas: Seq<MetaView>,
    key: Seq<u8>,
) -> std::result::Result<Option<Rec>, Corruption>
    decreases metas.len(),
{
    if metas.len() == 0 {
        Ok(None)
    } else {
        match table_says(fs, dir, metas[0], key) {
            Ok(None) => tables_say(fs, dir, metas.drop_first(), key),
            said => said,
        }
    }
}

/// What the file of the table `m` describes holds.
pub open spec fn table_holds(fs: FsState, dir: Seq<u8>, m: MetaView) -> std::result::Result<
    Seq<Rec>,
    Corruption,
> {
    let content = fs.content(manifest::table_at(dir, m.id));
    match table::opened(content) {
        Err(c) => Err(c),
        Ok(t) => reader::collected(table::items_from(content, t.index, 0)),
    }
}

/// The files of the first `n` tables can be read to their ends.
pub open spec fn all_held(fs: FsState, dir: Seq<u8>, metas: Seq<MetaView>, n: int) -> bool {
    forall|k: int| 0 <= k < n ==> table_holds(fs, dir, #[trigger] metas[k]) is Ok
}

/// Of the tables, the first whose file is corrupt is corrupt in this way.
pub open spec fn first_corrupt(
    fs: FsState,
    dir: Seq<u8>,
    metas: Seq<MetaView>,
    c: Corruption,
) -> bool {
    exists|k: int|
        {
            &&& 0 <= k < metas.len()
            &&& table_holds(fs, dir, #[trigger] metas[k]) == Err::<Seq<Rec>, Corruption>(c)
            &&& all_held(fs, dir, metas, k)
        }
}

/// The file of the table `m` describes is not there, or ends before one of its blocks begins.
pub open spec fn is_lost(fs: FsState, dir: Seq<u8>, m: MetaView) -> bool {
    let p = manifest::table_at(dir, m.id);
    ||| !fs.live.contains_key(p)
    ||| table::opened(fs.content(p)) matches Ok(t) && reader::strays(fs.content(p), t.index)
}

/// The file of one of the tables is not there, or ends before one of its blocks begins.
pub open spec fn any_lost(fs: FsState, dir: Seq<u8>, metas: Seq<MetaView>) -> bool {
    exists|k: int| 0 <= k < metas.len() && is_lost(fs, dir, #[trigger] metas[k])
}

/// What a scan merges: of every layer what is in `range`, the active table first, then the
/// frozen ones from the oldest on, then the tables.
pub open spec fn scan_sources(
    memory: Seq<Seq<Rec>>,
    stack: Seq<Seq<Rec>>,
    range: RangeView,
) -> Seq<Seq<Rec>> {
    Seq::new(
        memory.len() + stack.len(),
        |i: int|
            clipped(
                if i == 0 {
                    memory[0]
                } else if i < memory.len() {
                    memory[memory.len() - i]
                } else {
                    stack[i - memory.len()]
                },
                range,
            ),
    )
}

/// The versions of a run whose keys are in `range`.
pub open spec fn clipped(run: Seq<Rec>, range: RangeView) -> Seq<Rec> {
    run.filter(|x: Rec| range.has(x.key))
}

/// The runs of a stack, each limited to `range`.
spec fn all_clipped(layers: Seq<Seq<Rec>>, range: RangeView) -> Seq<Seq<Rec>> {
    Seq::new(layers.len(), |i: int| clipped(layers[i], range))
}

/// A stack limited to a range is a stack, and says of the keys in the range what it
/// said before.
proof fn lemma_clipped(layers: Seq<Seq<Rec>>, range: RangeView)
    requires
        model::is_stack(layers),
    ensures
        model::is_stack(all_clipped(layers, range)),
        forall|key: Seq<u8>| #[trigger]
            model::top(all_clipped(layers, range), key) == if range.has(key) {
                model::top(layers, key)
            } else {
                None
            },
{
    let c = all_clipped(layers, range);
    assert forall|i: int, key: Seq<u8>|
        #![trigger model::find(c[i], key)]
        0 <= i < c.len() implies model::find(c[i], key) == if range.has(key) {
        model::find(layers[i], key)
    } else {
        None
    } by {
        model::lemma_filtered(layers[i], |x: Rec| range.has(x.key));
        model::lemma_find(layers[i], key);
    }
    assert forall|i: int| 0 <= i < c.len() implies model::is_run(#[trigger] c[i]) by {
        model::lemma_filtered(layers[i], |x: Rec| range.has(x.key));
    }
    assert forall|i: int, j: int, key: Seq<u8>|
        #![trigger model::find(c[i], key), model::find(c[j], key)]
        0 <= i < j < c.len() && model::find(c[i], key) is Some && model::find(c[j], key)
            is Some implies model::supersedes(
        model::find(c[i], key)->0,
        model::find(c[j], key)->0,
    ) by {
        assert(model::find(layers[i], key) is Some && model::find(layers[j], key) is Some);
    }
    assert forall|key: Seq<u8>| #[trigger] model::top(c, key) == if range.has(key) {
        model::top(layers, key)
    } else {
        None
    } by {
        model::lemma_top(layers, key);
        model::lemma_top(c, key);
        if range.has(key) {
            if let Some(r) = model::top(layers, key) {
                let i = choose|i: int|
                    0 <= i < layers.len() && #[trigger] model::find(layers[i], key) == Some(r)
                        && forall|j: int|
                        0 <= j < i ==> model::find(#[trigger] layers[j], key) is None;
                assert forall|j: int| 0 <= j < i implies model::find(#[trigger] c[j], key)
                    is None by {
                    assert(model::find(layers[j], key) is None);
                }
                assert(model::find(c[i], key) == Some(r));
                model::lemma_top_at(c, key, i);
            } else if let Some(r) = model::top(c, key) {
                let i = choose|i: int|
                    0 <= i < c.len() && #[trigger] model::find(c[i], key) == Some(r) && forall|j: int|
                        0 <= j < i ==> model::find(#[trigger] c[j], key) is None;
                assert(model::find(layers[i], key) is None);
            }
        }
    }
}

/// What a merge of the layers of a stack, each limited to `range` and the frozen ones
/// from the oldest on, lists.
proof fn lemma_scanned(
    sources: Seq<Seq<Rec>>,
    active: Seq<Rec>,
    waiting: Seq<Arc<Memtable>>,
    stack: Seq<Seq<Rec>>,
    range: RangeView,
)
    requires
        model::is_stack(seq![active] + memtable::newest_first(waiting) + stack),
        sources.len() == 1 + waiting.len() + stack.len(),
        sources[0] == clipped(active, range),
        forall|i: int|
            1 <= i <= waiting.len() ==> #[trigger] sources[i] == clipped(waiting[i - 1]@, range),
        forall|i: int|
            1 + waiting.len() <= i < sources.len() ==> #[trigger] sources[i] == clipped(
                stack[i - 1 - waiting.len()],
                range,
            ),
    ensures
        lists(
            iter::live_pairs(iter::merged(sources)),
            model::contents(seq![active] + memtable::newest_first(waiting) + stack),
            range,
        ),
{
    let layers = seq![active] + memtable::newest_first(waiting) + stack;
    let c = all_clipped(layers, range);
    let w = waiting.len() as int;
    lemma_clipped(layers, range);
    assert forall|i: int| 0 <= i < sources.len() implies c.contains(#[trigger] sources[i]) by {
        let k = if i == 0 || i > w {
            i
        } else {
            w + 1 - i
        };
        assert(c[k] == sources[i]);
    }
    assert forall|k: int| 0 <= k < c.len() implies sources.contains(#[trigger] c[k]) by {
        let i = if k == 0 || k > w {
            k
        } else {
            w + 1 - k
        };
        assert(sources[i] == c[k]);
    }
    assert forall|i: int| 0 <= i < sources.len() implies model::is_run(#[trigger] sources[i]) by {
        assert(c.contains(sources[i]));
        let k = choose|k: int| 0 <= k < c.len() && c[k] == sources[i];
        assert(model::is_run(c[k]));
    }
    iter::lemma_merged_stack(sources, c);
    let run = iter::merged(sources);
    iter::lemma_live_pairs(run);
    let pairs = iter::live_pairs(run);
    let m = model::contents(layers);
    assert forall|i: int| 0 <= i < pairs.len() implies range.has((#[trigger] pairs[i]).0)
        && m.contains_key(pairs[i].0) && m[pairs[i].0] == pairs[i].1 by {
        assert(model::find(run, pairs[i].0) == model::top(c, pairs[i].0));
    }
    assert forall|key: Seq<u8>| #[trigger]
        m.contains_key(key) && range.has(key) implies exists|i: int|
        0 <= i < pairs.len() && (#[trigger] pairs[i]).0 == key by {
        assert(model::find(run, key) == model::top(c, key));
    }
}

/// A stream over the live keys of a range, in ascending order.
pub struct Scan {
    inner: LiveIter,
}

impl View for Scan {
    type V = Seq<(Seq<u8>, Seq<u8>)>;

    /// The pairs that are left.
    closed spec fn view(&self) -> Seq<(Seq<u8>, Seq<u8>)> {
        self.inner@
    }
}

impl Scan {
    /// The next key and value.
    pub fn next(&mut self) -> (r: Option<(Vec<u8>, Vec<u8>)>)
        ensures
            match r {
                Some((k, v)) => old(self)@ == seq![(k@, v@)] + final(self)@,
                None => old(self)@.len() == 0 && final(self)@.len() == 0,
            },
    {
        self.inner.next()
    }

    /// Every pair that is left, in order.
    pub fn collect(self) -> (r: Vec<(Vec<u8>, Vec<u8>)>)
        ensures
            iter::pair_views(r@) == self@,
    {
        self.inner.collect()
    }
}

impl<S: Storage> Db<S> {
    /// Reading changed nothing but which tables are open.
    pub closed spec fn only_read(&self, before: &Self) -> bool {
        &&& self.storage == before.storage
        &&& self.dir == before.dir
        &&& self.options == before.options
        &&& self.wal == before.wal
        &&& self.memtables == before.memtables
        &&& self.manifest == before.manifest
        &&& self.write == before.write
        &&& before.good() ==> self.good()
        &&& before.in_step() ==> self.in_step()
    }

    /// What [`only_read`](Db::only_read) says.
    pub proof fn lemma_only_read(&self, before: &Self)
        requires
            self.only_read(before),
        ensures
            self.disk() == before.disk(),
            self.home() == before.home(),
            self.settings() == before.settings(),
            self.next_seq() == before.next_seq(),
            self.version() == before.version(),
            self.memory() == before.memory(),
            self.active() == before.active(),
            self.frozen_tables() == before.frozen_tables(),
            self.log() == before.log(),
            self.is_safe() == before.is_safe(),
            self.is_anchored() == before.is_anchored(),
            self.last_segment() == before.last_segment(),
            self.layout() == before.layout(),
            self.ids_free() == before.ids_free(),
            self.contents() == before.contents(),
            before.good() ==> self.good(),
            before.in_step() ==> self.in_step(),
    {
    }

    /// The open handle of the table `meta` describes, from the cache or newly
    /// opened.
    fn reader_for(&mut self, meta: &TableMeta) -> (r: Result<Arc<SsTableReader>>)
        requires
            old(self).inv(),
            old(self).version().references(meta.id),
        ensures
            final(self).inv(),
            final(self).only_read(old(self)),
            match r {
                Ok(t) => {
                    &&& t.inv()
                    &&& old(self).good() || old(self).in_step() ==> {
                        let p = manifest::table_at(old(self).home(), meta.id);
                        &&& t.location() == p
                        &&& table::opened(old(self).disk().fs.content(p)) == Ok::<
                            table::TableView,
                            Corruption,
                        >(t@)
                    }
                },
                Err(e) => {
                    let p = manifest::table_at(old(self).home(), meta.id);
                    &&& old(self).good() ==> !old(self).disk().reliable
                    &&& match e {
                        DbError::SsTable(SsTableError::Corrupt(c)) => table::opened(
                            old(self).disk().fs.content(p),
                        ) == Err::<table::TableView, Corruption>(c),
                        DbError::SsTable(SsTableError::Storage(_)) => !old(self).disk().reliable
                            || !old(self).disk().fs.live.contains_key(p),
                        _ => false,
                    }
                },
            },
    {
        let id: u64 = meta.id;
        let ghost fs = self.storage.disk().fs;
        let ghost v = self.manifest.version();
        let ghost p = manifest::table_at(plain(self.dir@), id);
        let ghost readers = self.readers@;
        if let Some(t) = self.readers.get(&id) {
            return Ok(Arc::clone(t));
        }
        proof {
            if self.good() {
                state::lemma_order_version(
                    fs,
                    plain(self.dir@),
                    v,
                    self.memtables.layers(),
                    self.wal.records(),
                    self.write@.next_seq,
                );
                tables::lemma_referenced_below(fs, plain(self.dir@), v, id);
                let k = choose|k: int|
                    0 <= k < manifest::newest_first(v.tiers).len() && (
                    #[trigger] manifest::newest_first(v.tiers)[k]).id == id;
                lemma_table_ready(fs, plain(self.dir@), v, k);
            }
        }
        let path = manifest::table_path(&self.dir, id);
        let t = match SsTableReader::open(&self.storage, &path) {
            Ok(t) => Arc::new(t),
            Err(e) => {
                return Err(DbError::SsTable(e));
            },
        };
        self.readers.insert(id, Arc::clone(&t));
        Ok(t)
    }

    /// What the table `meta` describes has for `key`.
    fn table_get(&mut self, meta: &TableMeta, key: &[u8]) -> (r: Result<Option<sstable::Entry>>)
        requires
            old(self).inv(),
            old(self).version().references(meta.id),
        ensures
            final(self).inv(),
            final(self).only_read(old(self)),
            r matches Err(e) ==> e is SsTable,
            old(self).in_step() ==> {
                let said = table_says(old(self).disk().fs, old(self).home(), meta@, key@);
                match r {
                    Ok(e) => said == Ok::<Option<Rec>, Corruption>(reader::found(e)),
                    Err(DbError::SsTable(SsTableError::Corrupt(c))) => said == Err::<
                        Option<Rec>,
                        Corruption,
                    >(c),
                    Err(DbError::SsTable(SsTableError::Storage(_))) => !old(self).disk().reliable
                        || is_lost(old(self).disk().fs, old(self).home(), meta@),
                    Err(_) => false,
                }
            },
            old(self).good() ==> forall|k: int|
                0 <= k < manifest::newest_first(old(self).version().tiers).len() && (
                #[trigger] manifest::newest_first(old(self).version().tiers)[k]) == meta@
                    ==> match r {
                    Ok(e) => reader::found(e) == model::find(
                        tables::stack_of(
                            old(self).disk().fs,
                            old(self).home(),
                            old(self).version(),
                        )[k],
                        key@,
                    ),
                    Err(_) => !old(self).disk().reliable,
                },
    {
        let ghost fs = self.storage.disk().fs;
        let ghost dir = plain(self.dir@);
        let ghost v = self.manifest.version();
        let ghost order = manifest::newest_first(v.tiers);
        let ghost stack = tables::stack_of(fs, dir, v);
        proof {
            if self.good() {
                state::lemma_order_version(
                    fs,
                    dir,
                    v,
                    self.memtables.layers(),
                    self.wal.records(),
                    self.write@.next_seq,
                );
                tables::lemma_good(fs, dir, v);
            }
        }
        if !meta.key_in_range(key) {
            proof {
                if self.good() {
                    assert forall|k: int|
                        0 <= k < order.len() && (#[trigger] order[k]) == meta@ implies model::find(
                        stack[k],
                        key@,
                    ) is None by {
                        lemma_table_ready(fs, dir, v, k);
                        assert(model::is_run(stack[k]));
                        lemma_not_spanned(meta@, stack[k], key@);
                    }
                }
            }
            return Ok(None);
        }
        let table = match self.reader_for(meta) {
            Ok(table) => table,
            Err(e) => {
                return Err(e);
            },
        };
        let found = table.get(&self.storage, key);
        proof {
            if old(self).good() {
                assert forall|k: int|
                    0 <= k < order.len() && (#[trigger] order[k]) == meta@ implies match found {
                    Ok(e) => reader::found(e) == model::find(stack[k], key@),
                    Err(_) => !old(self).disk().reliable,
                } by {
                    lemma_table_ready(fs, dir, v, k);
                }
            }
        }
        match found {
            Ok(e) => Ok(e),
            Err(e) => Err(DbError::SsTable(e)),
        }
    }

    /// The current value of `key`, or `None` if it is absent or deleted. Where the key is
    /// not in memory, the tables are asked from the newest on, and one that is corrupt fails
    /// the read.
    pub fn get(&mut self, key: &[u8]) -> (r: Result<Option<Vec<u8>>>)
        requires
            old(self).inv(),
        ensures
            final(self).inv(),
            final(self).only_read(old(self)),
            model::top(old(self).memory(), key@) is Some ==> r is Ok && value_view(r->Ok_0)
                == model::value_of(model::top(old(self).memory(), key@)),
            old(self).good() ==> match r {
                Ok(v) => value_view(v) == lookup(old(self).contents(), key@),
                Err(_) => !old(self).disk().reliable,
            },
            r matches Err(e) ==> e is SsTable,
            old(self).in_step() && model::top(old(self).memory(), key@) is None ==> {
                let fs = old(self).disk().fs;
                let metas = manifest::newest_first(old(self).version().tiers);
                let said = tables_say(fs, old(self).home(), metas, key@);
                match r {
                    Ok(v) => said is Ok && value_view(v) == model::value_of(said->Ok_0),
                    Err(DbError::SsTable(SsTableError::Corrupt(c))) => said == Err::<
                        Option<Rec>,
                        Corruption,
                    >(c),
                    Err(DbError::SsTable(SsTableError::Storage(_))) => !old(self).disk().reliable
                        || any_lost(fs, old(self).home(), metas),
                    Err(_) => false,
                }
            },
    {
        let ghost fs = self.storage.disk().fs;
        let ghost dir = plain(self.dir@);
        let ghost order = manifest::newest_first(self.manifest.version().tiers);
        let ghost v = self.manifest.version();
        let ghost memory = self.memtables.layers();
        let ghost stack = tables::stack_of(fs, plain(self.dir@), v);
        proof {
            model::lemma_top_concat(memory, stack, key@);
        }
        if let Some(found) = self.memtables.get(key) {
            return Ok(
                match found.kind {
                    ValueKind::Value(bytes) => Some(bytes),
                    ValueKind::Tombstone => None,
                },
            );
        }
        let metas = self.manifest.current().tables_newest_first();
        let mut i: usize = 0;
        assert(order.skip(0) =~= order);
        while i < metas.len()
            invariant
                i <= metas.len(),
                self.inv(),
                self.only_read(old(self)),
                fs == old(self).storage.disk().fs,
                dir == plain(old(self).dir@),
                v == old(self).manifest.version(),
                order == manifest::newest_first(v.tiers),
                old(self).in_step() ==> tables_say(fs, dir, order, key@) == tables_say(
                    fs,
                    dir,
                    order.skip(i as int),
                    key@,
                ),
                memory == old(self).memtables.layers(),
                stack == tables::stack_of(fs, plain(old(self).dir@), v),
                manifest::metas_of(metas@) == manifest::newest_first(v.tiers),
                model::top(memory, key@) is None,
                model::top(memory + stack, key@) == model::top(stack, key@),
                old(self).good() ==> forall|j: int|
                    0 <= j < i ==> model::find(#[trigger] stack[j], key@) is None,
            decreases metas.len() - i,
        {
            proof {
                assert(manifest::metas_of(metas@)[i as int] == metas[i as int]@);
                assert(manifest::newest_first(v.tiers)[i as int] == metas[i as int]@);
                tables::lemma_references(v, metas[i as int].id);
                assert(order.skip(i as int)[0] == metas[i as int]@);
                assert(order.skip(i as int).drop_first() =~= order.skip(i + 1));
                assert(order[i as int] == metas[i as int]@);
            }
            match self.table_get(&metas[i], key) {
                Ok(None) => {},
                Ok(Some(entry)) => {
                    proof {
                        if old(self).good() {
                            model::lemma_top_at(stack, key@, i as int);
                        }
                    }
                    return Ok(
                        match entry.value {
                            Value::Put(bytes) => Some(bytes),
                            Value::Delete => None,
                        },
                    );
                },
                Err(e) => {
                    return Err(e);
                },
            }
            i = i + 1;
        }
        proof {
            if old(self).good() {
                model::lemma_top(stack, key@);
            }
        }
        Ok(None)
    }

    /// The entries of the table `meta` describes whose keys are in `range`.
    fn table_range(&mut self, meta: &TableMeta, range: &KeyRange) -> (r: Result<Vec<Entry>>)
        requires
            old(self).inv(),
            old(self).version().references(meta.id),
        ensures
            final(self).inv(),
            final(self).only_read(old(self)),
            r matches Err(e) ==> e is SsTable,
            old(self).in_step() ==> {
                let held = table_holds(old(self).disk().fs, old(self).home(), meta@);
                match r {
                    Ok(v) => held is Ok && memtable::recs_of(v@) == clipped(held->Ok_0, range@),
                    Err(DbError::SsTable(SsTableError::Corrupt(c))) => held == Err::<
                        Seq<Rec>,
                        Corruption,
                    >(c),
                    Err(DbError::SsTable(SsTableError::Storage(_))) => !old(self).disk().reliable
                        || is_lost(old(self).disk().fs, old(self).home(), meta@),
                    Err(_) => false,
                }
            },
            old(self).good() ==> forall|k: int|
                0 <= k < manifest::newest_first(old(self).version().tiers).len() && (
                #[trigger] manifest::newest_first(old(self).version().tiers)[k]) == meta@
                    ==> match r {
                    Ok(v) => memtable::recs_of(v@) == clipped(
                        tables::stack_of(
                            old(self).disk().fs,
                            old(self).home(),
                            old(self).version(),
                        )[k],
                        range@,
                    ),
                    Err(_) => !old(self).disk().reliable,
                },
    {
        let ghost fs = self.storage.disk().fs;
        let ghost dir = plain(self.dir@);
        let ghost v = self.manifest.version();
        let ghost order = manifest::newest_first(v.tiers);
        let ghost stack = tables::stack_of(fs, dir, v);
        proof {
            if self.good() {
                state::lemma_order_version(
                    fs,
                    dir,
                    v,
                    self.memtables.layers(),
                    self.wal.records(),
                    self.write@.next_seq,
                );
            }
        }
        let table = match self.reader_for(meta) {
            Ok(table) => table,
            Err(e) => {
                return Err(e);
            },
        };
        let all = compaction::read_all_entries(&self.storage, &table);
        proof {
            if old(self).good() {
                assert forall|k: int|
                    0 <= k < order.len() && (#[trigger] order[k]) == meta@ implies match all {
                    Ok(found) => memtable::recs_of(found@) == stack[k],
                    Err(_) => !old(self).disk().reliable,
                } by {
                    lemma_table_ready(fs, dir, v, k);
                }
            }
        }
        match all {
            Ok(found) => Ok(memtable::within(&found, range)),
            Err(e) => Err(DbError::SsTable(e)),
        }
    }

    /// The live keys in `range` and their values, in ascending order of keys. The
    /// listing is of the moment of the call: later writes do not show in it.
    pub fn scan(&mut self, range: &KeyRange) -> (r: Result<Scan>)
        requires
            old(self).inv(),
            range@.in_order(),
        ensures
            final(self).inv(),
            final(self).only_read(old(self)),
            old(self).good() ==> match r {
                Ok(found) => lists(found@, old(self).contents(), range@),
                Err(_) => !old(self).disk().reliable,
            },
            r matches Err(e) ==> e is SsTable,
            old(self).in_step() ==> {
                let fs = old(self).disk().fs;
                let dir = old(self).home();
                let metas = manifest::newest_first(old(self).version().tiers);
                match r {
                    Ok(found) => all_held(fs, dir, metas, metas.len() as int) && found@
                        == iter::live_pairs(
                        iter::merged(
                            scan_sources(
                                old(self).memory(),
                                tables::stack_of(fs, dir, old(self).version()),
                                range@,
                            ),
                        ),
                    ),
                    Err(DbError::SsTable(SsTableError::Corrupt(c))) => first_corrupt(
                        fs,
                        dir,
                        metas,
                        c,
                    ),
                    Err(DbError::SsTable(SsTableError::Storage(_))) => !old(self).disk().reliable
                        || any_lost(fs, dir, metas),
                    Err(_) => false,
                }
            },
    {
        let ghost fs = self.storage.disk().fs;
        let ghost dir = plain(self.dir@);
        let ghost order = manifest::newest_first(self.manifest.version().tiers);
        let ghost v = self.manifest.version();
        let ghost active = self.memtables.buffered();
        let ghost waiting = self.memtables.waiting();
        let ghost stack = tables::stack_of(fs, plain(self.dir@), v);
        let mut sources = self.memtables.scan_iters(range);
        let metas = self.manifest.current().tables_newest_first();
        let mut i: usize = 0;
        while i < metas.len()
            invariant
                i <= metas.len(),
                self.inv(),
                self.only_read(old(self)),
                fs == old(self).storage.disk().fs,
                v == old(self).manifest.version(),
                dir == plain(old(self).dir@),
                order == manifest::newest_first(v.tiers),
                old(self).in_step() ==> all_held(fs, dir, order, i as int) && forall|j: int|
                    1 + waiting.len() <= j < sources@.len() ==> memtable::recs_of(
                        (#[trigger] sources@[j])@,
                    ) == clipped(stack[j - 1 - waiting.len()], range@),
                stack == tables::stack_of(fs, plain(old(self).dir@), v),
                manifest::metas_of(metas@) == manifest::newest_first(v.tiers),
                sources@.len() == 1 + waiting.len() + i,
                memtable::recs_of(sources@[0]@) == clipped(active, range@),
                forall|j: int|
                    1 <= j <= waiting.len() ==> memtable::recs_of((#[trigger] sources@[j])@)
                        == clipped(waiting[j - 1]@, range@),
                old(self).good() ==> forall|j: int|
                    1 + waiting.len() <= j < sources@.len() ==> memtable::recs_of(
                        (#[trigger] sources@[j])@,
                    ) == clipped(stack[j - 1 - waiting.len()], range@),
            decreases metas.len() - i,
        {
            proof {
                assert(manifest::metas_of(metas@)[i as int] == metas[i as int]@);
                assert(manifest::newest_first(v.tiers)[i as int] == metas[i as int]@);
                tables::lemma_references(v, metas[i as int].id);
                assert(order[i as int] == metas[i as int]@);
                assert(stack[i as int] == tables::held_by(fs, dir, order[i as int]));
            }
            let ghost mid = *self;
            let part = self.table_range(&metas[i], range);
            proof {
                if old(self).good() {
                    assert(mid.good());
                    assert(manifest::newest_first(mid.version().tiers)[i as int] == metas[i as int]@);
                    assert(tables::stack_of(mid.disk().fs, mid.home(), mid.version()) == stack);
                    assert(match part {
                        Ok(found) => memtable::recs_of(found@) == clipped(stack[i as int], range@),
                        Err(_) => !old(self).disk().reliable,
                    });
                }
            }
            match part {
                Ok(found) => {
                    sources.push(found);
                },
                Err(e) => {
                    return Err(e);
                },
            }
            i = i + 1;
        }
        let ghost runs = iter::source_recs(sources@);
        proof {
            if old(self).good() {
                state::lemma_order_version(
                    fs,
                    plain(old(self).dir@),
                    v,
                    old(self).memtables.layers(),
                    old(self).wal.records(),
                    old(self).write@.next_seq,
                );
                lemma_scanned(runs, active, waiting, stack, range@);
            }
            if old(self).in_step() {
                assert(runs =~= scan_sources(old(self).memory(), stack, range@));
            }
        }
        Ok(Scan { inner: MergeIterator::new(sources).live() })
    }

    /// The current version of the tables.
    pub fn debug_version(&self) -> (v: Arc<Version>)
        ensures
            v@ == self.version(),
    {
        self.manifest.current()
    }

    /// The backend.
    pub fn storage(&self) -> (s: &S)
        ensures
            s.disk() == self.disk(),
            self.inv() ==> s.wf(),
    {
        &self.storage
    }

    /// Closes the database and hands the backend back. Nothing is written: what is in
    /// memory is also in the log.
    pub fn into_storage(self) -> (s: S)
        ensures
            s.disk() == self.disk(),
            self.inv() ==> s.wf(),
    {
        self.storage
    }
}

/// What a lookup in the tables finds, from the newest on: each table that does not have the key
/// in its range of keys, or whose file says nothing of it, is passed over; the first other one
/// decides, and if that is corrupt so is the answer.
pub proof fn lemma_tables_decide(
    fs: FsState,
    dir: Seq<u8>,
    metas: Seq<MetaView>,
    key: Seq<u8>,
    k: int,
)
    requires
        0 <= k <= metas.len(),
        forall|j: int|
            0 <= j < k ==> ({
                let m = #[trigger] metas[j];
                let content = fs.content(manifest::table_at(dir, m.id));
                ||| !m.spans(key)
                ||| table::opened(content) matches Ok(t) && table::looked_up(content, t, key) == Ok::<
                    Option<Rec>,
                    Corruption,
                >(None)
            }),
        k < metas.len() ==> metas[k].spans(key),
    ensures
        k == metas.len() ==> tables_say(fs, dir, metas, key) == Ok::<Option<Rec>, Corruption>(None),
        k < metas.len() ==> ({
            let content = fs.content(manifest::table_at(dir, metas[k].id));
            match table::opened(content) {
                Err(c) => tables_say(fs, dir, metas, key) == Err::<Option<Rec>, Corruption>(c),
                Ok(t) => match table::looked_up(content, t, key) {
                    Err(c) => tables_say(fs, dir, metas, key) == Err::<Option<Rec>, Corruption>(c),
                    Ok(Some(r)) => tables_say(fs, dir, metas, key) == Ok::<Option<Rec>, Corruption>(
                        Some(r),
                    ),
                    Ok(None) => true,
                },
            }
        }),
    decreases k,
{
    if k > 0 {
        let rest = metas.drop_first();
        assert(table_says(fs, dir, metas[0], key) == Ok::<Option<Rec>, Corruption>(None));
        assert forall|j: int| 0 <= j < k - 1 implies ({
            let m = #[trigger] rest[j];
            let content = fs.content(manifest::table_at(dir, m.id));
            ||| !m.spans(key)
            ||| table::opened(content) matches Ok(t) && table::looked_up(content, t, key) == Ok::<
                Option<Rec>,
                Corruption,
            >(None)
        }) by {
            assert(rest[j] == metas[j + 1]);
        }
        lemma_tables_decide(fs, dir, rest, key, k - 1);
    }
}

/// What a scan reads of a table: nothing if its file does not open; otherwise its entries from
/// front to back, up to the first block that is corrupt, which makes the table so.
pub proof fn lemma_table_holds(fs: FsState, dir: Seq<u8>, m: MetaView, k: int)
    ensures
        ({
            let content = fs.content(manifest::table_at(dir, m.id));
            match table::opened(content) {
                Err(c) => table_holds(fs, dir, m) == Err::<Seq<Rec>, Corruption>(c),
                Ok(t) => {
                    let items = table::items_from(content, t.index, 0);
                    &&& (forall|i: int| 0 <= i < items.len() ==> (#[trigger] items[i]) is Ok)
                        ==> table_holds(fs, dir, m) is Ok && table_holds(fs, dir, m)->Ok_0
                        == Seq::new(items.len(), |i: int| items[i]->Ok_0)
                    &&& 0 <= k < items.len() && items[k] is Err && (forall|i: int|
                        0 <= i < k ==> (#[trigger] items[i]) is Ok) ==> table_holds(fs, dir, m)
                        == Err::<Seq<Rec>, Corruption>(items[k]->Err_0)
                },
            }
        }),
{
    let content = fs.content(manifest::table_at(dir, m.id));
    if let Ok(t) = table::opened(content) {
        reader::lemma_collects(table::items_from(content, t.index, 0), k);
    }
}

} // verus!
