//! Size-tiered compaction, and writing tables.
//!
//! A memtable flush drops a fresh table into tier 0. When a tier has as many
//! tables as the fanout, they are merged into one that moves down to the next
//! tier. The merge keeps of every key the newest version. A tombstone is dropped
//! only when the tiers below are all empty: then nothing older is left that it
//! could shadow.

use std::sync::Arc;

use vstd::prelude::*;

use crate::iter;
use crate::iter::{EntrySource, MergeIterator};
use crate::manifest;
use crate::manifest::record;
use crate::manifest::{Manifest, ManifestError, MetaView, TableMeta, Version, VersionView};
use crate::memtable;
use crate::memtable::{Entry, InternalValue, ValueKind};
use crate::model;
use crate::model::Rec;
use crate::names;
use crate::sstable;
use crate::sstable::bloom;
use crate::sstable::builder;
use crate::sstable::reader;
use crate::sstable::table;
use crate::sstable::{
    Corruption, SsTableBuilder, SsTableError, SsTableReader, Value, ValueRef, DEFAULT_BITS_PER_KEY,
};
use crate::storage;
use crate::storage::facts;
use crate::storage::plain;
use crate::storage::{FileData, FilePath, FsState, PathView, Storage, StorageError};
use crate::tables;

verus! {

/// Errors produced during a flush or compaction.
#[derive(Debug)]
pub enum CompactionError {
    /// An error from the underlying storage backend.
    Storage(StorageError),
    /// An error building or reading a table.
    SsTable(SsTableError),
    /// An error installing the new manifest version.
    Manifest(ManifestError),
}

/// Result alias for compaction operations.
pub type Result<T> = std::result::Result<T, CompactionError>;

/// The error says that a limit of the file formats was reached.
pub open spec fn is_limit(e: CompactionError) -> bool {
    ||| e matches CompactionError::SsTable(SsTableError::TooLarge)
    ||| e matches CompactionError::Manifest(ManifestError::TooLarge)
}

/// The in-memory form of a stored value.
pub fn internal_of(seq: u64, value: Value) -> (r: InternalValue)
    ensures
        r@ == (seq, value@),
{
    match value {
        Value::Put(v) => InternalValue { seq, kind: ValueKind::Value(v) },
        Value::Delete => InternalValue { seq, kind: ValueKind::Tombstone },
    }
}

/// A value as the builder takes it.
fn value_ref(v: &InternalValue) -> (r: ValueRef<'_>)
    ensures
        r@ == v@.1,
{
    match &v.kind {
        ValueKind::Value(bytes) => ValueRef::Put(bytes),
        ValueKind::Tombstone => ValueRef::Delete,
    }
}

/// Reads an entire table into key-sorted entries.
pub fn read_all_entries<S: Storage>(fs: &S, table: &SsTableReader) -> (r: sstable::Result<
    Vec<Entry>,
>)
    requires
        fs.wf(),
        fs.disk().dependable,
    ensures
        ({
            let content = fs.disk().fs.content(table.location());
            let all = reader::collected(table::items_from(content, table@.index, 0));
            match r {
                Ok(v) => all == Ok::<Seq<Rec>, sstable::Corruption>(memtable::recs_of(v@)),
                Err(SsTableError::Corrupt(c)) => all == Err::<Seq<Rec>, sstable::Corruption>(c),
                Err(SsTableError::Storage(_)) => reader::may_fail(fs, table.location())
                    || reader::strays(content, table@.index),
                Err(_) => false,
            }
        }),
{
    let entries: Vec<sstable::Entry> = match table.entries(fs) {
        Ok(v) => v,
        Err(e) => {
            return Err(e);
        },
    };
    Ok(internal_entries(entries))
}

/// Stored entries in their in-memory form.
fn internal_entries(entries: Vec<sstable::Entry>) -> (out: Vec<Entry>)
    ensures
        memtable::recs_of(out@) == sstable::entry_recs(entries@),
{
    let mut out: Vec<Entry> = Vec::new();
    let mut i: usize = 0;
    let ghost recs = sstable::entry_recs(entries@);
    assert(memtable::recs_of(out@) =~= recs.take(0));
    while i < entries.len()
        invariant
            i <= entries@.len(),
            recs == sstable::entry_recs(entries@),
            memtable::recs_of(out@) == recs.take(i as int),
        decreases entries.len() - i,
    {
        let e: sstable::Entry = entries[i].clone();
        let ghost before = memtable::recs_of(out@);
        let ghost r = e@;
        out.push((e.key, internal_of(e.seq, e.value)));
        i = i + 1;
        assert(memtable::recs_of(out@) =~= before.push(r));
        assert(memtable::recs_of(out@) =~= recs.take(i as int));
    }
    assert(recs.take(recs.len() as int) =~= recs);
    out
}

/// How many keys a filter is sized for.
pub open spec fn sizing(expected_keys: nat) -> nat {
    if expected_keys > 1 {
        expected_keys
    } else {
        1
    }
}

/// The format can describe a table with these records and a filter sized for so
/// many keys.
pub open spec fn sized(recs: Seq<Rec>, expected_keys: nat) -> bool {
    let bits = bloom::bits_for(sizing(expected_keys), DEFAULT_BITS_PER_KEY as nat);
    &&& bits <= u32::MAX
    &&& recs.len() > 0 ==> forall|filter: bloom::BloomView|
        filter.wf() && filter.num_bits == bits ==> #[trigger] table::table_fits(recs, filter)
}

/// Where the format can describe a table, it can describe its beginning and one
/// entry more.
proof fn lemma_sized_accepts(recs: Seq<Rec>, filter: bloom::BloomView, i: int)
    requires
        table::table_fits(recs, filter),
        0 <= i < recs.len(),
    ensures
        builder::entry_accepted(recs.take(i), recs[i]),
{
    assert(recs.take(i).push(recs[i]) =~= recs.take(i + 1));
    table::lemma_layout_grows(recs, i + 1);
    assert(table::entry_fits(recs[i]));
}

/// The file at `p` is a table with these records, and its bytes are durable.
pub open spec fn table_written(fs: FsState, p: PathView, recs: Seq<Rec>) -> bool {
    exists|bytes: Seq<u8>| #[trigger]
        table::is_table(bytes, recs) && facts::visible(
            fs,
            p,
            FileData { live: bytes, synced: bytes },
        )
}

/// A table that [`write_table`] wrote reads back as what was written: it opens, says how
/// many entries it has, finds of every key what was written of it, and its cursor hands
/// out the entries, all of them and in order.
pub proof fn lemma_written_reads(fs: FsState, p: PathView, recs: Seq<Rec>)
    requires
        table_written(fs, p, recs),
    ensures
        fs.live.contains_key(p),
        table::opened(fs.content(p)) is Ok,
        ({
            let t = table::opened(fs.content(p))->Ok_0;
            &&& t.num_entries == recs.len()
            &&& forall|key: Seq<u8>| #[trigger]
                table::looked_up(fs.content(p), t, key) == Ok::<Option<Rec>, Corruption>(
                    model::find(recs, key),
                )
            &&& table::items_from(fs.content(p), t.index, 0) == table::good_items(recs)
            &&& reader::collected(table::items_from(fs.content(p), t.index, 0)) == Ok::<
                Seq<Rec>,
                Corruption,
            >(recs)
            &&& !reader::strays(fs.content(p), t.index)
        }),
{
    let bytes = choose|bytes: Seq<u8>| #[trigger]
        table::is_table(bytes, recs) && facts::visible(
            fs,
            p,
            FileData { live: bytes, synced: bytes },
        );
    reader::lemma_table_reads(bytes, recs);
}

/// Writes a sorted stream of entries, one version per key, to a new table at
/// `path`. `expected_keys` sizes the filter. An empty stream leaves an empty file
/// that is no table, and gives `None`.
pub fn write_table<S: Storage>(
    fs: &mut S,
    path: &FilePath,
    id: u64,
    expected_keys: usize,
    entries: Vec<Entry>,
) -> (r: Result<Option<TableMeta>>)
    requires
        old(fs).wf(),
        old(fs).disk().dependable,
        old(fs).disk().room() ==> facts::sound(old(fs).disk().fs),
    ensures
        final(fs).wf(),
        facts::carried(old(fs).disk(), final(fs).disk(), set![path@]),
        storage::used(old(fs).disk(), final(fs).disk(), 1),
        ({
            let recs = memtable::recs_of(entries@);
            let pre = old(fs).disk();
            let post = final(fs).disk();
            &&& r is Err ==> r->Err_0 is SsTable
            &&& r matches Err(CompactionError::SsTable(e)) ==> {
                &&& !(e is Corrupt)
                &&& e is Unsorted ==> !model::is_run(recs)
                &&& e is TooLarge ==> !sized(recs, expected_keys as nat)
                &&& e is Storage && post.room() && !post.halted ==> pre.fs.live.contains_key(path@)
            }
            &&& post.room() && !post.halted ==> (r is Ok <==> !pre.fs.live.contains_key(path@)
                && model::is_run(recs) && sized(recs, expected_keys as nat))
            &&& post.room() && pre.halted ==> r is Err
            &&& r matches Ok(None) ==> recs.len() == 0 && (post.room() && !post.halted ==> post.fs
                == pre.fs.created(path@))
            &&& recs.len() == 0 ==> !(r matches Ok(Some(_)))
            &&& r matches Ok(Some(m)) ==> {
                &&& m@.id == id
                &&& tables::describes(m@, recs)
                &&& recs.len() > 0
                &&& m@.num_entries == recs.len()
                &&& m@.first_key == recs[0].key
                &&& m@.last_key == recs[recs.len() - 1].key
                &&& post.room() && !post.halted ==> table_written(post.fs, path@, recs)
                &&& post.room() && !post.halted ==> exists|filter: bloom::BloomView|
                    {
                        &&& #[trigger] table::is_table_with(post.fs.content(path@), recs, filter)
                        &&& bloom::filters(filter, builder::keys_of(recs))
                        &&& filter.num_bits == bloom::bits_for(
                            if expected_keys > 1 {
                                expected_keys as nat
                            } else {
                                1
                            },
                            10,
                        )
                        &&& filter.num_hashes == bloom::hashes_for(
                            filter.num_bits as nat,
                            if expected_keys > 1 {
                                expected_keys as nat
                            } else {
                                1
                            },
                        )
                    }
            }
        }),
{
    let ghost recs = memtable::recs_of(entries@);
    let ghost t = set![path@];
    let ghost d0 = fs.disk();
    let keys: usize = if expected_keys > 1 {
        expected_keys
    } else {
        1
    };
    let mut b: SsTableBuilder = match SsTableBuilder::new(fs, path, keys, DEFAULT_BITS_PER_KEY) {
        Ok(b) => b,
        Err(e) => {
            return Err(CompactionError::SsTable(e));
        },
    };
    let ghost bits = bloom::bits_for(sizing(expected_keys as nat), DEFAULT_BITS_PER_KEY as nat);
    let mut i: usize = 0;
    assert(recs.take(0) =~= Seq::empty());
    while i < entries.len()
        invariant
            i <= entries@.len(),
            recs == memtable::recs_of(entries@),
            t == set![path@],
            fs.wf(),
            fs.disk().dependable,
            facts::carried(d0, fs.disk(), t),
            storage::used(d0, fs.disk(), 1),
            i == 0 && fs.disk().room() && !fs.disk().halted ==> fs.disk().fs == d0.fs.created(
                path@,
            ),
            d0 == old(fs).disk(),
            b.inv(),
            b.target() == path@,
            b.entries() == recs.take(i as int),
            b.filter().num_bits == bits,
            b.filter().num_hashes == bloom::hashes_for(bits, sizing(expected_keys as nat)),
            bits == bloom::bits_for(sizing(expected_keys as nat), DEFAULT_BITS_PER_KEY as nat),
            b.on(fs.disk()),
            fs.disk().room() ==> !d0.halted,
            d0.fs.live.contains_key(path@) ==> !(fs.disk().room() && !fs.disk().halted),
        decreases entries.len() - i,
    {
        let ghost d1 = fs.disk();
        let e = &entries[i];
        let ghost so_far = recs.take(i as int);
        assert(recs[i as int] == memtable::rec_of(*e));
        let added = b.add(fs, &e.0, e.1.seq, value_ref(&e.1));
        proof {
            facts::lemma_carried_trans(d0, d1, fs.disk(), t);
            b.lemma_inv();
            assert(builder::entry_of(e.0@, e.1.seq, e.1@.1) == recs[i as int]);
        }
        match added {
            Ok(_) => {
                assert(recs.take(i as int).push(recs[i as int]) =~= recs.take(i + 1));
            },
            Err(e) => {
                proof {
                    if e is Unsorted {
                        assert(!model::is_run(recs)) by {
                            assert(recs[i - 1] == so_far.last());
                            if model::is_run(recs) {
                                assert(crate::order::lex_lt(recs[i - 1].key, recs[i as int].key));
                            }
                        }
                    }
                    if e is TooLarge && sized(recs, expected_keys as nat) {
                        assert(table::table_fits(recs, b.filter()));
                        lemma_sized_accepts(recs, b.filter(), i as int);
                    }
                }
                return Err(CompactionError::SsTable(e));
            },
        }
        i = i + 1;
    }
    assert(recs.take(recs.len() as int) =~= recs);
    proof {
        b.lemma_inv();
    }
    if entries.len() == 0 {
        return Ok(None);
    }
    let ghost filter = b.filter();
    let ghost d2 = fs.disk();
    let finished = b.finish(fs);
    proof {
        facts::lemma_carried_trans(d0, d2, fs.disk(), t);
        lemma_sized_by(recs, expected_keys as nat, filter);
    }
    match finished {
        Ok(_) => {
            proof {
                let bytes = table::image(table::blocks_of(recs), filter, recs.len() as u64);
                assert(table::is_table_with(bytes, recs, filter));
                assert(table::is_table(bytes, recs));
                assert(bloom::filters(filter, builder::keys_of(recs)));
                assert(sizing(expected_keys as nat) == if expected_keys > 1 {
                    expected_keys as nat
                } else {
                    1
                });
                if fs.disk().room() && !fs.disk().halted {
                    assert(fs.disk().fs.content(path@) == bytes);
                    assert(table::is_table_with(fs.disk().fs.content(path@), recs, filter));
                }
            }
            assert(entries@.len() == entries.len());
            let first_key: Vec<u8> = entries[0].0.clone();
            let last_key: Vec<u8> = entries[entries.len() - 1].0.clone();
            Ok(Some(TableMeta { id, num_entries: entries.len() as u64, first_key, last_key }))
        },
        Err(e) => Err(CompactionError::SsTable(e)),
    }
}

/// Whether a table fits does not depend on which bits of its filter are set.
proof fn lemma_sized_by(recs: Seq<Rec>, expected_keys: nat, filter: bloom::BloomView)
    requires
        recs.len() > 0,
        filter.wf(),
        filter.num_bits == bloom::bits_for(sizing(expected_keys), DEFAULT_BITS_PER_KEY as nat),
    ensures
        sized(recs, expected_keys) == table::table_fits(recs, filter),
{
    if table::table_fits(recs, filter) {
        assert forall|other: bloom::BloomView|
            other.wf() && other.num_bits == filter.num_bits implies #[trigger] table::table_fits(
            recs,
            other,
        ) by {
            builder::lemma_image_len(table::blocks_of(recs), filter, recs.len() as u64);
            builder::lemma_image_len(table::blocks_of(recs), other, recs.len() as u64);
            bloom::lemma_bloom_round_trip(filter, Seq::empty());
            bloom::lemma_bloom_round_trip(other, Seq::empty());
            table::lemma_unsealed(filter.bytes(), sstable::Part::Bloom);
            table::lemma_unsealed(other.bytes(), sstable::Part::Bloom);
        }
    }
}

/// The names of tables in `dir`.
pub open spec fn table_names(dir: Seq<u8>) -> Set<PathView> {
    Set::new(|p: PathView| p.0 == dir && names::table_id(p.1) is Some)
}

/// The names of tables and of the manifest in `dir`.
pub open spec fn layout_names(dir: Seq<u8>) -> Set<PathView> {
    manifest::manifest_names(dir).union(table_names(dir))
}

/// Tier `t` is the youngest one with as many tables as the fanout.
pub open spec fn is_full_tier(v: VersionView, fanout: nat, t: int) -> bool {
    &&& 0 <= t < v.tiers.len()
    &&& v.tiers[t].len() >= fanout
    &&& forall|s: int| 0 <= s < t ==> (#[trigger] v.tiers[s]).len() < fanout
}

/// All tiers behind `t` are empty.
pub open spec fn is_bottom(v: VersionView, t: int) -> bool {
    forall|s: int| t < s < v.tiers.len() ==> (#[trigger] v.tiers[s]).len() == 0
}

/// What the tables of tier `t` merge into: of every key the newest version, and no
/// tombstones if nothing older is left.
pub open spec fn merged_run(fs: FsState, dir: Seq<u8>, v: VersionView, t: int) -> Seq<Rec> {
    let all = iter::merged(tables::runs_of(fs, dir, v.tiers[t]));
    if is_bottom(v, t) {
        all.filter(|r: Rec| r.val is Some)
    } else {
        all
    }
}

/// `n`, as far as a `usize` can say it.
pub open spec fn capped(n: nat) -> nat {
    if n <= usize::MAX {
        n
    } else {
        usize::MAX as nat
    }
}

/// How many entries the tables of tier `t` have in all.
pub open spec fn tier_entries(fs: FsState, dir: Seq<u8>, v: VersionView, t: int) -> nat {
    iter::total(tables::runs_of(fs, dir, v.tiers[t]))
}

/// The format can describe the table that merging tier `t` gives.
pub open spec fn merge_sized(fs: FsState, dir: Seq<u8>, v: VersionView, t: int) -> bool {
    sized(merged_run(fs, dir, v, t), capped(tier_entries(fs, dir, v, t)))
}

/// Tier `t` can be merged: an id is left for the table, and the formats can describe
/// it and the version that it gives.
pub open spec fn compactable(fs: FsState, dir: Seq<u8>, v: VersionView, t: int) -> bool {
    &&& v.next_table_id < u64::MAX
    &&& merge_sized(fs, dir, v, t)
    &&& record::version_fits(version_after(v, t, merged_run(fs, dir, v, t)))
}

/// The version that merging tier `t` into `run` gives.
pub open spec fn version_after(v: VersionView, t: int, run: Seq<Rec>) -> VersionView {
    if run.len() == 0 {
        v.cleared(t)
    } else {
        v.compacted(
            t,
            MetaView {
                id: v.next_table_id,
                num_entries: run.len() as u64,
                first_key: run[0].key,
                last_key: run.last().key,
            },
        )
    }
}

/// The run that came out, if it is not empty.
pub open spec fn if_any(run: Seq<Rec>) -> Seq<Seq<Rec>> {
    if run.len() == 0 {
        Seq::empty()
    } else {
        seq![run]
    }
}

/// From `pre` to `post`, the tables of tier `t` were merged.
#[verifier::opaque]
pub open spec fn compacts_to(
    pre: FsState,
    post: FsState,
    dir: Seq<u8>,
    v: VersionView,
    t: int,
    v2: VersionView,
) -> bool {
    let run = merged_run(pre, dir, v, t);
    &&& v2 == version_after(v, t, run)
    &&& tables::good_version(post, dir, v2)
    &&& tables::stack_of(post, dir, v2) == tables::runs_of(pre, dir, tables::above(v, t)) + if_any(
        run,
    ) + tables::runs_of(pre, dir, tables::beneath(v, t))
}

/// `dir` durably holds version `v2`, which is `v` as it was or with tier `t`
/// merged.
#[verifier::opaque]
pub open spec fn stepped(
    pre: FsState,
    post: FsState,
    dir: Seq<u8>,
    v: VersionView,
    t: int,
    v2: VersionView,
) -> bool {
    &&& manifest::says(post, dir, v2)
    &&& tables::grown(pre, post, dir, v, v2)
    &&& (v2 == v && tables::good_version(post, dir, v) && tables::stack_of(post, dir, v)
        == tables::stack_of(pre, dir, v)) || compacts_to(pre, post, dir, v, t, v2)
}

/// The second stack can take the place of the first under anything newer.
pub open spec fn refines(old_stack: Seq<Seq<Rec>>, new_stack: Seq<Seq<Rec>>) -> bool {
    forall|upper: Seq<Seq<Rec>>| #[trigger]
        model::is_stack(upper + old_stack) ==> model::is_stack(upper + new_stack)
            && model::contents(upper + new_stack) == model::contents(upper + old_stack)
}

proof fn lemma_refines_trans(a: Seq<Seq<Rec>>, b: Seq<Seq<Rec>>, c: Seq<Seq<Rec>>)
    requires
        refines(a, b),
        refines(b, c),
    ensures
        refines(a, c),
{
    assert forall|upper: Seq<Seq<Rec>>| #[trigger] model::is_stack(upper + a) implies model::is_stack(
        upper + c,
    ) && model::contents(upper + c) == model::contents(upper + a) by {
        assert(model::is_stack(upper + b));
    }
}

proof fn lemma_refines_fold(
    a: Seq<Seq<Rec>>,
    b: Seq<Seq<Rec>>,
    c: Seq<Seq<Rec>>,
    run: Seq<Rec>,
)
    requires
        model::is_run(run),
        forall|key: Seq<u8>| #[trigger] model::find(run, key) == model::top(b, key),
    ensures
        refines(a + b + c, a + seq![run] + c),
{
    assert forall|upper: Seq<Seq<Rec>>| #[trigger]
        model::is_stack(upper + (a + b + c)) implies model::is_stack(upper + (a + seq![run] + c))
        && model::contents(upper + (a + seq![run] + c)) == model::contents(
        upper + (a + b + c),
    ) by {
        assert(upper + (a + b + c) =~= (upper + a) + b + c);
        assert(upper + (a + seq![run] + c) =~= (upper + a) + seq![run] + c);
        model::lemma_stack_fold(upper + a, b, c, run);
        model::lemma_contents_equal(upper + (a + seq![run] + c), upper + (a + b + c));
    }
}

proof fn lemma_refines_fold_live(a: Seq<Seq<Rec>>, b: Seq<Seq<Rec>>, run: Seq<Rec>)
    requires
        model::is_run(run),
        forall|key: Seq<u8>| #[trigger]
            model::find(run, key) == if model::value_of(model::top(b, key)) is Some {
                model::top(b, key)
            } else {
                None
            },
    ensures
        refines(a + b, a + seq![run]),
{
    assert forall|upper: Seq<Seq<Rec>>| #[trigger] model::is_stack(upper + (a + b)) implies model::is_stack(
        upper + (a + seq![run]),
    ) && model::contents(upper + (a + seq![run])) == model::contents(upper + (a + b)) by {
        assert(upper + (a + b) =~= (upper + a) + b);
        assert(upper + (a + seq![run]) =~= (upper + a) + seq![run]);
        model::lemma_stack_fold_live(upper + a, b, run);
    }
}

proof fn lemma_refines_skip(a: Seq<Seq<Rec>>, c: Seq<Seq<Rec>>)
    ensures
        refines(a + seq![Seq::<Rec>::empty()] + c, a + c),
{
    let none = seq![Seq::<Rec>::empty()];
    assert forall|upper: Seq<Seq<Rec>>| #[trigger]
        model::is_stack(upper + (a + none + c)) implies model::is_stack(upper + (a + c))
        && model::contents(upper + (a + c)) == model::contents(upper + (a + none + c)) by {
        assert(upper + (a + none + c) =~= (upper + a) + none + c);
        assert(upper + (a + c) =~= (upper + a) + c);
        model::lemma_stack_skip(upper + a, c);
        model::lemma_contents_equal(upper + (a + c), upper + (a + none + c));
    }
}

/// The records of some tables and of some more.
proof fn lemma_runs_concat(fs: FsState, dir: Seq<u8>, a: Seq<MetaView>, b: Seq<MetaView>)
    ensures
        tables::runs_of(fs, dir, a + b) == tables::runs_of(fs, dir, a) + tables::runs_of(
            fs,
            dir,
            b,
        ),
{
    assert(tables::runs_of(fs, dir, a + b) =~= tables::runs_of(fs, dir, a) + tables::runs_of(
        fs,
        dir,
        b,
    ));
}

/// The runs of a tier, and of the tiers before and behind it.
pub proof fn lemma_stack_split(fs: FsState, dir: Seq<u8>, v: VersionView, t: int)
    requires
        0 <= t < v.tiers.len(),
    ensures
        tables::stack_of(fs, dir, v) == tables::runs_of(fs, dir, tables::above(v, t))
            + tables::runs_of(fs, dir, manifest::reversed(v.tiers[t])) + tables::runs_of(
            fs,
            dir,
            tables::beneath(v, t),
        ),
{
    tables::lemma_split(v.tiers, t);
    lemma_runs_concat(
        fs,
        dir,
        tables::above(v, t) + manifest::reversed(v.tiers[t]),
        tables::beneath(v, t),
    );
    lemma_runs_concat(fs, dir, tables::above(v, t), manifest::reversed(v.tiers[t]));
}

/// Merging a tier gives a run that says of every key what the tier says, or what
/// it says but for tombstones if the tier is at the bottom.
proof fn lemma_merged_run(fs: FsState, dir: Seq<u8>, v: VersionView, t: int)
    requires
        tables::good_version(fs, dir, v),
        0 <= t < v.tiers.len(),
    ensures
        model::is_run(merged_run(fs, dir, v, t)),
        forall|key: Seq<u8>| #[trigger]
            model::find(merged_run(fs, dir, v, t), key) == {
                let said = model::top(
                    tables::runs_of(fs, dir, manifest::reversed(v.tiers[t])),
                    key,
                );
                if is_bottom(v, t) && model::value_of(said) is None {
                    None
                } else {
                    said
                }
            },
{
    reveal(tables::good_version);
    let sources = tables::runs_of(fs, dir, v.tiers[t]);
    let b = tables::runs_of(fs, dir, manifest::reversed(v.tiers[t]));
    let a = tables::runs_of(fs, dir, tables::above(v, t));
    let c = tables::runs_of(fs, dir, tables::beneath(v, t));
    let n = sources.len();
    lemma_stack_split(fs, dir, v, t);
    model::lemma_stack_part(a, b, c);
    assert forall|i: int| 0 <= i < n implies b.contains(#[trigger] sources[i]) by {
        assert(b[n - 1 - i] == sources[i]);
    }
    assert forall|i: int| 0 <= i < b.len() implies sources.contains(#[trigger] b[i]) by {
        assert(sources[n - 1 - i] == b[i]);
    }
    assert forall|i: int| 0 <= i < n implies model::is_run(#[trigger] sources[i]) by {
        assert(b[n - 1 - i] == sources[i]);
    }
    iter::lemma_merged_stack(sources, b);
    model::lemma_filtered(iter::merged(sources), |r: Rec| r.val is Some);
}

/// A compaction keeps the contents, whatever newer lies above the tables.
pub proof fn lemma_compaction_refines(
    pre: FsState,
    post: FsState,
    dir: Seq<u8>,
    v: VersionView,
    t: int,
    v2: VersionView,
)
    requires
        tables::good_version(pre, dir, v),
        0 <= t < v.tiers.len(),
        compacts_to(pre, post, dir, v, t, v2),
    ensures
        refines(tables::stack_of(pre, dir, v), tables::stack_of(post, dir, v2)),
{
    reveal(compacts_to);
    lemma_merged_refines(pre, dir, v, t);
}

/// The tables of tier `s`, none if there is no such tier.
pub open spec fn tier_at(tiers: Seq<Seq<MetaView>>, s: int) -> Seq<MetaView> {
    if 0 <= s < tiers.len() {
        tiers[s]
    } else {
        Seq::empty()
    }
}

/// Without the empty tiers at the end, each tier has the tables that it had.
proof fn lemma_tier_trimmed(tiers: Seq<Seq<MetaView>>, s: int)
    ensures
        tier_at(manifest::trimmed(tiers), s) == tier_at(tiers, s),
    decreases tiers.len(),
{
    if tiers.len() > 0 && tiers.last().len() == 0 {
        lemma_tier_trimmed(tiers.drop_last(), s);
        assert(tier_at(tiers.drop_last(), s) =~= tier_at(tiers, s));
    }
}

/// What a compaction of tier `t` does to the version: every lookup finds what it found, the
/// tier is empty, at most one table is new and it is the newest of the next tier, and every
/// table of another tier is where it was, whole.
pub proof fn lemma_compacted(
    pre: FsState,
    post: FsState,
    dir: Seq<u8>,
    v: VersionView,
    t: int,
    v2: VersionView,
)
    requires
        tables::good_version(pre, dir, v),
        0 <= t < v.tiers.len(),
        compacts_to(pre, post, dir, v, t, v2),
    ensures
        tables::good_version(post, dir, v2),
        model::contents(tables::stack_of(post, dir, v2)) == model::contents(
            tables::stack_of(pre, dir, v),
        ),
        forall|key: Seq<u8>| #[trigger]
            model::value_of(model::top(tables::stack_of(post, dir, v2), key)) == model::value_of(
                model::top(tables::stack_of(pre, dir, v), key),
            ),
        tier_at(v2.tiers, t).len() == 0,
        ({
            let run = merged_run(pre, dir, v, t);
            let below = tier_at(v.tiers, t + 1);
            &&& run.len() == 0 ==> tier_at(v2.tiers, t + 1) == below
            &&& run.len() > 0 ==> {
                &&& tier_at(v2.tiers, t + 1).drop_last() == below
                &&& tier_at(v2.tiers, t + 1).len() == below.len() + 1
                &&& tier_at(v2.tiers, t + 1).last().id == v.next_table_id
            }
        }),
        forall|s: int|
            s != t && s != t + 1 ==> #[trigger] tier_at(v2.tiers, s) == tier_at(v.tiers, s),
        forall|s: int, i: int|
            0 <= s < v.tiers.len() && s != t && 0 <= i < v.tiers[s].len() ==> v2.references(
                (#[trigger] v.tiers[s][i]).id,
            ),
{
    let run = merged_run(pre, dir, v, t);
    let old_stack = tables::stack_of(pre, dir, v);
    let new_stack = tables::stack_of(post, dir, v2);
    lemma_compaction_refines(pre, post, dir, v, t, v2);
    reveal(compacts_to);
    tables::lemma_good(pre, dir, v);
    let none = Seq::<Seq<Rec>>::empty();
    assert(none + old_stack =~= old_stack && none + new_stack =~= new_stack);
    assert(model::is_stack(none + old_stack));
    assert forall|key: Seq<u8>| #[trigger]
        model::value_of(model::top(new_stack, key)) == model::value_of(
            model::top(old_stack, key),
        ) by {
        assert(model::contents(new_stack).contains_key(key) <==> model::contents(
            old_stack,
        ).contains_key(key));
        if model::contents(new_stack).contains_key(key) {
            assert(model::contents(new_stack)[key] == model::contents(old_stack)[key]);
        }
    }
    lemma_tier_after(v, t, run, t);
    lemma_tier_after(v, t, run, t + 1);
    assert forall|s: int| s != t && s != t + 1 implies #[trigger] tier_at(v2.tiers, s) == tier_at(
        v.tiers,
        s,
    ) by {
        lemma_tier_after(v, t, run, s);
    }
    assert forall|s: int, i: int|
        0 <= s < v.tiers.len() && s != t && 0 <= i < v.tiers[s].len() implies v2.references(
        (#[trigger] v.tiers[s][i]).id,
    ) by {
        lemma_tier_after(v, t, run, s);
        assert(tier_at(v2.tiers, s)[i] == v.tiers[s][i]);
        assert(v2.tiers[s][i].id == v.tiers[s][i].id);
    }
}

/// The tables that tier `t + 1` has in `v2` beyond those that it has in `v`.
pub open spec fn new_tables(v: VersionView, t: int, v2: VersionView) -> Seq<MetaView> {
    tier_at(v2.tiers, t + 1).skip(tier_at(v.tiers, t + 1).len() as int)
}

/// The newest of the versions of a key in the runs of a stack is the one on top.
proof fn lemma_newest_on_top(b: Seq<Seq<Rec>>, runs: Seq<Seq<Rec>>, key: Seq<u8>, r: Rec)
    requires
        model::is_stack(b),
        forall|i: int| 0 <= i < runs.len() ==> b.contains(#[trigger] runs[i]),
        forall|i: int| 0 <= i < b.len() ==> runs.contains(#[trigger] b[i]),
    ensures
        model::is_newest(runs, key, r) <==> model::top(b, key) == Some(r),
{
    model::lemma_top(b, key);
    if let Some(r0) = model::top(b, key) {
        let i0 = choose|i: int|
            0 <= i < b.len() && #[trigger] model::find(b[i], key) == Some(r0) && forall|j: int|
                0 <= j < i ==> model::find(#[trigger] b[j], key) is None;
        let n0 = choose|n: int| 0 <= n < runs.len() && runs[n] == b[i0];
        assert(model::find(runs[n0], key) == Some(r0));
        assert forall|n: int|
            0 <= n < runs.len() && (#[trigger] model::find(runs[n], key)) is Some implies ({
            let x = model::find(runs[n], key)->0;
            x == r0 || x.seq < r0.seq
        }) by {
            assert(b.contains(runs[n]));
            let j = choose|j: int| 0 <= j < b.len() && b[j] == runs[n];
            assert(model::find(b[j], key) is Some);
            assert(j >= i0);
            if j > i0 {
                assert(model::supersedes(model::find(b[i0], key)->0, model::find(b[j], key)->0));
            }
        }
        if model::is_newest(runs, key, r) {
            let n = choose|n: int| 0 <= n < runs.len() && #[trigger] model::find(runs[n], key)
                == Some(r);
            assert(model::find(runs[n0], key)->0.seq <= r.seq);
        }
    } else if model::is_newest(runs, key, r) {
        let n = choose|n: int| 0 <= n < runs.len() && #[trigger] model::find(runs[n], key) == Some(
            r,
        );
        let j = choose|j: int| 0 <= j < b.len() && b[j] == runs[n];
        assert(model::find(b[j], key) is Some);
    }
}

/// What a merge of tier `t` writes. Of every key it keeps the version that is the newest of
/// those in the tier, and nothing else. Where no tier below `t` has a table it leaves out the
/// keys whose newest version is a tombstone: the new table holds none, and there is no new
/// table if that leaves nothing. Where a tier below has one, tombstones are kept.
pub proof fn lemma_merge_keeps(
    pre: FsState,
    post: FsState,
    dir: Seq<u8>,
    v: VersionView,
    t: int,
    v2: VersionView,
)
    requires
        tables::good_version(pre, dir, v),
        0 <= t < v.tiers.len(),
        compacts_to(pre, post, dir, v, t, v2),
    ensures
        ({
            let runs = tables::runs_of(pre, dir, v.tiers[t]);
            let lowest = forall|s: int| t < s < v.tiers.len() ==> (#[trigger] v.tiers[s]).len() == 0;
            let new = new_tables(v, t, v2);
            &&& new.len() <= 1
            &&& forall|r: Rec| #[trigger]
                model::is_newest(runs, r.key, r) && (r.val is Some || !lowest) ==> new.len() == 1
                    && tables::held_by(post, dir, new[0]).contains(r)
            &&& new.len() == 1 ==> forall|i: int|
                0 <= i < tables::held_by(post, dir, new[0]).len() ==> {
                    let r = #[trigger] tables::held_by(post, dir, new[0])[i];
                    model::is_newest(runs, r.key, r) && (lowest ==> r.val is Some)
                }
            &&& new.len() == 1 ==> tables::held_by(post, dir, new[0]).len() > 0
            &&& lowest && (forall|r: Rec| #[trigger]
                model::is_newest(runs, r.key, r) ==> r.val is None) ==> new.len() == 0
        }),
{
    let runs = tables::runs_of(pre, dir, v.tiers[t]);
    let run = merged_run(pre, dir, v, t);
    let a = tables::runs_of(pre, dir, tables::above(v, t));
    let b = tables::runs_of(pre, dir, manifest::reversed(v.tiers[t]));
    let c = tables::runs_of(pre, dir, tables::beneath(v, t));
    let lowest = forall|s: int| t < s < v.tiers.len() ==> (#[trigger] v.tiers[s]).len() == 0;
    let new = new_tables(v, t, v2);
    reveal(compacts_to);
    tables::lemma_good(pre, dir, v);
    lemma_stack_split(pre, dir, v, t);
    model::lemma_stack_part(a, b, c);
    lemma_merged_run(pre, dir, v, t);
    lemma_tier_after(v, t, run, t + 1);
    let n = runs.len();
    assert forall|i: int| 0 <= i < n implies b.contains(#[trigger] runs[i]) by {
        assert(b[n - 1 - i] == runs[i]);
    }
    assert forall|i: int| 0 <= i < b.len() implies runs.contains(#[trigger] b[i]) by {
        assert(runs[n - 1 - i] == b[i]);
    }
    assert forall|r: Rec| #[trigger] model::is_newest(runs, r.key, r) implies model::top(b, r.key)
        == Some(r) by {
        lemma_newest_on_top(b, runs, r.key, r);
    }
    assert(is_bottom(v, t) == lowest);
    if run.len() > 0 {
        let m = MetaView {
            id: v.next_table_id,
            num_entries: run.len() as u64,
            first_key: run[0].key,
            last_key: run.last().key,
        };
        tables::lemma_compacted(v, t, m);
        assert(new =~= seq![m]) by {
            lemma_tier_new(v, t, run);
        }
        let k = tables::above(v, t).len() as int;
        assert(manifest::newest_first(v2.tiers)[k] == m);
        assert(tables::stack_of(post, dir, v2)[k] == run);
        assert(tables::held_by(post, dir, m) == run);
    }
    assert forall|r: Rec| #[trigger]
        model::is_newest(runs, r.key, r) && (r.val is Some || !lowest) implies new.len() == 1
        && tables::held_by(post, dir, new[0]).contains(r) by {
        assert(model::find(run, r.key) == Some(r));
        model::lemma_find(run, r.key);
        let i = choose|i: int| 0 <= i < run.len() && #[trigger] run[i] == r;
        assert(run.contains(run[i]));
    }
    if new.len() == 1 {
        assert forall|i: int| 0 <= i < run.len() implies ({
            let r = #[trigger] run[i];
            model::is_newest(runs, r.key, r) && (lowest ==> r.val is Some)
        }) by {
            let r = run[i];
            model::lemma_find_at(run, i);
            lemma_newest_on_top(b, runs, r.key, r);
        }
        assert(model::is_newest(runs, run[0].key, run[0]));
    }
}

/// The new table that a merge gives the next tier.
proof fn lemma_tier_new(v: VersionView, t: int, run: Seq<Rec>)
    requires
        0 <= t < v.tiers.len(),
        run.len() > 0,
    ensures
        tier_at(version_after(v, t, run).tiers, t + 1).last() == (MetaView {
            id: v.next_table_id,
            num_entries: run.len() as u64,
            first_key: run[0].key,
            last_key: run.last().key,
        }),
{
    let m = MetaView {
        id: v.next_table_id,
        num_entries: run.len() as u64,
        first_key: run[0].key,
        last_key: run.last().key,
    };
    let tiers = manifest::padded(v.tiers, (t + 2) as nat);
    let moved = tiers.update(t, Seq::empty()).update(t + 1, tiers[t + 1].push(m));
    lemma_tier_trimmed(moved, t + 1);
}

/// The tables of tier `s` after tier `t` was merged.
proof fn lemma_tier_after(v: VersionView, t: int, run: Seq<Rec>, s: int)
    requires
        0 <= t < v.tiers.len(),
    ensures
        ({
            let after = tier_at(version_after(v, t, run).tiers, s);
            let was = tier_at(v.tiers, s);
            &&& s == t ==> after.len() == 0
            &&& s != t && s != t + 1 ==> after == was
            &&& s == t + 1 && run.len() == 0 ==> after == was
            &&& s == t + 1 && run.len() > 0 ==> after.len() == was.len() + 1 && after.drop_last()
                == was && after.last().id == v.next_table_id
        }),
{
    if run.len() == 0 {
        let moved = v.tiers.update(t, Seq::empty());
        lemma_tier_trimmed(moved, s);
    } else {
        let m = MetaView {
            id: v.next_table_id,
            num_entries: run.len() as u64,
            first_key: run[0].key,
            last_key: run.last().key,
        };
        let tiers = manifest::padded(v.tiers, (t + 2) as nat);
        let moved = tiers.update(t, Seq::empty()).update(t + 1, tiers[t + 1].push(m));
        lemma_tier_trimmed(moved, s);
        assert(tiers[t + 1] =~= tier_at(v.tiers, t + 1));
        assert(tiers[t + 1].push(m).drop_last() =~= tiers[t + 1]);
        if 0 <= s < tiers.len() {
            assert(tiers[s] =~= tier_at(v.tiers, s));
        }
    }
}

/// The stack in which the tables of tier `t` are merged refines the one in which
/// they are not.
proof fn lemma_merged_refines(pre: FsState, dir: Seq<u8>, v: VersionView, t: int)
    requires
        tables::good_version(pre, dir, v),
        0 <= t < v.tiers.len(),
    ensures
        refines(
            tables::stack_of(pre, dir, v),
            tables::runs_of(pre, dir, tables::above(v, t)) + if_any(merged_run(pre, dir, v, t))
                + tables::runs_of(pre, dir, tables::beneath(v, t)),
        ),
{
    let a = tables::runs_of(pre, dir, tables::above(v, t));
    let b = tables::runs_of(pre, dir, manifest::reversed(v.tiers[t]));
    let c = tables::runs_of(pre, dir, tables::beneath(v, t));
    let run = merged_run(pre, dir, v, t);
    lemma_stack_split(pre, dir, v, t);
    lemma_merged_run(pre, dir, v, t);
    let mid = a + seq![run] + c;
    if is_bottom(v, t) {
        let low = v.tiers.skip(t + 1);
        assert forall|s: int| 0 <= s < low.len() implies (#[trigger] low[s]).len() == 0 by {
            assert(v.tiers[s + t + 1].len() == 0);
        }
        tables::lemma_newest_first_empty(low);
        assert(c =~= Seq::empty());
        assert(a + b + c =~= a + b);
        assert(mid =~= a + seq![run]);
        lemma_refines_fold_live(a, b, run);
    } else {
        lemma_refines_fold(a, b, c, run);
    }
    if run.len() == 0 {
        assert(run =~= Seq::empty());
        lemma_refines_skip(a, c);
        lemma_refines_trans(a + b + c, mid, a + c);
        assert(a + if_any(run) + c =~= a + c);
    }
}

/// The file of table `m` is whole, and `m` describes it.
pub open spec fn meta_ready(fs: FsState, dir: Seq<u8>, m: MetaView) -> bool {
    let p = manifest::table_at(dir, m.id);
    let content = fs.content(p);
    &&& facts::visible(fs, p, FileData { live: content, synced: content })
    &&& table::is_table(content, tables::held_by(fs, dir, m))
    &&& tables::describes(m, tables::held_by(fs, dir, m))
}

/// Every table of the version is whole.
pub open spec fn version_ready(fs: FsState, dir: Seq<u8>, v: VersionView) -> bool {
    forall|k: int|
        0 <= k < manifest::newest_first(v.tiers).len() ==> meta_ready(
            fs,
            dir,
            #[trigger] manifest::newest_first(v.tiers)[k],
        ) && manifest::newest_first(v.tiers)[k].id < v.next_table_id
}

/// Installing a version whose tables are whole makes them durable.
pub proof fn lemma_installed(
    fs: FsState,
    post: FsState,
    dir: Seq<u8>,
    v: VersionView,
    kept: Seq<VersionView>,
)
    requires
        version_ready(fs, dir, v),
        manifest::settled_except(fs, post, dir, kept.push(v)),
    ensures
        tables::metas_good(post, dir, v),
        tables::stack_of(post, dir, v) == tables::stack_of(fs, dir, v),
        forall|id: u64| #[trigger]
            v.references(id) ==> post.content(manifest::table_at(dir, id)) == fs.content(
                manifest::table_at(dir, id),
            ) && id < v.next_table_id,
{
    let order = manifest::newest_first(v.tiers);
    assert forall|k: int| 0 <= k < order.len() implies tables::meta_good(
        post,
        dir,
        #[trigger] order[k],
    ) && order[k].id < v.next_table_id && tables::held_by(post, dir, order[k]) == tables::held_by(
        fs,
        dir,
        order[k],
    ) && post.content(manifest::table_at(dir, order[k].id)) == fs.content(
        manifest::table_at(dir, order[k].id),
    ) by {
        let m = order[k];
        let p = manifest::table_at(dir, m.id);
        let r = tables::lemma_listed(v.tiers, k);
        assert(v.tiers[r.0][r.1].id == m.id);
        assert(v.references(m.id));
        assert(kept.push(v)[kept.len() as int].references(m.id));
        assert(manifest::any_references(kept.push(v), m.id));
        lemma_table_name_apart(dir, m.id);
        assert(facts::stable(post, p, fs.content(p)));
    }
    assert(tables::stack_of(post, dir, v) =~= tables::stack_of(fs, dir, v));
    assert forall|id: u64| #[trigger] v.references(id) implies post.content(
        manifest::table_at(dir, id),
    ) == fs.content(manifest::table_at(dir, id)) && id < v.next_table_id by {
        tables::lemma_references(v, id);
        let k = choose|k: int| 0 <= k < order.len() && (#[trigger] order[k]).id == id;
        assert(tables::meta_good(post, dir, order[k]));
    }
}

/// The name of a table is its id's, and not the manifest's.
pub proof fn lemma_table_name_apart(dir: Seq<u8>, id: u64)
    ensures
        names::table_id(manifest::table_at(dir, id).1) == Some(id),
        !manifest::manifest_names(dir).contains(manifest::table_at(dir, id)),
        table_names(dir).contains(manifest::table_at(dir, id)),
        layout_names(dir).contains(manifest::table_at(dir, id)),
        names::segment_id(manifest::table_at(dir, id).1) is None,
{
    names::lemma_table_name(id);
    names::lemma_kinds_apart(id);
    assert(names::manifest_name().len() == 8);
    assert(names::manifest_tmp_name().len() == 12);
}

/// Only tables and the manifest are touched.
pub proof fn lemma_garbage_is_layout(dir: Seq<u8>, kept: Seq<VersionView>)
    ensures
        manifest::manifest_names(dir).union(manifest::garbage_names(dir, kept)).subset_of(
            layout_names(dir),
        ),
{
}

/// An operation that touches neither the manifest nor a table of the version leaves
/// it as it is.
pub proof fn lemma_untouched(
    pre: FsState,
    post: FsState,
    touched: Set<PathView>,
    dir: Seq<u8>,
    v: VersionView,
)
    requires
        facts::sound(pre),
        facts::keeps(pre, post, touched),
        manifest::says(pre, dir, v),
        tables::good_version(pre, dir, v),
        !touched.contains(manifest::manifest_at(dir)),
        forall|id: u64|
            v.references(id) ==> !touched.contains(#[trigger] manifest::table_at(dir, id)),
    ensures
        manifest::says(post, dir, v),
        tables::good_version(post, dir, v),
        tables::stack_of(post, dir, v) == tables::stack_of(pre, dir, v),
        tables::grown(pre, post, dir, v, v),
{
    tables::lemma_version_kept(pre, post, touched, dir, v);
    tables::lemma_grown_same(pre, post, touched, dir, v);
}

/// No step leaves the version as it was.
proof fn lemma_not_stepped(pre: FsState, post: FsState, dir: Seq<u8>, v: VersionView, t: int)
    requires
        manifest::says(post, dir, v),
        tables::good_version(post, dir, v),
        tables::stack_of(post, dir, v) == tables::stack_of(pre, dir, v),
        tables::grown(pre, post, dir, v, v),
    ensures
        stepped(pre, post, dir, v, t, v),
{
    reveal(stepped);
}

/// Nothing done leaves the version as it was.
proof fn lemma_unchanged(fs: FsState, dir: Seq<u8>, v: VersionView, t: int)
    requires
        manifest::says(fs, dir, v),
        tables::good_version(fs, dir, v),
    ensures
        stepped(fs, fs, dir, v, t, v),
{
    reveal(stepped);
}

/// A new table's file is none of a version's.
pub proof fn lemma_fresh_table(fs: FsState, dir: Seq<u8>, v: VersionView, id: u64)
    requires
        tables::metas_good(fs, dir, v),
        id >= v.next_table_id,
    ensures
        !set![manifest::table_at(dir, id)].contains(manifest::manifest_at(dir)),
        forall|other: u64|
            v.references(other) ==> !set![manifest::table_at(dir, id)].contains(
                #[trigger] manifest::table_at(dir, other),
            ),
        set![manifest::table_at(dir, id)].subset_of(layout_names(dir)),
{
    lemma_table_name_apart(dir, id);
    assert forall|other: u64| v.references(other) implies !set![manifest::table_at(dir, id)].contains(
        #[trigger] manifest::table_at(dir, other),
    ) by {
        tables::lemma_referenced_below(fs, dir, v, other);
        if manifest::table_at(dir, id) == manifest::table_at(dir, other) {
            tables::lemma_table_at_injective(dir, id, other);
        }
    }
}

/// A version that could not be installed leaves the one before it.
pub proof fn lemma_not_installed(fs: FsState, post: FsState, dir: Seq<u8>, v: VersionView)
    requires
        facts::sound(fs),
        manifest::says(fs, dir, v),
        tables::good_version(fs, dir, v),
        facts::keeps(fs, post, manifest::manifest_names(dir)),
        crate::storage::replace::unreplaced(fs, post, manifest::manifest_at(dir)),
    ensures
        manifest::says(post, dir, v),
        tables::good_version(post, dir, v),
        tables::stack_of(post, dir, v) == tables::stack_of(fs, dir, v),
        tables::grown(fs, post, dir, v, v),
{
    assert forall|id: u64| v.references(id) implies !manifest::manifest_names(dir).contains(
        #[trigger] manifest::table_at(dir, id),
    ) by {
        lemma_table_name_apart(dir, id);
    }
    tables::lemma_version_kept(fs, post, manifest::manifest_names(dir), dir, v);
    tables::lemma_grown_same(fs, post, manifest::manifest_names(dir), dir, v);
}

/// `m` is whole in `mid`, has an id below `next`, and holds `run`.
spec fn ready_with(mid: FsState, dir: Seq<u8>, m: MetaView, next: u64, run: Seq<Rec>) -> bool {
    &&& meta_ready(mid, dir, m)
    &&& m.id < next
    &&& tables::held_by(mid, dir, m) == run
}

/// Tables that took the place of others between those that stay.
proof fn lemma_ready_parts(
    pre: FsState,
    mid: FsState,
    dir: Seq<u8>,
    next: u64,
    a: Seq<MetaView>,
    new: Seq<MetaView>,
    c: Seq<MetaView>,
    runs: Seq<Seq<Rec>>,
)
    requires
        forall|k: int|
            0 <= k < a.len() ==> ready_with(
                mid,
                dir,
                #[trigger] a[k],
                next,
                tables::held_by(pre, dir, a[k]),
            ),
        forall|k: int|
            0 <= k < c.len() ==> ready_with(
                mid,
                dir,
                #[trigger] c[k],
                next,
                tables::held_by(pre, dir, c[k]),
            ),
        new.len() == runs.len(),
        forall|k: int|
            0 <= k < new.len() ==> ready_with(mid, dir, #[trigger] new[k], next, runs[k]),
    ensures
        forall|k: int|
            0 <= k < (a + new + c).len() ==> meta_ready(mid, dir, #[trigger] (a + new + c)[k]) && (a
                + new + c)[k].id < next,
        tables::runs_of(mid, dir, a + new + c) == tables::runs_of(pre, dir, a) + runs
            + tables::runs_of(pre, dir, c),
{
    let all = a + new + c;
    let want = tables::runs_of(pre, dir, a) + runs + tables::runs_of(pre, dir, c);
    assert forall|k: int| 0 <= k < all.len() implies ready_with(
        mid,
        dir,
        #[trigger] all[k],
        next,
        want[k],
    ) by {
        if k < a.len() {
            assert(all[k] == a[k]);
        } else if k < a.len() + new.len() {
            assert(all[k] == new[k - a.len()]);
        } else {
            assert(all[k] == c[k - a.len() - new.len()]);
        }
    }
    assert(tables::runs_of(mid, dir, all) =~= want);
}

/// The tables of a version stay whole when a table is added that it does not have.
proof fn lemma_order_ready(pre: FsState, mid: FsState, dir: Seq<u8>, v: VersionView, next: u64)
    requires
        facts::sound(pre),
        tables::good_version(pre, dir, v),
        facts::keeps(pre, mid, set![manifest::table_at(dir, v.next_table_id)]),
        v.next_table_id <= next,
    ensures
        forall|k: int|
            0 <= k < manifest::newest_first(v.tiers).len() ==> ready_with(
                mid,
                dir,
                #[trigger] manifest::newest_first(v.tiers)[k],
                next,
                tables::held_by(pre, dir, manifest::newest_first(v.tiers)[k]),
            ),
{
    let order = manifest::newest_first(v.tiers);
    let one = set![manifest::table_at(dir, v.next_table_id)];
    assert(tables::metas_good(mid, dir, v) && tables::stack_of(mid, dir, v) == tables::stack_of(
        pre,
        dir,
        v,
    )) by {
        tables::lemma_good(pre, dir, v);
        lemma_fresh_table(pre, dir, v, v.next_table_id);
        tables::lemma_version_kept(pre, mid, one, dir, v);
        tables::lemma_good(mid, dir, v);
    }
    assert forall|k: int| 0 <= k < order.len() implies ready_with(
        mid,
        dir,
        #[trigger] order[k],
        next,
        tables::held_by(pre, dir, order[k]),
    ) by {
        assert(tables::meta_good(mid, dir, order[k]));
        assert(tables::stack_of(mid, dir, v)[k] == tables::stack_of(pre, dir, v)[k]);
    }
}

/// The version with tier `t` merged is whole once the new table is.
proof fn lemma_merged_ready(
    pre: FsState,
    mid: FsState,
    dir: Seq<u8>,
    v: VersionView,
    t: int,
    bytes: Seq<u8>,
)
    requires
        facts::sound(pre),
        tables::good_version(pre, dir, v),
        0 <= t < v.tiers.len(),
        v.next_table_id < u64::MAX,
        facts::keeps(pre, mid, set![manifest::table_at(dir, v.next_table_id)]),
        merged_run(pre, dir, v, t).len() <= u64::MAX,
        merged_run(pre, dir, v, t).len() > 0 ==> {
            &&& table::is_table(bytes, merged_run(pre, dir, v, t))
            &&& facts::visible(
                mid,
                manifest::table_at(dir, v.next_table_id),
                FileData { live: bytes, synced: bytes },
            )
        },
    ensures
        ({
            let run = merged_run(pre, dir, v, t);
            let v2 = version_after(v, t, run);
            &&& version_ready(mid, dir, v2)
            &&& tables::stack_of(mid, dir, v2) == tables::runs_of(pre, dir, tables::above(v, t))
                + if_any(run) + tables::runs_of(pre, dir, tables::beneath(v, t))
        }),
{
    let run = merged_run(pre, dir, v, t);
    let v2 = version_after(v, t, run);
    let next = v2.next_table_id;
    let a = tables::above(v, t);
    let b = manifest::reversed(v.tiers[t]);
    let c = tables::beneath(v, t);
    let order = manifest::newest_first(v.tiers);
    tables::lemma_split(v.tiers, t);
    assert(order == a + b + c);
    lemma_order_ready(pre, mid, dir, v, next);
    assert forall|k: int| 0 <= k < a.len() implies ready_with(
        mid,
        dir,
        #[trigger] a[k],
        next,
        tables::held_by(pre, dir, a[k]),
    ) by {
        assert(order[k] == a[k]);
    }
    assert forall|k: int| 0 <= k < c.len() implies ready_with(
        mid,
        dir,
        #[trigger] c[k],
        next,
        tables::held_by(pre, dir, c[k]),
    ) by {
        assert(order[a.len() + b.len() + k] == c[k]);
    }
    if run.len() == 0 {
        let none = Seq::<MetaView>::empty();
        tables::lemma_cleared(v, t);
        lemma_ready_parts(pre, mid, dir, next, a, none, c, if_any(run));
        assert(manifest::newest_first(v2.tiers) =~= a + none + c);
    } else {
        let m = MetaView {
            id: v.next_table_id,
            num_entries: run.len() as u64,
            first_key: run[0].key,
            last_key: run.last().key,
        };
        tables::lemma_compacted(v, t, m);
        assert(ready_with(mid, dir, m, next, run)) by {
            tables::lemma_table_recs(bytes, run);
        }
        lemma_ready_parts(pre, mid, dir, next, a, seq![m], c, if_any(run));
    }
}

/// What the version with tier `t` merged references.
proof fn lemma_after_references(v: VersionView, t: int, run: Seq<Rec>, id: u64)
    requires
        0 <= t < v.tiers.len(),
        v.next_table_id < u64::MAX,
        version_after(v, t, run).references(id),
    ensures
        id == v.next_table_id || v.references(id),
        version_after(v, t, run).next_table_id >= v.next_table_id,
{
    let v2 = version_after(v, t, run);
    let order = manifest::newest_first(v.tiers);
    let after = manifest::newest_first(v2.tiers);
    tables::lemma_split(v.tiers, t);
    tables::lemma_references(v2, id);
    tables::lemma_references(v, id);
    let a = tables::above(v, t).len();
    let b = v.tiers[t].len();
    let k = choose|k: int| 0 <= k < after.len() && (#[trigger] after[k]).id == id;
    if run.len() == 0 {
        tables::lemma_cleared(v, t);
        assert(after[k] == order[if k < a { k } else { k + b }]);
    } else {
        let m = MetaView {
            id: v.next_table_id,
            num_entries: run.len() as u64,
            first_key: run[0].key,
            last_key: run.last().key,
        };
        tables::lemma_compacted(v, t, m);
        if k == a {
            assert(after[k] == m);
        } else {
            assert(after[k] == order[if k < a { k } else { k - 1 + b }]);
        }
    }
}

/// The version with tier `t` merged has grown out of the one before.
proof fn lemma_merged_grown(
    pre: FsState,
    mid: FsState,
    post: FsState,
    dir: Seq<u8>,
    v: VersionView,
    t: int,
    run: Seq<Rec>,
    kept: Seq<VersionView>,
)
    requires
        0 <= t < v.tiers.len(),
        v.next_table_id < u64::MAX,
        tables::grown(pre, mid, dir, v, v),
        version_ready(mid, dir, version_after(v, t, run)),
        manifest::settled_except(mid, post, dir, kept.push(version_after(v, t, run))),
    ensures
        tables::grown(pre, post, dir, v, version_after(v, t, run)),
{
    let v2 = version_after(v, t, run);
    lemma_installed(mid, post, dir, v2, kept);
    assert forall|id: u64| #[trigger] v2.references(id) implies id == v.next_table_id && id
        < v2.next_table_id || v.references(id) && post.content(manifest::table_at(dir, id))
        == pre.content(manifest::table_at(dir, id)) by {
        lemma_after_references(v, t, run, id);
    }
}

/// The version with tier `t` merged is good once its tables are durable.
proof fn lemma_merged_good(
    pre: FsState,
    mid: FsState,
    post: FsState,
    dir: Seq<u8>,
    v: VersionView,
    t: int,
    kept: Seq<VersionView>,
)
    requires
        tables::good_version(pre, dir, v),
        0 <= t < v.tiers.len(),
        ({
            let run = merged_run(pre, dir, v, t);
            let v2 = version_after(v, t, run);
            &&& version_ready(mid, dir, v2)
            &&& tables::stack_of(mid, dir, v2) == tables::runs_of(pre, dir, tables::above(v, t))
                + if_any(run) + tables::runs_of(pre, dir, tables::beneath(v, t))
            &&& manifest::settled_except(mid, post, dir, kept.push(v2))
        }),
    ensures
        compacts_to(pre, post, dir, v, t, version_after(v, t, merged_run(pre, dir, v, t))),
{
    reveal(tables::good_version);
    reveal(compacts_to);
    let v2 = version_after(v, t, merged_run(pre, dir, v, t));
    lemma_installed(mid, post, dir, v2, kept);
    lemma_merged_refines(pre, dir, v, t);
    lemma_merged_below(pre, dir, v, t);
    let stack = tables::stack_of(pre, dir, v);
    let now = tables::stack_of(post, dir, v2);
    let none = Seq::<Seq<Rec>>::empty();
    assert(none + stack =~= stack);
    assert(none + now =~= now);
    assert(model::is_stack(none + stack));
}

/// Every record of a merged run was in one of the tables.
proof fn lemma_merged_from(pre: FsState, dir: Seq<u8>, v: VersionView, t: int, j: int) -> (at: (
    int,
    int,
))
    requires
        tables::good_version(pre, dir, v),
        0 <= t < v.tiers.len(),
        0 <= j < merged_run(pre, dir, v, t).len(),
    ensures
        ({
            let b = tables::runs_of(pre, dir, manifest::reversed(v.tiers[t]));
            &&& 0 <= at.0 < b.len()
            &&& 0 <= at.1 < b[at.0].len()
            &&& b[at.0][at.1] == merged_run(pre, dir, v, t)[j]
        }),
{
    let run = merged_run(pre, dir, v, t);
    lemma_merged_run(pre, dir, v, t);
    model::lemma_find_at(run, j);
    model::lemma_run_from(run, tables::runs_of(pre, dir, manifest::reversed(v.tiers[t])), j)
}

/// A merged run has no newer sequence numbers than the tables it came from.
proof fn lemma_merged_below(pre: FsState, dir: Seq<u8>, v: VersionView, t: int)
    requires
        tables::good_version(pre, dir, v),
        0 <= t < v.tiers.len(),
    ensures
        tables::below(
            tables::runs_of(pre, dir, tables::above(v, t)) + if_any(merged_run(pre, dir, v, t))
                + tables::runs_of(pre, dir, tables::beneath(v, t)),
            v.next_seq,
        ),
{
    let run = merged_run(pre, dir, v, t);
    let a = tables::runs_of(pre, dir, tables::above(v, t));
    let b = tables::runs_of(pre, dir, manifest::reversed(v.tiers[t]));
    let c = tables::runs_of(pre, dir, tables::beneath(v, t));
    let stack = tables::stack_of(pre, dir, v);
    let now = a + if_any(run) + c;
    assert(tables::below(stack, v.next_seq)) by {
        tables::lemma_good(pre, dir, v);
    }
    lemma_stack_split(pre, dir, v, t);
    assert forall|i: int, j: int| 0 <= i < now.len() && 0 <= j < now[i].len() implies (
    #[trigger] now[i][j]).seq < v.next_seq by {
        let any = if_any(run).len() as int;
        if i < a.len() {
            assert(stack[i][j].seq < v.next_seq);
        } else if i < a.len() + any {
            assert(now[i] == run);
            let at = lemma_merged_from(pre, dir, v, t, j);
            assert(stack[a.len() + at.0] == b[at.0]);
            assert(stack[a.len() + at.0][at.1].seq < v.next_seq);
        } else {
            let k = i - any + b.len();
            assert(stack[k] == now[i]);
            assert(stack[k][j].seq < v.next_seq);
        }
    }
}

/// Whether compacting tier `t` produces the oldest data: every tier below is empty.
pub fn output_is_bottom(version: &Version, t: usize) -> (r: bool)
    ensures
        r == is_bottom(version@, t as int),
{
    let mut i: usize = version.tiers.len();
    while i > 0 && i - 1 > t
        invariant
            i <= version@.tiers.len(),
            forall|s: int|
                i <= s < version@.tiers.len() && t < s ==> (#[trigger] version@.tiers[s]).len()
                    == 0,
        decreases i,
    {
        i = i - 1;
        if version.tier_len(i) > 0 {
            return false;
        }
    }
    true
}

/// The entries that are no tombstones.
fn live_only(entries: Vec<Entry>) -> (out: Vec<Entry>)
    ensures
        memtable::recs_of(out@) == memtable::recs_of(entries@).filter(|r: Rec| r.val is Some),
{
    let mut out: Vec<Entry> = Vec::new();
    let ghost recs = memtable::recs_of(entries@);
    let ghost f = |r: Rec| r.val is Some;
    let mut i: usize = 0;
    proof {
        reveal(Seq::filter);
        assert(recs.take(0) =~= Seq::empty());
        assert(memtable::recs_of(out@) =~= recs.take(0).filter(f));
    }
    while i < entries.len()
        invariant
            i <= entries@.len(),
            recs == memtable::recs_of(entries@),
            f == (|r: Rec| r.val is Some),
            memtable::recs_of(out@) == recs.take(i as int).filter(f),
        decreases entries.len() - i,
    {
        let ghost before = memtable::recs_of(out@);
        proof {
            reveal(Seq::filter);
            assert(recs.take(i + 1).drop_last() =~= recs.take(i as int));
            assert(recs.take(i + 1).last() == memtable::rec_of(entries@[i as int]));
        }
        if !entries[i].1.is_tombstone() {
            out.push(memtable::clone_entry(&entries[i]));
            assert(memtable::recs_of(out@) =~= before.push(recs[i as int]));
        }
        i = i + 1;
    }
    assert(recs.take(recs.len() as int) =~= recs);
    out
}

/// Reads the tables of a tier: the entries of each, and how many there are in all.
fn read_tier<S: Storage>(fs: &S, dir: &[u8], tier: &Vec<Arc<TableMeta>>) -> (r: sstable::Result<
    (Vec<EntrySource>, usize),
>)
    requires
        fs.wf(),
        fs.disk().dependable,
    ensures
        (forall|i: int|
            0 <= i < tier@.len() ==> tables::meta_good(
                fs.disk().fs,
                plain(dir@),
                #[trigger] manifest::metas_of(tier@)[i],
            )) ==> match r {
            Ok((sources, n)) => {
                let runs = tables::runs_of(fs.disk().fs, plain(dir@), manifest::metas_of(tier@));
                iter::source_recs(sources@) == runs && n == capped(iter::total(runs))
            },
            Err(_) => !fs.disk().reliable,
        },
{
    let ghost state = fs.disk().fs;
    let ghost metas = manifest::metas_of(tier@);
    let ghost good = forall|i: int|
        0 <= i < tier@.len() ==> tables::meta_good(state, plain(dir@), #[trigger] metas[i]);
    let mut sources: Vec<EntrySource> = Vec::new();
    let mut expected: usize = 0;
    let mut i: usize = 0;
    assert(iter::source_recs(sources@) =~= tables::runs_of(state, plain(dir@), metas.take(0)));
    while i < tier.len()
        invariant
            i <= tier@.len(),
            fs.wf(),
            fs.disk().dependable,
            state == fs.disk().fs,
            metas == manifest::metas_of(tier@),
            good == (forall|i: int|
                0 <= i < tier@.len() ==> tables::meta_good(state, plain(dir@), #[trigger] metas[i])),
            good ==> iter::source_recs(sources@) == tables::runs_of(
                state,
                plain(dir@),
                metas.take(i as int),
            ),
            good ==> expected == capped(
                iter::total(tables::runs_of(state, plain(dir@), metas.take(i as int))),
            ),
        decreases tier.len() - i,
    {
        let path: FilePath = manifest::table_path(dir, tier[i].id);
        let ghost m = metas[i as int];
        proof {
            assert(m == tier@[i as int]@);
            if good {
                assert(tables::meta_good(state, plain(dir@), m));
                reader::lemma_table_reads(state.content(path@), tables::held_by(state, plain(dir@), m));
            }
        }
        let table: SsTableReader = match SsTableReader::open(fs, &path) {
            Ok(t) => t,
            Err(e) => {
                return Err(e);
            },
        };
        let n: u64 = table.num_entries();
        let n: usize = if n > usize::MAX as u64 {
            usize::MAX
        } else {
            n as usize
        };
        expected = expected.saturating_add(n);
        let entries: Vec<Entry> = match read_all_entries(fs, &table) {
            Ok(v) => v,
            Err(e) => {
                return Err(e);
            },
        };
        let ghost before = iter::source_recs(sources@);
        let ghost recs = memtable::recs_of(entries@);
        sources.push(entries);
        proof {
            assert(iter::source_recs(sources@) =~= before.push(recs));
            if good {
                assert(iter::source_recs(sources@) =~= tables::runs_of(
                    state,
                    plain(dir@),
                    metas.take(i + 1),
                ));
                iter::lemma_total_push(before, recs);
            }
        }
        i = i + 1;
    }
    assert(metas.take(metas.len() as int) =~= metas);
    Ok((sources, expected))
}

/// Reads the tables of tier `t` and merges them: the entries that come out, and how
/// many there were in all.
fn merge_tier<S: Storage>(fs: &S, dir: &[u8], version: &Version, t: usize) -> (r: sstable::Result<
    (Vec<Entry>, usize),
>)
    requires
        fs.wf(),
        fs.disk().dependable,
        t < version@.tiers.len(),
    ensures
        tables::good_version(fs.disk().fs, plain(dir@), version@) ==> match r {
            Ok((out, n)) => memtable::recs_of(out@) == merged_run(
                fs.disk().fs,
                plain(dir@),
                version@,
                t as int,
            ) && n == capped(tier_entries(fs.disk().fs, plain(dir@), version@, t as int)),
            Err(_) => !fs.disk().reliable,
        },
{
    let ghost v = version@;
    let ghost state = fs.disk().fs;
    let ghost good = tables::good_version(state, plain(dir@), v);
    proof {
        if good {
            tables::lemma_good(state, plain(dir@), v);
            assert forall|i: int| 0 <= i < v.tiers[t as int].len() implies tables::meta_good(
                state,
                plain(dir@),
                #[trigger] v.tiers[t as int][i],
            ) by {
                let k = tables::lemma_placed(v.tiers, t as int, i);
                assert(tables::meta_good(state, plain(dir@), manifest::newest_first(v.tiers)[k]));
            }
        }
    }
    let tier: &Vec<Arc<TableMeta>> = &version.tiers[t];
    assert(manifest::metas_of(tier@) == v.tiers[t as int]);
    let (sources, expected): (Vec<EntrySource>, usize) = match read_tier(fs, dir, tier) {
        Ok(p) => p,
        Err(e) => {
            return Err(e);
        },
    };
    let merged: Vec<Entry> = MergeIterator::new(sources).collect();
    let out: Vec<Entry> = if output_is_bottom(version, t) {
        live_only(merged)
    } else {
        merged
    };
    Ok((out, expected))
}

/// What is left of the version after its tier `t` was merged and the outcome
/// installed, or a power loss came in between.
proof fn lemma_merge_installed(
    pre: FsState,
    mid: FsState,
    before: storage::Disk,
    post: storage::Disk,
    dir: Seq<u8>,
    v: VersionView,
    t: int,
    kept: Seq<VersionView>,
)
    requires
        facts::sound(pre),
        facts::sound(mid),
        manifest::says(pre, dir, v),
        tables::good_version(pre, dir, v),
        0 <= t < v.tiers.len(),
        v.next_table_id < u64::MAX,
        facts::keeps(pre, mid, set![manifest::table_at(dir, v.next_table_id)]),
        merged_run(pre, dir, v, t).len() <= u64::MAX,
        merged_run(pre, dir, v, t).len() > 0 ==> exists|bytes: Seq<u8>| #[trigger]
            table::is_table(bytes, merged_run(pre, dir, v, t)) && facts::visible(
                mid,
                manifest::table_at(dir, v.next_table_id),
                FileData { live: bytes, synced: bytes },
            ),
        manifest::install_outcome(
            before,
            post,
            dir,
            version_after(v, t, merged_run(pre, dir, v, t)),
            kept,
        ),
        before.fs == mid,
        !before.halted,
        post.room(),
    ensures
        ({
            let v2 = version_after(v, t, merged_run(pre, dir, v, t));
            ||| stepped(pre, post.fs, dir, v, t, v2) && compacts_to(pre, post.fs, dir, v, t, v2)
            ||| post.halted && stepped(pre, post.fs, dir, v, t, v)
        }),
{
    reveal(tables::good_version);
    reveal(stepped);
    reveal(manifest::install_outcome);
    let run = merged_run(pre, dir, v, t);
    let v2 = version_after(v, t, run);
    let bytes = choose|bytes: Seq<u8>| #[trigger]
        table::is_table(bytes, run) && facts::visible(
            mid,
            manifest::table_at(dir, v.next_table_id),
            FileData { live: bytes, synced: bytes },
        );
    lemma_merged_ready(pre, mid, dir, v, t, bytes);
    if manifest::says(post.fs, dir, v2) && manifest::settled_except(
        mid,
        post.fs,
        dir,
        kept.push(v2),
    ) {
        lemma_merged_good(pre, mid, post.fs, dir, v, t, kept);
        lemma_fresh_table(pre, dir, v, v.next_table_id);
        tables::lemma_grown_same(
            pre,
            mid,
            set![manifest::table_at(dir, v.next_table_id)],
            dir,
            v,
        );
        lemma_merged_grown(pre, mid, post.fs, dir, v, t, run, kept);
    } else {
        lemma_fresh_table(pre, dir, v, v.next_table_id);
        lemma_untouched(
            pre,
            mid,
            set![manifest::table_at(dir, v.next_table_id)],
            dir,
            v,
        );
        lemma_not_installed(mid, post.fs, dir, v);
    }
}

/// Merges every table of tier `t` into one new table in tier `t + 1` and installs
/// the resulting version.
fn compact_tier<S: Storage>(
    fs: &mut S,
    manifest: &mut Manifest,
    version: &Version,
    t: usize,
) -> (r: Result<()>)
    requires
        old(fs).wf(),
        old(fs).disk().dependable,
        old(fs).disk().room() ==> facts::sound(old(fs).disk().fs),
        version@ == old(manifest).version(),
        t < version@.tiers.len(),
    ensures
        final(fs).wf(),
        final(manifest).home() == old(manifest).home(),
        facts::carried(old(fs).disk(), final(fs).disk(), layout_names(old(manifest).home())),
        storage::used(old(fs).disk(), final(fs).disk(), 2),
        compaction_outcome(
            old(fs).disk(),
            final(fs).disk(),
            old(manifest),
            final(manifest),
            t as int,
            failure_of(r),
        ),
        manifest::among(final(manifest).retained(), old(manifest).alive()),
        r is Ok ==> exists|run: Seq<Rec>|
            final(manifest).version() == #[trigger] version_after(version@, t as int, run),
        r is Ok && final(fs).disk().room() && !final(fs).disk().halted ==> manifest::swept(
            final(fs).disk().fs,
            old(manifest).home(),
            final(manifest).alive(),
        ),
{
    let ghost d0 = fs.disk();
    let ghost v = version@;
    let ghost dir = manifest.home();
    let ghost good = manifest::says(d0.fs, dir, v) && tables::good_version(d0.fs, dir, v);
    let ghost names = layout_names(dir);
    proof {
        facts::lemma_carried_refl(d0, names);
        assert(version.tiers@.len() == version.tiers.len());
        lemma_retained_among(manifest);
        if good {
            tables::lemma_good(d0.fs, dir, v);
            lemma_unchanged(d0.fs, dir, v, t as int);
        }
    }
    let (out, expected): (Vec<Entry>, usize) = match merge_tier(fs, manifest.dir(), version, t) {
        Ok(p) => p,
        Err(e) => {
            return Err(CompactionError::SsTable(e));
        },
    };
    let out_id: u64 = version.next_table_id;
    if out_id == u64::MAX {
        return Err(CompactionError::Manifest(ManifestError::TooLarge));
    }
    let out_path: FilePath = manifest::table_path(manifest.dir(), out_id);
    let ghost run = memtable::recs_of(out@);
    let ghost v2 = version_after(v, t as int, run);
    assert(out@.len() == out.len());
    let written = write_table(fs, &out_path, out_id, expected, out);
    let ghost d1 = fs.disk();
    let ghost one = set![manifest::table_at(dir, out_id)];
    proof {
        lemma_table_name_apart(dir, out_id);
        facts::lemma_carried_mono(d0, d1, one, names);
        if good {
            lemma_merged_run(d0.fs, dir, v, t as int);
            if d1.room() {
                lemma_fresh_table(d0.fs, dir, v, out_id);
                lemma_untouched(d0.fs, d1.fs, one, dir, v);
                lemma_not_stepped(d0.fs, d1.fs, dir, v, t as int);
            }
        }
    }
    let output: Option<TableMeta> = match written {
        Ok(output) => output,
        Err(e) => {
            return Err(e);
        },
    };
    let new_version: Version = match output {
        Some(meta) => version.compacted(t, meta),
        None => version.cleared(t),
    };
    assert(new_version@ == v2);
    let installed = manifest.install(fs, new_version);
    let ghost d2 = fs.disk();
    let ghost kept = manifest.alive();
    proof {
        lemma_garbage_is_layout(dir, kept);
        facts::lemma_carried_mono(
            d1,
            d2,
            manifest::manifest_names(dir).union(manifest::garbage_names(dir, kept)),
            names,
        );
        facts::lemma_carried_trans(d0, d1, d2, names);
        if d2.room() && good && !d1.halted && record::version_fits(v2) {
            lemma_merge_installed(d0.fs, d1.fs, d1, d2, dir, v, t as int, kept);
        }
    }
    match installed {
        Ok(_) => Ok(()),
        Err(e) => Err(CompactionError::Manifest(e)),
    }
}

/// What went wrong, if something did.
pub open spec fn failure_of<T>(r: Result<T>) -> Option<CompactionError> {
    match r {
        Ok(_) => None,
        Err(e) => Some(e),
    }
}

/// What compacting tier `t` makes of the files and the manifest. On a reliable backend
/// it fails only where the formats cannot take the outcome.
pub open spec fn compaction_outcome(
    pre: storage::Disk,
    post: storage::Disk,
    before: &Manifest,
    after: &Manifest,
    t: int,
    failure: Option<CompactionError>,
) -> bool {
    let dir = before.home();
    let v = before.version();
    post.room() && manifest::says(pre.fs, dir, v) && tables::good_version(pre.fs, dir, v) ==> {
        &&& pre.halted ==> failure is Some
        &&& !post.halted ==> stepped(pre.fs, post.fs, dir, v, t, after.version())
        &&& !post.halted && failure is None ==> compacts_to(
            pre.fs,
            post.fs,
            dir,
            v,
            t,
            after.version(),
        )
        &&& !pre.halted && post.halted ==> exists|v2: VersionView| #[trigger]
            stepped(pre.fs, post.fs, dir, v, t, v2)
        &&& pre.reliable && !pre.halted && !pre.fs.live.contains_key(
            manifest::table_at(dir, v.next_table_id),
        ) ==> {
            &&& failure is None <==> compactable(pre.fs, dir, v, t)
            &&& failure matches Some(e) ==> is_limit(e) && (e is SsTable <==> v.next_table_id
                < u64::MAX && !merge_sized(pre.fs, dir, v, t))
        }
    }
}

proof fn lemma_retained_among(m: &Manifest)
    ensures
        manifest::among(m.retained(), m.alive()),
{
    assert forall|i: int| 0 <= i < m.retained().len() implies m.alive().contains(
        #[trigger] m.retained()[i],
    ) by {
        assert(m.alive()[i + 1] == m.retained()[i]);
    }
}

/// Merging two tables or more leaves fewer.
pub proof fn lemma_fewer_tables(v: VersionView, t: int, run: Seq<Rec>)
    requires
        0 <= t < v.tiers.len(),
    ensures
        v.tiers[t].len() >= 2 ==> manifest::newest_first(version_after(v, t, run).tiers).len()
            < manifest::newest_first(v.tiers).len(),
{
    tables::lemma_split(v.tiers, t);
    if run.len() == 0 {
        tables::lemma_cleared(v, t);
    } else {
        let m = MetaView {
            id: v.next_table_id,
            num_entries: run.len() as u64,
            first_key: run[0].key,
            last_key: run.last().key,
        };
        tables::lemma_compacted(v, t, m);
    }
}

/// Runs one compaction pass: the youngest tier that has reached the fanout is merged
/// down. Returns whether there was one.
pub fn maybe_compact<S: Storage>(
    fs: &mut S,
    manifest: &mut Manifest,
    tier_fanout: usize,
) -> (r: Result<bool>)
    requires
        old(fs).wf(),
        old(fs).disk().dependable,
        old(fs).disk().room() ==> facts::sound(old(fs).disk().fs),
    ensures
        final(fs).wf(),
        final(manifest).home() == old(manifest).home(),
        facts::carried(old(fs).disk(), final(fs).disk(), layout_names(old(manifest).home())),
        storage::used(old(fs).disk(), final(fs).disk(), 2),
        r matches Ok(false) ==> *final(fs) == *old(fs) && *final(manifest) == *old(manifest),
        (r is Ok && !r->Ok_0) <==> forall|t: int|
            0 <= t < old(manifest).version().tiers.len() ==> (
            #[trigger] old(manifest).version().tiers[t]).len() < tier_fanout,
        forall|t: int|
            #[trigger] is_full_tier(old(manifest).version(), tier_fanout as nat, t)
                ==> compaction_outcome(
                old(fs).disk(),
                final(fs).disk(),
                old(manifest),
                final(manifest),
                t,
                failure_of(r),
            ),
        forall|t: int|
            0 <= t < old(manifest).version().tiers.len() && (
            #[trigger] old(manifest).version().tiers[t]).len() >= tier_fanout && (forall|s: int|
                0 <= s < t ==> (#[trigger] old(manifest).version().tiers[s]).len() < tier_fanout)
                ==> compaction_outcome(
                old(fs).disk(),
                final(fs).disk(),
                old(manifest),
                final(manifest),
                t,
                failure_of(r),
            ),
        manifest::among(final(manifest).retained(), old(manifest).alive()),
        r matches Ok(true) ==> final(fs).disk().room() && !final(fs).disk().halted ==> manifest::swept(
            final(fs).disk().fs,
            old(manifest).home(),
            final(manifest).alive(),
        ),
        r matches Ok(true) ==> tier_fanout >= 2 ==> manifest::newest_first(
            final(manifest).version().tiers,
        ).len() < manifest::newest_first(old(manifest).version().tiers).len(),
{
    let version: Arc<Version> = manifest.current();
    let ghost v = version@;
    proof {
        facts::lemma_carried_refl(fs.disk(), layout_names(manifest.home()));
        lemma_retained_among(manifest);
    }
    let mut t: usize = 0;
    while t < version.tiers.len()
        invariant
            t <= v.tiers.len(),
            v == version@,
            v == manifest.version(),
            manifest.version() == old(manifest).version(),
            manifest.home() == old(manifest).home(),
            *manifest == *old(manifest),
            *fs == *old(fs),
            fs.wf(),
            fs.disk().dependable,
            fs.disk().room() ==> facts::sound(fs.disk().fs),
            forall|s: int| 0 <= s < t ==> (#[trigger] v.tiers[s]).len() < tier_fanout,
        decreases v.tiers.len() - t,
    {
        if version.tier_len(t) >= tier_fanout {
            assert forall|u: int| is_full_tier(v, tier_fanout as nat, u) implies u == t by {
                if u < t {
                    assert(v.tiers[u].len() < tier_fanout);
                } else if t < u {
                    assert(v.tiers[t as int].len() < tier_fanout);
                }
            }
            return match compact_tier(fs, manifest, &version, t) {
                Ok(_) => {
                    proof {
                        let run = choose|run: Seq<Rec>|
                            manifest.version() == #[trigger] version_after(v, t as int, run);
                        lemma_fewer_tables(v, t as int, run);
                    }
                    Ok(true)
                },
                Err(e) => Err(e),
            };
        }
        t = t + 1;
    }
    Ok(false)
}

/// How many keys the filter of a merged table is made for: as many as the tables of the tier
/// have entries.
pub proof fn lemma_merge_expects(fs: FsState, dir: Seq<u8>, v: VersionView, t: int)
    requires
        0 <= t < v.tiers.len(),
        tier_entries(fs, dir, v, t) <= usize::MAX,
    ensures
        capped(tier_entries(fs, dir, v, t)) == tier_entries(fs, dir, v, t),
        forall|i: int|
            0 <= i < v.tiers[t].len() ==> tables::held_by(fs, dir, #[trigger] v.tiers[t][i]).len()
                <= tier_entries(fs, dir, v, t),
        v.tiers[t].len() == 1 ==> tier_entries(fs, dir, v, t) == tables::held_by(
            fs,
            dir,
            v.tiers[t][0],
        ).len(),
{
    let runs = tables::runs_of(fs, dir, v.tiers[t]);
    assert forall|i: int| 0 <= i < v.tiers[t].len() implies tables::held_by(
        fs,
        dir,
        #[trigger] v.tiers[t][i],
    ).len() <= tier_entries(fs, dir, v, t) by {
        lemma_part_of_total(runs, i);
    }
    if runs.len() == 1 {
        assert(runs.drop_first() =~= Seq::empty());
        assert(iter::total(runs.drop_first()) == 0);
    }
}

proof fn lemma_part_of_total(runs: Seq<Seq<Rec>>, i: int)
    requires
        0 <= i < runs.len(),
    ensures
        runs[i].len() <= iter::total(runs),
    decreases runs.len(),
{
    if i > 0 {
        lemma_part_of_total(runs.drop_first(), i - 1);
    }
}

/// What a compaction pass owes: on a version whose files are good it merges the tier if it
/// succeeds, and on a backend that works it succeeds while ids are left and the formats can
/// take the outcome.
pub proof fn lemma_compaction_owed(
    pre: storage::Disk,
    post: storage::Disk,
    before: &Manifest,
    after: &Manifest,
    t: int,
    failure: Option<CompactionError>,
)
    requires
        compaction_outcome(pre, post, before, after, t, failure),
        post.room(),
        !post.halted,
        manifest::says(pre.fs, before.home(), before.version()),
        tables::good_version(pre.fs, before.home(), before.version()),
    ensures
        failure is None ==> compacts_to(
            pre.fs,
            post.fs,
            before.home(),
            before.version(),
            t,
            after.version(),
        ),
        manifest::says(post.fs, before.home(), after.version()),
        pre.reliable && !pre.halted && !pre.fs.live.contains_key(
            manifest::table_at(before.home(), before.version().next_table_id),
        ) && before.version().next_table_id < u64::MAX && sized(
            merged_run(pre.fs, before.home(), before.version(), t),
            capped(tier_entries(pre.fs, before.home(), before.version(), t)),
        ) && record::version_fits(
            version_after(
                before.version(),
                t,
                merged_run(pre.fs, before.home(), before.version(), t),
            ),
        ) ==> failure is None,
{
    reveal(stepped);
}

} // verus!
