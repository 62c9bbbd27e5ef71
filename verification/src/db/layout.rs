//! What flushes and compactions make of the tables, and where the file formats end.
//!
//! A layout is a version with the records of its tables. A flush adds a table to the
//! youngest tier; a compaction merges the tables of a tier into one. Both can be
//! carried out as long as ids are left and the formats can describe what they give.

use vstd::prelude::*;

use crate::codec;
use crate::compaction;
use crate::iter;
use crate::manifest;
use crate::manifest::record;
use crate::manifest::{MetaView, VersionView};
use crate::memtable;
use crate::model::Rec;
use crate::sstable::bloom;
use crate::sstable::builder;
use crate::sstable::table;
use crate::sstable::{Part, BLOCK_SIZE, DEFAULT_BITS_PER_KEY};
use crate::storage::FsState;
use crate::tables;

verus! {

/// A version, and what its tables hold, newest first.
#[verifier::ext_equal]
pub struct Layout {
    pub version: VersionView,
    pub runs: Seq<Seq<Rec>>,
}

/// The layout in `dir` when `v` is the current version.
pub open spec fn layout_of(fs: FsState, dir: Seq<u8>, v: VersionView) -> Layout {
    Layout { version: v, runs: tables::stack_of(fs, dir, v) }
}

/// Table `id` with the records of `run`.
pub open spec fn table_of(id: u64, run: Seq<Rec>) -> MetaView {
    MetaView {
        id,
        num_entries: run.len() as u64,
        first_key: run[0].key,
        last_key: run.last().key,
    }
}

/// What a flush of the given memory writes to tables, one after the other: the frozen
/// tables, the oldest first, and then the active one, if it has entries. Memory is
/// given newest first.
pub open spec fn pending_of(mem: Seq<Seq<Rec>>) -> Seq<Seq<Rec>> {
    let frozen = Seq::new((mem.len() - 1) as nat, |i: int| mem[mem.len() - 1 - i]);
    if mem[0].len() > 0 {
        frozen.push(mem[0])
    } else {
        frozen
    }
}

impl Layout {
    /// How many tables there are.
    pub open spec fn tables(self) -> nat {
        manifest::newest_first(self.version.tiers).len()
    }

    /// What the tables of tier `t` hold, the oldest first.
    pub open spec fn tier(self, t: int) -> Seq<Seq<Rec>> {
        let a = tables::above(self.version, t).len();
        let n = self.version.tiers[t].len();
        Seq::new(n, |i: int| self.runs[a + n - 1 - i])
    }

    /// What the tables of tier `t` merge into: of every key the newest version, and no
    /// tombstones if nothing older is left.
    pub open spec fn merged(self, t: int) -> Seq<Rec> {
        let all = iter::merged(self.tier(t));
        if compaction::is_bottom(self.version, t) {
            all.filter(|r: Rec| r.val is Some)
        } else {
            all
        }
    }

    /// The layout after the tables of tier `t` were merged.
    pub open spec fn compacted(self, t: int) -> Layout {
        let a = tables::above(self.version, t).len() as int;
        let n = self.version.tiers[t].len();
        let run = self.merged(t);
        Layout {
            version: compaction::version_after(self.version, t, run),
            runs: self.runs.take(a) + compaction::if_any(run) + self.runs.skip(a + n),
        }
    }

    /// An id is left for the table that merging tier `t` gives, and the formats can
    /// describe it and the version after that.
    pub open spec fn can_compact(self, t: int) -> bool {
        let run = self.merged(t);
        &&& self.version.next_table_id < u64::MAX
        &&& compaction::sized(run, compaction::capped(iter::total(self.tier(t))))
        &&& record::version_fits(compaction::version_after(self.version, t, run))
    }

    /// The youngest tier that has reached the fanout.
    pub open spec fn full_tier(self, fanout: nat) -> int {
        choose|t: int| compaction::is_full_tier(self.version, fanout, t)
    }

    /// The layout after compactions until no tier has reached the fanout, the youngest
    /// such tier first.
    pub open spec fn settled(self, fanout: nat) -> Layout
        decreases self.tables(),
    {
        let next = self.compacted(self.full_tier(fanout));
        if super::settled(self.version, fanout) || next.tables() >= self.tables() {
            self
        } else {
            next.settled(fanout)
        }
    }

    /// Each of those compactions can be carried out.
    pub open spec fn can_settle(self, fanout: nat) -> bool
        decreases self.tables(),
    {
        let next = self.compacted(self.full_tier(fanout));
        if super::settled(self.version, fanout) || next.tables() >= self.tables() {
            true
        } else {
            self.can_compact(self.full_tier(fanout)) && next.can_settle(fanout)
        }
    }

    /// The layout after `run` was flushed, when `next_seq` is the next sequence number.
    pub open spec fn flushed(self, run: Seq<Rec>, next_seq: u64) -> Layout {
        Layout {
            version: self.version.flushed(table_of(self.version.next_table_id, run), next_seq),
            runs: seq![run] + self.runs,
        }
    }

    /// An id is left for the table of `run`, and the formats can describe it and the
    /// version after that.
    pub open spec fn can_flush(self, run: Seq<Rec>, next_seq: u64) -> bool {
        &&& self.version.next_table_id < u64::MAX
        &&& compaction::sized(run, run.len())
        &&& record::version_fits(self.flushed(run, next_seq).version)
    }

    /// The layout after the runs were flushed, one after the other.
    pub open spec fn all_flushed(self, runs: Seq<Seq<Rec>>, next_seq: u64) -> Layout
        decreases runs.len(),
    {
        if runs.len() == 0 {
            self
        } else {
            self.all_flushed(runs.drop_last(), next_seq).flushed(runs.last(), next_seq)
        }
    }

    /// Each of those flushes can be carried out.
    pub open spec fn can_flush_all(self, runs: Seq<Seq<Rec>>, next_seq: u64) -> bool
        decreases runs.len(),
    {
        runs.len() == 0 || {
            &&& self.can_flush_all(runs.drop_last(), next_seq)
            &&& self.all_flushed(runs.drop_last(), next_seq).can_flush(runs.last(), next_seq)
        }
    }

    /// The layout after the runs were flushed and the tiers compacted.
    pub open spec fn absorbed(self, runs: Seq<Seq<Rec>>, next_seq: u64, fanout: nat) -> Layout {
        self.all_flushed(runs, next_seq).settled(fanout)
    }

    /// The runs can be flushed and the tiers compacted.
    pub open spec fn can_absorb(self, runs: Seq<Seq<Rec>>, next_seq: u64, fanout: nat) -> bool {
        self.can_flush_all(runs, next_seq) && self.all_flushed(runs, next_seq).can_settle(fanout)
    }

    /// How many files it may take to flush so many runs and to compact: for each run
    /// and for each compaction a table and a manifest, and a new segment of the log.
    pub open spec fn files_to_absorb(self, runs: nat) -> nat {
        4 * runs + 2 * self.tables() + 1
    }

    /// One flush more.
    pub proof fn lemma_flush_next(self, runs: Seq<Seq<Rec>>, next_seq: u64, i: int)
        requires
            0 <= i < runs.len(),
        ensures
            self.all_flushed(runs.take(i + 1), next_seq) == self.all_flushed(
                runs.take(i),
                next_seq,
            ).flushed(runs[i], next_seq),
            self.can_flush_all(runs.take(i + 1), next_seq) == (self.can_flush_all(
                runs.take(i),
                next_seq,
            ) && self.all_flushed(runs.take(i), next_seq).can_flush(runs[i], next_seq)),
    {
        assert(runs.take(i + 1).drop_last() =~= runs.take(i));
        assert(runs.take(i + 1).last() == runs[i]);
    }

    /// Flushes that can all be carried out can be carried out up to any point.
    pub proof fn lemma_flush_first(self, runs: Seq<Seq<Rec>>, next_seq: u64, i: int)
        requires
            self.can_flush_all(runs, next_seq),
            0 <= i <= runs.len(),
        ensures
            self.can_flush_all(runs.take(i), next_seq),
        decreases runs.len() - i,
    {
        if i < runs.len() {
            self.lemma_flush_first(runs, next_seq, i + 1);
            self.lemma_flush_next(runs, next_seq, i);
        } else {
            assert(runs.take(i) =~= runs);
        }
    }

    /// Each compaction is one of those that settle the layout.
    pub proof fn lemma_settle_next(self, fanout: nat, t: int)
        requires
            compaction::is_full_tier(self.version, fanout, t),
            fanout >= 2,
        ensures
            self.full_tier(fanout) == t,
            self.compacted(t).tables() < self.tables(),
            self.settled(fanout) == self.compacted(t).settled(fanout),
            self.can_settle(fanout) == (self.can_compact(t) && self.compacted(t).can_settle(
                fanout,
            )),
    {
        let u = self.full_tier(fanout);
        assert(compaction::is_full_tier(self.version, fanout, u));
        assert(u == t) by {
            if u < t {
                assert(self.version.tiers[u].len() < fanout);
            } else if t < u {
                assert(self.version.tiers[t].len() < fanout);
            }
        }
        compaction::lemma_fewer_tables(self.version, t, self.merged(t));
        assert(!super::settled(self.version, fanout)) by {
            assert(self.version.tiers[t].len() >= fanout);
        }
    }
}

/// What the tables of a tier hold is found in the layout.
proof fn lemma_tier(fs: FsState, dir: Seq<u8>, v: VersionView, t: int)
    requires
        0 <= t < v.tiers.len(),
    ensures
        layout_of(fs, dir, v).tier(t) == tables::runs_of(fs, dir, v.tiers[t]),
        layout_of(fs, dir, v).merged(t) == compaction::merged_run(fs, dir, v, t),
{
    let l = layout_of(fs, dir, v);
    compaction::lemma_stack_split(fs, dir, v, t);
    let a = tables::runs_of(fs, dir, tables::above(v, t));
    let b = tables::runs_of(fs, dir, manifest::reversed(v.tiers[t]));
    let n = v.tiers[t].len();
    assert forall|i: int| 0 <= i < n implies #[trigger] l.tier(t)[i] == tables::runs_of(
        fs,
        dir,
        v.tiers[t],
    )[i] by {
        assert(l.runs[a.len() + n - 1 - i] == b[n - 1 - i]);
    }
    assert(l.tier(t) =~= tables::runs_of(fs, dir, v.tiers[t]));
}

/// Where the formats end for a compaction is a matter of the layout.
pub proof fn lemma_compactable(fs: FsState, dir: Seq<u8>, v: VersionView, t: int)
    requires
        0 <= t < v.tiers.len(),
    ensures
        compaction::compactable(fs, dir, v, t) == layout_of(fs, dir, v).can_compact(t),
{
    lemma_tier(fs, dir, v, t);
}

/// A compaction compacts the layout.
pub proof fn lemma_compacted(
    pre: FsState,
    post: FsState,
    dir: Seq<u8>,
    v: VersionView,
    t: int,
    v2: VersionView,
)
    requires
        0 <= t < v.tiers.len(),
        compaction::compacts_to(pre, post, dir, v, t, v2),
    ensures
        layout_of(post, dir, v2) == layout_of(pre, dir, v).compacted(t),
{
    reveal(compaction::compacts_to);
    lemma_tier(pre, dir, v, t);
    compaction::lemma_stack_split(pre, dir, v, t);
    let l = layout_of(pre, dir, v);
    let a = tables::runs_of(pre, dir, tables::above(v, t));
    let n = v.tiers[t].len();
    let c = tables::runs_of(pre, dir, tables::beneath(v, t));
    assert(l.runs.take(a.len() as int) =~= a);
    assert(l.runs.skip((a.len() + n) as int) =~= c);
}

/// What is pending after the active table was frozen is what was.
pub proof fn lemma_pending_frozen(mem: Seq<Seq<Rec>>, active: Seq<Rec>)
    requires
        mem.len() > 0,
        mem[0].len() > 0,
        active.len() == 0,
    ensures
        pending_of(seq![active] + mem) == pending_of(mem),
{
    assert(pending_of(seq![active] + mem) =~= pending_of(mem));
}

/// So many bytes of records are far from the limits of the table format.
pub const SMALL: u64 = 0x4000_0000;

/// What runs are charged in all.
pub open spec fn weight(runs: Seq<Seq<Rec>>) -> nat
    decreases runs.len(),
{
    if runs.len() == 0 {
        0
    } else {
        weight(runs.drop_last()) + memtable::footprint(runs.last())
    }
}

proof fn lemma_footprint_concat(a: Seq<Rec>, b: Seq<Rec>)
    ensures
        memtable::footprint(a + b) == memtable::footprint(a) + memtable::footprint(b),
    decreases b.len(),
{
    if b.len() == 0 {
        assert(a + b =~= a);
    } else {
        assert((a + b).drop_last() =~= a + b.drop_last());
        lemma_footprint_concat(a, b.drop_last());
    }
}

proof fn lemma_footprint_first(run: Seq<Rec>)
    requires
        run.len() > 0,
    ensures
        memtable::footprint(run) == memtable::footprint(run.drop_first()) + run[0].key.len()
            + memtable::payload_len(run[0].val) + 32,
{
    let one = seq![run[0]];
    assert(one + run.drop_first() =~= run);
    lemma_footprint_concat(one, run.drop_first());
    assert(one.drop_last() =~= Seq::empty());
    assert(memtable::footprint(one.drop_last()) == 0);
}

/// A run is charged for each of its records.
proof fn lemma_footprint_each(run: Seq<Rec>, i: int)
    requires
        0 <= i < run.len(),
    ensures
        run[i].key.len() + memtable::payload_len(run[i].val) + 32 <= memtable::footprint(run),
        32 * run.len() <= memtable::footprint(run),
    decreases run.len(),
{
    if run.len() > 1 {
        lemma_footprint_each(run.drop_last(), if i < run.len() - 1 { i } else { 0 });
    }
}

proof fn lemma_weight_concat(a: Seq<Seq<Rec>>, b: Seq<Seq<Rec>>)
    ensures
        weight(a + b) == weight(a) + weight(b),
    decreases b.len(),
{
    if b.len() == 0 {
        assert(a + b =~= a);
    } else {
        assert((a + b).drop_last() =~= a + b.drop_last());
        lemma_weight_concat(a, b.drop_last());
    }
}

proof fn lemma_weight_one(run: Seq<Rec>)
    ensures
        weight(seq![run]) == memtable::footprint(run),
{
    assert(seq![run].drop_last() =~= Seq::empty());
    assert(weight(seq![run].drop_last()) == 0);
}

/// Nothing is charged for an empty run.
pub proof fn lemma_weight_empty()
    ensures
        weight(seq![Seq::<Rec>::empty()]) == 0,
{
    lemma_weight_one(Seq::empty());
}

/// The charge does not depend on the order.
proof fn lemma_weight_reversed(a: Seq<Seq<Rec>>, b: Seq<Seq<Rec>>)
    requires
        a.len() == b.len(),
        forall|i: int| 0 <= i < a.len() ==> #[trigger] a[i] == b[b.len() - 1 - i],
    ensures
        weight(a) == weight(b),
    decreases a.len(),
{
    if a.len() > 0 {
        let head = seq![b[0]];
        let tail = b.drop_first();
        assert forall|i: int| 0 <= i < a.drop_last().len() implies #[trigger] a.drop_last()[i]
            == tail[tail.len() - 1 - i] by {
            assert(a[i] == b[b.len() - 1 - i]);
        }
        lemma_weight_reversed(a.drop_last(), tail);
        assert(head + tail =~= b);
        lemma_weight_concat(head, tail);
        lemma_weight_one(b[0]);
        assert(a[a.len() - 1] == b[0]);
    }
}

/// The charge when one run takes the place of another.
pub proof fn lemma_weight_update(sources: Seq<Seq<Rec>>, i: int, run: Seq<Rec>)
    requires
        0 <= i < sources.len(),
    ensures
        weight(sources.update(i, run)) + memtable::footprint(sources[i]) == weight(sources)
            + memtable::footprint(run),
    decreases sources.len(),
{
    let other = sources.update(i, run);
    if i == sources.len() - 1 {
        assert(other.drop_last() =~= sources.drop_last());
    } else {
        lemma_weight_update(sources.drop_last(), i, run);
        assert(other.drop_last() =~= sources.drop_last().update(i, run));
    }
}

proof fn lemma_weight_discarded(sources: Seq<Seq<Rec>>, key: Seq<u8>)
    ensures
        weight(iter::discarded(sources, key)) <= weight(sources),
    decreases iter::total(sources),
{
    if iter::has_leader(sources) && sources[iter::leader(sources)][0].key == key {
        let i = iter::leader(sources);
        assert(iter::leads(sources, i));
        iter::lemma_total_popped(sources, i);
        lemma_weight_update(sources, i, sources[i].drop_first());
        lemma_footprint_first(sources[i]);
        lemma_weight_discarded(iter::popped(sources, i), key);
    }
}

/// A merge is charged no more than what it merges.
proof fn lemma_weight_merged(sources: Seq<Seq<Rec>>)
    ensures
        memtable::footprint(iter::merged(sources)) <= weight(sources),
    decreases iter::total(sources),
{
    if iter::has_leader(sources) {
        let i = iter::leader(sources);
        assert(iter::leads(sources, i));
        let head = sources[i][0];
        let less = iter::popped(sources, i);
        iter::lemma_total_popped(sources, i);
        iter::lemma_total_discarded(less, head.key);
        lemma_weight_update(sources, i, sources[i].drop_first());
        lemma_footprint_first(sources[i]);
        lemma_weight_discarded(less, head.key);
        lemma_weight_merged(iter::advanced(sources));
        lemma_footprint_concat(seq![head], iter::merged(iter::advanced(sources)));
        lemma_footprint_first(seq![head]);
        assert(seq![head].drop_first() =~= Seq::empty());
        assert(memtable::footprint(seq![head].drop_first()) == 0);
    }
}

proof fn lemma_footprint_filtered(run: Seq<Rec>, f: spec_fn(Rec) -> bool)
    ensures
        memtable::footprint(run.filter(f)) <= memtable::footprint(run),
    decreases run.len(),
{
    reveal(Seq::filter);
    if run.len() > 0 {
        lemma_footprint_filtered(run.drop_last(), f);
        if f(run.last()) {
            assert(run.filter(f).drop_last() =~= run.drop_last().filter(f));
        }
    }
}

/// The blocks of a run and their index take no more than the run is charged.
proof fn lemma_blocks_small(recs: Seq<Rec>)
    ensures
        ({
            let l = table::layout(recs);
            let open = l.current.len() > 0;
            &&& table::data_bytes(l.blocks).len() + table::block_body(l.current).len() + (if open {
                4int
            } else {
                0
            }) <= memtable::footprint(recs)
            &&& table::handles_bytes(table::handles_of(l.blocks)).len() + (if open {
                16 + l.current[0].key.len()
            } else {
                0
            }) <= memtable::footprint(recs)
            &&& l.blocks.len() <= recs.len()
            &&& recs.len() > 0 ==> open && l.blocks.len() < recs.len()
        }),
    decreases recs.len(),
{
    if recs.len() == 0 {
        let l = table::layout(recs);
        assert(table::handles_of(l.blocks) =~= Seq::empty());
    } else {
        let less = recs.drop_last();
        let r = recs.last();
        lemma_blocks_small(less);
        let l = table::layout(less);
        let m = table::laid(l, r);
        table::lemma_entry_len(r);
        if l.current.len() > 0 && table::block_body(l.current).len() + table::entry_len(r)
            > BLOCK_SIZE {
            builder::lemma_handles_push(l.blocks, l.current);
            let h = table::handles_of(m.blocks).last();
            assert(m.blocks.drop_last() =~= l.blocks);
            assert(table::handles_of(m.blocks).drop_last() =~= table::handles_of(l.blocks));
            table::lemma_handle_len(h);
            table::lemma_unsealed(table::block_body(l.current), Part::DataBlock);
            assert(m.current.drop_last() =~= Seq::empty());
            assert(table::block_body(m.current.drop_last()) =~= Seq::empty());
        } else {
            assert(m.current.drop_last() =~= l.current);
            if l.current.len() > 0 {
                assert(m.current[0] == l.current[0]);
            }
        }
    }
}

/// The format can describe a table of a small run.
pub proof fn lemma_small_sized(recs: Seq<Rec>, expected_keys: nat)
    requires
        memtable::footprint(recs) <= SMALL,
        32 * expected_keys <= SMALL,
    ensures
        compaction::sized(recs, expected_keys),
{
    let keys = compaction::sizing(expected_keys);
    let bits = bloom::bits_for(keys, DEFAULT_BITS_PER_KEY as nat);
    assert(bits <= u32::MAX) by {
        assert(keys * 10 <= 0x2000_0000 * 10);
    }
    assert forall|i: int| 0 <= i < recs.len() implies table::entry_fits(#[trigger] recs[i]) by {
        lemma_footprint_each(recs, i);
    }
    if recs.len() > 0 {
        lemma_footprint_each(recs, 0);
        lemma_blocks_small(recs);
        let l = table::layout(recs);
        let blocks = table::blocks_of(recs);
        builder::lemma_handles_push(l.blocks, l.current);
        assert(blocks.drop_last() =~= l.blocks);
        assert(table::handles_of(blocks).drop_last() =~= table::handles_of(l.blocks));
        table::lemma_handle_len(table::handles_of(blocks).last());
        table::lemma_unsealed(table::block_body(l.current), Part::DataBlock);
        let index = table::index_body(table::handles_of(blocks));
        codec::lemma_u32(table::handles_of(blocks).len() as u32);
        table::lemma_unsealed(index, Part::Index);
        assert forall|filter: bloom::BloomView|
            filter.wf() && filter.num_bits == bits implies #[trigger] table::table_fits(
            recs,
            filter,
        ) by {
            builder::lemma_image_len(blocks, filter, recs.len() as u64);
            bloom::lemma_bloom_round_trip(filter, Seq::empty());
            table::lemma_unsealed(filter.bytes(), Part::Bloom);
        }
    }
}

/// The format can describe these tables.
spec fn metas_fit(metas: Seq<MetaView>) -> bool {
    forall|k: int| 0 <= k < metas.len() ==> record::meta_fits(#[trigger] metas[k])
}

proof fn lemma_version_fits(v: VersionView)
    requires
        v.tiers.len() <= u32::MAX,
        manifest::newest_first(v.tiers).len() <= u32::MAX,
        metas_fit(manifest::newest_first(v.tiers)),
    ensures
        record::version_fits(v),
{
    assert forall|t: int| 0 <= t < v.tiers.len() implies record::tier_fits(
        #[trigger] v.tiers[t],
    ) by {
        tables::lemma_split(v.tiers, t);
        assert forall|i: int| 0 <= i < v.tiers[t].len() implies record::meta_fits(
            #[trigger] v.tiers[t][i],
        ) by {
            let k = tables::lemma_placed(v.tiers, t, i);
            assert(record::meta_fits(manifest::newest_first(v.tiers)[k]));
        }
    }
}

proof fn lemma_metas_fit(v: VersionView)
    requires
        record::version_fits(v),
    ensures
        metas_fit(manifest::newest_first(v.tiers)),
{
    let order = manifest::newest_first(v.tiers);
    assert forall|k: int| 0 <= k < order.len() implies record::meta_fits(#[trigger] order[k]) by {
        let r = tables::lemma_listed(v.tiers, k);
        assert(record::tier_fits(v.tiers[r.0]));
        assert(record::meta_fits(v.tiers[r.0][r.1]));
    }
}

proof fn lemma_trimmed_len(tiers: Seq<Seq<MetaView>>)
    ensures
        manifest::trimmed(tiers).len() <= tiers.len(),
    decreases tiers.len(),
{
    if tiers.len() > 0 && tiers.last().len() == 0 {
        lemma_trimmed_len(tiers.drop_last());
    }
}

/// A run that is small and not empty has a table that the manifest can describe.
proof fn lemma_table_fits(id: u64, run: Seq<Rec>)
    requires
        run.len() > 0,
        memtable::footprint(run) <= SMALL,
    ensures
        record::meta_fits(table_of(id, run)),
{
    lemma_footprint_each(run, 0);
    lemma_footprint_each(run, run.len() - 1);
}

impl Layout {
    /// The layout is far from the limits of the formats, also when it takes `more` runs
    /// that are charged `bytes` in all.
    pub open spec fn is_small(self, more: nat, bytes: nat) -> bool {
        &&& self.runs.len() == self.tables()
        &&& record::version_fits(self.version)
        &&& weight(self.runs) + bytes <= SMALL
        &&& self.version.tiers.len() + self.tables() + 2 * more < u32::MAX
        &&& self.version.next_table_id + self.tables() + 2 * more < u64::MAX
    }

    /// A small layout takes a small run.
    proof fn lemma_small_flush(self, run: Seq<Rec>, next_seq: u64, more: nat, bytes: nat)
        requires
            self.is_small(more + 1, bytes + memtable::footprint(run)),
            run.len() > 0,
        ensures
            self.can_flush(run, next_seq),
            self.flushed(run, next_seq).is_small(more, bytes),
            self.flushed(run, next_seq).tables() == self.tables() + 1,
    {
        let m = table_of(self.version.next_table_id, run);
        let after = self.flushed(run, next_seq);
        let order = manifest::newest_first(self.version.tiers);
        lemma_footprint_each(run, 0);
        lemma_small_sized(run, run.len());
        lemma_table_fits(m.id, run);
        lemma_metas_fit(self.version);
        tables::lemma_flushed(self.version, m, next_seq);
        assert(metas_fit(seq![m] + order)) by {
            assert forall|k: int| 0 <= k < (seq![m] + order).len() implies record::meta_fits(
                #[trigger] (seq![m] + order)[k],
            ) by {
                if k > 0 {
                    assert(record::meta_fits(order[k - 1]));
                }
            }
        }
        lemma_version_fits(after.version);
        lemma_weight_concat(seq![run], self.runs);
        lemma_weight_one(run);
    }

    /// A small layout whose tier is merged stays small.
    proof fn lemma_small_compact(self, t: int, more: nat, bytes: nat)
        requires
            self.is_small(more, bytes),
            0 <= t < self.version.tiers.len(),
            self.version.tiers[t].len() >= 2,
        ensures
            self.can_compact(t),
            self.compacted(t).is_small(more, bytes),
            self.compacted(t).tables() < self.tables(),
    {
        let v = self.version;
        let a = tables::above(v, t).len() as int;
        let n = v.tiers[t].len() as int;
        let run = self.merged(t);
        let after = self.compacted(t);
        let order = manifest::newest_first(v.tiers);
        tables::lemma_split(v.tiers, t);
        let low = self.runs.take(a);
        let mid = self.runs.subrange(a, a + n);
        let high = self.runs.skip(a + n);
        assert(self.runs =~= low + mid + high);
        lemma_weight_concat(low + mid, high);
        lemma_weight_concat(low, mid);
        lemma_weight_reversed(self.tier(t), mid);
        lemma_weight_merged(self.tier(t));
        lemma_footprint_filtered(iter::merged(self.tier(t)), |r: Rec| r.val is Some);
        assert(memtable::footprint(run) <= weight(mid));
        lemma_total_small(self.tier(t));
        lemma_small_sized(run, compaction::capped(iter::total(self.tier(t))));
        lemma_metas_fit(v);
        compaction::lemma_fewer_tables(v, t, run);
        let none = Seq::<Seq<Rec>>::empty();
        if run.len() == 0 {
            tables::lemma_cleared(v, t);
            lemma_trimmed_len(v.tiers.update(t, Seq::empty()));
            assert(low + none + high =~= low + high);
            lemma_weight_concat(low, high);
            assert(after.runs =~= low + high);
        } else {
            let m = table_of(v.next_table_id, run);
            tables::lemma_compacted(v, t, m);
            let tiers = manifest::padded(v.tiers, (t + 2) as nat);
            lemma_trimmed_len(
                tiers.update(t, Seq::empty()).update(t + 1, tiers[t + 1].push(m)),
            );
            lemma_table_fits(m.id, run);
            lemma_weight_concat(low + seq![run], high);
            lemma_weight_concat(low, seq![run]);
            lemma_weight_one(run);
            assert(after.runs =~= low + seq![run] + high);
        }
        let now = manifest::newest_first(after.version.tiers);
        assert(metas_fit(now)) by {
            assert forall|k: int| 0 <= k < now.len() implies record::meta_fits(
                #[trigger] now[k],
            ) by {
                let c = tables::beneath(v, t);
                if k < a {
                    assert(now[k] == order[k]);
                } else if run.len() > 0 && k == a {
                } else {
                    let j = k - a - if run.len() > 0 { 1int } else { 0 };
                    assert(now[k] == c[j]);
                    assert(order[a + n + j] == c[j]);
                }
            }
        }
        lemma_version_fits(after.version);
    }

    /// A small layout settles.
    proof fn lemma_small_settles(self, fanout: nat, more: nat, bytes: nat)
        requires
            self.is_small(more, bytes),
            fanout >= 2,
        ensures
            self.can_settle(fanout),
            self.settled(fanout).is_small(more, bytes),
            self.settled(fanout).tables() <= self.tables(),
        decreases self.tables(),
    {
        if !super::settled(self.version, fanout) {
            let t0 = choose|t: int|
                0 <= t < self.version.tiers.len() && (#[trigger] self.version.tiers[t]).len()
                    >= fanout;
            let t = super::lemma_full_tier(self.version, fanout, t0);
            self.lemma_settle_next(fanout, t);
            self.lemma_small_compact(t, more, bytes);
            self.compacted(t).lemma_small_settles(fanout, more, bytes);
        }
    }

    /// Flushes and compactions do not fail for want of space in the formats while there
    /// is little data: a small layout takes small runs.
    pub proof fn lemma_small_absorbs(
        self,
        runs: Seq<Seq<Rec>>,
        next_seq: u64,
        fanout: nat,
        more: nat,
        bytes: nat,
    )
        requires
            self.is_small(runs.len() + more, weight(runs) + bytes),
            forall|i: int| 0 <= i < runs.len() ==> (#[trigger] runs[i]).len() > 0,
            fanout >= 2,
        ensures
            self.can_absorb(runs, next_seq, fanout),
            self.absorbed(runs, next_seq, fanout).is_small(more, bytes),
            self.absorbed(runs, next_seq, fanout).tables() <= self.tables() + runs.len(),
    {
        self.lemma_small_flushes(runs, next_seq, more, bytes);
        self.all_flushed(runs, next_seq).lemma_small_settles(fanout, more, bytes);
    }

    proof fn lemma_small_flushes(self, runs: Seq<Seq<Rec>>, next_seq: u64, more: nat, bytes: nat)
        requires
            self.is_small(runs.len() + more, weight(runs) + bytes),
            forall|i: int| 0 <= i < runs.len() ==> (#[trigger] runs[i]).len() > 0,
        ensures
            self.can_flush_all(runs, next_seq),
            self.all_flushed(runs, next_seq).is_small(more, bytes),
            self.all_flushed(runs, next_seq).tables() == self.tables() + runs.len(),
        decreases runs.len(),
    {
        if runs.len() > 0 {
            let less = runs.drop_last();
            let last = runs.last();
            assert forall|i: int| 0 <= i < less.len() implies (#[trigger] less[i]).len() > 0 by {
                assert(runs[i].len() > 0);
            }
            assert(runs[runs.len() - 1].len() > 0);
            self.lemma_small_flushes(
                less,
                next_seq,
                more + 1,
                bytes + memtable::footprint(last),
            );
            self.all_flushed(less, next_seq).lemma_small_flush(last, next_seq, more, bytes);
        }
    }
}

/// A flush is charged what memory is.
pub proof fn lemma_pending_weight(mem: Seq<Seq<Rec>>)
    requires
        mem.len() > 0,
    ensures
        weight(pending_of(mem)) == weight(mem),
        pending_of(mem).len() <= mem.len(),
{
    let frozen = Seq::new((mem.len() - 1) as nat, |i: int| mem[mem.len() - 1 - i]);
    let rest = mem.skip(1);
    assert forall|i: int| 0 <= i < frozen.len() implies #[trigger] frozen[i] == rest[rest.len() - 1
        - i] by {}
    lemma_weight_reversed(frozen, rest);
    assert(seq![mem[0]] + rest =~= mem);
    lemma_weight_concat(seq![mem[0]], rest);
    lemma_weight_one(mem[0]);
    assert(frozen + seq![mem[0]] =~= frozen.push(mem[0]));
    lemma_weight_concat(frozen, seq![mem[0]]);
}

/// Small runs have few entries.
proof fn lemma_total_small(runs: Seq<Seq<Rec>>)
    ensures
        32 * iter::total(runs) <= weight(runs),
    decreases runs.len(),
{
    if runs.len() > 0 {
        let one = seq![runs[0]];
        assert(one + runs.drop_first() =~= runs);
        lemma_weight_concat(one, runs.drop_first());
        lemma_weight_one(runs[0]);
        lemma_total_small(runs.drop_first());
        if runs[0].len() > 0 {
            lemma_footprint_each(runs[0], 0);
        }
    }
}

} // verus!
