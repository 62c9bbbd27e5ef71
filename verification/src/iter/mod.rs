//! The read path's k-way merge: folds many key-sorted sources into one
//! ascending, de-duplicated stream.
//!
//! Given sources that each hold entries in ascending key order and at most one
//! version per key, [`MergeIterator`]
//!
//! * yields keys in ascending order;
//! * for a key present in several sources, yields exactly one entry: the one
//!   with the largest sequence number;
//! * preserves tombstones, because a deletion must still shadow older values.
//!   [`MergeIterator::live`] drops them for user-facing scans.

use vstd::prelude::*;

use crate::memtable;
use crate::memtable::{Entry, ValueKind};
use crate::model;
use crate::model::Rec;
use crate::order;
use crate::order::Position;

verus! {

/// A key-sorted source of entries.
pub type EntrySource = Vec<Entry>;

/// The head `a` of source `i` comes out before the head `b` of source `j`: it
/// has the smaller key, or for one key the larger sequence number, or for one
/// number the earlier source.
pub open spec fn ahead(a: Rec, i: int, b: Rec, j: int) -> bool {
    ||| order::lex_lt(a.key, b.key)
    ||| a.key == b.key && (a.seq > b.seq || a.seq == b.seq && i < j)
}

/// Source `i` has the head that comes out first.
pub open spec fn leads(sources: Seq<Seq<Rec>>, i: int) -> bool {
    &&& 0 <= i < sources.len()
    &&& sources[i].len() > 0
    &&& forall|j: int|
        0 <= j < sources.len() && j != i && (#[trigger] sources[j]).len() > 0 ==> ahead(
            sources[i][0],
            i,
            sources[j][0],
            j,
        )
}

/// The source with the head that comes out first.
pub open spec fn leader(sources: Seq<Seq<Rec>>) -> int {
    choose|i: int| leads(sources, i)
}

/// Some source has something left.
pub open spec fn has_leader(sources: Seq<Seq<Rec>>) -> bool {
    exists|i: int| leads(sources, i)
}

/// The sources with the head of source `i` taken off.
pub open spec fn popped(sources: Seq<Seq<Rec>>, i: int) -> Seq<Seq<Rec>> {
    sources.update(i, sources[i].drop_first())
}

/// How many entries are left in all.
pub open spec fn total(sources: Seq<Seq<Rec>>) -> nat
    decreases sources.len(),
{
    if sources.len() == 0 {
        0
    } else {
        sources[0].len() + total(sources.drop_first())
    }
}

/// One source more has its entries more.
pub proof fn lemma_total_push(sources: Seq<Seq<Rec>>, run: Seq<Rec>)
    ensures
        total(sources.push(run)) == total(sources) + run.len(),
    decreases sources.len(),
{
    let more = sources.push(run);
    if sources.len() == 0 {
        reveal_with_fuel(total, 2);
        assert(more.drop_first() =~= Seq::<Seq<Rec>>::empty());
    } else {
        lemma_total_push(sources.drop_first(), run);
        assert(more.drop_first() =~= sources.drop_first().push(run));
    }
}

pub proof fn lemma_total_popped(sources: Seq<Seq<Rec>>, i: int)
    requires
        0 <= i < sources.len(),
        sources[i].len() > 0,
    ensures
        total(popped(sources, i)) == total(sources) - 1,
        total(sources) >= 1,
    decreases sources.len(),
{
    let less = popped(sources, i);
    if i == 0 {
        assert(less.drop_first() =~= sources.drop_first());
    } else {
        lemma_total_popped(sources.drop_first(), i - 1);
        assert(less.drop_first() =~= popped(sources.drop_first(), i - 1));
    }
}

/// The sources with the versions of `key` that come out first thrown away.
pub open spec fn discarded(sources: Seq<Seq<Rec>>, key: Seq<u8>) -> Seq<Seq<Rec>>
    decreases total(sources),
{
    if has_leader(sources) && sources[leader(sources)][0].key == key {
        proof {
            lemma_total_popped(sources, leader(sources));
        }
        discarded(popped(sources, leader(sources)), key)
    } else {
        sources
    }
}

pub proof fn lemma_total_discarded(sources: Seq<Seq<Rec>>, key: Seq<u8>)
    ensures
        total(discarded(sources, key)) <= total(sources),
    decreases total(sources),
{
    if has_leader(sources) && sources[leader(sources)][0].key == key {
        lemma_total_popped(sources, leader(sources));
        lemma_total_discarded(popped(sources, leader(sources)), key);
    }
}

/// What is left after the first entry came out.
pub open spec fn advanced(sources: Seq<Seq<Rec>>) -> Seq<Seq<Rec>> {
    let i = leader(sources);
    discarded(popped(sources, i), sources[i][0].key)
}

/// Everything that comes out, in order.
pub open spec fn merged(sources: Seq<Seq<Rec>>) -> Seq<Rec>
    decreases total(sources),
{
    if has_leader(sources) {
        proof {
            lemma_total_popped(sources, leader(sources));
            lemma_total_discarded(
                popped(sources, leader(sources)),
                sources[leader(sources)][0].key,
            );
        }
        seq![sources[leader(sources)][0]] + merged(advanced(sources))
    } else {
        Seq::empty()
    }
}

/// A run without its tombstones, as keys and values.
pub open spec fn live_pairs(run: Seq<Rec>) -> Seq<(Seq<u8>, Seq<u8>)>
    decreases run.len(),
{
    if run.len() == 0 {
        Seq::empty()
    } else {
        match run[0].val {
            Some(v) => seq![(run[0].key, v)] + live_pairs(run.drop_first()),
            None => live_pairs(run.drop_first()),
        }
    }
}

/// Only one source leads.
proof fn lemma_one_leader(sources: Seq<Seq<Rec>>, i: int, j: int)
    requires
        leads(sources, i),
        leads(sources, j),
    ensures
        i == j,
{
    if i != j {
        let a = sources[i][0];
        let b = sources[j][0];
        assert(ahead(a, i, b, j));
        assert(ahead(b, j, a, i));
        if order::lex_lt(a.key, b.key) {
            order::lemma_lex_asymmetric(a.key, b.key);
        }
        if order::lex_lt(b.key, a.key) {
            order::lemma_lex_asymmetric(b.key, a.key);
        }
    }
}

/// Coming out first is transitive.
proof fn lemma_ahead_trans(a: Rec, i: int, b: Rec, j: int, c: Rec, k: int)
    requires
        ahead(a, i, b, j),
        ahead(b, j, c, k),
    ensures
        ahead(a, i, c, k),
{
    if order::lex_lt(a.key, b.key) && order::lex_lt(b.key, c.key) {
        order::lemma_lex_transitive(a.key, b.key, c.key);
    }
}

/// Something is left exactly if some source leads.
proof fn lemma_leader_exists(sources: Seq<Seq<Rec>>, n: int) -> (best: int)
    requires
        0 <= n <= sources.len(),
    ensures
        best == -1 ==> forall|j: int| 0 <= j < n ==> (#[trigger] sources[j]).len() == 0,
        best != -1 ==> 0 <= best < n && sources[best].len() > 0 && forall|j: int|
            0 <= j < n && j != best && (#[trigger] sources[j]).len() > 0 ==> ahead(
                sources[best][0],
                best,
                sources[j][0],
                j,
            ),
    decreases n,
{
    if n == 0 {
        -1
    } else {
        let before = lemma_leader_exists(sources, n - 1);
        if sources[n - 1].len() == 0 {
            before
        } else if before == -1 {
            n - 1
        } else {
            let a = sources[before][0];
            let b = sources[n - 1][0];
            order::lemma_lex_total(a.key, b.key);
            if ahead(a, before, b, n - 1) {
                before
            } else {
                assert forall|j: int|
                    0 <= j < n && j != n - 1 && (#[trigger] sources[j]).len() > 0 implies ahead(
                    b,
                    n - 1,
                    sources[j][0],
                    j,
                ) by {
                    assert(ahead(b, n - 1, a, before));
                    if j != before {
                        lemma_ahead_trans(b, n - 1, a, before, sources[j][0], j);
                    }
                }
                n - 1
            }
        }
    }
}

/// Every source is a run.
pub open spec fn all_runs(sources: Seq<Seq<Rec>>) -> bool {
    forall|i: int| 0 <= i < sources.len() ==> model::is_run(#[trigger] sources[i])
}

/// No source begins before `key`.
spec fn all_from(sources: Seq<Seq<Rec>>, key: Seq<u8>) -> bool {
    forall|i: int|
        0 <= i < sources.len() && (#[trigger] sources[i]).len() > 0 ==> !order::lex_lt(
            sources[i][0].key,
            key,
        )
}

/// `a` is `b`, in which nothing is lost but versions of `key`.
spec fn same_but(a: Seq<Seq<Rec>>, b: Seq<Seq<Rec>>, key: Seq<u8>) -> bool {
    &&& a.len() == b.len()
    &&& forall|i: int, k: Seq<u8>|
        #![trigger model::find(a[i], k)]
        0 <= i < a.len() && k != key ==> model::find(a[i], k) == model::find(b[i], k)
}

/// Taking a head off a run loses that version alone.
proof fn lemma_drop_head(run: Seq<Rec>)
    requires
        model::is_run(run),
        run.len() > 0,
    ensures
        model::is_run(run.drop_first()),
        forall|k: Seq<u8>|
            k != run[0].key ==> #[trigger] model::find(run.drop_first(), k) == model::find(run, k),
        model::find(run.drop_first(), run[0].key) is None,
        run.drop_first().len() > 0 ==> order::lex_lt(run[0].key, run.drop_first()[0].key),
{
    model::lemma_run_tail(run, 1);
    assert(run.skip(1) =~= run.drop_first());
    let rest = run.drop_first();
    let key = run[0].key;
    model::lemma_find(rest, key);
    if model::find(rest, key) is Some {
        let i = choose|i: int| 0 <= i < rest.len() && #[trigger] rest[i] == model::find(rest, key)->0;
        assert(order::lex_lt(run[0].key, run[i + 1].key));
        order::lemma_lex_irreflexive(key);
    }
    if rest.len() > 0 {
        assert(order::lex_lt(run[0].key, run[1].key));
    }
}

/// What throwing away the versions of the smallest key leaves.
proof fn lemma_discarded(sources: Seq<Seq<Rec>>, key: Seq<u8>)
    requires
        all_runs(sources),
        all_from(sources, key),
    ensures
        all_runs(discarded(sources, key)),
        same_but(discarded(sources, key), sources, key),
        forall|i: int|
            0 <= i < sources.len() && (#[trigger] discarded(sources, key)[i]).len() > 0
                ==> order::lex_lt(key, discarded(sources, key)[i][0].key),
    decreases total(sources),
{
    let i = leader(sources);
    if has_leader(sources) && sources[i][0].key == key {
        lemma_total_popped(sources, i);
        lemma_drop_head(sources[i]);
        let less = popped(sources, i);
        assert forall|j: int| 0 <= j < less.len() implies model::is_run(#[trigger] less[j]) by {
            if j != i {
                assert(less[j] == sources[j]);
            }
        }
        assert forall|j: int| 0 <= j < less.len() && (#[trigger] less[j]).len() > 0 implies !order::lex_lt(
            less[j][0].key,
            key,
        ) by {
            if j == i {
                order::lemma_lex_asymmetric(key, less[j][0].key);
            } else {
                assert(less[j] == sources[j]);
            }
        }
        lemma_discarded(less, key);
        assert forall|j: int, k: Seq<u8>|
            #![trigger model::find(discarded(sources, key)[j], k)]
            0 <= j < sources.len() && k != key implies model::find(discarded(sources, key)[j], k)
            == model::find(sources[j], k) by {
            assert(model::find(discarded(less, key)[j], k) == model::find(less[j], k));
            if j != i {
                assert(less[j] == sources[j]);
            }
        }
    } else {
        let best = lemma_leader_exists(sources, sources.len() as int);
        if best != -1 {
            assert(leads(sources, best));
            lemma_one_leader(sources, best, i);
            let head = sources[i][0].key;
            order::lemma_lex_total(head, key);
            assert forall|j: int| 0 <= j < sources.len() && (#[trigger] sources[j]).len()
                > 0 implies order::lex_lt(key, sources[j][0].key) by {
                if j != i {
                    assert(ahead(sources[i][0], i, sources[j][0], j));
                    if order::lex_lt(head, sources[j][0].key) {
                        order::lemma_lex_transitive(key, head, sources[j][0].key);
                    }
                }
            }
        }
    }
}

/// What comes out of a merge of runs: the keys ascend strictly, and for each key
/// that some run has, the newest version comes out, be it a tombstone.
pub proof fn lemma_merged(sources: Seq<Seq<Rec>>)
    requires
        all_runs(sources),
    ensures
        model::is_run(merged(sources)),
        forall|key: Seq<u8>|
            (#[trigger] model::find(merged(sources), key)) matches Some(r) ==> model::is_newest(
                sources,
                key,
                r,
            ),
        forall|key: Seq<u8>|
            (#[trigger] model::find(merged(sources), key)) is None ==> forall|i: int|
                0 <= i < sources.len() ==> model::find(#[trigger] sources[i], key) is None,
        forall|lo: Seq<u8>|
            (forall|i: int|
                0 <= i < sources.len() && (#[trigger] sources[i]).len() > 0 ==> order::lex_lt(
                    lo,
                    sources[i][0].key,
                )) && merged(sources).len() > 0 ==> #[trigger] order::lex_lt(
                lo,
                merged(sources)[0].key,
            ),
    decreases total(sources),
{
    let out = merged(sources);
    let best = lemma_leader_exists(sources, sources.len() as int);
    if best == -1 {
        assert(!has_leader(sources)) by {
            if has_leader(sources) {
                assert(sources[leader(sources)].len() == 0);
            }
        }
        assert forall|key: Seq<u8>, i: int| 0 <= i < sources.len() implies (
        #[trigger] model::find(sources[i], key)) is None by {
            assert(sources[i].len() == 0);
        }
    } else {
        assert(leads(sources, best));
        let i = leader(sources);
        lemma_one_leader(sources, best, i);
        let r = sources[i][0];
        let less = popped(sources, i);
        let rest = advanced(sources);
        lemma_total_popped(sources, i);
        lemma_total_discarded(less, r.key);
        lemma_drop_head(sources[i]);
        assert forall|j: int| 0 <= j < less.len() implies model::is_run(#[trigger] less[j]) by {
            if j != i {
                assert(less[j] == sources[j]);
            }
        }
        assert forall|j: int| 0 <= j < less.len() && (#[trigger] less[j]).len() > 0 implies !order::lex_lt(
            less[j][0].key,
            r.key,
        ) by {
            if j == i {
                order::lemma_lex_asymmetric(r.key, less[j][0].key);
            } else {
                assert(less[j] == sources[j]);
                assert(ahead(r, i, sources[j][0], j));
                if order::lex_lt(r.key, sources[j][0].key) {
                    order::lemma_lex_asymmetric(r.key, sources[j][0].key);
                } else {
                    order::lemma_lex_irreflexive(r.key);
                }
            }
        }
        lemma_discarded(less, r.key);
        lemma_merged(rest);
        let tail = merged(rest);
        assert(out == seq![r] + tail);
        assert(out.drop_first() =~= tail);
        if tail.len() > 0 {
            assert(order::lex_lt(r.key, tail[0].key));
        }
        assert(model::is_run(out)) by {
            assert forall|a: int, b: int| 0 <= a < b < out.len() implies order::lex_lt(
                (#[trigger] out[a]).key,
                (#[trigger] out[b]).key,
            ) by {
                assert(out[b] == tail[b - 1]);
                if a > 0 {
                    assert(out[a] == tail[a - 1]);
                    assert(order::lex_lt(tail[a - 1].key, tail[b - 1].key));
                } else if b > 1 {
                    assert(order::lex_lt(tail[0].key, tail[b - 1].key));
                    order::lemma_lex_transitive(r.key, tail[0].key, tail[b - 1].key);
                }
            }
        }
        // What is left agrees with the sources on every other key.
        assert forall|j: int, k: Seq<u8>|
            #![trigger model::find(rest[j], k)]
            0 <= j < sources.len() && k != r.key implies model::find(rest[j], k) == model::find(
            sources[j],
            k,
        ) by {
            assert(model::find(rest[j], k) == model::find(less[j], k));
            if j != i {
                assert(less[j] == sources[j]);
            }
        }
        assert forall|key: Seq<u8>|
            (#[trigger] model::find(out, key)) matches Some(f) implies model::is_newest(
            sources,
            key,
            model::find(out, key)->0,
        ) by {
            if key == r.key {
                lemma_head_newest(sources, i);
            } else {
                let f = model::find(tail, key)->0;
                assert(model::is_newest(rest, key, f));
                let j = choose|j: int|
                    0 <= j < rest.len() && #[trigger] model::find(rest[j], key) == Some(f);
                assert(model::find(sources[j], key) == Some(f));
                assert forall|m: int|
                    0 <= m < sources.len() && (#[trigger] model::find(sources[m], key))
                        is Some implies model::find(sources[m], key)->0.seq <= f.seq by {
                    assert(model::find(rest[m], key) == model::find(sources[m], key));
                }
            }
        }
        assert forall|key: Seq<u8>| (#[trigger] model::find(out, key)) is None implies forall|
            m: int,
        |
            0 <= m < sources.len() ==> model::find(#[trigger] sources[m], key) is None by {
            assert(key != r.key);
            assert(model::find(tail, key) is None);
            assert forall|m: int| 0 <= m < sources.len() implies model::find(
                #[trigger] sources[m],
                key,
            ) is None by {
                assert(model::find(rest[m], key) == model::find(sources[m], key));
            }
        }
        assert forall|lo: Seq<u8>|
            (forall|j: int|
                0 <= j < sources.len() && (#[trigger] sources[j]).len() > 0 ==> order::lex_lt(
                    lo,
                    sources[j][0].key,
                )) && out.len() > 0 implies #[trigger] order::lex_lt(lo, out[0].key) by {
            assert(sources[i].len() > 0);
        }
    }
}

/// The head that comes out first is the newest version of its key.
proof fn lemma_head_newest(sources: Seq<Seq<Rec>>, i: int)
    requires
        all_runs(sources),
        leads(sources, i),
    ensures
        model::is_newest(sources, sources[i][0].key, sources[i][0]),
{
    let r = sources[i][0];
    model::lemma_find_at(sources[i], 0);
    assert(model::find(sources[i], r.key) == Some(r));
    assert forall|j: int| 0 <= j < sources.len() && (#[trigger] model::find(sources[j], r.key))
        is Some implies model::find(sources[j], r.key)->0.seq <= r.seq by {
        if j != i {
            let f = model::find(sources[j], r.key)->0;
            model::lemma_find(sources[j], r.key);
            let m = choose|m: int| 0 <= m < sources[j].len() && #[trigger] sources[j][m] == f;
            assert(ahead(r, i, sources[j][0], j));
            if m > 0 {
                assert(order::lex_lt(sources[j][0].key, sources[j][m].key));
                if order::lex_lt(r.key, sources[j][0].key) {
                    order::lemma_lex_transitive(r.key, sources[j][0].key, f.key);
                }
                order::lemma_lex_irreflexive(r.key);
            } else {
                order::lemma_lex_irreflexive(r.key);
            }
        }
    }
}

/// Merging a stack of runs, in any order of its runs, says of every key what the
/// stack says.
pub proof fn lemma_merged_stack(sources: Seq<Seq<Rec>>, layers: Seq<Seq<Rec>>)
    requires
        model::is_stack(layers),
        all_runs(sources),
        forall|i: int| 0 <= i < sources.len() ==> layers.contains(#[trigger] sources[i]),
        forall|i: int| 0 <= i < layers.len() ==> sources.contains(#[trigger] layers[i]),
    ensures
        model::is_run(merged(sources)),
        forall|key: Seq<u8>| #[trigger] model::find(merged(sources), key) == model::top(layers, key),
{
    lemma_merged(sources);
    assert forall|key: Seq<u8>| #[trigger] model::find(merged(sources), key) == model::top(
        layers,
        key,
    ) by {
        model::lemma_stack_newest(layers, key);
        match model::find(merged(sources), key) {
            Some(r) => {
                assert(model::is_newest(sources, key, r));
                let i = choose|i: int|
                    0 <= i < sources.len() && #[trigger] model::find(sources[i], key) == Some(r);
                assert(layers.contains(sources[i]));
                let j = choose|j: int| 0 <= j < layers.len() && layers[j] == sources[i];
                assert(model::find(layers[j], key) == Some(r));
                assert forall|m: int|
                    0 <= m < layers.len() && (#[trigger] model::find(layers[m], key))
                        is Some implies model::find(layers[m], key)->0.seq <= r.seq by {
                    assert(sources.contains(layers[m]));
                    let n = choose|n: int| 0 <= n < sources.len() && sources[n] == layers[m];
                    assert(model::find(sources[n], key) is Some);
                }
                assert(model::is_newest(layers, key, r));
            },
            None => {
                model::lemma_top(layers, key);
                if model::top(layers, key) is Some {
                    let j = choose|j: int|
                        0 <= j < layers.len() && #[trigger] model::find(layers[j], key)
                            == model::top(layers, key);
                    assert(sources.contains(layers[j]));
                    let n = choose|n: int| 0 <= n < sources.len() && sources[n] == layers[j];
                    assert(model::find(sources[n], key) is None);
                }
            },
        }
    }
}

/// The live pairs of a run: exactly the keys with a value, in ascending order.
pub proof fn lemma_live_pairs(run: Seq<Rec>)
    requires
        model::is_run(run),
    ensures
        forall|i: int, j: int|
            0 <= i < j < live_pairs(run).len() ==> order::lex_lt(
                (#[trigger] live_pairs(run)[i]).0,
                (#[trigger] live_pairs(run)[j]).0,
            ),
        forall|i: int|
            0 <= i < live_pairs(run).len() ==> model::value_of(
                model::find(run, (#[trigger] live_pairs(run)[i]).0),
            ) == Some(live_pairs(run)[i].1),
        forall|key: Seq<u8>|
            #![trigger model::find(run, key)]
            model::value_of(model::find(run, key)) is Some ==> exists|i: int|
                0 <= i < live_pairs(run).len() && (#[trigger] live_pairs(run)[i]).0 == key,
        live_pairs(run).len() > 0 ==> order::lex_le(run[0].key, live_pairs(run)[0].0),
    decreases run.len(),
{
    let out = live_pairs(run);
    if run.len() > 0 {
        let rest = run.drop_first();
        lemma_drop_head(run);
        lemma_live_pairs(rest);
        let tail = live_pairs(rest);
        if tail.len() > 0 {
            assert(order::lex_lt(run[0].key, tail[0].0)) by {
                if rest[0].key != tail[0].0 {
                    order::lemma_lex_transitive(run[0].key, rest[0].key, tail[0].0);
                }
            }
        }
        let head = run[0].val is Some;
        let off: int = if head { 1 } else { 0 };
        assert forall|i: int| off <= i < out.len() implies #[trigger] out[i] == tail[i - off] by {}
        assert forall|i: int, j: int| 0 <= i < j < out.len() implies order::lex_lt(
            (#[trigger] out[i]).0,
            (#[trigger] out[j]).0,
        ) by {
            assert(out[j] == tail[j - off]);
            if i >= off {
                assert(out[i] == tail[i - off]);
            } else if j - off > 0 {
                assert(order::lex_lt(tail[0].0, tail[j - off].0));
                order::lemma_lex_transitive(run[0].key, tail[0].0, tail[j - off].0);
            }
        }
        assert forall|i: int| 0 <= i < out.len() implies model::value_of(
            model::find(run, (#[trigger] out[i]).0),
        ) == Some(out[i].1) by {
            if i >= off {
                assert(out[i] == tail[i - off]);
                let key = out[i].0;
                if key == run[0].key {
                    order::lemma_lex_irreflexive(key);
                    if i - off > 0 {
                        assert(order::lex_lt(tail[0].0, tail[i - off].0));
                        order::lemma_lex_transitive(run[0].key, tail[0].0, tail[i - off].0);
                    }
                }
                assert(model::find(rest, key) == model::find(run, key));
            }
        }
        assert forall|key: Seq<u8>|
            #![trigger model::find(run, key)]
            model::value_of(model::find(run, key)) is Some implies exists|i: int|
            0 <= i < out.len() && (#[trigger] out[i]).0 == key by {
            if key == run[0].key {
                assert(out[0].0 == key);
            } else {
                assert(model::find(rest, key) == model::find(run, key));
                let m = choose|m: int| 0 <= m < tail.len() && (#[trigger] tail[m]).0 == key;
                assert(out[m + off] == tail[m]);
            }
        }
    }
}

/// A forward, newest-wins, tombstone-preserving merge over many key-sorted
/// sources.
#[derive(Debug)]
pub struct MergeIterator {
    /// What is left of each source, last entry first.
    sources: Vec<Vec<Entry>>,
}

/// The records of a list of entries, last first.
spec fn backwards(v: Seq<Entry>) -> Seq<Rec> {
    Seq::new(v.len(), |i: int| memtable::rec_of(v[v.len() - 1 - i]))
}

/// The records of each source.
pub open spec fn source_recs(sources: Seq<Vec<Entry>>) -> Seq<Seq<Rec>> {
    Seq::new(sources.len(), |i: int| memtable::recs_of(sources[i]@))
}

impl View for MergeIterator {
    type V = Seq<Seq<Rec>>;

    /// What is left of each source.
    closed spec fn view(&self) -> Seq<Seq<Rec>> {
        Seq::new(self.sources@.len(), |i: int| backwards(self.sources@[i]@))
    }
}

impl MergeIterator {
    /// Builds a merge over `sources`. Which source an entry is in does not
    /// matter for what comes out: duplicates are resolved by sequence number.
    pub fn new(sources: Vec<EntrySource>) -> (m: Self)
        ensures
            m@ == source_recs(sources@),
    {
        let mut left: Vec<Vec<Entry>> = sources;
        let mut out: Vec<Vec<Entry>> = Vec::new();
        let ghost want = source_recs(left@);
        let n: usize = left.len();
        assert(Seq::new(out@.len(), |i: int| backwards(out@[i]@)) =~= want.skip(n as int));
        while left.len() > 0
            invariant
                left@.len() + out@.len() == n,
                want.len() == n,
                want.take(left@.len() as int) == source_recs(left@),
                forall|i: int|
                    0 <= i < out@.len() ==> backwards((#[trigger] out@[i])@) == want[n - 1 - i],
            decreases left.len(),
        {
            let ghost k = left@.len() - 1;
            let ghost before = left@;
            match left.pop() {
                Some(source) => {
                    assert(source_recs(before)[k] == memtable::recs_of(source@));
                    assert(want.take(k + 1)[k] == want[k]);
                    assert(want.take(k) =~= source_recs(left@)) by {
                        assert forall|i: int| 0 <= i < k implies want[i] == source_recs(
                            left@,
                        )[i] by {
                            assert(want.take(k + 1)[i] == source_recs(before)[i]);
                        }
                    }
                    out.push(reversed(source));
                },
                None => {},
            }
        }
        let mut sources: Vec<Vec<Entry>> = Vec::new();
        while out.len() > 0
            invariant
                sources@.len() + out@.len() == n,
                want.len() == n,
                forall|i: int|
                    0 <= i < out@.len() ==> backwards((#[trigger] out@[i])@) == want[n - 1 - i],
                forall|i: int|
                    0 <= i < sources@.len() ==> backwards((#[trigger] sources@[i])@) == want[i],
            decreases out.len(),
        {
            match out.pop() {
                Some(source) => {
                    sources.push(source);
                },
                None => {},
            }
        }
        let m = MergeIterator { sources };
        assert(m@ =~= want);
        m
    }

    /// The source whose head comes out first.
    fn leading(&self) -> (r: Option<usize>)
        ensures
            match r {
                Some(i) => leads(self@, i as int) && has_leader(self@) && leader(self@) == i,
                None => !has_leader(self@),
            },
    {
        let mut best: Option<usize> = None;
        let mut i: usize = 0;
        while i < self.sources.len()
            invariant
                i <= self.sources@.len(),
                match best {
                    Some(b) => {
                        &&& b < i
                        &&& self@[b as int].len() > 0
                        &&& forall|j: int|
                            0 <= j < i && j != b && (#[trigger] self@[j]).len() > 0 ==> ahead(
                                self@[b as int][0],
                                b as int,
                                self@[j][0],
                                j,
                            )
                    },
                    None => forall|j: int| 0 <= j < i ==> (#[trigger] self@[j]).len() == 0,
                },
            decreases self.sources.len() - i,
        {
            assert(self@[i as int] == backwards(self.sources@[i as int]@));
            let n: usize = self.sources[i].len();
            if n > 0 {
                let better: bool = match best {
                    Some(b) => {
                        assert(self@[b as int] == backwards(self.sources@[b as int]@));
                        let m: usize = self.sources[b].len();
                        let new_head: &Entry = &self.sources[i][n - 1];
                        let old_head: &Entry = &self.sources[b][m - 1];
                        match order::position(&new_head.0, &old_head.0) {
                            Position::Before => true,
                            Position::Same => new_head.1.seq > old_head.1.seq,
                            Position::After => false,
                        }
                    },
                    None => true,
                };
                proof {
                    if let Some(b) = best {
                        let a = self@[b as int][0];
                        let c = self@[i as int][0];
                        order::lemma_lex_irreflexive(a.key);
                        if better {
                            assert(ahead(c, i as int, a, b as int));
                            assert forall|j: int|
                                0 <= j < i && (#[trigger] self@[j]).len() > 0 implies ahead(
                                c,
                                i as int,
                                self@[j][0],
                                j,
                            ) by {
                                if j != b {
                                    lemma_ahead_trans(
                                        c,
                                        i as int,
                                        a,
                                        b as int,
                                        self@[j][0],
                                        j,
                                    );
                                }
                            }
                        } else {
                            assert(ahead(a, b as int, c, i as int));
                        }
                    }
                }
                if better {
                    best = Some(i);
                }
            }
            i = i + 1;
        }
        proof {
            match best {
                Some(b) => {
                    assert(leads(self@, b as int));
                    lemma_one_leader(self@, b as int, leader(self@));
                },
                None => {
                    if has_leader(self@) {
                        assert(self@[leader(self@)].len() == 0);
                    }
                },
            }
        }
        best
    }

    /// Takes the head of source `i` off.
    fn take_head(&mut self, i: usize) -> (e: Entry)
        requires
            i < old(self)@.len(),
            old(self)@[i as int].len() > 0,
        ensures
            memtable::rec_of(e) == old(self)@[i as int][0],
            final(self)@ == popped(old(self)@, i as int),
    {
        let ghost before = self.sources@;
        let mut source: Vec<Entry> = Vec::new();
        std::mem::swap(&mut source, &mut self.sources[i]);
        let ghost whole = source@;
        assert(self@.len() == before.len());
        match source.pop() {
            Some(e) => {
                self.sources[i] = source;
                proof {
                    assert(backwards(source@) =~= backwards(whole).drop_first());
                    assert(self@ =~= popped(old(self)@, i as int));
                }
                e
            },
            None => {
                assert(false);
                (Vec::new(), memtable::InternalValue::tombstone(0))
            },
        }
    }

    /// The next entry: of the smallest key left, its newest version. The other
    /// versions of that key are thrown away.
    pub fn next(&mut self) -> (r: Option<Entry>)
        ensures
            r is Some <==> has_leader(old(self)@),
            r matches Some(e) ==> {
                &&& memtable::rec_of(e) == old(self)@[leader(old(self)@)][0]
                &&& final(self)@ == advanced(old(self)@)
                &&& merged(old(self)@) == seq![memtable::rec_of(e)] + merged(final(self)@)
            },
            r is None ==> final(self)@ == old(self)@ && merged(old(self)@) == Seq::<Rec>::empty(),
    {
        let winner: Entry = match self.leading() {
            Some(i) => self.take_head(i),
            None => {
                return None;
            },
        };
        let ghost goal = advanced(old(self)@);
        let ghost key = winner.0@;
        loop
            invariant_except_break
                discarded(self@, key) == goal,
                key == winner.0@,
            ensures
                self@ == goal,
            decreases total(self@),
        {
            match self.leading() {
                Some(i) => {
                    proof {
                        lemma_total_popped(self@, i as int);
                        assert(self@[i as int] == backwards(self.sources@[i as int]@));
                    }
                    let n: usize = self.sources[i].len();
                    if order::same_bytes(&self.sources[i][n - 1].0, &winner.0) {
                        let _ = self.take_head(i);
                    } else {
                        break;
                    }
                },
                None => {
                    break;
                },
            }
        }
        Some(winner)
    }

    /// Every entry that is left, in order.
    pub fn collect(self) -> (r: Vec<Entry>)
        ensures
            memtable::recs_of(r@) == merged(self@),
    {
        let mut left = self;
        let mut out: Vec<Entry> = Vec::new();
        let ghost goal = merged(left@);
        assert(memtable::recs_of(out@) + merged(left@) =~= goal);
        loop
            invariant_except_break
                memtable::recs_of(out@) + merged(left@) == goal,
            ensures
                memtable::recs_of(out@) == goal,
            decreases merged(left@).len(),
        {
            let ghost so_far = memtable::recs_of(out@);
            match left.next() {
                Some(e) => {
                    out.push(e);
                    proof {
                        assert(memtable::recs_of(out@) =~= so_far.push(memtable::rec_of(e)));
                        assert(so_far.push(memtable::rec_of(e)) + merged(left@) =~= so_far + (seq![
                            memtable::rec_of(e),
                        ] + merged(left@)));
                    }
                },
                None => {
                    assert(so_far + Seq::<Rec>::empty() =~= so_far);
                    break;
                },
            }
        }
        out
    }

    /// Adapts this raw merge into a tombstone-free stream of keys and values.
    pub fn live(self) -> (l: LiveIter)
        ensures
            l@ == live_pairs(merged(self@)),
    {
        LiveIter { inner: self }
    }
}

/// A [`MergeIterator`] with tombstones filtered out.
#[derive(Debug)]
pub struct LiveIter {
    inner: MergeIterator,
}

impl View for LiveIter {
    type V = Seq<(Seq<u8>, Seq<u8>)>;

    /// The pairs that are left.
    closed spec fn view(&self) -> Seq<(Seq<u8>, Seq<u8>)> {
        live_pairs(merged(self.inner@))
    }
}

/// The views of a list of keys and values.
pub open spec fn pair_views(v: Seq<(Vec<u8>, Vec<u8>)>) -> Seq<(Seq<u8>, Seq<u8>)> {
    Seq::new(v.len(), |i: int| (v[i].0@, v[i].1@))
}

impl LiveIter {
    /// The next key and value.
    pub fn next(&mut self) -> (r: Option<(Vec<u8>, Vec<u8>)>)
        ensures
            match r {
                Some((k, v)) => old(self)@ == seq![(k@, v@)] + final(self)@,
                None => old(self)@.len() == 0 && final(self)@.len() == 0,
            },
    {
        loop
            invariant
                self@ == old(self)@,
            decreases merged(self.inner@).len(),
        {
            let ghost run = merged(self.inner@);
            match self.inner.next() {
                Some(e) => {
                    proof {
                        assert(run.drop_first() =~= merged(self.inner@));
                        assert(run[0] == memtable::rec_of(e));
                    }
                    match e.1.kind {
                        ValueKind::Value(v) => {
                            return Some((e.0, v));
                        },
                        ValueKind::Tombstone => {},
                    }
                },
                None => {
                    return None;
                },
            }
        }
    }

    /// Every pair that is left, in order.
    pub fn collect(self) -> (r: Vec<(Vec<u8>, Vec<u8>)>)
        ensures
            pair_views(r@) == self@,
    {
        let mut left = self;
        let mut out: Vec<(Vec<u8>, Vec<u8>)> = Vec::new();
        let ghost goal = left@;
        assert(pair_views(out@) + left@ =~= goal);
        loop
            invariant_except_break
                pair_views(out@) + left@ == goal,
            ensures
                pair_views(out@) == goal,
            decreases left@.len(),
        {
            let ghost so_far = pair_views(out@);
            match left.next() {
                Some(pair) => {
                    let ghost view = (pair.0@, pair.1@);
                    out.push(pair);
                    proof {
                        assert(pair_views(out@) =~= so_far.push(view));
                        assert(so_far.push(view) + left@ =~= so_far + (seq![view] + left@));
                    }
                },
                None => {
                    assert(so_far + left@ =~= so_far);
                    break;
                },
            }
        }
        out
    }
}

/// The entries in reverse.
fn reversed(v: Vec<Entry>) -> (r: Vec<Entry>)
    ensures
        backwards(r@) == memtable::recs_of(v@),
{
    let mut left: Vec<Entry> = v;
    let mut out: Vec<Entry> = Vec::new();
    let ghost all = left@;
    while left.len() > 0
        invariant
            left@.len() + out@.len() == all.len(),
            left@ == all.take(left@.len() as int),
            forall|i: int| 0 <= i < out@.len() ==> #[trigger] out@[i] == all[all.len() - 1 - i],
        decreases left.len(),
    {
        let ghost k = left@.len() - 1;
        match left.pop() {
            Some(e) => {
                out.push(e);
                assert(left@ =~= all.take(k));
            },
            None => {},
        }
    }
    assert(backwards(out@) =~= memtable::recs_of(all));
    out
}

/// `r` is what source `j` has of `key`, no source has a newer version, and none before it one
/// that is as new.
pub open spec fn wins(sources: Seq<Seq<Rec>>, key: Seq<u8>, j: int, r: Rec) -> bool {
    &&& 0 <= j < sources.len()
    &&& model::find(sources[j], key) == Some(r)
    &&& forall|i: int|
        0 <= i < sources.len() && (#[trigger] model::find(sources[i], key)) is Some ==> {
            let f = model::find(sources[i], key)->0;
            f.seq < r.seq || f.seq == r.seq && j <= i
        }
}

/// Which version of a key comes out of a merge of runs: the newest, and of several that are as
/// new the one of the first source.
pub proof fn lemma_first_newest(sources: Seq<Seq<Rec>>, key: Seq<u8>)
    requires
        all_runs(sources),
        model::find(merged(sources), key) is Some,
    ensures
        exists|j: int| #[trigger]
            wins(sources, key, j, model::find(merged(sources), key)->0),
    decreases total(sources),
{
    let out = merged(sources);
    let best = lemma_leader_exists(sources, sources.len() as int);
    assert(has_leader(sources));
    let i = leader(sources);
    assert(leads(sources, i));
    let r = sources[i][0];
    let less = popped(sources, i);
    let rest = advanced(sources);
    lemma_total_popped(sources, i);
    lemma_total_discarded(less, r.key);
    lemma_drop_head(sources[i]);
    model::lemma_find_at(sources[i], 0);
    order::lemma_lex_irreflexive(r.key);
    assert(out.drop_first() =~= merged(rest));
    if key == r.key {
        lemma_head_newest(sources, i);
        assert forall|j: int| 0 <= j < sources.len() && (#[trigger] model::find(sources[j], key))
            is Some implies ({
            let f = model::find(sources[j], key)->0;
            f.seq < r.seq || f.seq == r.seq && i <= j
        }) by {
            if j != i {
                let f = model::find(sources[j], key)->0;
                model::lemma_find(sources[j], key);
                let m = choose|m: int| 0 <= m < sources[j].len() && #[trigger] sources[j][m] == f;
                assert(ahead(r, i, sources[j][0], j));
                if m > 0 {
                    assert(order::lex_lt(sources[j][0].key, sources[j][m].key));
                    if order::lex_lt(r.key, sources[j][0].key) {
                        order::lemma_lex_transitive(r.key, sources[j][0].key, f.key);
                    }
                }
            }
        }
        assert(wins(sources, key, i, r));
    } else {
        assert forall|j: int| 0 <= j < less.len() implies model::is_run(#[trigger] less[j]) by {
            if j != i {
                assert(less[j] == sources[j]);
            }
        }
        assert forall|j: int| 0 <= j < less.len() && (#[trigger] less[j]).len() > 0 implies
            !order::lex_lt(less[j][0].key, r.key) by {
            if j == i {
                order::lemma_lex_asymmetric(r.key, less[j][0].key);
            } else {
                assert(less[j] == sources[j]);
                assert(ahead(r, i, sources[j][0], j));
                if order::lex_lt(r.key, sources[j][0].key) {
                    order::lemma_lex_asymmetric(r.key, sources[j][0].key);
                }
            }
        }
        lemma_discarded(less, r.key);
        lemma_first_newest(rest, key);
        let f = model::find(merged(rest), key)->0;
        let j = choose|j: int| #[trigger] wins(rest, key, j, f);
        assert forall|m: int| 0 <= m < sources.len() implies model::find(rest[m], key)
            == #[trigger] model::find(sources[m], key) by {
            assert(model::find(rest[m], key) == model::find(less[m], key));
            if m != i {
                assert(less[m] == sources[m]);
            }
        }
        assert(wins(sources, key, j, f));
    }
}

} // verus!
