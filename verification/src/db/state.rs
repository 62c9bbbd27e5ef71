//! What a database holds: in memory, on disk, and after a crash.

use vstd::prelude::*;

use super::record;
use crate::compaction;
use crate::manifest;
use crate::manifest::{Manifest, MetaView, VersionView};
use crate::model;
use crate::model::Rec;
use crate::names;
use crate::sstable::table;
use crate::storage::facts;
use crate::storage::{Disk, FileData, FsState, PathView, StorageResult};
use crate::tables;
use crate::wal;
use crate::wal::recovery;
use crate::wal::Wal;

verus! {

/// The writes that log records say.
pub open spec fn decoded(records: Seq<Seq<u8>>) -> Seq<Rec> {
    Seq::new(records.len(), |i: int| record::parsed_record(records[i])->Ok_0)
}

/// Every log record can be read.
pub open spec fn all_decode(records: Seq<Seq<u8>>) -> bool {
    forall|i: int| 0 <= i < records.len() ==> record::parsed_record(#[trigger] records[i]) is Ok
}

/// Of the writes to `key`, the one with the highest sequence number; of two with
/// the same number, the first.
pub open spec fn newest(recs: Seq<Rec>, key: Seq<u8>) -> Option<Rec>
    decreases recs.len(),
{
    if recs.len() == 0 {
        None
    } else {
        let before = newest(recs.drop_last(), key);
        let r = recs.last();
        if r.key == key && !(before is Some && before->0.seq >= r.seq) {
            Some(r)
        } else {
            before
        }
    }
}

/// What the log, and under it the tables, say of a key.
pub open spec fn said(recs: Seq<Rec>, stack: Seq<Seq<Rec>>, key: Seq<u8>) -> Option<Rec> {
    match newest(recs, key) {
        Some(r) => Some(r),
        None => model::top(stack, key),
    }
}

/// The contents of a database with these writes in its log and these tables.
pub open spec fn contents_of(recs: Seq<Rec>, stack: Seq<Seq<Rec>>) -> Map<Seq<u8>, Seq<u8>> {
    Map::new(
        |key: Seq<u8>| model::value_of(said(recs, stack, key)) is Some,
        |key: Seq<u8>| model::value_of(said(recs, stack, key))->0,
    )
}

/// No table has a newer version of a key than the log, if that has one.
pub open spec fn joined(recs: Seq<Rec>, stack: Seq<Seq<Rec>>) -> bool {
    forall|key: Seq<u8>, i: int|
        #![trigger newest(recs, key), model::find(stack[i], key)]
        0 <= i < stack.len() && newest(recs, key) is Some && model::find(stack[i], key) is Some
            ==> model::supersedes(newest(recs, key)->0, model::find(stack[i], key)->0)
}

/// All sequence numbers are below `next`.
pub open spec fn numbered_below(recs: Seq<Rec>, next: u64) -> bool {
    forall|i: int| 0 <= i < recs.len() ==> (#[trigger] recs[i]).seq < next
}

/// `dir` holds a database whose manifest says `v`, or that has none yet, and whose
/// log is `files`.
pub open spec fn image(
    fs: FsState,
    dir: Seq<u8>,
    v: VersionView,
    files: Seq<(u64, Seq<u8>)>,
) -> bool {
    let records = recovery::replay(files).records;
    &&& manifest::says(fs, dir, v) || v == VersionView::empty() && !facts::named(
        fs,
        manifest::manifest_at(dir),
    )
    &&& tables::good_version(fs, dir, v)
    &&& recovery::log_seen(fs, dir, files)
    &&& all_decode(records)
    &&& numbered_below(decoded(records), u64::MAX)
    &&& joined(decoded(records), tables::stack_of(fs, dir, v))
}

/// The contents of the database that `dir` holds.
pub open spec fn image_contents(
    fs: FsState,
    dir: Seq<u8>,
    v: VersionView,
    files: Seq<(u64, Seq<u8>)>,
) -> Map<Seq<u8>, Seq<u8>> {
    contents_of(decoded(recovery::replay(files).records), tables::stack_of(fs, dir, v))
}

/// `dir` holds a database with these contents.
pub open spec fn holds(fs: FsState, dir: Seq<u8>, m: Map<Seq<u8>, Seq<u8>>) -> bool {
    exists|v: VersionView, files: Seq<(u64, Seq<u8>)>| #[trigger]
        image(fs, dir, v, files) && image_contents(fs, dir, v, files) == m
}

/// `dir` durably holds a database with these contents.
pub open spec fn recovers_to(fs: FsState, dir: Seq<u8>, m: Map<Seq<u8>, Seq<u8>>) -> bool {
    exists|v: VersionView, files: Seq<(u64, Seq<u8>)>| #[trigger]
        image(fs, dir, v, files) && recovery::log_stable(fs, dir, files) && image_contents(
            fs,
            dir,
            v,
            files,
        ) == m
}

/// What is durable is there.
pub proof fn lemma_recovers_holds(fs: FsState, dir: Seq<u8>, m: Map<Seq<u8>, Seq<u8>>)
    requires
        recovers_to(fs, dir, m),
    ensures
        holds(fs, dir, m),
{
    let (v, files) = choose|v: VersionView, files: Seq<(u64, Seq<u8>)>| #[trigger]
        image(fs, dir, v, files) && recovery::log_stable(fs, dir, files) && image_contents(
            fs,
            dir,
            v,
            files,
        ) == m;
    assert(image(fs, dir, v, files));
}

/// The contents after a write.
pub open spec fn written(
    m: Map<Seq<u8>, Seq<u8>>,
    key: Seq<u8>,
    val: Option<Seq<u8>>,
) -> Map<Seq<u8>, Seq<u8>> {
    match val {
        Some(v) => m.insert(key, v),
        None => m.remove(key),
    }
}

/// The log has all that is in memory, and nothing that is not the newest.
pub open spec fn logged(recs: Seq<Rec>, mem: Seq<Seq<Rec>>, layers: Seq<Seq<Rec>>) -> bool {
    &&& forall|key: Seq<u8>|
        (#[trigger] newest(recs, key)) is Some ==> model::top(layers, key) == newest(recs, key)
    &&& forall|key: Seq<u8>|
        (#[trigger] model::top(mem, key)) is Some ==> newest(recs, key) == model::top(mem, key)
}

/// Memory, log and tables agree.
#[verifier::opaque]
pub open spec fn in_order(
    fs: FsState,
    dir: Seq<u8>,
    v: VersionView,
    mem: Seq<Seq<Rec>>,
    records: Seq<Seq<u8>>,
    next_seq: u64,
) -> bool {
    let layers = mem + tables::stack_of(fs, dir, v);
    &&& manifest::says(fs, dir, v)
    &&& tables::good_version(fs, dir, v)
    &&& model::is_stack(layers)
    &&& tables::below(layers, next_seq)
    &&& v.next_seq <= next_seq
    &&& all_decode(records)
    &&& numbered_below(decoded(records), next_seq)
    &&& logged(decoded(records), mem, layers)
}

pub proof fn lemma_newest(recs: Seq<Rec>, key: Seq<u8>)
    ensures
        newest(recs, key) matches Some(r) ==> r.key == key && exists|i: int|
            0 <= i < recs.len() && #[trigger] recs[i] == r,
    decreases recs.len(),
{
    if recs.len() > 0 {
        let less = recs.drop_last();
        lemma_newest(less, key);
        if let Some(r) = newest(recs, key) {
            if newest(less, key) == Some(r) {
                let i = choose|i: int| 0 <= i < less.len() && #[trigger] less[i] == r;
                assert(recs[i] == r);
            } else {
                assert(recs[recs.len() - 1] == r);
            }
        }
    }
}

/// What is newest after one more write.
pub proof fn lemma_newest_push(recs: Seq<Rec>, r: Rec, key: Seq<u8>)
    ensures
        newest(recs.push(r), key) == if r.key == key && !(newest(recs, key) is Some && newest(
            recs,
            key,
        )->0.seq >= r.seq) {
            Some(r)
        } else {
            newest(recs, key)
        },
{
    assert(recs.push(r).drop_last() =~= recs);
}

/// The log and the tables say what memory and tables say.
proof fn lemma_logged(recs: Seq<Rec>, mem: Seq<Seq<Rec>>, stack: Seq<Seq<Rec>>)
    requires
        model::is_stack(mem + stack),
        logged(recs, mem, mem + stack),
    ensures
        joined(recs, stack),
        contents_of(recs, stack) == model::contents(mem + stack),
{
    let layers = mem + stack;
    assert forall|key: Seq<u8>, i: int|
        #![trigger newest(recs, key), model::find(stack[i], key)]
        0 <= i < stack.len() && newest(recs, key) is Some && model::find(
            stack[i],
            key,
        ) is Some implies model::supersedes(
        newest(recs, key)->0,
        model::find(stack[i], key)->0,
    ) by {
        model::lemma_top(layers, key);
        let r = newest(recs, key)->0;
        let j = choose|j: int|
            0 <= j < layers.len() && #[trigger] model::find(layers[j], key) == Some(r) && forall|
                n: int,
            |
                0 <= n < j ==> model::find(#[trigger] layers[n], key) is None;
        let at = mem.len() + i;
        assert(layers[at] == stack[i]);
        if at < j {
            assert(model::find(layers[at], key) is None);
        }
        assert(model::find(layers[j], key) is Some && model::find(layers[at], key) is Some);
    }
    assert forall|key: Seq<u8>| said(recs, stack, key) == #[trigger] model::top(layers, key) by {
        model::lemma_top_concat(mem, stack, key);
        if newest(recs, key) is None {
            assert(model::top(mem, key) is None);
        }
    }
    assert(contents_of(recs, stack) =~= model::contents(layers));
}

/// What is in order is on disk, too.
pub proof fn lemma_order_holds(
    fs: FsState,
    dir: Seq<u8>,
    v: VersionView,
    mem: Seq<Seq<Rec>>,
    files: Seq<(u64, Seq<u8>)>,
    next_seq: u64,
)
    requires
        in_order(fs, dir, v, mem, recovery::replay(files).records, next_seq),
        recovery::log_seen(fs, dir, files) || recovery::log_on(fs, dir, files),
    ensures
        image(fs, dir, v, files),
        image_contents(fs, dir, v, files) == model::contents(mem + tables::stack_of(fs, dir, v)),
        holds(fs, dir, model::contents(mem + tables::stack_of(fs, dir, v))),
        recovery::log_stable(fs, dir, files) ==> recovers_to(
            fs,
            dir,
            model::contents(mem + tables::stack_of(fs, dir, v)),
        ),
{
    reveal(in_order);
    if recovery::log_on(fs, dir, files) {
        recovery::lemma_log_seen(fs, dir, files);
    }
    lemma_logged(
        decoded(recovery::replay(files).records),
        mem,
        tables::stack_of(fs, dir, v),
    );
    assert(image(fs, dir, v, files));
}

/// Operations that touch neither manifest nor tables keep what is in order.
pub proof fn lemma_order_kept(
    pre: FsState,
    post: FsState,
    touched: Set<PathView>,
    dir: Seq<u8>,
    v: VersionView,
    mem: Seq<Seq<Rec>>,
    records: Seq<Seq<u8>>,
    next_seq: u64,
)
    requires
        in_order(pre, dir, v, mem, records, next_seq),
        facts::sound(pre),
        facts::keeps(pre, post, touched),
        forall|p: PathView|
            touched.contains(p) ==> !(#[trigger] compaction::layout_names(dir).contains(p)),
    ensures
        in_order(post, dir, v, mem, records, next_seq),
        tables::stack_of(post, dir, v) == tables::stack_of(pre, dir, v),
{
    reveal(in_order);
    assert forall|id: u64| v.references(id) implies !touched.contains(
        #[trigger] manifest::table_at(dir, id),
    ) by {
        compaction::lemma_table_name_apart(dir, id);
    }
    assert(compaction::layout_names(dir).contains(manifest::manifest_at(dir)));
    compaction::lemma_untouched(pre, post, touched, dir, v);
}

/// The names of the log are none of the manifest and the tables.
pub proof fn lemma_log_names_apart(dir: Seq<u8>)
    ensures
        forall|p: PathView|
            recovery::log_names(dir).contains(p) ==> !(#[trigger] compaction::layout_names(
                dir,
            ).contains(p)),
        forall|p: PathView| #[trigger]
            compaction::layout_names(dir).contains(p) ==> p.0 != dir || names::segment_id(p.1)
                is None,
{
    assert forall|p: PathView| recovery::log_names(dir).contains(p) implies !(
    #[trigger] compaction::layout_names(dir).contains(p)) by {
        lemma_log_name_apart(dir, p);
    }
    assert forall|p: PathView| #[trigger]
        compaction::layout_names(dir).contains(p) implies p.0 != dir || names::segment_id(p.1)
        is None by {
        if names::segment_id(p.1) is Some && p.0 == dir {
            lemma_log_name_apart(dir, p);
        }
    }
}

proof fn lemma_log_name_apart(dir: Seq<u8>, p: PathView)
    requires
        recovery::log_names(dir).contains(p),
    ensures
        !compaction::layout_names(dir).contains(p),
{
    names::lemma_kinds_apart(0);
    if names::segment_id(p.1) is None {
        let id = choose|id: u64| p.1 == #[trigger] names::segment_tmp_name(id);
        names::lemma_kinds_apart(id);
    }
}

/// A write that the log has, and then the memory.
pub proof fn lemma_order_put(
    fs: FsState,
    dir: Seq<u8>,
    v: VersionView,
    buf: Seq<Rec>,
    more: Seq<Rec>,
    rest: Seq<Seq<Rec>>,
    records: Seq<Seq<u8>>,
    r: Rec,
)
    requires
        in_order(fs, dir, v, seq![buf] + rest, records, r.seq),
        r.seq < u64::MAX,
        record::write_fits(r.key, r.val),
        model::is_run(more),
        forall|key: Seq<u8>| #[trigger]
            model::find(more, key) == if key == r.key {
                Some(r)
            } else {
                model::find(buf, key)
            },
    ensures
        in_order(
            fs,
            dir,
            v,
            seq![more] + rest,
            records.push(record::record_bytes(r)),
            (r.seq + 1) as u64,
        ),
        model::contents((seq![more] + rest) + tables::stack_of(fs, dir, v)) == written(
            model::contents((seq![buf] + rest) + tables::stack_of(fs, dir, v)),
            r.key,
            r.val,
        ),
{
    reveal(in_order);
    let stack = tables::stack_of(fs, dir, v);
    let old_layers = (seq![buf] + rest) + stack;
    let new_layers = (seq![more] + rest) + stack;
    let low = rest + stack;
    assert(old_layers =~= seq![buf] + low);
    assert(new_layers =~= seq![more] + low);
    lemma_put_layers(buf, more, low, r);
    let recs = decoded(records);
    let bytes = record::record_bytes(r);
    let recs2 = decoded(records.push(bytes));
    record::lemma_record_round_trip(r);
    assert(recs2 =~= recs.push(r));
    assert forall|i: int| 0 <= i < records.push(bytes).len() implies record::parsed_record(
        #[trigger] records.push(bytes)[i],
    ) is Ok by {
        if i < records.len() {
            assert(record::parsed_record(records[i]) is Ok);
        }
    }
    assert forall|i: int| 0 <= i < recs2.len() implies (#[trigger] recs2[i]).seq < r.seq + 1 by {
        if i < recs.len() {
            assert(recs[i].seq < r.seq);
        }
    }
    assert forall|key: Seq<u8>| #[trigger] newest(recs2, key) == if key == r.key {
        Some(r)
    } else {
        newest(recs, key)
    } by {
        lemma_newest_push(recs, r, key);
        lemma_newest(recs, key);
        if newest(recs, key) is Some {
            let i = choose|i: int| 0 <= i < recs.len() && #[trigger] recs[i] == newest(recs, key)->0;
            assert(recs[i].seq < r.seq);
        }
    }
    let mem = seq![buf] + rest;
    let mem2 = seq![more] + rest;
    assert forall|key: Seq<u8>| (#[trigger] model::top(mem2, key)) is Some implies newest(recs2, key)
        == model::top(mem2, key) by {
        model::lemma_top_concat(seq![more], rest, key);
        model::lemma_top_one(more, key);
        model::lemma_top_concat(seq![buf], rest, key);
        model::lemma_top_one(buf, key);
        if key != r.key {
            assert(model::top(mem, key) == model::top(mem2, key));
        }
    }
    assert(tables::below(new_layers, (r.seq + 1) as u64)) by {
        assert forall|i: int, j: int| 0 <= i < new_layers.len() && 0 <= j < new_layers[i].len() implies (
        #[trigger] new_layers[i][j]).seq < r.seq + 1 by {
            if i > 0 {
                assert(new_layers[i] == old_layers[i]);
                assert(old_layers[i][j].seq < r.seq);
            } else {
                model::lemma_find_at(more, j);
                let x = more[j];
                if x.key != r.key {
                    assert(model::find(buf, x.key) == Some(x));
                    model::lemma_find(buf, x.key);
                    let n = choose|n: int| 0 <= n < buf.len() && #[trigger] buf[n] == x;
                    assert(old_layers[0][n].seq < r.seq);
                }
            }
        }
    }
}

/// A newer version in the first run of a stack.
proof fn lemma_put_layers(buf: Seq<Rec>, more: Seq<Rec>, low: Seq<Seq<Rec>>, r: Rec)
    requires
        model::is_stack(seq![buf] + low),
        tables::below(seq![buf] + low, r.seq),
        model::is_run(more),
        forall|key: Seq<u8>| #[trigger]
            model::find(more, key) == if key == r.key {
                Some(r)
            } else {
                model::find(buf, key)
            },
    ensures
        model::is_stack(seq![more] + low),
        forall|key: Seq<u8>| #[trigger]
            model::top(seq![more] + low, key) == if key == r.key {
                Some(r)
            } else {
                model::top(seq![buf] + low, key)
            },
        model::contents(seq![more] + low) == written(
            model::contents(seq![buf] + low),
            r.key,
            r.val,
        ),
{
    let a = seq![buf] + low;
    let b = seq![more] + low;
    assert forall|i: int| 0 <= i < b.len() implies model::is_run(#[trigger] b[i]) by {
        if i > 0 {
            assert(b[i] == a[i]);
        }
    }
    assert forall|i: int, j: int, key: Seq<u8>|
        #![trigger model::find(b[i], key), model::find(b[j], key)]
        0 <= i < j < b.len() && model::find(b[i], key) is Some && model::find(
            b[j],
            key,
        ) is Some implies model::supersedes(
        model::find(b[i], key)->0,
        model::find(b[j], key)->0,
    ) by {
        assert(b[j] == a[j]);
        if i > 0 {
            assert(b[i] == a[i]);
            assert(model::find(a[i], key) is Some && model::find(a[j], key) is Some);
        } else if key == r.key {
            model::lemma_find(a[j], key);
            let x = model::find(a[j], key)->0;
            let n = choose|n: int| 0 <= n < a[j].len() && #[trigger] a[j][n] == x;
            assert(a[j][n].seq < r.seq);
        } else {
            assert(model::find(a[0], key) is Some && model::find(a[j], key) is Some);
        }
    }
    assert forall|key: Seq<u8>| #[trigger] model::top(b, key) == if key == r.key {
        Some(r)
    } else {
        model::top(a, key)
    } by {
        model::lemma_top_concat(seq![more], low, key);
        model::lemma_top_one(more, key);
        model::lemma_top_concat(seq![buf], low, key);
        model::lemma_top_one(buf, key);
    }
    assert(model::contents(b) =~= written(model::contents(a), r.key, r.val));
}

/// An empty run on top changes nothing.
pub proof fn lemma_order_freeze(
    fs: FsState,
    dir: Seq<u8>,
    v: VersionView,
    mem: Seq<Seq<Rec>>,
    records: Seq<Seq<u8>>,
    next_seq: u64,
)
    requires
        in_order(fs, dir, v, mem, records, next_seq),
    ensures
        in_order(fs, dir, v, seq![Seq::<Rec>::empty()] + mem, records, next_seq),
        model::contents((seq![Seq::<Rec>::empty()] + mem) + tables::stack_of(fs, dir, v))
            == model::contents(mem + tables::stack_of(fs, dir, v)),
{
    reveal(in_order);
    let stack = tables::stack_of(fs, dir, v);
    let none = Seq::<Rec>::empty();
    let mem2 = seq![none] + mem;
    let a = mem + stack;
    let b = mem2 + stack;
    assert(b =~= seq![none] + a);
    assert forall|i: int| 0 <= i < b.len() implies model::is_run(#[trigger] b[i]) by {
        if i > 0 {
            assert(b[i] == a[i - 1]);
        }
    }
    assert forall|i: int, j: int, key: Seq<u8>|
        #![trigger model::find(b[i], key), model::find(b[j], key)]
        0 <= i < j < b.len() && model::find(b[i], key) is Some && model::find(
            b[j],
            key,
        ) is Some implies model::supersedes(
        model::find(b[i], key)->0,
        model::find(b[j], key)->0,
    ) by {
        assert(b[j] == a[j - 1]);
        if i > 0 {
            assert(b[i] == a[i - 1]);
            assert(model::find(a[i - 1], key) is Some && model::find(a[j - 1], key) is Some);
        }
    }
    assert forall|key: Seq<u8>| #[trigger] model::top(b, key) == model::top(a, key) by {
        model::lemma_top_concat(seq![none], a, key);
        model::lemma_top_one(none, key);
    }
    assert forall|key: Seq<u8>| #[trigger] model::top(mem2, key) == model::top(mem, key) by {
        model::lemma_top_concat(seq![none], mem, key);
        model::lemma_top_one(none, key);
    }
    assert(tables::below(b, next_seq)) by {
        assert forall|i: int, j: int| 0 <= i < b.len() && 0 <= j < b[i].len() implies (
        #[trigger] b[i][j]).seq < next_seq by {
            assert(b[i] == a[i - 1]);
            assert(a[i - 1][j].seq < next_seq);
        }
    }
    model::lemma_contents_equal(b, a);
}

/// A new table's file, as long as no version references it, changes nothing.
pub proof fn lemma_order_fresh(
    pre: FsState,
    post: FsState,
    id: u64,
    dir: Seq<u8>,
    v: VersionView,
    mem: Seq<Seq<Rec>>,
    records: Seq<Seq<u8>>,
    next_seq: u64,
)
    requires
        in_order(pre, dir, v, mem, records, next_seq),
        facts::sound(pre),
        facts::keeps(pre, post, set![manifest::table_at(dir, id)]),
        id >= v.next_table_id,
    ensures
        in_order(post, dir, v, mem, records, next_seq),
        tables::stack_of(post, dir, v) == tables::stack_of(pre, dir, v),
{
    reveal(in_order);
    tables::lemma_good(pre, dir, v);
    compaction::lemma_fresh_table(pre, dir, v, id);
    compaction::lemma_untouched(pre, post, set![manifest::table_at(dir, id)], dir, v);
}

/// What is in order says of the version.
pub proof fn lemma_order_version(
    fs: FsState,
    dir: Seq<u8>,
    v: VersionView,
    mem: Seq<Seq<Rec>>,
    records: Seq<Seq<u8>>,
    next_seq: u64,
)
    requires
        in_order(fs, dir, v, mem, records, next_seq),
    ensures
        manifest::says(fs, dir, v),
        tables::good_version(fs, dir, v),
        tables::metas_good(fs, dir, v),
        v.next_seq <= next_seq,
        model::is_stack(mem + tables::stack_of(fs, dir, v)),
        tables::below(mem + tables::stack_of(fs, dir, v), next_seq),
        all_decode(records),
{
    reveal(in_order);
    tables::lemma_good(fs, dir, v);
}

/// The version with a flushed table is whole once the table is.
pub proof fn lemma_flushed_ready(
    fs: FsState,
    dir: Seq<u8>,
    v: VersionView,
    m: MetaView,
    next_seq: u64,
    x: Seq<Rec>,
    bytes: Seq<u8>,
)
    requires
        tables::metas_good(fs, dir, v),
        m.id == v.next_table_id,
        m.id < u64::MAX,
        tables::describes(m, x),
        table::is_table(bytes, x),
        facts::visible(
            fs,
            manifest::table_at(dir, m.id),
            FileData { live: bytes, synced: bytes },
        ),
    ensures
        compaction::version_ready(fs, dir, v.flushed(m, next_seq)),
        tables::stack_of(fs, dir, v.flushed(m, next_seq)) == seq![x] + tables::stack_of(fs, dir, v),
{
    let v2 = v.flushed(m, next_seq);
    let order = manifest::newest_first(v.tiers);
    let after = manifest::newest_first(v2.tiers);
    tables::lemma_flushed(v, m, next_seq);
    tables::lemma_table_recs(bytes, x);
    assert(compaction::meta_ready(fs, dir, m));
    assert forall|k: int| 0 <= k < after.len() implies compaction::meta_ready(
        fs,
        dir,
        #[trigger] after[k],
    ) && after[k].id < v2.next_table_id by {
        if k > 0 {
            assert(after[k] == order[k - 1]);
            assert(tables::meta_good(fs, dir, order[k - 1]));
        }
    }
    assert(tables::stack_of(fs, dir, v2) =~= seq![x] + tables::stack_of(fs, dir, v));
}

/// The oldest run in memory, once it is a durable table, may leave memory or stay.
#[verifier::rlimit(50)]
pub proof fn lemma_order_flushed(
    mid: FsState,
    post: FsState,
    dir: Seq<u8>,
    v: VersionView,
    upper: Seq<Seq<Rec>>,
    x: Seq<Rec>,
    records: Seq<Seq<u8>>,
    next_seq: u64,
    m: MetaView,
    kept: Seq<VersionView>,
)
    requires
        in_order(mid, dir, v, upper + seq![x], records, next_seq),
        compaction::version_ready(mid, dir, v.flushed(m, next_seq)),
        tables::stack_of(mid, dir, v.flushed(m, next_seq)) == seq![x] + tables::stack_of(
            mid,
            dir,
            v,
        ),
        manifest::says(post, dir, v.flushed(m, next_seq)),
        manifest::settled_except(mid, post, dir, kept.push(v.flushed(m, next_seq))),
    ensures
        ({
            let v2 = v.flushed(m, next_seq);
            let before = model::contents((upper + seq![x]) + tables::stack_of(mid, dir, v));
            &&& in_order(post, dir, v2, upper, records, next_seq)
            &&& in_order(post, dir, v2, upper + seq![x], records, next_seq)
            &&& model::contents(upper + tables::stack_of(post, dir, v2)) == before
            &&& model::contents((upper + seq![x]) + tables::stack_of(post, dir, v2)) == before
        }),
{
    reveal(in_order);
    let v2 = v.flushed(m, next_seq);
    let stack = tables::stack_of(mid, dir, v);
    let mem = upper + seq![x];
    let layers = mem + stack;
    compaction::lemma_installed(mid, post, dir, v2, kept);
    let stack2 = tables::stack_of(post, dir, v2);
    assert(stack2 == seq![x] + stack);
    assert(upper + stack2 =~= layers);
    let none = Seq::<Seq<Rec>>::empty();
    assert(upper + stack2 + none =~= layers);
    model::lemma_stack_part(upper, stack2, none);
    assert(tables::below(stack2, next_seq)) by {
        assert forall|i: int, j: int| 0 <= i < stack2.len() && 0 <= j < stack2[i].len() implies (
        #[trigger] stack2[i][j]).seq < next_seq by {
            assert(layers[upper.len() + i] == stack2[i]);
            assert(layers[upper.len() + i][j].seq < next_seq);
        }
    }
    tables::lemma_good(post, dir, v2);
    assert forall|key: Seq<u8>| (#[trigger] model::top(upper, key)) is Some implies newest(
        decoded(records),
        key,
    ) == model::top(upper, key) by {
        model::lemma_top_concat(upper, seq![x], key);
        assert(model::top(mem, key) is Some);
    }
    let twice = mem + stack2;
    lemma_twice(upper, x, stack);
    assert(twice =~= upper + seq![x] + seq![x] + stack);
    assert(layers =~= upper + seq![x] + stack);
    assert(tables::below(twice, next_seq)) by {
        assert forall|i: int, j: int| 0 <= i < twice.len() && 0 <= j < twice[i].len() implies (
        #[trigger] twice[i][j]).seq < next_seq by {
            let k = if i <= upper.len() { i } else { i - 1 };
            assert(layers[k] == twice[i]);
            assert(layers[k][j].seq < next_seq);
        }
    }
    model::lemma_contents_equal(twice, layers);
}

/// A run that is there twice says what it says once.
proof fn lemma_twice(a: Seq<Seq<Rec>>, x: Seq<Rec>, c: Seq<Seq<Rec>>)
    requires
        model::is_stack(a + seq![x] + c),
    ensures
        model::is_stack(a + seq![x] + seq![x] + c),
        forall|key: Seq<u8>| #[trigger]
            model::top(a + seq![x] + seq![x] + c, key) == model::top(a + seq![x] + c, key),
{
    let one = a + seq![x] + c;
    let two = a + seq![x] + seq![x] + c;
    assert forall|i: int| 0 <= i < two.len() implies model::is_run(#[trigger] two[i]) by {
        assert(two[i] == one[if i <= a.len() { i } else { i - 1 }]);
    }
    assert forall|i: int, j: int, key: Seq<u8>|
        #![trigger model::find(two[i], key), model::find(two[j], key)]
        0 <= i < j < two.len() && model::find(two[i], key) is Some && model::find(
            two[j],
            key,
        ) is Some implies model::supersedes(
        model::find(two[i], key)->0,
        model::find(two[j], key)->0,
    ) by {
        let p = if i <= a.len() { i } else { i - 1 };
        let q = if j <= a.len() { j } else { j - 1 };
        assert(two[i] == one[p] && two[j] == one[q]);
        assert(model::find(one[p], key) is Some && model::find(one[q], key) is Some);
    }
    assert forall|key: Seq<u8>| #[trigger] model::top(two, key) == model::top(one, key) by {
        model::lemma_top_middle(a, seq![x], c, key);
        model::lemma_top_middle(a + seq![x], seq![x], c, key);
        model::lemma_top_concat(a, seq![x], key);
    }
}

/// Once nothing is in memory, the log may be released.
pub proof fn lemma_order_reset(
    fs: FsState,
    dir: Seq<u8>,
    v: VersionView,
    mem: Seq<Seq<Rec>>,
    records: Seq<Seq<u8>>,
    next_seq: u64,
)
    requires
        in_order(fs, dir, v, mem, records, next_seq),
        forall|key: Seq<u8>| (#[trigger] model::top(mem, key)) is None,
    ensures
        in_order(fs, dir, v, mem, Seq::empty(), next_seq),
{
    reveal(in_order);
    let none = Seq::<Seq<u8>>::empty();
    assert(decoded(none) =~= Seq::empty());
    assert forall|key: Seq<u8>| (#[trigger] newest(decoded(none), key)) is None by {}
}

/// A compaction keeps order and contents.
pub proof fn lemma_order_compacted(
    pre: FsState,
    post: FsState,
    dir: Seq<u8>,
    v: VersionView,
    t: int,
    v2: VersionView,
    mem: Seq<Seq<Rec>>,
    next_seq: u64,
)
    requires
        in_order(pre, dir, v, mem, Seq::empty(), next_seq),
        compaction::stepped(pre, post, dir, v, t, v2),
        0 <= t < v.tiers.len(),
    ensures
        in_order(post, dir, v2, mem, Seq::empty(), next_seq),
        model::contents(mem + tables::stack_of(post, dir, v2)) == model::contents(
            mem + tables::stack_of(pre, dir, v),
        ),
{
    reveal(in_order);
    reveal(compaction::stepped);
    let stack = tables::stack_of(pre, dir, v);
    let stack2 = tables::stack_of(post, dir, v2);
    if v2 == v && tables::good_version(post, dir, v) && stack2 == stack {
    } else {
        compaction::lemma_compaction_refines(pre, post, dir, v, t, v2);
        assert(model::is_stack(mem + stack));
        assert(v2.next_seq == v.next_seq && tables::good_version(post, dir, v2)) by {
            reveal(compaction::compacts_to);
        }
        tables::lemma_good(post, dir, v2);
        let layers = mem + stack;
        let layers2 = mem + stack2;
        assert(tables::below(layers2, next_seq)) by {
            assert forall|i: int, j: int| 0 <= i < layers2.len() && 0 <= j < layers2[i].len() implies (
            #[trigger] layers2[i][j]).seq < next_seq by {
                if i < mem.len() {
                    assert(layers[i] == layers2[i]);
                    assert(layers[i][j].seq < next_seq);
                } else {
                    assert(stack2[i - mem.len()] == layers2[i]);
                    assert(stack2[i - mem.len()][j].seq < v2.next_seq);
                }
            }
        }
        let none = Seq::<Seq<u8>>::empty();
        assert(decoded(none) =~= Seq::empty());
        assert forall|key: Seq<u8>| (#[trigger] newest(decoded(none), key)) is None by {}
    }
}

/// The empty version is good anywhere.
pub proof fn lemma_empty_version(fs: FsState, dir: Seq<u8>)
    ensures
        tables::good_version(fs, dir, VersionView::empty()),
        tables::stack_of(fs, dir, VersionView::empty()) == Seq::<Seq<Rec>>::empty(),
        manifest::record::version_fits(VersionView::empty()),
{
    let v = VersionView::empty();
    tables::lemma_good(fs, dir, v);
    tables::lemma_newest_first_empty(v.tiers);
    assert(tables::stack_of(fs, dir, v) =~= Seq::empty());
}

/// Creating the manifest, or failing to, leaves the database as it is.
pub proof fn lemma_image_manifest(
    pre: FsState,
    post: FsState,
    dir: Seq<u8>,
    v: VersionView,
    files: Seq<(u64, Seq<u8>)>,
)
    requires
        facts::sound(pre),
        image(pre, dir, v, files),
        !facts::named(pre, manifest::manifest_at(dir)),
        facts::keeps(pre, post, manifest::manifest_names(dir)),
        recovery::log_seen(post, dir, files),
        manifest::says(post, dir, VersionView::empty()) || !facts::named(
            post,
            manifest::manifest_at(dir),
        ),
    ensures
        image(post, dir, v, files),
        image_contents(post, dir, v, files) == image_contents(pre, dir, v, files),
        v == VersionView::empty(),
{
    lemma_empty_version(pre, dir);
    lemma_empty_version(post, dir);
}

/// Another log with the same records, the rest untouched, makes the same database.
pub proof fn lemma_image_log(
    pre: FsState,
    post: FsState,
    touched: Set<PathView>,
    dir: Seq<u8>,
    v: VersionView,
    files: Seq<(u64, Seq<u8>)>,
    files2: Seq<(u64, Seq<u8>)>,
)
    requires
        facts::sound(pre),
        image(pre, dir, v, files),
        facts::keeps(pre, post, touched),
        forall|p: PathView|
            touched.contains(p) ==> !(#[trigger] compaction::layout_names(dir).contains(p)),
        recovery::log_seen(post, dir, files2),
        recovery::replay(files2).records == recovery::replay(files).records,
    ensures
        image(post, dir, v, files2),
        image_contents(post, dir, v, files2) == image_contents(pre, dir, v, files),
        manifest::says(pre, dir, v) ==> manifest::says(post, dir, v),
        tables::stack_of(post, dir, v) == tables::stack_of(pre, dir, v),
{
    assert forall|id: u64| v.references(id) implies !touched.contains(
        #[trigger] manifest::table_at(dir, id),
    ) by {
        compaction::lemma_table_name_apart(dir, id);
    }
    assert(compaction::layout_names(dir).contains(manifest::manifest_at(dir)));
    tables::lemma_version_kept(pre, post, touched, dir, v);
}

/// Deleting tables that the version does not reference leaves the database as it is, if it
/// is durable or power stays on.
pub proof fn lemma_image_collected(
    pre: FsState,
    post: FsState,
    dir: Seq<u8>,
    v: VersionView,
    files: Seq<(u64, Seq<u8>)>,
)
    requires
        facts::sound(pre),
        image(pre, dir, v, files),
        manifest::says(pre, dir, v),
        facts::keeps(pre, post, manifest::garbage_names(dir, seq![v])),
        recovery::log_stable(pre, dir, files) || facts::calm(
            pre,
            post,
            manifest::garbage_names(dir, seq![v]),
        ),
    ensures
        image(post, dir, v, files),
        manifest::says(post, dir, v),
        recovery::log_stable(pre, dir, files) ==> recovery::log_stable(post, dir, files),
        image_contents(post, dir, v, files) == image_contents(pre, dir, v, files),
        tables::stack_of(post, dir, v) == tables::stack_of(pre, dir, v),
{
    let g = manifest::garbage_names(dir, seq![v]);
    assert forall|id: u64| v.references(id) implies !g.contains(
        #[trigger] manifest::table_at(dir, id),
    ) by {
        compaction::lemma_table_name_apart(dir, id);
        assert(seq![v][0].references(id));
        assert(manifest::any_references(seq![v], id));
    }
    manifest::lemma_manifest_not_garbage(dir, seq![v]);
    compaction::lemma_untouched(pre, post, g, dir, v);
    lemma_garbage_apart(dir, v);
    if recovery::log_stable(pre, dir, files) {
        recovery::lemma_log_kept(pre, post, g, dir, files);
        recovery::lemma_log_seen(post, dir, files);
    } else {
        recovery::lemma_seen_calm(pre, post, g, dir, files);
    }
}

/// Garbage is no part of the log.
pub proof fn lemma_garbage_apart(dir: Seq<u8>, v: VersionView)
    ensures
        forall|p: PathView| #[trigger]
            manifest::garbage_names(dir, seq![v]).contains(p) ==> p.0 != dir || names::segment_id(
                p.1,
            ) is None,
{
    lemma_log_names_apart(dir);
    assert forall|p: PathView| #[trigger]
        manifest::garbage_names(dir, seq![v]).contains(p) implies p.0 != dir || names::segment_id(
        p.1,
    ) is None by {
        assert(compaction::layout_names(dir).contains(p));
    }
}

/// Replaying the log into memory brings a database into order.
pub proof fn lemma_order_opened(
    fs: FsState,
    dir: Seq<u8>,
    v: VersionView,
    files: Seq<(u64, Seq<u8>)>,
    buf: Seq<Rec>,
    next_seq: u64,
)
    requires
        image(fs, dir, v, files),
        manifest::says(fs, dir, v),
        model::is_run(buf),
        forall|key: Seq<u8>| #[trigger]
            model::find(buf, key) == newest(decoded(recovery::replay(files).records), key),
        v.next_seq <= next_seq,
        numbered_below(decoded(recovery::replay(files).records), next_seq),
    ensures
        in_order(fs, dir, v, seq![buf], recovery::replay(files).records, next_seq),
        model::contents(seq![buf] + tables::stack_of(fs, dir, v)) == image_contents(
            fs,
            dir,
            v,
            files,
        ),
{
    reveal(in_order);
    tables::lemma_good(fs, dir, v);
    let stack = tables::stack_of(fs, dir, v);
    let recs = decoded(recovery::replay(files).records);
    let layers = seq![buf] + stack;
    assert forall|i: int| 0 <= i < layers.len() implies model::is_run(#[trigger] layers[i]) by {
        if i > 0 {
            assert(layers[i] == stack[i - 1]);
        }
    }
    assert forall|i: int, j: int, key: Seq<u8>|
        #![trigger model::find(layers[i], key), model::find(layers[j], key)]
        0 <= i < j < layers.len() && model::find(layers[i], key) is Some && model::find(
            layers[j],
            key,
        ) is Some implies model::supersedes(
        model::find(layers[i], key)->0,
        model::find(layers[j], key)->0,
    ) by {
        assert(layers[j] == stack[j - 1]);
        if i > 0 {
            assert(layers[i] == stack[i - 1]);
            assert(model::find(stack[i - 1], key) is Some && model::find(stack[j - 1], key)
                is Some);
        } else {
            assert(newest(recs, key) is Some && model::find(stack[j - 1], key) is Some);
        }
    }
    assert(tables::below(layers, next_seq)) by {
        assert forall|i: int, j: int| 0 <= i < layers.len() && 0 <= j < layers[i].len() implies (
        #[trigger] layers[i][j]).seq < next_seq by {
            if i > 0 {
                assert(layers[i] == stack[i - 1]);
                assert(stack[i - 1][j].seq < v.next_seq);
            } else {
                model::lemma_find_at(buf, j);
                let r = buf[j];
                lemma_newest(recs, r.key);
                let n = choose|n: int| 0 <= n < recs.len() && #[trigger] recs[n] == r;
                assert(recs[n].seq < next_seq);
            }
        }
    }
    assert forall|key: Seq<u8>| #[trigger] model::top(layers, key) == said(recs, stack, key) by {
        model::lemma_top_concat(seq![buf], stack, key);
        model::lemma_top_one(buf, key);
    }
    assert forall|key: Seq<u8>| #[trigger] model::top(seq![buf], key) == newest(recs, key) by {
        model::lemma_top_one(buf, key);
    }
    assert forall|key: Seq<u8>| (#[trigger] newest(recs, key)) is Some implies model::top(
        layers,
        key,
    ) == newest(recs, key) by {
        assert(model::top(layers, key) == said(recs, stack, key));
    }
    assert(model::contents(layers) =~= contents_of(recs, stack));
}

/// The sequence number after those of all the writes, and at least `floor`.
pub open spec fn next_after(recs: Seq<Rec>, floor: u64) -> u64
    decreases recs.len(),
{
    if recs.len() == 0 {
        floor
    } else {
        let before = next_after(recs.drop_last(), floor);
        let seq = recs.last().seq;
        if seq < before {
            before
        } else if seq < u64::MAX {
            (seq + 1) as u64
        } else {
            u64::MAX
        }
    }
}

pub proof fn lemma_next_after(recs: Seq<Rec>, floor: u64)
    requires
        numbered_below(recs, u64::MAX),
    ensures
        floor <= next_after(recs, floor),
        numbered_below(recs, next_after(recs, floor)),
    decreases recs.len(),
{
    if recs.len() > 0 {
        assert forall|i: int| 0 <= i < recs.drop_last().len() implies (
        #[trigger] recs.drop_last()[i]).seq < u64::MAX by {
            assert(recs[i].seq < u64::MAX);
        }
        lemma_next_after(recs.drop_last(), floor);
        assert(recs.last() == recs[recs.len() - 1]);
        assert forall|i: int| 0 <= i < recs.len() implies (#[trigger] recs[i]).seq < next_after(
            recs,
            floor,
        ) by {
            if i < recs.len() - 1 {
                assert(recs.drop_last()[i] == recs[i]);
            }
        }
    }
}

/// A directory that has no manifest and no log yet recovers to an empty database.
pub proof fn lemma_fresh_directory(fs: FsState, dir: Seq<u8>)
    requires
        !facts::named(fs, manifest::manifest_at(dir)),
        forall|p: PathView| #[trigger]
            facts::named(fs, p) && p.0 == dir ==> names::segment_id(p.1) is None,
    ensures
        image(fs, dir, VersionView::empty(), Seq::empty()),
        holds(fs, dir, Map::empty()),
        recovers_to(fs, dir, Map::empty()),
{
    let files = Seq::<(u64, Seq<u8>)>::empty();
    lemma_empty_version(fs, dir);
    let records = recovery::replay(files).records;
    assert(records =~= Seq::empty());
    assert(decoded(records) =~= Seq::empty());
    assert(recovery::log_on(fs, dir, files));
    recovery::lemma_log_seen(fs, dir, files);
    assert(image(fs, dir, VersionView::empty(), files));
    assert(image_contents(fs, dir, VersionView::empty(), files) =~= Map::empty());
    assert(recovery::log_stable(fs, dir, files));
}

/// The manifest in `dir`, if there is one, is short enough to be read into memory.
pub open spec fn manifest_fits_memory(fs: FsState, dir: Seq<u8>) -> bool {
    fs.live.contains_key(manifest::manifest_at(dir)) ==> fs.content(
        manifest::manifest_at(dir),
    ).len() <= usize::MAX
}

/// What opening the manifest makes of a database: it stays as it is, and the
/// manifest says its version.
pub proof fn lemma_manifest_opened(
    d0: Disk,
    d1: Disk,
    dir: Seq<u8>,
    r: manifest::Result<Manifest>,
    v: VersionView,
    files: Seq<(u64, Seq<u8>)>,
)
    requires
        facts::carried(d0, d1, manifest::manifest_names(dir)),
        manifest::open_outcome(d0, d1, dir, r),
        d1.room(),
        facts::sound(d0.fs),
        image(d0.fs, dir, v, files),
    ensures
        r matches Ok(m) ==> m.version() == v,
        !d1.halted || recovery::log_stable(d0.fs, dir, files) ==> {
            &&& image(d1.fs, dir, v, files)
            &&& image_contents(d1.fs, dir, v, files) == image_contents(d0.fs, dir, v, files)
        },
        !d1.halted && r is Ok ==> manifest::says(d1.fs, dir, v),
        recovery::log_stable(d0.fs, dir, files) ==> recovery::log_stable(d1.fs, dir, files),
        recovery::log_on(d0.fs, dir, files) && !d1.halted ==> recovery::log_on(
            d1.fs,
            dir,
            files,
        ),
        !d1.halted ==> tables::stack_of(d1.fs, dir, v) == tables::stack_of(d0.fs, dir, v),
        d0.reliable && !d0.halted && manifest_fits_memory(d0.fs, dir) ==> r is Ok,
{
    let t = manifest::manifest_names(dir);
    let p = manifest::manifest_at(dir);
    assert forall|q: PathView| #[trigger] t.contains(q) implies q.0 != dir || names::segment_id(q.1)
        is None by {
        lemma_log_names_apart(dir);
        assert(compaction::layout_names(dir).contains(q));
    }
    if recovery::log_stable(d0.fs, dir, files) {
        recovery::lemma_log_kept(d0.fs, d1.fs, t, dir, files);
        recovery::lemma_log_seen(d1.fs, dir, files);
    } else if !d1.halted {
        recovery::lemma_seen_calm(d0.fs, d1.fs, t, dir, files);
    }
    if recovery::log_on(d0.fs, dir, files) && !d1.halted {
        recovery::lemma_log_calm(d0.fs, d1.fs, t, dir, files);
    }
    if manifest::says(d0.fs, dir, v) {
        manifest::record::lemma_version_round_trip(v);
        assert(d0.fs.content(p) == manifest::record::version_bytes(v));
    } else {
        assert(!facts::named(d0.fs, p));
        lemma_empty_version(d0.fs, dir);
        lemma_empty_version(d1.fs, dir);
        if !d1.halted || recovery::log_stable(d0.fs, dir, files) {
            lemma_image_manifest(d0.fs, d1.fs, dir, v, files);
        }
    }
}

/// What opening the log makes of a database: it stays as it is.
pub proof fn lemma_log_opened(
    d1: Disk,
    d2: Disk,
    dir: Seq<u8>,
    r: StorageResult<(Wal, recovery::Recovered)>,
    v: VersionView,
    files: Seq<(u64, Seq<u8>)>,
) -> (files2: Seq<(u64, Seq<u8>)>)
    requires
        wal::open_outcome(d1, d2, dir, r),
        d2.room(),
        facts::sound(d1.fs),
        image(d1.fs, dir, v, files),
        r matches Ok((log, _)) ==> log.home() == dir,
    ensures
        recovery::plainly_named(d1.fs, dir),
        recovery::seen_in(d1.fs, dir) == files,
        !d2.halted && r is Ok ==> {
            &&& recovery::replay(files2).records == recovery::replay(files).records
            &&& image(d2.fs, dir, v, files2)
            &&& image_contents(d2.fs, dir, v, files2) == image_contents(d1.fs, dir, v, files)
            &&& manifest::says(d1.fs, dir, v) ==> manifest::says(d2.fs, dir, v)
            &&& tables::stack_of(d2.fs, dir, v) == tables::stack_of(d1.fs, dir, v)
            &&& recovery::log_on(d1.fs, dir, files) ==> r->Ok_0.0.is_anchored()
            &&& recovery::log_stable(d1.fs, dir, files) ==> r->Ok_0.0.is_safe()
                && recovery::log_stable(d2.fs, dir, files2)
            &&& files2 == wal::log_model(r->Ok_0.0.segments())
        },
        recovery::log_stable(d1.fs, dir, files) ==> recovers_to(
            d2.fs,
            dir,
            image_contents(d1.fs, dir, v, files),
        ),
{
    let t = recovery::log_names(dir);
    recovery::lemma_seen_named(d1.fs, dir, files);
    lemma_log_names_apart(dir);
    assert(forall|p: PathView|
        t.contains(p) ==> !(#[trigger] compaction::layout_names(dir).contains(p)));
    if recovery::log_stable(d1.fs, dir, files) {
        let g = choose|g: Seq<(u64, Seq<u8>)>| #[trigger]
            recovery::log_stable(d2.fs, dir, g) && recovery::replay(g).records == recovery::replay(
                files,
            ).records;
        recovery::lemma_log_seen(d2.fs, dir, g);
        lemma_image_log(d1.fs, d2.fs, t, dir, v, files, g);
    }
    if !d2.halted && r is Ok {
        let log = r->Ok_0.0;
        log.lemma_inv(d2.fs);
        let g = wal::log_model(log.segments());
        lemma_image_log(d1.fs, d2.fs, t, dir, v, files, g);
        g
    } else {
        files
    }
}

/// Order depends on the files of the version alone.
pub proof fn lemma_order_same(
    pre: FsState,
    post: FsState,
    dir: Seq<u8>,
    v: VersionView,
    mem: Seq<Seq<Rec>>,
    records: Seq<Seq<u8>>,
    next_seq: u64,
)
    requires
        in_order(pre, dir, v, mem, records, next_seq),
        manifest::says(post, dir, v),
        tables::good_version(post, dir, v),
        tables::stack_of(post, dir, v) == tables::stack_of(pre, dir, v),
    ensures
        in_order(post, dir, v, mem, records, next_seq),
{
    reveal(in_order);
}

/// The database with table `m` flushed.
pub open spec fn flush_done(
    pre: FsState,
    post: FsState,
    dir: Seq<u8>,
    v: VersionView,
    m: MetaView,
    upper: Seq<Seq<Rec>>,
    x: Seq<Rec>,
    records: Seq<Seq<u8>>,
    next_seq: u64,
) -> bool {
    let v2 = v.flushed(m, next_seq);
    let before = model::contents((upper + seq![x]) + tables::stack_of(pre, dir, v));
    &&& in_order(post, dir, v2, upper, records, next_seq)
    &&& in_order(post, dir, v2, upper + seq![x], records, next_seq)
    &&& model::contents(upper + tables::stack_of(post, dir, v2)) == before
    &&& model::contents((upper + seq![x]) + tables::stack_of(post, dir, v2)) == before
    &&& tables::grown(pre, post, dir, v, v2)
    &&& tables::stack_of(post, dir, v2) == seq![x] + tables::stack_of(pre, dir, v)
}

/// What installing a flushed table makes of the database: the table takes the place
/// of the run in memory, or power was lost and the database is as it was.
pub proof fn lemma_flush_installed(
    d1: Disk,
    d2: Disk,
    dir: Seq<u8>,
    v: VersionView,
    m: MetaView,
    upper: Seq<Seq<Rec>>,
    x: Seq<Rec>,
    records: Seq<Seq<u8>>,
    next_seq: u64,
    bytes: Seq<u8>,
    kept: Seq<VersionView>,
)
    requires
        !d1.halted,
        d2.room(),
        facts::sound(d1.fs),
        in_order(d1.fs, dir, v, upper + seq![x], records, next_seq),
        m.id == v.next_table_id,
        m.id < u64::MAX,
        tables::describes(m, x),
        table::is_table(bytes, x),
        facts::visible(
            d1.fs,
            manifest::table_at(dir, m.id),
            FileData { live: bytes, synced: bytes },
        ),
        manifest::install_outcome(d1, d2, dir, v.flushed(m, next_seq), kept),
    ensures
        flush_done(d1.fs, d2.fs, dir, v, m, upper, x, records, next_seq) || d2.halted && in_order(
            d2.fs,
            dir,
            v,
            upper + seq![x],
            records,
            next_seq,
        ) && tables::stack_of(d2.fs, dir, v) == tables::stack_of(d1.fs, dir, v),
{
    reveal(manifest::install_outcome);
    let v2 = v.flushed(m, next_seq);
    lemma_order_version(d1.fs, dir, v, upper + seq![x], records, next_seq);
    if manifest::says(d2.fs, dir, v2) && manifest::settled_except(
        d1.fs,
        d2.fs,
        dir,
        kept.push(v2),
    ) {
        lemma_flushed_ready(d1.fs, dir, v, m, next_seq, x, bytes);
        lemma_order_flushed(d1.fs, d2.fs, dir, v, upper, x, records, next_seq, m, kept);
        compaction::lemma_installed(d1.fs, d2.fs, dir, v2, kept);
        tables::lemma_flushed(v, m, next_seq);
        assert forall|id: u64| #[trigger] v2.references(id) implies id == v.next_table_id && id
            < v2.next_table_id || v.references(id) && d2.fs.content(manifest::table_at(dir, id))
            == d1.fs.content(manifest::table_at(dir, id)) by {
            tables::lemma_references(v2, id);
            tables::lemma_references(v, id);
            let after = manifest::newest_first(v2.tiers);
            let k = choose|k: int| 0 <= k < after.len() && (#[trigger] after[k]).id == id;
            if k > 0 {
                assert(after[k] == manifest::newest_first(v.tiers)[k - 1]);
            }
        }
    } else {
        compaction::lemma_not_installed(d1.fs, d2.fs, dir, v);
        lemma_order_same(d1.fs, d2.fs, dir, v, upper + seq![x], records, next_seq);
    }
}

/// Which of the writes that a log has of a key counts when it is replayed: the one with the
/// highest sequence number, wherever it stands, and of several with that number the first.
pub proof fn lemma_newest_counts(recs: Seq<Rec>, key: Seq<u8>)
    ensures
        newest(recs, key) is None <==> forall|i: int|
            0 <= i < recs.len() ==> (#[trigger] recs[i]).key != key,
        newest(recs, key) matches Some(r) ==> exists|i: int|
            {
                &&& 0 <= i < recs.len()
                &&& #[trigger] recs[i] == r
                &&& r.key == key
                &&& forall|j: int|
                    0 <= j < recs.len() && (#[trigger] recs[j]).key == key ==> recs[j].seq < r.seq
                        || recs[j].seq == r.seq && i <= j
            },
    decreases recs.len(),
{
    if recs.len() > 0 {
        let less = recs.drop_last();
        let n = less.len() as int;
        lemma_newest_counts(less, key);
        assert forall|j: int| 0 <= j < n implies #[trigger] recs[j] == less[j] by {}
        if newest(less, key) is None {
            if recs[n].key == key {
                assert(newest(recs, key) == Some(recs[n]));
                assert forall|j: int| 0 <= j < recs.len() && (#[trigger] recs[j]).key == key implies
                    recs[j].seq < recs[n].seq || recs[j].seq == recs[n].seq && n <= j by {
                    if j < n {
                        assert(less[j].key != key);
                    }
                }
            } else {
                assert forall|j: int| 0 <= j < recs.len() implies (#[trigger] recs[j]).key != key by {
                    if j < n {
                        assert(less[j].key != key);
                    }
                }
            }
        } else {
            let r = newest(less, key)->0;
            let i = choose|i: int|
                {
                    &&& 0 <= i < less.len()
                    &&& #[trigger] less[i] == r
                    &&& r.key == key
                    &&& forall|j: int|
                        0 <= j < less.len() && (#[trigger] less[j]).key == key ==> less[j].seq < r.seq
                            || less[j].seq == r.seq && i <= j
                };
            let at = if newest(recs, key) == Some(r) && !(recs[n].key == key && recs[n].seq > r.seq) {
                i
            } else {
                n
            };
            let won = newest(recs, key)->0;
            assert(recs[at] == won);
            assert forall|j: int| 0 <= j < recs.len() && (#[trigger] recs[j]).key == key implies
                recs[j].seq < won.seq || recs[j].seq == won.seq && at <= j by {
                if j < n {
                    assert(less[j].key == key);
                }
            }
        }
    }
}

/// What the next sequence number is after a replay: above that of every write in the log, no
/// smaller than the manifest says, and no larger than that makes necessary.
pub proof fn lemma_next_is_least(recs: Seq<Rec>, floor: u64)
    requires
        numbered_below(recs, u64::MAX),
    ensures
        next_after(recs, floor) >= floor,
        forall|i: int|
            0 <= i < recs.len() ==> (#[trigger] recs[i]).seq < next_after(recs, floor),
        next_after(recs, floor) == floor || exists|i: int|
            0 <= i < recs.len() && (#[trigger] recs[i]).seq + 1 == next_after(recs, floor),
    decreases recs.len(),
{
    lemma_next_after(recs, floor);
    if recs.len() > 0 {
        let less = recs.drop_last();
        assert forall|i: int| 0 <= i < less.len() implies (#[trigger] less[i]).seq < u64::MAX by {
            assert(recs[i].seq < u64::MAX);
        }
        lemma_next_is_least(less, floor);
        assert(recs[recs.len() - 1].seq < u64::MAX);
        if next_after(recs, floor) == next_after(less, floor) {
            if next_after(less, floor) != floor {
                let i = choose|i: int|
                    0 <= i < less.len() && (#[trigger] less[i]).seq + 1 == next_after(less, floor);
                assert(recs[i].seq + 1 == next_after(recs, floor));
            }
        } else {
            assert(recs[recs.len() - 1].seq + 1 == next_after(recs, floor));
        }
    }
}

} // verus!
