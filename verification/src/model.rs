//! What the store's parts hold: records, sorted runs of them, and what a stack
//! of runs says of a key.

use vstd::prelude::*;

use crate::order;

verus! {

/// One version of a key: the sequence number of the write that produced it, and
/// the value written, or `None` for a deletion.
#[verifier::ext_equal]
pub struct Rec {
    pub key: Seq<u8>,
    pub seq: u64,
    pub val: Option<Seq<u8>>,
}

/// Keys ascend strictly: a run holds at most one version per key.
pub open spec fn is_run(run: Seq<Rec>) -> bool {
    forall|i: int, j: int|
        0 <= i < j < run.len() ==> order::lex_lt((#[trigger] run[i]).key, (#[trigger] run[j]).key)
}

/// The first version of `key` in `run`.
pub open spec fn find(run: Seq<Rec>, key: Seq<u8>) -> Option<Rec>
    decreases run.len(),
{
    if run.len() == 0 {
        None
    } else if run[0].key == key {
        Some(run[0])
    } else {
        find(run.drop_first(), key)
    }
}

/// What a stack of runs, newest first, says of `key`: what the first run that
/// mentions it says.
pub open spec fn top(layers: Seq<Seq<Rec>>, key: Seq<u8>) -> Option<Rec>
    decreases layers.len(),
{
    if layers.len() == 0 {
        None
    } else {
        match find(layers[0], key) {
            Some(r) => Some(r),
            None => top(layers.drop_first(), key),
        }
    }
}

/// The value that a version gives its key: none if it is a deletion.
pub open spec fn value_of(r: Option<Rec>) -> Option<Seq<u8>> {
    match r {
        Some(r) => r.val,
        None => None,
    }
}

/// The contents of a stack of runs: the keys with a value, and their values.
pub open spec fn contents(layers: Seq<Seq<Rec>>) -> Map<Seq<u8>, Seq<u8>> {
    Map::new(
        |key: Seq<u8>| value_of(top(layers, key)) is Some,
        |key: Seq<u8>| value_of(top(layers, key))->0,
    )
}

/// Of two versions of one key, the one in the newer run has the higher sequence
/// number, or they are the same version.
pub open spec fn is_stack(layers: Seq<Seq<Rec>>) -> bool {
    &&& forall|i: int| 0 <= i < layers.len() ==> is_run(#[trigger] layers[i])
    &&& forall|i: int, j: int, key: Seq<u8>|
        #![trigger find(layers[i], key), find(layers[j], key)]
        0 <= i < j < layers.len() && find(layers[i], key) is Some && find(layers[j], key) is Some
            ==> supersedes(find(layers[i], key)->0, find(layers[j], key)->0)
}

/// `a` is newer than `b`, or they are the same.
pub open spec fn supersedes(a: Rec, b: Rec) -> bool {
    a == b || a.seq > b.seq
}

pub proof fn lemma_find(run: Seq<Rec>, key: Seq<u8>)
    ensures
        match find(run, key) {
            Some(r) => r.key == key && exists|i: int| 0 <= i < run.len() && #[trigger] run[i] == r,
            None => forall|i: int| 0 <= i < run.len() ==> (#[trigger] run[i]).key != key,
        },
    decreases run.len(),
{
    if run.len() > 0 {
        if run[0].key == key {
            assert(run[0] == find(run, key)->0);
        } else {
            let rest = run.drop_first();
            lemma_find(rest, key);
            match find(rest, key) {
                Some(r) => {
                    let i = choose|i: int| 0 <= i < rest.len() && #[trigger] rest[i] == r;
                    assert(run[i + 1] == r);
                },
                None => {
                    assert forall|i: int| 0 <= i < run.len() implies (#[trigger] run[i]).key
                        != key by {
                        if i > 0 {
                            assert(rest[i - 1] == run[i]);
                        }
                    }
                },
            }
        }
    }
}

/// In a run, a version is what is found of its key.
pub proof fn lemma_find_at(run: Seq<Rec>, i: int)
    requires
        is_run(run),
        0 <= i < run.len(),
    ensures
        find(run, run[i].key) == Some(run[i]),
{
    lemma_find(run, run[i].key);
    let r = find(run, run[i].key);
    if r is None {
        assert(run[i].key != run[i].key);
    }
    let j = choose|j: int| 0 <= j < run.len() && #[trigger] run[j] == r->0;
    if j != i {
        order::lemma_lex_irreflexive(run[i].key);
        if j < i {
            assert(order::lex_lt(run[j].key, run[i].key));
        } else {
            assert(order::lex_lt(run[i].key, run[j].key));
        }
    }
}

/// A run is what it says of every key.
pub proof fn lemma_run_unique(a: Seq<Rec>, b: Seq<Rec>)
    requires
        is_run(a),
        is_run(b),
        forall|k: Seq<u8>| #[trigger] find(a, k) == find(b, k),
    ensures
        a == b,
    decreases a.len(),
{
    if a.len() == 0 {
        if b.len() > 0 {
            lemma_find_at(b, 0);
            assert(find(a, b[0].key) is None);
        }
        assert(a =~= b);
    } else {
        let x = a.last();
        lemma_find_at(a, a.len() - 1);
        assert(find(b, x.key) == Some(x));
        lemma_find(b, x.key);
        let j = choose|j: int| 0 <= j < b.len() && #[trigger] b[j] == x;
        let y = b.last();
        lemma_find_at(b, b.len() - 1);
        assert(find(a, y.key) == Some(y));
        lemma_find(a, y.key);
        let i = choose|i: int| 0 <= i < a.len() && #[trigger] a[i] == y;
        if j < b.len() - 1 {
            assert(order::lex_lt(b[j].key, b[b.len() - 1].key));
            if i < a.len() - 1 {
                assert(order::lex_lt(a[i].key, a[a.len() - 1].key));
                order::lemma_lex_asymmetric(x.key, y.key);
            } else {
                order::lemma_lex_irreflexive(x.key);
            }
        }
        assert(x == y);
        let c = a.drop_last();
        let d = b.drop_last();
        assert forall|k: Seq<u8>| #[trigger] find(c, k) == find(d, k) by {
            lemma_find_shorter(a, k);
            lemma_find_shorter(b, k);
            assert(find(a, k) == find(b, k));
        }
        lemma_run_unique(c, d);
        assert(a =~= c.push(x));
        assert(b =~= d.push(y));
    }
}

/// What a run says without its last version.
proof fn lemma_find_shorter(run: Seq<Rec>, key: Seq<u8>)
    requires
        is_run(run),
        run.len() > 0,
    ensures
        is_run(run.drop_last()),
        find(run.drop_last(), key) == if key == run.last().key {
            None
        } else {
            find(run, key)
        },
{
    let less = run.drop_last();
    assert(is_run(less));
    lemma_find(less, key);
    lemma_find(run, key);
    match find(less, key) {
        Some(r) => {
            let i = choose|i: int| 0 <= i < less.len() && #[trigger] less[i] == r;
            assert(run[i] == r);
            lemma_find_at(run, i);
            order::lemma_lex_irreflexive(key);
            assert(order::lex_lt(run[i].key, run[run.len() - 1].key));
        },
        None => {
            if let Some(r) = find(run, key) {
                let i = choose|i: int| 0 <= i < run.len() && #[trigger] run[i] == r;
                if i < less.len() {
                    assert(less[i].key != key);
                }
            }
        },
    }
}

/// The end of a run is a run.
pub proof fn lemma_run_tail(run: Seq<Rec>, n: int)
    requires
        is_run(run),
        0 <= n <= run.len(),
    ensures
        is_run(run.skip(n)),
{
    let t = run.skip(n);
    assert forall|i: int, j: int| 0 <= i < j < t.len() implies order::lex_lt(
        (#[trigger] t[i]).key,
        (#[trigger] t[j]).key,
    ) by {
        assert(order::lex_lt(run[i + n].key, run[j + n].key));
    }
}

/// A longer run.
pub proof fn lemma_run_push(run: Seq<Rec>, r: Rec)
    requires
        is_run(run),
        run.len() > 0 ==> order::lex_lt(run.last().key, r.key),
    ensures
        is_run(run.push(r)),
        forall|key: Seq<u8>| #[trigger]
            find(run.push(r), key) == if key == r.key {
                Some(r)
            } else {
                find(run, key)
            },
{
    let longer = run.push(r);
    assert forall|i: int, j: int| 0 <= i < j < longer.len() implies order::lex_lt(
        (#[trigger] longer[i]).key,
        (#[trigger] longer[j]).key,
    ) by {
        if j < run.len() {
            assert(order::lex_lt(run[i].key, run[j].key));
        } else if i < run.len() - 1 {
            assert(order::lex_lt(run[i].key, run[run.len() - 1].key));
            order::lemma_lex_transitive(run[i].key, run[run.len() - 1].key, r.key);
        }
    }
    assert forall|key: Seq<u8>| #[trigger] find(longer, key) == if key == r.key {
        Some(r)
    } else {
        find(run, key)
    } by {
        if key == r.key {
            assert(longer[run.len() as int] == r);
            lemma_find_at(longer, run.len() as int);
        } else {
            lemma_find(run, key);
            lemma_find(longer, key);
            match find(run, key) {
                Some(f) => {
                    let i = choose|i: int| 0 <= i < run.len() && #[trigger] run[i] == f;
                    assert(longer[i] == f);
                    lemma_find_at(longer, i);
                },
                None => {
                    if find(longer, key) is Some {
                        let i = choose|i: int|
                            0 <= i < longer.len() && #[trigger] longer[i] == find(longer, key)->0;
                        assert(i < run.len());
                        assert(run[i].key == key);
                    }
                },
            }
        }
    }
}

/// What the stack says of a key is what some run of it says, and no run above
/// that one mentions the key.
pub proof fn lemma_top(layers: Seq<Seq<Rec>>, key: Seq<u8>)
    ensures
        match top(layers, key) {
            Some(r) => exists|i: int|
                0 <= i < layers.len() && #[trigger] find(layers[i], key) == Some(r) && forall|j: int|
                    0 <= j < i ==> find(#[trigger] layers[j], key) is None,
            None => forall|i: int| 0 <= i < layers.len() ==> find(#[trigger] layers[i], key) is None,
        },
    decreases layers.len(),
{
    if layers.len() > 0 {
        match find(layers[0], key) {
            Some(r) => {
                assert(find(layers[0], key) == Some(r));
            },
            None => {
                let rest = layers.drop_first();
                lemma_top(rest, key);
                match top(rest, key) {
                    Some(r) => {
                        let i = choose|i: int|
                            0 <= i < rest.len() && #[trigger] find(rest[i], key) == Some(r)
                                && forall|j: int| 0 <= j < i ==> find(#[trigger] rest[j], key) is None;
                        assert(layers[i + 1] == rest[i]);
                        assert(find(layers[i + 1], key) == Some(r));
                        assert forall|j: int| 0 <= j < i + 1 implies find(
                            #[trigger] layers[j],
                            key,
                        ) is None by {
                            if j > 0 {
                                assert(layers[j] == rest[j - 1]);
                            }
                        }
                    },
                    None => {
                        assert forall|i: int| 0 <= i < layers.len() implies find(
                            #[trigger] layers[i],
                            key,
                        ) is None by {
                            if i > 0 {
                                assert(layers[i] == rest[i - 1]);
                            }
                        }
                    },
                }
            },
        }
    }
}

/// A run that mentions `key`, with none above that does, decides.
pub proof fn lemma_top_at(layers: Seq<Seq<Rec>>, key: Seq<u8>, i: int)
    requires
        0 <= i < layers.len(),
        find(layers[i], key) is Some,
        forall|j: int| 0 <= j < i ==> find(#[trigger] layers[j], key) is None,
    ensures
        top(layers, key) == find(layers[i], key),
    decreases layers.len(),
{
    if i > 0 {
        assert(find(layers[0], key) is None);
        let rest = layers.drop_first();
        assert forall|j: int| 0 <= j < i - 1 implies find(#[trigger] rest[j], key) is None by {
            assert(rest[j] == layers[j + 1]);
        }
        lemma_top_at(rest, key, i - 1);
    }
}

/// A stack of stacks.
pub proof fn lemma_top_concat(a: Seq<Seq<Rec>>, b: Seq<Seq<Rec>>, key: Seq<u8>)
    ensures
        top(a + b, key) == match top(a, key) {
            Some(r) => Some(r),
            None => top(b, key),
        },
    decreases a.len(),
{
    if a.len() == 0 {
        assert(a + b =~= b);
    } else {
        assert((a + b).drop_first() =~= a.drop_first() + b);
        lemma_top_concat(a.drop_first(), b, key);
    }
}

/// `r` is a version of `key` in one of the runs, and none there is newer.
pub open spec fn is_newest(runs: Seq<Seq<Rec>>, key: Seq<u8>, r: Rec) -> bool {
    &&& exists|i: int| 0 <= i < runs.len() && #[trigger] find(runs[i], key) == Some(r)
    &&& forall|i: int|
        0 <= i < runs.len() && (#[trigger] find(runs[i], key)) is Some ==> find(
            runs[i],
            key,
        )->0.seq <= r.seq
}

/// In a stack, what it says of a key is the newest version, and any newest
/// version is that one.
pub proof fn lemma_stack_newest(layers: Seq<Seq<Rec>>, key: Seq<u8>)
    requires
        is_stack(layers),
    ensures
        match top(layers, key) {
            Some(r) => is_newest(layers, key, r) && forall|s: Rec| #[trigger]
                is_newest(layers, key, s) ==> s == r,
            None => forall|s: Rec| !is_newest(layers, key, s),
        },
{
    lemma_top(layers, key);
    if let Some(r) = top(layers, key) {
        let i = choose|i: int|
            0 <= i < layers.len() && #[trigger] find(layers[i], key) == Some(r) && forall|j: int|
                0 <= j < i ==> find(#[trigger] layers[j], key) is None;
        assert forall|j: int| 0 <= j < layers.len() && (#[trigger] find(layers[j], key))
            is Some implies supersedes(r, find(layers[j], key)->0) by {
            if j < i {
                assert(find(layers[j], key) is None);
            } else if j > i {
                assert(supersedes(find(layers[i], key)->0, find(layers[j], key)->0));
            }
        }
        assert forall|s: Rec| #[trigger] is_newest(layers, key, s) implies s == r by {
            let j = choose|j: int| 0 <= j < layers.len() && #[trigger] find(layers[j], key) == Some(s);
            assert(find(layers[i], key) is Some);
            assert(supersedes(r, s));
        }
    }
}

/// Stacks that say the same of every key have the same contents.
pub proof fn lemma_contents_equal(a: Seq<Seq<Rec>>, b: Seq<Seq<Rec>>)
    requires
        forall|key: Seq<u8>| value_of(#[trigger] top(a, key)) == value_of(top(b, key)),
    ensures
        contents(a) == contents(b),
{
    assert(contents(a) =~= contents(b));
}

/// What a stack says of a key with one of its runs in the middle.
pub proof fn lemma_top_middle(
    a: Seq<Seq<Rec>>,
    b: Seq<Seq<Rec>>,
    c: Seq<Seq<Rec>>,
    key: Seq<u8>,
)
    ensures
        top(a + b + c, key) == match top(a, key) {
            Some(r) => Some(r),
            None => match top(b, key) {
                Some(r) => Some(r),
                None => top(c, key),
            },
        },
{
    lemma_top_concat(a + b, c, key);
    lemma_top_concat(a, b, key);
}

/// A stack of one run.
pub proof fn lemma_top_one(run: Seq<Rec>, key: Seq<u8>)
    ensures
        top(seq![run], key) == find(run, key),
{
    assert(seq![run].drop_first() =~= Seq::empty());
    assert(top(seq![run].drop_first(), key) is None);
}

/// A run in place of some neighbouring runs of a stack, if it says of no key
/// anything but what these say, makes a stack.
pub proof fn lemma_stack_replace(
    a: Seq<Seq<Rec>>,
    b: Seq<Seq<Rec>>,
    c: Seq<Seq<Rec>>,
    run: Seq<Rec>,
)
    requires
        is_stack(a + b + c),
        is_run(run),
        forall|key: Seq<u8>| (#[trigger] find(run, key)) is Some ==> find(run, key) == top(b, key),
    ensures
        is_stack(a + seq![run] + c),
{
    let old = a + b + c;
    let new = a + seq![run] + c;
    assert forall|i: int| 0 <= i < new.len() implies is_run(#[trigger] new[i]) by {
        if i < a.len() {
            assert(new[i] == old[i]);
        } else if i > a.len() {
            assert(new[i] == old[i + b.len() - 1]);
        }
    }
    assert forall|i: int, j: int, key: Seq<u8>|
        #![trigger find(new[i], key), find(new[j], key)]
        0 <= i < j < new.len() && find(new[i], key) is Some && find(
            new[j],
            key,
        ) is Some implies supersedes(find(new[i], key)->0, find(new[j], key)->0) by {
        let p = lemma_home(a, b, c, run, i, key);
        let q = lemma_home(a, b, c, run, j, key);
        assert(find(old[p], key) is Some && find(old[q], key) is Some);
    }
}

/// Where a version in the new stack was in the old one.
proof fn lemma_home(
    a: Seq<Seq<Rec>>,
    b: Seq<Seq<Rec>>,
    c: Seq<Seq<Rec>>,
    run: Seq<Rec>,
    i: int,
    key: Seq<u8>,
) -> (p: int)
    requires
        0 <= i < (a + seq![run] + c).len(),
        find((a + seq![run] + c)[i], key) is Some,
        find(run, key) is Some ==> find(run, key) == top(b, key),
    ensures
        0 <= p < (a + b + c).len(),
        find((a + b + c)[p], key) == find((a + seq![run] + c)[i], key),
        i < a.len() ==> p == i,
        i == a.len() ==> a.len() <= p < a.len() + b.len(),
        i > a.len() ==> p == i + b.len() - 1,
{
    let old = a + b + c;
    let new = a + seq![run] + c;
    if i < a.len() {
        assert(new[i] == old[i]);
        i
    } else if i > a.len() {
        assert(new[i] == old[i + b.len() - 1]);
        i + b.len() - 1
    } else {
        lemma_top(b, key);
        let k = choose|k: int| 0 <= k < b.len() && #[trigger] find(b[k], key) == find(run, key);
        assert(old[a.len() + k] == b[k]);
        a.len() + k
    }
}

/// A run that says of every key what some neighbouring runs of a stack say can
/// take their place.
pub proof fn lemma_stack_fold(
    a: Seq<Seq<Rec>>,
    b: Seq<Seq<Rec>>,
    c: Seq<Seq<Rec>>,
    run: Seq<Rec>,
)
    requires
        is_stack(a + b + c),
        is_run(run),
        forall|key: Seq<u8>| #[trigger] find(run, key) == top(b, key),
    ensures
        is_stack(a + seq![run] + c),
        forall|key: Seq<u8>| #[trigger]
            top(a + seq![run] + c, key) == top(a + b + c, key),
{
    lemma_stack_replace(a, b, c, run);
    assert forall|key: Seq<u8>| #[trigger] top(a + seq![run] + c, key) == top(a + b + c, key) by {
        lemma_top_middle(a, b, c, key);
        lemma_top_middle(a, seq![run], c, key);
        lemma_top_one(run, key);
    }
}

/// At the bottom of a stack, a run without the tombstones can take the place of
/// some runs: the contents stay the same.
pub proof fn lemma_stack_fold_live(a: Seq<Seq<Rec>>, b: Seq<Seq<Rec>>, run: Seq<Rec>)
    requires
        is_stack(a + b),
        is_run(run),
        forall|key: Seq<u8>| #[trigger]
            find(run, key) == if value_of(top(b, key)) is Some {
                top(b, key)
            } else {
                None
            },
    ensures
        is_stack(a + seq![run]),
        contents(a + seq![run]) == contents(a + b),
{
    let none = Seq::<Seq<Rec>>::empty();
    assert(a + b + none =~= a + b);
    assert(a + seq![run] + none =~= a + seq![run]);
    lemma_stack_replace(a, b, none, run);
    assert forall|key: Seq<u8>| value_of(#[trigger] top(a + seq![run], key)) == value_of(
        top(a + b, key),
    ) by {
        lemma_top_concat(a, b, key);
        lemma_top_concat(a, seq![run], key);
        lemma_top_one(run, key);
    }
    lemma_contents_equal(a + seq![run], a + b);
}

/// An empty run says nothing.
pub proof fn lemma_stack_skip(a: Seq<Seq<Rec>>, c: Seq<Seq<Rec>>)
    requires
        is_stack(a + seq![Seq::<Rec>::empty()] + c),
    ensures
        is_stack(a + c),
        forall|key: Seq<u8>| #[trigger]
            top(a + c, key) == top(a + seq![Seq::<Rec>::empty()] + c, key),
{
    let old = a + seq![Seq::<Rec>::empty()] + c;
    let new = a + c;
    assert forall|i: int| 0 <= i < new.len() implies is_run(#[trigger] new[i]) by {
        assert(new[i] == old[if i < a.len() { i } else { i + 1 }]);
    }
    assert forall|i: int, j: int, key: Seq<u8>|
        #![trigger find(new[i], key), find(new[j], key)]
        0 <= i < j < new.len() && find(new[i], key) is Some && find(
            new[j],
            key,
        ) is Some implies supersedes(find(new[i], key)->0, find(new[j], key)->0) by {
        let p = if i < a.len() { i } else { i + 1 };
        let q = if j < a.len() { j } else { j + 1 };
        assert(new[i] == old[p] && new[j] == old[q]);
        assert(find(old[p], key) is Some && find(old[q], key) is Some);
    }
    assert forall|key: Seq<u8>| #[trigger] top(new, key) == top(old, key) by {
        lemma_top_middle(a, seq![Seq::<Rec>::empty()], c, key);
        lemma_top_one(Seq::empty(), key);
        lemma_top_concat(a, c, key);
    }
}

/// Neighbouring runs of a stack are a stack.
pub proof fn lemma_stack_part(a: Seq<Seq<Rec>>, b: Seq<Seq<Rec>>, c: Seq<Seq<Rec>>)
    requires
        is_stack(a + b + c),
    ensures
        is_stack(b),
{
    let all = a + b + c;
    assert forall|i: int| 0 <= i < b.len() implies is_run(#[trigger] b[i]) by {
        assert(all[a.len() + i] == b[i]);
    }
    assert forall|i: int, j: int, key: Seq<u8>|
        #![trigger find(b[i], key), find(b[j], key)]
        0 <= i < j < b.len() && find(b[i], key) is Some && find(b[j], key) is Some implies supersedes(
        find(b[i], key)->0,
        find(b[j], key)->0,
    ) by {
        assert(all[a.len() + i] == b[i] && all[a.len() + j] == b[j]);
        assert(find(all[a.len() + i], key) is Some && find(all[a.len() + j], key) is Some);
    }
}

/// Some of the versions of a run, picked by their record, are a run.
pub proof fn lemma_filtered(run: Seq<Rec>, f: spec_fn(Rec) -> bool)
    requires
        is_run(run),
    ensures
        is_run(run.filter(f)),
        run.filter(f).len() <= run.len(),
        forall|key: Seq<u8>| #[trigger]
            find(run.filter(f), key) == match find(run, key) {
                Some(r) => if f(r) {
                    Some(r)
                } else {
                    None
                },
                None => None,
            },
    decreases run.len(),
{
    reveal(Seq::filter);
    if run.len() > 0 {
        let less = run.drop_last();
        let r = run.last();
        assert forall|i: int, j: int| 0 <= i < j < less.len() implies order::lex_lt(
            (#[trigger] less[i]).key,
            (#[trigger] less[j]).key,
        ) by {
            assert(order::lex_lt(run[i].key, run[j].key));
        }
        lemma_filtered(less, f);
        let kept = less.filter(f);
        assert(less.push(r) =~= run);
        if less.len() > 0 {
            assert(order::lex_lt(run[less.len() - 1].key, run[less.len() as int].key));
        }
        lemma_run_push(less, r);
        assert(find(less, r.key) is None) by {
            lemma_find(less, r.key);
            if find(less, r.key) is Some {
                let i = choose|i: int|
                    0 <= i < less.len() && #[trigger] less[i] == find(less, r.key)->0;
                assert(order::lex_lt(run[i].key, run[less.len() as int].key));
                order::lemma_lex_irreflexive(r.key);
            }
        }
        if f(r) {
            assert(kept.len() > 0 ==> order::lex_lt(kept.last().key, r.key)) by {
                if kept.len() > 0 {
                    let last = kept.last();
                    lemma_find_at(kept, kept.len() - 1);
                    assert(find(less, last.key) == Some(last));
                    lemma_find(less, last.key);
                    let i = choose|i: int|
                        0 <= i < less.len() && #[trigger] less[i] == find(less, last.key)->0;
                    assert(order::lex_lt(run[i].key, run[less.len() as int].key));
                }
            }
            lemma_run_push(kept, r);
        }
    }
}

/// Every version of a run that says of keys what a stack says is in the stack.
pub proof fn lemma_run_from(run: Seq<Rec>, layers: Seq<Seq<Rec>>, j: int) -> (at: (int, int))
    requires
        is_run(run),
        0 <= j < run.len(),
        find(run, run[j].key) == top(layers, run[j].key),
    ensures
        0 <= at.0 < layers.len(),
        0 <= at.1 < layers[at.0].len(),
        layers[at.0][at.1] == run[j],
{
    lemma_find_at(run, j);
    let key = run[j].key;
    lemma_top(layers, key);
    let i = choose|i: int| 0 <= i < layers.len() && #[trigger] find(layers[i], key) == Some(run[j]);
    lemma_find(layers[i], key);
    let n = choose|n: int| 0 <= n < layers[i].len() && #[trigger] layers[i][n] == run[j];
    (i, n)
}

} // verus!
