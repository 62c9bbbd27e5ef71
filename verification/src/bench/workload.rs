//! Keys and values of the benchmark workloads.
//!
//! Keys have 16 bytes and values 100, both a function of an index, so that any phase
//! can reconstruct the bytes of an index. Random orders come from a seeded generator,
//! so that a run can be repeated.

use rand::rngs::StdRng;
use vstd::prelude::*;

use crate::codec;
use crate::order;
use crate::random;

verus! {

/// Key width in bytes.
pub const KEY_LEN: usize = 16;

/// Value width in bytes.
pub const VALUE_LEN: usize = 100;

/// What spreads the indices over the bytes of the values.
pub const SPREAD: u64 = 0x9E37_79B9_7F4A_7C15;

/// `n` in `width` bytes, most significant first.
pub open spec fn big_endian(n: nat, width: nat) -> Seq<u8>
    decreases width,
{
    if width == 0 {
        Seq::empty()
    } else {
        big_endian(n / 256, (width - 1) as nat).push((n % 256) as u8)
    }
}

/// The key of an index: the index, most significant byte first, behind eight zeros.
pub open spec fn key_bytes(i: u64) -> Seq<u8> {
    seq![0u8, 0u8, 0u8, 0u8, 0u8, 0u8, 0u8, 0u8] + big_endian(i as nat, 8)
}

/// Where the pattern of an index begins.
#[verifier::opaque]
pub open spec fn spread(i: u64) -> int {
    (i * SPREAD) % 0x1_0000_0000_0000_0000
}

/// The bytes of a value behind the index: an ascending pattern that begins as the
/// index says.
pub open spec fn pattern(i: u64) -> Seq<u8> {
    Seq::new(92, |j: int| ((spread(i) + j) % 256) as u8)
}

/// The value of an index: the index, least significant byte first, and a pattern.
pub open spec fn value_bytes(i: u64) -> Seq<u8> {
    codec::le64(i) + pattern(i)
}

proof fn lemma_big_endian_len(n: nat, width: nat)
    ensures
        big_endian(n, width).len() == width,
    decreases width,
{
    if width > 0 {
        lemma_big_endian_len(n / 256, (width - 1) as nat);
    }
}

proof fn lemma_big_endian_sorted(a: nat, b: nat, width: nat)
    requires
        a < b < codec::span(width),
    ensures
        order::lex_lt(big_endian(a, width), big_endian(b, width)),
    decreases width,
{
    if width > 0 {
        let rest = (width - 1) as nat;
        let less = codec::span(rest);
        assert(b / 256 < less) by (nonlinear_arith)
            requires
                b < 256 * less,
        ;
        lemma_big_endian_len(a / 256, rest);
        lemma_big_endian_len(b / 256, rest);
        if a / 256 < b / 256 {
            lemma_big_endian_sorted(a / 256, b / 256, rest);
        }
        order::lemma_lex_push(
            big_endian(a / 256, rest),
            big_endian(b / 256, rest),
            (a % 256) as u8,
            (b % 256) as u8,
        );
    }
}

/// Keys sort as their indices do.
pub proof fn lemma_keys_sorted(i: u64, j: u64)
    requires
        i < j,
    ensures
        order::lex_lt(key_bytes(i), key_bytes(j)),
{
    reveal_with_fuel(codec::span, 9);
    lemma_big_endian_sorted(i as nat, j as nat, 8);
    order::lemma_lex_prefix(
        seq![0u8, 0u8, 0u8, 0u8, 0u8, 0u8, 0u8, 0u8],
        big_endian(i as nat, 8),
        big_endian(j as nat, 8),
    );
}

/// Different indices have different values.
pub proof fn lemma_values_distinct(i: u64, j: u64)
    requires
        i != j,
    ensures
        value_bytes(i) != value_bytes(j),
{
    codec::lemma_u64(i);
    codec::lemma_u64(j);
    if value_bytes(i) == value_bytes(j) {
        assert(value_bytes(i).take(8) =~= codec::le64(i));
        assert(value_bytes(j).take(8) =~= codec::le64(j));
    }
}

/// Appends `n` in `width` bytes, most significant first.
fn put_big_endian(out: &mut Vec<u8>, n: u64, width: usize)
    ensures
        final(out)@ == old(out)@ + big_endian(n as nat, width as nat),
    decreases width,
{
    let ghost before = out@;
    if width > 0 {
        put_big_endian(out, n / 256, width - 1);
        out.push((n % 256) as u8);
        assert(out@ =~= before + big_endian(n as nat, width as nat));
    } else {
        assert(out@ =~= before + big_endian(n as nat, 0));
    }
}

/// The key for index `i`.
pub fn key_for(i: u64) -> (k: Vec<u8>)
    ensures
        k@ == key_bytes(i),
        k@.len() == KEY_LEN,
{
    let mut k: Vec<u8> = vec![0u8; 8];
    put_big_endian(&mut k, i, 8);
    proof {
        lemma_big_endian_len(i as nat, 8);
        assert(k@ =~= key_bytes(i));
    }
    k
}

/// The value for index `i`.
pub fn value_for(i: u64) -> (v: Vec<u8>)
    ensures
        v@ == value_bytes(i),
        v@.len() == VALUE_LEN,
{
    let mut v: Vec<u8> = Vec::with_capacity(VALUE_LEN);
    codec::put_u64(&mut v, i);
    let from: u64 = i.wrapping_mul(SPREAD);
    let mut j: u64 = 0;
    let ghost front = codec::le64(i);
    proof {
        codec::lemma_u64(i);
        assert(v@ =~= front + pattern(i).take(0));
        reveal(spread);
    }
    while j < 92
        invariant
            j <= 92,
            from == spread(i),
            v@ == front + pattern(i).take(j as int),
        decreases 92 - j,
    {
        let b: u8 = low_byte_of_sum(from, j);
        proof {
            assert(pattern(i)[j as int] == b);
            assert(pattern(i).take(j + 1) =~= pattern(i).take(j as int).push(b));
        }
        let ghost before = v@;
        v.push(b);
        j = j + 1;
        assert(v@ =~= front + pattern(i).take(j as int));
    }
    assert(pattern(i).take(92) =~= pattern(i));
    v
}

/// The least significant byte of `x + y`.
fn low_byte_of_sum(x: u64, y: u64) -> (b: u8)
    ensures
        b == ((x + y) % 256) as u8,
{
    let sum: u64 = x.wrapping_add(y);
    assert(sum & 0xFF == sum % 256) by (bit_vector);
    (sum & 0xFF) as u8
}

/// The order in which the fill phase writes the keys.
#[derive(Debug, Clone, Copy, PartialEq, Eq, Structural)]
pub enum FillOrder {
    /// Ascending index order.
    Sequential,
    /// A seeded random permutation of the indices.
    Random,
}

/// The indices below `n`, ascending.
pub open spec fn ascending(n: nat) -> Seq<u64> {
    Seq::new(n, |i: int| i as u64)
}

/// The indices the fill phase writes, in the order in which it writes them: all those
/// below `n`, each once.
pub fn fill_indices(order: FillOrder, n: u64, seed: u64) -> (idx: Vec<u64>)
    ensures
        order is Sequential ==> idx@ == ascending(n as nat),
        order is Random ==> idx@ == random::shuffled(
            ascending(n as nat),
            random::seeded_state(seed),
        ).0,
        idx@.to_multiset() == ascending(n as nat).to_multiset(),
{
    let mut idx: Vec<u64> = Vec::new();
    let mut i: u64 = 0;
    while i < n
        invariant
            i <= n,
            idx@ == ascending(i as nat),
        decreases n - i,
    {
        idx.push(i);
        i = i + 1;
        assert(idx@ =~= ascending(i as nat));
    }
    match order {
        FillOrder::Sequential => {},
        FillOrder::Random => {
            let mut rng = random::seeded(seed);
            random::shuffle(&mut idx, &mut rng);
        },
    }
    idx
}

/// The state of a generator seeded with `seed` after `k` draws from the numbers below
/// `n`.
pub open spec fn drawn_state(seed: u64, n: u64, k: nat) -> StdRng
    decreases k,
{
    if k == 0 {
        random::seeded_state(seed)
    } else {
        random::number_drawn(drawn_state(seed, n, (k - 1) as nat), (n - 1) as u64).1
    }
}

/// What a generator seeded with `seed` draws in `count` draws from the numbers below
/// `n`.
pub open spec fn drawn(seed: u64, n: u64, count: nat) -> Seq<u64> {
    Seq::new(
        count,
        |k: int| random::number_drawn(drawn_state(seed, n, k as nat), (n - 1) as u64).0,
    )
}

/// `count` random indices below `n` for the point-read phase.
pub fn read_indices(n: u64, count: usize, seed: u64) -> (idx: Vec<u64>)
    requires
        n > 0 || count == 0,
    ensures
        idx@ == drawn(seed, n, count as nat),
        forall|i: int| 0 <= i < idx@.len() ==> #[trigger] idx@[i] < n,
{
    let mut rng = random::seeded(seed);
    let mut idx: Vec<u64> = Vec::new();
    while idx.len() < count
        invariant
            n > 0 || count == 0,
            idx@.len() <= count,
            rng == drawn_state(seed, n, idx@.len()),
            idx@ == drawn(seed, n, idx@.len()),
            forall|i: int| 0 <= i < idx@.len() ==> #[trigger] idx@[i] < n,
        decreases count - idx.len(),
    {
        let x: u64 = random::draw_number(&mut rng, n - 1);
        idx.push(x);
        assert(idx@ =~= drawn(seed, n, idx@.len()));
    }
    idx
}

/// What the bytes hold that are read with the most significant first.
pub open spec fn value_read(s: Seq<u8>) -> nat
    decreases s.len(),
{
    if s.len() == 0 {
        0
    } else {
        256 * value_read(s.drop_last()) + s.last() as nat
    }
}

proof fn lemma_value_read(n: nat, width: nat)
    requires
        n < codec::span(width),
    ensures
        value_read(big_endian(n, width)) == n,
    decreases width,
{
    if width > 0 {
        let rest = (width - 1) as nat;
        let less = codec::span(rest);
        assert(n / 256 < less) by (nonlinear_arith)
            requires
                n < 256 * less,
        ;
        lemma_value_read(n / 256, rest);
        assert(big_endian(n, width).drop_last() =~= big_endian(n / 256, rest));
    }
}

/// What keys are like: sixteen bytes, which read with the most significant first give the index.
pub proof fn lemma_key(i: u64)
    ensures
        key_bytes(i).len() == 16,
        value_read(key_bytes(i).skip(8)) == i,
        forall|k: int| 0 <= k < 8 ==> #[trigger] key_bytes(i)[k] == 0,
{
    lemma_big_endian_len(i as nat, 8);
    assert(codec::span(8) == 0x1_0000_0000_0000_0000) by {
        reveal_with_fuel(codec::span, 9);
    }
    lemma_value_read(i as nat, 8);
    assert(key_bytes(i).skip(8) =~= big_endian(i as nat, 8));
}

/// What values are like: a hundred bytes, of which the first eight read with the least
/// significant first give the index, the next is settled by the index, and each of the others
/// is one more than the byte before it.
pub proof fn lemma_value(i: u64, j: int)
    ensures
        value_bytes(i).len() == 100,
        codec::u64_at(value_bytes(i), 0) == i,
        8 <= j < 99 ==> value_bytes(i)[j + 1] == (value_bytes(i)[j] + 1) % 256,
        value_bytes(i)[8] == spread(i) % 256,
{
    codec::lemma_u64(i);
    assert(value_bytes(i).subrange(0, 8) =~= codec::le64(i));
    assert(value_bytes(i)[8] == pattern(i)[0]);
    let at = spread(i);
    lemma_next_byte(at, 0);
    if 8 <= j < 99 {
        assert(value_bytes(i)[j] == pattern(i)[j - 8]);
        assert(value_bytes(i)[j + 1] == pattern(i)[j - 7]);
        lemma_next_byte(at, j - 8);
    }
}

proof fn lemma_next_byte(at: int, k: int)
    ensures
        0 <= (at + k) % 256 < 256,
        ((at + (k + 1)) % 256) as u8 == ((((at + k) % 256) as u8) + 1) % 256,
{
}

/// Where patterns begin: at zero for the first index, and from one index to the next by a fixed
/// odd step further round.
pub proof fn lemma_spread(i: u64, j: u64)
    ensures
        spread(0) == 0,
        i < u64::MAX ==> spread((i + 1) as u64) == (spread(i) + 0x9e37_79b9_7f4a_7c15)
            % 0x1_0000_0000_0000_0000,
        0 <= spread(j) < 0x1_0000_0000_0000_0000,
{
    reveal(spread);
    let p = i * SPREAD;
    assert((i + 1) * SPREAD == p + SPREAD);
    lemma_wraps(p, SPREAD as int);
}

proof fn lemma_wraps(p: int, q: int)
    ensures
        (p + q) % 0x1_0000_0000_0000_0000 == (p % 0x1_0000_0000_0000_0000 + q)
            % 0x1_0000_0000_0000_0000,
{
}

/// The numbers come from one generator, seeded with `seed`, that goes through these states:
/// each is drawn from those up to `max`.
pub open spec fn draws(states: Seq<StdRng>, seed: u64, max: u64, numbers: Seq<u64>) -> bool {
    &&& states.len() == numbers.len() + 1
    &&& states[0] == random::seeded_state(seed)
    &&& forall|k: int|
        0 <= k < numbers.len() ==> random::number_drawn(#[trigger] states[k], max) == (
            numbers[k],
            states[k + 1],
        )
}

/// How indices are drawn: one after the other from one generator, seeded with the seed, each
/// from the numbers below `n`. A longer list begins with a shorter one.
pub proof fn lemma_drawn(seed: u64, n: u64, count: nat, more: nat)
    requires
        n > 0,
    ensures
        drawn(seed, n, count).len() == count,
        count <= more ==> drawn(seed, n, more).take(count as int) == drawn(seed, n, count),
        exists|states: Seq<StdRng>| #[trigger]
            draws(states, seed, (n - 1) as u64, drawn(seed, n, count)),
{
    if count <= more {
        assert(drawn(seed, n, more).take(count as int) =~= drawn(seed, n, count));
    }
    let numbers = drawn(seed, n, count);
    let max = (n - 1) as u64;
    let states = Seq::new(count + 1, |k: int| drawn_state(seed, n, k as nat));
    assert forall|k: int| 0 <= k < count implies random::number_drawn(#[trigger] states[k], max) == (
        numbers[k],
        states[k + 1],
    ) by {
        let now = drawn_state(seed, n, k as nat);
        assert(states[k] == now);
        assert(states[k + 1] == drawn_state(seed, n, (k + 1) as nat));
        let drew = random::number_drawn(now, max);
        assert(numbers[k] == drew.0);
        assert(drawn_state(seed, n, (k + 1) as nat) == drew.1);
        assert(drew == (drew.0, drew.1));
    }
    assert(draws(states, seed, max, numbers));
}

/// The indices of a fill are those below `n`, each once.
pub proof fn lemma_ascending(n: u64, i: u64)
    ensures
        ascending(n as nat).len() == n,
        i < n ==> ascending(n as nat)[i as int] == i,
        i < n ==> ascending(n as nat).to_multiset().count(i) == 1,
        i >= n ==> ascending(n as nat).to_multiset().count(i) == 0,
{
    let all = ascending(n as nat);
    broadcast use vstd::seq_lib::group_to_multiset_ensures;

    assert(all.no_duplicates());
    all.lemma_multiset_has_no_duplicates();
    if i < n {
        assert(all.contains(all[i as int]));
    } else if all.contains(i) {
        let k = choose|k: int| 0 <= k < all.len() && all[k] == i;
        assert(all[k] == k as u64);
    }
}

} // verus!
