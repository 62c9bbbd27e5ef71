//! Keys and values of the crash test, whose writer announces every write that was
//! acknowledged.

use vstd::prelude::*;

use crate::codec;
use crate::names;
use crate::order;

verus! {

/// `i` in decimal, in at least twelve digits.
pub open spec fn number(i: u64) -> Seq<u8> {
    names::padded(i, 12)
}

/// `key`.
pub open spec fn key_prefix() -> Seq<u8> {
    seq![107u8, 101u8, 121u8]
}

/// `val-`.
pub open spec fn value_prefix() -> Seq<u8> {
    seq![118u8, 97u8, 108u8, 45u8]
}

/// The key of record `i`: `key` and the index in twenty digits, as many as the largest
/// index has.
pub open spec fn key_bytes(i: u64) -> Seq<u8> {
    key_prefix() + names::digits(i as nat, 20)
}

/// The value of record `i`: `val-`, the number, and a tail that makes records large
/// enough to force flushes.
pub open spec fn value_bytes(i: u64) -> Seq<u8> {
    value_prefix() + number(i) + value_tail()
}

/// `-payload-padding-to-force-flushes-0123456789`.
pub open spec fn value_tail() -> Seq<u8> {
    seq![
        45u8, 112u8, 97u8, 121u8, 108u8, 111u8, 97u8, 100u8, 45u8, 112u8, 97u8, 100u8, 100u8,
        105u8, 110u8, 103u8, 45u8, 116u8, 111u8, 45u8, 102u8, 111u8, 114u8, 99u8, 101u8, 45u8,
        102u8, 108u8, 117u8, 115u8, 104u8, 101u8, 115u8, 45u8, 48u8, 49u8, 50u8, 51u8, 52u8,
        53u8, 54u8, 55u8, 56u8, 57u8,
    ]
}

/// Keys have one length, and sort as their indices do.
pub proof fn lemma_keys_sorted(i: u64, j: u64)
    requires
        i < j,
    ensures
        key_bytes(i).len() == key_bytes(j).len(),
        order::lex_lt(key_bytes(i), key_bytes(j)),
{
    names::lemma_digits_len(i as nat, 20);
    names::lemma_digits_len(j as nat, 20);
    reveal_with_fuel(names::tens, 21);
    names::lemma_digits_sorted(i as nat, j as nat, 20);
    order::lemma_lex_prefix(
        key_prefix(),
        names::digits(i as nat, 20),
        names::digits(j as nat, 20),
    );
}

/// The key for record `i`.
pub fn key_for(i: u64) -> (k: Vec<u8>)
    ensures
        k@ == key_bytes(i),
{
    let mut k: Vec<u8> = vec![107u8, 101u8, 121u8];
    assert(k@ =~= key_prefix());
    names::put_padded(&mut k, i, 20);
    proof {
        names::lemma_digits_len(i as nat, 20);
    }
    k
}

/// The value for record `i`.
pub fn value_for(i: u64) -> (v: Vec<u8>)
    ensures
        v@ == value_bytes(i),
{
    let mut v: Vec<u8> = vec![118u8, 97u8, 108u8, 45u8];
    assert(v@ =~= value_prefix());
    names::put_padded(&mut v, i, 12);
    let tail: Vec<u8> = vec![
        45u8, 112u8, 97u8, 121u8, 108u8, 111u8, 97u8, 100u8, 45u8, 112u8, 97u8, 100u8, 100u8,
        105u8, 110u8, 103u8, 45u8, 116u8, 111u8, 45u8, 102u8, 111u8, 114u8, 99u8, 101u8, 45u8,
        102u8, 108u8, 117u8, 115u8, 104u8, 101u8, 115u8, 45u8, 48u8, 49u8, 50u8, 51u8, 52u8,
        53u8, 54u8, 55u8, 56u8, 57u8,
    ];
    assert(tail@ =~= value_tail());
    codec::put_bytes(&mut v, &tail);
    v
}

/// What a record is like: its key is `key` and the index in twenty digits, and its value is
/// `val-`, the index in twelve digits or more, and forty-four bytes that are the same in each.
pub proof fn lemma_record(i: u64, j: u64)
    ensures
        key_bytes(i).len() == 23,
        key_bytes(i).take(3) == seq![107u8, 101u8, 121u8],
        names::all_digits(key_bytes(i).skip(3)),
        names::decimal(key_bytes(i).skip(3)) == i,
        ({
            let v = value_bytes(i);
            let n = v.len() - 44;
            &&& n >= 16
            &&& v.take(4) == seq![118u8, 97u8, 108u8, 45u8]
            &&& names::all_digits(v.subrange(4, n))
            &&& names::decimal(v.subrange(4, n)) == i
            &&& n > 16 ==> v[4] != 48
            &&& v.skip(n) == value_bytes(j).skip(value_bytes(j).len() - 44)
        }),
{
    names::lemma_id_digits(i);
    assert(key_bytes(i).take(3) =~= seq![107u8, 101u8, 121u8]);
    assert(key_bytes(i).skip(3) =~= names::digits(i as nat, 20));
    names::lemma_padded(i, 12);
    names::lemma_padded(j, 12);
    let v = value_bytes(i);
    let n = v.len() - 44;
    assert(value_tail().len() == 44);
    assert(v.take(4) =~= seq![118u8, 97u8, 108u8, 45u8]);
    assert(v.subrange(4, n) =~= number(i));
    assert(v.skip(n) =~= value_tail());
    assert(value_bytes(j).skip(value_bytes(j).len() - 44) =~= value_tail());
}

} // verus!
