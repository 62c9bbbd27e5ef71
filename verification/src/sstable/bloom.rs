//! A per-table Bloom filter with double hashing: a compact probabilistic set
//! without false negatives.

use vstd::prelude::*;
use xxhash_rust::xxh3::xxh3_128;

use super::{Corruption, Cursor};
use crate::codec;
use crate::sstable;

verus! {

/// The 128-bit XXH3 hash of `data`.
pub uninterp spec fn xxh3(data: Seq<u8>) -> u128;

/// Calls `xxhash_rust::xxh3::xxh3_128`. The hash it returns is a function of the
/// bytes alone, named [`xxh3`]; nothing else is claimed of it.
#[verifier::external_body]
fn xxh3_of(data: &[u8]) -> (h: u128)
    ensures
        h == xxh3(data@),
{
    xxh3_128(data)
}

/// What a filter holds.
#[verifier::ext_equal]
pub struct BloomView {
    /// The bit array.
    pub bits: Seq<u8>,
    /// How many bits there are.
    pub num_bits: u32,
    /// How many bits are probed for a key.
    pub num_hashes: u32,
}

/// Bit number `i` of `bits` is set.
pub open spec fn has_bit(bits: Seq<u8>, i: int) -> bool {
    bits[i / 8] & (1u8 << ((i % 8) as u8)) != 0
}

/// The `i`-th bit probed for `key` in a filter of `m` bits: `h1 + i * h2` modulo
/// `m`, in the arithmetic of `u64`, where `h1` is the low half of the hash and
/// `h2`, from the high half, is a step that is not zero.
pub open spec fn probe(key: Seq<u8>, m: u32, i: nat) -> int {
    let h1 = (xxh3(key) % 0x1_0000_0000_0000_0000) as int;
    let h2 = (xxh3(key) / 0x1_0000_0000_0000_0000) as int % (m - 1) + 1;
    ((h1 + i * h2) % 0x1_0000_0000_0000_0000) % (m as int)
}

impl BloomView {
    /// The bit array has the length it should have, and there is something to
    /// probe.
    pub open spec fn wf(self) -> bool {
        &&& self.num_bits > 0
        &&& self.num_bits % 8 == 0
        &&& self.bits.len() == self.num_bits / 8
        &&& self.num_hashes > 0
    }

    /// Every bit probed for `key` is set.
    pub open spec fn may_hold(self, key: Seq<u8>) -> bool {
        forall|i: nat|
            i < self.num_hashes ==> has_bit(self.bits, #[trigger] probe(key, self.num_bits, i))
    }

    /// The bytes of the filter.
    pub open spec fn bytes(self) -> Seq<u8> {
        codec::le32(self.num_bits) + codec::le32(self.num_hashes) + codec::le64(
            self.bits.len() as u64,
        ) + self.bits
    }
}

/// The number of bits for `keys` keys at `per_key` bits each: at least 64, and
/// whole bytes.
pub open spec fn bits_for(keys: nat, per_key: nat) -> nat {
    let n = if keys > 0 {
        keys
    } else {
        1
    };
    let target = if n * per_key > 64 {
        n * per_key
    } else {
        64
    };
    ((target + 7) / 8) * 8
}

/// The natural logarithm of two, in units of one part in 10 to the 18.
pub const LN_2: u128 = 693_147_180_559_945_309;

/// The unit of [`LN_2`].
pub const LN_UNIT: u128 = 1_000_000_000_000_000_000;

/// The number of probes for `m` bits and `keys` keys: `m / keys` times the
/// logarithm of two, rounded to the nearest integer and kept within 1 and 30.
pub open spec fn hashes_for(m: nat, keys: nat) -> nat {
    let n = if keys > 0 {
        keys
    } else {
        1
    };
    let k = (2 * m * LN_2 as nat + n * LN_UNIT as nat) / (2 * n * LN_UNIT as nat);
    if k < 1 {
        1
    } else if k > 30 {
        30
    } else {
        k
    }
}

/// Parses a filter from the start of `s`.
pub open spec fn parsed_bloom(s: Seq<u8>) -> std::result::Result<(BloomView, Seq<u8>), Corruption> {
    match sstable::take_u32(s) {
        Err(e) => Err(e),
        Ok((num_bits, s1)) => match sstable::take_u32(s1) {
            Err(e) => Err(e),
            Ok((num_hashes, s2)) => match sstable::take_u64(s2) {
                Err(e) => Err(e),
                Ok((len, s3)) => match sstable::taken(s3, len as nat) {
                    Err(e) => Err(e),
                    Ok((bits, s4)) => if num_bits == 0 || num_bits % 8 != 0 {
                        Err(Corruption::BloomBits { num_bits })
                    } else if num_hashes == 0 {
                        Err(Corruption::BloomHashes)
                    } else if num_bits / 8 != bits.len() {
                        Err(Corruption::BloomLength { len: bits.len() as u64, num_bits })
                    } else {
                        Ok((BloomView { bits, num_bits, num_hashes }, s4))
                    },
                },
            },
        },
    }
}

/// A filter survives being written and read.
pub proof fn lemma_bloom_round_trip(b: BloomView, rest: Seq<u8>)
    requires
        b.wf(),
    ensures
        parsed_bloom(b.bytes() + rest) == Ok::<(BloomView, Seq<u8>), Corruption>((b, rest)),
        b.bytes().len() == 16 + b.bits.len(),
{
    let s3 = b.bits + rest;
    let s2 = codec::le64(b.bits.len() as u64) + s3;
    let s1 = codec::le32(b.num_hashes) + s2;
    assert(b.bytes() + rest =~= codec::le32(b.num_bits) + s1);
    sstable::lemma_take_u32(b.num_bits, s1);
    sstable::lemma_take_u32(b.num_hashes, s2);
    sstable::lemma_take_u64(b.bits.len() as u64, s3);
    sstable::lemma_taken(b.bits, rest);
    codec::lemma_u32(b.num_bits);
    codec::lemma_u32(b.num_hashes);
    codec::lemma_u64(b.bits.len() as u64);
}

/// A Bloom filter backed by a flat bit array, addressed by double hashing.
#[derive(Debug, PartialEq, Eq)]
pub struct BloomFilter {
    bits: Vec<u8>,
    num_bits: u32,
    num_hashes: u32,
}

impl View for BloomFilter {
    type V = BloomView;

    closed spec fn view(&self) -> BloomView {
        BloomView { bits: self.bits@, num_bits: self.num_bits, num_hashes: self.num_hashes }
    }
}

impl Clone for BloomFilter {
    fn clone(&self) -> (r: Self)
        ensures
            r@ == self@,
    {
        BloomFilter {
            bits: self.bits.clone(),
            num_bits: self.num_bits,
            num_hashes: self.num_hashes,
        }
    }
}

/// Setting a bit of a byte sets that bit and no other.
proof fn lemma_set_bit(b: u8, j: u8, k: u8)
    requires
        j < 8,
        k < 8,
    ensures
        ((b | (1u8 << j)) & (1u8 << k) != 0) == (j == k || b & (1u8 << k) != 0),
{
    assert(((b | (1u8 << j)) & (1u8 << k) != 0) == (j == k || b & (1u8 << k) != 0)) by (bit_vector)
        requires
            j < 8,
            k < 8,
    ;
}

proof fn lemma_no_bits(j: u8)
    requires
        j < 8,
    ensures
        0u8 & (1u8 << j) == 0,
{
    assert(0u8 & (1u8 << j) == 0) by (bit_vector);
}

/// The two halves of a hash.
proof fn lemma_halves(h: u128)
    ensures
        (h as u64) == h % 0x1_0000_0000_0000_0000,
        ((h >> 64) as u64) == h / 0x1_0000_0000_0000_0000,
{
    assert((h as u64) == h % 0x1_0000_0000_0000_0000) by (bit_vector);
    assert(((h >> 64) as u64) == h / 0x1_0000_0000_0000_0000) by (bit_vector);
}

impl BloomFilter {
    /// Builds a filter sized for `expected_keys` at `bits_per_key` bits each.
    pub fn new(expected_keys: usize, bits_per_key: usize) -> (f: Self)
        requires
            bits_for(expected_keys as nat, bits_per_key as nat) <= u32::MAX,
        ensures
            f@.wf(),
            f@.num_bits == bits_for(expected_keys as nat, bits_per_key as nat),
            f@.num_hashes == hashes_for(f@.num_bits as nat, expected_keys as nat),
            forall|i: int| 0 <= i < f@.num_bits ==> !#[trigger] has_bit(f@.bits, i),
    {
        let n: usize = if expected_keys > 0 {
            expected_keys
        } else {
            1
        };
        proof {
            assert(n * bits_per_key <= u32::MAX) by {
                let target = if n * bits_per_key > 64 {
                    n * bits_per_key
                } else {
                    64
                };
                assert(((target + 7) / 8) * 8 >= target);
            }
        }
        let product: u128 = mul_wide(n, bits_per_key);
        let target: u32 = if product > 64 {
            product as u32
        } else {
            64
        };
        let num_bytes: u32 = target / 8 + if target % 8 == 0 {
            0
        } else {
            1
        };
        assert(num_bytes == (target + 7) / 8);
        let num_bits: u32 = num_bytes * 8;
        let num_hashes: u32 = pick_hashes(num_bits, n);
        let bits: Vec<u8> = vec![0u8; num_bytes as usize];
        let f = BloomFilter { bits, num_bits, num_hashes };
        proof {
            assert forall|i: int| 0 <= i < f@.num_bits implies !#[trigger] has_bit(f@.bits, i) by {
                lemma_no_bits((i % 8) as u8);
                assert(f@.bits[i / 8] == 0);
            }
        }
        f
    }

    /// The low half of the key's hash, and a step that is not zero.
    fn hashes(&self, key: &[u8]) -> (r: (u64, u64))
        requires
            self@.wf(),
        ensures
            r.0 == xxh3(key@) % 0x1_0000_0000_0000_0000,
            r.1 == (xxh3(key@) / 0x1_0000_0000_0000_0000) as int % (self@.num_bits - 1) + 1,
    {
        let h: u128 = xxh3_of(key);
        proof {
            lemma_halves(h);
        }
        let h1: u64 = #[verifier::truncate] (h as u64);
        let m: u64 = self.num_bits as u64;
        let h2: u64 = #[verifier::truncate] ((h >> 64) as u64);
        (h1, h2 % (m - 1) + 1)
    }

    /// The `i`-th bit probed.
    fn probe_index(&self, h: (u64, u64), i: u32, Ghost(key): Ghost<Seq<u8>>) -> (idx: u32)
        requires
            self@.wf(),
            h.0 == xxh3(key) % 0x1_0000_0000_0000_0000,
            h.1 == (xxh3(key) / 0x1_0000_0000_0000_0000) as int % (self@.num_bits - 1) + 1,
        ensures
            idx == probe(key, self@.num_bits, i as nat),
            idx < self@.num_bits,
    {
        let wide: u128 = h.0 as u128 + mul_u64(i as u64, h.1);
        let combined: u64 = (wide % 0x1_0000_0000_0000_0000) as u64;
        (combined % (self.num_bits as u64)) as u32
    }

    /// Records `key` as present, setting all of its bits.
    pub fn insert(&mut self, key: &[u8])
        requires
            old(self)@.wf(),
        ensures
            final(self)@.wf(),
            final(self)@.num_bits == old(self)@.num_bits,
            final(self)@.num_hashes == old(self)@.num_hashes,
            forall|i: int|
                0 <= i < old(self)@.num_bits ==> (#[trigger] has_bit(final(self)@.bits, i) <==> (
                has_bit(old(self)@.bits, i) || exists|j: nat|
                    j < old(self)@.num_hashes && #[trigger] probe(key@, old(self)@.num_bits, j)
                        == i)),
            final(self)@.may_hold(key@),
            forall|k: Seq<u8>| old(self)@.may_hold(k) ==> #[trigger] final(self)@.may_hold(k),
    {
        let h: (u64, u64) = self.hashes(key);
        let mut i: u32 = 0;
        while i < self.num_hashes
            invariant
                i <= self.num_hashes,
                self@.wf(),
                self@.num_bits == old(self)@.num_bits,
                self@.num_hashes == old(self)@.num_hashes,
                h.0 == xxh3(key@) % 0x1_0000_0000_0000_0000,
                h.1 == (xxh3(key@) / 0x1_0000_0000_0000_0000) as int % (self@.num_bits - 1) + 1,
                forall|b: int|
                    0 <= b < self@.num_bits ==> (#[trigger] has_bit(self@.bits, b) <==> (has_bit(
                        old(self)@.bits,
                        b,
                    ) || exists|j: nat|
                        j < i && #[trigger] probe(key@, self@.num_bits, j) == b)),
            decreases self.num_hashes - i,
        {
            let idx: u32 = self.probe_index(h, i, Ghost(key@));
            let byte: usize = (idx / 8) as usize;
            let bit: u8 = (idx % 8) as u8;
            let ghost before = self@.bits;
            let old_byte: u8 = self.bits[byte];
            self.bits[byte] = old_byte | (1u8 << bit);
            proof {
                assert forall|b: int| 0 <= b < self@.num_bits implies (#[trigger] has_bit(
                    self@.bits,
                    b,
                ) <==> (has_bit(before, b) || b == idx)) by {
                    if b / 8 == byte {
                        lemma_set_bit(old_byte, bit, (b % 8) as u8);
                    }
                }
                assert forall|b: int| 0 <= b < self@.num_bits implies (#[trigger] has_bit(
                    self@.bits,
                    b,
                ) <==> (has_bit(old(self)@.bits, b) || exists|j: nat|
                    j < i + 1 && #[trigger] probe(key@, self@.num_bits, j) == b)) by {
                    if has_bit(self@.bits, b) && !has_bit(old(self)@.bits, b) {
                        if b == idx {
                            assert(probe(key@, self@.num_bits, i as nat) == b);
                        } else {
                            assert(has_bit(before, b));
                            let j = choose|j: nat|
                                j < i && #[trigger] probe(key@, self@.num_bits, j) == b;
                            assert(probe(key@, self@.num_bits, j) == b);
                        }
                    }
                    if exists|j: nat| j < i + 1 && #[trigger] probe(key@, self@.num_bits, j) == b {
                        let j = choose|j: nat|
                            j < i + 1 && #[trigger] probe(key@, self@.num_bits, j) == b;
                        if j < i {
                            assert(has_bit(before, b));
                        }
                    }
                    if has_bit(old(self)@.bits, b) {
                        assert(has_bit(before, b));
                    }
                }
            }
            i = i + 1;
        }
        proof {
            assert forall|j: nat| j < self@.num_hashes implies has_bit(
                self@.bits,
                #[trigger] probe(key@, self@.num_bits, j),
            ) by {
                assert(0 <= probe(key@, self@.num_bits, j) < self@.num_bits);
            }
            assert forall|k: Seq<u8>| old(self)@.may_hold(k) implies #[trigger] self@.may_hold(
                k,
            ) by {
                assert forall|j: nat| j < self@.num_hashes implies has_bit(
                    self@.bits,
                    #[trigger] probe(k, self@.num_bits, j),
                ) by {
                    assert(0 <= probe(k, self@.num_bits, j) < self@.num_bits);
                    assert(has_bit(old(self)@.bits, probe(k, self@.num_bits, j)));
                }
            }
        }
    }

    /// Tests whether `key` may be present. `false` means that it is definitely
    /// absent.
    pub fn contains(&self, key: &[u8]) -> (r: bool)
        requires
            self@.wf(),
        ensures
            r == self@.may_hold(key@),
    {
        let h: (u64, u64) = self.hashes(key);
        let mut i: u32 = 0;
        while i < self.num_hashes
            invariant
                i <= self.num_hashes,
                self@.wf(),
                h.0 == xxh3(key@) % 0x1_0000_0000_0000_0000,
                h.1 == (xxh3(key@) / 0x1_0000_0000_0000_0000) as int % (self@.num_bits - 1) + 1,
                forall|j: nat|
                    j < i ==> has_bit(self@.bits, #[trigger] probe(key@, self@.num_bits, j)),
            decreases self.num_hashes - i,
        {
            let idx: u32 = self.probe_index(h, i, Ghost(key@));
            let byte: usize = (idx / 8) as usize;
            let bit: u8 = (idx % 8) as u8;
            if self.bits[byte] & (1u8 << bit) == 0 {
                assert(!has_bit(self@.bits, probe(key@, self@.num_bits, i as nat)));
                return false;
            }
            i = i + 1;
        }
        true
    }

    /// Number of probes per key.
    pub fn num_hashes(&self) -> (n: u32)
        ensures
            n == self@.num_hashes,
    {
        self.num_hashes
    }

    /// Number of bits in the filter.
    pub fn num_bits(&self) -> (n: u32)
        ensures
            n == self@.num_bits,
    {
        self.num_bits
    }

    /// Serializes the filter into `buf`.
    pub fn encode(&self, buf: &mut Vec<u8>)
        ensures
            final(buf)@ == old(buf)@ + self@.bytes(),
    {
        codec::put_u32(buf, self.num_bits);
        codec::put_u32(buf, self.num_hashes);
        codec::put_u64(buf, self.bits.len() as u64);
        codec::put_bytes(buf, &self.bits);
        assert(buf@ =~= old(buf)@ + self@.bytes());
    }

    /// Parses a filter, validating its consistency.
    pub fn decode(cur: &mut Cursor<'_>) -> (r: std::result::Result<Self, Corruption>)
        requires
            old(cur).inv(),
        ensures
            final(cur).inv(),
            match parsed_bloom(old(cur)@) {
                Ok((b, rest)) => r is Ok && r->Ok_0@ == b && final(cur)@ == rest && b.wf(),
                Err(e) => r is Err && r->Err_0 == e,
            },
    {
        let num_bits: u32 = match cur.u32() {
            Ok(x) => x,
            Err(e) => {
                return Err(e);
            },
        };
        let num_hashes: u32 = match cur.u32() {
            Ok(x) => x,
            Err(e) => {
                return Err(e);
            },
        };
        let len: u64 = match cur.u64() {
            Ok(x) => x,
            Err(e) => {
                return Err(e);
            },
        };
        let have: usize = cur.remaining();
        if len > have as u64 {
            return Err(Corruption::UnexpectedEnd { need: len, have: have as u64 });
        }
        let bits: Vec<u8> = match cur.take(len as usize) {
            Ok(b) => b,
            Err(e) => {
                return Err(e);
            },
        };
        if num_bits == 0 || num_bits % 8 != 0 {
            return Err(Corruption::BloomBits { num_bits });
        }
        if num_hashes == 0 {
            return Err(Corruption::BloomHashes);
        }
        if (num_bits / 8) as u64 != bits.len() as u64 {
            return Err(Corruption::BloomLength { len: bits.len() as u64, num_bits });
        }
        Ok(BloomFilter { bits, num_bits, num_hashes })
    }
}

/// The product of two lengths.
fn mul_wide(a: usize, b: usize) -> (r: u128)
    ensures
        r == a * b,
{
    assert(a * b <= 0xffff_ffff_ffff_ffff * 0xffff_ffff_ffff_ffff) by (nonlinear_arith)
        requires
            a <= 0xffff_ffff_ffff_ffff,
            b <= 0xffff_ffff_ffff_ffff,
    ;
    (a as u128) * (b as u128)
}

/// The product of a probe number and a step.
fn mul_u64(a: u64, b: u64) -> (r: u128)
    requires
        a <= u32::MAX,
    ensures
        r == a * b,
        r <= 0xffff_ffff * 0xffff_ffff_ffff_ffff,
{
    assert(a * b <= 0xffff_ffff * 0xffff_ffff_ffff_ffff) by (nonlinear_arith)
        requires
            a <= 0xffff_ffff,
            b <= 0xffff_ffff_ffff_ffff,
    ;
    (a as u128) * (b as u128)
}

/// The number of probes, as [`hashes_for`] says.
fn pick_hashes(m: u32, n: usize) -> (k: u32)
    requires
        n > 0,
    ensures
        k == hashes_for(m as nat, n as nat),
        1 <= k <= 30,
{
    assert(n * LN_UNIT <= 0xffff_ffff_ffff_ffff * 1_000_000_000_000_000_000) by (nonlinear_arith)
        requires
            n <= 0xffff_ffff_ffff_ffff,
            LN_UNIT == 1_000_000_000_000_000_000,
    ;
    assert(n * LN_UNIT > 0) by (nonlinear_arith)
        requires
            n > 0,
            LN_UNIT > 0,
    ;
    assert(m * LN_2 <= 0xffff_ffff * 693_147_180_559_945_309) by (nonlinear_arith)
        requires
            m <= 0xffff_ffff,
            LN_2 == 693_147_180_559_945_309,
    ;
    let unit: u128 = (n as u128) * LN_UNIT;
    let scaled: u128 = (m as u128) * LN_2;
    assert(2 * m * LN_2 == 2 * scaled) by (nonlinear_arith)
        requires
            scaled == m * LN_2,
    ;
    assert(2 * n * LN_UNIT == 2 * unit) by (nonlinear_arith)
        requires
            unit == n * LN_UNIT,
    ;
    let k: u128 = (2 * scaled + unit) / (2 * unit);
    if k < 1 {
        1
    } else if k > 30 {
        30
    } else {
        k as u32
    }
}

/// Whether a filter for so many keys can be made.
pub fn can_size(expected_keys: usize, bits_per_key: usize) -> (r: bool)
    ensures
        r == (bits_for(expected_keys as nat, bits_per_key as nat) <= u32::MAX),
{
    let n: usize = if expected_keys > 0 {
        expected_keys
    } else {
        1
    };
    let product: u128 = mul_wide(n, bits_per_key);
    product <= 0xffff_fff8
}

/// The bits of the filter that are set are those that the keys probe.
pub open spec fn filters(b: BloomView, keys: Seq<Seq<u8>>) -> bool {
    forall|i: int|
        0 <= i < b.num_bits ==> (#[trigger] has_bit(b.bits, i) <==> probed(
            keys,
            b.num_bits,
            b.num_hashes,
            i,
        ))
}

/// Some key probes bit `i`.
pub open spec fn probed(keys: Seq<Seq<u8>>, m: u32, k: u32, i: int) -> bool {
    exists|n: int, j: nat|
        #![trigger keys[n], probe(keys[n], m, j)]
        0 <= n < keys.len() && j < k && probe(keys[n], m, j) == i
}

/// A filter misses none of its keys.
pub proof fn lemma_filters(b: BloomView, keys: Seq<Seq<u8>>, n: int)
    requires
        b.wf(),
        filters(b, keys),
        0 <= n < keys.len(),
    ensures
        b.may_hold(keys[n]),
{
    assert forall|j: nat| j < b.num_hashes implies has_bit(
        b.bits,
        #[trigger] probe(keys[n], b.num_bits, j),
    ) by {
        let i = probe(keys[n], b.num_bits, j);
        assert(0 <= i < b.num_bits);
        assert(probed(keys, b.num_bits, b.num_hashes, i));
    }
}

/// One more key in a filter.
pub proof fn lemma_filters_push(a: BloomView, b: BloomView, keys: Seq<Seq<u8>>, key: Seq<u8>)
    requires
        filters(a, keys),
        b.num_bits == a.num_bits,
        b.num_hashes == a.num_hashes,
        forall|i: int|
            0 <= i < a.num_bits ==> (#[trigger] has_bit(b.bits, i) <==> (has_bit(a.bits, i)
                || exists|j: nat|
                j < a.num_hashes && #[trigger] probe(key, a.num_bits, j) == i)),
    ensures
        filters(b, keys.push(key)),
{
    let more = keys.push(key);
    let m = a.num_bits;
    let k = a.num_hashes;
    assert forall|i: int| 0 <= i < b.num_bits implies (#[trigger] has_bit(b.bits, i) <==> probed(
        more,
        m,
        k,
        i,
    )) by {
        if has_bit(b.bits, i) {
            if has_bit(a.bits, i) {
                let (n, j) = choose|n: int, j: nat|
                    #![trigger keys[n], probe(keys[n], m, j)]
                    0 <= n < keys.len() && j < k && probe(keys[n], m, j) == i;
                assert(more[n] == keys[n]);
                assert(probe(more[n], m, j) == i);
            } else {
                let j = choose|j: nat| j < k && #[trigger] probe(key, m, j) == i;
                assert(more[keys.len() as int] == key);
                assert(probe(more[keys.len() as int], m, j) == i);
            }
        }
        if probed(more, m, k, i) {
            let (n, j) = choose|n: int, j: nat|
                #![trigger more[n], probe(more[n], m, j)]
                0 <= n < more.len() && j < k && probe(more[n], m, j) == i;
            if n < keys.len() {
                assert(keys[n] == more[n]);
                assert(probe(keys[n], m, j) == i);
                assert(has_bit(a.bits, i));
            } else {
                assert(probe(key, m, j) == i);
            }
        }
    }
}

/// How large a filter is: whole bytes, no fewer than 64 bits, no fewer than the bits that the
/// keys ask for, and less than a byte more than that.
pub proof fn lemma_sizing(keys: nat, per_key: nat)
    ensures
        ({
            let want = if keys == 0 {
                per_key
            } else {
                keys * per_key
            };
            let m = bits_for(keys, per_key);
            &&& m % 8 == 0
            &&& m >= 64
            &&& m >= want
            &&& m < want + 8 || m == 64
        }),
{
    assert(1 * per_key == per_key) by (nonlinear_arith);
}

/// How many probes a filter of `m` bits for `keys` keys makes: from 1 to 30, and within these the
/// whole number that is nearest to the number of bits per key times the logarithm of two.
pub proof fn lemma_probe_count(m: nat, keys: nat)
    ensures
        ({
            let n = if keys == 0 {
                1
            } else {
                keys as int
            };
            let k = hashes_for(m, keys) as int;
            let unit = 1_000_000_000_000_000_000int;
            let best = m * 693_147_180_559_945_309;
            &&& 1 <= k <= 30
            &&& k < 30 ==> 2 * best < (2 * k + 1) * (n * unit)
            &&& k > 1 ==> 2 * best >= (2 * k - 1) * (n * unit)
        }),
{
    let n = if keys == 0 {
        1
    } else {
        keys as int
    };
    let unit = 1_000_000_000_000_000_000int;
    let best = m * 693_147_180_559_945_309;
    let d = n * unit;
    assert(d > 0) by (nonlinear_arith)
        requires
            d == n * unit,
            n > 0,
            unit > 0,
    ;
    assert(2 * m * LN_2 == 2 * best) by (nonlinear_arith)
        requires
            best == m * 693_147_180_559_945_309,
            LN_2 == 693_147_180_559_945_309,
    ;
    assert(2 * n * LN_UNIT == 2 * d && n * LN_UNIT == d) by (nonlinear_arith)
        requires
            d == n * unit,
            unit == LN_UNIT,
    ;
    let q = (2 * best + d) / (2 * d);
    assert(q * (2 * d) <= 2 * best + d < (q + 1) * (2 * d)) by (nonlinear_arith)
        requires
            d > 0,
            q == (2 * best + d) / (2 * d),
    ;
    assert((2 * q - 1) * d <= 2 * best < (2 * q + 1) * d) by (nonlinear_arith)
        requires
            q * (2 * d) <= 2 * best + d < (q + 1) * (2 * d),
    ;
    assert(q < 1 ==> 2 * best < 3 * d) by (nonlinear_arith)
        requires
            2 * best < (2 * q + 1) * d,
            d > 0,
    ;
    assert(q > 30 ==> 2 * best >= 59 * d) by (nonlinear_arith)
        requires
            2 * best >= (2 * q - 1) * d,
            d > 0,
    ;
}

/// Which bits are probed: the first is the low half of the hash modulo the number of bits, and
/// each further one is a step behind the one before it, the step being settled by the high half
/// and never a multiple of the number of bits. So no bit is probed twice in a row.
pub proof fn lemma_probes(key: Seq<u8>, m: u32, i: nat)
    requires
        m > 1,
    ensures
        ({
            let low = xxh3(key) as int % 0x1_0000_0000_0000_0000;
            let high = xxh3(key) as int / 0x1_0000_0000_0000_0000;
            let step = high % (m - 1) + 1;
            &&& 0 <= probe(key, m, i) < m
            &&& probe(key, m, 0) == low % (m as int)
            &&& 0 < step < m
            &&& low + (i + 1) * step < 0x1_0000_0000_0000_0000 ==> {
                &&& probe(key, m, i + 1) == (probe(key, m, i) + step) % (m as int)
                &&& probe(key, m, i + 1) != probe(key, m, i)
            }
        }),
{
    let low = xxh3(key) as int % 0x1_0000_0000_0000_0000;
    let high = xxh3(key) as int / 0x1_0000_0000_0000_0000;
    let step = high % (m - 1) + 1;
    assert(low + 0 * step == low);
    assert((i + 1) * step == i * step + step) by (nonlinear_arith);
    if low + (i + 1) * step < 0x1_0000_0000_0000_0000 {
        assert(i * step >= 0) by (nonlinear_arith)
            requires
                i >= 0,
                step > 0,
        ;
        let a = low + i * step;
        assert(probe(key, m, i) == a % (m as int));
        assert(probe(key, m, i + 1) == (a + step) % (m as int));
        vstd::arithmetic::div_mod::lemma_add_mod_noop(a, step, m as int);
        vstd::arithmetic::div_mod::lemma_small_mod(step as nat, m as nat);
        let p = a % (m as int);
        if p + step < m {
            vstd::arithmetic::div_mod::lemma_small_mod((p + step) as nat, m as nat);
        } else {
            assert((p + step) % (m as int) == p + step - m) by (nonlinear_arith)
                requires
                    m <= p + step < 2 * m,
                    m > 0,
            ;
        }
    }
}

/// What a filter over some keys answers: maybe for each of these keys, and for another key only
/// if each bit that it probes is one that one of these keys probes.
pub proof fn lemma_answers(b: BloomView, keys: Seq<Seq<u8>>, key: Seq<u8>)
    requires
        b.wf(),
        filters(b, keys),
    ensures
        keys.contains(key) ==> b.may_hold(key),
        b.may_hold(key) <==> forall|i: nat|
            i < b.num_hashes ==> probed(
                keys,
                b.num_bits,
                b.num_hashes,
                #[trigger] probe(key, b.num_bits, i),
            ),
        keys.len() == 0 ==> !b.may_hold(key),
{
    if keys.contains(key) {
        let n = choose|n: int| 0 <= n < keys.len() && keys[n] == key;
        lemma_filters(b, keys, n);
    }
    assert forall|i: nat| true implies #[trigger] probe(key, b.num_bits, i) >= 0 && probe(
        key,
        b.num_bits,
        i,
    ) < b.num_bits by {}
    if b.may_hold(key) {
        assert forall|i: nat| i < b.num_hashes implies probed(
            keys,
            b.num_bits,
            b.num_hashes,
            #[trigger] probe(key, b.num_bits, i),
        ) by {
            assert(has_bit(b.bits, probe(key, b.num_bits, i)));
        }
        if keys.len() == 0 {
            assert(!probed(keys, b.num_bits, b.num_hashes, probe(key, b.num_bits, 0)));
        }
    }
}

} // verus!
