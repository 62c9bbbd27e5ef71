//! Little-endian integers in byte strings, and checked reads of them.

use vstd::prelude::*;

verus! {

/// The `n` low-order bytes of `x`, least significant first.
pub open spec fn le(x: nat, n: nat) -> Seq<u8>
    decreases n,
{
    if n == 0 {
        Seq::empty()
    } else {
        seq![(x % 256) as u8] + le(x / 256, (n - 1) as nat)
    }
}

/// The number whose bytes, least significant first, are `s`.
pub open spec fn unle(s: Seq<u8>) -> nat
    decreases s.len(),
{
    if s.len() == 0 {
        0
    } else {
        s[0] as nat + 256 * unle(s.drop_first())
    }
}

/// How many numbers `n` bytes can hold.
pub open spec fn span(n: nat) -> nat
    decreases n,
{
    if n == 0 {
        1
    } else {
        256 * span((n - 1) as nat)
    }
}

/// `x` as four bytes.
pub open spec fn le32(x: u32) -> Seq<u8> {
    le(x as nat, 4)
}

/// `x` as eight bytes.
pub open spec fn le64(x: u64) -> Seq<u8> {
    le(x as nat, 8)
}

/// The `u32` stored at `pos`.
pub open spec fn u32_at(s: Seq<u8>, pos: int) -> u32 {
    unle(s.subrange(pos, pos + 4)) as u32
}

/// The `u64` stored at `pos`.
pub open spec fn u64_at(s: Seq<u8>, pos: int) -> u64 {
    unle(s.subrange(pos, pos + 8)) as u64
}

pub proof fn lemma_le_len(x: nat, n: nat)
    ensures
        le(x, n).len() == n,
    decreases n,
{
    if n > 0 {
        lemma_le_len(x / 256, (n - 1) as nat);
    }
}

/// Reading back `n` bytes of a number that fits in them gives the number.
proof fn lemma_unle_le(x: nat, n: nat)
    requires
        x < span(n),
    ensures
        unle(le(x, n)) == x,
    decreases n,
{
    lemma_le_len(x, n);
    if n > 0 {
        let rest = span((n - 1) as nat);
        assert(x / 256 < rest) by (nonlinear_arith)
            requires
                x < 256 * rest,
        ;
        lemma_unle_le(x / 256, (n - 1) as nat);
        assert(le(x, n).drop_first() =~= le(x / 256, (n - 1) as nat));
        assert(le(x, n)[0] == (x % 256) as u8);
    }
}

/// Writing back the number that some bytes hold gives those bytes.
proof fn lemma_le_unle(s: Seq<u8>)
    ensures
        le(unle(s), s.len()) == s,
        unle(s) < span(s.len()),
    decreases s.len(),
{
    if s.len() > 0 {
        let t = s.drop_first();
        lemma_le_unle(t);
        let rest = span(t.len());
        let high = unle(t);
        assert(unle(s) == s[0] as nat + 256 * high);
        assert(unle(s) % 256 == s[0]);
        assert(unle(s) / 256 == high);
        assert(s[0] as nat + 256 * high < 256 * rest) by (nonlinear_arith)
            requires
                s[0] < 256,
                high + 1 <= rest,
        ;
        assert(le(unle(s), s.len()) =~= s);
    } else {
        assert(le(unle(s), s.len()) =~= s);
    }
}

/// A `u32` survives being written and read.
pub proof fn lemma_u32(x: u32)
    ensures
        le32(x).len() == 4,
        unle(le32(x)) == x,
{
    lemma_le_len(x as nat, 4);
    reveal_with_fuel(span, 5);
    lemma_unle_le(x as nat, 4);
}

/// A `u64` survives being written and read.
pub proof fn lemma_u64(x: u64)
    ensures
        le64(x).len() == 8,
        unle(le64(x)) == x,
{
    lemma_le_len(x as nat, 8);
    reveal_with_fuel(span, 9);
    lemma_unle_le(x as nat, 8);
}

/// Four bytes are the encoding of the `u32` they hold.
pub proof fn lemma_bytes_u32(s: Seq<u8>)
    requires
        s.len() == 4,
    ensures
        unle(s) <= u32::MAX,
        le32(unle(s) as u32) == s,
{
    lemma_le_unle(s);
    reveal_with_fuel(span, 5);
}

/// Eight bytes are the encoding of the `u64` they hold.
pub proof fn lemma_bytes_u64(s: Seq<u8>)
    requires
        s.len() == 8,
    ensures
        unle(s) <= u64::MAX,
        le64(unle(s) as u64) == s,
{
    lemma_le_unle(s);
    reveal_with_fuel(span, 9);
}

/// What four and eight bytes hold, the least significant first; and a number is written as the
/// bytes that hold it.
pub proof fn lemma_little_endian(s: Seq<u8>, x: u32, y: u64)
    ensures
        s.len() == 4 ==> unle(s) == s[0] + 0x100 * s[1] + 0x1_0000 * s[2] + 0x100_0000 * s[3],
        s.len() == 8 ==> unle(s) == s[0] + 0x100 * s[1] + 0x1_0000 * s[2] + 0x100_0000 * s[3]
            + 0x1_0000_0000 * s[4] + 0x100_0000_0000 * s[5] + 0x1_0000_0000_0000 * s[6]
            + 0x100_0000_0000_0000 * s[7],
        le32(x).len() == 4,
        ({
            let b = le32(x);
            x == b[0] + 0x100 * b[1] + 0x1_0000 * b[2] + 0x100_0000 * b[3]
        }),
        le64(y).len() == 8,
        ({
            let b = le64(y);
            y == b[0] + 0x100 * b[1] + 0x1_0000 * b[2] + 0x100_0000 * b[3] + 0x1_0000_0000 * b[4]
                + 0x100_0000_0000 * b[5] + 0x1_0000_0000_0000 * b[6] + 0x100_0000_0000_0000 * b[7]
        }),
{
    lemma_u32(x);
    lemma_u64(y);
    lemma_positional(s);
    lemma_positional(le32(x));
    lemma_positional(le64(y));
}

proof fn lemma_positional(s: Seq<u8>)
    ensures
        s.len() == 4 ==> unle(s) == s[0] + 0x100 * s[1] + 0x1_0000 * s[2] + 0x100_0000 * s[3],
        s.len() == 8 ==> unle(s) == s[0] + 0x100 * s[1] + 0x1_0000 * s[2] + 0x100_0000 * s[3]
            + 0x1_0000_0000 * s[4] + 0x100_0000_0000 * s[5] + 0x1_0000_0000_0000 * s[6]
            + 0x100_0000_0000_0000 * s[7],
{
    reveal_with_fuel(unle, 9);
}

/// Appends `x` to `out` as four little-endian bytes.
pub fn put_u32(out: &mut Vec<u8>, x: u32)
    ensures
        final(out)@ == old(out)@ + le32(x),
{
    out.push((x % 256) as u8);
    out.push((x / 256 % 256) as u8);
    out.push((x / 256 / 256 % 256) as u8);
    out.push((x / 256 / 256 / 256 % 256) as u8);
    proof {
        reveal_with_fuel(le, 5);
        assert(out@ =~= old(out)@ + le32(x));
    }
}

/// Appends `x` to `out` as eight little-endian bytes.
pub fn put_u64(out: &mut Vec<u8>, x: u64)
    ensures
        final(out)@ == old(out)@ + le64(x),
{
    out.push((x % 256) as u8);
    out.push((x / 256 % 256) as u8);
    out.push((x / 256 / 256 % 256) as u8);
    out.push((x / 256 / 256 / 256 % 256) as u8);
    out.push((x / 256 / 256 / 256 / 256 % 256) as u8);
    out.push((x / 256 / 256 / 256 / 256 / 256 % 256) as u8);
    out.push((x / 256 / 256 / 256 / 256 / 256 / 256 % 256) as u8);
    out.push((x / 256 / 256 / 256 / 256 / 256 / 256 / 256 % 256) as u8);
    proof {
        reveal_with_fuel(le, 9);
        assert(out@ =~= old(out)@ + le64(x));
    }
}

/// Appends every byte of `s` to `out`.
pub fn put_bytes(out: &mut Vec<u8>, s: &[u8])
    ensures
        final(out)@ == old(out)@ + s@,
{
    out.extend_from_slice(s);
    assert(out@ =~= old(out)@ + s@);
}

/// A copy of a byte string.
pub fn copied(s: &[u8]) -> (v: Vec<u8>)
    ensures
        v@ == s@,
{
    let mut v: Vec<u8> = Vec::new();
    put_bytes(&mut v, s);
    assert(v@ =~= s@);
    v
}

/// Reads the `u32` stored at `pos`.
pub fn get_u32(s: &[u8], pos: usize) -> (x: u32)
    requires
        pos + 4 <= s@.len(),
    ensures
        x == u32_at(s@, pos as int),
        x == unle(s@.subrange(pos as int, pos + 4)),
{
    let b0: u32 = s[pos] as u32;
    let b1: u32 = s[pos + 1] as u32;
    let b2: u32 = s[pos + 2] as u32;
    let b3: u32 = s[pos + 3] as u32;
    proof {
        let t = s@.subrange(pos as int, pos + 4);
        lemma_bytes_u32(t);
        reveal_with_fuel(unle, 5);
        assert(t.drop_first().drop_first().drop_first().drop_first().len() == 0);
    }
    b0 + 256 * (b1 + 256 * (b2 + 256 * b3))
}

/// Reads the `u64` stored at `pos`.
pub fn get_u64(s: &[u8], pos: usize) -> (x: u64)
    requires
        pos + 8 <= s@.len(),
    ensures
        x == u64_at(s@, pos as int),
        x == unle(s@.subrange(pos as int, pos + 8)),
{
    assert(s@.len() == s.len());
    let low: u32 = get_u32(s, pos);
    let high: u32 = get_u32(s, pos + 4);
    proof {
        let t = s@.subrange(pos as int, pos + 8);
        lemma_bytes_u64(t);
        reveal_with_fuel(unle, 5);
        assert(s@.subrange(pos as int, pos + 4) =~= t.take(4));
        assert(s@.subrange(pos + 4, pos + 8) =~= t.skip(4));
        assert(t.drop_first().drop_first().drop_first().drop_first() =~= t.skip(4));
        assert(t.take(4).drop_first().drop_first().drop_first().drop_first().len() == 0);
    }
    low as u64 + 0x1_0000_0000u64 * (high as u64)
}

/// The views of a list of byte strings.
pub open spec fn byte_seqs(v: Seq<Vec<u8>>) -> Seq<Seq<u8>> {
    Seq::new(v.len(), |i: int| v[i]@)
}

/// A copy of `s[from..to]`.
pub fn copy_range(s: &[u8], from: usize, to: usize) -> (out: Vec<u8>)
    requires
        from <= to <= s@.len(),
    ensures
        out@ == s@.subrange(from as int, to as int),
{
    let mut out: Vec<u8> = Vec::new();
    out.extend_from_slice(&s[from..to]);
    assert(out@ =~= s@.subrange(from as int, to as int));
    out
}

} // verus!
