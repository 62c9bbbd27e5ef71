//! File names: numbers in decimal, and the names of log segments, tables and
//! the manifest.

use vstd::prelude::*;

use crate::codec;
use crate::order;
use crate::storage::path;

verus! {

/// Width of the zero-padded number in a file name; twenty digits hold any `u64`.
pub const ID_WIDTH: usize = 20;

/// `n` in decimal, in exactly `width` digits.
pub open spec fn digits(n: nat, width: nat) -> Seq<u8>
    decreases width,
{
    if width == 0 {
        Seq::empty()
    } else {
        digits(n / 10, (width - 1) as nat).push((48 + n % 10) as u8)
    }
}

/// Every byte is a decimal digit.
pub open spec fn all_digits(s: Seq<u8>) -> bool {
    forall|i: int| 0 <= i < s.len() ==> 48 <= #[trigger] s[i] <= 57
}

/// The number that the decimal digits `s` write.
pub open spec fn decimal(s: Seq<u8>) -> nat
    decreases s.len(),
{
    if s.len() == 0 {
        0
    } else {
        10 * decimal(s.drop_last()) + (s.last() - 48) as nat
    }
}

/// The `u64` that `s` writes: one or more decimal digits, with or without a plus
/// sign in front, and no more than a `u64` holds.
pub open spec fn parsed(s: Seq<u8>) -> Option<u64> {
    let d = if s.len() > 0 && s[0] == 43 {
        s.skip(1)
    } else {
        s
    };
    if d.len() > 0 && all_digits(d) && decimal(d) <= u64::MAX {
        Some(decimal(d) as u64)
    } else {
        None
    }
}

/// How many numbers `width` decimal digits can write.
pub open spec fn tens(width: nat) -> nat
    decreases width,
{
    if width == 0 {
        1
    } else {
        10 * tens((width - 1) as nat)
    }
}

proof fn lemma_digits(n: nat, width: nat)
    requires
        n < tens(width),
    ensures
        digits(n, width).len() == width,
        all_digits(digits(n, width)),
        decimal(digits(n, width)) == n,
    decreases width,
{
    if width > 0 {
        let rest = tens((width - 1) as nat);
        assert(n / 10 < rest) by (nonlinear_arith)
            requires
                n < 10 * rest,
        ;
        lemma_digits(n / 10, (width - 1) as nat);
        assert(digits(n, width).drop_last() =~= digits(n / 10, (width - 1) as nat));
    }
}

pub proof fn lemma_digits_len(n: nat, width: nat)
    ensures
        digits(n, width).len() == width,
    decreases width,
{
    if width > 0 {
        lemma_digits_len(n / 10, (width - 1) as nat);
    }
}

/// `s` without the zeros in front, but with at least `width` digits.
pub open spec fn unpadded(s: Seq<u8>, width: nat) -> Seq<u8>
    decreases s.len(),
{
    if s.len() > width && s.len() > 0 && s[0] == 48 {
        unpadded(s.drop_first(), width)
    } else {
        s
    }
}

/// `n` in decimal, in at least `width` digits.
pub open spec fn padded(n: u64, width: nat) -> Seq<u8> {
    unpadded(digits(n as nat, 20), width)
}

/// A `u64` fits into [`ID_WIDTH`] digits and is read back from them.
pub proof fn lemma_id_digits(id: u64)
    ensures
        digits(id as nat, 20).len() == 20,
        all_digits(digits(id as nat, 20)),
        decimal(digits(id as nat, 20)) == id,
        parsed(digits(id as nat, 20)) == Some(id),
{
    reveal_with_fuel(tens, 21);
    lemma_digits(id as nat, 20);
    assert(digits(id as nat, 20)[0] != 43);
}

/// A longer run of digits writes no smaller number.
proof fn lemma_decimal_monotone(s: Seq<u8>, n: int)
    requires
        all_digits(s),
        0 <= n <= s.len(),
    ensures
        decimal(s.take(n)) <= decimal(s),
    decreases s.len(),
{
    if n == s.len() {
        assert(s.take(n) =~= s);
    } else {
        lemma_decimal_monotone(s.drop_last(), n);
        assert(s.drop_last().take(n) =~= s.take(n));
    }
}

/// Numbers in one width sort as they count.
pub proof fn lemma_digits_sorted(a: nat, b: nat, width: nat)
    requires
        a < b < tens(width),
    ensures
        order::lex_lt(digits(a, width), digits(b, width)),
    decreases width,
{
    if width > 0 {
        let rest = tens((width - 1) as nat);
        assert(b / 10 < rest) by (nonlinear_arith)
            requires
                b < 10 * rest,
        ;
        lemma_digits(a / 10, (width - 1) as nat);
        lemma_digits(b / 10, (width - 1) as nat);
        if a / 10 < b / 10 {
            lemma_digits_sorted(a / 10, b / 10, (width - 1) as nat);
        } else {
            assert(a / 10 == b / 10);
            assert(a % 10 < b % 10);
        }
        order::lemma_lex_push(
            digits(a / 10, (width - 1) as nat),
            digits(b / 10, (width - 1) as nat),
            (48 + a % 10) as u8,
            (48 + b % 10) as u8,
        );
    }
}

/// A common suffix does not change the order of two strings of one length.
proof fn lemma_lex_suffix(a: Seq<u8>, b: Seq<u8>, s: Seq<u8>)
    requires
        a.len() == b.len(),
        order::lex_lt(a, b),
    ensures
        order::lex_lt(a + s, b + s),
    decreases a.len(),
{
    if a.len() > 0 {
        assert((a + s).drop_first() =~= a.drop_first() + s);
        assert((b + s).drop_first() =~= b.drop_first() + s);
        if a[0] == b[0] {
            lemma_lex_suffix(a.drop_first(), b.drop_first(), s);
        }
    }
}

/// `.wal`
pub open spec fn wal_suffix() -> Seq<u8> {
    seq![46u8, 119u8, 97u8, 108u8]
}

/// `.sst`
pub open spec fn sst_suffix() -> Seq<u8> {
    seq![46u8, 115u8, 115u8, 116u8]
}

/// `.tmp`
pub open spec fn tmp_suffix() -> Seq<u8> {
    seq![46u8, 116u8, 109u8, 112u8]
}

/// The file name of log segment `id`.
pub open spec fn segment_name(id: u64) -> Seq<u8> {
    digits(id as nat, 20) + wal_suffix()
}

/// The file name of the scratch file used while segment `id` is rewritten.
pub open spec fn segment_tmp_name(id: u64) -> Seq<u8> {
    segment_name(id) + tmp_suffix()
}

/// The file name of table `id`.
pub open spec fn table_name(id: u64) -> Seq<u8> {
    digits(id as nat, 20) + sst_suffix()
}

/// `MANIFEST`
pub open spec fn manifest_name() -> Seq<u8> {
    seq![77u8, 65u8, 78u8, 73u8, 70u8, 69u8, 83u8, 84u8]
}

/// `MANIFEST.tmp`
pub open spec fn manifest_tmp_name() -> Seq<u8> {
    manifest_name() + tmp_suffix()
}

/// `name` ends in `suffix`.
pub open spec fn ends_with(name: Seq<u8>, suffix: Seq<u8>) -> bool {
    name.len() >= suffix.len() && name.skip(name.len() - suffix.len()) == suffix
}

/// The segment that `name` names: twenty characters that write a number, and
/// `.wal`.
pub open spec fn segment_id(name: Seq<u8>) -> Option<u64> {
    if ends_with(name, wal_suffix()) && name.len() == 24 {
        parsed(name.take(20))
    } else {
        None
    }
}

/// The table that `name` names: a number and `.sst`.
pub open spec fn table_id(name: Seq<u8>) -> Option<u64> {
    if ends_with(name, sst_suffix()) {
        parsed(name.take(name.len() - 4))
    } else {
        None
    }
}

/// A segment's name gives its number back.
pub proof fn lemma_segment_name(id: u64)
    ensures
        segment_id(segment_name(id)) == Some(id),
        segment_name(id).len() == 24,
{
    lemma_id_digits(id);
    let name = segment_name(id);
    assert(name.skip(20) =~= wal_suffix());
    assert(name.take(20) =~= digits(id as nat, 20));
}

/// A table's name gives its number back.
pub proof fn lemma_table_name(id: u64)
    ensures
        table_id(table_name(id)) == Some(id),
        table_name(id).len() == 24,
{
    lemma_id_digits(id);
    let name = table_name(id);
    assert(name.skip(20) =~= sst_suffix());
    assert(name.take(20) =~= digits(id as nat, 20));
}

/// The names that the store gives its files are of one component each.
pub proof fn lemma_names_simple(id: u64)
    ensures
        path::is_simple(segment_name(id)),
        path::is_simple(segment_tmp_name(id)),
        path::is_simple(table_name(id)),
        path::is_simple(manifest_name()),
        path::is_simple(manifest_tmp_name()),
{
    lemma_id_digits(id);
    let dot = seq![46u8];
    assert(dot.len() == 1);
    assert(segment_name(id).len() == 24 && table_name(id).len() == 24);
    assert(segment_tmp_name(id).len() == 28);
    assert(manifest_name().len() == 8 && manifest_tmp_name().len() == 12);
}

/// Names of segments sort as their numbers do.
pub proof fn lemma_segment_names_sorted(a: u64, b: u64)
    requires
        a < b,
    ensures
        order::lex_lt(segment_name(a), segment_name(b)),
{
    reveal_with_fuel(tens, 21);
    lemma_digits_sorted(a as nat, b as nat, 20);
    lemma_id_digits(a);
    lemma_id_digits(b);
    lemma_lex_suffix(digits(a as nat, 20), digits(b as nat, 20), wal_suffix());
}

/// Two suffixes of one length cannot both end a name unless they are the same.
proof fn lemma_one_suffix(name: Seq<u8>, s: Seq<u8>, t: Seq<u8>)
    requires
        s.len() == t.len(),
        ends_with(name, s),
        ends_with(name, t),
    ensures
        s == t,
{
}

/// The name of a scratch file ends in `.tmp`, and `MANIFEST` in none of the
/// suffixes.
proof fn lemma_special_names(id: u64)
    ensures
        ends_with(segment_tmp_name(id), tmp_suffix()),
        ends_with(manifest_tmp_name(), tmp_suffix()),
        manifest_name().skip(4) == seq![70u8, 69u8, 83u8, 84u8],
{
    lemma_segment_name(id);
    assert(segment_tmp_name(id).skip(24) =~= tmp_suffix());
    assert(manifest_tmp_name().skip(8) =~= tmp_suffix());
    assert(manifest_name().skip(4) =~= seq![70u8, 69u8, 83u8, 84u8]);
}

/// The kinds of names are apart: no scratch file, manifest or table is named
/// like a segment, and no scratch file, manifest or segment like a table.
pub proof fn lemma_kinds_apart(id: u64)
    ensures
        segment_id(segment_tmp_name(id)) is None,
        segment_id(manifest_name()) is None,
        segment_id(manifest_tmp_name()) is None,
        segment_id(table_name(id)) is None,
        table_id(segment_tmp_name(id)) is None,
        table_id(manifest_name()) is None,
        table_id(manifest_tmp_name()) is None,
        table_id(segment_name(id)) is None,
        segment_tmp_name(id) != manifest_name(),
        segment_tmp_name(id) != manifest_tmp_name(),
        manifest_name() != manifest_tmp_name(),
        forall|name: Seq<u8>|
            !(#[trigger] segment_id(name) is Some && #[trigger] table_id(name) is Some),
{
    lemma_special_names(id);
    lemma_segment_name(id);
    lemma_table_name(id);
    assert(wal_suffix()[1] != tmp_suffix()[1] && sst_suffix()[1] != tmp_suffix()[1]
        && wal_suffix()[1] != sst_suffix()[1]);
    assert forall|name: Seq<u8>| ends_with(name, tmp_suffix()) implies segment_id(name) is None
        && table_id(name) is None by {
        if segment_id(name) is Some {
            lemma_one_suffix(name, tmp_suffix(), wal_suffix());
        }
        if table_id(name) is Some {
            lemma_one_suffix(name, tmp_suffix(), sst_suffix());
        }
    }
    assert(!ends_with(manifest_name(), sst_suffix())) by {
        assert(manifest_name().skip(4)[0] == 70u8);
        assert(sst_suffix()[0] == 46u8);
    }
    assert(ends_with(segment_name(id), wal_suffix()));
    assert(ends_with(table_name(id), sst_suffix()));
    assert forall|name: Seq<u8>|
        !(#[trigger] segment_id(name) is Some && #[trigger] table_id(name) is Some) by {
        if segment_id(name) is Some && table_id(name) is Some {
            lemma_one_suffix(name, wal_suffix(), sst_suffix());
        }
    }
    assert(segment_tmp_name(id).len() == 28);
    assert(manifest_tmp_name().len() == 12);
    assert(manifest_name().len() == 8);
}

/// `n` in decimal, in [`ID_WIDTH`] digits.
pub fn format_id(id: u64) -> (s: Vec<u8>)
    ensures
        s@ == digits(id as nat, 20),
{
    let mut out: Vec<u8> = vec![48u8; 20];
    let mut left: u64 = id;
    let mut i: usize = 20;
    proof {
        lemma_id_digits(id);
        assert(out@.skip(20) =~= digits(id as nat, 20).skip(20));
        assert(digits(left as nat, 20) =~= digits(id as nat, 20).take(20));
    }
    while i > 0
        invariant
            i <= 20,
            out@.len() == 20,
            digits(id as nat, 20).len() == 20,
            digits(left as nat, i as nat) == digits(id as nat, 20).take(i as int),
            out@.skip(i as int) == digits(id as nat, 20).skip(i as int),
        decreases i,
    {
        let ghost before = out@;
        let ghost all = digits(id as nat, 20);
        i = i - 1;
        out[i] = (48 + left % 10) as u8;
        proof {
            let here = digits(left as nat, (i + 1) as nat);
            assert(here.last() == (48 + left % 10) as u8);
            assert(here.drop_last() =~= digits(left as nat / 10, i as nat));
            assert(here[i as int] == all[i as int]);
            assert(here.drop_last() =~= all.take(i as int));
            assert(out@.skip(i as int) =~= all.skip(i as int)) by {
                assert forall|j: int| i < j < 20 implies out@[j] == all[j] by {
                    assert(before.skip(i + 1)[j - i - 1] == all.skip(i + 1)[j - i - 1]);
                }
            }
        }
        left = left / 10;
    }
    assert(out@ =~= out@.skip(0));
    assert(digits(id as nat, 20).skip(0) =~= digits(id as nat, 20));
    out
}

/// Appends `n` in decimal, in at least `width` digits.
pub fn put_padded(out: &mut Vec<u8>, n: u64, width: usize)
    requires
        width <= 20,
    ensures
        final(out)@ == old(out)@ + padded(n, width as nat),
{
    let all: Vec<u8> = format_id(n);
    proof {
        lemma_id_digits(n);
    }
    let mut at: usize = 0;
    assert(all@.skip(0) =~= all@);
    while at < 20 - width && all[at] == 48
        invariant
            width <= 20,
            at <= 20 - width,
            all@.len() == 20,
            unpadded(all@, width as nat) == unpadded(all@.skip(at as int), width as nat),
        decreases 20 - at,
    {
        assert(all@.skip(at as int).drop_first() =~= all@.skip(at + 1));
        at = at + 1;
    }
    assert(all@.subrange(at as int, 20) =~= all@.skip(at as int));
    codec::put_bytes(out, &all[at..20]);
}

/// Reads a `u64` as [`parsed`] says.
pub fn parse_id(s: &[u8]) -> (r: Option<u64>)
    ensures
        r == parsed(s@),
{
    let start: usize = if s.len() > 0 && s[0] == 43 {
        1
    } else {
        0
    };
    let ghost d = if s@.len() > 0 && s@[0] == 43 {
        s@.skip(1)
    } else {
        s@
    };
    assert(d =~= s@.skip(start as int));
    if start == s.len() {
        return None;
    }
    let mut value: u64 = 0;
    let mut i: usize = start;
    assert(d.take(0) =~= Seq::empty());
    while i < s.len()
        invariant
            start <= i <= s.len(),
            start <= 1,
            d == s@.skip(start as int),
            parsed(s@) == (if d.len() > 0 && all_digits(d) && decimal(d) <= u64::MAX {
                Some(decimal(d) as u64)
            } else {
                None::<u64>
            }),
            forall|j: int| 0 <= j < i - start ==> 48 <= #[trigger] d[j] <= 57,
            value == decimal(d.take(i - start)),
        decreases s.len() - i,
    {
        let b: u8 = s[i];
        let ghost n = i - start;
        assert(d[n] == b);
        if b < 48 || b > 57 {
            return None;
        }
        let digit: u64 = (b - 48) as u64;
        proof {
            assert(d.take(n + 1).drop_last() =~= d.take(n));
            assert(decimal(d.take(n + 1)) == 10 * value + digit);
            if all_digits(d) {
                lemma_decimal_monotone(d, n + 1);
            }
        }
        if value > u64::MAX / 10 || value * 10 > u64::MAX - digit {
            return None;
        }
        value = value * 10 + digit;
        i = i + 1;
    }
    assert(d.take(i - start) =~= d);
    Some(value)
}

/// Whether `name` ends in `suffix`.
pub fn has_suffix(name: &[u8], suffix: &[u8]) -> (r: bool)
    ensures
        r == ends_with(name@, suffix@),
{
    if name.len() < suffix.len() {
        return false;
    }
    let at: usize = name.len() - suffix.len();
    assert(name@.subrange(at as int, name@.len() as int) =~= name@.skip(at as int));
    order::same_bytes(&name[at..name.len()], suffix)
}

/// The bytes `.wal`.
pub fn wal_suffix_bytes() -> (s: Vec<u8>)
    ensures
        s@ == wal_suffix(),
{
    let s: Vec<u8> = vec![46u8, 119u8, 97u8, 108u8];
    assert(s@ =~= wal_suffix());
    s
}

/// The bytes `.sst`.
pub fn sst_suffix_bytes() -> (s: Vec<u8>)
    ensures
        s@ == sst_suffix(),
{
    let s: Vec<u8> = vec![46u8, 115u8, 115u8, 116u8];
    assert(s@ =~= sst_suffix());
    s
}

/// The bytes `.tmp`.
pub fn tmp_suffix_bytes() -> (s: Vec<u8>)
    ensures
        s@ == tmp_suffix(),
{
    let s: Vec<u8> = vec![46u8, 116u8, 109u8, 112u8];
    assert(s@ =~= tmp_suffix());
    s
}

/// The file name of log segment `id`.
pub fn segment_file(id: u64) -> (s: Vec<u8>)
    ensures
        s@ == segment_name(id),
{
    let mut s: Vec<u8> = format_id(id);
    codec::put_bytes(&mut s, &wal_suffix_bytes());
    s
}

/// The file name of the scratch file of segment `id`.
pub fn segment_tmp_file(id: u64) -> (s: Vec<u8>)
    ensures
        s@ == segment_tmp_name(id),
{
    let mut s: Vec<u8> = segment_file(id);
    codec::put_bytes(&mut s, &tmp_suffix_bytes());
    s
}

/// The file name of table `id`.
pub fn table_file(id: u64) -> (s: Vec<u8>)
    ensures
        s@ == table_name(id),
{
    let mut s: Vec<u8> = format_id(id);
    codec::put_bytes(&mut s, &sst_suffix_bytes());
    s
}

/// The bytes `MANIFEST`.
pub fn manifest_file() -> (s: Vec<u8>)
    ensures
        s@ == manifest_name(),
{
    let s: Vec<u8> = vec![77u8, 65u8, 78u8, 73u8, 70u8, 69u8, 83u8, 84u8];
    assert(s@ =~= manifest_name());
    s
}

/// The bytes `MANIFEST.tmp`.
pub fn manifest_tmp_file() -> (s: Vec<u8>)
    ensures
        s@ == manifest_tmp_name(),
{
    let mut s: Vec<u8> = manifest_file();
    codec::put_bytes(&mut s, &tmp_suffix_bytes());
    s
}

/// The segment that a file name names, if it names one.
pub fn segment_of(name: &[u8]) -> (r: Option<u64>)
    ensures
        r == segment_id(name@),
{
    if !has_suffix(name, &wal_suffix_bytes()) || name.len() != 24 {
        return None;
    }
    assert(name@.subrange(0, 20) =~= name@.take(20));
    parse_id(&name[0..20])
}

/// The table that a file name names, if it names one.
pub fn table_of(name: &[u8]) -> (r: Option<u64>)
    ensures
        r == table_id(name@),
{
    if !has_suffix(name, &sst_suffix_bytes()) {
        return None;
    }
    assert(name@.len() == name.len());
    let end: usize = name.len() - 4;
    assert(name@.subrange(0, end as int) =~= name@.take(end as int));
    parse_id(&name[0..end])
}

/// What decimal digits write, from the last one on.
pub proof fn lemma_decimal(s: Seq<u8>, d: nat)
    requires
        d < 10,
    ensures
        decimal(Seq::empty()) == 0,
        decimal(s.push((48 + d) as u8)) == 10 * decimal(s) + d,
{
    assert(s.push((48 + d) as u8).drop_last() =~= s);
}

/// How files are named: twenty decimal digits that write the number, and `.wal` for a segment
/// of the log or `.sst` for a table, behind which a segment that is being rewritten has `.tmp`.
pub proof fn lemma_name_format(id: u64)
    ensures
        segment_name(id).len() == 24,
        all_digits(segment_name(id).take(20)),
        decimal(segment_name(id).take(20)) == id,
        segment_name(id).skip(20) == seq![46u8, 119u8, 97u8, 108u8],
        table_name(id).len() == 24,
        all_digits(table_name(id).take(20)),
        decimal(table_name(id).take(20)) == id,
        table_name(id).skip(20) == seq![46u8, 115u8, 115u8, 116u8],
        segment_tmp_name(id) == segment_name(id) + seq![46u8, 116u8, 109u8, 112u8],
        manifest_tmp_name() == manifest_name() + seq![46u8, 116u8, 109u8, 112u8],
{
    lemma_id_digits(id);
    assert(segment_name(id).take(20) =~= digits(id as nat, 20));
    assert(table_name(id).take(20) =~= digits(id as nat, 20));
    assert(segment_name(id).skip(20) =~= seq![46u8, 119u8, 97u8, 108u8]);
    assert(table_name(id).skip(20) =~= seq![46u8, 115u8, 115u8, 116u8]);
}

/// Which names are those of a segment or a table: a number, with a plus sign in front or
/// without, that a `u64` holds, and behind it `.wal` or `.sst`. The number of a segment takes
/// twenty characters.
pub proof fn lemma_name_parsed(name: Seq<u8>)
    ensures
        ({
            let n = name.len() - 4;
            let number = if n > 0 && name[0] == 43 {
                name.subrange(1, n)
            } else {
                name.subrange(0, n)
            };
            let is_number = number.len() > 0 && all_digits(number) && decimal(number) <= u64::MAX;
            &&& segment_id(name) is Some <==> n == 20 && is_number && name.skip(n) == seq![
                46u8,
                119u8,
                97u8,
                108u8,
            ]
            &&& segment_id(name) matches Some(id) ==> id == decimal(number)
            &&& table_id(name) is Some <==> n > 0 && is_number && name.skip(n) == seq![
                46u8,
                115u8,
                115u8,
                116u8,
            ]
            &&& table_id(name) matches Some(id) ==> id == decimal(number)
        }),
{
    let n = name.len() - 4;
    if n >= 0 {
        let front = name.take(n);
        assert(wal_suffix() =~= seq![46u8, 119u8, 97u8, 108u8]);
        assert(sst_suffix() =~= seq![46u8, 115u8, 115u8, 116u8]);
        assert(front =~= name.subrange(0, n));
        if n > 0 && name[0] == 43 {
            assert(front.skip(1) =~= name.subrange(1, n));
        }
    }
}

/// What a padded number is: decimal digits that write it, as many as the width or more, and
/// with no zero in front where they are more.
pub proof fn lemma_padded(n: u64, width: nat)
    requires
        1 <= width <= 20,
    ensures
        all_digits(padded(n, width)),
        decimal(padded(n, width)) == n,
        width <= padded(n, width).len() <= 20,
        padded(n, width).len() > width ==> padded(n, width)[0] != 48,
{
    lemma_id_digits(n);
    lemma_unpadded(digits(n as nat, 20), width);
}

proof fn lemma_unpadded(s: Seq<u8>, width: nat)
    requires
        all_digits(s),
        s.len() >= width,
    ensures
        all_digits(unpadded(s, width)),
        decimal(unpadded(s, width)) == decimal(s),
        width <= unpadded(s, width).len() <= s.len(),
        unpadded(s, width).len() > width ==> unpadded(s, width)[0] != 48,
    decreases s.len(),
{
    if s.len() > width && s.len() > 0 && s[0] == 48 {
        let t = s.drop_first();
        assert forall|i: int| 0 <= i < t.len() implies 48 <= #[trigger] t[i] <= 57 by {
            assert(t[i] == s[i + 1]);
        }
        lemma_unpadded(t, width);
        lemma_zero_in_front(s);
    }
}

proof fn lemma_zero_in_front(s: Seq<u8>)
    requires
        s.len() > 0,
        s[0] == 48,
    ensures
        decimal(s.drop_first()) == decimal(s),
    decreases s.len(),
{
    if s.len() > 1 {
        lemma_zero_in_front(s.drop_last());
        assert(s.drop_first().drop_last() =~= s.drop_last().drop_first());
        assert(s.drop_first().last() == s.last());
    } else {
        assert(s.drop_first() =~= Seq::empty());
        assert(s.drop_last() =~= Seq::empty());
    }
}

/// Which byte strings write a number: decimal digits, one or more, with a plus sign in front or
/// without, that write no more than a `u64` holds.
pub proof fn lemma_parsed(s: Seq<u8>, n: u64)
    requires
        all_digits(s),
        s.len() > 0,
    ensures
        decimal(s) <= u64::MAX ==> parsed(s) == Some(decimal(s) as u64),
        decimal(s) <= u64::MAX ==> parsed(seq![43u8] + s) == Some(decimal(s) as u64),
        decimal(s) > u64::MAX ==> parsed(s) is None && parsed(seq![43u8] + s) is None,
        parsed(digits(n as nat, 20)) == Some(n),
{
    lemma_id_digits(n);
    assert(s[0] != 43);
    assert((seq![43u8] + s).skip(1) =~= s);
}

/// What holds anything but digits behind a sign, or nothing, writes no number.
pub proof fn lemma_not_parsed(s: Seq<u8>, i: int)
    requires
        s.len() == 0 || s == seq![43u8] || 0 <= i < s.len() && !(48 <= s[i] <= 57) && (i > 0 || s[0]
            != 43),
    ensures
        parsed(s) is None,
{
    if s.len() > 0 && s[0] == 43 {
        let d = s.skip(1);
        if i > 0 && i < s.len() {
            assert(d[i - 1] == s[i]);
        }
    }
}

} // verus!
