//! The bytes of a manifest, and what reading them finds.
//!
//! Little-endian throughout: the magic number, the format, the next sequence
//! number, the next table id and the number of tiers; for each tier the number of
//! its tables and, for each table, its id, the number of its entries and its first
//! and last key; and last a CRC-32 of all that.

use std::sync::Arc;

use vstd::prelude::*;

use super::{MetaView, TableMeta, Version, VersionView};
use crate::checksum;
use crate::codec;
use crate::manifest;
use crate::sstable;
use crate::sstable::table;
use crate::sstable::{Corruption, Cursor, Part};

verus! {

/// Magic number at the head of a manifest.
pub const MANIFEST_MAGIC: u64 = 0x4143_4352_5F4D_4652;

/// On-disk manifest format version.
pub const MANIFEST_FORMAT: u32 = 1;

/// A length and the bytes it counts.
pub open spec fn counted(b: Seq<u8>) -> Seq<u8> {
    codec::le32(b.len() as u32) + b
}

/// The bytes of one table's entry.
pub open spec fn meta_bytes(m: MetaView) -> Seq<u8> {
    codec::le64(m.id) + codec::le64(m.num_entries) + counted(m.first_key) + counted(m.last_key)
}

/// Tables, back to back.
pub open spec fn metas_bytes(metas: Seq<MetaView>) -> Seq<u8>
    decreases metas.len(),
{
    if metas.len() == 0 {
        Seq::empty()
    } else {
        metas_bytes(metas.drop_last()) + meta_bytes(metas.last())
    }
}

/// The bytes of one tier.
pub open spec fn tier_bytes(tier: Seq<MetaView>) -> Seq<u8> {
    codec::le32(tier.len() as u32) + metas_bytes(tier)
}

/// Tiers, back to back.
pub open spec fn tiers_bytes(tiers: Seq<Seq<MetaView>>) -> Seq<u8>
    decreases tiers.len(),
{
    if tiers.len() == 0 {
        Seq::empty()
    } else {
        tiers_bytes(tiers.drop_last()) + tier_bytes(tiers.last())
    }
}

/// A manifest without its checksum.
pub open spec fn version_body(v: VersionView) -> Seq<u8> {
    codec::le64(MANIFEST_MAGIC) + codec::le32(MANIFEST_FORMAT) + codec::le64(v.next_seq)
        + codec::le64(v.next_table_id) + codec::le32(v.tiers.len() as u32) + tiers_bytes(v.tiers)
}

/// The bytes of a manifest.
pub open spec fn version_bytes(v: VersionView) -> Seq<u8> {
    table::sealed(version_body(v))
}

/// The format can describe the table's entry.
pub open spec fn meta_fits(m: MetaView) -> bool {
    m.first_key.len() <= u32::MAX && m.last_key.len() <= u32::MAX
}

/// The format can describe the tier.
pub open spec fn tier_fits(tier: Seq<MetaView>) -> bool {
    &&& tier.len() <= u32::MAX
    &&& forall|i: int| 0 <= i < tier.len() ==> meta_fits(#[trigger] tier[i])
}

/// The format can describe the version.
pub open spec fn version_fits(v: VersionView) -> bool {
    &&& v.tiers.len() <= u32::MAX
    &&& forall|t: int| 0 <= t < v.tiers.len() ==> tier_fits(#[trigger] v.tiers[t])
}

/// The counted bytes at the start of `s`, and the rest.
pub open spec fn parsed_counted(s: Seq<u8>) -> std::result::Result<
    (Seq<u8>, Seq<u8>),
    Corruption,
> {
    match sstable::take_u32(s) {
        Err(e) => Err(e),
        Ok((n, rest)) => sstable::taken(rest, n as nat),
    }
}

/// The table's entry at the start of `s`, and the rest.
#[verifier::opaque]
pub open spec fn parsed_meta(s: Seq<u8>) -> std::result::Result<(MetaView, Seq<u8>), Corruption> {
    match sstable::take_u64(s) {
        Err(e) => Err(e),
        Ok((id, s1)) => match sstable::take_u64(s1) {
            Err(e) => Err(e),
            Ok((num_entries, s2)) => match parsed_counted(s2) {
                Err(e) => Err(e),
                Ok((first_key, s3)) => match parsed_counted(s3) {
                    Err(e) => Err(e),
                    Ok((last_key, s4)) => Ok(
                        (MetaView { id, num_entries, first_key, last_key }, s4),
                    ),
                },
            },
        },
    }
}

/// The first `count` tables in `s`, and the rest.
pub open spec fn parsed_metas(s: Seq<u8>, count: nat) -> std::result::Result<
    (Seq<MetaView>, Seq<u8>),
    Corruption,
>
    decreases count,
{
    if count == 0 {
        Ok((Seq::empty(), s))
    } else {
        match parsed_meta(s) {
            Err(e) => Err(e),
            Ok((m, rest)) => match parsed_metas(rest, (count - 1) as nat) {
                Err(e) => Err(e),
                Ok((more, end)) => Ok((seq![m] + more, end)),
            },
        }
    }
}

/// The tier at the start of `s`, and the rest.
#[verifier::opaque]
pub open spec fn parsed_tier(s: Seq<u8>) -> std::result::Result<
    (Seq<MetaView>, Seq<u8>),
    Corruption,
> {
    match sstable::take_u32(s) {
        Err(e) => Err(e),
        Ok((count, rest)) => parsed_metas(rest, count as nat),
    }
}

/// The first `count` tiers in `s`.
pub open spec fn parsed_tiers(s: Seq<u8>, count: nat) -> std::result::Result<
    Seq<Seq<MetaView>>,
    Corruption,
>
    decreases count,
{
    if count == 0 {
        Ok(Seq::empty())
    } else {
        match parsed_tier(s) {
            Err(e) => Err(e),
            Ok((tier, rest)) => match parsed_tiers(rest, (count - 1) as nat) {
                Err(e) => Err(e),
                Ok(more) => Ok(seq![tier] + more),
            },
        }
    }
}

/// What a manifest without its checksum says.
#[verifier::opaque]
pub open spec fn parsed_body(s: Seq<u8>) -> std::result::Result<VersionView, Corruption> {
    match sstable::take_u64(s) {
        Err(e) => Err(e),
        Ok((magic, s1)) => if magic != MANIFEST_MAGIC {
            Err(Corruption::BadMagic)
        } else {
            match sstable::take_u32(s1) {
                Err(e) => Err(e),
                Ok((version, s2)) => if version != MANIFEST_FORMAT {
                    Err(Corruption::BadVersion { version })
                } else {
                    match sstable::take_u64(s2) {
                        Err(e) => Err(e),
                        Ok((next_seq, s3)) => match sstable::take_u64(s3) {
                            Err(e) => Err(e),
                            Ok((next_table_id, s4)) => match sstable::take_u32(s4) {
                                Err(e) => Err(e),
                                Ok((count, s5)) => match parsed_tiers(s5, count as nat) {
                                    Err(e) => Err(e),
                                    Ok(tiers) => Ok(VersionView { tiers, next_seq, next_table_id }),
                                },
                            },
                        },
                    }
                },
            }
        },
    }
}

/// What the bytes of a manifest say.
pub open spec fn parsed_version(s: Seq<u8>) -> std::result::Result<VersionView, Corruption> {
    match table::unsealed(s, Part::Manifest) {
        Err(e) => Err(e),
        Ok(body) => parsed_body(body),
    }
}

proof fn lemma_counted(b: Seq<u8>, rest: Seq<u8>)
    requires
        b.len() <= u32::MAX,
    ensures
        parsed_counted(counted(b) + rest) == Ok::<(Seq<u8>, Seq<u8>), Corruption>((b, rest)),
{
    assert(counted(b) + rest =~= codec::le32(b.len() as u32) + (b + rest));
    sstable::lemma_take_u32(b.len() as u32, b + rest);
    sstable::lemma_taken(b, rest);
}

proof fn lemma_meta(m: MetaView, rest: Seq<u8>)
    requires
        meta_fits(m),
    ensures
        parsed_meta(meta_bytes(m) + rest) == Ok::<(MetaView, Seq<u8>), Corruption>((m, rest)),
{
    reveal(parsed_meta);
    let s3 = counted(m.last_key) + rest;
    let s2 = counted(m.first_key) + s3;
    let s1 = codec::le64(m.num_entries) + s2;
    assert(meta_bytes(m) + rest =~= codec::le64(m.id) + s1);
    sstable::lemma_take_u64(m.id, s1);
    sstable::lemma_take_u64(m.num_entries, s2);
    lemma_counted(m.first_key, s3);
    lemma_counted(m.last_key, rest);
}

proof fn lemma_metas_front(metas: Seq<MetaView>)
    requires
        metas.len() > 0,
    ensures
        metas_bytes(metas) == meta_bytes(metas[0]) + metas_bytes(metas.drop_first()),
    decreases metas.len(),
{
    if metas.len() == 1 {
        assert(metas.drop_last() =~= Seq::empty());
        assert(metas.drop_first() =~= Seq::empty());
        assert(metas_bytes(metas.drop_last()) =~= Seq::empty());
        assert(metas_bytes(metas.drop_first()) =~= Seq::empty());
        assert(metas_bytes(metas) =~= meta_bytes(metas[0]) + metas_bytes(metas.drop_first()));
    } else {
        lemma_metas_front(metas.drop_last());
        assert(metas.drop_last().drop_first() =~= metas.drop_first().drop_last());
        assert(metas_bytes(metas) =~= meta_bytes(metas[0]) + metas_bytes(metas.drop_first()));
    }
}

proof fn lemma_metas(metas: Seq<MetaView>, rest: Seq<u8>)
    requires
        forall|i: int| 0 <= i < metas.len() ==> meta_fits(#[trigger] metas[i]),
    ensures
        parsed_metas(metas_bytes(metas) + rest, metas.len()) == Ok::<
            (Seq<MetaView>, Seq<u8>),
            Corruption,
        >((metas, rest)),
    decreases metas.len(),
{
    if metas.len() == 0 {
        assert(metas =~= Seq::empty());
        assert(metas_bytes(metas) + rest =~= rest);
    } else {
        let more = metas.drop_first();
        assert forall|i: int| 0 <= i < more.len() implies meta_fits(#[trigger] more[i]) by {
            assert(meta_fits(metas[i + 1]));
        }
        lemma_metas(more, rest);
        lemma_metas_front(metas);
        assert(meta_fits(metas[0]));
        lemma_meta(metas[0], metas_bytes(more) + rest);
        assert(metas_bytes(metas) + rest =~= meta_bytes(metas[0]) + (metas_bytes(more) + rest));
        assert(seq![metas[0]] + more =~= metas);
    }
}

proof fn lemma_tier(tier: Seq<MetaView>, rest: Seq<u8>)
    requires
        tier_fits(tier),
    ensures
        parsed_tier(tier_bytes(tier) + rest) == Ok::<(Seq<MetaView>, Seq<u8>), Corruption>(
            (tier, rest),
        ),
{
    reveal(parsed_tier);
    assert(tier_bytes(tier) + rest =~= codec::le32(tier.len() as u32) + (metas_bytes(tier)
        + rest));
    sstable::lemma_take_u32(tier.len() as u32, metas_bytes(tier) + rest);
    lemma_metas(tier, rest);
}

proof fn lemma_tiers_front(tiers: Seq<Seq<MetaView>>)
    requires
        tiers.len() > 0,
    ensures
        tiers_bytes(tiers) == tier_bytes(tiers[0]) + tiers_bytes(tiers.drop_first()),
    decreases tiers.len(),
{
    if tiers.len() == 1 {
        assert(tiers.drop_last() =~= Seq::empty());
        assert(tiers.drop_first() =~= Seq::empty());
        assert(tiers_bytes(tiers.drop_last()) =~= Seq::empty());
        assert(tiers_bytes(tiers.drop_first()) =~= Seq::empty());
        assert(tiers_bytes(tiers) =~= tier_bytes(tiers[0]) + tiers_bytes(tiers.drop_first()));
    } else {
        lemma_tiers_front(tiers.drop_last());
        assert(tiers.drop_last().drop_first() =~= tiers.drop_first().drop_last());
        assert(tiers_bytes(tiers) =~= tier_bytes(tiers[0]) + tiers_bytes(tiers.drop_first()));
    }
}

proof fn lemma_tiers(tiers: Seq<Seq<MetaView>>)
    requires
        forall|t: int| 0 <= t < tiers.len() ==> tier_fits(#[trigger] tiers[t]),
    ensures
        parsed_tiers(tiers_bytes(tiers), tiers.len()) == Ok::<Seq<Seq<MetaView>>, Corruption>(
            tiers,
        ),
    decreases tiers.len(),
{
    if tiers.len() == 0 {
        assert(tiers =~= Seq::empty());
    } else {
        let more = tiers.drop_first();
        assert forall|t: int| 0 <= t < more.len() implies tier_fits(#[trigger] more[t]) by {
            assert(tier_fits(tiers[t + 1]));
        }
        lemma_tiers(more);
        lemma_tiers_front(tiers);
        assert(tier_fits(tiers[0]));
        lemma_tier(tiers[0], tiers_bytes(more));
        assert(seq![tiers[0]] + more =~= tiers);
    }
}

/// What is in front of the tiers is read back.
proof fn lemma_body(v: VersionView)
    requires
        v.tiers.len() <= u32::MAX,
    ensures
        parsed_body(version_body(v)) == match parsed_tiers(
            tiers_bytes(v.tiers),
            v.tiers.len(),
        ) {
            Err(e) => Err::<VersionView, Corruption>(e),
            Ok(tiers) => Ok(VersionView { tiers, ..v }),
        },
{
    let s5 = tiers_bytes(v.tiers);
    let count = v.tiers.len() as u32;
    let s4 = codec::le32(count) + s5;
    let s3 = codec::le64(v.next_table_id) + s4;
    let s2 = codec::le64(v.next_seq) + s3;
    let s1 = codec::le32(MANIFEST_FORMAT) + s2;
    let body = codec::le64(MANIFEST_MAGIC) + s1;
    assert(version_body(v) == body) by {
        assert(version_body(v) =~= body);
    }
    assert(sstable::take_u64(body) == Ok::<(u64, Seq<u8>), Corruption>((MANIFEST_MAGIC, s1))) by {
        sstable::lemma_take_u64(MANIFEST_MAGIC, s1);
    }
    assert(sstable::take_u32(s1) == Ok::<(u32, Seq<u8>), Corruption>((MANIFEST_FORMAT, s2))) by {
        sstable::lemma_take_u32(MANIFEST_FORMAT, s2);
    }
    assert(sstable::take_u64(s2) == Ok::<(u64, Seq<u8>), Corruption>((v.next_seq, s3))) by {
        sstable::lemma_take_u64(v.next_seq, s3);
    }
    assert(sstable::take_u64(s3) == Ok::<(u64, Seq<u8>), Corruption>((v.next_table_id, s4))) by {
        sstable::lemma_take_u64(v.next_table_id, s4);
    }
    assert(sstable::take_u32(s4) == Ok::<(u32, Seq<u8>), Corruption>((count, s5))) by {
        sstable::lemma_take_u32(count, s5);
    }
    reveal(parsed_body);
}

/// A version survives being written and read.
pub proof fn lemma_version_round_trip(v: VersionView)
    requires
        version_fits(v),
    ensures
        parsed_version(version_bytes(v)) == Ok::<VersionView, Corruption>(v),
{
    table::lemma_unsealed(version_body(v), Part::Manifest);
    lemma_body(v);
    lemma_tiers(v.tiers);
}

/// The checksum of what stands before the checksum in the bytes of a manifest.
pub open spec fn crc_of(s: Seq<u8>) -> u32 {
    checksum::crc32(s.take(s.len() - 4))
}

/// The bytes of a manifest end in their checksum.
pub(crate) proof fn lemma_version_parts(v: VersionView)
    ensures
        version_bytes(v).len() >= 4,
        version_bytes(v).take(version_bytes(v).len() - 4) == version_body(v),
        version_bytes(v).skip(version_bytes(v).len() - 4) == codec::le32(
            crc_of(version_bytes(v)),
        ),
{
    codec::lemma_u32(checksum::crc32(version_body(v)));
    let s = version_bytes(v);
    assert(s.take(s.len() - 4) =~= version_body(v));
    assert(s.skip(s.len() - 4) =~= codec::le32(checksum::crc32(version_body(v))));
}

/// Bytes that are too few to hold a checksum are no manifest.
pub proof fn lemma_version_short(s: Seq<u8>)
    requires
        s.len() < 4,
    ensures
        parsed_version(s) == Err::<VersionView, Corruption>(
            Corruption::TooShortForCrc { part: Part::Manifest },
        ),
{
}

/// A damaged manifest is found out, unless the checksum that stands there is that of the
/// bytes before it. So it is found out wherever only the checksum was damaged, and where
/// only bytes before it were, if these have another checksum than before.
pub proof fn lemma_version_damaged(v: VersionView, s: Seq<u8>)
    requires
        version_fits(v),
        s.len() == version_bytes(v).len(),
        s != version_bytes(v),
    ensures
        ({
            let body = s.take(s.len() - 4);
            let stored = s.skip(s.len() - 4);
            let found = parsed_version(s);
            let mismatch = found matches Err(Corruption::CrcMismatch { part, .. }) && part
                == Part::Manifest;
            &&& checksum::crc32(body) != codec::unle(stored) ==> mismatch
            &&& body == version_body(v) ==> mismatch
            &&& stored == codec::le32(checksum::crc32(version_body(v))) && checksum::crc32(body)
                != checksum::crc32(version_body(v)) ==> mismatch
        }),
{
    let was = version_body(v);
    let body = s.take(s.len() - 4);
    let stored = s.skip(s.len() - 4);
    table::lemma_unsealed(was, Part::Manifest);
    codec::lemma_u32(checksum::crc32(was));
    codec::lemma_bytes_u32(stored);
    assert(s =~= body + stored);
}

/// Whether the format can describe `v`.
pub fn fits(v: &Version) -> (r: bool)
    ensures
        r == version_fits(v@),
{
    assert(v.tiers@.len() == v.tiers.len());
    if v.tiers.len() as u64 > 0xffff_ffff {
        return false;
    }
    let mut t: usize = 0;
    while t < v.tiers.len()
        invariant
            t <= v.tiers@.len(),
            forall|k: int| 0 <= k < t ==> tier_fits(#[trigger] v@.tiers[k]),
        decreases v.tiers.len() - t,
    {
        let tier = &v.tiers[t];
        assert(v@.tiers[t as int] == manifest::metas_of(tier@));
        assert(tier@.len() == tier.len());
        if tier.len() as u64 > 0xffff_ffff {
            assert(!tier_fits(v@.tiers[t as int]));
            return false;
        }
        let mut i: usize = 0;
        while i < tier.len()
            invariant
                t < v.tiers@.len(),
                i <= tier@.len(),
                v@.tiers[t as int] == manifest::metas_of(tier@),
                forall|k: int| 0 <= k < i ==> meta_fits(#[trigger] v@.tiers[t as int][k]),
            decreases tier.len() - i,
        {
            assert(v@.tiers[t as int][i as int] == tier@[i as int]@);
            if tier[i].first_key.len() as u64 > 0xffff_ffff || tier[i].last_key.len() as u64
                > 0xffff_ffff {
                assert(!meta_fits(v@.tiers[t as int][i as int]));
                assert(!tier_fits(v@.tiers[t as int]));
                return false;
            }
            i = i + 1;
        }
        t = t + 1;
    }
    true
}

fn put_counted(buf: &mut Vec<u8>, b: &Vec<u8>)
    ensures
        final(buf)@ == old(buf)@ + counted(b@),
{
    assert(b@.len() == b.len());
    let n: u32 = #[verifier::truncate] (b.len() as u32);
    codec::put_u32(buf, n);
    codec::put_bytes(buf, b);
    assert(buf@ =~= old(buf)@ + counted(b@));
}

fn put_meta(buf: &mut Vec<u8>, m: &TableMeta)
    ensures
        final(buf)@ == old(buf)@ + meta_bytes(m@),
{
    codec::put_u64(buf, m.id);
    codec::put_u64(buf, m.num_entries);
    put_counted(buf, &m.first_key);
    put_counted(buf, &m.last_key);
    assert(buf@ =~= old(buf)@ + meta_bytes(m@));
}

fn put_tier(buf: &mut Vec<u8>, tier: &Vec<Arc<TableMeta>>)
    ensures
        final(buf)@ == old(buf)@ + tier_bytes(manifest::metas_of(tier@)),
{
    let ghost metas = manifest::metas_of(tier@);
    let ghost start = buf@ + codec::le32(metas.len() as u32);
    assert(tier@.len() == tier.len());
    let count: u32 = #[verifier::truncate] (tier.len() as u32);
    codec::put_u32(buf, count);
    let mut i: usize = 0;
    assert(metas.take(0) =~= Seq::empty());
    assert(buf@ =~= start + metas_bytes(metas.take(0)));
    while i < tier.len()
        invariant
            i <= tier@.len(),
            metas == manifest::metas_of(tier@),
            buf@ == start + metas_bytes(metas.take(i as int)),
        decreases tier.len() - i,
    {
        put_meta(buf, &tier[i]);
        proof {
            let next = metas.take(i + 1);
            assert(next.drop_last() =~= metas.take(i as int));
            assert(buf@ =~= start + metas_bytes(next));
        }
        i = i + 1;
    }
    assert(metas.take(metas.len() as int) =~= metas);
    assert(buf@ =~= old(buf)@ + tier_bytes(metas));
}

/// The bytes of a manifest that says `v`.
pub fn encode_version(v: &Version) -> (buf: Vec<u8>)
    ensures
        buf@ == version_bytes(v@),
{
    let mut buf: Vec<u8> = Vec::new();
    codec::put_u64(&mut buf, MANIFEST_MAGIC);
    codec::put_u32(&mut buf, MANIFEST_FORMAT);
    codec::put_u64(&mut buf, v.next_seq);
    codec::put_u64(&mut buf, v.next_table_id);
    assert(v.tiers@.len() == v.tiers.len());
    let count: u32 = #[verifier::truncate] (v.tiers.len() as u32);
    codec::put_u32(&mut buf, count);
    let ghost tiers = v@.tiers;
    let ghost head = buf@;
    let mut t: usize = 0;
    assert(tiers.take(0) =~= Seq::empty());
    assert(buf@ =~= head + tiers_bytes(tiers.take(0)));
    while t < v.tiers.len()
        invariant
            t <= v.tiers@.len(),
            tiers == v@.tiers,
            buf@ == head + tiers_bytes(tiers.take(t as int)),
        decreases v.tiers.len() - t,
    {
        put_tier(&mut buf, &v.tiers[t]);
        proof {
            let next = tiers.take(t + 1);
            assert(next.drop_last() =~= tiers.take(t as int));
            assert(next.last() == manifest::metas_of(v.tiers@[t as int]@));
            assert(buf@ =~= head + tiers_bytes(next));
        }
        t = t + 1;
    }
    assert(tiers.take(tiers.len() as int) =~= tiers);
    assert(buf@ =~= version_body(v@));
    let crc: u32 = checksum::crc32_of(&buf);
    codec::put_u32(&mut buf, crc);
    buf
}

fn take_counted(cur: &mut Cursor<'_>) -> (r: std::result::Result<Vec<u8>, Corruption>)
    requires
        old(cur).inv(),
    ensures
        final(cur).inv(),
        match parsed_counted(old(cur)@) {
            Ok((b, rest)) => r is Ok && r->Ok_0@ == b && final(cur)@ == rest,
            Err(e) => r is Err && r->Err_0 == e,
        },
{
    match cur.u32() {
        Ok(n) => cur.take(n as usize),
        Err(e) => Err(e),
    }
}

fn take_meta(cur: &mut Cursor<'_>) -> (r: std::result::Result<TableMeta, Corruption>)
    requires
        old(cur).inv(),
    ensures
        final(cur).inv(),
        match parsed_meta(old(cur)@) {
            Ok((m, rest)) => r is Ok && r->Ok_0@ == m && final(cur)@ == rest,
            Err(e) => r is Err && r->Err_0 == e,
        },
{
    proof {
        reveal(parsed_meta);
    }
    let id: u64 = match cur.u64() {
        Ok(n) => n,
        Err(e) => {
            return Err(e);
        },
    };
    let num_entries: u64 = match cur.u64() {
        Ok(n) => n,
        Err(e) => {
            return Err(e);
        },
    };
    let first_key: Vec<u8> = match take_counted(cur) {
        Ok(k) => k,
        Err(e) => {
            return Err(e);
        },
    };
    let last_key: Vec<u8> = match take_counted(cur) {
        Ok(k) => k,
        Err(e) => {
            return Err(e);
        },
    };
    Ok(TableMeta { id, num_entries, first_key, last_key })
}

/// Tables in front of others.
spec fn with_front(
    front: Seq<MetaView>,
    rest: std::result::Result<(Seq<MetaView>, Seq<u8>), Corruption>,
) -> std::result::Result<(Seq<MetaView>, Seq<u8>), Corruption> {
    match rest {
        Ok((v, s)) => Ok((front + v, s)),
        Err(e) => Err(e),
    }
}

fn take_tier(cur: &mut Cursor<'_>) -> (r: std::result::Result<Vec<Arc<TableMeta>>, Corruption>)
    requires
        old(cur).inv(),
    ensures
        final(cur).inv(),
        match parsed_tier(old(cur)@) {
            Ok((tier, rest)) => r is Ok && manifest::metas_of(r->Ok_0@) == tier && final(cur)@
                == rest,
            Err(e) => r is Err && r->Err_0 == e,
        },
{
    proof {
        reveal(parsed_tier);
    }
    let count: u32 = match cur.u32() {
        Ok(n) => n,
        Err(e) => {
            return Err(e);
        },
    };
    let mut tier: Vec<Arc<TableMeta>> = Vec::new();
    let mut i: u32 = 0;
    let ghost all = parsed_metas(cur@, count as nat);
    proof {
        assert(manifest::metas_of(tier@) =~= Seq::empty());
        if let Ok((v, _)) = all {
            assert(Seq::empty() + v =~= v);
        }
    }
    while i < count
        invariant
            i <= count,
            cur.inv(),
            parsed_tier(old(cur)@) == all,
            all == with_front(
                manifest::metas_of(tier@),
                parsed_metas(cur@, (count - i) as nat),
            ),
        decreases count - i,
    {
        match take_meta(cur) {
            Ok(m) => {
                let ghost before = manifest::metas_of(tier@);
                let ghost mv = m@;
                tier.push(Arc::new(m));
                i = i + 1;
                proof {
                    assert(manifest::metas_of(tier@) =~= before.push(mv));
                    if let Ok((v, _)) = parsed_metas(cur@, (count - i) as nat) {
                        assert(before + (seq![mv] + v) =~= before.push(mv) + v);
                    }
                }
            },
            Err(e) => {
                return Err(e);
            },
        }
    }
    assert(manifest::metas_of(tier@) + Seq::<MetaView>::empty() =~= manifest::metas_of(tier@));
    Ok(tier)
}

/// Tiers in front of others.
spec fn with_tiers(
    front: Seq<Seq<MetaView>>,
    rest: std::result::Result<Seq<Seq<MetaView>>, Corruption>,
) -> std::result::Result<Seq<Seq<MetaView>>, Corruption> {
    match rest {
        Ok(v) => Ok(front + v),
        Err(e) => Err(e),
    }
}

fn take_tiers(cur: &mut Cursor<'_>, count: u32) -> (r: std::result::Result<
    Vec<Vec<Arc<TableMeta>>>,
    Corruption,
>)
    requires
        old(cur).inv(),
    ensures
        match parsed_tiers(old(cur)@, count as nat) {
            Ok(tiers) => r is Ok && manifest::tiers_of(r->Ok_0@) == tiers,
            Err(e) => r is Err && r->Err_0 == e,
        },
{
    let mut tiers: Vec<Vec<Arc<TableMeta>>> = Vec::new();
    let mut t: u32 = 0;
    let ghost all = parsed_tiers(cur@, count as nat);
    proof {
        assert(manifest::tiers_of(tiers@) =~= Seq::empty());
        if let Ok(v) = all {
            assert(Seq::empty() + v =~= v);
        }
    }
    while t < count
        invariant
            t <= count,
            cur.inv(),
            parsed_tiers(old(cur)@, count as nat) == all,
            all == with_tiers(
                manifest::tiers_of(tiers@),
                parsed_tiers(cur@, (count - t) as nat),
            ),
        decreases count - t,
    {
        match take_tier(cur) {
            Ok(tier) => {
                let ghost before = manifest::tiers_of(tiers@);
                let ghost tv = manifest::metas_of(tier@);
                tiers.push(tier);
                t = t + 1;
                proof {
                    assert(manifest::tiers_of(tiers@) =~= before.push(tv));
                    if let Ok(v) = parsed_tiers(cur@, (count - t) as nat) {
                        assert(before + (seq![tv] + v) =~= before.push(tv) + v);
                    }
                }
            },
            Err(e) => {
                return Err(e);
            },
        }
    }
    assert(manifest::tiers_of(tiers@) + Seq::<Seq<MetaView>>::empty() =~= manifest::tiers_of(
        tiers@,
    ));
    Ok(tiers)
}

/// Reads a manifest.
pub fn decode_version(buf: &[u8]) -> (r: std::result::Result<Version, Corruption>)
    ensures
        match parsed_version(buf@) {
            Ok(v) => r is Ok && r->Ok_0@ == v,
            Err(e) => r is Err && r->Err_0 == e,
        },
{
    proof {
        reveal(parsed_body);
    }
    match sstable::reader::verify_crc(buf, Part::Manifest) {
        Ok(_) => {},
        Err(e) => {
            return Err(e);
        },
    }
    let end: usize = buf.len() - 4;
    let mut cur: Cursor<'_> = Cursor::new(&buf[0..end]);
    assert(cur@ =~= buf@.take(end as int));
    let magic: u64 = match cur.u64() {
        Ok(n) => n,
        Err(e) => {
            return Err(e);
        },
    };
    if magic != MANIFEST_MAGIC {
        return Err(Corruption::BadMagic);
    }
    let version: u32 = match cur.u32() {
        Ok(n) => n,
        Err(e) => {
            return Err(e);
        },
    };
    if version != MANIFEST_FORMAT {
        return Err(Corruption::BadVersion { version });
    }
    let next_seq: u64 = match cur.u64() {
        Ok(n) => n,
        Err(e) => {
            return Err(e);
        },
    };
    let next_table_id: u64 = match cur.u64() {
        Ok(n) => n,
        Err(e) => {
            return Err(e);
        },
    };
    let count: u32 = match cur.u32() {
        Ok(n) => n,
        Err(e) => {
            return Err(e);
        },
    };
    match take_tiers(&mut cur, count) {
        Ok(tiers) => Ok(Version { tiers, next_seq, next_table_id }),
        Err(e) => Err(e),
    }
}

/// Where the parts of a manifest are: the magic number, the format, the next sequence number, the
/// next table id, the number of tiers, the tiers, and the checksum of all that.
pub proof fn lemma_version_format(v: VersionView)
    requires
        version_fits(v),
    ensures
        ({
            let s = version_bytes(v);
            let n = s.len() as int;
            &&& n >= 36
            &&& codec::u64_at(s, 0) == 0x4143_4352_5F4D_4652
            &&& codec::u32_at(s, 8) == 1
            &&& codec::u64_at(s, 12) == v.next_seq
            &&& codec::u64_at(s, 20) == v.next_table_id
            &&& codec::u32_at(s, 28) == v.tiers.len()
            &&& s.subrange(32, n - 4) == tiers_bytes(v.tiers)
            &&& codec::u32_at(s, n - 4) == checksum::crc32(s.take(n - 4))
        }),
{
    let s = version_bytes(v);
    let n = s.len() as int;
    let crc = checksum::crc32(version_body(v));
    codec::lemma_u64(MANIFEST_MAGIC);
    codec::lemma_u32(MANIFEST_FORMAT);
    codec::lemma_u64(v.next_seq);
    codec::lemma_u64(v.next_table_id);
    codec::lemma_u32(v.tiers.len() as u32);
    codec::lemma_u32(crc);
    assert(s.subrange(0, 8) =~= codec::le64(MANIFEST_MAGIC));
    assert(s.subrange(8, 12) =~= codec::le32(MANIFEST_FORMAT));
    assert(s.subrange(12, 20) =~= codec::le64(v.next_seq));
    assert(s.subrange(20, 28) =~= codec::le64(v.next_table_id));
    assert(s.subrange(28, 32) =~= codec::le32(v.tiers.len() as u32));
    assert(s.subrange(32, n - 4) =~= tiers_bytes(v.tiers));
    assert(s.subrange(n - 4, n) =~= codec::le32(crc));
    assert(s.take(n - 4) =~= version_body(v));
}

/// How a tier and a table are written: the number of tables, and of each its id, the number of
/// its entries, and its first and its last key behind their lengths.
pub proof fn lemma_tier_format(tier: Seq<MetaView>, more: MetaView)
    requires
        tier.len() < u32::MAX,
        meta_fits(more),
    ensures
        codec::u32_at(tier_bytes(tier), 0) == tier.len(),
        tier_bytes(tier.push(more)).skip(4) == tier_bytes(tier).skip(4) + meta_bytes(more),
        tier_bytes(Seq::empty()).len() == 4,
        forall|tiers: Seq<Seq<MetaView>>| #[trigger]
            tiers_bytes(tiers.push(tier)) == tiers_bytes(tiers) + tier_bytes(tier),
        tiers_bytes(Seq::empty()) == Seq::<u8>::empty(),
        ({
            let s = meta_bytes(more);
            let f = more.first_key.len() as int;
            let l = more.last_key.len() as int;
            &&& s.len() == 24 + f + l
            &&& codec::u64_at(s, 0) == more.id
            &&& codec::u64_at(s, 8) == more.num_entries
            &&& codec::u32_at(s, 16) == f
            &&& s.subrange(20, 20 + f) == more.first_key
            &&& codec::u32_at(s, 20 + f) == l
            &&& s.skip(24 + f) == more.last_key
        }),
{
    let s = meta_bytes(more);
    let f = more.first_key.len() as int;
    let l = more.last_key.len() as int;
    assert forall|tiers: Seq<Seq<MetaView>>| #[trigger]
        tiers_bytes(tiers.push(tier)) == tiers_bytes(tiers) + tier_bytes(tier) by {
        assert(tiers.push(tier).drop_last() =~= tiers);
    }
    codec::lemma_u32(tier.len() as u32);
    codec::lemma_u32((tier.len() + 1) as u32);
    codec::lemma_u32(0);
    codec::lemma_u64(more.id);
    codec::lemma_u64(more.num_entries);
    codec::lemma_u32(f as u32);
    codec::lemma_u32(l as u32);
    assert(tier_bytes(tier).subrange(0, 4) =~= codec::le32(tier.len() as u32));
    assert(tier.push(more).drop_last() =~= tier);
    assert(tier_bytes(tier.push(more)).skip(4) =~= tier_bytes(tier).skip(4) + meta_bytes(more));
    assert(s.subrange(0, 8) =~= codec::le64(more.id));
    assert(s.subrange(8, 16) =~= codec::le64(more.num_entries));
    assert(s.subrange(16, 20) =~= codec::le32(f as u32));
    assert(s.subrange(20, 20 + f) =~= more.first_key);
    assert(s.subrange(20 + f, 24 + f) =~= codec::le32(l as u32));
    assert(s.skip(24 + f) =~= more.last_key);
}

proof fn lemma_counted_only(s: Seq<u8>)
    ensures
        parsed_counted(s) matches Ok((b, rest)) ==> s == counted(b) + rest && b.len() <= u32::MAX,
{
    sstable::lemma_took_u32(s);
    if let Ok((n, rest)) = sstable::take_u32(s) {
        sstable::lemma_took(rest, n as nat);
        if let Ok((b, more)) = sstable::taken(rest, n as nat) {
            assert(s =~= counted(b) + more);
        }
    }
}

proof fn lemma_meta_only(s: Seq<u8>)
    ensures
        parsed_meta(s) matches Ok((m, rest)) ==> s == meta_bytes(m) + rest,
{
    reveal(parsed_meta);
    if let Ok((m, rest)) = parsed_meta(s) {
        sstable::lemma_took_u64(s);
        let (id, s1) = sstable::take_u64(s)->Ok_0;
        sstable::lemma_took_u64(s1);
        let (num, s2) = sstable::take_u64(s1)->Ok_0;
        lemma_counted_only(s2);
        let (first, s3) = parsed_counted(s2)->Ok_0;
        lemma_counted_only(s3);
        assert(s =~= meta_bytes(m) + rest);
    }
}

proof fn lemma_metas_only(s: Seq<u8>, count: nat)
    ensures
        parsed_metas(s, count) matches Ok((metas, rest)) ==> metas.len() == count && s
            == metas_bytes(metas) + rest,
    decreases count,
{
    if count == 0 {
        assert(s =~= metas_bytes(Seq::empty()) + s);
    } else {
        lemma_meta_only(s);
        if let Ok((m, rest)) = parsed_meta(s) {
            lemma_metas_only(rest, (count - 1) as nat);
            if let Ok((more, end)) = parsed_metas(rest, (count - 1) as nat) {
                let all = seq![m] + more;
                lemma_metas_front(all);
                assert(all.drop_first() =~= more);
                assert(s =~= metas_bytes(all) + end);
            }
        }
    }
}

proof fn lemma_tiers_only(s: Seq<u8>, count: nat)
    ensures
        parsed_tiers(s, count) matches Ok(tiers) ==> tiers.len() == count && s.len() >= tiers_bytes(
            tiers,
        ).len() && s.take(tiers_bytes(tiers).len() as int) == tiers_bytes(tiers),
    decreases count,
{
    if count == 0 {
        assert(s.take(0) =~= tiers_bytes(Seq::empty()));
    } else {
        reveal(parsed_tier);
        if let Ok((tier, rest)) = parsed_tier(s) {
            sstable::lemma_took_u32(s);
            let (n, s1) = sstable::take_u32(s)->Ok_0;
            lemma_metas_only(s1, n as nat);
            assert(s =~= tier_bytes(tier) + rest);
            lemma_tiers_only(rest, (count - 1) as nat);
            if let Ok(more) = parsed_tiers(rest, (count - 1) as nat) {
                let all = seq![tier] + more;
                lemma_tiers_front(all);
                assert(all.drop_first() =~= more);
                let n = tiers_bytes(more).len() as int;
                assert(s.take(tiers_bytes(all).len() as int) =~= tier_bytes(tier) + rest.take(n));
            }
        }
    }
}

/// Only what is a manifest is read as one: its bytes end in the checksum of those before it, and
/// these begin with the bytes of the version that is found.
pub proof fn lemma_reads_versions_only(s: Seq<u8>)
    ensures
        parsed_version(s) matches Ok(v) ==> {
            let n = s.len() as int;
            &&& n >= 4
            &&& codec::unle(s.skip(n - 4)) == checksum::crc32(s.take(n - 4))
            &&& n - 4 >= version_body(v).len()
            &&& s.take(version_body(v).len() as int) == version_body(v)
        },
{
    reveal(parsed_body);
    if let Ok(v) = parsed_version(s) {
        let n = s.len() as int;
        codec::lemma_bytes_u32(s.skip(n - 4));
        let body = s.take(n - 4);
        sstable::lemma_took_u64(body);
        let (magic, s1) = sstable::take_u64(body)->Ok_0;
        sstable::lemma_took_u32(s1);
        let (format, s2) = sstable::take_u32(s1)->Ok_0;
        sstable::lemma_took_u64(s2);
        let (next_seq, s3) = sstable::take_u64(s2)->Ok_0;
        sstable::lemma_took_u64(s3);
        let (next_id, s4) = sstable::take_u64(s3)->Ok_0;
        sstable::lemma_took_u32(s4);
        let (count, s5) = sstable::take_u32(s4)->Ok_0;
        lemma_tiers_only(s5, count as nat);
        let m = tiers_bytes(v.tiers).len() as int;
        codec::lemma_u64(magic);
        codec::lemma_u32(format);
        codec::lemma_u64(next_seq);
        codec::lemma_u64(next_id);
        codec::lemma_u32(count);
        assert(body =~= codec::le64(magic) + codec::le32(format) + codec::le64(next_seq)
            + codec::le64(next_id) + codec::le32(count) + s5);
        assert(s.take(version_body(v).len() as int) =~= version_body(v)) by {
            assert(version_body(v) =~= codec::le64(magic) + codec::le32(format) + codec::le64(
                next_seq,
            ) + codec::le64(next_id) + codec::le32(count) + s5.take(m));
        }
    }
}

/// Which versions the format can describe: those in which the number of tiers, that of the
/// tables of each, and the length of each first and last key fit in 32 bits.
pub proof fn lemma_version_fits(v: VersionView)
    ensures
        version_fits(v) <==> v.tiers.len() <= 0xffff_ffff && forall|t: int|
            0 <= t < v.tiers.len() ==> (#[trigger] v.tiers[t]).len() <= 0xffff_ffff && forall|i: int|
                0 <= i < v.tiers[t].len() ==> (#[trigger] v.tiers[t][i]).first_key.len()
                    <= 0xffff_ffff && v.tiers[t][i].last_key.len() <= 0xffff_ffff,
{
    if version_fits(v) {
        assert forall|t: int| 0 <= t < v.tiers.len() implies (#[trigger] v.tiers[t]).len()
            <= 0xffff_ffff && forall|i: int|
            0 <= i < v.tiers[t].len() ==> (#[trigger] v.tiers[t][i]).first_key.len() <= 0xffff_ffff
                && v.tiers[t][i].last_key.len() <= 0xffff_ffff by {
            assert(tier_fits(v.tiers[t]));
        }
    }
    if v.tiers.len() <= 0xffff_ffff && forall|t: int|
        0 <= t < v.tiers.len() ==> (#[trigger] v.tiers[t]).len() <= 0xffff_ffff && forall|i: int|
            0 <= i < v.tiers[t].len() ==> (#[trigger] v.tiers[t][i]).first_key.len() <= 0xffff_ffff
                && v.tiers[t][i].last_key.len() <= 0xffff_ffff {
        assert forall|t: int| 0 <= t < v.tiers.len() implies tier_fits(#[trigger] v.tiers[t]) by {
            assert(v.tiers[t].len() <= 0xffff_ffff);
            assert forall|i: int| 0 <= i < v.tiers[t].len() implies meta_fits(
                #[trigger] v.tiers[t][i],
            ) by {
                assert(v.tiers[t][i].first_key.len() <= 0xffff_ffff);
            }
        }
    }
}

} // verus!
