//! The records in the log: one write each.
//!
//! A record is the sequence number, a tag, the key with its length and, for a put,
//! the value with its length.

use vstd::prelude::*;

use crate::codec;
use crate::memtable::{InternalValue, SeqNo, ValueKind};
use crate::model::Rec;
use crate::sstable;
use crate::sstable::{Corruption, Cursor};
use crate::wal::frame;

verus! {

/// Tag of a deletion.
pub const REC_TAG_DELETE: u8 = 0;

/// Tag of a put.
pub const REC_TAG_PUT: u8 = 1;

/// The bytes of a record.
pub open spec fn record_bytes(r: Rec) -> Seq<u8> {
    let head = codec::le64(r.seq);
    let key = codec::le32(r.key.len() as u32) + r.key;
    match r.val {
        Some(v) => head + seq![REC_TAG_PUT] + key + codec::le32(v.len() as u32) + v,
        None => head + seq![REC_TAG_DELETE] + key,
    }
}

/// How many bytes a record of this key and value has.
pub open spec fn record_len(key: Seq<u8>, val: Option<Seq<u8>>) -> nat {
    13 + key.len() + match val {
        Some(v) => 4 + v.len(),
        None => 0,
    }
}

/// The log can hold a record of this key and value.
pub open spec fn write_fits(key: Seq<u8>, val: Option<Seq<u8>>) -> bool {
    record_len(key, val) <= u32::MAX
}

/// What the bytes behind the key of a record say of the value.
#[verifier::opaque]
pub open spec fn parsed_payload(tag: u8, s: Seq<u8>) -> std::result::Result<
    Option<Seq<u8>>,
    Corruption,
> {
    if tag == REC_TAG_PUT {
        match sstable::take_u32(s) {
            Err(_) => Err(Corruption::RecordTruncated),
            Ok((len, rest)) => match sstable::taken(rest, len as nat) {
                Err(_) => Err(Corruption::RecordTruncated),
                Ok((v, _)) => Ok(Some(v)),
            },
        }
    } else if tag == REC_TAG_DELETE {
        Ok(None)
    } else {
        Err(Corruption::RecordTag { tag })
    }
}

/// What the bytes of a record say; what follows them is ignored.
#[verifier::opaque]
pub open spec fn parsed_record(s: Seq<u8>) -> std::result::Result<Rec, Corruption> {
    match sstable::take_u64(s) {
        Err(_) => Err(Corruption::RecordTruncated),
        Ok((seq, s1)) => match sstable::take_u8(s1) {
            Err(_) => Err(Corruption::RecordTruncated),
            Ok((tag, s2)) => match sstable::take_u32(s2) {
                Err(_) => Err(Corruption::RecordTruncated),
                Ok((key_len, s3)) => match sstable::taken(s3, key_len as nat) {
                    Err(_) => Err(Corruption::RecordTruncated),
                    Ok((key, s4)) => match parsed_payload(tag, s4) {
                        Err(e) => Err(e),
                        Ok(val) => Ok(Rec { key, seq, val }),
                    },
                },
            },
        },
    }
}

/// The tag of a record, and the bytes behind its key.
spec fn tag_of(val: Option<Seq<u8>>) -> (u8, Seq<u8>) {
    match val {
        Some(v) => (REC_TAG_PUT, codec::le32(v.len() as u32) + v),
        None => (REC_TAG_DELETE, Seq::empty()),
    }
}

proof fn lemma_payload(val: Option<Seq<u8>>)
    requires
        val matches Some(v) ==> v.len() <= u32::MAX,
    ensures
        parsed_payload(tag_of(val).0, tag_of(val).1) == Ok::<Option<Seq<u8>>, Corruption>(val),
        tag_of(val).1.len() == match val {
            Some(v) => 4 + v.len(),
            None => 0,
        },
{
    reveal(parsed_payload);
    if let Some(v) = val {
        codec::lemma_u32(v.len() as u32);
        sstable::lemma_take_u32(v.len() as u32, v);
        sstable::lemma_taken(v, Seq::empty());
        assert(v + Seq::<u8>::empty() =~= v);
    }
}

/// A record survives being written and read.
pub proof fn lemma_record_round_trip(r: Rec)
    requires
        write_fits(r.key, r.val),
    ensures
        parsed_record(record_bytes(r)) == Ok::<Rec, Corruption>(r),
        record_bytes(r).len() == record_len(r.key, r.val),
        frame::fits(record_bytes(r)),
{
    reveal(parsed_record);
    codec::lemma_u64(r.seq);
    codec::lemma_u32(r.key.len() as u32);
    lemma_payload(r.val);
    let tag = tag_of(r.val).0;
    let s4 = tag_of(r.val).1;
    let s3 = r.key + s4;
    let s2 = codec::le32(r.key.len() as u32) + s3;
    let s1 = seq![tag] + s2;
    assert(record_bytes(r) =~= codec::le64(r.seq) + s1);
    sstable::lemma_take_u64(r.seq, s1);
    sstable::lemma_taken(seq![tag], s2);
    sstable::lemma_take_u32(r.key.len() as u32, s3);
    sstable::lemma_taken(r.key, s4);
}

/// One decoded record.
#[derive(Debug)]
pub struct Record {
    /// The sequence number of the write.
    pub seq: SeqNo,
    /// The key written.
    pub key: Vec<u8>,
    /// What was written.
    pub value: InternalValue,
}

impl View for Record {
    type V = Rec;

    open spec fn view(&self) -> Rec {
        Rec { key: self.key@, seq: self.value.seq, val: self.value.kind@ }
    }
}

/// The bytes of a record.
pub fn encode_record(seq: SeqNo, key: &[u8], kind: &ValueKind) -> (buf: Vec<u8>)
    ensures
        buf@ == record_bytes(Rec { key: key@, seq, val: kind@ }),
{
    let mut buf: Vec<u8> = Vec::new();
    codec::put_u64(&mut buf, seq);
    assert(key@.len() == key.len());
    let key_len: u32 = #[verifier::truncate] (key.len() as u32);
    match kind {
        ValueKind::Value(v) => {
            buf.push(REC_TAG_PUT);
            codec::put_u32(&mut buf, key_len);
            codec::put_bytes(&mut buf, key);
            assert(v@.len() == v.len());
            let len: u32 = #[verifier::truncate] (v.len() as u32);
            codec::put_u32(&mut buf, len);
            codec::put_bytes(&mut buf, v);
        },
        ValueKind::Tombstone => {
            buf.push(REC_TAG_DELETE);
            codec::put_u32(&mut buf, key_len);
            codec::put_bytes(&mut buf, key);
        },
    }
    assert(buf@ =~= record_bytes(Rec { key: key@, seq, val: kind@ }));
    buf
}

/// Reads a record.
pub fn decode_record(buf: &[u8]) -> (r: std::result::Result<Record, Corruption>)
    ensures
        match parsed_record(buf@) {
            Ok(rec) => r is Ok && r->Ok_0@ == rec && r->Ok_0.seq == rec.seq,
            Err(e) => r is Err && r->Err_0 == e,
        },
{
    proof {
        reveal(parsed_record);
        reveal(parsed_payload);
    }
    let mut cur: Cursor<'_> = Cursor::new(buf);
    let seq: u64 = match cur.u64() {
        Ok(n) => n,
        Err(_) => {
            return Err(Corruption::RecordTruncated);
        },
    };
    let tag: u8 = match cur.u8() {
        Ok(t) => t,
        Err(_) => {
            return Err(Corruption::RecordTruncated);
        },
    };
    let key_len: u32 = match cur.u32() {
        Ok(n) => n,
        Err(_) => {
            return Err(Corruption::RecordTruncated);
        },
    };
    let key: Vec<u8> = match cur.take(key_len as usize) {
        Ok(k) => k,
        Err(_) => {
            return Err(Corruption::RecordTruncated);
        },
    };
    let kind: ValueKind = if tag == REC_TAG_PUT {
        let len: u32 = match cur.u32() {
            Ok(n) => n,
            Err(_) => {
                return Err(Corruption::RecordTruncated);
            },
        };
        match cur.take(len as usize) {
            Ok(v) => ValueKind::Value(v),
            Err(_) => {
                return Err(Corruption::RecordTruncated);
            },
        }
    } else if tag == REC_TAG_DELETE {
        ValueKind::Tombstone
    } else {
        return Err(Corruption::RecordTag { tag });
    };
    Ok(Record { seq, key, value: InternalValue { seq, kind } })
}

/// Where the parts of a record are: the sequence number, the tag, the length of the key, the
/// key, and for a put the length of the value and the value.
pub proof fn lemma_record_format(r: Rec)
    requires
        write_fits(r.key, r.val),
    ensures
        ({
            let s = record_bytes(r);
            let k = r.key.len() as int;
            &&& codec::u64_at(s, 0) == r.seq
            &&& codec::u32_at(s, 9) == k
            &&& s.subrange(13, 13 + k) == r.key
            &&& r.val is None ==> s[8] == 0 && s.len() == 13 + k
            &&& r.val matches Some(v) ==> {
                &&& s[8] == 1
                &&& codec::u32_at(s, 13 + k) == v.len()
                &&& s.skip(17 + k) == v
                &&& s.len() == 17 + k + v.len()
            }
        }),
{
    let s = record_bytes(r);
    let k = r.key.len() as int;
    codec::lemma_u64(r.seq);
    codec::lemma_u32(k as u32);
    assert(s.subrange(0, 8) =~= codec::le64(r.seq));
    assert(s.subrange(9, 13) =~= codec::le32(k as u32));
    assert(s.subrange(13, 13 + k) =~= r.key);
    if let Some(v) = r.val {
        codec::lemma_u32(v.len() as u32);
        assert(s.subrange(13 + k, 17 + k) =~= codec::le32(v.len() as u32));
        assert(s.skip(17 + k) =~= v);
    }
}

/// Only what is a record is read as one: its bytes begin with those of the record that is found.
pub proof fn lemma_reads_records_only(s: Seq<u8>)
    ensures
        parsed_record(s) matches Ok(r) ==> s.len() >= record_bytes(r).len() && s.take(
            record_bytes(r).len() as int,
        ) == record_bytes(r),
{
    reveal(parsed_record);
    reveal(parsed_payload);
    if let Ok(r) = parsed_record(s) {
        sstable::lemma_took_u64(s);
        let (seq, s1) = sstable::take_u64(s)->Ok_0;
        sstable::lemma_took(s1, 1);
        let (one, s2) = sstable::taken(s1, 1)->Ok_0;
        sstable::lemma_took_u32(s2);
        let (key_len, s3) = sstable::take_u32(s2)->Ok_0;
        sstable::lemma_took(s3, key_len as nat);
        let (key, s4) = sstable::taken(s3, key_len as nat)->Ok_0;
        codec::lemma_u64(seq);
        codec::lemma_u32(key_len);
        assert(one =~= seq![one[0]]);
        if let Some(v) = r.val {
            sstable::lemma_took_u32(s4);
            let (len, s5) = sstable::take_u32(s4)->Ok_0;
            sstable::lemma_took(s5, len as nat);
            codec::lemma_u32(len);
            let rest = sstable::taken(s5, len as nat)->Ok_0.1;
            assert(s =~= record_bytes(r) + rest);
        } else {
            assert(s =~= record_bytes(r) + s4);
        }
        assert(s.take(record_bytes(r).len() as int) =~= record_bytes(r));
    }
}

/// Which writes the log can take: all whose record has a length that fits in 32 bits.
pub proof fn lemma_write_fits(key: Seq<u8>, val: Option<Seq<u8>>)
    ensures
        write_fits(key, val) <==> key.len() + (match val {
            Some(v) => 17 + v.len(),
            None => 13,
        }) <= 0xffff_ffff,
{
}

} // verus!
