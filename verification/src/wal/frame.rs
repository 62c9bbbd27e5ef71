//! WAL record framing.
//!
//! Every record in the log is wrapped in a fixed 8-byte header followed by the
//! opaque payload:
//!
//! ```text
//! payload_len: u32 LE | crc32(payload): u32 LE | payload
//! ```
//!
//! The checksum covers only the payload. Recovery stops at the first frame that
//! is short (its header or payload runs past the end) or whose payload does not
//! match its checksum.

use vstd::prelude::*;

use crate::checksum;
use crate::codec;

verus! {

/// Size of the little-endian `u32` payload-length field.
pub const LEN_SZ: usize = 4;

/// Size of the little-endian `u32` checksum field.
pub const CRC_SZ: usize = 4;

/// Total per-record framing overhead (length and checksum).
pub const HEADER_SZ: usize = 8;

/// The successful decode of one frame sitting at some offset in a buffer.
#[derive(Debug, Clone, PartialEq, Eq)]
pub struct DecodedFrame {
    /// The record payload, copied out of the source buffer.
    pub payload: Vec<u8>,
    /// Total on-disk size of this frame, header included.
    pub total_len: usize,
}

/// Why a frame could not be decoded.
#[derive(Debug, Clone, Copy, PartialEq, Eq, Structural)]
pub enum FrameError {
    /// The header or the declared payload runs past the end of the buffer.
    Truncated,
    /// The frame is fully present but its payload does not match the checksum.
    BadCrc,
}

/// The bytes of the frame that holds `payload`.
pub open spec fn frame_of(payload: Seq<u8>) -> Seq<u8> {
    codec::le32(payload.len() as u32) + codec::le32(checksum::crc32(payload)) + payload
}

/// The frames of `records`, back to back.
pub open spec fn frames_of(records: Seq<Seq<u8>>) -> Seq<u8>
    decreases records.len(),
{
    if records.len() == 0 {
        Seq::empty()
    } else {
        frame_of(records[0]) + frames_of(records.drop_first())
    }
}

/// What the frame at the start of `buf` holds: its payload and its total length.
pub open spec fn head_frame(buf: Seq<u8>) -> Result<(Seq<u8>, nat), FrameError> {
    if buf.len() < 8 {
        Err(FrameError::Truncated)
    } else {
        let n = codec::u32_at(buf, 0) as nat;
        if 8 + n > buf.len() {
            Err(FrameError::Truncated)
        } else if checksum::crc32(buf.subrange(8, 8 + n as int)) != codec::u32_at(buf, 4) {
            Err(FrameError::BadCrc)
        } else {
            Ok((buf.subrange(8, 8 + n as int), 8 + n))
        }
    }
}

/// What the frame at `offset` in `buf` holds: its payload and its total length.
pub open spec fn decoded(buf: Seq<u8>, offset: nat) -> Result<(Seq<u8>, nat), FrameError> {
    if offset + 8 > buf.len() {
        Err(FrameError::Truncated)
    } else {
        head_frame(buf.skip(offset as int))
    }
}

/// A record that a frame's length field can describe.
pub open spec fn fits(payload: Seq<u8>) -> bool {
    payload.len() <= u32::MAX
}

/// Every record can be framed.
pub open spec fn all_fit(records: Seq<Seq<u8>>) -> bool {
    forall|i: int| 0 <= i < records.len() ==> fits(#[trigger] records[i])
}

/// A frame followed by anything decodes to its payload and its length.
pub proof fn lemma_head_frame(payload: Seq<u8>, rest: Seq<u8>)
    requires
        fits(payload),
    ensures
        head_frame(frame_of(payload) + rest) == Ok::<(Seq<u8>, nat), FrameError>(
            (payload, 8 + payload.len()),
        ),
        frame_of(payload).len() == 8 + payload.len(),
{
    codec::lemma_u32(payload.len() as u32);
    codec::lemma_u32(checksum::crc32(payload));
    let buf = frame_of(payload) + rest;
    assert(buf.subrange(0, 4) =~= codec::le32(payload.len() as u32));
    assert(buf.subrange(4, 8) =~= codec::le32(checksum::crc32(payload)));
    assert(buf.subrange(8, 8 + payload.len() as int) =~= payload);
}

/// A proper prefix of a frame is short.
pub proof fn lemma_head_frame_cut(payload: Seq<u8>, cut: Seq<u8>)
    requires
        fits(payload),
        cut.len() < frame_of(payload).len(),
        cut == frame_of(payload).take(cut.len() as int),
    ensures
        head_frame(cut) == Err::<(Seq<u8>, nat), FrameError>(FrameError::Truncated),
{
    codec::lemma_u32(payload.len() as u32);
    codec::lemma_u32(checksum::crc32(payload));
    if cut.len() >= 8 {
        assert(cut.subrange(0, 4) =~= codec::le32(payload.len() as u32));
    }
}

/// A payload survives being framed and decoded, wherever in a buffer its frame stands.
pub proof fn lemma_decode_round_trip(before: Seq<u8>, payload: Seq<u8>, after: Seq<u8>)
    requires
        fits(payload),
    ensures
        decoded(before + frame_of(payload) + after, before.len()) == Ok::<
            (Seq<u8>, nat),
            FrameError,
        >((payload, frame_of(payload).len())),
{
    lemma_head_frame(payload, after);
    let buf = before + frame_of(payload) + after;
    assert(buf.skip(before.len() as int) =~= frame_of(payload) + after);
}

/// A frame at the end of a buffer that is cut off anywhere, in its header or in its payload,
/// is short.
pub proof fn lemma_decode_cut(before: Seq<u8>, payload: Seq<u8>, left: nat)
    requires
        fits(payload),
        left < frame_of(payload).len(),
    ensures
        decoded(before + frame_of(payload).take(left as int), before.len()) == Err::<
            (Seq<u8>, nat),
            FrameError,
        >(FrameError::Truncated),
{
    let cut = frame_of(payload).take(left as int);
    lemma_head_frame_cut(payload, cut);
    assert((before + cut).skip(before.len() as int) =~= cut);
}

/// Where the payload or the checksum of a frame was damaged, the frame is bad, unless the
/// checksum that stands there is that of the payload that stands there. So it is bad
/// wherever only the checksum was damaged, and where only the payload was, exactly if the
/// two payloads have different checksums.
pub proof fn lemma_decode_damaged(
    before: Seq<u8>,
    payload: Seq<u8>,
    damaged: Seq<u8>,
    after: Seq<u8>,
)
    requires
        fits(payload),
        damaged.len() == frame_of(payload).len(),
        damaged.take(4) == frame_of(payload).take(4),
    ensures
        ({
            let found = decoded(before + damaged + after, before.len());
            let bad = Err::<(Seq<u8>, nat), FrameError>(FrameError::BadCrc);
            &&& checksum::crc32(damaged.skip(8)) != codec::u32_at(damaged, 4) ==> found == bad
            &&& checksum::crc32(damaged.skip(8)) == codec::u32_at(damaged, 4) ==> found == Ok::<
                (Seq<u8>, nat),
                FrameError,
            >((damaged.skip(8), damaged.len()))
            &&& damaged.skip(8) == payload && damaged != frame_of(payload) ==> found == bad
            &&& damaged.take(8) == frame_of(payload).take(8) ==> (found == bad
                <==> checksum::crc32(damaged.skip(8)) != checksum::crc32(payload))
        }),
{
    codec::lemma_u32(payload.len() as u32);
    codec::lemma_u32(checksum::crc32(payload));
    let frame = frame_of(payload);
    let tail = damaged + after;
    assert((before + damaged + after).skip(before.len() as int) =~= tail);
    assert(tail.subrange(0, 4) =~= damaged.take(4));
    assert(frame.take(4) =~= codec::le32(payload.len() as u32));
    assert(tail.subrange(4, 8) =~= damaged.subrange(4, 8));
    assert(tail.subrange(8, 8 + payload.len() as int) =~= damaged.skip(8));
    codec::lemma_bytes_u32(damaged.subrange(4, 8));
    if damaged.skip(8) == payload && checksum::crc32(payload) == codec::u32_at(damaged, 4) {
        assert(damaged =~= damaged.take(4) + damaged.subrange(4, 8) + damaged.skip(8));
    }
    if damaged.take(8) == frame.take(8) {
        assert(frame.take(8).subrange(4, 8) =~= codec::le32(checksum::crc32(payload)));
        assert(damaged.take(8).subrange(4, 8) =~= damaged.subrange(4, 8));
    }
}

/// What decodes is a frame.
pub proof fn lemma_head_frame_is_frame(buf: Seq<u8>)
    requires
        head_frame(buf) is Ok,
    ensures
        fits(head_frame(buf)->Ok_0.0),
        head_frame(buf)->Ok_0.1 == 8 + head_frame(buf)->Ok_0.0.len(),
        head_frame(buf)->Ok_0.1 <= buf.len(),
        buf.take(head_frame(buf)->Ok_0.1 as int) == frame_of(head_frame(buf)->Ok_0.0),
{
    let (payload, n) = head_frame(buf)->Ok_0;
    codec::lemma_bytes_u32(buf.subrange(0, 4));
    codec::lemma_bytes_u32(buf.subrange(4, 8));
    assert(codec::le32(payload.len() as u32) == buf.subrange(0, 4));
    assert(codec::le32(checksum::crc32(payload)) == buf.subrange(4, 8));
    assert(buf.take(n as int) =~= frame_of(payload));
}

/// The frames of a concatenation are the frames of its parts in order.
pub proof fn lemma_frames_concat(a: Seq<Seq<u8>>, b: Seq<Seq<u8>>)
    ensures
        frames_of(a + b) == frames_of(a) + frames_of(b),
    decreases a.len(),
{
    if a.len() == 0 {
        assert(a + b =~= b);
        assert(frames_of(a) + frames_of(b) =~= frames_of(b));
    } else {
        lemma_frames_concat(a.drop_first(), b);
        assert((a + b).drop_first() =~= a.drop_first() + b);
        assert(frames_of(a + b) =~= frames_of(a) + frames_of(b));
    }
}

/// The frames of one record more.
pub proof fn lemma_frames_push(a: Seq<Seq<u8>>, payload: Seq<u8>)
    ensures
        frames_of(a.push(payload)) == frames_of(a) + frame_of(payload),
{
    let one = seq![payload];
    lemma_frames_concat(a, one);
    assert(a + one =~= a.push(payload));
    assert(one.drop_first() =~= Seq::empty());
    assert(frames_of(one.drop_first()) =~= Seq::empty());
    assert(frames_of(one) =~= frame_of(payload));
}

/// Encodes `payload` into a complete framed record ready to append.
pub fn encode(payload: &[u8]) -> (frame: Vec<u8>)
    ensures
        frame@ == frame_of(payload@),
{
    let crc: u32 = checksum::crc32_of(payload);
    let mut frame: Vec<u8> = Vec::new();
    codec::put_u32(&mut frame, #[verifier::truncate] (payload.len() as u32));
    codec::put_u32(&mut frame, crc);
    codec::put_bytes(&mut frame, payload);
    assert(frame@ =~= frame_of(payload@));
    frame
}

/// Decodes the frame that starts at `offset` in `buf`.
pub fn decode(buf: &[u8], offset: usize) -> (r: Result<DecodedFrame, FrameError>)
    ensures
        match decoded(buf@, offset as nat) {
            Ok((payload, total)) => r is Ok && r->Ok_0.payload@ == payload && r->Ok_0.total_len
                == total,
            Err(e) => r == Err::<DecodedFrame, FrameError>(e),
        },
{
    assert(buf@.len() == buf.len());
    let header_end: usize = match offset.checked_add(HEADER_SZ) {
        Some(end) => end,
        None => {
            return Err(FrameError::Truncated);
        },
    };
    if header_end > buf.len() {
        return Err(FrameError::Truncated);
    }
    let payload_len: u32 = codec::get_u32(buf, offset);
    let want_crc: u32 = codec::get_u32(buf, offset + LEN_SZ);
    proof {
        let tail = buf@.skip(offset as int);
        assert(tail.subrange(0, 4) =~= buf@.subrange(offset as int, offset + 4));
        assert(tail.subrange(4, 8) =~= buf@.subrange(offset + 4, offset + 8));
    }
    if payload_len as usize > buf.len() - header_end {
        return Err(FrameError::Truncated);
    }
    let payload_end: usize = header_end + payload_len as usize;
    assert(buf@.subrange(header_end as int, payload_end as int) =~= buf@.skip(
        offset as int,
    ).subrange(8, 8 + payload_len as int));
    let payload: Vec<u8> = codec::copy_range(buf, header_end, payload_end);
    if checksum::crc32_of(&payload) != want_crc {
        return Err(FrameError::BadCrc);
    }
    Ok(DecodedFrame { payload, total_len: HEADER_SZ + payload_len as usize })
}

/// Which payloads can be framed: all whose length fits in 32 bits. And where the parts of a
/// frame are: the length of the payload, its checksum, and the payload.
pub proof fn lemma_frame_format(payload: Seq<u8>)
    ensures
        fits(payload) <==> payload.len() <= 0xffff_ffff,
        fits(payload) ==> {
            let s = frame_of(payload);
            &&& s.len() == 8 + payload.len()
            &&& codec::u32_at(s, 0) == payload.len()
            &&& codec::u32_at(s, 4) == checksum::crc32(payload)
            &&& s.skip(8) == payload
        },
{
    let s = frame_of(payload);
    codec::lemma_u32(payload.len() as u32);
    codec::lemma_u32(checksum::crc32(payload));
    assert(s.subrange(0, 4) =~= codec::le32(payload.len() as u32));
    assert(s.subrange(4, 8) =~= codec::le32(checksum::crc32(payload)));
    assert(s.skip(8) =~= payload);
}

} // verus!
