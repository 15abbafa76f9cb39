//! The layout of one frame, and of a run of frames.
//!
//! A frame is a four-byte big-endian length followed by that many payload
//! bytes. Frames follow each other without padding, so the only way to find a
//! frame is to know the offset at which it starts.

use vstd::prelude::*;
use crate::error::SegmentError;

verus! {

/// Number of bytes in the length prefix of a frame.
pub const HEADER_LENGTH: u32 = 4;

/// The four-byte big-endian form of `n`.
pub open spec fn length_prefix(n: u32) -> Seq<u8> {
    seq![
        (n / 0x100_0000) as u8,
        (n / 0x1_0000 % 0x100) as u8,
        (n / 0x100 % 0x100) as u8,
        (n % 0x100) as u8,
    ]
}

/// The number that four big-endian bytes stand for.
pub open spec fn prefix_value(header: Seq<u8>) -> nat
    recommends
        header.len() == 4,
{
    (header[0] as nat) * 0x100_0000 + (header[1] as nat) * 0x1_0000 + (header[2] as nat) * 0x100
        + (header[3] as nat)
}

/// Whether a payload of this many bytes can be framed: the length prefix
/// has to be able to count it.
pub open spec fn fits_prefix(payload_length: nat) -> bool {
    payload_length <= u32::MAX
}

/// The frame that carries `payload`.
pub open spec fn frame(payload: Seq<u8>) -> Seq<u8>
    recommends
        fits_prefix(payload.len()),
{
    length_prefix(payload.len() as u32) + payload
}

/// The payload of the frame that starts at `offset` in `image`, if the image
/// holds all of that frame.
pub open spec fn frame_at(image: Seq<u8>, offset: int) -> Option<Seq<u8>> {
    if 0 <= offset && offset + HEADER_LENGTH <= image.len() {
        let start = offset + HEADER_LENGTH;
        let length = prefix_value(image.subrange(offset, start));
        if start + length <= image.len() {
            Some(image.subrange(start, start + length))
        } else {
            None
        }
    } else {
        None
    }
}

/// The byte stream made of the frames of `payloads`, first to last.
pub open spec fn frames(payloads: Seq<Seq<u8>>) -> Seq<u8>
    decreases payloads.len(),
{
    if payloads.len() == 0 {
        Seq::empty()
    } else {
        frames(payloads.drop_last()) + frame(payloads.last())
    }
}

/// The offset at which the frame of `payloads[index]` starts in
/// `frames(payloads)`: the length of all the frames before it.
pub open spec fn frame_offset(payloads: Seq<Seq<u8>>, index: int) -> nat
    recommends
        0 <= index <= payloads.len(),
{
    frames(payloads.take(index)).len()
}

/// Decoding a length prefix gives back the number it was made from.
pub proof fn lemma_prefix_round_trip(n: u32)
    ensures
        length_prefix(n).len() == HEADER_LENGTH,
        prefix_value(length_prefix(n)) == n,
{
}

/// A frame that was appended to a byte stream is found again at the offset
/// where the stream used to end, whatever is appended after it.
pub proof fn lemma_frame_at_end(before: Seq<u8>, payload: Seq<u8>, after: Seq<u8>)
    requires
        fits_prefix(payload.len()),
    ensures
        frame_at(before + frame(payload) + after, before.len() as int) == Some(payload),
{
    let image = before + frame(payload) + after;
    let offset = before.len() as int;
    let start = offset + HEADER_LENGTH;
    lemma_prefix_round_trip(payload.len() as u32);
    assert(image.subrange(offset, start) =~= length_prefix(payload.len() as u32));
    assert(image.subrange(start, start + payload.len()) =~= payload);
}

/// Appending to a byte stream changes no frame that the stream already holds
/// in full.
pub proof fn lemma_frame_at_prefix(image: Seq<u8>, after: Seq<u8>, offset: int)
    requires
        frame_at(image, offset) is Some,
    ensures
        frame_at(image + after, offset) == frame_at(image, offset),
{
    let start = offset + HEADER_LENGTH;
    assert((image + after).subrange(offset, start) =~= image.subrange(offset, start));
    let length = prefix_value(image.subrange(offset, start));
    assert((image + after).subrange(start, start + length) =~= image.subrange(
        start,
        start + length,
    ));
}

/// The frames of two runs of payloads, one after the other, are the frames
/// of the two runs joined.
pub proof fn lemma_frames_concat(first: Seq<Seq<u8>>, second: Seq<Seq<u8>>)
    ensures
        frames(first + second) == frames(first) + frames(second),
    decreases second.len(),
{
    if second.len() == 0 {
        assert(first + second =~= first);
    } else {
        lemma_frames_concat(first, second.drop_last());
        assert((first + second).drop_last() =~= first + second.drop_last());
        assert((first + second).last() == second.last());
    }
}

/// Frames start one after the other: each offset is the one before it plus
/// the length of the frame that lies between them, so offsets grow strictly.
pub proof fn lemma_frame_offset_step(payloads: Seq<Seq<u8>>, index: int)
    requires
        0 <= index < payloads.len(),
    ensures
        frame_offset(payloads, 0) == 0,
        frame_offset(payloads, index + 1) == frame_offset(payloads, index) + HEADER_LENGTH
            + payloads[index].len(),
        frame_offset(payloads, index) < frame_offset(payloads, index + 1),
        frame_offset(payloads, payloads.len() as int) == frames(payloads).len(),
{
    let upto = payloads.take(index + 1);
    assert(upto.drop_last() =~= payloads.take(index));
    assert(upto.last() == payloads[index]);
    assert(payloads.take(0) =~= Seq::<Seq<u8>>::empty());
    assert(payloads.take(payloads.len() as int) =~= payloads);
}

/// Frames do not overlap: a frame ends no later than any frame behind it
/// starts. Offsets therefore grow strictly along the run.
pub proof fn lemma_frame_offsets_increase(payloads: Seq<Seq<u8>>, first: int, second: int)
    requires
        0 <= first < second <= payloads.len(),
    ensures
        frame_offset(payloads, first) + HEADER_LENGTH + payloads[first].len() <= frame_offset(
            payloads,
            second,
        ),
        frame_offset(payloads, first) < frame_offset(payloads, second),
    decreases second - first,
{
    lemma_frame_offset_step(payloads, first);
    if first + 1 < second {
        lemma_frame_offsets_increase(payloads, first + 1, second);
    }
}

/// Every frame of a run of frames is found again at its offset.
pub proof fn lemma_frame_at_offset(payloads: Seq<Seq<u8>>, index: int)
    requires
        0 <= index < payloads.len(),
        fits_prefix(payloads[index].len()),
    ensures
        frame_at(frames(payloads), frame_offset(payloads, index) as int) == Some(payloads[index]),
{
    let before = payloads.take(index);
    let one = seq![payloads[index]];
    let after = payloads.skip(index + 1);
    assert(payloads =~= before + one + after);
    lemma_frames_concat(before + one, after);
    lemma_frames_concat(before, one);
    assert(one.drop_last() =~= Seq::<Seq<u8>>::empty());
    assert(frames(one) =~= frame(payloads[index])) by {
        assert(one.last() == payloads[index]);
        assert(frames(one.drop_last()) =~= Seq::<u8>::empty());
    }
    lemma_frame_at_end(frames(before), payloads[index], frames(after));
}

/// Encodes `n` as the length prefix of a frame.
pub fn encode_length(n: u32) -> (header: [u8; 4])
    ensures
        header@ == length_prefix(n),
{
    let header: [u8; 4] = [
        (n / 0x100_0000) as u8,
        (n / 0x1_0000 % 0x100) as u8,
        (n / 0x100 % 0x100) as u8,
        (n % 0x100) as u8,
    ];
    assert(header@ =~= length_prefix(n));
    header
}

/// Reads the payload length out of a length prefix.
pub fn decode_length(header: &[u8; 4]) -> (n: u32)
    ensures
        n == prefix_value(header@),
{
    let b0: u32 = header[0] as u32;
    let b1: u32 = header[1] as u32;
    let b2: u32 = header[2] as u32;
    let b3: u32 = header[3] as u32;
    b0 * 0x100_0000 + b1 * 0x1_0000 + b2 * 0x100 + b3
}

/// Appends the frame of `payload` to `sink`.
pub fn append_frame(sink: &mut Vec<u8>, payload: &[u8])
    requires
        fits_prefix(payload@.len()),
    ensures
        final(sink)@ == old(sink)@ + frame(payload@),
{
    let header = encode_length(payload.len() as u32);
    sink.push(header[0]);
    sink.push(header[1]);
    sink.push(header[2]);
    sink.push(header[3]);
    sink.extend_from_slice(payload);
    assert(sink@ =~= old(sink)@ + frame(payload@));
}

/// Finds the payload of the frame that starts at `offset` in `image`.
///
/// The offset is taken on trust: the bytes found there are read as a length
/// prefix whether or not a frame was ever written at that place. The only
/// failure is an image that ends before the frame does.
pub fn read_frame(image: &[u8], offset: u64) -> (result: Result<&[u8], SegmentError>)
    ensures
        match frame_at(image@, offset as int) {
            Some(payload) => result matches Ok(found) && found@ == payload,
            None => result == Err::<&[u8], SegmentError>(SegmentError::ShortRead),
        },
{
    let total = image.len();
    if offset > total as u64 || total - (offset as usize) < 4 {
        return Err(SegmentError::ShortRead);
    }
    let at = offset as usize;
    let start = at + 4;
    let header: [u8; 4] = [image[at], image[at + 1], image[at + 2], image[at + 3]];
    assert(header@ =~= image@.subrange(at as int, start as int));
    let length = decode_length(&header);
    if length as u64 > (total - start) as u64 {
        return Err(SegmentError::ShortRead);
    }
    let end = start + length as usize;
    Ok(vstd::slice::slice_subrange(image, start, end))
}

} // verus!
