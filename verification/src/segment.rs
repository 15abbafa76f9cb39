//! The segment: a write cursor over an append-only run of frames.
//!
//! A segment does not hold its bytes. Writing appends one frame to a byte
//! sink that the caller hands in, and reading looks a frame up in the bytes
//! that the caller has. What the segment keeps is its identity, the base
//! offset and the file name made from it, and the position at which the next
//! frame will start.

use core::marker::PhantomData;
use vstd::prelude::*;
use crate::error::SegmentError;
use crate::frame::{
    append_frame, fits_prefix, frame, frame_at, frame_offset, frames, lemma_frame_at_offset,
    lemma_frame_offset_step, lemma_frame_offsets_increase, read_frame, HEADER_LENGTH,
};
use crate::name::{file_name, lemma_name_round_trip, name_offset, parse_file_name, segment_name};
use crate::storable::Storable;

verus! {

/// What a segment is to its callers.
pub struct SegmentView {
    /// The number that identifies the segment and names its file.
    pub base_offset: u64,
    /// The offset at which the next frame will start.
    pub write_position: u64,
    /// The name of the segment's file, without the directory that holds it.
    pub path: Seq<char>,
}

impl SegmentView {
    /// The segment that `Segment::new` makes.
    pub open spec fn fresh(base_offset: u64) -> SegmentView {
        SegmentView { base_offset, write_position: 0, path: segment_name(base_offset) }
    }

    /// The segment that `Segment::reconstruct` makes of a file name and the
    /// length of the file, where the name stands for a base offset.
    pub open spec fn reconstructed(name: Seq<char>, length: u64) -> Option<SegmentView> {
        match name_offset(name) {
            Some(base_offset) => Some(
                SegmentView { base_offset, write_position: length, path: name },
            ),
            None => None,
        }
    }

    /// The segment after a frame with this payload was written.
    pub open spec fn appended(self, payload: Seq<u8>) -> SegmentView
        recommends
            self.write_position + HEADER_LENGTH + payload.len() <= u64::MAX,
    {
        SegmentView {
            write_position: (self.write_position + HEADER_LENGTH + payload.len()) as u64,
            ..self
        }
    }

    /// The file name of a segment stands for its base offset.
    pub open spec fn well_formed(self) -> bool {
        name_offset(self.path) == Some(self.base_offset)
    }
}

/// The record that starts at `offset` in `image`.
///
/// The image has to hold the whole frame, and the payload of the frame has
/// to describe a record. No more is asked of the offset: bytes that were
/// never written as a frame are read as one all the same.
pub open spec fn record_at<T: Storable>(image: Seq<u8>, offset: int) -> Result<T::V, SegmentError> {
    match frame_at(image, offset) {
        Some(payload) => match T::decoding(payload) {
            Some(value) => Ok(value),
            None => Err(SegmentError::Deserialization),
        },
        None => Err(SegmentError::ShortRead),
    }
}

/// Whether every one of `records` has a payload.
pub open spec fn all_writable<T: Storable>(records: Seq<T::V>) -> bool {
    forall|i: int| 0 <= i < records.len() ==> (#[trigger] T::encoding(records[i])) is Some
}

/// The payloads of `records`, in their order.
pub open spec fn payloads_of<T: Storable>(records: Seq<T::V>) -> Seq<Seq<u8>>
    recommends
        all_writable::<T>(records),
{
    Seq::new(records.len(), |i: int| T::encoding(records[i])->Some_0)
}

/// The bytes that an empty sink holds after `records` were written to it,
/// first to last.
pub open spec fn image_of<T: Storable>(records: Seq<T::V>) -> Seq<u8>
    recommends
        all_writable::<T>(records),
{
    frames(payloads_of::<T>(records))
}

/// The write position of a segment that was new before the first `count` of
/// `records` were written to it.
pub open spec fn position_after<T: Storable>(records: Seq<T::V>, count: int) -> nat
    recommends
        all_writable::<T>(records),
        0 <= count <= records.len(),
{
    frame_offset(payloads_of::<T>(records), count)
}

/// Round trip: a record written at the start of an empty segment is the
/// record read at offset zero.
pub proof fn lemma_round_trip<T: Storable>(record: T::V)
    requires
        T::encoding(record) is Some,
    ensures
        record_at::<T>(frame(T::encoding(record)->Some_0), 0) == Ok::<T::V, SegmentError>(record),
        image_of::<T>(seq![record]) == frame(T::encoding(record)->Some_0),
{
    let payload = T::encoding(record)->Some_0;
    let records = seq![record];
    T::lemma_encoding(record);
    assert(payloads_of::<T>(records) =~= seq![payload]);
    assert(seq![payload].take(0) =~= Seq::<Seq<u8>>::empty());
    lemma_frame_at_offset(seq![payload], 0);
    assert(seq![payload].drop_last() =~= Seq::<Seq<u8>>::empty());
    assert(frames(seq![payload]) =~= frame(payload));
}

/// One more write: the image grows by the frame of the record, and the
/// position by the length of that frame.
pub proof fn lemma_write_extends<T: Storable>(records: Seq<T::V>, record: T::V)
    requires
        all_writable::<T>(records),
        T::encoding(record) is Some,
    ensures
        all_writable::<T>(records.push(record)),
        image_of::<T>(records.push(record)) == image_of::<T>(records) + frame(
            T::encoding(record)->Some_0,
        ),
        position_after::<T>(records.push(record), records.len() as int + 1) == position_after::<T>(
            records,
            records.len() as int,
        ) + HEADER_LENGTH + T::encoding(record)->Some_0.len(),
        position_after::<T>(records, records.len() as int) == image_of::<T>(records).len(),
{
    let more = records.push(record);
    assert forall|i: int| 0 <= i < more.len() implies (#[trigger] T::encoding(more[i])) is Some by {
        if i < records.len() {
            assert(more[i] == records[i]);
        }
    }
    let payloads = payloads_of::<T>(more);
    assert(payloads.drop_last() =~= payloads_of::<T>(records));
    assert(payloads.last() == T::encoding(record)->Some_0);
    assert(payloads.take(more.len() as int) =~= payloads);
    assert(payloads_of::<T>(records).take(records.len() as int) =~= payloads_of::<T>(records));
}

/// Sequential append: records written one after the other start at strictly
/// growing offsets, the first at zero and each next one further by the total
/// length of the record before it, and each is the record read at the offset
/// where it starts.
pub proof fn lemma_sequential_append<T: Storable>(records: Seq<T::V>, index: int)
    requires
        all_writable::<T>(records),
        0 <= index < records.len(),
    ensures
        position_after::<T>(records, 0) == 0,
        position_after::<T>(records, index + 1) == position_after::<T>(records, index)
            + HEADER_LENGTH + T::encoding(records[index])->Some_0.len(),
        position_after::<T>(records, index) < position_after::<T>(records, index + 1),
        record_at::<T>(image_of::<T>(records), position_after::<T>(records, index) as int) == Ok::<
            T::V,
            SegmentError,
        >(records[index]),
{
    let payloads = payloads_of::<T>(records);
    T::lemma_encoding(records[index]);
    lemma_frame_offset_step(payloads, index);
    lemma_frame_at_offset(payloads, index);
}

/// Offsets grow strictly: of two records written one some time after the
/// other, the later one starts behind the end of the earlier one.
pub proof fn lemma_positions_increase<T: Storable>(records: Seq<T::V>, first: int, second: int)
    requires
        all_writable::<T>(records),
        0 <= first < second <= records.len(),
    ensures
        position_after::<T>(records, first) + HEADER_LENGTH + T::encoding(
            records[first],
        )->Some_0.len() <= position_after::<T>(records, second),
        position_after::<T>(records, first) < position_after::<T>(records, second),
{
    lemma_frame_offsets_increase(payloads_of::<T>(records), first, second);
}

/// Reconstruction: the name and the write position of a segment give the
/// segment back. So a segment that was new, had `K` bytes written to it and
/// is made again from its file name and the file's length `K` has the base
/// offset it had, and `K` as its write position.
pub proof fn lemma_reconstruction(segment: SegmentView)
    requires
        segment.well_formed(),
    ensures
        SegmentView::reconstructed(segment.path, segment.write_position) == Some(segment),
{
}

/// Reconstruction after writes: a segment that was new, had `records`
/// written to it and is made again from its file name and the length of what
/// was written has the base offset it had, and as its write position exactly
/// the number of bytes written.
pub proof fn lemma_reconstruction_after_writes<T: Storable>(base_offset: u64, records: Seq<T::V>)
    requires
        all_writable::<T>(records),
        image_of::<T>(records).len() <= u64::MAX,
    ensures
        position_after::<T>(records, records.len() as int) == image_of::<T>(records).len(),
        SegmentView::reconstructed(
            SegmentView::fresh(base_offset).path,
            image_of::<T>(records).len() as u64,
        ) == Some(
            SegmentView {
                base_offset,
                write_position: position_after::<T>(records, records.len() as int) as u64,
                path: segment_name(base_offset),
            },
        ),
{
    let payloads = payloads_of::<T>(records);
    assert(payloads.take(records.len() as int) =~= payloads);
    lemma_name_round_trip(base_offset);
}

/// The segment made from the name of a new segment has that segment's base
/// offset.
pub proof fn lemma_reconstruction_of_fresh(base_offset: u64, length: u64)
    ensures
        SegmentView::fresh(base_offset).well_formed(),
        SegmentView::reconstructed(segment_name(base_offset), length) == Some(
            SegmentView { write_position: length, ..SegmentView::fresh(base_offset) },
        ),
{
    lemma_name_round_trip(base_offset);
}

/// An append cursor for records of type `T`.
#[derive(Debug)]
pub struct Segment<T> {
    base_offset: u64,
    write_position: u64,
    path: String,
    _marker: PhantomData<T>,
}

impl<T> View for Segment<T> {
    type V = SegmentView;

    closed spec fn view(&self) -> SegmentView {
        SegmentView {
            base_offset: self.base_offset,
            write_position: self.write_position,
            path: self.path@,
        }
    }
}

impl<T> Clone for Segment<T> {
    fn clone(&self) -> (copy: Self)
        ensures
            copy@ == self@,
    {
        proof {
            use_type_invariant(self);
        }
        Segment {
            base_offset: self.base_offset,
            write_position: self.write_position,
            path: self.path.clone(),
            _marker: PhantomData,
        }
    }
}

impl<T> Segment<T> {
    #[verifier::type_invariant]
    spec fn named_by_base_offset(&self) -> bool {
        self@.well_formed()
    }

    /// A segment for a file that exists: `name` is the name of the file and
    /// `length` the number of bytes in it. The next frame goes right behind
    /// the last byte of the file.
    pub fn reconstruct(name: &str, length: u64) -> (result: Result<Self, SegmentError>)
        ensures
            match SegmentView::reconstructed(name@, length) {
                Some(view) => result matches Ok(segment) && segment@ == view && view.well_formed(),
                None => result matches Err(error) && error == SegmentError::MalformedName,
            },
    {
        match parse_file_name(name) {
            Some(base_offset) => Ok(
                Segment {
                    base_offset,
                    write_position: length,
                    path: name.to_owned(),
                    _marker: PhantomData,
                },
            ),
            None => Err(SegmentError::MalformedName),
        }
    }
}

impl<T: Storable> Segment<T> {
    /// Number of bytes of the length prefix of a frame.
    pub const LENGTH: u32 = 4;

    /// A segment with nothing written to it.
    pub fn new(base_offset: u64) -> (segment: Self)
        ensures
            segment@ == SegmentView::fresh(base_offset),
            segment@.well_formed(),
    {
        proof {
            lemma_name_round_trip(base_offset);
        }
        Segment { base_offset, write_position: 0, path: file_name(base_offset), _marker: PhantomData }
    }

    /// The number that identifies the segment.
    pub fn base_offset(&self) -> (base_offset: u64)
        ensures
            base_offset == self@.base_offset,
            self@.well_formed(),
    {
        proof {
            use_type_invariant(self);
        }
        self.base_offset
    }

    /// The offset at which the next frame will start.
    pub fn write_position(&self) -> (position: u64)
        ensures
            position == self@.write_position,
    {
        self.write_position
    }

    /// The name of the segment's file, as it stands in the directory that
    /// holds the segment.
    pub fn path(&self) -> (path: &String)
        ensures
            path@ == self@.path,
            self@.well_formed(),
    {
        proof {
            use_type_invariant(self);
        }
        &self.path
    }

    /// Appends the frame of `payload` to `sink` and moves the write position
    /// behind it.
    pub fn append(&mut self, payload: &[u8], sink: &mut Vec<u8>) -> (position: u64)
        requires
            fits_prefix(payload@.len()),
            old(self)@.write_position + HEADER_LENGTH + payload@.len() <= u64::MAX,
        ensures
            final(self)@ == old(self)@.appended(payload@),
            position == final(self)@.write_position,
            final(sink)@ == old(sink)@ + frame(payload@),
    {
        proof {
            use_type_invariant(&*self);
        }
        append_frame(sink, payload);
        self.write_position = self.write_position + HEADER_LENGTH as u64 + payload.len() as u64;
        self.write_position
    }

    /// Writes `record` as one frame at the end of `sink` and returns the new
    /// write position.
    ///
    /// A record without a payload is refused, and then nothing changes.
    pub fn write(&mut self, record: &T, sink: &mut Vec<u8>) -> (result: Result<u64, SegmentError>)
        requires
            T::encoding(record@) matches Some(payload) ==> old(self)@.write_position
                + HEADER_LENGTH + payload.len() <= u64::MAX,
        ensures
            match T::encoding(record@) {
                Some(payload) => {
                    &&& final(self)@ == old(self)@.appended(payload)
                    &&& result == Ok::<u64, SegmentError>(final(self)@.write_position)
                    &&& final(self)@.write_position == old(self)@.write_position + HEADER_LENGTH
                        + payload.len()
                    &&& final(sink)@ == old(sink)@ + frame(payload)
                },
                None => {
                    &&& final(self)@ == old(self)@
                    &&& result == Err::<u64, SegmentError>(SegmentError::Serialization)
                    &&& final(sink)@ == old(sink)@
                },
            },
    {
        proof {
            T::lemma_encoding(record@);
        }
        match record.serialize() {
            Ok(payload) => Ok(self.append(payload.as_slice(), sink)),
            Err(error) => Err(error),
        }
    }

    /// Reads the record whose frame starts at `offset` in `image`.
    pub fn read(&self, image: &[u8], offset: u64) -> (result: Result<T, SegmentError>)
        ensures
            match record_at::<T>(image@, offset as int) {
                Ok(value) => result matches Ok(record) && record@ == value,
                Err(expected) => result matches Err(error) && error == expected,
            },
    {
        match read_frame(image, offset) {
            Ok(payload) => T::deserialize(payload),
            Err(error) => Err(error),
        }
    }
}

} // verus!
