//! What a record type owes a segment.

use vstd::prelude::*;
use crate::error::SegmentError;
use crate::frame::HEADER_LENGTH;

verus! {

/// Whether a record with this many payload bytes can account for its frame:
/// the length of the frame, which is the payload and the length prefix
/// before it, has to fit the `u32` that `total_length` returns.
pub open spec fn fits_frame(payload_length: nat) -> bool {
    payload_length + HEADER_LENGTH <= u32::MAX
}

/// A record that a segment can hold.
///
/// A record type fixes how a value is laid out as payload bytes and how
/// payload bytes are read back, and it accounts for its own size. The view
/// of a record is the value that the layout speaks of.
pub trait Storable: View + Sized + PartialEq + core::fmt::Debug {
    /// The payload bytes of `value`, or `None` where the value has no
    /// payload that a frame could carry.
    spec fn encoding(value: Self::V) -> Option<Seq<u8>>;

    /// The value that `payload` describes, if it describes one.
    spec fn decoding(payload: Seq<u8>) -> Option<Self::V>;

    /// Every payload fits a frame, and reading a payload gives back the
    /// value that it was made from.
    proof fn lemma_encoding(value: Self::V)
        ensures
            Self::encoding(value) matches Some(payload) ==> {
                &&& fits_frame(payload.len())
                &&& Self::content_size(value) == payload.len()
                &&& Self::decoding(payload) == Some(value)
            },
    ;

    /// Number of payload bytes of a value that has a payload.
    open spec fn content_size(value: Self::V) -> nat
        recommends
            Self::encoding(value) is Some,
    {
        Self::encoding(value)->Some_0.len()
    }

    /// Turns the record into its payload bytes.
    fn serialize(&self) -> (result: Result<Vec<u8>, SegmentError>)
        ensures
            match Self::encoding(self@) {
                Some(payload) => result matches Ok(bytes) && bytes@ == payload,
                None => result == Err::<Vec<u8>, SegmentError>(SegmentError::Serialization),
            },
    ;

    /// Reads a record back from payload bytes.
    fn deserialize(payload: &[u8]) -> (result: Result<Self, SegmentError>)
        ensures
            match Self::decoding(payload@) {
                Some(value) => result matches Ok(record) && record@ == value,
                None => result matches Err(error) && error == SegmentError::Deserialization,
            },
    ;

    /// Number of payload bytes of the record.
    fn content_length(&self) -> (length: u32)
        requires
            Self::encoding(self@) is Some,
        ensures
            length == Self::content_size(self@),
    ;

    /// Number of bytes of the record's frame: the payload and the length
    /// prefix before it.
    fn total_length(&self) -> (length: u32)
        requires
            Self::encoding(self@) is Some,
        ensures
            length == Self::content_size(self@) + HEADER_LENGTH,
    ;
}

} // verus!
