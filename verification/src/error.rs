use vstd::prelude::*;

verus! {

/// The ways in which an operation on a segment can fail.
#[derive(Clone, Copy, Debug, PartialEq, Eq, Structural)]
pub enum SegmentError {
    /// The segment ends before the frame that was asked for does.
    ShortRead,
    /// A record could not be turned into payload bytes.
    Serialization,
    /// The payload bytes of a frame do not describe a record.
    Deserialization,
    /// A file name does not identify a base offset.
    MalformedName,
}

} // verus!
