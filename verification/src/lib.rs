//! An append-only segment of length-prefixed records.
//!
//! A segment is a byte stream made of frames laid back to back. Each frame is
//! a four-byte big-endian length followed by that many payload bytes. This
//! crate fixes the framing, the offset arithmetic and the naming of segment
//! files, and proves them against mathematical models of the byte stream.
//! Moving the bytes to and from storage is left to the caller.

pub mod error;
pub mod frame;
pub mod message;
pub mod name;
pub mod segment;
pub mod storable;
pub mod wire;
