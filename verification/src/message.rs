//! A record that holds one piece of text.

use vstd::prelude::*;
use crate::error::SegmentError;
use crate::storable::{fits_frame, Storable};
use crate::wire::{
    deserialize_text, lemma_text_encoding_length, lemma_text_round_trip, serialize_text,
    text_decoding, text_encoding,
};

verus! {

/// Largest number of UTF-8 bytes of a message that fits a frame: what the
/// length field of the frame can count, less the frame's own length prefix
/// and the length field that goes before the text.
pub const MAX_CONTENT_BYTES: usize = 0xffff_fff3;

/// A record whose only content is a string.
#[derive(Debug)]
pub struct Message {
    pub content: String,
}

impl View for Message {
    type V = Seq<char>;

    open spec fn view(&self) -> Seq<char> {
        self.content@
    }
}

impl PartialEq for Message {
    fn eq(&self, other: &Self) -> (equal: bool) {
        self.content == other.content
    }
}

impl vstd::std_specs::cmp::PartialEqSpecImpl for Message {
    open spec fn obeys_eq_spec() -> bool {
        true
    }

    open spec fn eq_spec(&self, other: &Self) -> bool {
        self@ == other@
    }
}

impl Message {
    /// Number of bytes of the length prefix that goes before a message in a
    /// segment.
    pub const MESSAGE_LENGTH: u32 = 4;

    /// A message that holds a copy of `content`.
    pub fn new(content: &str) -> (message: Self)
        ensures
            message@ == content@,
    {
        Self { content: content.to_owned() }
    }
}

impl Storable for Message {
    open spec fn encoding(value: Seq<char>) -> Option<Seq<u8>> {
        if fits_frame(text_encoding(value).len()) {
            Some(text_encoding(value))
        } else {
            None
        }
    }

    open spec fn decoding(payload: Seq<u8>) -> Option<Seq<char>> {
        text_decoding(payload)
    }

    proof fn lemma_encoding(value: Seq<char>) {
        if fits_frame(text_encoding(value).len()) {
            lemma_text_encoding_length(value);
            lemma_text_round_trip(value, Seq::empty());
            assert(text_encoding(value) + Seq::<u8>::empty() =~= text_encoding(value));
        }
    }

    fn serialize(&self) -> (result: Result<Vec<u8>, SegmentError>) {
        let text = self.content.as_str();
        proof {
            lemma_text_encoding_length(text@);
        }
        if text.as_bytes().len() > MAX_CONTENT_BYTES {
            return Err(SegmentError::Serialization);
        }
        match serialize_text(text) {
            Ok(bytes) => Ok(bytes),
            Err(_) => Err(SegmentError::Serialization),
        }
    }

    fn deserialize(payload: &[u8]) -> (result: Result<Self, SegmentError>) {
        match deserialize_text(payload) {
            Ok(content) => Ok(Message { content }),
            Err(_) => Err(SegmentError::Deserialization),
        }
    }

    fn content_length(&self) -> (length: u32) {
        match self.serialize() {
            Ok(bytes) => bytes.len() as u32,
            Err(_) => unreached(),
        }
    }

    fn total_length(&self) -> (length: u32) {
        self.content_length() + Self::MESSAGE_LENGTH
    }
}

} // verus!
