//! The bincode form of a string, and the two calls into bincode that
//! produce and read it.
//!
//! With the settings of bincode's top-level functions a string is written as
//! the number of its UTF-8 bytes, as a little-endian `u64`, followed by those
//! bytes. Reading takes the same layout and ignores whatever follows it.

use vstd::prelude::*;
use vstd::bytes::{spec_u64_from_le_bytes, spec_u64_to_le_bytes, lemma_auto_spec_u64_to_from_le_bytes};
use vstd::utf8::{decode_utf8, encode_utf8, valid_utf8, encode_utf8_valid_utf8, encode_utf8_decode_utf8};

verus! {

/// The error type of bincode, carried through without being looked into.
#[verifier::external_type_specification]
#[verifier::external_body]
pub struct ExBincodeErrorKind(bincode::ErrorKind);

/// Number of bytes that bincode spends on the length of a string.
pub const TEXT_LENGTH_BYTES: usize = 8;

/// The bytes that bincode writes for `text`.
pub open spec fn text_encoding(text: Seq<char>) -> Seq<u8>
    recommends
        encode_utf8(text).len() <= u64::MAX,
{
    spec_u64_to_le_bytes(encode_utf8(text).len() as u64) + encode_utf8(text)
}

/// The string that bincode reads from the start of `bytes`, if there is one:
/// a length, then at least that many bytes, of which the first that many are
/// valid UTF-8.
pub open spec fn text_decoding(bytes: Seq<u8>) -> Option<Seq<char>> {
    if bytes.len() >= TEXT_LENGTH_BYTES {
        let start = TEXT_LENGTH_BYTES as int;
        let length = spec_u64_from_le_bytes(bytes.subrange(0, start));
        if start + length <= bytes.len() && valid_utf8(bytes.subrange(start, start + length)) {
            Some(decode_utf8(bytes.subrange(start, start + length)))
        } else {
            None
        }
    } else {
        None
    }
}

/// The encoding of a string is its length field and its UTF-8 bytes.
pub proof fn lemma_text_encoding_length(text: Seq<char>)
    ensures
        text_encoding(text).len() == TEXT_LENGTH_BYTES + encode_utf8(text).len(),
{
    lemma_auto_spec_u64_to_from_le_bytes();
}

/// What was encoded is what decoding finds, also with other bytes behind it.
pub proof fn lemma_text_round_trip(text: Seq<char>, after: Seq<u8>)
    requires
        encode_utf8(text).len() <= u64::MAX,
    ensures
        text_decoding(text_encoding(text) + after) == Some(text),
{
    lemma_auto_spec_u64_to_from_le_bytes();
    encode_utf8_valid_utf8(text);
    encode_utf8_decode_utf8(text);
    let utf8 = encode_utf8(text);
    let length = utf8.len() as u64;
    let bytes = text_encoding(text) + after;
    let start = TEXT_LENGTH_BYTES as int;
    assert(bytes.subrange(0, start) =~= spec_u64_to_le_bytes(length));
    assert(bytes.subrange(start, start + length) =~= utf8);
}

/// Calls `bincode::serialize` on a string slice.
///
/// Claims, for a string whose encoding is no longer than a `u32` can count,
/// that the call succeeds and returns the string's byte length as eight
/// little-endian bytes followed by its UTF-8 bytes. Bincode writes into a
/// `Vec` without a size limit here, so nothing in the call can fail.
#[verifier::external_body]
pub(crate) fn serialize_text(text: &str) -> (result: Result<Vec<u8>, bincode::Error>)
    requires
        text_encoding(text@).len() <= u32::MAX,
    ensures
        result is Ok,
        result->Ok_0@ == text_encoding(text@),
{
    bincode::serialize(text)
}

/// Calls `bincode::deserialize` for a `String`.
///
/// Claims that the call succeeds exactly when the bytes start with a length
/// field, hold at least that many bytes after it, and those bytes are valid
/// UTF-8; the string returned is then the one they encode. Bytes behind the
/// string are ignored.
#[verifier::external_body]
pub(crate) fn deserialize_text(bytes: &[u8]) -> (result: Result<String, bincode::Error>)
    ensures
        match text_decoding(bytes@) {
            Some(text) => result matches Ok(found) && found@ == text,
            None => result is Err,
        },
{
    bincode::deserialize::<String>(bytes)
}

} // verus!
