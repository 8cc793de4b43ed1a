//! The failures that key and value handling can report.
use crate::serialization::Encoding;
use vstd::prelude::*;

verus! {

/// Why a key could not be turned into bytes.
///
/// None of the segment types of this library fails to encode a value that a
/// program can hold: a byte string whose length no `usize` holds has no
/// encoding, and no machine stores one.
#[derive(Debug, PartialEq, Eq)]
pub enum KeySerializeError {
    /// A length is beyond what a `usize` holds: that of a byte string, or
    /// that of a vector whose counter cannot go higher.
    LengthOverflow,
}

/// Why bytes could not be turned back into a key segment.
#[derive(Debug, PartialEq, Eq)]
pub enum KeyDeserializeError {
    /// The segment needs the first number of bytes, and only the second number is left.
    NotEnoughBytes(usize, usize),
    /// A length code says a number that is wider than the first number of
    /// bytes; the second number is the bytes it would need.
    InvalidLength(usize, usize),
    /// The bytes of a text segment are not valid UTF-8.
    Utf8Error,
}

/// What made an operation on the store fail: the key or the value, on the way
/// in or on the way out.
#[derive(Debug, PartialEq, Eq)]
pub enum StorageError<Enc: Encoding> {
    KeySerialize(KeySerializeError),
    KeyDeserialize(KeyDeserializeError),
    ValueSerialize(Enc::EncodeError),
    ValueDeserialize(Enc::DecodeError),
}

} // verus!
