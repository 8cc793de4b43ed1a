//! Values kept as the text that displays them.
use vstd::prelude::*;
use vstd::slice::slice_to_vec;
use vstd::utf8::{
    decode_utf8, encode_utf8, encode_utf8_decode_utf8, encode_utf8_valid_utf8, valid_utf8,
};
use crate::key_serialization::bytes::string_from_utf8;
use crate::serialization::{Codec, Decodable, Encodable, Encoding};

verus! {

/// The encoding of values as their text, in UTF-8, with nothing before or
/// after it.
#[derive(Debug, Clone, Copy, PartialEq, Eq)]
pub struct DisplayEncoding;

/// Why a value could not be read from its text.
#[derive(Debug, PartialEq, Eq)]
pub enum DisplayError {
    /// The bytes are not valid UTF-8.
    NotText,
}

impl Encoding for DisplayEncoding {
    type EncodeError = DisplayError;

    type DecodeError = DisplayError;
}

impl Encodable<DisplayEncoding> for String {
    open spec fn encoding(v: Seq<char>) -> Result<Seq<u8>, DisplayError> {
        Ok(encode_utf8(v))
    }

    fn encode(&self) -> (r: Result<Vec<u8>, DisplayError>) {
        Ok(slice_to_vec(self.as_str().as_bytes()))
    }
}

impl Decodable<DisplayEncoding> for String {
    open spec fn decoding(bytes: Seq<u8>) -> Result<(Seq<char>, int), DisplayError> {
        if valid_utf8(bytes) {
            Ok((decode_utf8(bytes), bytes.len() as int))
        } else {
            Err(DisplayError::NotText)
        }
    }

    proof fn decoding_consumes(bytes: Seq<u8>) {
    }

    fn decode(bytes: &mut &[u8]) -> (r: Result<Self, DisplayError>) {
        match string_from_utf8(slice_to_vec(*bytes)) {
            Ok(text) => {
                let (_, rest) = bytes.split_at(bytes.len());
                proof {
                    assert(rest@ =~= old(bytes)@.skip(old(bytes)@.len() as int));
                }
                *bytes = rest;
                Ok(text)
            },
            Err(_) => Err(DisplayError::NotText),
        }
    }
}

impl Codec<DisplayEncoding> for String {
    proof fn round_trip(v: Seq<char>) {
        encode_utf8_valid_utf8(v);
        encode_utf8_decode_utf8(v);
    }
}

} // verus!
