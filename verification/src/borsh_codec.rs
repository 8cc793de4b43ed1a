//! Values kept in the Borsh format, as the `borsh` crate writes and reads them.
use vstd::prelude::*;
use vstd::utf8::{
    decode_utf8, encode_utf8, encode_utf8_decode_utf8, encode_utf8_valid_utf8, valid_utf8,
};
use crate::big_endian::{be_bytes, be_value, lemma_be_round_trip, lemma_pow256_values, pow256};
use crate::serialization::{Codec, Decodable, Encodable, Encoding};

verus! {

/// The failure that the `borsh` crate reports, which says what went wrong in
/// words.
#[verifier::external_type_specification]
#[verifier::external_body]
pub struct ExIoError(std::io::Error);

/// The encoding of values in the Borsh format: text as its length in four
/// bytes, least significant first, and then its bytes.
#[derive(Debug, Clone, Copy, PartialEq, Eq)]
pub struct BorshEncoding;

/// Why a value has no Borsh form, or bytes are no Borsh form of a value.
#[derive(Debug, PartialEq, Eq)]
pub enum BorshError {
    /// The value is longer than the four bytes of a length can say.
    TooLong,
    /// The bytes are not the Borsh form of a value of the type, or more
    /// bytes follow it.
    Malformed,
}

impl Encoding for BorshEncoding {
    type EncodeError = BorshError;

    type DecodeError = BorshError;
}

/// The lowest `width` bytes of `x`, least significant first.
pub open spec fn le_bytes(x: nat, width: nat) -> Seq<u8> {
    be_bytes(x, width).reverse()
}

/// The number that `b` stands for when its first byte is the least significant.
pub open spec fn le_value(b: Seq<u8>) -> nat {
    be_value(b.reverse())
}

/// The bytes of a number that fits in `width` bytes stand for that number.
pub proof fn lemma_le_round_trip(x: nat, width: nat)
    requires
        x < pow256(width),
    ensures
        le_value(le_bytes(x, width)) == x,
        le_bytes(x, width).len() == width,
{
    lemma_be_round_trip(x, width);
    assert(be_bytes(x, width).reverse().reverse() =~= be_bytes(x, width));
}

/// The Borsh form of a text: its length in bytes as a number of four bytes,
/// then its bytes in UTF-8.
pub open spec fn borsh_text(text: Seq<char>) -> Seq<u8> {
    le_bytes(encode_utf8(text).len(), 4) + encode_utf8(text)
}

/// `bytes` are the Borsh form of a text: four bytes that say how many bytes
/// follow, and these are valid UTF-8.
pub open spec fn is_borsh_text(bytes: Seq<u8>) -> bool {
    &&& bytes.len() >= 4
    &&& le_value(bytes.take(4)) == bytes.len() - 4
    &&& valid_utf8(bytes.skip(4))
}

/// `borsh::to_vec` for a `String`: the length of the text in bytes as a
/// number of four bytes, least significant first, then the bytes of the
/// text; a failure where the length does not fit in four bytes.
#[verifier::external_body]
fn borsh_string_to_vec(value: &String) -> (r: Result<Vec<u8>, std::io::Error>)
    ensures
        r is Ok <==> encode_utf8(value@).len() <= u32::MAX,
        r matches Ok(bytes) ==> bytes@ == borsh_text(value@),
{
    borsh::to_vec(value)
}

/// `borsh::from_slice` for a `String`: the text whose Borsh form the bytes
/// are; a failure where they are not the Borsh form of a text, or more bytes
/// follow it.
#[verifier::external_body]
fn borsh_string_from_slice(bytes: &[u8]) -> (r: Result<String, std::io::Error>)
    ensures
        r is Ok <==> is_borsh_text(bytes@),
        r matches Ok(text) ==> text@ == decode_utf8(bytes@.skip(4)),
{
    borsh::from_slice::<String>(bytes)
}

/// The rest of `bytes` after all of it.
fn end_of<'a>(bytes: &'a [u8]) -> (rest: &'a [u8])
    ensures
        rest@ == bytes@.skip(bytes@.len() as int),
{
    let (_, rest) = bytes.split_at(bytes.len());
    proof {
        assert(rest@ =~= bytes@.skip(bytes@.len() as int));
    }
    rest
}

impl Encodable<BorshEncoding> for String {
    open spec fn encoding(v: Seq<char>) -> Result<Seq<u8>, BorshError> {
        if encode_utf8(v).len() <= u32::MAX {
            Ok(borsh_text(v))
        } else {
            Err(BorshError::TooLong)
        }
    }

    fn encode(&self) -> (r: Result<Vec<u8>, BorshError>) {
        match borsh_string_to_vec(self) {
            Ok(bytes) => Ok(bytes),
            Err(_) => Err(BorshError::TooLong),
        }
    }
}

impl Decodable<BorshEncoding> for String {
    /// A text is read from all of the bytes: it is a failure if more bytes
    /// follow it.
    open spec fn decoding(bytes: Seq<u8>) -> Result<(Seq<char>, int), BorshError> {
        if is_borsh_text(bytes) {
            Ok((decode_utf8(bytes.skip(4)), bytes.len() as int))
        } else {
            Err(BorshError::Malformed)
        }
    }

    proof fn decoding_consumes(bytes: Seq<u8>) {
    }

    fn decode(bytes: &mut &[u8]) -> (r: Result<Self, BorshError>) {
        match borsh_string_from_slice(*bytes) {
            Ok(text) => {
                *bytes = end_of(*bytes);
                Ok(text)
            },
            Err(_) => Err(BorshError::Malformed),
        }
    }
}

impl Codec<BorshEncoding> for String {
    proof fn round_trip(v: Seq<char>) {
        let payload = encode_utf8(v);
        let bytes = borsh_text(v);
        lemma_pow256_values();
        lemma_le_round_trip(payload.len(), 4);
        encode_utf8_valid_utf8(v);
        encode_utf8_decode_utf8(v);
        assert(bytes.take(4) =~= le_bytes(payload.len(), 4));
        assert(bytes.skip(4) =~= payload);
    }
}

} // verus!
