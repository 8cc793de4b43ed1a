//! Byte strings and text as key segments: the code of the length, then the
//! bytes themselves. Shorter strings sort before longer ones, and strings of
//! one length sort byte by byte.
use vstd::prelude::*;
use vstd::slice::slice_to_vec;
use vstd::utf8::{
    decode_utf8, encode_utf8, encode_utf8_decode_utf8, encode_utf8_valid_utf8, valid_utf8,
};
use crate::error::{KeyDeserializeError, KeySerializeError};
use crate::key::{decode_whole_or_nothing, whole_or_nothing, KeySerde};
use crate::key_serialization::length::{
    decode_length, encode_length, lemma_length_code_len, lemma_length_order,
    lemma_length_round_trip, lemma_length_width_of_usize, length_code, length_decoding,
};
use crate::key_serialization::KeyEncoding;
use crate::order::{
    is_prefix, lemma_lex_lt_asymmetric, lemma_lex_lt_common_prefix, lemma_lex_lt_decided_by_heads,
    lex_lt,
};
use crate::serialization::{Codec, Decodable, Encodable};

verus! {

/// The encoding of a byte string: the code of its length, then its bytes.
pub open spec fn bytes_encoding(payload: Seq<u8>) -> Result<Seq<u8>, KeySerializeError> {
    if payload.len() <= usize::MAX {
        Ok(length_code(payload.len()) + payload)
    } else {
        Err(KeySerializeError::LengthOverflow)
    }
}

/// The byte string at the front of `bytes`, and the number of bytes that its
/// length code and its own bytes take.
pub open spec fn bytes_decoding(bytes: Seq<u8>) -> Result<(Seq<u8>, int), KeyDeserializeError> {
    match length_decoding(bytes) {
        Err(e) => Err(e),
        Ok((len, used)) => if bytes.len() - used < len {
            Err(KeyDeserializeError::NotEnoughBytes(len, (bytes.len() - used) as usize))
        } else {
            Ok((bytes.subrange(used, used + len), used + len))
        },
    }
}

/// The order of byte strings that the encoding keeps: by length first, and
/// among strings of one length byte by byte.
pub open spec fn shorter_or_lower(a: Seq<u8>, b: Seq<u8>) -> bool {
    a.len() < b.len() || (a.len() == b.len() && lex_lt(a, b))
}

/// Whatever follows an encoded byte string, decoding gives the string back
/// and takes just its encoding.
pub proof fn lemma_bytes_delimited(payload: Seq<u8>, rest: Seq<u8>)
    requires
        payload.len() <= usize::MAX,
    ensures
        bytes_decoding(length_code(payload.len()) + payload + rest) == Ok::<
            (Seq<u8>, int),
            KeyDeserializeError,
        >((payload, (length_code(payload.len()) + payload).len() as int)),
{
    let n = payload.len() as usize;
    let code = length_code(payload.len());
    let all = code + payload + rest;
    lemma_length_round_trip(n, payload + rest);
    lemma_length_code_len(payload.len());
    assert(all =~= code + (payload + rest));
    assert(all.subrange(code.len() as int, (code.len() + payload.len()) as int) =~= payload);
}

/// The codes of two different lengths do not begin with one another.
pub proof fn lemma_length_codes_part(n: usize, m: usize)
    requires
        n != m,
    ensures
        !is_prefix(length_code(n as nat), length_code(m as nat)),
{
    let cn = length_code(n as nat);
    let cm = length_code(m as nat);
    if is_prefix(cn, cm) {
        let rest = cm.subrange(cn.len() as int, cm.len() as int);
        assert(cm =~= cn + rest);
        lemma_length_round_trip(n, rest);
        lemma_length_round_trip(m, Seq::empty());
        assert(cm + Seq::<u8>::empty() =~= cm);
    }
}

/// Encoded byte strings compare as the strings do, by length first.
pub proof fn lemma_bytes_order(a: Seq<u8>, b: Seq<u8>)
    requires
        a.len() <= usize::MAX,
        b.len() <= usize::MAX,
    ensures
        shorter_or_lower(a, b) <==> lex_lt(
            length_code(a.len()) + a,
            length_code(b.len()) + b,
        ),
{
    let ca = length_code(a.len());
    let cb = length_code(b.len());
    if a.len() == b.len() {
        lemma_lex_lt_common_prefix(ca, a, b);
    } else {
        lemma_length_width_of_usize(a.len() as usize);
        lemma_length_width_of_usize(b.len() as usize);
        lemma_length_order(a.len(), b.len());
        lemma_length_order(b.len(), a.len());
        lemma_length_codes_part(a.len() as usize, b.len() as usize);
        lemma_length_codes_part(b.len() as usize, a.len() as usize);
        lemma_lex_lt_decided_by_heads(ca, a, cb, b);
        lemma_lex_lt_asymmetric(ca, cb);
    }
}

/// Among byte strings of one length, the order that the encoding keeps is
/// the lexicographic one.
pub proof fn lemma_same_length_order(a: Seq<u8>, b: Seq<u8>)
    requires
        a.len() == b.len(),
    ensures
        shorter_or_lower(a, b) <==> lex_lt(a, b),
{
}

/// The model of a vector of bytes is the sequence of its bytes.
pub proof fn lemma_bytes_model(v: &Vec<u8>)
    ensures
        v.deep_view() == v@,
{
    assert(v.deep_view() =~= v@);
}

/// Adds the bytes of `source` to the end of `target`.
pub fn append_bytes(target: &mut Vec<u8>, source: &[u8])
    ensures
        final(target)@ == old(target)@ + source@,
{
    let mut i: usize = 0;
    while i < source.len()
        invariant
            0 <= i <= source.len(),
            target@ == old(target)@ + source@.take(i as int),
        decreases source.len() - i,
    {
        target.push(source[i]);
        proof {
            assert(source@.take(i + 1) =~= source@.take(i as int).push(source@[i as int]));
        }
        i = i + 1;
    }
    proof {
        assert(source@.take(source.len() as int) =~= source@);
    }
}

/// Encodes a byte string: the code of its length, then its bytes.
pub fn encode_bytes(payload: &[u8]) -> (r: Vec<u8>)
    ensures
        bytes_encoding(payload@) == Ok::<Seq<u8>, KeySerializeError>(r@),
{
    let mut encoded = match encode_length(payload.len()) {
        Ok(code) => code,
        Err(_) => Vec::new(),
    };
    append_bytes(&mut encoded, payload);
    encoded
}

/// Takes an encoded byte string from the front of `bytes` and moves `bytes`
/// past it. Where it fails, `bytes` is left as it was.
pub fn take_bytes<'a>(bytes: &mut &'a [u8]) -> (r: Result<&'a [u8], KeyDeserializeError>)
    ensures
        match r {
            Ok(payload) => bytes_decoding(old(bytes)@) matches Ok((found, n)) && found
                == payload@ && 0 <= n <= old(bytes)@.len() && final(bytes)@ == old(bytes)@.skip(
                n,
            ),
            Err(e) => bytes_decoding(old(bytes)@) == Err::<(Seq<u8>, int), KeyDeserializeError>(e)
                && final(bytes)@ == old(bytes)@,
        },
{
    let start: &[u8] = *bytes;
    let len = match decode_length(bytes) {
        Ok(len) => len,
        Err(e) => {
            return Err(e);
        },
    };
    if bytes.len() < len {
        let left = bytes.len();
        *bytes = start;
        return Err(KeyDeserializeError::NotEnoughBytes(len, left));
    }
    let (payload, rest) = bytes.split_at(len);
    proof {
        let used = start@.len() - bytes@.len();
        assert(payload@ =~= start@.subrange(used, used + len));
        assert(rest@ =~= start@.skip(used + len));
    }
    *bytes = rest;
    Ok(payload)
}

/// The failure that `String::from_utf8` reports, which holds the bytes that
/// were no text.
#[verifier::external_type_specification]
#[verifier::external_body]
pub struct ExFromUtf8Error(std::string::FromUtf8Error);

/// `String::from_utf8` of the standard library: it gives a string exactly if
/// the bytes are valid UTF-8, and the string then holds the text that the
/// bytes encode.
#[verifier::external_body]
pub(crate) fn string_from_utf8(bytes: Vec<u8>) -> (r: Result<String, std::string::FromUtf8Error>)
    ensures
        r is Ok <==> valid_utf8(bytes@),
        r matches Ok(text) ==> text@ == decode_utf8(bytes@),
{
    String::from_utf8(bytes)
}

impl Encodable<KeyEncoding> for Vec<u8> {
    open spec fn encoding(v: Seq<u8>) -> Result<Seq<u8>, KeySerializeError> {
        bytes_encoding(v)
    }

    fn encode(&self) -> (r: Result<Vec<u8>, KeySerializeError>) {
        proof {
            lemma_bytes_model(self);
        }
        Ok(encode_bytes(self.as_slice()))
    }
}

impl Decodable<KeyEncoding> for Vec<u8> {
    open spec fn decoding(bytes: Seq<u8>) -> Result<(Seq<u8>, int), KeyDeserializeError> {
        bytes_decoding(bytes)
    }

    proof fn decoding_consumes(bytes: Seq<u8>) {
    }

    fn decode(bytes: &mut &[u8]) -> (r: Result<Self, KeyDeserializeError>) {
        match take_bytes(bytes) {
            Ok(payload) => {
                let found = slice_to_vec(payload);
                proof {
                    lemma_bytes_model(&found);
                }
                Ok(found)
            },
            Err(e) => Err(e),
        }
    }
}

impl Codec<KeyEncoding> for Vec<u8> {
    proof fn round_trip(v: Seq<u8>) {
        lemma_bytes_delimited(v, Seq::empty());
        assert(length_code(v.len()) + v + Seq::<u8>::empty() =~= length_code(v.len()) + v);
    }
}

impl KeySerde for Vec<u8> {
    type PartialKey = Vec<u8>;

    open spec fn partial_decoding(bytes: Seq<u8>) -> Result<
        Option<(Seq<u8>, int)>,
        KeyDeserializeError,
    > {
        whole_or_nothing(bytes, bytes_decoding(bytes))
    }

    proof fn partial_decoding_consumes(bytes: Seq<u8>) {
    }

    fn partial_decode(bytes: &mut &[u8]) -> (r: Result<Option<Vec<u8>>, KeyDeserializeError>) {
        decode_whole_or_nothing::<Vec<u8>>(bytes)
    }

    open spec fn partial_model(v: Seq<u8>, rest: Seq<u8>) -> Seq<u8> {
        v
    }

    proof fn partial_of_nothing() {
    }

    proof fn partial_of_encoding(v: Seq<u8>, rest: Seq<u8>) {
        lemma_bytes_delimited(v, rest);
    }

    open spec fn key_lt(a: Seq<u8>, b: Seq<u8>) -> bool {
        shorter_or_lower(a, b)
    }

    proof fn delimited(v: Seq<u8>, rest: Seq<u8>) {
        lemma_bytes_delimited(v, rest);
    }

    proof fn order_preserved(a: Seq<u8>, b: Seq<u8>) {
        lemma_bytes_order(a, b);
    }
}

/// The text at the front of `bytes`: a byte string that is valid UTF-8.
pub open spec fn text_decoding(bytes: Seq<u8>) -> Result<(Seq<char>, int), KeyDeserializeError> {
    match bytes_decoding(bytes) {
        Err(e) => Err(e),
        Ok((payload, n)) => if valid_utf8(payload) {
            Ok((decode_utf8(payload), n))
        } else {
            Err(KeyDeserializeError::Utf8Error)
        },
    }
}

/// Whatever follows an encoded text, decoding gives the text back and takes
/// just its encoding.
pub proof fn lemma_text_delimited(text: Seq<char>, rest: Seq<u8>)
    requires
        encode_utf8(text).len() <= usize::MAX,
    ensures
        text_decoding(bytes_encoding(encode_utf8(text))->Ok_0 + rest) == Ok::<
            (Seq<char>, int),
            KeyDeserializeError,
        >((text, bytes_encoding(encode_utf8(text))->Ok_0.len() as int)),
{
    lemma_bytes_delimited(encode_utf8(text), rest);
    encode_utf8_valid_utf8(text);
    encode_utf8_decode_utf8(text);
}

impl Encodable<KeyEncoding> for String {
    open spec fn encoding(v: Seq<char>) -> Result<Seq<u8>, KeySerializeError> {
        bytes_encoding(encode_utf8(v))
    }

    fn encode(&self) -> (r: Result<Vec<u8>, KeySerializeError>) {
        Ok(encode_bytes(self.as_str().as_bytes()))
    }
}

impl Decodable<KeyEncoding> for String {
    open spec fn decoding(bytes: Seq<u8>) -> Result<(Seq<char>, int), KeyDeserializeError> {
        text_decoding(bytes)
    }

    proof fn decoding_consumes(bytes: Seq<u8>) {
    }

    fn decode(bytes: &mut &[u8]) -> (r: Result<Self, KeyDeserializeError>) {
        let start: &[u8] = *bytes;
        let payload = match take_bytes(bytes) {
            Ok(payload) => payload,
            Err(e) => {
                return Err(e);
            },
        };
        match string_from_utf8(slice_to_vec(payload)) {
            Ok(text) => Ok(text),
            Err(_) => {
                *bytes = start;
                Err(KeyDeserializeError::Utf8Error)
            },
        }
    }
}

impl Codec<KeyEncoding> for String {
    proof fn round_trip(v: Seq<char>) {
        lemma_text_delimited(v, Seq::empty());
        let encoded = bytes_encoding(encode_utf8(v))->Ok_0;
        assert(encoded + Seq::<u8>::empty() =~= encoded);
    }
}

impl KeySerde for String {
    type PartialKey = String;

    open spec fn partial_decoding(bytes: Seq<u8>) -> Result<
        Option<(Seq<char>, int)>,
        KeyDeserializeError,
    > {
        whole_or_nothing(bytes, text_decoding(bytes))
    }

    proof fn partial_decoding_consumes(bytes: Seq<u8>) {
    }

    fn partial_decode(bytes: &mut &[u8]) -> (r: Result<Option<String>, KeyDeserializeError>) {
        decode_whole_or_nothing::<String>(bytes)
    }

    open spec fn partial_model(v: Seq<char>, rest: Seq<u8>) -> Seq<char> {
        v
    }

    proof fn partial_of_nothing() {
    }

    proof fn partial_of_encoding(v: Seq<char>, rest: Seq<u8>) {
        lemma_text_delimited(v, rest);
    }

    open spec fn key_lt(a: Seq<char>, b: Seq<char>) -> bool {
        shorter_or_lower(encode_utf8(a), encode_utf8(b))
    }

    proof fn delimited(v: Seq<char>, rest: Seq<u8>) {
        lemma_text_delimited(v, rest);
    }

    proof fn order_preserved(a: Seq<char>, b: Seq<char>) {
        lemma_bytes_order(encode_utf8(a), encode_utf8(b));
    }
}

} // verus!
