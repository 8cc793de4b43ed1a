//! Integers as key segments: big-endian at the type's own width, the signed
//! ones moved up by the type's range so that the most negative value comes
//! out as all zero bytes.
use vstd::prelude::*;
use crate::big_endian::{
    be_bytes, be_value, decode_uint, encode_uint, lemma_be_order, lemma_be_round_trip,
    lemma_pow256_values, pow256,
};
use crate::error::{KeyDeserializeError, KeySerializeError};
use crate::key::{decode_whole_or_nothing, whole_or_nothing, KeySerde};
use crate::key_serialization::length::{lemma_usize_width, usize_bytes, usize_width};
use crate::key_serialization::KeyEncoding;
use crate::order::lex_lt;
use crate::serialization::{Codec, Decodable, Encodable};

verus! {

/// The number at the front of `bytes` that takes `width` bytes.
pub open spec fn uint_decoding(bytes: Seq<u8>, width: nat) -> Result<
    (nat, int),
    KeyDeserializeError,
> {
    if bytes.len() < width {
        Err(KeyDeserializeError::NotEnoughBytes(width as usize, bytes.len() as usize))
    } else {
        Ok((be_value(bytes.take(width as int)), width as int))
    }
}

/// Whatever follows the `width` bytes of a number that fits in them, reading
/// `width` bytes gives the number back.
pub proof fn lemma_uint_delimited(x: nat, width: nat, rest: Seq<u8>)
    requires
        x < pow256(width),
    ensures
        uint_decoding(be_bytes(x, width) + rest, width) == Ok::<(nat, int), KeyDeserializeError>(
            (x, width as int),
        ),
        be_bytes(x, width).len() == width,
{
    lemma_be_round_trip(x, width);
    assert((be_bytes(x, width) + rest).take(width as int) =~= be_bytes(x, width));
}

/// Numbers that fit in `width` bytes compare as their bytes do.
pub proof fn lemma_uint_order(x: nat, y: nat, width: nat)
    requires
        x < pow256(width),
        y < pow256(width),
    ensures
        x < y <==> lex_lt(be_bytes(x, width), be_bytes(y, width)),
{
    lemma_be_round_trip(x, width);
    lemma_be_round_trip(y, width);
    lemma_be_order(be_bytes(x, width), be_bytes(y, width));
}

/// Reads a number of `width` bytes from the front of `bytes` and moves `bytes`
/// past it.
pub fn take_uint(bytes: &mut &[u8], width: usize) -> (r: Result<u128, KeyDeserializeError>)
    requires
        width <= 16,
    ensures
        match r {
            Ok(x) => uint_decoding(old(bytes)@, width as nat) == Ok::<
                (nat, int),
                KeyDeserializeError,
            >((x as nat, width as int)) && x < pow256(width as nat) && width <= old(bytes)@.len()
                && final(bytes)@ == old(bytes)@.skip(width as int),
            Err(e) => uint_decoding(old(bytes)@, width as nat) == Err::<
                (nat, int),
                KeyDeserializeError,
            >(e) && final(bytes)@ == old(bytes)@,
        },
{
    if bytes.len() < width {
        return Err(KeyDeserializeError::NotEnoughBytes(width, bytes.len()));
    }
    let (number, rest) = bytes.split_at(width);
    let x = decode_uint(number, width);
    proof {
        assert(number@.take(width as int) =~= old(bytes)@.take(width as int));
        assert(rest@ =~= old(bytes)@.skip(width as int));
    }
    *bytes = rest;
    Ok(x)
}

impl Encodable<KeyEncoding> for u8 {
    open spec fn encoding(v: u8) -> Result<Seq<u8>, KeySerializeError> {
        Ok(be_bytes(v as nat, 1))
    }

    fn encode(&self) -> (r: Result<Vec<u8>, KeySerializeError>) {
        Ok(encode_uint(*self as u128, 1))
    }
}

impl Decodable<KeyEncoding> for u8 {
    open spec fn decoding(bytes: Seq<u8>) -> Result<(u8, int), KeyDeserializeError> {
        match uint_decoding(bytes, 1) {
            Ok((x, n)) => Ok((x as u8, n)),
            Err(e) => Err(e),
        }
    }

    proof fn decoding_consumes(bytes: Seq<u8>) {
    }

    fn decode(bytes: &mut &[u8]) -> (r: Result<Self, KeyDeserializeError>) {
        proof {
            lemma_pow256_values();
        }
        match take_uint(bytes, 1) {
            Ok(x) => Ok(x as u8),
            Err(e) => Err(e),
        }
    }
}

impl Codec<KeyEncoding> for u8 {
    proof fn round_trip(v: u8) {
        lemma_pow256_values();
        let bytes = be_bytes(v as nat, 1);
        lemma_uint_delimited(v as nat, 1, Seq::empty());
        assert(bytes + Seq::<u8>::empty() =~= bytes);
    }
}

impl KeySerde for u8 {
    type PartialKey = u8;

    open spec fn partial_decoding(bytes: Seq<u8>) -> Result<
        Option<(u8, int)>,
        KeyDeserializeError,
    > {
        whole_or_nothing(bytes, <u8 as Decodable<KeyEncoding>>::decoding(bytes))
    }

    proof fn partial_decoding_consumes(bytes: Seq<u8>) {
    }

    fn partial_decode(bytes: &mut &[u8]) -> (r: Result<Option<u8>, KeyDeserializeError>) {
        decode_whole_or_nothing::<u8>(bytes)
    }

    open spec fn partial_model(v: u8, rest: Seq<u8>) -> u8 {
        v
    }

    proof fn partial_of_nothing() {
    }

    proof fn partial_of_encoding(v: u8, rest: Seq<u8>) {
        lemma_pow256_values();
        lemma_uint_delimited(v as nat, 1, rest);
    }

    open spec fn key_lt(a: u8, b: u8) -> bool {
        a < b
    }

    proof fn delimited(v: u8, rest: Seq<u8>) {
        lemma_pow256_values();
        lemma_uint_delimited(v as nat, 1, rest);
    }

    proof fn order_preserved(a: u8, b: u8) {
        lemma_pow256_values();
        lemma_uint_order(a as nat, b as nat, 1);
    }
}

impl Encodable<KeyEncoding> for u16 {
    open spec fn encoding(v: u16) -> Result<Seq<u8>, KeySerializeError> {
        Ok(be_bytes(v as nat, 2))
    }

    fn encode(&self) -> (r: Result<Vec<u8>, KeySerializeError>) {
        Ok(encode_uint(*self as u128, 2))
    }
}

impl Decodable<KeyEncoding> for u16 {
    open spec fn decoding(bytes: Seq<u8>) -> Result<(u16, int), KeyDeserializeError> {
        match uint_decoding(bytes, 2) {
            Ok((x, n)) => Ok((x as u16, n)),
            Err(e) => Err(e),
        }
    }

    proof fn decoding_consumes(bytes: Seq<u8>) {
    }

    fn decode(bytes: &mut &[u8]) -> (r: Result<Self, KeyDeserializeError>) {
        proof {
            lemma_pow256_values();
        }
        match take_uint(bytes, 2) {
            Ok(x) => Ok(x as u16),
            Err(e) => Err(e),
        }
    }
}

impl Codec<KeyEncoding> for u16 {
    proof fn round_trip(v: u16) {
        lemma_pow256_values();
        let bytes = be_bytes(v as nat, 2);
        lemma_uint_delimited(v as nat, 2, Seq::empty());
        assert(bytes + Seq::<u8>::empty() =~= bytes);
    }
}

impl KeySerde for u16 {
    type PartialKey = u16;

    open spec fn partial_decoding(bytes: Seq<u8>) -> Result<
        Option<(u16, int)>,
        KeyDeserializeError,
    > {
        whole_or_nothing(bytes, <u16 as Decodable<KeyEncoding>>::decoding(bytes))
    }

    proof fn partial_decoding_consumes(bytes: Seq<u8>) {
    }

    fn partial_decode(bytes: &mut &[u8]) -> (r: Result<Option<u16>, KeyDeserializeError>) {
        decode_whole_or_nothing::<u16>(bytes)
    }

    open spec fn partial_model(v: u16, rest: Seq<u8>) -> u16 {
        v
    }

    proof fn partial_of_nothing() {
    }

    proof fn partial_of_encoding(v: u16, rest: Seq<u8>) {
        lemma_pow256_values();
        lemma_uint_delimited(v as nat, 2, rest);
    }

    open spec fn key_lt(a: u16, b: u16) -> bool {
        a < b
    }

    proof fn delimited(v: u16, rest: Seq<u8>) {
        lemma_pow256_values();
        lemma_uint_delimited(v as nat, 2, rest);
    }

    proof fn order_preserved(a: u16, b: u16) {
        lemma_pow256_values();
        lemma_uint_order(a as nat, b as nat, 2);
    }
}

impl Encodable<KeyEncoding> for u32 {
    open spec fn encoding(v: u32) -> Result<Seq<u8>, KeySerializeError> {
        Ok(be_bytes(v as nat, 4))
    }

    fn encode(&self) -> (r: Result<Vec<u8>, KeySerializeError>) {
        Ok(encode_uint(*self as u128, 4))
    }
}

impl Decodable<KeyEncoding> for u32 {
    open spec fn decoding(bytes: Seq<u8>) -> Result<(u32, int), KeyDeserializeError> {
        match uint_decoding(bytes, 4) {
            Ok((x, n)) => Ok((x as u32, n)),
            Err(e) => Err(e),
        }
    }

    proof fn decoding_consumes(bytes: Seq<u8>) {
    }

    fn decode(bytes: &mut &[u8]) -> (r: Result<Self, KeyDeserializeError>) {
        proof {
            lemma_pow256_values();
        }
        match take_uint(bytes, 4) {
            Ok(x) => Ok(x as u32),
            Err(e) => Err(e),
        }
    }
}

impl Codec<KeyEncoding> for u32 {
    proof fn round_trip(v: u32) {
        lemma_pow256_values();
        let bytes = be_bytes(v as nat, 4);
        lemma_uint_delimited(v as nat, 4, Seq::empty());
        assert(bytes + Seq::<u8>::empty() =~= bytes);
    }
}

impl KeySerde for u32 {
    type PartialKey = u32;

    open spec fn partial_decoding(bytes: Seq<u8>) -> Result<
        Option<(u32, int)>,
        KeyDeserializeError,
    > {
        whole_or_nothing(bytes, <u32 as Decodable<KeyEncoding>>::decoding(bytes))
    }

    proof fn partial_decoding_consumes(bytes: Seq<u8>) {
    }

    fn partial_decode(bytes: &mut &[u8]) -> (r: Result<Option<u32>, KeyDeserializeError>) {
        decode_whole_or_nothing::<u32>(bytes)
    }

    open spec fn partial_model(v: u32, rest: Seq<u8>) -> u32 {
        v
    }

    proof fn partial_of_nothing() {
    }

    proof fn partial_of_encoding(v: u32, rest: Seq<u8>) {
        lemma_pow256_values();
        lemma_uint_delimited(v as nat, 4, rest);
    }

    open spec fn key_lt(a: u32, b: u32) -> bool {
        a < b
    }

    proof fn delimited(v: u32, rest: Seq<u8>) {
        lemma_pow256_values();
        lemma_uint_delimited(v as nat, 4, rest);
    }

    proof fn order_preserved(a: u32, b: u32) {
        lemma_pow256_values();
        lemma_uint_order(a as nat, b as nat, 4);
    }
}

impl Encodable<KeyEncoding> for u64 {
    open spec fn encoding(v: u64) -> Result<Seq<u8>, KeySerializeError> {
        Ok(be_bytes(v as nat, 8))
    }

    fn encode(&self) -> (r: Result<Vec<u8>, KeySerializeError>) {
        Ok(encode_uint(*self as u128, 8))
    }
}

impl Decodable<KeyEncoding> for u64 {
    open spec fn decoding(bytes: Seq<u8>) -> Result<(u64, int), KeyDeserializeError> {
        match uint_decoding(bytes, 8) {
            Ok((x, n)) => Ok((x as u64, n)),
            Err(e) => Err(e),
        }
    }

    proof fn decoding_consumes(bytes: Seq<u8>) {
    }

    fn decode(bytes: &mut &[u8]) -> (r: Result<Self, KeyDeserializeError>) {
        proof {
            lemma_pow256_values();
        }
        match take_uint(bytes, 8) {
            Ok(x) => Ok(x as u64),
            Err(e) => Err(e),
        }
    }
}

impl Codec<KeyEncoding> for u64 {
    proof fn round_trip(v: u64) {
        lemma_pow256_values();
        let bytes = be_bytes(v as nat, 8);
        lemma_uint_delimited(v as nat, 8, Seq::empty());
        assert(bytes + Seq::<u8>::empty() =~= bytes);
    }
}

impl KeySerde for u64 {
    type PartialKey = u64;

    open spec fn partial_decoding(bytes: Seq<u8>) -> Result<
        Option<(u64, int)>,
        KeyDeserializeError,
    > {
        whole_or_nothing(bytes, <u64 as Decodable<KeyEncoding>>::decoding(bytes))
    }

    proof fn partial_decoding_consumes(bytes: Seq<u8>) {
    }

    fn partial_decode(bytes: &mut &[u8]) -> (r: Result<Option<u64>, KeyDeserializeError>) {
        decode_whole_or_nothing::<u64>(bytes)
    }

    open spec fn partial_model(v: u64, rest: Seq<u8>) -> u64 {
        v
    }

    proof fn partial_of_nothing() {
    }

    proof fn partial_of_encoding(v: u64, rest: Seq<u8>) {
        lemma_pow256_values();
        lemma_uint_delimited(v as nat, 8, rest);
    }

    open spec fn key_lt(a: u64, b: u64) -> bool {
        a < b
    }

    proof fn delimited(v: u64, rest: Seq<u8>) {
        lemma_pow256_values();
        lemma_uint_delimited(v as nat, 8, rest);
    }

    proof fn order_preserved(a: u64, b: u64) {
        lemma_pow256_values();
        lemma_uint_order(a as nat, b as nat, 8);
    }
}

impl Encodable<KeyEncoding> for u128 {
    open spec fn encoding(v: u128) -> Result<Seq<u8>, KeySerializeError> {
        Ok(be_bytes(v as nat, 16))
    }

    fn encode(&self) -> (r: Result<Vec<u8>, KeySerializeError>) {
        Ok(encode_uint(*self as u128, 16))
    }
}

impl Decodable<KeyEncoding> for u128 {
    open spec fn decoding(bytes: Seq<u8>) -> Result<(u128, int), KeyDeserializeError> {
        match uint_decoding(bytes, 16) {
            Ok((x, n)) => Ok((x as u128, n)),
            Err(e) => Err(e),
        }
    }

    proof fn decoding_consumes(bytes: Seq<u8>) {
    }

    fn decode(bytes: &mut &[u8]) -> (r: Result<Self, KeyDeserializeError>) {
        proof {
            lemma_pow256_values();
        }
        match take_uint(bytes, 16) {
            Ok(x) => Ok(x as u128),
            Err(e) => Err(e),
        }
    }
}

impl Codec<KeyEncoding> for u128 {
    proof fn round_trip(v: u128) {
        lemma_pow256_values();
        let bytes = be_bytes(v as nat, 16);
        lemma_uint_delimited(v as nat, 16, Seq::empty());
        assert(bytes + Seq::<u8>::empty() =~= bytes);
    }
}

impl KeySerde for u128 {
    type PartialKey = u128;

    open spec fn partial_decoding(bytes: Seq<u8>) -> Result<
        Option<(u128, int)>,
        KeyDeserializeError,
    > {
        whole_or_nothing(bytes, <u128 as Decodable<KeyEncoding>>::decoding(bytes))
    }

    proof fn partial_decoding_consumes(bytes: Seq<u8>) {
    }

    fn partial_decode(bytes: &mut &[u8]) -> (r: Result<Option<u128>, KeyDeserializeError>) {
        decode_whole_or_nothing::<u128>(bytes)
    }

    open spec fn partial_model(v: u128, rest: Seq<u8>) -> u128 {
        v
    }

    proof fn partial_of_nothing() {
    }

    proof fn partial_of_encoding(v: u128, rest: Seq<u8>) {
        lemma_pow256_values();
        lemma_uint_delimited(v as nat, 16, rest);
    }

    open spec fn key_lt(a: u128, b: u128) -> bool {
        a < b
    }

    proof fn delimited(v: u128, rest: Seq<u8>) {
        lemma_pow256_values();
        lemma_uint_delimited(v as nat, 16, rest);
    }

    proof fn order_preserved(a: u128, b: u128) {
        lemma_pow256_values();
        lemma_uint_order(a as nat, b as nat, 16);
    }
}

impl Encodable<KeyEncoding> for usize {
    open spec fn encoding(v: usize) -> Result<Seq<u8>, KeySerializeError> {
        Ok(be_bytes(v as nat, usize_width()))
    }

    fn encode(&self) -> (r: Result<Vec<u8>, KeySerializeError>) {
        Ok(encode_uint(*self as u128, usize_bytes()))
    }
}

impl Decodable<KeyEncoding> for usize {
    open spec fn decoding(bytes: Seq<u8>) -> Result<(usize, int), KeyDeserializeError> {
        match uint_decoding(bytes, usize_width()) {
            Ok((x, n)) => Ok((x as usize, n)),
            Err(e) => Err(e),
        }
    }

    proof fn decoding_consumes(bytes: Seq<u8>) {
    }

    fn decode(bytes: &mut &[u8]) -> (r: Result<Self, KeyDeserializeError>) {
        proof {
            lemma_usize_width();
        }
        match take_uint(bytes, usize_bytes()) {
            Ok(x) => Ok(x as usize),
            Err(e) => Err(e),
        }
    }
}

impl Codec<KeyEncoding> for usize {
    proof fn round_trip(v: usize) {
        lemma_usize_width();
        let bytes = be_bytes(v as nat, usize_width());
        lemma_uint_delimited(v as nat, usize_width(), Seq::empty());
        assert(bytes + Seq::<u8>::empty() =~= bytes);
    }
}

impl KeySerde for usize {
    type PartialKey = usize;

    open spec fn partial_decoding(bytes: Seq<u8>) -> Result<
        Option<(usize, int)>,
        KeyDeserializeError,
    > {
        whole_or_nothing(bytes, <usize as Decodable<KeyEncoding>>::decoding(bytes))
    }

    proof fn partial_decoding_consumes(bytes: Seq<u8>) {
    }

    fn partial_decode(bytes: &mut &[u8]) -> (r: Result<Option<usize>, KeyDeserializeError>) {
        decode_whole_or_nothing::<usize>(bytes)
    }

    open spec fn partial_model(v: usize, rest: Seq<u8>) -> usize {
        v
    }

    proof fn partial_of_nothing() {
    }

    proof fn partial_of_encoding(v: usize, rest: Seq<u8>) {
        lemma_usize_width();
        lemma_uint_delimited(v as nat, usize_width(), rest);
    }

    open spec fn key_lt(a: usize, b: usize) -> bool {
        a < b
    }

    proof fn delimited(v: usize, rest: Seq<u8>) {
        lemma_usize_width();
        lemma_uint_delimited(v as nat, usize_width(), rest);
    }

    proof fn order_preserved(a: usize, b: usize) {
        lemma_usize_width();
        lemma_uint_order(a as nat, b as nat, usize_width());
    }
}

impl Encodable<KeyEncoding> for i8 {
    open spec fn encoding(v: i8) -> Result<Seq<u8>, KeySerializeError> {
        Ok(be_bytes((v - i8::MIN) as nat, 1))
    }

    fn encode(&self) -> (r: Result<Vec<u8>, KeySerializeError>) {
        Ok(encode_uint((*self as i128 - i8::MIN as i128) as u128, 1))
    }
}

impl Decodable<KeyEncoding> for i8 {
    open spec fn decoding(bytes: Seq<u8>) -> Result<(i8, int), KeyDeserializeError> {
        match uint_decoding(bytes, 1) {
            Ok((x, n)) => Ok(((x + i8::MIN) as i8, n)),
            Err(e) => Err(e),
        }
    }

    proof fn decoding_consumes(bytes: Seq<u8>) {
    }

    fn decode(bytes: &mut &[u8]) -> (r: Result<Self, KeyDeserializeError>) {
        proof {
            lemma_pow256_values();
        }
        match take_uint(bytes, 1) {
            Ok(x) => Ok((x as i128 + i8::MIN as i128) as i8),
            Err(e) => Err(e),
        }
    }
}

impl Codec<KeyEncoding> for i8 {
    proof fn round_trip(v: i8) {
        lemma_pow256_values();
        let bytes = be_bytes((v - i8::MIN) as nat, 1);
        lemma_uint_delimited((v - i8::MIN) as nat, 1, Seq::empty());
        assert(bytes + Seq::<u8>::empty() =~= bytes);
    }
}

impl KeySerde for i8 {
    type PartialKey = i8;

    open spec fn partial_decoding(bytes: Seq<u8>) -> Result<
        Option<(i8, int)>,
        KeyDeserializeError,
    > {
        whole_or_nothing(bytes, <i8 as Decodable<KeyEncoding>>::decoding(bytes))
    }

    proof fn partial_decoding_consumes(bytes: Seq<u8>) {
    }

    fn partial_decode(bytes: &mut &[u8]) -> (r: Result<Option<i8>, KeyDeserializeError>) {
        decode_whole_or_nothing::<i8>(bytes)
    }

    open spec fn partial_model(v: i8, rest: Seq<u8>) -> i8 {
        v
    }

    proof fn partial_of_nothing() {
    }

    proof fn partial_of_encoding(v: i8, rest: Seq<u8>) {
        lemma_pow256_values();
        lemma_uint_delimited((v - i8::MIN) as nat, 1, rest);
    }

    open spec fn key_lt(a: i8, b: i8) -> bool {
        a < b
    }

    proof fn delimited(v: i8, rest: Seq<u8>) {
        lemma_pow256_values();
        lemma_uint_delimited((v - i8::MIN) as nat, 1, rest);
    }

    proof fn order_preserved(a: i8, b: i8) {
        lemma_pow256_values();
        lemma_uint_order((a - i8::MIN) as nat, (b - i8::MIN) as nat, 1);
    }
}

impl Encodable<KeyEncoding> for i16 {
    open spec fn encoding(v: i16) -> Result<Seq<u8>, KeySerializeError> {
        Ok(be_bytes((v - i16::MIN) as nat, 2))
    }

    fn encode(&self) -> (r: Result<Vec<u8>, KeySerializeError>) {
        Ok(encode_uint((*self as i128 - i16::MIN as i128) as u128, 2))
    }
}

impl Decodable<KeyEncoding> for i16 {
    open spec fn decoding(bytes: Seq<u8>) -> Result<(i16, int), KeyDeserializeError> {
        match uint_decoding(bytes, 2) {
            Ok((x, n)) => Ok(((x + i16::MIN) as i16, n)),
            Err(e) => Err(e),
        }
    }

    proof fn decoding_consumes(bytes: Seq<u8>) {
    }

    fn decode(bytes: &mut &[u8]) -> (r: Result<Self, KeyDeserializeError>) {
        proof {
            lemma_pow256_values();
        }
        match take_uint(bytes, 2) {
            Ok(x) => Ok((x as i128 + i16::MIN as i128) as i16),
            Err(e) => Err(e),
        }
    }
}

impl Codec<KeyEncoding> for i16 {
    proof fn round_trip(v: i16) {
        lemma_pow256_values();
        let bytes = be_bytes((v - i16::MIN) as nat, 2);
        lemma_uint_delimited((v - i16::MIN) as nat, 2, Seq::empty());
        assert(bytes + Seq::<u8>::empty() =~= bytes);
    }
}

impl KeySerde for i16 {
    type PartialKey = i16;

    open spec fn partial_decoding(bytes: Seq<u8>) -> Result<
        Option<(i16, int)>,
        KeyDeserializeError,
    > {
        whole_or_nothing(bytes, <i16 as Decodable<KeyEncoding>>::decoding(bytes))
    }

    proof fn partial_decoding_consumes(bytes: Seq<u8>) {
    }

    fn partial_decode(bytes: &mut &[u8]) -> (r: Result<Option<i16>, KeyDeserializeError>) {
        decode_whole_or_nothing::<i16>(bytes)
    }

    open spec fn partial_model(v: i16, rest: Seq<u8>) -> i16 {
        v
    }

    proof fn partial_of_nothing() {
    }

    proof fn partial_of_encoding(v: i16, rest: Seq<u8>) {
        lemma_pow256_values();
        lemma_uint_delimited((v - i16::MIN) as nat, 2, rest);
    }

    open spec fn key_lt(a: i16, b: i16) -> bool {
        a < b
    }

    proof fn delimited(v: i16, rest: Seq<u8>) {
        lemma_pow256_values();
        lemma_uint_delimited((v - i16::MIN) as nat, 2, rest);
    }

    proof fn order_preserved(a: i16, b: i16) {
        lemma_pow256_values();
        lemma_uint_order((a - i16::MIN) as nat, (b - i16::MIN) as nat, 2);
    }
}

impl Encodable<KeyEncoding> for i32 {
    open spec fn encoding(v: i32) -> Result<Seq<u8>, KeySerializeError> {
        Ok(be_bytes((v - i32::MIN) as nat, 4))
    }

    fn encode(&self) -> (r: Result<Vec<u8>, KeySerializeError>) {
        Ok(encode_uint((*self as i128 - i32::MIN as i128) as u128, 4))
    }
}

impl Decodable<KeyEncoding> for i32 {
    open spec fn decoding(bytes: Seq<u8>) -> Result<(i32, int), KeyDeserializeError> {
        match uint_decoding(bytes, 4) {
            Ok((x, n)) => Ok(((x + i32::MIN) as i32, n)),
            Err(e) => Err(e),
        }
    }

    proof fn decoding_consumes(bytes: Seq<u8>) {
    }

    fn decode(bytes: &mut &[u8]) -> (r: Result<Self, KeyDeserializeError>) {
        proof {
            lemma_pow256_values();
        }
        match take_uint(bytes, 4) {
            Ok(x) => Ok((x as i128 + i32::MIN as i128) as i32),
            Err(e) => Err(e),
        }
    }
}

impl Codec<KeyEncoding> for i32 {
    proof fn round_trip(v: i32) {
        lemma_pow256_values();
        let bytes = be_bytes((v - i32::MIN) as nat, 4);
        lemma_uint_delimited((v - i32::MIN) as nat, 4, Seq::empty());
        assert(bytes + Seq::<u8>::empty() =~= bytes);
    }
}

impl KeySerde for i32 {
    type PartialKey = i32;

    open spec fn partial_decoding(bytes: Seq<u8>) -> Result<
        Option<(i32, int)>,
        KeyDeserializeError,
    > {
        whole_or_nothing(bytes, <i32 as Decodable<KeyEncoding>>::decoding(bytes))
    }

    proof fn partial_decoding_consumes(bytes: Seq<u8>) {
    }

    fn partial_decode(bytes: &mut &[u8]) -> (r: Result<Option<i32>, KeyDeserializeError>) {
        decode_whole_or_nothing::<i32>(bytes)
    }

    open spec fn partial_model(v: i32, rest: Seq<u8>) -> i32 {
        v
    }

    proof fn partial_of_nothing() {
    }

    proof fn partial_of_encoding(v: i32, rest: Seq<u8>) {
        lemma_pow256_values();
        lemma_uint_delimited((v - i32::MIN) as nat, 4, rest);
    }

    open spec fn key_lt(a: i32, b: i32) -> bool {
        a < b
    }

    proof fn delimited(v: i32, rest: Seq<u8>) {
        lemma_pow256_values();
        lemma_uint_delimited((v - i32::MIN) as nat, 4, rest);
    }

    proof fn order_preserved(a: i32, b: i32) {
        lemma_pow256_values();
        lemma_uint_order((a - i32::MIN) as nat, (b - i32::MIN) as nat, 4);
    }
}

impl Encodable<KeyEncoding> for i64 {
    open spec fn encoding(v: i64) -> Result<Seq<u8>, KeySerializeError> {
        Ok(be_bytes((v - i64::MIN) as nat, 8))
    }

    fn encode(&self) -> (r: Result<Vec<u8>, KeySerializeError>) {
        Ok(encode_uint((*self as i128 - i64::MIN as i128) as u128, 8))
    }
}

impl Decodable<KeyEncoding> for i64 {
    open spec fn decoding(bytes: Seq<u8>) -> Result<(i64, int), KeyDeserializeError> {
        match uint_decoding(bytes, 8) {
            Ok((x, n)) => Ok(((x + i64::MIN) as i64, n)),
            Err(e) => Err(e),
        }
    }

    proof fn decoding_consumes(bytes: Seq<u8>) {
    }

    fn decode(bytes: &mut &[u8]) -> (r: Result<Self, KeyDeserializeError>) {
        proof {
            lemma_pow256_values();
        }
        match take_uint(bytes, 8) {
            Ok(x) => Ok((x as i128 + i64::MIN as i128) as i64),
            Err(e) => Err(e),
        }
    }
}

impl Codec<KeyEncoding> for i64 {
    proof fn round_trip(v: i64) {
        lemma_pow256_values();
        let bytes = be_bytes((v - i64::MIN) as nat, 8);
        lemma_uint_delimited((v - i64::MIN) as nat, 8, Seq::empty());
        assert(bytes + Seq::<u8>::empty() =~= bytes);
    }
}

impl KeySerde for i64 {
    type PartialKey = i64;

    open spec fn partial_decoding(bytes: Seq<u8>) -> Result<
        Option<(i64, int)>,
        KeyDeserializeError,
    > {
        whole_or_nothing(bytes, <i64 as Decodable<KeyEncoding>>::decoding(bytes))
    }

    proof fn partial_decoding_consumes(bytes: Seq<u8>) {
    }

    fn partial_decode(bytes: &mut &[u8]) -> (r: Result<Option<i64>, KeyDeserializeError>) {
        decode_whole_or_nothing::<i64>(bytes)
    }

    open spec fn partial_model(v: i64, rest: Seq<u8>) -> i64 {
        v
    }

    proof fn partial_of_nothing() {
    }

    proof fn partial_of_encoding(v: i64, rest: Seq<u8>) {
        lemma_pow256_values();
        lemma_uint_delimited((v - i64::MIN) as nat, 8, rest);
    }

    open spec fn key_lt(a: i64, b: i64) -> bool {
        a < b
    }

    proof fn delimited(v: i64, rest: Seq<u8>) {
        lemma_pow256_values();
        lemma_uint_delimited((v - i64::MIN) as nat, 8, rest);
    }

    proof fn order_preserved(a: i64, b: i64) {
        lemma_pow256_values();
        lemma_uint_order((a - i64::MIN) as nat, (b - i64::MIN) as nat, 8);
    }
}

impl Encodable<KeyEncoding> for i128 {
    open spec fn encoding(v: i128) -> Result<Seq<u8>, KeySerializeError> {
        Ok(be_bytes((v - i128::MIN) as nat, 16))
    }

    fn encode(&self) -> (r: Result<Vec<u8>, KeySerializeError>) {
        let lifted: u128 = if *self >= 0 {
            *self as u128 + 0x8000_0000_0000_0000_0000_0000_0000_0000u128
        } else {
            (*self - i128::MIN) as u128
        };
        Ok(encode_uint(lifted, 16))
    }
}

impl Decodable<KeyEncoding> for i128 {
    open spec fn decoding(bytes: Seq<u8>) -> Result<(i128, int), KeyDeserializeError> {
        match uint_decoding(bytes, 16) {
            Ok((x, n)) => Ok(((x + i128::MIN) as i128, n)),
            Err(e) => Err(e),
        }
    }

    proof fn decoding_consumes(bytes: Seq<u8>) {
    }

    fn decode(bytes: &mut &[u8]) -> (r: Result<Self, KeyDeserializeError>) {
        proof {
            lemma_pow256_values();
        }
        match take_uint(bytes, 16) {
            Ok(x) => if x >= 0x8000_0000_0000_0000_0000_0000_0000_0000u128 {
                Ok((x - 0x8000_0000_0000_0000_0000_0000_0000_0000u128) as i128)
            } else {
                Ok(x as i128 + i128::MIN)
            },
            Err(e) => Err(e),
        }
    }
}

impl Codec<KeyEncoding> for i128 {
    proof fn round_trip(v: i128) {
        lemma_pow256_values();
        let bytes = be_bytes((v - i128::MIN) as nat, 16);
        lemma_uint_delimited((v - i128::MIN) as nat, 16, Seq::empty());
        assert(bytes + Seq::<u8>::empty() =~= bytes);
    }
}

impl KeySerde for i128 {
    type PartialKey = i128;

    open spec fn partial_decoding(bytes: Seq<u8>) -> Result<
        Option<(i128, int)>,
        KeyDeserializeError,
    > {
        whole_or_nothing(bytes, <i128 as Decodable<KeyEncoding>>::decoding(bytes))
    }

    proof fn partial_decoding_consumes(bytes: Seq<u8>) {
    }

    fn partial_decode(bytes: &mut &[u8]) -> (r: Result<Option<i128>, KeyDeserializeError>) {
        decode_whole_or_nothing::<i128>(bytes)
    }

    open spec fn partial_model(v: i128, rest: Seq<u8>) -> i128 {
        v
    }

    proof fn partial_of_nothing() {
    }

    proof fn partial_of_encoding(v: i128, rest: Seq<u8>) {
        lemma_pow256_values();
        lemma_uint_delimited((v - i128::MIN) as nat, 16, rest);
    }

    open spec fn key_lt(a: i128, b: i128) -> bool {
        a < b
    }

    proof fn delimited(v: i128, rest: Seq<u8>) {
        lemma_pow256_values();
        lemma_uint_delimited((v - i128::MIN) as nat, 16, rest);
    }

    proof fn order_preserved(a: i128, b: i128) {
        lemma_pow256_values();
        lemma_uint_order((a - i128::MIN) as nat, (b - i128::MIN) as nat, 16);
    }
}

impl Encodable<KeyEncoding> for isize {
    open spec fn encoding(v: isize) -> Result<Seq<u8>, KeySerializeError> {
        Ok(be_bytes((v - isize::MIN) as nat, usize_width()))
    }

    fn encode(&self) -> (r: Result<Vec<u8>, KeySerializeError>) {
        Ok(encode_uint((*self as i128 - isize::MIN as i128) as u128, usize_bytes()))
    }
}

impl Decodable<KeyEncoding> for isize {
    open spec fn decoding(bytes: Seq<u8>) -> Result<(isize, int), KeyDeserializeError> {
        match uint_decoding(bytes, usize_width()) {
            Ok((x, n)) => Ok(((x + isize::MIN) as isize, n)),
            Err(e) => Err(e),
        }
    }

    proof fn decoding_consumes(bytes: Seq<u8>) {
    }

    fn decode(bytes: &mut &[u8]) -> (r: Result<Self, KeyDeserializeError>) {
        proof {
            lemma_usize_width();
        }
        match take_uint(bytes, usize_bytes()) {
            Ok(x) => Ok((x as i128 + isize::MIN as i128) as isize),
            Err(e) => Err(e),
        }
    }
}

impl Codec<KeyEncoding> for isize {
    proof fn round_trip(v: isize) {
        lemma_usize_width();
        let bytes = be_bytes((v - isize::MIN) as nat, usize_width());
        lemma_uint_delimited((v - isize::MIN) as nat, usize_width(), Seq::empty());
        assert(bytes + Seq::<u8>::empty() =~= bytes);
    }
}

impl KeySerde for isize {
    type PartialKey = isize;

    open spec fn partial_decoding(bytes: Seq<u8>) -> Result<
        Option<(isize, int)>,
        KeyDeserializeError,
    > {
        whole_or_nothing(bytes, <isize as Decodable<KeyEncoding>>::decoding(bytes))
    }

    proof fn partial_decoding_consumes(bytes: Seq<u8>) {
    }

    fn partial_decode(bytes: &mut &[u8]) -> (r: Result<Option<isize>, KeyDeserializeError>) {
        decode_whole_or_nothing::<isize>(bytes)
    }

    open spec fn partial_model(v: isize, rest: Seq<u8>) -> isize {
        v
    }

    proof fn partial_of_nothing() {
    }

    proof fn partial_of_encoding(v: isize, rest: Seq<u8>) {
        lemma_usize_width();
        lemma_uint_delimited((v - isize::MIN) as nat, usize_width(), rest);
    }

    open spec fn key_lt(a: isize, b: isize) -> bool {
        a < b
    }

    proof fn delimited(v: isize, rest: Seq<u8>) {
        lemma_usize_width();
        lemma_uint_delimited((v - isize::MIN) as nat, usize_width(), rest);
    }

    proof fn order_preserved(a: isize, b: isize) {
        lemma_usize_width();
        lemma_uint_order((a - isize::MIN) as nat, (b - isize::MIN) as nat, usize_width());
    }
}

} // verus!
