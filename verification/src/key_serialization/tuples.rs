//! Tuples as keys: the segments' encodings one after another, compared
//! segment by segment. A tuple of more than two segments is its first segment
//! and then the tuple of the others.
use vstd::prelude::*;
use crate::error::{KeyDeserializeError, KeySerializeError};
use crate::key::{
    decode_whole_or_nothing, lemma_pair_delimited, lemma_pair_order, lemma_pair_round_trip,
    pair_decoding, pair_encoding, pair_lt, whole_or_nothing, KeySerde,
};
use crate::key_serialization::bytes::append_bytes;
use crate::key_serialization::KeyEncoding;
use crate::serialization::{Codec, Decodable, Encodable};

verus! {

impl<A, B> Encodable<KeyEncoding> for (A, B) where
    A: Encodable<KeyEncoding>,
    B: Encodable<KeyEncoding>,
 {
    open spec fn encoding(v: Self::V) -> Result<Seq<u8>, KeySerializeError> {
        pair_encoding::<A, B>(v.0, v.1)
    }

    fn encode(&self) -> (r: Result<Vec<u8>, KeySerializeError>) {
        let mut bytes = match self.0.encode() {
            Ok(bytes) => bytes,
            Err(e) => {
                return Err(e);
            },
        };
        let second = match self.1.encode() {
            Ok(second) => second,
            Err(e) => {
                return Err(e);
            },
        };
        append_bytes(&mut bytes, second.as_slice());
        Ok(bytes)
    }
}

impl<A, B> Decodable<KeyEncoding> for (A, B) where
    A: Decodable<KeyEncoding>,
    B: Decodable<KeyEncoding>,
 {
    open spec fn decoding(bytes: Seq<u8>) -> Result<(Self::V, int), KeyDeserializeError> {
        pair_decoding::<A, B>(bytes)
    }

    proof fn decoding_consumes(bytes: Seq<u8>) {
        A::decoding_consumes(bytes);
        if let Ok((_, n)) = A::decoding(bytes) {
            B::decoding_consumes(bytes.skip(n));
        }
    }

    fn decode(bytes: &mut &[u8]) -> (r: Result<Self, KeyDeserializeError>) {
        let start: &[u8] = *bytes;
        let first = match A::decode(bytes) {
            Ok(first) => first,
            Err(e) => {
                return Err(e);
            },
        };
        let ghost after_first = bytes@;
        let second = match B::decode(bytes) {
            Ok(second) => second,
            Err(e) => {
                *bytes = start;
                return Err(e);
            },
        };
        proof {
            A::decoding_consumes(start@);
            assert(after_first =~= start@.skip(start@.len() - after_first.len()));
            assert(bytes@ =~= start@.skip(start@.len() - bytes@.len()));
        }
        Ok((first, second))
    }
}

impl<A, B> Codec<KeyEncoding> for (A, B) where
    A: KeySerde,
    B: Codec<KeyEncoding>,
 {
    proof fn round_trip(v: Self::V) {
        lemma_pair_round_trip::<A, B>(v.0, v.1);
    }
}

impl<A, B> KeySerde for (A, B) where
    A: KeySerde,
    B: KeySerde,
 {
    type PartialKey = (A, B);

    open spec fn partial_decoding(bytes: Seq<u8>) -> Result<
        Option<(Self::V, int)>,
        KeyDeserializeError,
    > {
        whole_or_nothing(bytes, <Self as Decodable<KeyEncoding>>::decoding(bytes))
    }

    proof fn partial_decoding_consumes(bytes: Seq<u8>) {
        <Self as Decodable<KeyEncoding>>::decoding_consumes(bytes);
    }

    fn partial_decode(bytes: &mut &[u8]) -> (r: Result<Option<Self>, KeyDeserializeError>) {
        decode_whole_or_nothing::<Self>(bytes)
    }

    open spec fn partial_model(v: Self::V, rest: Seq<u8>) -> Self::V {
        v
    }

    proof fn partial_of_nothing() {
    }

    proof fn partial_of_encoding(v: Self::V, rest: Seq<u8>) {
        lemma_pair_delimited::<A, B>(v.0, v.1, rest);
    }

    open spec fn key_lt(a: Self::V, b: Self::V) -> bool {
        pair_lt::<A, B>(a, b)
    }

    proof fn delimited(v: Self::V, rest: Seq<u8>) {
        lemma_pair_delimited::<A, B>(v.0, v.1, rest);
    }

    proof fn order_preserved(a: Self::V, b: Self::V) {
        lemma_pair_order::<A, B>(a, b);
    }
}

impl<A, B, C> Encodable<KeyEncoding> for (A, B, C) where
    A: Encodable<KeyEncoding>,
    B: Encodable<KeyEncoding>,
    C: Encodable<KeyEncoding>,
 {
    open spec fn encoding(v: Self::V) -> Result<Seq<u8>, KeySerializeError> {
        pair_encoding::<A, (B, C)>(v.0, (v.1, v.2))
    }

    fn encode(&self) -> (r: Result<Vec<u8>, KeySerializeError>) {
        let mut bytes = match self.0.encode() {
            Ok(bytes) => bytes,
            Err(e) => {
                return Err(e);
            },
        };
        let second = match self.1.encode() {
            Ok(second) => second,
            Err(e) => {
                return Err(e);
            },
        };
        let third = match self.2.encode() {
            Ok(third) => third,
            Err(e) => {
                return Err(e);
            },
        };
        append_bytes(&mut bytes, second.as_slice());
        append_bytes(&mut bytes, third.as_slice());
        proof {
            let after = second@ + third@;
            assert(bytes@ =~= A::encoding(self.0.deep_view())->Ok_0 + after);
        }
        Ok(bytes)
    }
}

impl<A, B, C> Decodable<KeyEncoding> for (A, B, C) where
    A: Decodable<KeyEncoding>,
    B: Decodable<KeyEncoding>,
    C: Decodable<KeyEncoding>,
 {
    open spec fn decoding(bytes: Seq<u8>) -> Result<(Self::V, int), KeyDeserializeError> {
        match pair_decoding::<A, (B, C)>(bytes) {
            Ok(((a, rest), n)) => Ok(((a, rest.0, rest.1), n)),
            Err(e) => Err(e),
        }
    }

    proof fn decoding_consumes(bytes: Seq<u8>) {
        A::decoding_consumes(bytes);
        if let Ok((_, n)) = A::decoding(bytes) {
            <(B, C) as Decodable<KeyEncoding>>::decoding_consumes(bytes.skip(n));
        }
    }

    fn decode(bytes: &mut &[u8]) -> (r: Result<Self, KeyDeserializeError>) {
        let start: &[u8] = *bytes;
        let first = match A::decode(bytes) {
            Ok(first) => first,
            Err(e) => {
                return Err(e);
            },
        };
        let ghost after_first = bytes@;
        let second = match B::decode(bytes) {
            Ok(second) => second,
            Err(e) => {
                *bytes = start;
                return Err(e);
            },
        };
        let ghost after_second = bytes@;
        let third = match C::decode(bytes) {
            Ok(third) => third,
            Err(e) => {
                *bytes = start;
                return Err(e);
            },
        };
        proof {
            A::decoding_consumes(start@);
            B::decoding_consumes(after_first);
            assert(after_first =~= start@.skip(start@.len() - after_first.len()));
            assert(after_second =~= start@.skip(start@.len() - after_second.len()));
            assert(bytes@ =~= start@.skip(start@.len() - bytes@.len()));
            assert(after_second =~= after_first.skip(after_first.len() - after_second.len()));
        }
        Ok((first, second, third))
    }
}

impl<A, B, C> Codec<KeyEncoding> for (A, B, C) where
    A: KeySerde,
    B: KeySerde,
    C: Codec<KeyEncoding>,
 {
    proof fn round_trip(v: Self::V) {
        lemma_pair_round_trip::<A, (B, C)>(v.0, (v.1, v.2));
    }
}

impl<A, B, C> KeySerde for (A, B, C) where
    A: KeySerde,
    B: KeySerde,
    C: KeySerde,
 {
    type PartialKey = (A, B, C);

    open spec fn partial_decoding(bytes: Seq<u8>) -> Result<
        Option<(Self::V, int)>,
        KeyDeserializeError,
    > {
        whole_or_nothing(bytes, <Self as Decodable<KeyEncoding>>::decoding(bytes))
    }

    proof fn partial_decoding_consumes(bytes: Seq<u8>) {
        <Self as Decodable<KeyEncoding>>::decoding_consumes(bytes);
    }

    fn partial_decode(bytes: &mut &[u8]) -> (r: Result<Option<Self>, KeyDeserializeError>) {
        decode_whole_or_nothing::<Self>(bytes)
    }

    open spec fn partial_model(v: Self::V, rest: Seq<u8>) -> Self::V {
        v
    }

    proof fn partial_of_nothing() {
    }

    proof fn partial_of_encoding(v: Self::V, rest: Seq<u8>) {
        lemma_pair_delimited::<A, (B, C)>(v.0, (v.1, v.2), rest);
    }

    open spec fn key_lt(a: Self::V, b: Self::V) -> bool {
        pair_lt::<A, (B, C)>(
            (a.0, (a.1, a.2)),
            (b.0, (b.1, b.2)),
        )
    }

    proof fn delimited(v: Self::V, rest: Seq<u8>) {
        lemma_pair_delimited::<A, (B, C)>(v.0, (v.1, v.2), rest);
    }

    proof fn order_preserved(a: Self::V, b: Self::V) {
        lemma_pair_order::<A, (B, C)>(
            (a.0, (a.1, a.2)),
            (b.0, (b.1, b.2)),
        );
    }
}

impl<A, B, C, D> Encodable<KeyEncoding> for (A, B, C, D) where
    A: Encodable<KeyEncoding>,
    B: Encodable<KeyEncoding>,
    C: Encodable<KeyEncoding>,
    D: Encodable<KeyEncoding>,
 {
    open spec fn encoding(v: Self::V) -> Result<Seq<u8>, KeySerializeError> {
        pair_encoding::<A, (B, C, D)>(v.0, (v.1, v.2, v.3))
    }

    fn encode(&self) -> (r: Result<Vec<u8>, KeySerializeError>) {
        let mut bytes = match self.0.encode() {
            Ok(bytes) => bytes,
            Err(e) => {
                return Err(e);
            },
        };
        let second = match self.1.encode() {
            Ok(second) => second,
            Err(e) => {
                return Err(e);
            },
        };
        let third = match self.2.encode() {
            Ok(third) => third,
            Err(e) => {
                return Err(e);
            },
        };
        let fourth = match self.3.encode() {
            Ok(fourth) => fourth,
            Err(e) => {
                return Err(e);
            },
        };
        append_bytes(&mut bytes, second.as_slice());
        append_bytes(&mut bytes, third.as_slice());
        append_bytes(&mut bytes, fourth.as_slice());
        proof {
            let after = third@ + fourth@;
            let after = second@ + after;
            assert(bytes@ =~= A::encoding(self.0.deep_view())->Ok_0 + after);
        }
        Ok(bytes)
    }
}

impl<A, B, C, D> Decodable<KeyEncoding> for (A, B, C, D) where
    A: Decodable<KeyEncoding>,
    B: Decodable<KeyEncoding>,
    C: Decodable<KeyEncoding>,
    D: Decodable<KeyEncoding>,
 {
    open spec fn decoding(bytes: Seq<u8>) -> Result<(Self::V, int), KeyDeserializeError> {
        match pair_decoding::<A, (B, C, D)>(bytes) {
            Ok(((a, rest), n)) => Ok(((a, rest.0, rest.1, rest.2), n)),
            Err(e) => Err(e),
        }
    }

    proof fn decoding_consumes(bytes: Seq<u8>) {
        A::decoding_consumes(bytes);
        if let Ok((_, n)) = A::decoding(bytes) {
            <(B, C, D) as Decodable<KeyEncoding>>::decoding_consumes(bytes.skip(n));
        }
    }

    fn decode(bytes: &mut &[u8]) -> (r: Result<Self, KeyDeserializeError>) {
        let start: &[u8] = *bytes;
        let first = match A::decode(bytes) {
            Ok(first) => first,
            Err(e) => {
                return Err(e);
            },
        };
        let ghost after_first = bytes@;
        let second = match B::decode(bytes) {
            Ok(second) => second,
            Err(e) => {
                *bytes = start;
                return Err(e);
            },
        };
        let ghost after_second = bytes@;
        let third = match C::decode(bytes) {
            Ok(third) => third,
            Err(e) => {
                *bytes = start;
                return Err(e);
            },
        };
        let ghost after_third = bytes@;
        let fourth = match D::decode(bytes) {
            Ok(fourth) => fourth,
            Err(e) => {
                *bytes = start;
                return Err(e);
            },
        };
        proof {
            A::decoding_consumes(start@);
            B::decoding_consumes(after_first);
            C::decoding_consumes(after_second);
            assert(after_first =~= start@.skip(start@.len() - after_first.len()));
            assert(after_second =~= start@.skip(start@.len() - after_second.len()));
            assert(after_third =~= start@.skip(start@.len() - after_third.len()));
            assert(bytes@ =~= start@.skip(start@.len() - bytes@.len()));
            assert(after_second =~= after_first.skip(after_first.len() - after_second.len()));
            assert(after_third =~= after_second.skip(after_second.len() - after_third.len()));
        }
        Ok((first, second, third, fourth))
    }
}

impl<A, B, C, D> Codec<KeyEncoding> for (A, B, C, D) where
    A: KeySerde,
    B: KeySerde,
    C: KeySerde,
    D: Codec<KeyEncoding>,
 {
    proof fn round_trip(v: Self::V) {
        lemma_pair_round_trip::<A, (B, C, D)>(v.0, (v.1, v.2, v.3));
    }
}

impl<A, B, C, D> KeySerde for (A, B, C, D) where
    A: KeySerde,
    B: KeySerde,
    C: KeySerde,
    D: KeySerde,
 {
    type PartialKey = (A, B, C, D);

    open spec fn partial_decoding(bytes: Seq<u8>) -> Result<
        Option<(Self::V, int)>,
        KeyDeserializeError,
    > {
        whole_or_nothing(bytes, <Self as Decodable<KeyEncoding>>::decoding(bytes))
    }

    proof fn partial_decoding_consumes(bytes: Seq<u8>) {
        <Self as Decodable<KeyEncoding>>::decoding_consumes(bytes);
    }

    fn partial_decode(bytes: &mut &[u8]) -> (r: Result<Option<Self>, KeyDeserializeError>) {
        decode_whole_or_nothing::<Self>(bytes)
    }

    open spec fn partial_model(v: Self::V, rest: Seq<u8>) -> Self::V {
        v
    }

    proof fn partial_of_nothing() {
    }

    proof fn partial_of_encoding(v: Self::V, rest: Seq<u8>) {
        lemma_pair_delimited::<A, (B, C, D)>(v.0, (v.1, v.2, v.3), rest);
    }

    open spec fn key_lt(a: Self::V, b: Self::V) -> bool {
        pair_lt::<A, (B, C, D)>(
            (a.0, (a.1, a.2, a.3)),
            (b.0, (b.1, b.2, b.3)),
        )
    }

    proof fn delimited(v: Self::V, rest: Seq<u8>) {
        lemma_pair_delimited::<A, (B, C, D)>(v.0, (v.1, v.2, v.3), rest);
    }

    proof fn order_preserved(a: Self::V, b: Self::V) {
        lemma_pair_order::<A, (B, C, D)>(
            (a.0, (a.1, a.2, a.3)),
            (b.0, (b.1, b.2, b.3)),
        );
    }
}

impl<A, B, C, D, E> Encodable<KeyEncoding> for (A, B, C, D, E) where
    A: Encodable<KeyEncoding>,
    B: Encodable<KeyEncoding>,
    C: Encodable<KeyEncoding>,
    D: Encodable<KeyEncoding>,
    E: Encodable<KeyEncoding>,
 {
    open spec fn encoding(v: Self::V) -> Result<Seq<u8>, KeySerializeError> {
        pair_encoding::<A, (B, C, D, E)>(v.0, (v.1, v.2, v.3, v.4))
    }

    fn encode(&self) -> (r: Result<Vec<u8>, KeySerializeError>) {
        let mut bytes = match self.0.encode() {
            Ok(bytes) => bytes,
            Err(e) => {
                return Err(e);
            },
        };
        let second = match self.1.encode() {
            Ok(second) => second,
            Err(e) => {
                return Err(e);
            },
        };
        let third = match self.2.encode() {
            Ok(third) => third,
            Err(e) => {
                return Err(e);
            },
        };
        let fourth = match self.3.encode() {
            Ok(fourth) => fourth,
            Err(e) => {
                return Err(e);
            },
        };
        let fifth = match self.4.encode() {
            Ok(fifth) => fifth,
            Err(e) => {
                return Err(e);
            },
        };
        append_bytes(&mut bytes, second.as_slice());
        append_bytes(&mut bytes, third.as_slice());
        append_bytes(&mut bytes, fourth.as_slice());
        append_bytes(&mut bytes, fifth.as_slice());
        proof {
            let after = fourth@ + fifth@;
            let after = third@ + after;
            let after = second@ + after;
            assert(bytes@ =~= A::encoding(self.0.deep_view())->Ok_0 + after);
        }
        Ok(bytes)
    }
}

impl<A, B, C, D, E> Decodable<KeyEncoding> for (A, B, C, D, E) where
    A: Decodable<KeyEncoding>,
    B: Decodable<KeyEncoding>,
    C: Decodable<KeyEncoding>,
    D: Decodable<KeyEncoding>,
    E: Decodable<KeyEncoding>,
 {
    open spec fn decoding(bytes: Seq<u8>) -> Result<(Self::V, int), KeyDeserializeError> {
        match pair_decoding::<A, (B, C, D, E)>(bytes) {
            Ok(((a, rest), n)) => Ok(((a, rest.0, rest.1, rest.2, rest.3), n)),
            Err(e) => Err(e),
        }
    }

    proof fn decoding_consumes(bytes: Seq<u8>) {
        A::decoding_consumes(bytes);
        if let Ok((_, n)) = A::decoding(bytes) {
            <(B, C, D, E) as Decodable<KeyEncoding>>::decoding_consumes(bytes.skip(n));
        }
    }

    fn decode(bytes: &mut &[u8]) -> (r: Result<Self, KeyDeserializeError>) {
        let start: &[u8] = *bytes;
        let first = match A::decode(bytes) {
            Ok(first) => first,
            Err(e) => {
                return Err(e);
            },
        };
        let ghost after_first = bytes@;
        let second = match B::decode(bytes) {
            Ok(second) => second,
            Err(e) => {
                *bytes = start;
                return Err(e);
            },
        };
        let ghost after_second = bytes@;
        let third = match C::decode(bytes) {
            Ok(third) => third,
            Err(e) => {
                *bytes = start;
                return Err(e);
            },
        };
        let ghost after_third = bytes@;
        let fourth = match D::decode(bytes) {
            Ok(fourth) => fourth,
            Err(e) => {
                *bytes = start;
                return Err(e);
            },
        };
        let ghost after_fourth = bytes@;
        let fifth = match E::decode(bytes) {
            Ok(fifth) => fifth,
            Err(e) => {
                *bytes = start;
                return Err(e);
            },
        };
        proof {
            A::decoding_consumes(start@);
            B::decoding_consumes(after_first);
            C::decoding_consumes(after_second);
            D::decoding_consumes(after_third);
            assert(after_first =~= start@.skip(start@.len() - after_first.len()));
            assert(after_second =~= start@.skip(start@.len() - after_second.len()));
            assert(after_third =~= start@.skip(start@.len() - after_third.len()));
            assert(after_fourth =~= start@.skip(start@.len() - after_fourth.len()));
            assert(bytes@ =~= start@.skip(start@.len() - bytes@.len()));
            assert(after_second =~= after_first.skip(after_first.len() - after_second.len()));
            assert(after_third =~= after_second.skip(after_second.len() - after_third.len()));
            assert(after_fourth =~= after_third.skip(after_third.len() - after_fourth.len()));
        }
        Ok((first, second, third, fourth, fifth))
    }
}

impl<A, B, C, D, E> Codec<KeyEncoding> for (A, B, C, D, E) where
    A: KeySerde,
    B: KeySerde,
    C: KeySerde,
    D: KeySerde,
    E: Codec<KeyEncoding>,
 {
    proof fn round_trip(v: Self::V) {
        lemma_pair_round_trip::<A, (B, C, D, E)>(v.0, (v.1, v.2, v.3, v.4));
    }
}

impl<A, B, C, D, E> KeySerde for (A, B, C, D, E) where
    A: KeySerde,
    B: KeySerde,
    C: KeySerde,
    D: KeySerde,
    E: KeySerde,
 {
    type PartialKey = (A, B, C, D, E);

    open spec fn partial_decoding(bytes: Seq<u8>) -> Result<
        Option<(Self::V, int)>,
        KeyDeserializeError,
    > {
        whole_or_nothing(bytes, <Self as Decodable<KeyEncoding>>::decoding(bytes))
    }

    proof fn partial_decoding_consumes(bytes: Seq<u8>) {
        <Self as Decodable<KeyEncoding>>::decoding_consumes(bytes);
    }

    fn partial_decode(bytes: &mut &[u8]) -> (r: Result<Option<Self>, KeyDeserializeError>) {
        decode_whole_or_nothing::<Self>(bytes)
    }

    open spec fn partial_model(v: Self::V, rest: Seq<u8>) -> Self::V {
        v
    }

    proof fn partial_of_nothing() {
    }

    proof fn partial_of_encoding(v: Self::V, rest: Seq<u8>) {
        lemma_pair_delimited::<A, (B, C, D, E)>(v.0, (v.1, v.2, v.3, v.4), rest);
    }

    open spec fn key_lt(a: Self::V, b: Self::V) -> bool {
        pair_lt::<A, (B, C, D, E)>(
            (a.0, (a.1, a.2, a.3, a.4)),
            (b.0, (b.1, b.2, b.3, b.4)),
        )
    }

    proof fn delimited(v: Self::V, rest: Seq<u8>) {
        lemma_pair_delimited::<A, (B, C, D, E)>(v.0, (v.1, v.2, v.3, v.4), rest);
    }

    proof fn order_preserved(a: Self::V, b: Self::V) {
        lemma_pair_order::<A, (B, C, D, E)>(
            (a.0, (a.1, a.2, a.3, a.4)),
            (b.0, (b.1, b.2, b.3, b.4)),
        );
    }
}

impl<A, B, C, D, E, F> Encodable<KeyEncoding> for (A, B, C, D, E, F) where
    A: Encodable<KeyEncoding>,
    B: Encodable<KeyEncoding>,
    C: Encodable<KeyEncoding>,
    D: Encodable<KeyEncoding>,
    E: Encodable<KeyEncoding>,
    F: Encodable<KeyEncoding>,
 {
    open spec fn encoding(v: Self::V) -> Result<Seq<u8>, KeySerializeError> {
        pair_encoding::<A, (B, C, D, E, F)>(v.0, (v.1, v.2, v.3, v.4, v.5))
    }

    fn encode(&self) -> (r: Result<Vec<u8>, KeySerializeError>) {
        let mut bytes = match self.0.encode() {
            Ok(bytes) => bytes,
            Err(e) => {
                return Err(e);
            },
        };
        let second = match self.1.encode() {
            Ok(second) => second,
            Err(e) => {
                return Err(e);
            },
        };
        let third = match self.2.encode() {
            Ok(third) => third,
            Err(e) => {
                return Err(e);
            },
        };
        let fourth = match self.3.encode() {
            Ok(fourth) => fourth,
            Err(e) => {
                return Err(e);
            },
        };
        let fifth = match self.4.encode() {
            Ok(fifth) => fifth,
            Err(e) => {
                return Err(e);
            },
        };
        let sixth = match self.5.encode() {
            Ok(sixth) => sixth,
            Err(e) => {
                return Err(e);
            },
        };
        append_bytes(&mut bytes, second.as_slice());
        append_bytes(&mut bytes, third.as_slice());
        append_bytes(&mut bytes, fourth.as_slice());
        append_bytes(&mut bytes, fifth.as_slice());
        append_bytes(&mut bytes, sixth.as_slice());
        proof {
            let after = fifth@ + sixth@;
            let after = fourth@ + after;
            let after = third@ + after;
            let after = second@ + after;
            assert(bytes@ =~= A::encoding(self.0.deep_view())->Ok_0 + after);
        }
        Ok(bytes)
    }
}

impl<A, B, C, D, E, F> Decodable<KeyEncoding> for (A, B, C, D, E, F) where
    A: Decodable<KeyEncoding>,
    B: Decodable<KeyEncoding>,
    C: Decodable<KeyEncoding>,
    D: Decodable<KeyEncoding>,
    E: Decodable<KeyEncoding>,
    F: Decodable<KeyEncoding>,
 {
    open spec fn decoding(bytes: Seq<u8>) -> Result<(Self::V, int), KeyDeserializeError> {
        match pair_decoding::<A, (B, C, D, E, F)>(bytes) {
            Ok(((a, rest), n)) => Ok(((a, rest.0, rest.1, rest.2, rest.3, rest.4), n)),
            Err(e) => Err(e),
        }
    }

    proof fn decoding_consumes(bytes: Seq<u8>) {
        A::decoding_consumes(bytes);
        if let Ok((_, n)) = A::decoding(bytes) {
            <(B, C, D, E, F) as Decodable<KeyEncoding>>::decoding_consumes(bytes.skip(n));
        }
    }

    fn decode(bytes: &mut &[u8]) -> (r: Result<Self, KeyDeserializeError>) {
        let start: &[u8] = *bytes;
        let first = match A::decode(bytes) {
            Ok(first) => first,
            Err(e) => {
                return Err(e);
            },
        };
        let ghost after_first = bytes@;
        let second = match B::decode(bytes) {
            Ok(second) => second,
            Err(e) => {
                *bytes = start;
                return Err(e);
            },
        };
        let ghost after_second = bytes@;
        let third = match C::decode(bytes) {
            Ok(third) => third,
            Err(e) => {
                *bytes = start;
                return Err(e);
            },
        };
        let ghost after_third = bytes@;
        let fourth = match D::decode(bytes) {
            Ok(fourth) => fourth,
            Err(e) => {
                *bytes = start;
                return Err(e);
            },
        };
        let ghost after_fourth = bytes@;
        let fifth = match E::decode(bytes) {
            Ok(fifth) => fifth,
            Err(e) => {
                *bytes = start;
                return Err(e);
            },
        };
        let ghost after_fifth = bytes@;
        let sixth = match F::decode(bytes) {
            Ok(sixth) => sixth,
            Err(e) => {
                *bytes = start;
                return Err(e);
            },
        };
        proof {
            A::decoding_consumes(start@);
            B::decoding_consumes(after_first);
            C::decoding_consumes(after_second);
            D::decoding_consumes(after_third);
            E::decoding_consumes(after_fourth);
            assert(after_first =~= start@.skip(start@.len() - after_first.len()));
            assert(after_second =~= start@.skip(start@.len() - after_second.len()));
            assert(after_third =~= start@.skip(start@.len() - after_third.len()));
            assert(after_fourth =~= start@.skip(start@.len() - after_fourth.len()));
            assert(after_fifth =~= start@.skip(start@.len() - after_fifth.len()));
            assert(bytes@ =~= start@.skip(start@.len() - bytes@.len()));
            assert(after_second =~= after_first.skip(after_first.len() - after_second.len()));
            assert(after_third =~= after_second.skip(after_second.len() - after_third.len()));
            assert(after_fourth =~= after_third.skip(after_third.len() - after_fourth.len()));
            assert(after_fifth =~= after_fourth.skip(after_fourth.len() - after_fifth.len()));
        }
        Ok((first, second, third, fourth, fifth, sixth))
    }
}

impl<A, B, C, D, E, F> Codec<KeyEncoding> for (A, B, C, D, E, F) where
    A: KeySerde,
    B: KeySerde,
    C: KeySerde,
    D: KeySerde,
    E: KeySerde,
    F: Codec<KeyEncoding>,
 {
    proof fn round_trip(v: Self::V) {
        lemma_pair_round_trip::<A, (B, C, D, E, F)>(v.0, (v.1, v.2, v.3, v.4, v.5));
    }
}

impl<A, B, C, D, E, F> KeySerde for (A, B, C, D, E, F) where
    A: KeySerde,
    B: KeySerde,
    C: KeySerde,
    D: KeySerde,
    E: KeySerde,
    F: KeySerde,
 {
    type PartialKey = (A, B, C, D, E, F);

    open spec fn partial_decoding(bytes: Seq<u8>) -> Result<
        Option<(Self::V, int)>,
        KeyDeserializeError,
    > {
        whole_or_nothing(bytes, <Self as Decodable<KeyEncoding>>::decoding(bytes))
    }

    proof fn partial_decoding_consumes(bytes: Seq<u8>) {
        <Self as Decodable<KeyEncoding>>::decoding_consumes(bytes);
    }

    fn partial_decode(bytes: &mut &[u8]) -> (r: Result<Option<Self>, KeyDeserializeError>) {
        decode_whole_or_nothing::<Self>(bytes)
    }

    open spec fn partial_model(v: Self::V, rest: Seq<u8>) -> Self::V {
        v
    }

    proof fn partial_of_nothing() {
    }

    proof fn partial_of_encoding(v: Self::V, rest: Seq<u8>) {
        lemma_pair_delimited::<A, (B, C, D, E, F)>(v.0, (v.1, v.2, v.3, v.4, v.5), rest);
    }

    open spec fn key_lt(a: Self::V, b: Self::V) -> bool {
        pair_lt::<A, (B, C, D, E, F)>(
            (a.0, (a.1, a.2, a.3, a.4, a.5)),
            (b.0, (b.1, b.2, b.3, b.4, b.5)),
        )
    }

    proof fn delimited(v: Self::V, rest: Seq<u8>) {
        lemma_pair_delimited::<A, (B, C, D, E, F)>(v.0, (v.1, v.2, v.3, v.4, v.5), rest);
    }

    proof fn order_preserved(a: Self::V, b: Self::V) {
        lemma_pair_order::<A, (B, C, D, E, F)>(
            (a.0, (a.1, a.2, a.3, a.4, a.5)),
            (b.0, (b.1, b.2, b.3, b.4, b.5)),
        );
    }
}

impl<A, B, C, D, E, F, G> Encodable<KeyEncoding> for (A, B, C, D, E, F, G) where
    A: Encodable<KeyEncoding>,
    B: Encodable<KeyEncoding>,
    C: Encodable<KeyEncoding>,
    D: Encodable<KeyEncoding>,
    E: Encodable<KeyEncoding>,
    F: Encodable<KeyEncoding>,
    G: Encodable<KeyEncoding>,
 {
    open spec fn encoding(v: Self::V) -> Result<Seq<u8>, KeySerializeError> {
        pair_encoding::<A, (B, C, D, E, F, G)>(v.0, (v.1, v.2, v.3, v.4, v.5, v.6))
    }

    fn encode(&self) -> (r: Result<Vec<u8>, KeySerializeError>) {
        let mut bytes = match self.0.encode() {
            Ok(bytes) => bytes,
            Err(e) => {
                return Err(e);
            },
        };
        let second = match self.1.encode() {
            Ok(second) => second,
            Err(e) => {
                return Err(e);
            },
        };
        let third = match self.2.encode() {
            Ok(third) => third,
            Err(e) => {
                return Err(e);
            },
        };
        let fourth = match self.3.encode() {
            Ok(fourth) => fourth,
            Err(e) => {
                return Err(e);
            },
        };
        let fifth = match self.4.encode() {
            Ok(fifth) => fifth,
            Err(e) => {
                return Err(e);
            },
        };
        let sixth = match self.5.encode() {
            Ok(sixth) => sixth,
            Err(e) => {
                return Err(e);
            },
        };
        let seventh = match self.6.encode() {
            Ok(seventh) => seventh,
            Err(e) => {
                return Err(e);
            },
        };
        append_bytes(&mut bytes, second.as_slice());
        append_bytes(&mut bytes, third.as_slice());
        append_bytes(&mut bytes, fourth.as_slice());
        append_bytes(&mut bytes, fifth.as_slice());
        append_bytes(&mut bytes, sixth.as_slice());
        append_bytes(&mut bytes, seventh.as_slice());
        proof {
            let after = sixth@ + seventh@;
            let after = fifth@ + after;
            let after = fourth@ + after;
            let after = third@ + after;
            let after = second@ + after;
            assert(bytes@ =~= A::encoding(self.0.deep_view())->Ok_0 + after);
        }
        Ok(bytes)
    }
}

impl<A, B, C, D, E, F, G> Decodable<KeyEncoding> for (A, B, C, D, E, F, G) where
    A: Decodable<KeyEncoding>,
    B: Decodable<KeyEncoding>,
    C: Decodable<KeyEncoding>,
    D: Decodable<KeyEncoding>,
    E: Decodable<KeyEncoding>,
    F: Decodable<KeyEncoding>,
    G: Decodable<KeyEncoding>,
 {
    open spec fn decoding(bytes: Seq<u8>) -> Result<(Self::V, int), KeyDeserializeError> {
        match pair_decoding::<A, (B, C, D, E, F, G)>(bytes) {
            Ok(((a, rest), n)) => Ok(
                (
                    (a, rest.0, rest.1, rest.2, rest.3, rest.4, rest.5),
                    n,
                ),
            ),
            Err(e) => Err(e),
        }
    }

    proof fn decoding_consumes(bytes: Seq<u8>) {
        A::decoding_consumes(bytes);
        if let Ok((_, n)) = A::decoding(bytes) {
            <(B, C, D, E, F, G) as Decodable<KeyEncoding>>::decoding_consumes(bytes.skip(n));
        }
    }

    fn decode(bytes: &mut &[u8]) -> (r: Result<Self, KeyDeserializeError>) {
        let start: &[u8] = *bytes;
        let first = match A::decode(bytes) {
            Ok(first) => first,
            Err(e) => {
                return Err(e);
            },
        };
        let ghost after_first = bytes@;
        let second = match B::decode(bytes) {
            Ok(second) => second,
            Err(e) => {
                *bytes = start;
                return Err(e);
            },
        };
        let ghost after_second = bytes@;
        let third = match C::decode(bytes) {
            Ok(third) => third,
            Err(e) => {
                *bytes = start;
                return Err(e);
            },
        };
        let ghost after_third = bytes@;
        let fourth = match D::decode(bytes) {
            Ok(fourth) => fourth,
            Err(e) => {
                *bytes = start;
                return Err(e);
            },
        };
        let ghost after_fourth = bytes@;
        let fifth = match E::decode(bytes) {
            Ok(fifth) => fifth,
            Err(e) => {
                *bytes = start;
                return Err(e);
            },
        };
        let ghost after_fifth = bytes@;
        let sixth = match F::decode(bytes) {
            Ok(sixth) => sixth,
            Err(e) => {
                *bytes = start;
                return Err(e);
            },
        };
        let ghost after_sixth = bytes@;
        let seventh = match G::decode(bytes) {
            Ok(seventh) => seventh,
            Err(e) => {
                *bytes = start;
                return Err(e);
            },
        };
        proof {
            A::decoding_consumes(start@);
            B::decoding_consumes(after_first);
            C::decoding_consumes(after_second);
            D::decoding_consumes(after_third);
            E::decoding_consumes(after_fourth);
            F::decoding_consumes(after_fifth);
            assert(after_first =~= start@.skip(start@.len() - after_first.len()));
            assert(after_second =~= start@.skip(start@.len() - after_second.len()));
            assert(after_third =~= start@.skip(start@.len() - after_third.len()));
            assert(after_fourth =~= start@.skip(start@.len() - after_fourth.len()));
            assert(after_fifth =~= start@.skip(start@.len() - after_fifth.len()));
            assert(after_sixth =~= start@.skip(start@.len() - after_sixth.len()));
            assert(bytes@ =~= start@.skip(start@.len() - bytes@.len()));
            assert(after_second =~= after_first.skip(after_first.len() - after_second.len()));
            assert(after_third =~= after_second.skip(after_second.len() - after_third.len()));
            assert(after_fourth =~= after_third.skip(after_third.len() - after_fourth.len()));
            assert(after_fifth =~= after_fourth.skip(after_fourth.len() - after_fifth.len()));
            assert(after_sixth =~= after_fifth.skip(after_fifth.len() - after_sixth.len()));
        }
        Ok((first, second, third, fourth, fifth, sixth, seventh))
    }
}

impl<A, B, C, D, E, F, G> Codec<KeyEncoding> for (A, B, C, D, E, F, G) where
    A: KeySerde,
    B: KeySerde,
    C: KeySerde,
    D: KeySerde,
    E: KeySerde,
    F: KeySerde,
    G: Codec<KeyEncoding>,
 {
    proof fn round_trip(v: Self::V) {
        lemma_pair_round_trip::<A, (B, C, D, E, F, G)>(v.0, (v.1, v.2, v.3, v.4, v.5, v.6));
    }
}

impl<A, B, C, D, E, F, G> KeySerde for (A, B, C, D, E, F, G) where
    A: KeySerde,
    B: KeySerde,
    C: KeySerde,
    D: KeySerde,
    E: KeySerde,
    F: KeySerde,
    G: KeySerde,
 {
    type PartialKey = (A, B, C, D, E, F, G);

    open spec fn partial_decoding(bytes: Seq<u8>) -> Result<
        Option<(Self::V, int)>,
        KeyDeserializeError,
    > {
        whole_or_nothing(bytes, <Self as Decodable<KeyEncoding>>::decoding(bytes))
    }

    proof fn partial_decoding_consumes(bytes: Seq<u8>) {
        <Self as Decodable<KeyEncoding>>::decoding_consumes(bytes);
    }

    fn partial_decode(bytes: &mut &[u8]) -> (r: Result<Option<Self>, KeyDeserializeError>) {
        decode_whole_or_nothing::<Self>(bytes)
    }

    open spec fn partial_model(v: Self::V, rest: Seq<u8>) -> Self::V {
        v
    }

    proof fn partial_of_nothing() {
    }

    proof fn partial_of_encoding(v: Self::V, rest: Seq<u8>) {
        lemma_pair_delimited::<A, (B, C, D, E, F, G)>(
            v.0,
            (v.1, v.2, v.3, v.4, v.5, v.6),
            rest,
        );
    }

    open spec fn key_lt(a: Self::V, b: Self::V) -> bool {
        pair_lt::<A, (B, C, D, E, F, G)>(
            (a.0, (a.1, a.2, a.3, a.4, a.5, a.6)),
            (b.0, (b.1, b.2, b.3, b.4, b.5, b.6)),
        )
    }

    proof fn delimited(v: Self::V, rest: Seq<u8>) {
        lemma_pair_delimited::<A, (B, C, D, E, F, G)>(
            v.0,
            (v.1, v.2, v.3, v.4, v.5, v.6),
            rest,
        );
    }

    proof fn order_preserved(a: Self::V, b: Self::V) {
        lemma_pair_order::<A, (B, C, D, E, F, G)>(
            (a.0, (a.1, a.2, a.3, a.4, a.5, a.6)),
            (b.0, (b.1, b.2, b.3, b.4, b.5, b.6)),
        );
    }
}

impl<A, B, C, D, E, F, G, H> Encodable<KeyEncoding> for (A, B, C, D, E, F, G, H) where
    A: Encodable<KeyEncoding>,
    B: Encodable<KeyEncoding>,
    C: Encodable<KeyEncoding>,
    D: Encodable<KeyEncoding>,
    E: Encodable<KeyEncoding>,
    F: Encodable<KeyEncoding>,
    G: Encodable<KeyEncoding>,
    H: Encodable<KeyEncoding>,
 {
    open spec fn encoding(v: Self::V) -> Result<Seq<u8>, KeySerializeError> {
        pair_encoding::<A, (B, C, D, E, F, G, H)>(v.0, (v.1, v.2, v.3, v.4, v.5, v.6, v.7))
    }

    fn encode(&self) -> (r: Result<Vec<u8>, KeySerializeError>) {
        let mut bytes = match self.0.encode() {
            Ok(bytes) => bytes,
            Err(e) => {
                return Err(e);
            },
        };
        let second = match self.1.encode() {
            Ok(second) => second,
            Err(e) => {
                return Err(e);
            },
        };
        let third = match self.2.encode() {
            Ok(third) => third,
            Err(e) => {
                return Err(e);
            },
        };
        let fourth = match self.3.encode() {
            Ok(fourth) => fourth,
            Err(e) => {
                return Err(e);
            },
        };
        let fifth = match self.4.encode() {
            Ok(fifth) => fifth,
            Err(e) => {
                return Err(e);
            },
        };
        let sixth = match self.5.encode() {
            Ok(sixth) => sixth,
            Err(e) => {
                return Err(e);
            },
        };
        let seventh = match self.6.encode() {
            Ok(seventh) => seventh,
            Err(e) => {
                return Err(e);
            },
        };
        let eighth = match self.7.encode() {
            Ok(eighth) => eighth,
            Err(e) => {
                return Err(e);
            },
        };
        append_bytes(&mut bytes, second.as_slice());
        append_bytes(&mut bytes, third.as_slice());
        append_bytes(&mut bytes, fourth.as_slice());
        append_bytes(&mut bytes, fifth.as_slice());
        append_bytes(&mut bytes, sixth.as_slice());
        append_bytes(&mut bytes, seventh.as_slice());
        append_bytes(&mut bytes, eighth.as_slice());
        proof {
            let after = seventh@ + eighth@;
            let after = sixth@ + after;
            let after = fifth@ + after;
            let after = fourth@ + after;
            let after = third@ + after;
            let after = second@ + after;
            assert(bytes@ =~= A::encoding(self.0.deep_view())->Ok_0 + after);
        }
        Ok(bytes)
    }
}

impl<A, B, C, D, E, F, G, H> Decodable<KeyEncoding> for (A, B, C, D, E, F, G, H) where
    A: Decodable<KeyEncoding>,
    B: Decodable<KeyEncoding>,
    C: Decodable<KeyEncoding>,
    D: Decodable<KeyEncoding>,
    E: Decodable<KeyEncoding>,
    F: Decodable<KeyEncoding>,
    G: Decodable<KeyEncoding>,
    H: Decodable<KeyEncoding>,
 {
    open spec fn decoding(bytes: Seq<u8>) -> Result<(Self::V, int), KeyDeserializeError> {
        match pair_decoding::<A, (B, C, D, E, F, G, H)>(bytes) {
            Ok(((a, rest), n)) => Ok(
                (
                    (a, rest.0, rest.1, rest.2, rest.3, rest.4, rest.5, rest.6),
                    n,
                ),
            ),
            Err(e) => Err(e),
        }
    }

    proof fn decoding_consumes(bytes: Seq<u8>) {
        A::decoding_consumes(bytes);
        if let Ok((_, n)) = A::decoding(bytes) {
            <(B, C, D, E, F, G, H) as Decodable<KeyEncoding>>::decoding_consumes(bytes.skip(n));
        }
    }

    fn decode(bytes: &mut &[u8]) -> (r: Result<Self, KeyDeserializeError>) {
        let start: &[u8] = *bytes;
        let first = match A::decode(bytes) {
            Ok(first) => first,
            Err(e) => {
                return Err(e);
            },
        };
        let ghost after_first = bytes@;
        let second = match B::decode(bytes) {
            Ok(second) => second,
            Err(e) => {
                *bytes = start;
                return Err(e);
            },
        };
        let ghost after_second = bytes@;
        let third = match C::decode(bytes) {
            Ok(third) => third,
            Err(e) => {
                *bytes = start;
                return Err(e);
            },
        };
        let ghost after_third = bytes@;
        let fourth = match D::decode(bytes) {
            Ok(fourth) => fourth,
            Err(e) => {
                *bytes = start;
                return Err(e);
            },
        };
        let ghost after_fourth = bytes@;
        let fifth = match E::decode(bytes) {
            Ok(fifth) => fifth,
            Err(e) => {
                *bytes = start;
                return Err(e);
            },
        };
        let ghost after_fifth = bytes@;
        let sixth = match F::decode(bytes) {
            Ok(sixth) => sixth,
            Err(e) => {
                *bytes = start;
                return Err(e);
            },
        };
        let ghost after_sixth = bytes@;
        let seventh = match G::decode(bytes) {
            Ok(seventh) => seventh,
            Err(e) => {
                *bytes = start;
                return Err(e);
            },
        };
        let ghost after_seventh = bytes@;
        let eighth = match H::decode(bytes) {
            Ok(eighth) => eighth,
            Err(e) => {
                *bytes = start;
                return Err(e);
            },
        };
        proof {
            A::decoding_consumes(start@);
            B::decoding_consumes(after_first);
            C::decoding_consumes(after_second);
            D::decoding_consumes(after_third);
            E::decoding_consumes(after_fourth);
            F::decoding_consumes(after_fifth);
            G::decoding_consumes(after_sixth);
            assert(after_first =~= start@.skip(start@.len() - after_first.len()));
            assert(after_second =~= start@.skip(start@.len() - after_second.len()));
            assert(after_third =~= start@.skip(start@.len() - after_third.len()));
            assert(after_fourth =~= start@.skip(start@.len() - after_fourth.len()));
            assert(after_fifth =~= start@.skip(start@.len() - after_fifth.len()));
            assert(after_sixth =~= start@.skip(start@.len() - after_sixth.len()));
            assert(after_seventh =~= start@.skip(start@.len() - after_seventh.len()));
            assert(bytes@ =~= start@.skip(start@.len() - bytes@.len()));
            assert(after_second =~= after_first.skip(after_first.len() - after_second.len()));
            assert(after_third =~= after_second.skip(after_second.len() - after_third.len()));
            assert(after_fourth =~= after_third.skip(after_third.len() - after_fourth.len()));
            assert(after_fifth =~= after_fourth.skip(after_fourth.len() - after_fifth.len()));
            assert(after_sixth =~= after_fifth.skip(after_fifth.len() - after_sixth.len()));
            assert(after_seventh =~= after_sixth.skip(after_sixth.len() - after_seventh.len()));
        }
        Ok((first, second, third, fourth, fifth, sixth, seventh, eighth))
    }
}

impl<A, B, C, D, E, F, G, H> Codec<KeyEncoding> for (A, B, C, D, E, F, G, H) where
    A: KeySerde,
    B: KeySerde,
    C: KeySerde,
    D: KeySerde,
    E: KeySerde,
    F: KeySerde,
    G: KeySerde,
    H: Codec<KeyEncoding>,
 {
    proof fn round_trip(v: Self::V) {
        lemma_pair_round_trip::<A, (B, C, D, E, F, G, H)>(
            v.0,
            (v.1, v.2, v.3, v.4, v.5, v.6, v.7),
        );
    }
}

impl<A, B, C, D, E, F, G, H> KeySerde for (A, B, C, D, E, F, G, H) where
    A: KeySerde,
    B: KeySerde,
    C: KeySerde,
    D: KeySerde,
    E: KeySerde,
    F: KeySerde,
    G: KeySerde,
    H: KeySerde,
 {
    type PartialKey = (A, B, C, D, E, F, G, H);

    open spec fn partial_decoding(bytes: Seq<u8>) -> Result<
        Option<(Self::V, int)>,
        KeyDeserializeError,
    > {
        whole_or_nothing(bytes, <Self as Decodable<KeyEncoding>>::decoding(bytes))
    }

    proof fn partial_decoding_consumes(bytes: Seq<u8>) {
        <Self as Decodable<KeyEncoding>>::decoding_consumes(bytes);
    }

    fn partial_decode(bytes: &mut &[u8]) -> (r: Result<Option<Self>, KeyDeserializeError>) {
        decode_whole_or_nothing::<Self>(bytes)
    }

    open spec fn partial_model(v: Self::V, rest: Seq<u8>) -> Self::V {
        v
    }

    proof fn partial_of_nothing() {
    }

    proof fn partial_of_encoding(v: Self::V, rest: Seq<u8>) {
        lemma_pair_delimited::<A, (B, C, D, E, F, G, H)>(
            v.0,
            (v.1, v.2, v.3, v.4, v.5, v.6, v.7),
            rest,
        );
    }

    open spec fn key_lt(a: Self::V, b: Self::V) -> bool {
        pair_lt::<A, (B, C, D, E, F, G, H)>(
            (a.0, (a.1, a.2, a.3, a.4, a.5, a.6, a.7)),
            (b.0, (b.1, b.2, b.3, b.4, b.5, b.6, b.7)),
        )
    }

    proof fn delimited(v: Self::V, rest: Seq<u8>) {
        lemma_pair_delimited::<A, (B, C, D, E, F, G, H)>(
            v.0,
            (v.1, v.2, v.3, v.4, v.5, v.6, v.7),
            rest,
        );
    }

    proof fn order_preserved(a: Self::V, b: Self::V) {
        lemma_pair_order::<A, (B, C, D, E, F, G, H)>(
            (a.0, (a.1, a.2, a.3, a.4, a.5, a.6, a.7)),
            (b.0, (b.1, b.2, b.3, b.4, b.5, b.6, b.7)),
        );
    }
}

impl<A, B, C, D, E, F, G, H, I> Encodable<KeyEncoding>
    for (A, B, C, D, E, F, G, H, I) where
    A: Encodable<KeyEncoding>,
    B: Encodable<KeyEncoding>,
    C: Encodable<KeyEncoding>,
    D: Encodable<KeyEncoding>,
    E: Encodable<KeyEncoding>,
    F: Encodable<KeyEncoding>,
    G: Encodable<KeyEncoding>,
    H: Encodable<KeyEncoding>,
    I: Encodable<KeyEncoding>,
 {
    open spec fn encoding(v: Self::V) -> Result<Seq<u8>, KeySerializeError> {
        pair_encoding::<A, (B, C, D, E, F, G, H, I)>(
            v.0,
            (v.1, v.2, v.3, v.4, v.5, v.6, v.7, v.8),
        )
    }

    fn encode(&self) -> (r: Result<Vec<u8>, KeySerializeError>) {
        let mut bytes = match self.0.encode() {
            Ok(bytes) => bytes,
            Err(e) => {
                return Err(e);
            },
        };
        let second = match self.1.encode() {
            Ok(second) => second,
            Err(e) => {
                return Err(e);
            },
        };
        let third = match self.2.encode() {
            Ok(third) => third,
            Err(e) => {
                return Err(e);
            },
        };
        let fourth = match self.3.encode() {
            Ok(fourth) => fourth,
            Err(e) => {
                return Err(e);
            },
        };
        let fifth = match self.4.encode() {
            Ok(fifth) => fifth,
            Err(e) => {
                return Err(e);
            },
        };
        let sixth = match self.5.encode() {
            Ok(sixth) => sixth,
            Err(e) => {
                return Err(e);
            },
        };
        let seventh = match self.6.encode() {
            Ok(seventh) => seventh,
            Err(e) => {
                return Err(e);
            },
        };
        let eighth = match self.7.encode() {
            Ok(eighth) => eighth,
            Err(e) => {
                return Err(e);
            },
        };
        let ninth = match self.8.encode() {
            Ok(ninth) => ninth,
            Err(e) => {
                return Err(e);
            },
        };
        append_bytes(&mut bytes, second.as_slice());
        append_bytes(&mut bytes, third.as_slice());
        append_bytes(&mut bytes, fourth.as_slice());
        append_bytes(&mut bytes, fifth.as_slice());
        append_bytes(&mut bytes, sixth.as_slice());
        append_bytes(&mut bytes, seventh.as_slice());
        append_bytes(&mut bytes, eighth.as_slice());
        append_bytes(&mut bytes, ninth.as_slice());
        proof {
            let after = eighth@ + ninth@;
            let after = seventh@ + after;
            let after = sixth@ + after;
            let after = fifth@ + after;
            let after = fourth@ + after;
            let after = third@ + after;
            let after = second@ + after;
            assert(bytes@ =~= A::encoding(self.0.deep_view())->Ok_0 + after);
        }
        Ok(bytes)
    }
}

impl<A, B, C, D, E, F, G, H, I> Decodable<KeyEncoding>
    for (A, B, C, D, E, F, G, H, I) where
    A: Decodable<KeyEncoding>,
    B: Decodable<KeyEncoding>,
    C: Decodable<KeyEncoding>,
    D: Decodable<KeyEncoding>,
    E: Decodable<KeyEncoding>,
    F: Decodable<KeyEncoding>,
    G: Decodable<KeyEncoding>,
    H: Decodable<KeyEncoding>,
    I: Decodable<KeyEncoding>,
 {
    open spec fn decoding(bytes: Seq<u8>) -> Result<(Self::V, int), KeyDeserializeError> {
        match pair_decoding::<A, (B, C, D, E, F, G, H, I)>(bytes) {
            Ok(((a, rest), n)) => Ok(
                (
                    (a, rest.0, rest.1, rest.2, rest.3, rest.4, rest.5, rest.6, rest.7),
                    n,
                ),
            ),
            Err(e) => Err(e),
        }
    }

    proof fn decoding_consumes(bytes: Seq<u8>) {
        A::decoding_consumes(bytes);
        if let Ok((_, n)) = A::decoding(bytes) {
            <(B, C, D, E, F, G, H, I) as Decodable<KeyEncoding>>::decoding_consumes(
                bytes.skip(n),
            );
        }
    }

    fn decode(bytes: &mut &[u8]) -> (r: Result<Self, KeyDeserializeError>) {
        let start: &[u8] = *bytes;
        let first = match A::decode(bytes) {
            Ok(first) => first,
            Err(e) => {
                return Err(e);
            },
        };
        let ghost after_first = bytes@;
        let second = match B::decode(bytes) {
            Ok(second) => second,
            Err(e) => {
                *bytes = start;
                return Err(e);
            },
        };
        let ghost after_second = bytes@;
        let third = match C::decode(bytes) {
            Ok(third) => third,
            Err(e) => {
                *bytes = start;
                return Err(e);
            },
        };
        let ghost after_third = bytes@;
        let fourth = match D::decode(bytes) {
            Ok(fourth) => fourth,
            Err(e) => {
                *bytes = start;
                return Err(e);
            },
        };
        let ghost after_fourth = bytes@;
        let fifth = match E::decode(bytes) {
            Ok(fifth) => fifth,
            Err(e) => {
                *bytes = start;
                return Err(e);
            },
        };
        let ghost after_fifth = bytes@;
        let sixth = match F::decode(bytes) {
            Ok(sixth) => sixth,
            Err(e) => {
                *bytes = start;
                return Err(e);
            },
        };
        let ghost after_sixth = bytes@;
        let seventh = match G::decode(bytes) {
            Ok(seventh) => seventh,
            Err(e) => {
                *bytes = start;
                return Err(e);
            },
        };
        let ghost after_seventh = bytes@;
        let eighth = match H::decode(bytes) {
            Ok(eighth) => eighth,
            Err(e) => {
                *bytes = start;
                return Err(e);
            },
        };
        let ghost after_eighth = bytes@;
        let ninth = match I::decode(bytes) {
            Ok(ninth) => ninth,
            Err(e) => {
                *bytes = start;
                return Err(e);
            },
        };
        proof {
            A::decoding_consumes(start@);
            B::decoding_consumes(after_first);
            C::decoding_consumes(after_second);
            D::decoding_consumes(after_third);
            E::decoding_consumes(after_fourth);
            F::decoding_consumes(after_fifth);
            G::decoding_consumes(after_sixth);
            H::decoding_consumes(after_seventh);
            assert(after_first =~= start@.skip(start@.len() - after_first.len()));
            assert(after_second =~= start@.skip(start@.len() - after_second.len()));
            assert(after_third =~= start@.skip(start@.len() - after_third.len()));
            assert(after_fourth =~= start@.skip(start@.len() - after_fourth.len()));
            assert(after_fifth =~= start@.skip(start@.len() - after_fifth.len()));
            assert(after_sixth =~= start@.skip(start@.len() - after_sixth.len()));
            assert(after_seventh =~= start@.skip(start@.len() - after_seventh.len()));
            assert(after_eighth =~= start@.skip(start@.len() - after_eighth.len()));
            assert(bytes@ =~= start@.skip(start@.len() - bytes@.len()));
            assert(after_second =~= after_first.skip(after_first.len() - after_second.len()));
            assert(after_third =~= after_second.skip(after_second.len() - after_third.len()));
            assert(after_fourth =~= after_third.skip(after_third.len() - after_fourth.len()));
            assert(after_fifth =~= after_fourth.skip(after_fourth.len() - after_fifth.len()));
            assert(after_sixth =~= after_fifth.skip(after_fifth.len() - after_sixth.len()));
            assert(after_seventh =~= after_sixth.skip(after_sixth.len() - after_seventh.len()));
            assert(after_eighth =~= after_seventh.skip(after_seventh.len() - after_eighth.len()));
        }
        Ok((first, second, third, fourth, fifth, sixth, seventh, eighth, ninth))
    }
}

impl<A, B, C, D, E, F, G, H, I> Codec<KeyEncoding>
    for (A, B, C, D, E, F, G, H, I) where
    A: KeySerde,
    B: KeySerde,
    C: KeySerde,
    D: KeySerde,
    E: KeySerde,
    F: KeySerde,
    G: KeySerde,
    H: KeySerde,
    I: Codec<KeyEncoding>,
 {
    proof fn round_trip(v: Self::V) {
        lemma_pair_round_trip::<A, (B, C, D, E, F, G, H, I)>(
            v.0,
            (v.1, v.2, v.3, v.4, v.5, v.6, v.7, v.8),
        );
    }
}

impl<A, B, C, D, E, F, G, H, I> KeySerde for (A, B, C, D, E, F, G, H, I) where
    A: KeySerde,
    B: KeySerde,
    C: KeySerde,
    D: KeySerde,
    E: KeySerde,
    F: KeySerde,
    G: KeySerde,
    H: KeySerde,
    I: KeySerde,
 {
    type PartialKey = (A, B, C, D, E, F, G, H, I);

    open spec fn partial_decoding(bytes: Seq<u8>) -> Result<
        Option<(Self::V, int)>,
        KeyDeserializeError,
    > {
        whole_or_nothing(bytes, <Self as Decodable<KeyEncoding>>::decoding(bytes))
    }

    proof fn partial_decoding_consumes(bytes: Seq<u8>) {
        <Self as Decodable<KeyEncoding>>::decoding_consumes(bytes);
    }

    fn partial_decode(bytes: &mut &[u8]) -> (r: Result<Option<Self>, KeyDeserializeError>) {
        decode_whole_or_nothing::<Self>(bytes)
    }

    open spec fn partial_model(v: Self::V, rest: Seq<u8>) -> Self::V {
        v
    }

    proof fn partial_of_nothing() {
    }

    proof fn partial_of_encoding(v: Self::V, rest: Seq<u8>) {
        lemma_pair_delimited::<A, (B, C, D, E, F, G, H, I)>(
            v.0,
            (v.1, v.2, v.3, v.4, v.5, v.6, v.7, v.8),
            rest,
        );
    }

    open spec fn key_lt(a: Self::V, b: Self::V) -> bool {
        pair_lt::<A, (B, C, D, E, F, G, H, I)>(
            (a.0, (a.1, a.2, a.3, a.4, a.5, a.6, a.7, a.8)),
            (b.0, (b.1, b.2, b.3, b.4, b.5, b.6, b.7, b.8)),
        )
    }

    proof fn delimited(v: Self::V, rest: Seq<u8>) {
        lemma_pair_delimited::<A, (B, C, D, E, F, G, H, I)>(
            v.0,
            (v.1, v.2, v.3, v.4, v.5, v.6, v.7, v.8),
            rest,
        );
    }

    proof fn order_preserved(a: Self::V, b: Self::V) {
        lemma_pair_order::<A, (B, C, D, E, F, G, H, I)>(
            (a.0, (a.1, a.2, a.3, a.4, a.5, a.6, a.7, a.8)),
            (b.0, (b.1, b.2, b.3, b.4, b.5, b.6, b.7, b.8)),
        );
    }
}

impl<A, B, C, D, E, F, G, H, I, J> Encodable<KeyEncoding>
    for (A, B, C, D, E, F, G, H, I, J) where
    A: Encodable<KeyEncoding>,
    B: Encodable<KeyEncoding>,
    C: Encodable<KeyEncoding>,
    D: Encodable<KeyEncoding>,
    E: Encodable<KeyEncoding>,
    F: Encodable<KeyEncoding>,
    G: Encodable<KeyEncoding>,
    H: Encodable<KeyEncoding>,
    I: Encodable<KeyEncoding>,
    J: Encodable<KeyEncoding>,
 {
    open spec fn encoding(v: Self::V) -> Result<Seq<u8>, KeySerializeError> {
        pair_encoding::<A, (B, C, D, E, F, G, H, I, J)>(
            v.0,
            (v.1, v.2, v.3, v.4, v.5, v.6, v.7, v.8, v.9),
        )
    }

    fn encode(&self) -> (r: Result<Vec<u8>, KeySerializeError>) {
        let mut bytes = match self.0.encode() {
            Ok(bytes) => bytes,
            Err(e) => {
                return Err(e);
            },
        };
        let second = match self.1.encode() {
            Ok(second) => second,
            Err(e) => {
                return Err(e);
            },
        };
        let third = match self.2.encode() {
            Ok(third) => third,
            Err(e) => {
                return Err(e);
            },
        };
        let fourth = match self.3.encode() {
            Ok(fourth) => fourth,
            Err(e) => {
                return Err(e);
            },
        };
        let fifth = match self.4.encode() {
            Ok(fifth) => fifth,
            Err(e) => {
                return Err(e);
            },
        };
        let sixth = match self.5.encode() {
            Ok(sixth) => sixth,
            Err(e) => {
                return Err(e);
            },
        };
        let seventh = match self.6.encode() {
            Ok(seventh) => seventh,
            Err(e) => {
                return Err(e);
            },
        };
        let eighth = match self.7.encode() {
            Ok(eighth) => eighth,
            Err(e) => {
                return Err(e);
            },
        };
        let ninth = match self.8.encode() {
            Ok(ninth) => ninth,
            Err(e) => {
                return Err(e);
            },
        };
        let tenth = match self.9.encode() {
            Ok(tenth) => tenth,
            Err(e) => {
                return Err(e);
            },
        };
        append_bytes(&mut bytes, second.as_slice());
        append_bytes(&mut bytes, third.as_slice());
        append_bytes(&mut bytes, fourth.as_slice());
        append_bytes(&mut bytes, fifth.as_slice());
        append_bytes(&mut bytes, sixth.as_slice());
        append_bytes(&mut bytes, seventh.as_slice());
        append_bytes(&mut bytes, eighth.as_slice());
        append_bytes(&mut bytes, ninth.as_slice());
        append_bytes(&mut bytes, tenth.as_slice());
        proof {
            let after = ninth@ + tenth@;
            let after = eighth@ + after;
            let after = seventh@ + after;
            let after = sixth@ + after;
            let after = fifth@ + after;
            let after = fourth@ + after;
            let after = third@ + after;
            let after = second@ + after;
            assert(bytes@ =~= A::encoding(self.0.deep_view())->Ok_0 + after);
        }
        Ok(bytes)
    }
}

impl<A, B, C, D, E, F, G, H, I, J> Decodable<KeyEncoding>
    for (A, B, C, D, E, F, G, H, I, J) where
    A: Decodable<KeyEncoding>,
    B: Decodable<KeyEncoding>,
    C: Decodable<KeyEncoding>,
    D: Decodable<KeyEncoding>,
    E: Decodable<KeyEncoding>,
    F: Decodable<KeyEncoding>,
    G: Decodable<KeyEncoding>,
    H: Decodable<KeyEncoding>,
    I: Decodable<KeyEncoding>,
    J: Decodable<KeyEncoding>,
 {
    open spec fn decoding(bytes: Seq<u8>) -> Result<(Self::V, int), KeyDeserializeError> {
        match pair_decoding::<A, (B, C, D, E, F, G, H, I, J)>(bytes) {
            Ok(((a, rest), n)) => Ok(
                (
                    (a, rest.0, rest.1, rest.2, rest.3, rest.4, rest.5, rest.6, rest.7, rest.8),
                    n,
                ),
            ),
            Err(e) => Err(e),
        }
    }

    proof fn decoding_consumes(bytes: Seq<u8>) {
        A::decoding_consumes(bytes);
        if let Ok((_, n)) = A::decoding(bytes) {
            <(B, C, D, E, F, G, H, I, J) as Decodable<KeyEncoding>>::decoding_consumes(
                bytes.skip(n),
            );
        }
    }

    fn decode(bytes: &mut &[u8]) -> (r: Result<Self, KeyDeserializeError>) {
        let start: &[u8] = *bytes;
        let first = match A::decode(bytes) {
            Ok(first) => first,
            Err(e) => {
                return Err(e);
            },
        };
        let ghost after_first = bytes@;
        let second = match B::decode(bytes) {
            Ok(second) => second,
            Err(e) => {
                *bytes = start;
                return Err(e);
            },
        };
        let ghost after_second = bytes@;
        let third = match C::decode(bytes) {
            Ok(third) => third,
            Err(e) => {
                *bytes = start;
                return Err(e);
            },
        };
        let ghost after_third = bytes@;
        let fourth = match D::decode(bytes) {
            Ok(fourth) => fourth,
            Err(e) => {
                *bytes = start;
                return Err(e);
            },
        };
        let ghost after_fourth = bytes@;
        let fifth = match E::decode(bytes) {
            Ok(fifth) => fifth,
            Err(e) => {
                *bytes = start;
                return Err(e);
            },
        };
        let ghost after_fifth = bytes@;
        let sixth = match F::decode(bytes) {
            Ok(sixth) => sixth,
            Err(e) => {
                *bytes = start;
                return Err(e);
            },
        };
        let ghost after_sixth = bytes@;
        let seventh = match G::decode(bytes) {
            Ok(seventh) => seventh,
            Err(e) => {
                *bytes = start;
                return Err(e);
            },
        };
        let ghost after_seventh = bytes@;
        let eighth = match H::decode(bytes) {
            Ok(eighth) => eighth,
            Err(e) => {
                *bytes = start;
                return Err(e);
            },
        };
        let ghost after_eighth = bytes@;
        let ninth = match I::decode(bytes) {
            Ok(ninth) => ninth,
            Err(e) => {
                *bytes = start;
                return Err(e);
            },
        };
        let ghost after_ninth = bytes@;
        let tenth = match J::decode(bytes) {
            Ok(tenth) => tenth,
            Err(e) => {
                *bytes = start;
                return Err(e);
            },
        };
        proof {
            A::decoding_consumes(start@);
            B::decoding_consumes(after_first);
            C::decoding_consumes(after_second);
            D::decoding_consumes(after_third);
            E::decoding_consumes(after_fourth);
            F::decoding_consumes(after_fifth);
            G::decoding_consumes(after_sixth);
            H::decoding_consumes(after_seventh);
            I::decoding_consumes(after_eighth);
            assert(after_first =~= start@.skip(start@.len() - after_first.len()));
            assert(after_second =~= start@.skip(start@.len() - after_second.len()));
            assert(after_third =~= start@.skip(start@.len() - after_third.len()));
            assert(after_fourth =~= start@.skip(start@.len() - after_fourth.len()));
            assert(after_fifth =~= start@.skip(start@.len() - after_fifth.len()));
            assert(after_sixth =~= start@.skip(start@.len() - after_sixth.len()));
            assert(after_seventh =~= start@.skip(start@.len() - after_seventh.len()));
            assert(after_eighth =~= start@.skip(start@.len() - after_eighth.len()));
            assert(after_ninth =~= start@.skip(start@.len() - after_ninth.len()));
            assert(bytes@ =~= start@.skip(start@.len() - bytes@.len()));
            assert(after_second =~= after_first.skip(after_first.len() - after_second.len()));
            assert(after_third =~= after_second.skip(after_second.len() - after_third.len()));
            assert(after_fourth =~= after_third.skip(after_third.len() - after_fourth.len()));
            assert(after_fifth =~= after_fourth.skip(after_fourth.len() - after_fifth.len()));
            assert(after_sixth =~= after_fifth.skip(after_fifth.len() - after_sixth.len()));
            assert(after_seventh =~= after_sixth.skip(after_sixth.len() - after_seventh.len()));
            assert(after_eighth =~= after_seventh.skip(after_seventh.len() - after_eighth.len()));
            assert(after_ninth =~= after_eighth.skip(after_eighth.len() - after_ninth.len()));
        }
        Ok((first, second, third, fourth, fifth, sixth, seventh, eighth, ninth, tenth))
    }
}

impl<A, B, C, D, E, F, G, H, I, J> Codec<KeyEncoding>
    for (A, B, C, D, E, F, G, H, I, J) where
    A: KeySerde,
    B: KeySerde,
    C: KeySerde,
    D: KeySerde,
    E: KeySerde,
    F: KeySerde,
    G: KeySerde,
    H: KeySerde,
    I: KeySerde,
    J: Codec<KeyEncoding>,
 {
    proof fn round_trip(v: Self::V) {
        lemma_pair_round_trip::<A, (B, C, D, E, F, G, H, I, J)>(
            v.0,
            (v.1, v.2, v.3, v.4, v.5, v.6, v.7, v.8, v.9),
        );
    }
}

impl<A, B, C, D, E, F, G, H, I, J> KeySerde for (A, B, C, D, E, F, G, H, I, J) where
    A: KeySerde,
    B: KeySerde,
    C: KeySerde,
    D: KeySerde,
    E: KeySerde,
    F: KeySerde,
    G: KeySerde,
    H: KeySerde,
    I: KeySerde,
    J: KeySerde,
 {
    type PartialKey = (A, B, C, D, E, F, G, H, I, J);

    open spec fn partial_decoding(bytes: Seq<u8>) -> Result<
        Option<(Self::V, int)>,
        KeyDeserializeError,
    > {
        whole_or_nothing(bytes, <Self as Decodable<KeyEncoding>>::decoding(bytes))
    }

    proof fn partial_decoding_consumes(bytes: Seq<u8>) {
        <Self as Decodable<KeyEncoding>>::decoding_consumes(bytes);
    }

    fn partial_decode(bytes: &mut &[u8]) -> (r: Result<Option<Self>, KeyDeserializeError>) {
        decode_whole_or_nothing::<Self>(bytes)
    }

    open spec fn partial_model(v: Self::V, rest: Seq<u8>) -> Self::V {
        v
    }

    proof fn partial_of_nothing() {
    }

    proof fn partial_of_encoding(v: Self::V, rest: Seq<u8>) {
        lemma_pair_delimited::<A, (B, C, D, E, F, G, H, I, J)>(
            v.0,
            (v.1, v.2, v.3, v.4, v.5, v.6, v.7, v.8, v.9),
            rest,
        );
    }

    open spec fn key_lt(a: Self::V, b: Self::V) -> bool {
        pair_lt::<A, (B, C, D, E, F, G, H, I, J)>(
            (a.0, (a.1, a.2, a.3, a.4, a.5, a.6, a.7, a.8, a.9)),
            (b.0, (b.1, b.2, b.3, b.4, b.5, b.6, b.7, b.8, b.9)),
        )
    }

    proof fn delimited(v: Self::V, rest: Seq<u8>) {
        lemma_pair_delimited::<A, (B, C, D, E, F, G, H, I, J)>(
            v.0,
            (v.1, v.2, v.3, v.4, v.5, v.6, v.7, v.8, v.9),
            rest,
        );
    }

    proof fn order_preserved(a: Self::V, b: Self::V) {
        lemma_pair_order::<A, (B, C, D, E, F, G, H, I, J)>(
            (a.0, (a.1, a.2, a.3, a.4, a.5, a.6, a.7, a.8, a.9)),
            (b.0, (b.1, b.2, b.3, b.4, b.5, b.6, b.7, b.8, b.9)),
        );
    }
}

impl<A, B, C, D, E, F, G, H, I, J, K> Encodable<KeyEncoding>
    for (A, B, C, D, E, F, G, H, I, J, K) where
    A: Encodable<KeyEncoding>,
    B: Encodable<KeyEncoding>,
    C: Encodable<KeyEncoding>,
    D: Encodable<KeyEncoding>,
    E: Encodable<KeyEncoding>,
    F: Encodable<KeyEncoding>,
    G: Encodable<KeyEncoding>,
    H: Encodable<KeyEncoding>,
    I: Encodable<KeyEncoding>,
    J: Encodable<KeyEncoding>,
    K: Encodable<KeyEncoding>,
 {
    open spec fn encoding(v: Self::V) -> Result<Seq<u8>, KeySerializeError> {
        pair_encoding::<A, (B, C, D, E, F, G, H, I, J, K)>(
            v.0,
            (v.1, v.2, v.3, v.4, v.5, v.6, v.7, v.8, v.9, v.10),
        )
    }

    fn encode(&self) -> (r: Result<Vec<u8>, KeySerializeError>) {
        let mut bytes = match self.0.encode() {
            Ok(bytes) => bytes,
            Err(e) => {
                return Err(e);
            },
        };
        let second = match self.1.encode() {
            Ok(second) => second,
            Err(e) => {
                return Err(e);
            },
        };
        let third = match self.2.encode() {
            Ok(third) => third,
            Err(e) => {
                return Err(e);
            },
        };
        let fourth = match self.3.encode() {
            Ok(fourth) => fourth,
            Err(e) => {
                return Err(e);
            },
        };
        let fifth = match self.4.encode() {
            Ok(fifth) => fifth,
            Err(e) => {
                return Err(e);
            },
        };
        let sixth = match self.5.encode() {
            Ok(sixth) => sixth,
            Err(e) => {
                return Err(e);
            },
        };
        let seventh = match self.6.encode() {
            Ok(seventh) => seventh,
            Err(e) => {
                return Err(e);
            },
        };
        let eighth = match self.7.encode() {
            Ok(eighth) => eighth,
            Err(e) => {
                return Err(e);
            },
        };
        let ninth = match self.8.encode() {
            Ok(ninth) => ninth,
            Err(e) => {
                return Err(e);
            },
        };
        let tenth = match self.9.encode() {
            Ok(tenth) => tenth,
            Err(e) => {
                return Err(e);
            },
        };
        let eleventh = match self.10.encode() {
            Ok(eleventh) => eleventh,
            Err(e) => {
                return Err(e);
            },
        };
        append_bytes(&mut bytes, second.as_slice());
        append_bytes(&mut bytes, third.as_slice());
        append_bytes(&mut bytes, fourth.as_slice());
        append_bytes(&mut bytes, fifth.as_slice());
        append_bytes(&mut bytes, sixth.as_slice());
        append_bytes(&mut bytes, seventh.as_slice());
        append_bytes(&mut bytes, eighth.as_slice());
        append_bytes(&mut bytes, ninth.as_slice());
        append_bytes(&mut bytes, tenth.as_slice());
        append_bytes(&mut bytes, eleventh.as_slice());
        proof {
            let after = tenth@ + eleventh@;
            let after = ninth@ + after;
            let after = eighth@ + after;
            let after = seventh@ + after;
            let after = sixth@ + after;
            let after = fifth@ + after;
            let after = fourth@ + after;
            let after = third@ + after;
            let after = second@ + after;
            assert(bytes@ =~= A::encoding(self.0.deep_view())->Ok_0 + after);
        }
        Ok(bytes)
    }
}

impl<A, B, C, D, E, F, G, H, I, J, K> Decodable<KeyEncoding>
    for (A, B, C, D, E, F, G, H, I, J, K) where
    A: Decodable<KeyEncoding>,
    B: Decodable<KeyEncoding>,
    C: Decodable<KeyEncoding>,
    D: Decodable<KeyEncoding>,
    E: Decodable<KeyEncoding>,
    F: Decodable<KeyEncoding>,
    G: Decodable<KeyEncoding>,
    H: Decodable<KeyEncoding>,
    I: Decodable<KeyEncoding>,
    J: Decodable<KeyEncoding>,
    K: Decodable<KeyEncoding>,
 {
    open spec fn decoding(bytes: Seq<u8>) -> Result<(Self::V, int), KeyDeserializeError> {
        match pair_decoding::<A, (B, C, D, E, F, G, H, I, J, K)>(bytes) {
            Ok(((a, rest), n)) => Ok(
                (
                    (a, rest.0, rest.1, rest.2, rest.3, rest.4, rest.5, rest.6, rest.7, rest.8, rest.9),
                    n,
                ),
            ),
            Err(e) => Err(e),
        }
    }

    proof fn decoding_consumes(bytes: Seq<u8>) {
        A::decoding_consumes(bytes);
        if let Ok((_, n)) = A::decoding(bytes) {
            <(B, C, D, E, F, G, H, I, J, K) as Decodable<KeyEncoding>>::decoding_consumes(
                bytes.skip(n),
            );
        }
    }

    fn decode(bytes: &mut &[u8]) -> (r: Result<Self, KeyDeserializeError>) {
        let start: &[u8] = *bytes;
        let first = match A::decode(bytes) {
            Ok(first) => first,
            Err(e) => {
                return Err(e);
            },
        };
        let ghost after_first = bytes@;
        let second = match B::decode(bytes) {
            Ok(second) => second,
            Err(e) => {
                *bytes = start;
                return Err(e);
            },
        };
        let ghost after_second = bytes@;
        let third = match C::decode(bytes) {
            Ok(third) => third,
            Err(e) => {
                *bytes = start;
                return Err(e);
            },
        };
        let ghost after_third = bytes@;
        let fourth = match D::decode(bytes) {
            Ok(fourth) => fourth,
            Err(e) => {
                *bytes = start;
                return Err(e);
            },
        };
        let ghost after_fourth = bytes@;
        let fifth = match E::decode(bytes) {
            Ok(fifth) => fifth,
            Err(e) => {
                *bytes = start;
                return Err(e);
            },
        };
        let ghost after_fifth = bytes@;
        let sixth = match F::decode(bytes) {
            Ok(sixth) => sixth,
            Err(e) => {
                *bytes = start;
                return Err(e);
            },
        };
        let ghost after_sixth = bytes@;
        let seventh = match G::decode(bytes) {
            Ok(seventh) => seventh,
            Err(e) => {
                *bytes = start;
                return Err(e);
            },
        };
        let ghost after_seventh = bytes@;
        let eighth = match H::decode(bytes) {
            Ok(eighth) => eighth,
            Err(e) => {
                *bytes = start;
                return Err(e);
            },
        };
        let ghost after_eighth = bytes@;
        let ninth = match I::decode(bytes) {
            Ok(ninth) => ninth,
            Err(e) => {
                *bytes = start;
                return Err(e);
            },
        };
        let ghost after_ninth = bytes@;
        let tenth = match J::decode(bytes) {
            Ok(tenth) => tenth,
            Err(e) => {
                *bytes = start;
                return Err(e);
            },
        };
        let ghost after_tenth = bytes@;
        let eleventh = match K::decode(bytes) {
            Ok(eleventh) => eleventh,
            Err(e) => {
                *bytes = start;
                return Err(e);
            },
        };
        proof {
            A::decoding_consumes(start@);
            B::decoding_consumes(after_first);
            C::decoding_consumes(after_second);
            D::decoding_consumes(after_third);
            E::decoding_consumes(after_fourth);
            F::decoding_consumes(after_fifth);
            G::decoding_consumes(after_sixth);
            H::decoding_consumes(after_seventh);
            I::decoding_consumes(after_eighth);
            J::decoding_consumes(after_ninth);
            assert(after_first =~= start@.skip(start@.len() - after_first.len()));
            assert(after_second =~= start@.skip(start@.len() - after_second.len()));
            assert(after_third =~= start@.skip(start@.len() - after_third.len()));
            assert(after_fourth =~= start@.skip(start@.len() - after_fourth.len()));
            assert(after_fifth =~= start@.skip(start@.len() - after_fifth.len()));
            assert(after_sixth =~= start@.skip(start@.len() - after_sixth.len()));
            assert(after_seventh =~= start@.skip(start@.len() - after_seventh.len()));
            assert(after_eighth =~= start@.skip(start@.len() - after_eighth.len()));
            assert(after_ninth =~= start@.skip(start@.len() - after_ninth.len()));
            assert(after_tenth =~= start@.skip(start@.len() - after_tenth.len()));
            assert(bytes@ =~= start@.skip(start@.len() - bytes@.len()));
            assert(after_second =~= after_first.skip(after_first.len() - after_second.len()));
            assert(after_third =~= after_second.skip(after_second.len() - after_third.len()));
            assert(after_fourth =~= after_third.skip(after_third.len() - after_fourth.len()));
            assert(after_fifth =~= after_fourth.skip(after_fourth.len() - after_fifth.len()));
            assert(after_sixth =~= after_fifth.skip(after_fifth.len() - after_sixth.len()));
            assert(after_seventh =~= after_sixth.skip(after_sixth.len() - after_seventh.len()));
            assert(after_eighth =~= after_seventh.skip(after_seventh.len() - after_eighth.len()));
            assert(after_ninth =~= after_eighth.skip(after_eighth.len() - after_ninth.len()));
            assert(after_tenth =~= after_ninth.skip(after_ninth.len() - after_tenth.len()));
        }
        Ok((first, second, third, fourth, fifth, sixth, seventh, eighth, ninth, tenth, eleventh))
    }
}

impl<A, B, C, D, E, F, G, H, I, J, K> Codec<KeyEncoding>
    for (A, B, C, D, E, F, G, H, I, J, K) where
    A: KeySerde,
    B: KeySerde,
    C: KeySerde,
    D: KeySerde,
    E: KeySerde,
    F: KeySerde,
    G: KeySerde,
    H: KeySerde,
    I: KeySerde,
    J: KeySerde,
    K: Codec<KeyEncoding>,
 {
    proof fn round_trip(v: Self::V) {
        lemma_pair_round_trip::<A, (B, C, D, E, F, G, H, I, J, K)>(
            v.0,
            (v.1, v.2, v.3, v.4, v.5, v.6, v.7, v.8, v.9, v.10),
        );
    }
}

impl<A, B, C, D, E, F, G, H, I, J, K> KeySerde for (A, B, C, D, E, F, G, H, I, J, K) where
    A: KeySerde,
    B: KeySerde,
    C: KeySerde,
    D: KeySerde,
    E: KeySerde,
    F: KeySerde,
    G: KeySerde,
    H: KeySerde,
    I: KeySerde,
    J: KeySerde,
    K: KeySerde,
 {
    type PartialKey = (A, B, C, D, E, F, G, H, I, J, K);

    open spec fn partial_decoding(bytes: Seq<u8>) -> Result<
        Option<(Self::V, int)>,
        KeyDeserializeError,
    > {
        whole_or_nothing(bytes, <Self as Decodable<KeyEncoding>>::decoding(bytes))
    }

    proof fn partial_decoding_consumes(bytes: Seq<u8>) {
        <Self as Decodable<KeyEncoding>>::decoding_consumes(bytes);
    }

    fn partial_decode(bytes: &mut &[u8]) -> (r: Result<Option<Self>, KeyDeserializeError>) {
        decode_whole_or_nothing::<Self>(bytes)
    }

    open spec fn partial_model(v: Self::V, rest: Seq<u8>) -> Self::V {
        v
    }

    proof fn partial_of_nothing() {
    }

    proof fn partial_of_encoding(v: Self::V, rest: Seq<u8>) {
        lemma_pair_delimited::<A, (B, C, D, E, F, G, H, I, J, K)>(
            v.0,
            (v.1, v.2, v.3, v.4, v.5, v.6, v.7, v.8, v.9, v.10),
            rest,
        );
    }

    open spec fn key_lt(a: Self::V, b: Self::V) -> bool {
        pair_lt::<A, (B, C, D, E, F, G, H, I, J, K)>(
            (a.0, (a.1, a.2, a.3, a.4, a.5, a.6, a.7, a.8, a.9, a.10)),
            (b.0, (b.1, b.2, b.3, b.4, b.5, b.6, b.7, b.8, b.9, b.10)),
        )
    }

    proof fn delimited(v: Self::V, rest: Seq<u8>) {
        lemma_pair_delimited::<A, (B, C, D, E, F, G, H, I, J, K)>(
            v.0,
            (v.1, v.2, v.3, v.4, v.5, v.6, v.7, v.8, v.9, v.10),
            rest,
        );
    }

    proof fn order_preserved(a: Self::V, b: Self::V) {
        lemma_pair_order::<A, (B, C, D, E, F, G, H, I, J, K)>(
            (a.0, (a.1, a.2, a.3, a.4, a.5, a.6, a.7, a.8, a.9, a.10)),
            (b.0, (b.1, b.2, b.3, b.4, b.5, b.6, b.7, b.8, b.9, b.10)),
        );
    }
}

} // verus!
