//! Key segments and keys made of several segments.
//!
//! A key segment is a value whose encoding says itself where it ends and
//! sorts as the value does. A key of several segments is the segments'
//! encodings one after another, and can be read back as far as the bytes go.
use vstd::prelude::*;
use crate::error::{KeyDeserializeError, KeySerializeError};
use crate::key_serialization::bytes::append_bytes;
use crate::key_serialization::KeyEncoding;
use crate::order::{
    is_prefix, lemma_lex_lt_common_prefix, lemma_lex_lt_decided_by_heads,
    lemma_lex_lt_irreflexive, lex_lt,
};
use crate::serialization::{Codec, Decodable, Encodable};

verus! {

/// A key segment: a value with an order-preserving, self-delimiting encoding,
/// which can also be read in partial mode, where an empty input means that
/// the key ended before this segment.
pub trait KeySerde: Codec<KeyEncoding> {
    /// What a partial read of this segment gives.
    type PartialKey: DeepView;

    /// What a partial read of the front of `bytes` gives: nothing where the
    /// key ended before this segment, else the segment as far as it can be
    /// read, and the number of bytes it takes.
    spec fn partial_decoding(bytes: Seq<u8>) -> Result<
        Option<(<Self::PartialKey as DeepView>::V, int)>,
        KeyDeserializeError,
    >;

    /// A partial read takes no more bytes than there are.
    proof fn partial_decoding_consumes(bytes: Seq<u8>)
        ensures
            Self::partial_decoding(bytes) matches Ok(Some((_, n))) ==> 0 <= n <= bytes.len(),
    ;

    /// Reads this segment in partial mode and moves `bytes` past it. Where
    /// nothing is read, `bytes` is left as it was.
    fn partial_decode(bytes: &mut &[u8]) -> (r: Result<
        Option<Self::PartialKey>,
        KeyDeserializeError,
    >)
        ensures
            match r {
                Ok(Some(v)) => Self::partial_decoding(old(bytes)@) matches Ok(Some((m, n))) && m
                    == v.deep_view() && 0 <= n <= old(bytes)@.len() && final(bytes)@ == old(
                    bytes,
                )@.skip(n),
                Ok(None) => Self::partial_decoding(old(bytes)@) == Ok::<
                    Option<(<Self::PartialKey as DeepView>::V, int)>,
                    KeyDeserializeError,
                >(None) && final(bytes)@ == old(bytes)@,
                Err(e) => Self::partial_decoding(old(bytes)@) == Err::<
                    Option<(<Self::PartialKey as DeepView>::V, int)>,
                    KeyDeserializeError,
                >(e) && final(bytes)@ == old(bytes)@,
            },
    ;

    /// What a partial read makes of the value `v` when `rest` follows its
    /// bytes: the value as far as it shows before the key ends.
    spec fn partial_model(v: Self::V, rest: Seq<u8>) -> <Self::PartialKey as DeepView>::V;

    /// Where no bytes are left, a partial read gives nothing, and no failure:
    /// the key ended before this segment.
    proof fn partial_of_nothing()
        ensures
            Self::partial_decoding(Seq::<u8>::empty()) == Ok::<
                Option<(<Self::PartialKey as DeepView>::V, int)>,
                KeyDeserializeError,
            >(None),
    ;

    /// A partial read of the bytes of `v` and what follows them, where there
    /// is a byte at all, gives `v`, as far as it shows, and takes just the
    /// bytes of `v`.
    proof fn partial_of_encoding(v: Self::V, rest: Seq<u8>)
        requires
            Self::encoding(v) is Ok,
            (Self::encoding(v)->Ok_0 + rest).len() > 0,
        ensures
            Self::partial_decoding(Self::encoding(v)->Ok_0 + rest) == Ok::<
                Option<(<Self::PartialKey as DeepView>::V, int)>,
                KeyDeserializeError,
            >(Some((Self::partial_model(v, rest), Self::encoding(v)->Ok_0.len() as int))),
    ;

    /// The order of the values that the encoding keeps.
    spec fn key_lt(a: Self::V, b: Self::V) -> bool;

    /// The encoding says where it ends: whatever follows the bytes of `v`,
    /// decoding gives `v` and takes just those bytes.
    proof fn delimited(v: Self::V, rest: Seq<u8>)
        requires
            Self::encoding(v) is Ok,
        ensures
            Self::decoding(Self::encoding(v)->Ok_0 + rest) == Ok::<
                (Self::V, int),
                KeyDeserializeError,
            >((v, Self::encoding(v)->Ok_0.len() as int)),
    ;

    /// The encoding keeps the order: one value is below another exactly if
    /// its bytes are lexicographically below the other's.
    proof fn order_preserved(a: Self::V, b: Self::V)
        requires
            Self::encoding(a) is Ok,
            Self::encoding(b) is Ok,
        ensures
            Self::key_lt(a, b) <==> lex_lt(Self::encoding(a)->Ok_0, Self::encoding(b)->Ok_0),
    ;
}

/// The partial reading of a segment that is read whole or not at all: nothing
/// on an empty input, else what a full read gives.
pub open spec fn whole_or_nothing<V>(
    bytes: Seq<u8>,
    full: Result<(V, int), KeyDeserializeError>,
) -> Result<Option<(V, int)>, KeyDeserializeError> {
    if bytes.len() == 0 {
        Ok(None)
    } else {
        match full {
            Ok(found) => Ok(Some(found)),
            Err(e) => Err(e),
        }
    }
}

/// Reads a segment in partial mode that is read whole or not at all.
pub fn decode_whole_or_nothing<K: Decodable<KeyEncoding>>(bytes: &mut &[u8]) -> (r: Result<
    Option<K>,
    KeyDeserializeError,
>)
    ensures
        match r {
            Ok(Some(v)) => whole_or_nothing(old(bytes)@, K::decoding(old(bytes)@)) matches Ok(
                Some((m, n)),
            ) && m == v.deep_view() && 0 <= n <= old(bytes)@.len() && final(bytes)@ == old(
                bytes,
            )@.skip(n),
            Ok(None) => whole_or_nothing(old(bytes)@, K::decoding(old(bytes)@)) == Ok::<
                Option<(K::V, int)>,
                KeyDeserializeError,
            >(None) && final(bytes)@ == old(bytes)@,
            Err(e) => whole_or_nothing(old(bytes)@, K::decoding(old(bytes)@)) == Err::<
                Option<(K::V, int)>,
                KeyDeserializeError,
            >(e) && final(bytes)@ == old(bytes)@,
        },
{
    if bytes.len() == 0 {
        return Ok(None);
    }
    match K::decode(bytes) {
        Ok(v) => Ok(Some(v)),
        Err(e) => Err(e),
    }
}

/// The encodings of two different values of a segment type do not begin
/// with one another.
pub proof fn lemma_encodings_part<K: KeySerde>(a: K::V, b: K::V)
    requires
        K::encoding(a) is Ok,
        K::encoding(b) is Ok,
        a != b,
    ensures
        !is_prefix(K::encoding(a)->Ok_0, K::encoding(b)->Ok_0),
{
    let xa = K::encoding(a)->Ok_0;
    let xb = K::encoding(b)->Ok_0;
    if is_prefix(xa, xb) {
        let rest = xb.subrange(xa.len() as int, xb.len() as int);
        assert(xb =~= xa + rest);
        K::delimited(a, rest);
        K::delimited(b, Seq::empty());
        assert(xb + Seq::<u8>::empty() =~= xb);
    }
}

/// Two values of a segment type with the same encoding are the same value.
pub proof fn lemma_encoding_injective<K: KeySerde>(a: K::V, b: K::V)
    requires
        K::encoding(a) is Ok,
        K::encoding(b) is Ok,
        K::encoding(a)->Ok_0 == K::encoding(b)->Ok_0,
    ensures
        a == b,
{
    K::delimited(a, Seq::empty());
    K::delimited(b, Seq::empty());
}

/// No value of a segment type is below itself in the order that its encoding keeps.
pub proof fn lemma_key_lt_irreflexive<K: KeySerde>(a: K::V)
    requires
        K::encoding(a) is Ok,
    ensures
        !K::key_lt(a, a),
{
    K::order_preserved(a, a);
    lemma_lex_lt_irreflexive(K::encoding(a)->Ok_0);
}

/// The order of two segments one after another: by the first segment, and
/// among equal first segments by the second.
pub open spec fn pair_lt<A: KeySerde, B: KeySerde>(a: (A::V, B::V), b: (A::V, B::V)) -> bool {
    A::key_lt(a.0, b.0) || (a.0 == b.0 && B::key_lt(a.1, b.1))
}

/// The bytes of two segments one after another, or the first failure.
pub open spec fn pair_encoding<A: Encodable<KeyEncoding>, B: Encodable<KeyEncoding>>(
    a: A::V,
    b: B::V,
) -> Result<Seq<u8>, KeySerializeError> {
    match A::encoding(a) {
        Err(e) => Err(e),
        Ok(first) => match B::encoding(b) {
            Err(e) => Err(e),
            Ok(second) => Ok(first + second),
        },
    }
}

/// Two segments read one after another from the front of `bytes`, with the
/// bytes that both take, or the first failure.
pub open spec fn pair_decoding<A: Decodable<KeyEncoding>, B: Decodable<KeyEncoding>>(
    bytes: Seq<u8>,
) -> Result<((A::V, B::V), int), KeyDeserializeError> {
    match A::decoding(bytes) {
        Err(e) => Err(e),
        Ok((a, n)) => match B::decoding(bytes.skip(n)) {
            Err(e) => Err(e),
            Ok((b, m)) => Ok(((a, b), n + m)),
        },
    }
}

/// Whatever follows the bytes of two segments, reading two segments gives
/// both back and takes just their bytes.
pub proof fn lemma_pair_delimited<A: KeySerde, B: KeySerde>(a: A::V, b: B::V, rest: Seq<u8>)
    requires
        pair_encoding::<A, B>(a, b) is Ok,
    ensures
        pair_decoding::<A, B>(pair_encoding::<A, B>(a, b)->Ok_0 + rest) == Ok::<
            ((A::V, B::V), int),
            KeyDeserializeError,
        >(((a, b), pair_encoding::<A, B>(a, b)->Ok_0.len() as int)),
{
    let first = A::encoding(a)->Ok_0;
    let second = B::encoding(b)->Ok_0;
    let all = first + second + rest;
    A::delimited(a, second + rest);
    B::delimited(b, rest);
    assert(all =~= first + (second + rest));
    assert(all.skip(first.len() as int) =~= second + rest);
}

/// A last segment need not say where it ends: the bytes of two segments read
/// back as the two segments.
pub proof fn lemma_pair_round_trip<A: KeySerde, B: Codec<KeyEncoding>>(a: A::V, b: B::V)
    requires
        pair_encoding::<A, B>(a, b) is Ok,
    ensures
        pair_decoding::<A, B>(pair_encoding::<A, B>(a, b)->Ok_0) == Ok::<
            ((A::V, B::V), int),
            KeyDeserializeError,
        >(((a, b), pair_encoding::<A, B>(a, b)->Ok_0.len() as int)),
{
    let first = A::encoding(a)->Ok_0;
    let second = B::encoding(b)->Ok_0;
    A::delimited(a, second);
    B::round_trip(b);
    assert((first + second).skip(first.len() as int) =~= second);
}

/// The bytes of two segments one after another compare as the pairs do.
pub proof fn lemma_pair_order<A: KeySerde, B: KeySerde>(a: (A::V, B::V), b: (A::V, B::V))
    requires
        pair_encoding::<A, B>(a.0, a.1) is Ok,
        pair_encoding::<A, B>(b.0, b.1) is Ok,
    ensures
        pair_lt::<A, B>(a, b) <==> lex_lt(
            pair_encoding::<A, B>(a.0, a.1)->Ok_0,
            pair_encoding::<A, B>(b.0, b.1)->Ok_0,
        ),
{
    let a0 = A::encoding(a.0)->Ok_0;
    let a1 = B::encoding(a.1)->Ok_0;
    let b0 = A::encoding(b.0)->Ok_0;
    let b1 = B::encoding(b.1)->Ok_0;
    A::order_preserved(a.0, b.0);
    B::order_preserved(a.1, b.1);
    if a.0 == b.0 {
        lemma_key_lt_irreflexive::<A>(a.0);
        lemma_lex_lt_common_prefix(a0, a1, b1);
    } else {
        lemma_encodings_part::<A>(a.0, b.0);
        lemma_encodings_part::<A>(b.0, a.0);
        lemma_lex_lt_decided_by_heads(a0, a1, b0, b1);
    }
}

/// A key of two parts, the second of which may itself be a key of several
/// segments: the key of a container and the key within what it holds.
#[derive(Debug, PartialEq, Eq)]
pub struct CompoundKey<T, U>(pub T, pub U);

impl<T: DeepView, U: DeepView> DeepView for CompoundKey<T, U> {
    type V = (T::V, U::V);

    open spec fn deep_view(&self) -> (T::V, U::V) {
        (self.0.deep_view(), self.1.deep_view())
    }
}

/// A failure of a key of two parts, put in the place of the part that
/// failed: the first place if it was the first part, the second place else.
pub open spec fn placed<E>(in_first: bool, e: E) -> (Option<E>, Option<E>) {
    if in_first {
        (Some(e), None)
    } else {
        (None, Some(e))
    }
}

/// A failure to read a key of two parts, told by the part that failed.
pub open spec fn tagged<V>(
    first: Result<(V, int), KeyDeserializeError>,
    e: KeyDeserializeError,
) -> (Option<KeyDeserializeError>, Option<KeyDeserializeError>) {
    placed(first is Err, e)
}

impl<T, U> CompoundKey<T, U> {
    /// The key made of `t` and then `u`.
    pub fn new(t: T, u: U) -> (key: Self)
        ensures
            key.0 == t,
            key.1 == u,
    {
        CompoundKey(t, u)
    }
}

impl<T: Decodable<KeyEncoding>, U: Decodable<KeyEncoding>> CompoundKey<T, U> {
    /// Reads the two parts in order from the front of `bytes`; a failure
    /// comes with the word whether it was the first part that failed.
    fn decode_parts(bytes: &mut &[u8]) -> (r: Result<Self, (bool, KeyDeserializeError)>)
        ensures
            match r {
                Ok(key) => pair_decoding::<T, U>(old(bytes)@) matches Ok((m, n)) && m
                    == key.deep_view() && 0 <= n <= old(bytes)@.len() && final(bytes)@ == old(
                    bytes,
                )@.skip(n),
                Err((in_first, e)) => pair_decoding::<T, U>(old(bytes)@) == Err::<
                    ((T::V, U::V), int),
                    KeyDeserializeError,
                >(e) && in_first == (T::decoding(old(bytes)@) is Err) && final(bytes)@ == old(
                    bytes,
                )@,
            },
    {
        let start: &[u8] = *bytes;
        let t = match T::decode(bytes) {
            Ok(t) => t,
            Err(e) => {
                return Err((true, e));
            },
        };
        let u = match U::decode(bytes) {
            Ok(u) => u,
            Err(e) => {
                *bytes = start;
                return Err((false, e));
            },
        };
        proof {
            let n = start@.len() - bytes@.len();
            let first = T::decoding(start@)->Ok_0.1;
            assert(start@.skip(first).skip(n - first) =~= start@.skip(n));
        }
        Ok(CompoundKey(t, u))
    }

    /// Reads the two parts in order from the front of `bytes`. A failure comes
    /// back in the place of the part that failed: in the first place if the
    /// first part could not be read, in the second if the first could and the
    /// second could not. Where it fails, `bytes` is left as it was.
    pub fn decode_tagged(bytes: &mut &[u8]) -> (r: Result<
        Self,
        (Option<KeyDeserializeError>, Option<KeyDeserializeError>),
    >)
        ensures
            match r {
                Ok(key) => pair_decoding::<T, U>(old(bytes)@) matches Ok((m, n)) && m
                    == key.deep_view() && 0 <= n <= old(bytes)@.len() && final(bytes)@ == old(
                    bytes,
                )@.skip(n),
                Err(e) => pair_decoding::<T, U>(old(bytes)@) matches Err(cause) && e == tagged(
                    T::decoding(old(bytes)@),
                    cause,
                ) && final(bytes)@ == old(bytes)@,
            },
    {
        match Self::decode_parts(bytes) {
            Ok(key) => Ok(key),
            Err((true, e)) => Err((Some(e), None)),
            Err((false, e)) => Err((None, Some(e))),
        }
    }
}

impl<T: Encodable<KeyEncoding>, U: Encodable<KeyEncoding>> CompoundKey<T, U> {
    /// The bytes of the two parts one after another, with nothing between
    /// them; a failure comes with the word whether it was the first part
    /// that failed.
    fn encode_parts(&self) -> (r: Result<Vec<u8>, (bool, KeySerializeError)>)
        ensures
            match r {
                Ok(bytes) => pair_encoding::<T, U>(self.0.deep_view(), self.1.deep_view()) == Ok::<
                    Seq<u8>,
                    KeySerializeError,
                >(bytes@),
                Err((in_first, e)) => pair_encoding::<T, U>(
                    self.0.deep_view(),
                    self.1.deep_view(),
                ) == Err::<Seq<u8>, KeySerializeError>(e) && in_first == (T::encoding(
                    self.0.deep_view(),
                ) is Err),
            },
    {
        let mut bytes = match self.0.encode() {
            Ok(bytes) => bytes,
            Err(e) => {
                return Err((true, e));
            },
        };
        let second = match self.1.encode() {
            Ok(second) => second,
            Err(e) => {
                return Err((false, e));
            },
        };
        append_bytes(&mut bytes, second.as_slice());
        Ok(bytes)
    }

    /// The bytes of the two parts one after another, with nothing between
    /// them. A failure comes back in the place of the part that failed: in
    /// the first place if the first part has no encoding, in the second if
    /// the first has one and the second has none.
    pub fn encode_tagged(&self) -> (r: Result<
        Vec<u8>,
        (Option<KeySerializeError>, Option<KeySerializeError>),
    >)
        ensures
            match r {
                Ok(bytes) => pair_encoding::<T, U>(self.0.deep_view(), self.1.deep_view()) == Ok::<
                    Seq<u8>,
                    KeySerializeError,
                >(bytes@),
                Err(e) => pair_encoding::<T, U>(
                    self.0.deep_view(),
                    self.1.deep_view(),
                ) matches Err(cause) && e == placed(
                    T::encoding(self.0.deep_view()) is Err,
                    cause,
                ),
            },
    {
        match self.encode_parts() {
            Ok(bytes) => Ok(bytes),
            Err((true, e)) => Err((Some(e), None)),
            Err((false, e)) => Err((None, Some(e))),
        }
    }
}

impl<T: Encodable<KeyEncoding>, U: Encodable<KeyEncoding>> Encodable<KeyEncoding> for CompoundKey<
    T,
    U,
> {
    open spec fn encoding(v: (T::V, U::V)) -> Result<Seq<u8>, KeySerializeError> {
        pair_encoding::<T, U>(v.0, v.1)
    }

    fn encode(&self) -> (r: Result<Vec<u8>, KeySerializeError>) {
        match self.encode_parts() {
            Ok(bytes) => Ok(bytes),
            Err((_, e)) => Err(e),
        }
    }
}

impl<T: Decodable<KeyEncoding>, U: Decodable<KeyEncoding>> Decodable<KeyEncoding> for CompoundKey<
    T,
    U,
> {
    open spec fn decoding(bytes: Seq<u8>) -> Result<((T::V, U::V), int), KeyDeserializeError> {
        pair_decoding::<T, U>(bytes)
    }

    proof fn decoding_consumes(bytes: Seq<u8>) {
        T::decoding_consumes(bytes);
        if let Ok((_, n)) = T::decoding(bytes) {
            U::decoding_consumes(bytes.skip(n));
        }
    }

    fn decode(bytes: &mut &[u8]) -> (r: Result<Self, KeyDeserializeError>) {
        match Self::decode_parts(bytes) {
            Ok(key) => Ok(key),
            Err((_, e)) => Err(e),
        }
    }
}

impl<T: KeySerde, U: Codec<KeyEncoding>> Codec<KeyEncoding> for CompoundKey<T, U> {
    proof fn round_trip(v: (T::V, U::V)) {
        lemma_pair_round_trip::<T, U>(v.0, v.1);
    }
}

/// The partial reading of a key of two parts: nothing where the key ended
/// before the first part, else the first part and as much of the second as
/// there is.
pub open spec fn compound_partial_decoding<T: KeySerde, U: KeySerde>(bytes: Seq<u8>) -> Result<
    Option<
        ((<T::PartialKey as DeepView>::V, Option<<U::PartialKey as DeepView>::V>), int),
    >,
    KeyDeserializeError,
> {
    match T::partial_decoding(bytes) {
        Err(e) => Err(e),
        Ok(None) => Ok(None),
        Ok(Some((t, n))) => match U::partial_decoding(bytes.skip(n)) {
            Err(e) => Err(e),
            Ok(None) => Ok(Some(((t, None), n))),
            Ok(Some((u, m))) => Ok(Some(((t, Some(u)), n + m))),
        },
    }
}

/// What a partial read makes of a key of two parts when `rest` follows its
/// bytes: the first part, and the second part unless the key ends before it,
/// which it does where the second part takes no bytes and none follow.
pub open spec fn compound_partial_model<T: KeySerde, U: KeySerde>(
    v: (T::V, U::V),
    rest: Seq<u8>,
) -> (<T::PartialKey as DeepView>::V, Option<<U::PartialKey as DeepView>::V>) {
    let after = U::encoding(v.1)->Ok_0 + rest;
    (
        T::partial_model(v.0, after),
        if after.len() == 0 {
            None
        } else {
            Some(U::partial_model(v.1, rest))
        },
    )
}

impl<T: KeySerde, U: KeySerde> CompoundKey<T, U> {
    /// Reads the key in partial mode; a failure comes with the word whether
    /// it was the first part that failed.
    fn partial_decode_parts(bytes: &mut &[u8]) -> (r: Result<
        Option<CompoundKey<T::PartialKey, Option<U::PartialKey>>>,
        (bool, KeyDeserializeError),
    >)
        ensures
            match r {
                Ok(Some(key)) => {
                    &&& compound_partial_decoding::<T, U>(old(bytes)@) matches Ok(Some((m, n)))
                        && m == key.deep_view() && 0 <= n <= old(bytes)@.len() && final(bytes)@
                        == old(bytes)@.skip(n)
                },
                Ok(None) => {
                    &&& compound_partial_decoding::<T, U>(old(bytes)@) is Ok
                    &&& compound_partial_decoding::<T, U>(old(bytes)@)->Ok_0 is None
                    &&& final(bytes)@ == old(bytes)@
                },
                Err((in_first, e)) => {
                    &&& compound_partial_decoding::<T, U>(old(bytes)@) matches Err(cause) && cause
                        == e
                    &&& in_first == (T::partial_decoding(old(bytes)@) is Err)
                    &&& final(bytes)@ == old(bytes)@
                },
            },
    {
        let start: &[u8] = *bytes;
        let t = match T::partial_decode(bytes) {
            Ok(Some(t)) => t,
            Ok(None) => {
                return Ok(None);
            },
            Err(e) => {
                return Err((true, e));
            },
        };
        let u = match U::partial_decode(bytes) {
            Ok(u) => u,
            Err(e) => {
                *bytes = start;
                return Err((false, e));
            },
        };
        proof {
            let n = start@.len() - bytes@.len();
            let first = T::partial_decoding(start@)->Ok_0->Some_0.1;
            assert(start@.skip(first).skip(n - first) =~= start@.skip(n));
        }
        Ok(Some(CompoundKey(t, u)))
    }

    /// Reads the key in partial mode from the front of `bytes`: nothing
    /// where the key ended before its first part, else the first part and as
    /// much of the second as there is. Bytes that are there and cannot be
    /// read are a failure, which comes back in the place of the part that
    /// failed. Where nothing is read, `bytes` is left as it was.
    pub fn partial_decode_tagged(bytes: &mut &[u8]) -> (r: Result<
        Option<CompoundKey<T::PartialKey, Option<U::PartialKey>>>,
        (Option<KeyDeserializeError>, Option<KeyDeserializeError>),
    >)
        ensures
            match r {
                Ok(Some(key)) => {
                    &&& compound_partial_decoding::<T, U>(old(bytes)@) matches Ok(Some((m, n)))
                        && m == key.deep_view() && 0 <= n <= old(bytes)@.len() && final(bytes)@
                        == old(bytes)@.skip(n)
                },
                Ok(None) => {
                    &&& compound_partial_decoding::<T, U>(old(bytes)@) is Ok
                    &&& compound_partial_decoding::<T, U>(old(bytes)@)->Ok_0 is None
                    &&& final(bytes)@ == old(bytes)@
                },
                Err(e) => {
                    &&& compound_partial_decoding::<T, U>(old(bytes)@) matches Err(cause) && e
                        == placed(T::partial_decoding(old(bytes)@) is Err, cause)
                    &&& final(bytes)@ == old(bytes)@
                },
            },
    {
        match Self::partial_decode_parts(bytes) {
            Ok(key) => Ok(key),
            Err((true, e)) => Err((Some(e), None)),
            Err((false, e)) => Err((None, Some(e))),
        }
    }
}

impl<T: KeySerde, U: KeySerde> KeySerde for CompoundKey<T, U> {
    type PartialKey = CompoundKey<T::PartialKey, Option<U::PartialKey>>;

    open spec fn partial_decoding(bytes: Seq<u8>) -> Result<
        Option<
            ((<T::PartialKey as DeepView>::V, Option<<U::PartialKey as DeepView>::V>), int),
        >,
        KeyDeserializeError,
    > {
        compound_partial_decoding::<T, U>(bytes)
    }

    proof fn partial_decoding_consumes(bytes: Seq<u8>) {
        T::partial_decoding_consumes(bytes);
        if let Ok(Some((_, n))) = T::partial_decoding(bytes) {
            U::partial_decoding_consumes(bytes.skip(n));
        }
    }

    fn partial_decode(bytes: &mut &[u8]) -> (r: Result<
        Option<CompoundKey<T::PartialKey, Option<U::PartialKey>>>,
        KeyDeserializeError,
    >) {
        match Self::partial_decode_parts(bytes) {
            Ok(key) => Ok(key),
            Err((_, e)) => Err(e),
        }
    }

    open spec fn partial_model(v: (T::V, U::V), rest: Seq<u8>) -> (
        <T::PartialKey as DeepView>::V,
        Option<<U::PartialKey as DeepView>::V>,
    ) {
        compound_partial_model::<T, U>(v, rest)
    }

    proof fn partial_of_nothing() {
        T::partial_of_nothing();
    }

    proof fn partial_of_encoding(v: (T::V, U::V), rest: Seq<u8>) {
        let first = T::encoding(v.0)->Ok_0;
        let second = U::encoding(v.1)->Ok_0;
        let all = first + second + rest;
        assert(all =~= first + (second + rest));
        assert(all.skip(first.len() as int) =~= second + rest);
        T::partial_of_encoding(v.0, second + rest);
        if (second + rest).len() == 0 {
            assert(second + rest =~= Seq::<u8>::empty());
            U::partial_of_nothing();
        } else {
            U::partial_of_encoding(v.1, rest);
        }
    }

    open spec fn key_lt(a: (T::V, U::V), b: (T::V, U::V)) -> bool {
        pair_lt::<T, U>(a, b)
    }

    proof fn delimited(v: (T::V, U::V), rest: Seq<u8>) {
        lemma_pair_delimited::<T, U>(v.0, v.1, rest);
    }

    proof fn order_preserved(a: (T::V, U::V), b: (T::V, U::V)) {
        lemma_pair_order::<T, U>(a, b);
    }
}

/// A key whose second part may be missing, seen as the key within the inner
/// container.
pub trait AsInner<K> {
    /// The second part of the key, where it has one.
    fn as_inner_key(&self) -> (inner: Option<&K>)
        ensures
            self.inner_key() == inner,
    ;

    /// The second part of the key, where it has one.
    spec fn inner_key(&self) -> Option<&K>;
}

impl<T, U> AsInner<U> for CompoundKey<T, Option<U>> {
    fn as_inner_key(&self) -> (inner: Option<&U>) {
        self.1.as_ref()
    }

    open spec fn inner_key(&self) -> Option<&U> {
        match self.1 {
            Some(u) => Some(&u),
            None => None,
        }
    }
}

} // verus!
