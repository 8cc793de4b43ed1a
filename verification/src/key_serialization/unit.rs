//! The segment that takes no bytes, and the optional last segment of a key.
use vstd::prelude::*;
use crate::error::{KeyDeserializeError, KeySerializeError};
use crate::key::{decode_whole_or_nothing, whole_or_nothing, KeySerde};
use crate::key_serialization::KeyEncoding;
use crate::order::lex_lt;
use crate::serialization::{Codec, Decodable, Encodable};

verus! {

impl Encodable<KeyEncoding> for () {
    open spec fn encoding(v: ()) -> Result<Seq<u8>, KeySerializeError> {
        Ok(Seq::empty())
    }

    fn encode(&self) -> (r: Result<Vec<u8>, KeySerializeError>) {
        Ok(Vec::new())
    }
}

impl Decodable<KeyEncoding> for () {
    open spec fn decoding(bytes: Seq<u8>) -> Result<((), int), KeyDeserializeError> {
        Ok(((), 0))
    }

    proof fn decoding_consumes(bytes: Seq<u8>) {
    }

    fn decode(bytes: &mut &[u8]) -> (r: Result<Self, KeyDeserializeError>) {
        proof {
            assert(bytes@.skip(0) =~= bytes@);
        }
        Ok(())
    }
}

impl Codec<KeyEncoding> for () {
    proof fn round_trip(v: ()) {
    }
}

impl KeySerde for () {
    type PartialKey = ();

    /// Where no bytes are left, the key ended before the empty segment, as
    /// before any other; where bytes are left, the empty segment is there
    /// and takes none of them.
    open spec fn partial_decoding(bytes: Seq<u8>) -> Result<
        Option<((), int)>,
        KeyDeserializeError,
    > {
        whole_or_nothing(bytes, <() as Decodable<KeyEncoding>>::decoding(bytes))
    }

    proof fn partial_decoding_consumes(bytes: Seq<u8>) {
    }

    fn partial_decode(bytes: &mut &[u8]) -> (r: Result<Option<()>, KeyDeserializeError>) {
        decode_whole_or_nothing::<()>(bytes)
    }

    open spec fn partial_model(v: (), rest: Seq<u8>) -> () {
        v
    }

    proof fn partial_of_nothing() {
    }

    proof fn partial_of_encoding(v: (), rest: Seq<u8>) {
        assert(Seq::<u8>::empty() + rest =~= rest);
    }

    open spec fn key_lt(a: (), b: ()) -> bool {
        false
    }

    proof fn delimited(v: (), rest: Seq<u8>) {
    }

    proof fn order_preserved(a: (), b: ()) {
    }
}

/// The encoding of a segment that may be missing: no bytes where it is.
pub open spec fn optional_encoding<K: Encodable<KeyEncoding>>(v: Option<K::V>) -> Result<
    Seq<u8>,
    KeySerializeError,
> {
    match v {
        Some(k) => K::encoding(k),
        None => Ok(Seq::empty()),
    }
}

/// The reading of a segment that may be missing: missing exactly where no
/// bytes are left.
pub open spec fn optional_decoding<K: Decodable<KeyEncoding>>(bytes: Seq<u8>) -> Result<
    (Option<K::V>, int),
    KeyDeserializeError,
> {
    if bytes.len() == 0 {
        Ok((None, 0))
    } else {
        match K::decoding(bytes) {
            Ok((k, n)) => Ok((Some(k), n)),
            Err(e) => Err(e),
        }
    }
}

impl<K: Encodable<KeyEncoding>> Encodable<KeyEncoding> for Option<K> {
    open spec fn encoding(v: Option<K::V>) -> Result<Seq<u8>, KeySerializeError> {
        optional_encoding::<K>(v)
    }

    fn encode(&self) -> (r: Result<Vec<u8>, KeySerializeError>) {
        match self {
            Some(k) => k.encode(),
            None => Ok(Vec::new()),
        }
    }
}

impl<K: Decodable<KeyEncoding>> Decodable<KeyEncoding> for Option<K> {
    open spec fn decoding(bytes: Seq<u8>) -> Result<(Option<K::V>, int), KeyDeserializeError> {
        optional_decoding::<K>(bytes)
    }

    proof fn decoding_consumes(bytes: Seq<u8>) {
        K::decoding_consumes(bytes);
    }

    fn decode(bytes: &mut &[u8]) -> (r: Result<Self, KeyDeserializeError>) {
        if bytes.len() == 0 {
            proof {
                assert(bytes@.skip(0) =~= bytes@);
            }
            return Ok(None);
        }
        match K::decode(bytes) {
            Ok(k) => Ok(Some(k)),
            Err(e) => Err(e),
        }
    }
}

/// An optional last segment reads back as it was written, unless it is there
/// and takes no bytes: then it reads back as missing.
pub proof fn lemma_optional_round_trip<K: Codec<KeyEncoding>>(v: Option<K::V>)
    requires
        optional_encoding::<K>(v) is Ok,
        v matches Some(k) ==> K::encoding(k)->Ok_0.len() > 0,
    ensures
        optional_decoding::<K>(optional_encoding::<K>(v)->Ok_0) == Ok::<
            (Option<K::V>, int),
            KeyDeserializeError,
        >((v, optional_encoding::<K>(v)->Ok_0.len() as int)),
{
    if let Some(k) = v {
        K::round_trip(k);
    }
}

/// The order of optional segments that the encoding keeps: a missing segment
/// comes before one that is there.
pub open spec fn optional_lt<K: KeySerde>(a: Option<K::V>, b: Option<K::V>) -> bool {
    match (a, b) {
        (None, Some(_)) => true,
        (Some(x), Some(y)) => K::key_lt(x, y),
        _ => false,
    }
}

/// The encodings of optional segments compare as the segments do, as long as
/// a segment that is there takes at least one byte.
pub proof fn lemma_optional_order<K: KeySerde>(a: Option<K::V>, b: Option<K::V>)
    requires
        optional_encoding::<K>(a) is Ok,
        optional_encoding::<K>(b) is Ok,
        a matches Some(k) ==> K::encoding(k)->Ok_0.len() > 0,
        b matches Some(k) ==> K::encoding(k)->Ok_0.len() > 0,
    ensures
        optional_lt::<K>(a, b) <==> lex_lt(
            optional_encoding::<K>(a)->Ok_0,
            optional_encoding::<K>(b)->Ok_0,
        ),
{
    match (a, b) {
        (Some(x), Some(y)) => {
            K::order_preserved(x, y);
        },
        _ => {},
    }
}

} // verus!
