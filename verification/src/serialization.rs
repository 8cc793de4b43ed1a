//! What it means for a type to have a byte encoding: the functions that encode
//! and decode, and the mathematical functions that say what they compute.
use vstd::prelude::*;

verus! {

/// A way of turning values into bytes, named by the errors it can report.
pub trait Encoding {
    type EncodeError;

    type DecodeError;
}

/// The bytes of an encoding result, as a sequence.
pub open spec fn bytes_view<X>(r: Result<Vec<u8>, X>) -> Result<Seq<u8>, X> {
    match r {
        Ok(bytes) => Ok(bytes@),
        Err(e) => Err(e),
    }
}

/// A type whose values the encoding `E` can turn into bytes.
pub trait Encodable<E: Encoding>: DeepView {
    /// The bytes that stand for the value `v`, or why it has none.
    spec fn encoding(v: Self::V) -> Result<Seq<u8>, E::EncodeError>;

    /// Encodes this value.
    fn encode(&self) -> (r: Result<Vec<u8>, E::EncodeError>)
        ensures
            bytes_view(r) == Self::encoding(self.deep_view()),
    ;
}

/// A type whose values the encoding `E` can read from the front of a byte string.
pub trait Decodable<E: Encoding>: DeepView + Sized {
    /// The value at the front of `bytes` and the number of bytes it takes, or
    /// why there is none.
    spec fn decoding(bytes: Seq<u8>) -> Result<(Self::V, int), E::DecodeError>;

    /// A value takes no more bytes than there are.
    proof fn decoding_consumes(bytes: Seq<u8>)
        ensures
            Self::decoding(bytes) matches Ok((_, n)) ==> 0 <= n <= bytes.len(),
    ;

    /// Decodes a value from the front of `bytes` and moves `bytes` past it.
    /// Where it fails, `bytes` is left as it was.
    fn decode(bytes: &mut &[u8]) -> (r: Result<Self, E::DecodeError>)
        ensures
            match r {
                Ok(v) => Self::decoding(old(bytes)@) matches Ok((m, n)) && m == v.deep_view() && 0
                    <= n <= old(bytes)@.len() && final(bytes)@ == old(bytes)@.skip(n),
                Err(e) => Self::decoding(old(bytes)@) == Err::<(Self::V, int), E::DecodeError>(e)
                    && final(bytes)@ == old(bytes)@,
            },
    ;
}

/// A type that decodes to what was encoded.
pub trait Codec<E: Encoding>: Encodable<E> + Decodable<E> {
    /// Decoding the bytes of `v` gives `v` back and takes all of them.
    proof fn round_trip(v: Self::V)
        requires
            Self::encoding(v) is Ok,
        ensures
            Self::decoding(Self::encoding(v)->Ok_0) == Ok::<(Self::V, int), E::DecodeError>(
                (v, Self::encoding(v)->Ok_0.len() as int),
            ),
    ;
}

/// The bytes that stand for `value`, or why it has none.
pub open spec fn encoding_of<E: Encoding, T: Encodable<E>>(value: &T) -> Result<
    Seq<u8>,
    E::EncodeError,
> {
    T::encoding(value.deep_view())
}

/// Encodes `value` with the encoding `E`.
pub fn encode<E: Encoding>(value: &impl Encodable<E>) -> (r: Result<Vec<u8>, E::EncodeError>)
    ensures
        bytes_view(r) == encoding_of(value),
{
    value.encode()
}

/// Decodes a `T` from the front of `bytes` with the encoding `E`; what follows
/// the value is not looked at.
pub fn decode<T: Decodable<E>, E: Encoding>(bytes: &[u8]) -> (r: Result<T, E::DecodeError>)
    ensures
        match r {
            Ok(v) => T::decoding(bytes@) matches Ok((m, _)) && m == v.deep_view(),
            Err(e) => T::decoding(bytes@) == Err::<(T::V, int), E::DecodeError>(e),
        },
{
    let mut rest: &[u8] = bytes;
    T::decode(&mut rest)
}

} // verus!
