//! The encoding of key segments: bytes that sort as the values do and that
//! say themselves where they end.
use vstd::prelude::*;
use vstd::slice::slice_to_vec;
use crate::error::{KeyDeserializeError, KeySerializeError};
use crate::serialization::{Decodable, Encodable, Encoding};

pub mod bytes;
pub mod integers;
pub mod length;
pub mod tuples;
pub mod unit;

verus! {

/// The encoding of key segments. Its byte strings compare, byte by byte, as
/// the values they stand for.
#[derive(Debug, Clone, Copy, PartialEq, Eq)]
pub struct KeyEncoding;

impl Encoding for KeyEncoding {
    type EncodeError = KeySerializeError;

    type DecodeError = KeyDeserializeError;
}

/// A key that is either there as its bytes already or as a value of the
/// type `K` that has yet to be encoded.
#[derive(Debug, PartialEq, Eq)]
pub enum KeyType<K> {
    /// The bytes of a key, taken as they are.
    Raw(Vec<u8>),
    /// A key that has yet to be encoded.
    Key(K),
}

/// The model of a key that is there as its bytes or as a value.
pub enum KeyTypeModel<V> {
    Raw(Seq<u8>),
    Key(V),
}

impl<K: DeepView> DeepView for KeyType<K> {
    type V = KeyTypeModel<K::V>;

    open spec fn deep_view(&self) -> KeyTypeModel<K::V> {
        match self {
            KeyType::Raw(bytes) => KeyTypeModel::Raw(bytes@),
            KeyType::Key(key) => KeyTypeModel::Key(key.deep_view()),
        }
    }
}

impl<K: Encodable<KeyEncoding>> Encodable<KeyEncoding> for KeyType<K> {
    /// Bytes stand for themselves; a value is encoded as its type says.
    open spec fn encoding(v: KeyTypeModel<K::V>) -> Result<Seq<u8>, KeySerializeError> {
        match v {
            KeyTypeModel::Raw(bytes) => Ok(bytes),
            KeyTypeModel::Key(key) => K::encoding(key),
        }
    }

    fn encode(&self) -> (r: Result<Vec<u8>, KeySerializeError>) {
        match self {
            KeyType::Raw(bytes) => Ok(slice_to_vec(bytes.as_slice())),
            KeyType::Key(key) => key.encode(),
        }
    }
}

impl<K: Decodable<KeyEncoding>> Decodable<KeyEncoding> for KeyType<K> {
    /// What is read is a value of the type `K`.
    open spec fn decoding(bytes: Seq<u8>) -> Result<
        (KeyTypeModel<K::V>, int),
        KeyDeserializeError,
    > {
        match K::decoding(bytes) {
            Ok((key, n)) => Ok((KeyTypeModel::Key(key), n)),
            Err(e) => Err(e),
        }
    }

    proof fn decoding_consumes(bytes: Seq<u8>) {
        K::decoding_consumes(bytes);
    }

    fn decode(bytes: &mut &[u8]) -> (r: Result<Self, KeyDeserializeError>) {
        match K::decode(bytes) {
            Ok(key) => Ok(KeyType::Key(key)),
            Err(e) => Err(e),
        }
    }
}

} // verus!
