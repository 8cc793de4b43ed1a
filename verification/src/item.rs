//! The container that holds one value, under one key of the store.
use std::marker::PhantomData;
use vstd::prelude::*;
use vstd::slice::slice_to_vec;
use crate::container::{DataStructure, Terminal};
use crate::error::{KeySerializeError, StorageError};
use crate::key_serialization::bytes::{bytes_encoding, encode_bytes};
use crate::key_serialization::KeyEncoding;
use crate::serialization::{Codec, Encodable, Encoding};
use crate::storage::{Storage, StorageMut};

verus! {

/// What reading a value of the type `V` under `key` gives: nothing where the
/// store holds nothing there, else the value that the bytes decode to, or the
/// failure to decode them.
pub open spec fn load_spec<V: Codec<Enc>, Enc: Encoding>(
    store: Map<Seq<u8>, Seq<u8>>,
    key: Seq<u8>,
) -> Result<Option<V::V>, StorageError<Enc>> {
    if !store.contains_key(key) {
        Ok(None)
    } else {
        match V::decoding(store[key]) {
            Ok((value, _)) => Ok(Some(value)),
            Err(e) => Err(StorageError::ValueDeserialize(e)),
        }
    }
}

/// What writing `value` under `key` makes of the store: the store with the
/// value's bytes under the key, or the failure to encode the value.
pub open spec fn save_spec<V: Codec<Enc>, Enc: Encoding>(
    store: Map<Seq<u8>, Seq<u8>>,
    key: Seq<u8>,
    value: V::V,
) -> Result<Map<Seq<u8>, Seq<u8>>, StorageError<Enc>> {
    match V::encoding(value) {
        Ok(bytes) => Ok(store.insert(key, bytes)),
        Err(e) => Err(StorageError::ValueSerialize(e)),
    }
}

/// The model of what a read gave.
pub open spec fn loaded_view<V: DeepView, E>(loaded: Result<Option<V>, E>) -> Result<
    Option<V::V>,
    E,
> {
    match loaded {
        Ok(Some(value)) => Ok(Some(value.deep_view())),
        Ok(None) => Ok(None),
        Err(e) => Err(e),
    }
}

/// A value that was written is the value that is read.
pub proof fn lemma_save_then_load<V: Codec<Enc>, Enc: Encoding>(
    store: Map<Seq<u8>, Seq<u8>>,
    key: Seq<u8>,
    value: V::V,
)
    requires
        V::encoding(value) is Ok,
    ensures
        save_spec::<V, Enc>(store, key, value) is Ok,
        load_spec::<V, Enc>(save_spec::<V, Enc>(store, key, value)->Ok_0, key) == Ok::<
            Option<V::V>,
            StorageError<Enc>,
        >(Some(value)),
{
    V::round_trip(value);
}

/// Under a key that holds nothing, nothing is read.
pub proof fn lemma_load_unsaved<V: Codec<Enc>, Enc: Encoding>(
    store: Map<Seq<u8>, Seq<u8>>,
    key: Seq<u8>,
)
    requires
        !store.contains_key(key),
    ensures
        load_spec::<V, Enc>(store, key) == Ok::<Option<V::V>, StorageError<Enc>>(None),
{
}

/// After a key was deleted, nothing is read under it.
pub proof fn lemma_delete_then_load<V: Codec<Enc>, Enc: Encoding>(
    store: Map<Seq<u8>, Seq<u8>>,
    key: Seq<u8>,
)
    ensures
        load_spec::<V, Enc>(store.remove(key), key) == Ok::<Option<V::V>, StorageError<Enc>>(None),
{
}

/// Writing under one key leaves what is read under every other key as it was.
pub proof fn lemma_save_elsewhere<V: Codec<Enc>, Enc: Encoding>(
    store: Map<Seq<u8>, Seq<u8>>,
    key: Seq<u8>,
    bytes: Seq<u8>,
    other: Seq<u8>,
)
    requires
        other != key,
    ensures
        load_spec::<V, Enc>(store.insert(key, bytes), other) == load_spec::<V, Enc>(store, other),
{
}

/// A container that holds one value of the type `V`, encoded with `Enc`,
/// under one key of the store.
pub struct Item<V, Enc> {
    prefix: Vec<u8>,
    _marker: PhantomData<(V, Enc)>,
}

impl<V: Codec<Enc>, Enc: Encoding> DataStructure for Item<V, Enc> {
    /// An item has no key of its own: in the key of an entry, nothing
    /// follows the key of the container that holds the item, and a walk
    /// finds the item's part of the key missing.
    type Key = ();

    type Enc = Enc;

    type Value = V;

    type DsType = Terminal;

    closed spec fn raw_prefix(&self) -> Seq<u8> {
        self.prefix@
    }

    fn with_prefix(prefix: Vec<u8>) -> (container: Self) {
        Item { prefix, _marker: PhantomData }
    }

    /// An item holds nothing but its value.
    open spec fn skips(key: ()) -> bool {
        false
    }

    fn should_skip_key(key: &()) -> (skip: bool) {
        false
    }

    /// The entry at the item's own key is the item's value.
    open spec fn bare_key_is_metadata() -> bool {
        false
    }

    fn skips_bare_key() -> (skip: bool) {
        false
    }
}

impl<V: Codec<Enc>, Enc: Encoding> Item<V, Enc> {
    /// The item under the key that names it: the name as a byte-string
    /// segment, with its length in front, so that no item's key begins with
    /// the key of an item with a shorter name.
    pub fn new(key: &[u8]) -> (item: Self)
        ensures
            bytes_encoding(key@) == Ok::<Seq<u8>, KeySerializeError>(item.raw_prefix()),
    {
        Item { prefix: encode_bytes(key), _marker: PhantomData }
    }

    /// The item under the key that names it, as `new` gives it.
    pub fn from_bytes(bytes: &[u8]) -> (item: Self)
        ensures
            bytes_encoding(bytes@) == Ok::<Seq<u8>, KeySerializeError>(item.raw_prefix()),
    {
        Item::new(bytes)
    }

    /// The item under the key that names it, as `new` gives it.
    pub fn from_vec(bytes: Vec<u8>) -> (item: Self)
        ensures
            bytes_encoding(bytes@) == Ok::<Seq<u8>, KeySerializeError>(item.raw_prefix()),
    {
        Item::new(bytes.as_slice())
    }

    /// The item under the encoding of `key`; the failure where the key has
    /// no encoding.
    pub fn with_key<K: Encodable<KeyEncoding>>(key: K) -> (r: Result<Self, KeySerializeError>)
        ensures
            match r {
                Ok(item) => K::encoding(key.deep_view()) == Ok::<Seq<u8>, KeySerializeError>(
                    item.raw_prefix(),
                ),
                Err(e) => K::encoding(key.deep_view()) == Err::<Seq<u8>, KeySerializeError>(e),
            },
    {
        match key.encode() {
            Ok(prefix) => Ok(Item { prefix, _marker: PhantomData }),
            Err(e) => Err(e),
        }
    }

    /// The key of the store under which the item's value is kept.
    pub fn key(&self) -> (key: &[u8])
        ensures
            key@ == self.raw_prefix(),
    {
        self.prefix.as_slice()
    }

    /// The value of the item: nothing where the store holds nothing under
    /// the item's key, the failure where what it holds does not decode.
    pub fn may_load<S: Storage>(&self, storage: &S) -> (r: Result<Option<V>, StorageError<Enc>>)
        ensures
            loaded_view(r) == load_spec::<V, Enc>(storage@, self.raw_prefix()),
    {
        match storage.get_raw(self.prefix.as_slice()) {
            None => Ok(None),
            Some(bytes) => {
                let mut rest: &[u8] = bytes.as_slice();
                match V::decode(&mut rest) {
                    Ok(value) => Ok(Some(value)),
                    Err(e) => Err(StorageError::ValueDeserialize(e)),
                }
            },
        }
    }

    /// Writes `value` as the value of the item, in place of what was there.
    /// Where the value has no encoding, the store stays as it is.
    pub fn save<S: StorageMut>(&self, storage: &mut S, value: &V) -> (r: Result<
        (),
        StorageError<Enc>,
    >)
        ensures
            match r {
                Ok(_) => save_spec::<V, Enc>(
                    old(storage)@,
                    self.raw_prefix(),
                    value.deep_view(),
                ) == Ok::<Map<Seq<u8>, Seq<u8>>, StorageError<Enc>>(final(storage)@),
                Err(e) => save_spec::<V, Enc>(old(storage)@, self.raw_prefix(), value.deep_view())
                    == Err::<Map<Seq<u8>, Seq<u8>>, StorageError<Enc>>(e) && final(storage)@
                    == old(storage)@,
            },
    {
        match value.encode() {
            Ok(bytes) => {
                storage.set_raw(slice_to_vec(self.prefix.as_slice()), bytes);
                Ok(())
            },
            Err(e) => Err(StorageError::ValueSerialize(e)),
        }
    }

    /// Takes the item's value out of the store. It is no failure if there
    /// is none.
    pub fn delete<S: StorageMut>(&self, storage: &mut S) -> (r: Result<(), StorageError<Enc>>)
        ensures
            r is Ok,
            final(storage)@ == old(storage)@.remove(self.raw_prefix()),
    {
        storage.delete_raw(self.prefix.as_slice());
        Ok(())
    }
}

} // verus!
