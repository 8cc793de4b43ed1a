//! The container that holds inner containers under the indices 0, 1, 2, ...
//! and keeps their number in a counter at its own prefix.
use vstd::prelude::*;
use vstd::slice::slice_to_vec;
use crate::big_endian::be_bytes;
use crate::container::{DataStructure, DsIter, NonTerminal, PartialKeyModel, PartialKeyOf};
use crate::error::{KeySerializeError, StorageError};
use crate::item::{load_spec, Item};
use crate::key::CompoundKey;
use crate::key_serialization::length::usize_width;
use crate::key_serialization::KeyEncoding;
use crate::map::{inner_skips, scan_container, scanned, should_skip_inner, TypedMap};
use crate::serialization::{bytes_view, Codec, Encodable, Encoding};
use crate::storage::{Bound, IterableStorage, Order, Storage, StorageMut};

verus! {

/// The number of elements that the counter at `prefix` says: 0 where there
/// is no counter.
pub open spec fn len_spec(store: Map<Seq<u8>, Seq<u8>>, prefix: Seq<u8>) -> Result<
    usize,
    StorageError<KeyEncoding>,
> {
    match load_spec::<usize, KeyEncoding>(store, prefix) {
        Ok(Some(n)) => Ok(n),
        Ok(None) => Ok(0),
        Err(e) => Err(e),
    }
}

/// The bytes of an index or of the counter: big-endian at the width of a `usize`.
pub open spec fn index_bytes(index: usize) -> Seq<u8> {
    be_bytes(index as nat, usize_width())
}

/// What pushing `value` onto the vector at `prefix` makes of the store: the
/// counter one higher, and the value under the index that the counter said.
pub open spec fn push_spec<T: Codec<Enc>, Enc: Encoding>(
    store: Map<Seq<u8>, Seq<u8>>,
    prefix: Seq<u8>,
    value: T::V,
) -> Result<Map<Seq<u8>, Seq<u8>>, StorageError<Enc>> {
    match len_spec(store, prefix) {
        Err(StorageError::ValueDeserialize(e)) => Err(StorageError::KeyDeserialize(e)),
        Err(StorageError::KeyDeserialize(e)) => Err(StorageError::KeyDeserialize(e)),
        Err(StorageError::KeySerialize(e)) => Err(StorageError::KeySerialize(e)),
        Err(StorageError::ValueSerialize(e)) => Err(StorageError::KeySerialize(e)),
        Ok(n) => if n == usize::MAX {
            Err(StorageError::KeySerialize(KeySerializeError::LengthOverflow))
        } else {
            match T::encoding(value) {
                Err(e) => Err(StorageError::ValueSerialize(e)),
                Ok(bytes) => Ok(
                    store.insert(prefix, index_bytes((n + 1) as usize)).insert(
                        prefix + index_bytes(n),
                        bytes,
                    ),
                ),
            }
        },
    }
}

/// A container that holds containers of the shape `V` under the indices
/// from 0 on, and their number in a counter at its own prefix.
pub struct Vector<V: DataStructure> {
    map: TypedMap<usize, V>,
    counter: Item<usize, KeyEncoding>,
}

impl<V: DataStructure> DataStructure for Vector<V> {
    type Key = CompoundKey<usize, V::Key>;

    type Enc = V::Enc;

    type Value = V::Value;

    type DsType = NonTerminal;

    closed spec fn raw_prefix(&self) -> Seq<u8> {
        self.map.raw_prefix()
    }

    fn with_prefix(prefix: Vec<u8>) -> (container: Self) {
        let map = TypedMap::with_prefix(slice_to_vec(prefix.as_slice()));
        let counter = Item::with_prefix(prefix);
        Vector { map, counter }
    }

    /// A vector leaves out what the containers within it leave out.
    open spec fn skips(key: PartialKeyModel<Self>) -> bool {
        inner_skips::<V>(key.1)
    }

    fn should_skip_key(key: &PartialKeyOf<Self>) -> (skip: bool) {
        proof {
            assert(key.deep_view().1 == key.1.deep_view());
        }
        should_skip_inner::<V>(&key.1)
    }

    /// The entry at a vector's own prefix is its counter, and no element.
    open spec fn bare_key_is_metadata() -> bool {
        true
    }

    fn skips_bare_key() -> (skip: bool) {
        true
    }
}

impl<V: DataStructure> crate::container::Container for Vector<V> {
    type Inner = V;
}

impl<V: DataStructure> Vector<V> {
    #[verifier::type_invariant]
    spec fn well_formed(&self) -> bool {
        self.counter.raw_prefix() == self.map.raw_prefix()
    }

    /// The vector whose keys begin with `key`.
    pub fn new(key: &[u8]) -> (vector: Self)
        ensures
            vector.raw_prefix() == key@,
    {
        let map = TypedMap::new(key);
        let counter = Item::with_prefix(slice_to_vec(key));
        Vector { map, counter }
    }

    /// The key of the store at which the container under `index` begins: the
    /// vector's prefix, then the bytes of the index.
    pub fn key(&self, index: &usize) -> (r: Result<Vec<u8>, KeySerializeError>)
        ensures
            bytes_view(r) == Ok::<Seq<u8>, KeySerializeError>(
                self.raw_prefix() + index_bytes(*index),
            ),
    {
        self.map.key(index)
    }

    /// The number of elements that the counter says: 0 where the store
    /// holds no counter, the failure where the counter does not decode.
    pub fn len<S: Storage>(&self, storage: &S) -> (r: Result<usize, StorageError<KeyEncoding>>)
        ensures
            r == len_spec(storage@, self.raw_prefix()),
    {
        proof {
            use_type_invariant(self);
        }
        match self.counter.may_load(storage) {
            Ok(Some(n)) => Ok(n),
            Ok(None) => Ok(0),
            Err(e) => Err(e),
        }
    }

    /// The container under `index`.
    pub fn at(&self, index: usize) -> (r: Result<V, KeySerializeError>)
        ensures
            r matches Ok(inner) && inner.raw_prefix() == self.raw_prefix() + index_bytes(index),
    {
        self.map.at(index)
    }

    /// A walk over the elements of the vector whose indices lie between
    /// `start` and `end`, in the direction `order`. The counter is no element.
    pub fn range<S: IterableStorage>(
        &self,
        storage: &S,
        start: Bound<usize>,
        end: Bound<usize>,
        order: Order,
    ) -> (r: Result<DsIter<Self>, KeySerializeError>)
        ensures
            r matches Ok(iter) && iter.prefix_view() == self.raw_prefix() && scanned::<usize>(
                iter.pending(),
                storage@,
                self.raw_prefix(),
                start.deep_view(),
                end.deep_view(),
                order,
            ),
    {
        scan_container::<Self, usize, S>(self.map.prefix(), storage, start, end, order)
    }
}

impl<T: Codec<Enc>, Enc: Encoding> Vector<Item<T, Enc>> {
    /// Adds `value` as the last element: the counter goes up by one, and the
    /// value is written under the index that the counter said. The two
    /// writes are two operations of the store. Where the push fails, the
    /// store stays as it is.
    pub fn push<S: StorageMut>(&self, storage: &mut S, value: &T) -> (r: Result<
        (),
        StorageError<Enc>,
    >)
        ensures
            match r {
                Ok(_) => push_spec::<T, Enc>(old(storage)@, self.raw_prefix(), value.deep_view())
                    == Ok::<Map<Seq<u8>, Seq<u8>>, StorageError<Enc>>(final(storage)@),
                Err(e) => push_spec::<T, Enc>(old(storage)@, self.raw_prefix(), value.deep_view())
                    == Err::<Map<Seq<u8>, Seq<u8>>, StorageError<Enc>>(e) && final(storage)@
                    == old(storage)@,
            },
    {
        let n = match self.len(storage) {
            Ok(n) => n,
            Err(StorageError::ValueDeserialize(e)) => {
                return Err(StorageError::KeyDeserialize(e));
            },
            Err(StorageError::KeyDeserialize(e)) => {
                return Err(StorageError::KeyDeserialize(e));
            },
            Err(StorageError::KeySerialize(e)) => {
                return Err(StorageError::KeySerialize(e));
            },
            Err(StorageError::ValueSerialize(e)) => {
                return Err(StorageError::KeySerialize(e));
            },
        };
        if n == usize::MAX {
            return Err(StorageError::KeySerialize(KeySerializeError::LengthOverflow));
        }
        let bytes = match value.encode() {
            Ok(bytes) => bytes,
            Err(e) => {
                return Err(StorageError::ValueSerialize(e));
            },
        };
        let place = match self.key(&n) {
            Ok(place) => place,
            Err(e) => {
                return Err(StorageError::KeySerialize(e));
            },
        };
        let count = match (n + 1).encode() {
            Ok(count) => count,
            Err(e) => {
                return Err(StorageError::KeySerialize(e));
            },
        };
        storage.set_raw(slice_to_vec(self.map.prefix()), count);
        storage.set_raw(place, bytes);
        Ok(())
    }
}

} // verus!
