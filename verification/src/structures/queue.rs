//! The queue that holds one value under each priority and hands out the
//! value of the lowest or of the highest priority.
use vstd::prelude::*;
use crate::container::{items, DataStructure};
use crate::error::StorageError;
use crate::item::Item;
use crate::key::KeySerde;
use crate::map::{child_key, save_at, scanned, TypedMap};
use crate::serialization::{Codec, Encoding};
use crate::storage::{Bound, IterableStorage, Order, StorageMut};

verus! {

/// The first thing that a walk over a queue hands out, as the queue gives
/// it: the priority and the value, nothing at the end of the walk, or the
/// failure.
pub open spec fn head_of<K, V, E>(walk: Seq<Result<((K, Option<()>), V), E>>) -> Result<
    Option<(K, V)>,
    E,
> {
    if walk.len() == 0 {
        Ok(None)
    } else {
        match walk[0] {
            Ok((key, value)) => Ok(Some((key.0, value))),
            Err(e) => Err(e),
        }
    }
}

/// `found` is what a look at the queue at `prefix` gives: the first element
/// of a walk over all of the queue in the direction `order`.
pub open spec fn peeked<K: KeySerde<PartialKey = K>, V: Codec<Enc>, Enc: Encoding>(
    store: Map<Seq<u8>, Seq<u8>>,
    prefix: Seq<u8>,
    order: Order,
    found: Result<Option<(K::V, V::V)>, StorageError<Enc>>,
) -> bool {
    exists|raw: Seq<(Seq<u8>, Seq<u8>)>| #[trigger]
        scanned::<K>(raw, store, prefix, Bound::Unbounded, Bound::Unbounded, order) && found
            == head_of(items::<TypedMap<K, Item<V, Enc>>>(prefix, raw))
}

/// A pop fails with `e` where the look at the queue fails with `e`, or where
/// the priority that the look gave has no encoding, for the reason in `e`.
pub open spec fn pop_fails<K: KeySerde<PartialKey = K>, V: Codec<Enc>, Enc: Encoding>(
    store: Map<Seq<u8>, Seq<u8>>,
    prefix: Seq<u8>,
    order: Order,
    e: StorageError<Enc>,
) -> bool {
    ||| peeked::<K, V, Enc>(store, prefix, order, Err(e))
    ||| exists|priority: K::V, value: V::V|
        {
            &&& #[trigger] peeked::<K, V, Enc>(store, prefix, order, Ok(Some((priority, value))))
            &&& child_key::<K>(prefix, priority) matches Err(cause) && e
                == StorageError::<Enc>::KeySerialize(cause)
        }
}

/// The model of what a look at the queue gave.
pub open spec fn found_view<K: DeepView, V: DeepView, E>(
    found: Result<Option<(K, V)>, E>,
) -> Result<Option<(K::V, V::V)>, E> {
    match found {
        Ok(Some((key, value))) => Ok(Some((key.deep_view(), value.deep_view()))),
        Ok(None) => Ok(None),
        Err(e) => Err(e),
    }
}

/// A queue of values of the type `V`, one under each priority of the type
/// `K`. A value pushed under a priority takes the place of the value that
/// was there.
pub struct PriorityQueue<K, V, Enc> {
    map: TypedMap<K, Item<V, Enc>>,
}

impl<K: KeySerde<PartialKey = K>, V: Codec<Enc>, Enc: Encoding> PriorityQueue<K, V, Enc> {
    /// The bytes that every key in the queue begins with.
    pub closed spec fn raw_prefix(&self) -> Seq<u8> {
        self.map.raw_prefix()
    }

    /// The queue whose keys begin with `prefix`.
    pub fn new(prefix: &[u8]) -> (queue: Self)
        ensures
            queue.raw_prefix() == prefix@,
    {
        PriorityQueue { map: TypedMap::new(prefix) }
    }

    /// Writes `value` under `priority`, in place of what was there. Where
    /// the push fails, the store stays as it is.
    pub fn push<S: StorageMut>(&self, storage: &mut S, priority: K, value: &V) -> (r: Result<
        (),
        StorageError<Enc>,
    >)
        ensures
            match r {
                Ok(_) => save_at::<K, V, Enc>(
                    old(storage)@,
                    self.raw_prefix(),
                    priority.deep_view(),
                    value.deep_view(),
                ) == Ok::<Map<Seq<u8>, Seq<u8>>, StorageError<Enc>>(final(storage)@),
                Err(e) => save_at::<K, V, Enc>(
                    old(storage)@,
                    self.raw_prefix(),
                    priority.deep_view(),
                    value.deep_view(),
                ) == Err::<Map<Seq<u8>, Seq<u8>>, StorageError<Enc>>(e) && final(storage)@
                    == old(storage)@,
            },
    {
        self.map.save(storage, &priority, value)
    }

    /// The priority and the value that come first in the direction `order`:
    /// the lowest priority for `Ascending`, the highest for `Descending`;
    /// nothing where the queue is empty. The store stays as it is.
    pub fn peek<S: IterableStorage>(&self, storage: &S, order: Order) -> (r: Result<
        Option<(K, V)>,
        StorageError<Enc>,
    >)
        ensures
            peeked::<K, V, Enc>(storage@, self.raw_prefix(), order, found_view(r)),
    {
        let mut iter = match self.map.range(storage, Bound::Unbounded, Bound::Unbounded, order) {
            Ok(iter) => iter,
            Err(e) => {
                return Err(StorageError::KeySerialize(e));
            },
        };
        let ghost raw = iter.pending();
        match iter.next() {
            Some(Ok((key, value))) => Ok(Some((key.0, value))),
            Some(Err(e)) => Err(e),
            None => Ok(None),
        }
    }

    /// Takes out the priority and the value that come first in the direction
    /// `order`, and hands them out. The look and the removal are two
    /// operations of the store. Where nothing is found, or the pop fails,
    /// the store stays as it is.
    pub fn pop<S: StorageMut + IterableStorage>(&self, storage: &mut S, order: Order) -> (r: Result<
        Option<(K, V)>,
        StorageError<Enc>,
    >)
        ensures
            match r {
                Ok(Some((priority, value))) => {
                    &&& peeked::<K, V, Enc>(
                        old(storage)@,
                        self.raw_prefix(),
                        order,
                        Ok(Some((priority.deep_view(), value.deep_view()))),
                    )
                    &&& child_key::<K>(self.raw_prefix(), priority.deep_view()) matches Ok(key)
                        && final(storage)@ == old(storage)@.remove(key)
                },
                Ok(None) => {
                    &&& peeked::<K, V, Enc>(old(storage)@, self.raw_prefix(), order, Ok(None))
                    &&& final(storage)@ == old(storage)@
                },
                Err(e) => {
                    &&& pop_fails::<K, V, Enc>(old(storage)@, self.raw_prefix(), order, e)
                    &&& final(storage)@ == old(storage)@
                },
            },
    {
        match self.peek(storage, order) {
            Ok(Some((priority, value))) => {
                let key = match self.map.key(&priority) {
                    Ok(key) => key,
                    Err(e) => {
                        return Err(StorageError::KeySerialize(e));
                    },
                };
                storage.delete_raw(key.as_slice());
                Ok(Some((priority, value)))
            },
            Ok(None) => Ok(None),
            Err(e) => Err(e),
        }
    }
}

} // verus!
