//! Containers: descriptions of a region of the flat keyspace, and the walk
//! over the raw entries of such a region that rebuilds typed keys and values
//! and leaves bookkeeping entries out.
use std::marker::PhantomData;
use vstd::prelude::*;
use crate::error::{KeyDeserializeError, StorageError};
use crate::key::KeySerde;
use crate::order::{is_prefix, starts_with};
use crate::serialization::{Codec, Decodable, Encoding};
use crate::storage::entries_view;

verus! {

/// Whether a container holds a value itself or holds other containers.
pub trait ContainerType {
    /// The container holds a value itself.
    spec fn is_leaf() -> bool;

    /// Whether the container holds a value itself.
    fn leaf() -> (r: bool)
        ensures
            r == Self::is_leaf(),
    ;
}

/// The kind of a container that holds a value itself.
pub struct Terminal {}

/// The kind of a container that holds other containers under the keys of its
/// own segment.
pub struct NonTerminal {}

impl ContainerType for Terminal {
    open spec fn is_leaf() -> bool {
        true
    }

    fn leaf() -> (r: bool) {
        true
    }
}

impl ContainerType for NonTerminal {
    open spec fn is_leaf() -> bool {
        false
    }

    fn leaf() -> (r: bool) {
        false
    }
}

/// The keys that a walk over the container `D` hands out: the keys of `D`,
/// read as far as the bytes of an entry go.
pub type PartialKeyOf<D> = <<D as DataStructure>::Key as KeySerde>::PartialKey;

/// The model of the keys that a walk over the container `D` hands out.
pub type PartialKeyModel<D> = <PartialKeyOf<D> as DeepView>::V;

/// The model of the values that the container `D` holds.
pub type ValueModel<D> = <<D as DataStructure>::Value as DeepView>::V;

/// A container: a region of the keyspace, told by the prefix of its keys,
/// and the shape of the keys and values in it.
pub trait DataStructure: Sized {
    /// The keys of the entries in the container: its own segment and then
    /// the keys of what it holds.
    type Key: KeySerde;

    /// The encoding of the values.
    type Enc: Encoding;

    /// The values at the leaves of the container.
    type Value: Codec<Self::Enc>;

    /// Whether the container is a leaf or a branch.
    type DsType: ContainerType;

    /// The bytes that every key in the container begins with.
    spec fn raw_prefix(&self) -> Seq<u8>;

    /// The container of this shape at the given prefix.
    fn with_prefix(prefix: Vec<u8>) -> (container: Self)
        ensures
            container.raw_prefix() == prefix@,
    ;

    /// The entry with the key `key` is bookkeeping of the container or of a
    /// container within it, and no element.
    spec fn skips(key: PartialKeyModel<Self>) -> bool;

    /// Whether the entry with the key `key` is to be left out of a walk.
    fn should_skip_key(key: &PartialKeyOf<Self>) -> (skip: bool)
        ensures
            skip == Self::skips(key.deep_view()),
    ;

    /// The entry at the container's own prefix, with no key after it, is
    /// bookkeeping of the container.
    spec fn bare_key_is_metadata() -> bool;

    /// Whether the entry at the container's own prefix is to be left out of
    /// a walk.
    fn skips_bare_key() -> (skip: bool)
        ensures
            skip == Self::bare_key_is_metadata(),
    ;
}

/// A container that holds other containers.
pub trait Container: DataStructure<DsType = NonTerminal> {
    /// The containers that it holds.
    type Inner: DataStructure;
}

/// What a walk makes of one raw entry.
pub enum Step<K, V, E> {
    /// The key is outside the container: the walk ends.
    Stop,
    /// The entry is bookkeeping: the walk goes on to the next.
    Skip,
    /// The entry cannot be read: the walk hands out the failure and ends.
    Fail(E),
    /// The entry is an element: the walk hands it out.
    Yield(K, V),
}

/// What a walk over the container `D` at `prefix` makes of the raw entry
/// with the key `key` and the value `value`.
///
/// A key that does not begin with the prefix ends the walk. What follows the
/// prefix is read as a key of the container, as far as it goes. Where nothing
/// follows, the entry stands at the container's own prefix: it is left out if
/// the container keeps bookkeeping there, and is a failure else, for nothing
/// else belongs there. Where a key is read, the entry is left out if the
/// container or one within it says so, and else its value is decoded.
pub open spec fn classify<D: DataStructure>(prefix: Seq<u8>, key: Seq<u8>, value: Seq<u8>) -> Step<
    PartialKeyModel<D>,
    ValueModel<D>,
    StorageError<D::Enc>,
> {
    if !is_prefix(prefix, key) {
        Step::Stop
    } else {
        match D::Key::partial_decoding(key.skip(prefix.len() as int)) {
            Err(e) => Step::Fail(StorageError::KeyDeserialize(e)),
            Ok(None) => if D::bare_key_is_metadata() {
                Step::Skip
            } else {
                Step::Fail(StorageError::KeyDeserialize(KeyDeserializeError::NotEnoughBytes(1, 0)))
            },
            Ok(Some((k, _))) => if D::skips(k) {
                Step::Skip
            } else {
                match D::Value::decoding(value) {
                    Ok((v, _)) => Step::Yield(k, v),
                    Err(e) => Step::Fail(StorageError::ValueDeserialize(e)),
                }
            },
        }
    }
}

/// What a walk over the container `D` at `prefix` hands out when the store
/// gives it the raw entries `raw`: the elements in the order of the entries,
/// up to the first key outside the container and up to the first failure,
/// which is the last thing handed out.
pub open spec fn items<D: DataStructure>(prefix: Seq<u8>, raw: Seq<(Seq<u8>, Seq<u8>)>) -> Seq<
    Result<(PartialKeyModel<D>, ValueModel<D>), StorageError<D::Enc>>,
>
    decreases raw.len(),
{
    if raw.len() == 0 {
        Seq::empty()
    } else {
        match classify::<D>(prefix, raw[0].0, raw[0].1) {
            Step::Stop => Seq::empty(),
            Step::Skip => items::<D>(prefix, raw.skip(1)),
            Step::Fail(e) => seq![Err(e)],
            Step::Yield(k, v) => seq![Ok((k, v))] + items::<D>(prefix, raw.skip(1)),
        }
    }
}

/// The model of what a walk hands out in one step.
pub open spec fn item_view<D: DataStructure>(
    item: Result<(PartialKeyOf<D>, D::Value), StorageError<D::Enc>>,
) -> Result<(PartialKeyModel<D>, ValueModel<D>), StorageError<D::Enc>> {
    match item {
        Ok((k, v)) => Ok((k.deep_view(), v.deep_view())),
        Err(e) => Err(e),
    }
}

/// A walk over the raw entries of a container, one element at a time.
pub struct DsIter<D: DataStructure> {
    prefix: Vec<u8>,
    entries: Vec<(Vec<u8>, Vec<u8>)>,
    position: usize,
    finished: bool,
    _marker: PhantomData<D>,
}

impl<D: DataStructure> DsIter<D> {
    #[verifier::type_invariant]
    spec fn well_formed(&self) -> bool {
        self.position <= self.entries@.len()
    }

    /// The prefix of the container that is walked.
    pub closed spec fn prefix_view(&self) -> Seq<u8> {
        self.prefix@
    }

    /// The raw entries that the walk has not looked at yet.
    pub closed spec fn pending(&self) -> Seq<(Seq<u8>, Seq<u8>)> {
        if self.finished {
            Seq::empty()
        } else {
            entries_view(self.entries@).skip(self.position as int)
        }
    }

    /// What the walk is still going to hand out.
    pub open spec fn remaining(&self) -> Seq<
        Result<(PartialKeyModel<D>, ValueModel<D>), StorageError<D::Enc>>,
    > {
        items::<D>(self.prefix_view(), self.pending())
    }

    /// A walk over `entries`, which a scan of the store has given, for the
    /// container at `prefix`.
    pub fn new(prefix: Vec<u8>, entries: Vec<(Vec<u8>, Vec<u8>)>) -> (iter: Self)
        ensures
            iter.prefix_view() == prefix@,
            iter.pending() == entries_view(entries@),
    {
        proof {
            assert(entries_view(entries@).skip(0) =~= entries_view(entries@));
        }
        DsIter { prefix, entries, position: 0, finished: false, _marker: PhantomData }
    }

    /// The next element of the container, or the failure to read it, or
    /// nothing at the end of the walk. After a failure the walk is at its end.
    pub fn next(&mut self) -> (r: Option<Result<(PartialKeyOf<D>, D::Value), StorageError<D::Enc>>>)
        ensures
            final(self).prefix_view() == old(self).prefix_view(),
            match r {
                None => old(self).remaining().len() == 0 && final(self).remaining().len() == 0,
                Some(item) => old(self).remaining().len() > 0 && item_view::<D>(item) == old(
                    self,
                ).remaining()[0] && final(self).remaining() == old(self).remaining().skip(1),
            },
    {
        proof {
            use_type_invariant(&*self);
        }
        if self.finished {
            return None;
        }
        loop
            invariant
                !self.finished,
                self.position <= self.entries@.len(),
                self.prefix@ == old(self).prefix@,
                self.entries@ == old(self).entries@,
                items::<D>(self.prefix@, entries_view(self.entries@).skip(self.position as int))
                    == old(self).remaining(),
            decreases self.entries@.len() - self.position,
        {
            let ghost raw = entries_view(self.entries@).skip(self.position as int);
            if self.position >= self.entries.len() {
                self.finished = true;
                return None;
            }
            let at = self.position;
            self.position = at + 1;
            proof {
                assert(raw.skip(1) =~= entries_view(self.entries@).skip(self.position as int));
                assert(raw[0] == (self.entries@[at as int].0@, self.entries@[at as int].1@));
                assert(items::<D>(self.prefix@, Seq::empty()).len() == 0);
            }
            let key: &[u8] = self.entries[at].0.as_slice();
            if !starts_with(key, self.prefix.as_slice()) {
                self.finished = true;
                return None;
            }
            let (_, tail) = key.split_at(self.prefix.len());
            let mut rest: &[u8] = tail;
            proof {
                assert(tail@ =~= key@.skip(self.prefix@.len() as int));
            }
            let found = match D::Key::partial_decode(&mut rest) {
                Err(e) => {
                    self.finished = true;
                    return Some(Err(StorageError::KeyDeserialize(e)));
                },
                Ok(None) => {
                    if D::skips_bare_key() {
                        continue ;
                    }
                    self.finished = true;
                    return Some(
                        Err(
                            StorageError::KeyDeserialize(
                                KeyDeserializeError::NotEnoughBytes(1, 0),
                            ),
                        ),
                    );
                },
                Ok(Some(found)) => found,
            };
            if D::should_skip_key(&found) {
                continue ;
            }
            let mut value: &[u8] = self.entries[at].1.as_slice();
            match D::Value::decode(&mut value) {
                Ok(v) => {
                    proof {
                        let k = found.deep_view();
                        let head = seq![
                            Ok::<
                                (PartialKeyModel<D>, ValueModel<D>),
                                StorageError<D::Enc>,
                            >((k, v.deep_view())),
                        ];
                        let tail_items = items::<D>(self.prefix@, raw.skip(1));
                        assert((head + tail_items).skip(1) =~= tail_items);
                    }
                    return Some(Ok((found, v)));
                },
                Err(e) => {
                    self.finished = true;
                    proof {
                        let head = seq![
                            Err::<
                                (PartialKeyModel<D>, ValueModel<D>),
                                StorageError<D::Enc>,
                            >(StorageError::ValueDeserialize(e)),
                        ];
                        assert(head.skip(1) =~= Seq::empty());
                    }
                    return Some(Err(StorageError::ValueDeserialize(e)));
                },
            }
        }
    }
}

} // verus!
