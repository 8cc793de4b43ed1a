//! The container that holds one inner container under each key of a segment
//! type, and the scan of the region of such a container.
use std::marker::PhantomData;
use vstd::prelude::*;
use vstd::slice::slice_to_vec;
use crate::container::{DataStructure, DsIter, NonTerminal, PartialKeyModel, PartialKeyOf};
use crate::error::{KeySerializeError, StorageError};
use crate::item::{load_spec, loaded_view, save_spec, Item};
use crate::key::{CompoundKey, KeySerde};
use crate::key_serialization::bytes::append_bytes;
use crate::key_serialization::KeyEncoding;
use crate::order::{
    is_prefix, lemma_lex_lt_common_prefix, lemma_lex_lt_iff_parts, lemma_lex_lt_irreflexive,
    lemma_lex_lt_transitive, lemma_proper_prefix_is_below, parts_at,
};
use crate::serialization::{bytes_view, Codec, Encodable, Encoding};
use crate::storage::{
    in_range, is_empty_range_spec, is_guarded_scan, range_raw, raw_bound, Bound, IterableStorage,
    Order, Storage, StorageMut,
};

verus! {

/// The key of the store that the key `key` has in the container at `prefix`.
pub open spec fn child_key<K: Encodable<KeyEncoding>>(prefix: Seq<u8>, key: K::V) -> Result<
    Seq<u8>,
    KeySerializeError,
> {
    match K::encoding(key) {
        Ok(bytes) => Ok(prefix + bytes),
        Err(e) => Err(e),
    }
}

/// The upper end of the keys that begin with `prefix`: the least byte string
/// above all of them, if there is one.
pub open spec fn prefix_end(prefix: Seq<u8>) -> Bound<Seq<u8>>
    decreases prefix.len(),
{
    if prefix.len() == 0 {
        Bound::Unbounded
    } else if prefix.last() < 255 {
        Bound::Excluded(prefix.drop_last().push((prefix.last() + 1) as u8))
    } else {
        prefix_end(prefix.drop_last())
    }
}

/// Every key that begins with `prefix` lies between `prefix` and the upper
/// end of the prefix.
pub proof fn lemma_prefixed_in_range(prefix: Seq<u8>, key: Seq<u8>)
    requires
        is_prefix(prefix, key),
    ensures
        in_range(Bound::Included(prefix), prefix_end(prefix), key),
    decreases prefix.len(),
{
    if prefix.len() < key.len() {
        lemma_proper_prefix_is_below(prefix, key);
    } else {
        assert(key =~= prefix);
    }
    if prefix.len() > 0 {
        let n = prefix.len() as int;
        let head = prefix.drop_last();
        assert forall|j: int| 0 <= j < n implies key[j] == prefix[j] by {
            assert(key.subrange(0, n)[j] == key[j]);
        }
        if prefix.last() < 255 {
            let end = head.push((prefix.last() + 1) as u8);
            lemma_lex_lt_iff_parts(key, end);
            assert(parts_at(key, end, n - 1));
        } else {
            assert(key.subrange(0, n - 1) =~= head);
            lemma_prefixed_in_range(head, key);
        }
    }
}

/// Every key between `prefix` and the upper end of the prefix begins with
/// `prefix`.
pub proof fn lemma_in_range_prefixed(prefix: Seq<u8>, key: Seq<u8>)
    requires
        in_range(Bound::Included(prefix), prefix_end(prefix), key),
    ensures
        is_prefix(prefix, key),
    decreases prefix.len(),
{
    if prefix.len() == 0 {
        assert(key.subrange(0, 0) =~= prefix);
    } else {
        let n = prefix.len() as int;
        let head = prefix.drop_last();
        lemma_lex_lt_irreflexive(key);
        lemma_lex_lt_iff_parts(prefix, key);
        assert(is_prefix(head, prefix)) by {
            assert(prefix.subrange(0, n - 1) =~= head);
        }
        lemma_proper_prefix_is_below(head, prefix);
        if prefix.last() < 255 {
            let end = head.push((prefix.last() + 1) as u8);
            lemma_lex_lt_iff_parts(key, end);
            let upper = choose|k: int| parts_at(key, end, k);
            if prefix == key {
                assert(key.subrange(0, n) =~= prefix);
            } else {
                let lower = choose|k: int| parts_at(prefix, key, k);
                if lower < n {
                    if upper < lower {
                        assert(key[upper] == prefix[upper]);
                        assert(end[upper] == prefix[upper]);
                    } else if upper > lower {
                        assert(key[lower] == end[lower]);
                        if lower < n - 1 {
                            assert(end[lower] == prefix[lower]);
                        }
                    } else {
                        if lower < n - 1 {
                            assert(end[lower] == prefix[lower]);
                        }
                    }
                } else {
                    assert(key.subrange(0, n) =~= prefix);
                }
            }
        } else {
            if prefix != key {
                lemma_lex_lt_transitive(head, prefix, key);
            }
            lemma_in_range_prefixed(head, key);
            assert forall|j: int| 0 <= j < n - 1 implies key[j] == prefix[j] by {
                assert(key.subrange(0, n - 1)[j] == key[j]);
            }
            if prefix == key {
                assert(key.subrange(0, n) =~= prefix);
            } else {
                let lower = choose|k: int| parts_at(prefix, key, k);
                if lower < n - 1 {
                    assert(prefix[lower] == key[lower]);
                }
                assert(key.subrange(0, n) =~= prefix);
            }
        }
    }
}

/// The upper end of the keys that begin with `prefix`.
pub fn prefix_upper_bound(prefix: &[u8]) -> (bound: Bound<Vec<u8>>)
    ensures
        raw_bound(bound) == prefix_end(prefix@),
{
    let mut n: usize = prefix.len();
    proof {
        assert(prefix@.take(n as int) =~= prefix@);
    }
    while n > 0 && prefix[n - 1] == 255
        invariant
            0 <= n <= prefix.len(),
            prefix_end(prefix@) == prefix_end(prefix@.take(n as int)),
        decreases n,
    {
        proof {
            assert(prefix@.take(n as int).drop_last() =~= prefix@.take(n - 1));
        }
        n = n - 1;
    }
    if n == 0 {
        return Bound::Unbounded;
    }
    let (head, _) = prefix.split_at(n - 1);
    let mut end = slice_to_vec(head);
    end.push(prefix[n - 1] + 1);
    proof {
        assert(prefix@.take(n as int).drop_last() =~= head@);
    }
    Bound::Excluded(end)
}

/// The lower end of a scan of the container at `prefix`, for the lower end
/// `start` of a range of its keys: the container's prefix where the range
/// has no lower end.
pub open spec fn scan_start<K: Encodable<KeyEncoding>>(
    prefix: Seq<u8>,
    start: Bound<K::V>,
) -> Result<Bound<Seq<u8>>, KeySerializeError> {
    match start {
        Bound::Included(key) => match child_key::<K>(prefix, key) {
            Ok(raw) => Ok(Bound::Included(raw)),
            Err(e) => Err(e),
        },
        Bound::Excluded(key) => match child_key::<K>(prefix, key) {
            Ok(raw) => Ok(Bound::Excluded(raw)),
            Err(e) => Err(e),
        },
        Bound::Unbounded => Ok(Bound::Included(prefix)),
    }
}

/// The upper end of a scan of the container at `prefix`, for the upper end
/// `end` of a range of its keys: the upper end of the container's prefix
/// where the range has no upper end.
pub open spec fn scan_end<K: Encodable<KeyEncoding>>(prefix: Seq<u8>, end: Bound<K::V>) -> Result<
    Bound<Seq<u8>>,
    KeySerializeError,
> {
    match end {
        Bound::Included(key) => match child_key::<K>(prefix, key) {
            Ok(raw) => Ok(Bound::Included(raw)),
            Err(e) => Err(e),
        },
        Bound::Excluded(key) => match child_key::<K>(prefix, key) {
            Ok(raw) => Ok(Bound::Excluded(raw)),
            Err(e) => Err(e),
        },
        Bound::Unbounded => Ok(prefix_end(prefix)),
    }
}

/// What a scan of the container at `prefix` over the range from `start` to
/// `end` looks at: nothing where the two ends form an empty range, for which
/// the store is not asked; else the entries of the store between the ends.
pub open spec fn scanned<K: Encodable<KeyEncoding>>(
    raw: Seq<(Seq<u8>, Seq<u8>)>,
    store: Map<Seq<u8>, Seq<u8>>,
    prefix: Seq<u8>,
    start: Bound<K::V>,
    end: Bound<K::V>,
    order: Order,
) -> bool {
    &&& scan_start::<K>(prefix, start) matches Ok(low)
    &&& scan_end::<K>(prefix, end) matches Ok(high)
    &&& is_guarded_scan(raw, store, low, high, order)
}

/// The failure of a scan to encode the ends of its range: that of the lower
/// end, or else that of the upper end.
pub open spec fn scan_failure<K: Encodable<KeyEncoding>>(
    prefix: Seq<u8>,
    start: Bound<K::V>,
    end: Bound<K::V>,
) -> Option<KeySerializeError> {
    match scan_start::<K>(prefix, start) {
        Err(e) => Some(e),
        Ok(_) => match scan_end::<K>(prefix, end) {
            Err(e) => Some(e),
            Ok(_) => None,
        },
    }
}

/// The key of the store that `key` has in the container at `prefix`.
pub fn key_under<K: Encodable<KeyEncoding>>(prefix: &[u8], key: &K) -> (r: Result<
    Vec<u8>,
    KeySerializeError,
>)
    ensures
        bytes_view(r) == child_key::<K>(prefix@, key.deep_view()),
{
    match key.encode() {
        Ok(bytes) => {
            let mut full = slice_to_vec(prefix);
            append_bytes(&mut full, bytes.as_slice());
            Ok(full)
        },
        Err(e) => Err(e),
    }
}

/// One end of a range of keys of the container at `prefix`, as an end of a
/// range of keys of the store; nothing where the range has no end there.
fn raw_end<K: Encodable<KeyEncoding>>(prefix: &[u8], end: &Bound<K>) -> (r: Result<
    Option<Bound<Vec<u8>>>,
    KeySerializeError,
>)
    ensures
        match r {
            Ok(Some(raw)) => !(end is Unbounded) && scan_start::<K>(prefix@, end.deep_view())
                == Ok::<Bound<Seq<u8>>, KeySerializeError>(raw_bound(raw)) && scan_end::<K>(
                prefix@,
                end.deep_view(),
            ) == Ok::<Bound<Seq<u8>>, KeySerializeError>(raw_bound(raw)),
            Ok(None) => end is Unbounded,
            Err(e) => scan_start::<K>(prefix@, end.deep_view()) == Err::<
                Bound<Seq<u8>>,
                KeySerializeError,
            >(e) && scan_end::<K>(prefix@, end.deep_view()) == Err::<
                Bound<Seq<u8>>,
                KeySerializeError,
            >(e),
        },
{
    match end {
        Bound::Included(key) => match key_under(prefix, key) {
            Ok(raw) => Ok(Some(Bound::Included(raw))),
            Err(e) => Err(e),
        },
        Bound::Excluded(key) => match key_under(prefix, key) {
            Ok(raw) => Ok(Some(Bound::Excluded(raw))),
            Err(e) => Err(e),
        },
        Bound::Unbounded => Ok(None),
    }
}

/// A walk over the elements of the container `D` at `prefix` whose keys of
/// the segment type `K` lie between `start` and `end`, in the direction
/// `order`. The store is asked for the entries between the two ends, and
/// within the container's prefix; it is not asked where the ends form an
/// empty range.
pub fn scan_container<D: DataStructure, K: Encodable<KeyEncoding>, S: IterableStorage>(
    prefix: &[u8],
    storage: &S,
    start: Bound<K>,
    end: Bound<K>,
    order: Order,
) -> (r: Result<DsIter<D>, KeySerializeError>)
    ensures
        match r {
            Ok(iter) => iter.prefix_view() == prefix@ && scanned::<K>(
                iter.pending(),
                storage@,
                prefix@,
                start.deep_view(),
                end.deep_view(),
                order,
            ),
            Err(e) => scan_failure::<K>(prefix@, start.deep_view(), end.deep_view()) == Some(e),
        },
{
    let low = match raw_end(prefix, &start) {
        Ok(Some(low)) => low,
        Ok(None) => Bound::Included(slice_to_vec(prefix)),
        Err(e) => {
            return Err(e);
        },
    };
    let high = match raw_end(prefix, &end) {
        Ok(Some(high)) => high,
        Ok(None) => prefix_upper_bound(prefix),
        Err(e) => {
            return Err(e);
        },
    };
    let entries = range_raw(storage, low, high, order);
    Ok(DsIter::new(slice_to_vec(prefix), entries))
}

/// A range of keys whose start is above its end, or whose ends exclude one
/// and the same key, is a range for which the store is not asked.
pub proof fn lemma_reversed_range_is_empty<K: KeySerde>(
    prefix: Seq<u8>,
    start: Bound<K::V>,
    end: Bound<K::V>,
)
    requires
        scan_start::<K>(prefix, start) is Ok,
        scan_end::<K>(prefix, end) is Ok,
        !(start is Unbounded),
        !(end is Unbounded),
        K::key_lt(bound_key(end), bound_key(start)) || (start is Excluded && end is Excluded
            && bound_key(start) == bound_key(end)),
    ensures
        is_empty_range_spec(
            scan_start::<K>(prefix, start)->Ok_0,
            scan_end::<K>(prefix, end)->Ok_0,
        ),
{
    let s = bound_key(start);
    let e = bound_key(end);
    K::order_preserved(e, s);
    lemma_lex_lt_common_prefix(prefix, K::encoding(e)->Ok_0, K::encoding(s)->Ok_0);
}

/// The key at an end of a range that has one.
pub open spec fn bound_key<T>(bound: Bound<T>) -> T
    recommends
        !(bound is Unbounded),
{
    match bound {
        Bound::Included(key) => key,
        Bound::Excluded(key) => key,
        Bound::Unbounded => arbitrary(),
    }
}

/// Whether a walk over a branch leaves out the entry whose key goes on, after
/// the branch's own segment, with `inner`: where the key ends there, the
/// entry stands at the prefix of an inner container and is left out if that
/// container keeps bookkeeping there; else it is left out if the inner
/// container leaves it out.
pub open spec fn inner_skips<V: DataStructure>(inner: Option<PartialKeyModel<V>>) -> bool {
    match inner {
        None => V::bare_key_is_metadata(),
        Some(key) => V::skips(key),
    }
}

/// Whether a walk over a branch leaves out the entry whose key goes on with `inner`.
pub fn should_skip_inner<V: DataStructure>(inner: &Option<PartialKeyOf<V>>) -> (skip: bool)
    ensures
        skip == inner_skips::<V>(inner.deep_view()),
{
    match inner {
        None => V::skips_bare_key(),
        Some(key) => V::should_skip_key(key),
    }
}

/// A container that holds one container of the shape `V` under each key of
/// the segment type `K`.
pub struct TypedMap<K, V> {
    prefix: Vec<u8>,
    _marker: PhantomData<(K, V)>,
}

impl<K: KeySerde, V: DataStructure> DataStructure for TypedMap<K, V> {
    type Key = CompoundKey<K, V::Key>;

    type Enc = V::Enc;

    type Value = V::Value;

    type DsType = NonTerminal;

    closed spec fn raw_prefix(&self) -> Seq<u8> {
        self.prefix@
    }

    fn with_prefix(prefix: Vec<u8>) -> (container: Self) {
        TypedMap { prefix, _marker: PhantomData }
    }

    /// A map keeps no bookkeeping of its own: it leaves out what the
    /// containers within it leave out.
    open spec fn skips(key: PartialKeyModel<Self>) -> bool {
        inner_skips::<V>(key.1)
    }

    fn should_skip_key(key: &PartialKeyOf<Self>) -> (skip: bool) {
        proof {
            assert(key.deep_view().1 == key.1.deep_view());
        }
        should_skip_inner::<V>(&key.1)
    }

    /// A map keeps nothing at its own prefix.
    open spec fn bare_key_is_metadata() -> bool {
        false
    }

    fn skips_bare_key() -> (skip: bool) {
        false
    }
}

impl<K: KeySerde, V: DataStructure> crate::container::Container for TypedMap<K, V> {
    type Inner = V;
}

impl<K: KeySerde, V: DataStructure> TypedMap<K, V> {
    /// The map whose keys begin with `key`.
    pub fn new(key: &[u8]) -> (map: Self)
        ensures
            map.raw_prefix() == key@,
    {
        TypedMap { prefix: slice_to_vec(key), _marker: PhantomData }
    }

    /// The key of the store at which the container under `key` begins: the
    /// map's prefix, then the encoding of `key`.
    pub fn key(&self, key: &K) -> (r: Result<Vec<u8>, KeySerializeError>)
        ensures
            bytes_view(r) == child_key::<K>(self.raw_prefix(), key.deep_view()),
    {
        key_under(self.prefix.as_slice(), key)
    }

    /// The bytes that every key in the map begins with.
    pub fn prefix(&self) -> (prefix: &[u8])
        ensures
            prefix@ == self.raw_prefix(),
    {
        self.prefix.as_slice()
    }

    /// The container under `key`.
    pub fn at(&self, key: K) -> (r: Result<V, KeySerializeError>)
        ensures
            match r {
                Ok(inner) => child_key::<K>(self.raw_prefix(), key.deep_view()) == Ok::<
                    Seq<u8>,
                    KeySerializeError,
                >(inner.raw_prefix()),
                Err(e) => child_key::<K>(self.raw_prefix(), key.deep_view()) == Err::<
                    Seq<u8>,
                    KeySerializeError,
                >(e),
            },
    {
        match self.key(&key) {
            Ok(prefix) => Ok(V::with_prefix(prefix)),
            Err(e) => Err(e),
        }
    }

    /// A walk over the elements of the map whose keys lie between `start`
    /// and `end`, in the direction `order`.
    pub fn range<S: IterableStorage>(
        &self,
        storage: &S,
        start: Bound<K>,
        end: Bound<K>,
        order: Order,
    ) -> (r: Result<DsIter<Self>, KeySerializeError>)
        ensures
            match r {
                Ok(iter) => iter.prefix_view() == self.raw_prefix() && scanned::<K>(
                    iter.pending(),
                    storage@,
                    self.raw_prefix(),
                    start.deep_view(),
                    end.deep_view(),
                    order,
                ),
                Err(e) => scan_failure::<K>(
                    self.raw_prefix(),
                    start.deep_view(),
                    end.deep_view(),
                ) == Some(e),
            },
    {
        scan_container::<Self, K, S>(self.prefix.as_slice(), storage, start, end, order)
    }
}

/// What reading the value under `key` in the map of items at `prefix`
/// gives: the failure where the key has no encoding, else what reading
/// under the key's place in the store gives.
pub open spec fn load_at<K: Encodable<KeyEncoding>, V: Codec<Enc>, Enc: Encoding>(
    store: Map<Seq<u8>, Seq<u8>>,
    prefix: Seq<u8>,
    key: K::V,
) -> Result<Option<V::V>, StorageError<Enc>> {
    match child_key::<K>(prefix, key) {
        Err(e) => Err(StorageError::KeySerialize(e)),
        Ok(raw) => load_spec::<V, Enc>(store, raw),
    }
}

/// What writing `value` under `key` in the map of items at `prefix` makes
/// of the store: the failure where the key has no encoding, else what
/// writing under the key's place in the store makes of it.
pub open spec fn save_at<K: Encodable<KeyEncoding>, V: Codec<Enc>, Enc: Encoding>(
    store: Map<Seq<u8>, Seq<u8>>,
    prefix: Seq<u8>,
    key: K::V,
    value: V::V,
) -> Result<Map<Seq<u8>, Seq<u8>>, StorageError<Enc>> {
    match child_key::<K>(prefix, key) {
        Err(e) => Err(StorageError::KeySerialize(e)),
        Ok(raw) => save_spec::<V, Enc>(store, raw, value),
    }
}

impl<K: KeySerde, V: Codec<Enc>, Enc: Encoding> TypedMap<K, Item<V, Enc>> {
    /// The value under `key`: nothing where the store holds nothing there.
    pub fn may_load<S: Storage>(&self, storage: &S, key: &K) -> (r: Result<
        Option<V>,
        StorageError<Enc>,
    >)
        ensures
            loaded_view(r) == load_at::<K, V, Enc>(storage@, self.raw_prefix(), key.deep_view()),
    {
        match self.key(key) {
            Ok(raw) => Item::<V, Enc>::with_prefix(raw).may_load(storage),
            Err(e) => Err(StorageError::KeySerialize(e)),
        }
    }

    /// Writes `value` under `key`, in place of what was there. Where it
    /// fails, the store stays as it is.
    pub fn save<S: StorageMut>(&self, storage: &mut S, key: &K, value: &V) -> (r: Result<
        (),
        StorageError<Enc>,
    >)
        ensures
            match r {
                Ok(_) => save_at::<K, V, Enc>(
                    old(storage)@,
                    self.raw_prefix(),
                    key.deep_view(),
                    value.deep_view(),
                ) == Ok::<Map<Seq<u8>, Seq<u8>>, StorageError<Enc>>(final(storage)@),
                Err(e) => save_at::<K, V, Enc>(
                    old(storage)@,
                    self.raw_prefix(),
                    key.deep_view(),
                    value.deep_view(),
                ) == Err::<Map<Seq<u8>, Seq<u8>>, StorageError<Enc>>(e) && final(storage)@
                    == old(storage)@,
            },
    {
        match self.key(key) {
            Ok(raw) => Item::<V, Enc>::with_prefix(raw).save(storage, value),
            Err(e) => Err(StorageError::KeySerialize(e)),
        }
    }
}

} // verus!
