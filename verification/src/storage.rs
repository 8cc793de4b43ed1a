//! The flat store underneath: byte strings kept under byte-string keys, in
//! the lexicographic order of the keys.
use vstd::prelude::*;
use vstd::slice::slice_to_vec;
use crate::error::KeySerializeError;
use crate::key_serialization::KeyEncoding;
use crate::order::{
    bytes_equal, lemma_lex_lt_asymmetric, lemma_lex_lt_irreflexive, lemma_lex_lt_transitive,
    lex_le, lex_less, lex_lt,
};
use crate::serialization::Encodable;

verus! {

/// Direction in which a range scan walks the keys.
#[derive(Debug, Clone, Copy, PartialEq, Eq)]
pub enum Order {
    Ascending,
    Descending,
}

/// One end of a range of keys.
#[derive(Debug, PartialEq, Eq)]
pub enum Bound<T> {
    /// The range reaches the key and holds it.
    Included(T),
    /// The range reaches the key and does not hold it.
    Excluded(T),
    /// The range has no end on this side.
    Unbounded,
}

impl<T: DeepView> DeepView for Bound<T> {
    type V = Bound<T::V>;

    open spec fn deep_view(&self) -> Bound<T::V> {
        match self {
            Bound::Included(key) => Bound::Included(key.deep_view()),
            Bound::Excluded(key) => Bound::Excluded(key.deep_view()),
            Bound::Unbounded => Bound::Unbounded,
        }
    }
}

/// A bound on raw keys, as the mathematical bound it stands for.
pub open spec fn raw_bound(bound: Bound<Vec<u8>>) -> Bound<Seq<u8>> {
    match bound {
        Bound::Included(key) => Bound::Included(key@),
        Bound::Excluded(key) => Bound::Excluded(key@),
        Bound::Unbounded => Bound::Unbounded,
    }
}

/// `key` is not below the lower end `low`.
pub open spec fn above_low(low: Bound<Seq<u8>>, key: Seq<u8>) -> bool {
    match low {
        Bound::Included(l) => lex_le(l, key),
        Bound::Excluded(l) => lex_lt(l, key),
        Bound::Unbounded => true,
    }
}

/// `key` is not above the upper end `high`.
pub open spec fn below_high(high: Bound<Seq<u8>>, key: Seq<u8>) -> bool {
    match high {
        Bound::Included(h) => lex_le(key, h),
        Bound::Excluded(h) => lex_lt(key, h),
        Bound::Unbounded => true,
    }
}

/// `key` lies between the two ends.
pub open spec fn in_range(low: Bound<Seq<u8>>, high: Bound<Seq<u8>>, key: Seq<u8>) -> bool {
    above_low(low, key) && below_high(high, key)
}

/// The pair of ends that a scan must not be asked for: the start above the
/// end, or both ends excluding one and the same key.
pub open spec fn is_empty_range_spec(start: Bound<Seq<u8>>, end: Bound<Seq<u8>>) -> bool {
    match (start, end) {
        (Bound::Included(s), Bound::Included(e)) => lex_lt(e, s),
        (Bound::Included(s), Bound::Excluded(e)) => lex_lt(e, s),
        (Bound::Excluded(s), Bound::Included(e)) => lex_lt(e, s),
        (Bound::Excluded(s), Bound::Excluded(e)) => lex_le(e, s),
        _ => false,
    }
}

/// No key lies between ends that form an empty range.
pub proof fn lemma_empty_range_holds_no_key(
    start: Bound<Seq<u8>>,
    end: Bound<Seq<u8>>,
    key: Seq<u8>,
)
    requires
        is_empty_range_spec(start, end),
    ensures
        !in_range(start, end, key),
{
    if in_range(start, end, key) {
        match (start, end) {
            (Bound::Included(s), Bound::Included(e)) => {
                lemma_between(s, key, e);
            },
            (Bound::Included(s), Bound::Excluded(e)) => {
                lemma_between(s, key, e);
            },
            (Bound::Excluded(s), Bound::Included(e)) => {
                lemma_between(s, key, e);
            },
            (Bound::Excluded(s), Bound::Excluded(e)) => {
                lemma_lex_lt_transitive(s, key, e);
                lemma_lex_lt_asymmetric(s, e);
                lemma_lex_lt_irreflexive(s);
            },
            _ => {},
        }
    }
}

/// A key between a start and an end shows that the end is not below the start.
proof fn lemma_between(s: Seq<u8>, key: Seq<u8>, e: Seq<u8>)
    requires
        lex_le(s, key),
        lex_le(key, e),
    ensures
        !lex_lt(e, s),
{
    lemma_lex_lt_irreflexive(s);
    lemma_lex_lt_asymmetric(s, e);
    if s != key && key != e {
        lemma_lex_lt_transitive(s, key, e);
    }
}

/// Whether the pair of ends is one that a scan must not be asked for: the
/// start above the end, or both ends excluding one and the same key.
pub fn is_empty_range(start: &Bound<Vec<u8>>, end: &Bound<Vec<u8>>) -> (r: bool)
    ensures
        r == is_empty_range_spec(raw_bound(*start), raw_bound(*end)),
{
    match (start, end) {
        (Bound::Included(s), Bound::Included(e)) => lex_less(e.as_slice(), s.as_slice()),
        (Bound::Included(s), Bound::Excluded(e)) => lex_less(e.as_slice(), s.as_slice()),
        (Bound::Excluded(s), Bound::Included(e)) => lex_less(e.as_slice(), s.as_slice()),
        (Bound::Excluded(s), Bound::Excluded(e)) => bytes_equal(e.as_slice(), s.as_slice())
            || lex_less(e.as_slice(), s.as_slice()),
        _ => false,
    }
}

/// Whether `key` lies between the two ends.
pub fn within(low: &Bound<Vec<u8>>, high: &Bound<Vec<u8>>, key: &[u8]) -> (r: bool)
    ensures
        r == in_range(raw_bound(*low), raw_bound(*high), key@),
{
    let above = match low {
        Bound::Included(l) => bytes_equal(l.as_slice(), key) || lex_less(l.as_slice(), key),
        Bound::Excluded(l) => lex_less(l.as_slice(), key),
        Bound::Unbounded => true,
    };
    let below = match high {
        Bound::Included(h) => bytes_equal(key, h.as_slice()) || lex_less(key, h.as_slice()),
        Bound::Excluded(h) => lex_less(key, h.as_slice()),
        Bound::Unbounded => true,
    };
    above && below
}

/// `a` comes before `b` in a scan that walks in the direction `order`.
pub open spec fn comes_before(a: Seq<u8>, b: Seq<u8>, order: Order) -> bool {
    match order {
        Order::Ascending => lex_lt(a, b),
        Order::Descending => lex_lt(b, a),
    }
}

/// `keys` are exactly the keys of `store` between the two ends, each once,
/// in the direction `order`.
pub open spec fn is_key_scan(
    keys: Seq<Seq<u8>>,
    store: Map<Seq<u8>, Seq<u8>>,
    low: Bound<Seq<u8>>,
    high: Bound<Seq<u8>>,
    order: Order,
) -> bool {
    &&& forall|i: int, j: int|
        0 <= i < j < keys.len() ==> comes_before(#[trigger] keys[i], #[trigger] keys[j], order)
    &&& forall|i: int|
        0 <= i < keys.len() ==> store.contains_key(#[trigger] keys[i]) && in_range(
            low,
            high,
            keys[i],
        )
    &&& forall|key: Seq<u8>| #[trigger]
        store.contains_key(key) && in_range(low, high, key) ==> keys.contains(key)
}

/// The keys of a sequence of entries.
pub open spec fn keys_of(entries: Seq<(Seq<u8>, Seq<u8>)>) -> Seq<Seq<u8>> {
    Seq::new(entries.len(), |i: int| entries[i].0)
}

/// `entries` are exactly the entries of `store` whose keys lie between the
/// two ends, each once, in the direction `order`.
pub open spec fn is_scan(
    entries: Seq<(Seq<u8>, Seq<u8>)>,
    store: Map<Seq<u8>, Seq<u8>>,
    low: Bound<Seq<u8>>,
    high: Bound<Seq<u8>>,
    order: Order,
) -> bool {
    &&& is_key_scan(keys_of(entries), store, low, high, order)
    &&& forall|i: int| 0 <= i < entries.len() ==> store[(#[trigger] entries[i]).0] == entries[i].1
}

/// The entries that a vector of pairs of byte vectors stands for.
pub open spec fn entries_view(entries: Seq<(Vec<u8>, Vec<u8>)>) -> Seq<(Seq<u8>, Seq<u8>)> {
    Seq::new(entries.len(), |i: int| (entries[i].0@, entries[i].1@))
}

/// The keys that a vector of byte vectors stands for.
pub open spec fn keys_view(keys: Seq<Vec<u8>>) -> Seq<Seq<u8>> {
    Seq::new(keys.len(), |i: int| keys[i]@)
}

/// What asking the store for a typed key comes to: the key's encoding, and
/// what the store holds under it.
pub open spec fn typed_get<K: Encodable<KeyEncoding>>(
    store: Map<Seq<u8>, Seq<u8>>,
    key: K::V,
) -> Result<Option<Seq<u8>>, KeySerializeError> {
    match K::encoding(key) {
        Err(e) => Err(e),
        Ok(raw) => if store.contains_key(raw) {
            Ok(Some(store[raw]))
        } else {
            Ok(None)
        },
    }
}

/// The value that a read gave, as a sequence.
pub open spec fn value_view(value: Option<Vec<u8>>) -> Option<Seq<u8>> {
    match value {
        Some(bytes) => Some(bytes@),
        None => None,
    }
}

/// A flat store that can be read: a map from byte strings to byte strings.
pub trait Storage: View<V = Map<Seq<u8>, Seq<u8>>> {
    /// What the store holds under `key`, if anything.
    fn get_raw(&self, key: &[u8]) -> (r: Option<Vec<u8>>)
        ensures
            value_view(r) == (if self@.contains_key(key@) {
                Some(self@[key@])
            } else {
                None
            }),
    ;

    /// What the store holds under the encoding of `key`, if anything.
    fn get<K: Encodable<KeyEncoding>>(&self, key: &K) -> (r: Result<
        Option<Vec<u8>>,
        KeySerializeError,
    >)
        ensures
            match r {
                Ok(value) => typed_get::<K>(self@, key.deep_view()) == Ok::<
                    Option<Seq<u8>>,
                    KeySerializeError,
                >(value_view(value)),
                Err(e) => typed_get::<K>(self@, key.deep_view()) == Err::<
                    Option<Seq<u8>>,
                    KeySerializeError,
                >(e),
            },
    {
        match key.encode() {
            Ok(raw) => Ok(self.get_raw(raw.as_slice())),
            Err(e) => Err(e),
        }
    }
}

/// A flat store that can be written.
pub trait StorageMut: Storage {
    /// Puts `value` under `key`, in place of what was there.
    fn set_raw(&mut self, key: Vec<u8>, value: Vec<u8>)
        ensures
            final(self)@ == old(self)@.insert(key@, value@),
    ;

    /// Takes away what the store holds under `key`. It is no failure if
    /// there is nothing.
    fn delete_raw(&mut self, key: &[u8])
        ensures
            final(self)@ == old(self)@.remove(key@),
    ;

    /// Puts `value` under the encoding of `key`. Where the key has no
    /// encoding, the store stays as it is.
    fn set<K: Encodable<KeyEncoding>>(&mut self, key: &K, value: Vec<u8>) -> (r: Result<
        (),
        KeySerializeError,
    >)
        ensures
            match r {
                Ok(_) => K::encoding(key.deep_view()) is Ok && final(self)@ == old(self)@.insert(
                    K::encoding(key.deep_view())->Ok_0,
                    value@,
                ),
                Err(e) => K::encoding(key.deep_view()) == Err::<Seq<u8>, KeySerializeError>(e)
                    && final(self)@ == old(self)@,
            },
    {
        match key.encode() {
            Ok(raw) => {
                self.set_raw(raw, value);
                Ok(())
            },
            Err(e) => Err(e),
        }
    }

    /// Takes away what the store holds under the encoding of `key`. Where the
    /// key has no encoding, the store stays as it is.
    fn delete<K: Encodable<KeyEncoding>>(&mut self, key: &K) -> (r: Result<(), KeySerializeError>)
        ensures
            match r {
                Ok(_) => K::encoding(key.deep_view()) is Ok && final(self)@ == old(self)@.remove(
                    K::encoding(key.deep_view())->Ok_0,
                ),
                Err(e) => K::encoding(key.deep_view()) == Err::<Seq<u8>, KeySerializeError>(e)
                    && final(self)@ == old(self)@,
            },
    {
        match key.encode() {
            Ok(raw) => {
                self.delete_raw(raw.as_slice());
                Ok(())
            },
            Err(e) => Err(e),
        }
    }
}

/// A flat store whose entries can be walked in the order of their keys.
///
/// A store may refuse a pair of ends that forms an empty range, so a scan is
/// only ever asked for where `is_empty_range` says that the pair is none.
pub trait IterableStorage: Storage {
    /// The keys between the two ends, in the direction `order`.
    fn keys(&self, low: Bound<Vec<u8>>, high: Bound<Vec<u8>>, order: Order) -> (r: Vec<Vec<u8>>)
        requires
            !is_empty_range_spec(raw_bound(low), raw_bound(high)),
        ensures
            is_key_scan(keys_view(r@), self@, raw_bound(low), raw_bound(high), order),
    ;

    /// The entries whose keys lie between the two ends, in the direction `order`.
    fn iter(&self, low: Bound<Vec<u8>>, high: Bound<Vec<u8>>, order: Order) -> (r: Vec<
        (Vec<u8>, Vec<u8>),
    >)
        requires
            !is_empty_range_spec(raw_bound(low), raw_bound(high)),
        ensures
            is_scan(entries_view(r@), self@, raw_bound(low), raw_bound(high), order),
    ;
}

/// What a guarded scan gives: nothing where the two ends form an empty
/// range, else the entries of the store between the ends.
pub open spec fn is_guarded_scan(
    entries: Seq<(Seq<u8>, Seq<u8>)>,
    store: Map<Seq<u8>, Seq<u8>>,
    low: Bound<Seq<u8>>,
    high: Bound<Seq<u8>>,
    order: Order,
) -> bool {
    if is_empty_range_spec(low, high) {
        entries == Seq::<(Seq<u8>, Seq<u8>)>::empty()
    } else {
        is_scan(entries, store, low, high, order)
    }
}

/// The entries of the store whose keys lie between the two ends, in the
/// direction `order`. Where the ends form an empty range there are none,
/// and the store is not asked.
pub fn range_raw<S: IterableStorage>(
    storage: &S,
    low: Bound<Vec<u8>>,
    high: Bound<Vec<u8>>,
    order: Order,
) -> (entries: Vec<(Vec<u8>, Vec<u8>)>)
    ensures
        is_guarded_scan(entries_view(entries@), storage@, raw_bound(low), raw_bound(high), order),
{
    if is_empty_range(&low, &high) {
        let entries: Vec<(Vec<u8>, Vec<u8>)> = Vec::new();
        proof {
            assert(entries_view(entries@) =~= Seq::empty());
        }
        entries
    } else {
        storage.iter(low, high, order)
    }
}

/// What a guarded scan of keys gives: nothing where the two ends form an
/// empty range, else the keys of the store between the ends.
pub open spec fn is_guarded_key_scan(
    keys: Seq<Seq<u8>>,
    store: Map<Seq<u8>, Seq<u8>>,
    low: Bound<Seq<u8>>,
    high: Bound<Seq<u8>>,
    order: Order,
) -> bool {
    if is_empty_range_spec(low, high) {
        keys == Seq::<Seq<u8>>::empty()
    } else {
        is_key_scan(keys, store, low, high, order)
    }
}

/// The keys of the store that lie between the two ends, in the direction
/// `order`. Where the ends form an empty range there are none, and the store
/// is not asked.
pub fn keys_raw<S: IterableStorage>(
    storage: &S,
    low: Bound<Vec<u8>>,
    high: Bound<Vec<u8>>,
    order: Order,
) -> (keys: Vec<Vec<u8>>)
    ensures
        is_guarded_key_scan(keys_view(keys@), storage@, raw_bound(low), raw_bound(high), order),
{
    if is_empty_range(&low, &high) {
        let keys: Vec<Vec<u8>> = Vec::new();
        proof {
            assert(keys_view(keys@) =~= Seq::empty());
        }
        keys
    } else {
        storage.keys(low, high, order)
    }
}

/// A copy of an entry.
pub fn clone_kv(entry: (&Vec<u8>, &Vec<u8>)) -> (r: (Vec<u8>, Vec<u8>))
    ensures
        r.0@ == entry.0@,
        r.1@ == entry.1@,
{
    (slice_to_vec(entry.0.as_slice()), slice_to_vec(entry.1.as_slice()))
}

/// A copy of the key of an entry.
pub fn clone_k(entry: (&Vec<u8>, &Vec<u8>)) -> (r: Vec<u8>)
    ensures
        r@ == entry.0@,
{
    slice_to_vec(entry.0.as_slice())
}

/// No key comes before itself in a scan, and of two keys at most one comes
/// before the other.
proof fn lemma_comes_before_strict(a: Seq<u8>, b: Seq<u8>, order: Order)
    ensures
        !comes_before(a, a, order),
        !(comes_before(a, b, order) && comes_before(b, a, order)),
{
    lemma_lex_lt_irreflexive(a);
    lemma_lex_lt_asymmetric(a, b);
    lemma_lex_lt_asymmetric(b, a);
}

/// Two scans of the same keys agree on their first `upto` keys.
proof fn lemma_key_scans_agree(
    first: Seq<Seq<u8>>,
    second: Seq<Seq<u8>>,
    store: Map<Seq<u8>, Seq<u8>>,
    low: Bound<Seq<u8>>,
    high: Bound<Seq<u8>>,
    order: Order,
    upto: int,
)
    requires
        is_key_scan(first, store, low, high, order),
        is_key_scan(second, store, low, high, order),
        0 <= upto <= first.len(),
        upto <= second.len(),
    ensures
        forall|j: int| 0 <= j < upto ==> first[j] == second[j],
    decreases upto,
{
    if upto > 0 {
        let i = upto - 1;
        lemma_key_scans_agree(first, second, store, low, high, order, i);
        assert(store.contains_key(first[i]) && in_range(low, high, first[i]));
        assert(store.contains_key(second[i]) && in_range(low, high, second[i]));
        assert(second.contains(first[i]));
        assert(first.contains(second[i]));
        let there = choose|j: int| 0 <= j < second.len() && second[j] == first[i];
        let here = choose|j: int| 0 <= j < first.len() && first[j] == second[i];
        lemma_comes_before_strict(first[i], second[i], order);
        if there < i {
            assert(first[there] == second[there]);
            assert(comes_before(first[there], first[i], order));
        } else if there > i {
            assert(comes_before(second[i], second[there], order));
            if here < i {
                assert(first[here] == second[here]);
                assert(comes_before(second[here], second[i], order));
                lemma_comes_before_strict(second[i], second[i], order);
            } else if here > i {
                assert(comes_before(first[i], first[here], order));
            }
        }
    }
}

/// A store has one scan only: two sequences of keys that are both the keys
/// between the same two ends, in the same direction, are the same sequence.
pub proof fn lemma_key_scan_unique(
    first: Seq<Seq<u8>>,
    second: Seq<Seq<u8>>,
    store: Map<Seq<u8>, Seq<u8>>,
    low: Bound<Seq<u8>>,
    high: Bound<Seq<u8>>,
    order: Order,
)
    requires
        is_key_scan(first, store, low, high, order),
        is_key_scan(second, store, low, high, order),
    ensures
        first == second,
{
    let shorter = if first.len() <= second.len() {
        first
    } else {
        second
    };
    let longer = if first.len() <= second.len() {
        second
    } else {
        first
    };
    let n = shorter.len() as int;
    lemma_key_scans_agree(shorter, longer, store, low, high, order, n);
    if n < longer.len() {
        assert(store.contains_key(longer[n]) && in_range(low, high, longer[n]));
        assert(shorter.contains(longer[n]));
        let j = choose|j: int| 0 <= j < shorter.len() && shorter[j] == longer[n];
        assert(shorter[j] == longer[j]);
        assert(comes_before(longer[j], longer[n], order));
        lemma_comes_before_strict(longer[n], longer[n], order);
    }
    assert(first =~= second);
}

/// A store has one scan only: two sequences of entries that are both the
/// entries between the same two ends, in the same direction, are the same
/// sequence.
pub proof fn lemma_scan_unique(
    first: Seq<(Seq<u8>, Seq<u8>)>,
    second: Seq<(Seq<u8>, Seq<u8>)>,
    store: Map<Seq<u8>, Seq<u8>>,
    low: Bound<Seq<u8>>,
    high: Bound<Seq<u8>>,
    order: Order,
)
    requires
        is_scan(first, store, low, high, order),
        is_scan(second, store, low, high, order),
    ensures
        first == second,
{
    lemma_key_scan_unique(keys_of(first), keys_of(second), store, low, high, order);
    assert forall|i: int| 0 <= i < first.len() implies first[i] == second[i] by {
        assert(keys_of(first)[i] == keys_of(second)[i]);
        assert(store[first[i].0] == first[i].1);
        assert(store[second[i].0] == second[i].1);
    }
    assert(keys_of(first).len() == keys_of(second).len());
    assert(first =~= second);
}

} // verus!
