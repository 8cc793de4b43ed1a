//! What holds of the containers together: that keys under different keys of
//! a map keep apart, and that a walk over a vector hands out its elements
//! and not its counter.
use vstd::prelude::*;
use crate::big_endian::lemma_be_bytes_len;
use crate::container::{classify, items, DataStructure, PartialKeyModel, Step, ValueModel};
use crate::error::{KeySerializeError, StorageError};
use crate::item::{load_spec, save_spec, Item};
use crate::key::KeySerde;
use crate::key_serialization::integers::{lemma_uint_delimited, lemma_uint_order};
use crate::key_serialization::length::{lemma_usize_width, usize_width};
use crate::key_serialization::KeyEncoding;
use crate::map::{
    child_key, lemma_in_range_prefixed, lemma_prefixed_in_range, prefix_end, scanned, TypedMap,
};
use crate::order::{
    is_prefix, lemma_lex_lt_common_prefix, lemma_lex_lt_irreflexive,
    lemma_proper_prefix_is_below, lex_lt,
};
use crate::serialization::{Codec, Encodable, Encoding};
use crate::storage::{
    comes_before, in_range, is_empty_range_spec, is_scan, keys_of,
    lemma_empty_range_holds_no_key, lemma_scan_unique, Bound, Order,
};
use crate::structures::vector::{index_bytes, len_spec, push_spec, Vector};

verus! {

/// The key of the store of the container under `inner` within the container
/// under `outer` within the map at `prefix`.
pub open spec fn nested_key<K1: Encodable<KeyEncoding>, K2: Encodable<KeyEncoding>>(
    prefix: Seq<u8>,
    outer: K1::V,
    inner: K2::V,
) -> Result<Seq<u8>, KeySerializeError> {
    match child_key::<K1>(prefix, outer) {
        Ok(under) => child_key::<K2>(under, inner),
        Err(e) => Err(e),
    }
}

/// In a map of maps, what lies under one outer key has no key of the store
/// in common with what lies under another outer key.
pub proof fn lemma_nested_keys_differ<K1: KeySerde, K2: Encodable<KeyEncoding>>(
    prefix: Seq<u8>,
    a: K1::V,
    x: K2::V,
    b: K1::V,
    z: K2::V,
)
    requires
        a != b,
        nested_key::<K1, K2>(prefix, a, x) is Ok,
        nested_key::<K1, K2>(prefix, b, z) is Ok,
    ensures
        nested_key::<K1, K2>(prefix, a, x)->Ok_0 != nested_key::<K1, K2>(prefix, b, z)->Ok_0,
{
    let first = K1::encoding(a)->Ok_0 + K2::encoding(x)->Ok_0;
    let second = K1::encoding(b)->Ok_0 + K2::encoding(z)->Ok_0;
    let key_a = nested_key::<K1, K2>(prefix, a, x)->Ok_0;
    let key_b = nested_key::<K1, K2>(prefix, b, z)->Ok_0;
    assert(key_a =~= prefix + first);
    assert(key_b =~= prefix + second);
    if key_a == key_b {
        assert(first =~= (prefix + first).skip(prefix.len() as int));
        assert(second =~= (prefix + second).skip(prefix.len() as int));
        K1::delimited(a, K2::encoding(x)->Ok_0);
        K1::delimited(b, K2::encoding(z)->Ok_0);
    }
}

/// In a map of maps of items, writing a value under the outer key `a` leaves
/// what is read under every other outer key `b` as it was.
pub proof fn lemma_nested_isolation<
    K1: KeySerde,
    K2: Encodable<KeyEncoding>,
    V: Codec<Enc>,
    Enc: Encoding,
>(
    store: Map<Seq<u8>, Seq<u8>>,
    prefix: Seq<u8>,
    a: K1::V,
    x: K2::V,
    value: V::V,
    b: K1::V,
    z: K2::V,
)
    requires
        a != b,
        nested_key::<K1, K2>(prefix, a, x) is Ok,
        nested_key::<K1, K2>(prefix, b, z) is Ok,
        save_spec::<V, Enc>(store, nested_key::<K1, K2>(prefix, a, x)->Ok_0, value) is Ok,
    ensures
        load_spec::<V, Enc>(
            save_spec::<V, Enc>(store, nested_key::<K1, K2>(prefix, a, x)->Ok_0, value)->Ok_0,
            nested_key::<K1, K2>(prefix, b, z)->Ok_0,
        ) == load_spec::<V, Enc>(store, nested_key::<K1, K2>(prefix, b, z)->Ok_0),
{
    lemma_nested_keys_differ::<K1, K2>(prefix, a, x, b, z);
}

/// What a scan of all of a container finds first has the key that comes
/// first: in a scan of all of the container at `prefix`, in the direction
/// `order`, the key of the first entry is below every other key of the
/// container for `Ascending`, and above every other for `Descending`, in the
/// order of the keys that their encoding keeps.
pub proof fn lemma_first_scanned_comes_first<K: KeySerde>(
    store: Map<Seq<u8>, Seq<u8>>,
    prefix: Seq<u8>,
    order: Order,
    raw: Seq<(Seq<u8>, Seq<u8>)>,
    first: K::V,
    other: K::V,
)
    requires
        scanned::<K>(raw, store, prefix, Bound::Unbounded, Bound::Unbounded, order),
        raw.len() > 0,
        child_key::<K>(prefix, first) == Ok::<Seq<u8>, KeySerializeError>(raw[0].0),
        child_key::<K>(prefix, other) matches Ok(key) && store.contains_key(key),
    ensures
        first == other || match order {
            Order::Ascending => K::key_lt(first, other),
            Order::Descending => K::key_lt(other, first),
        },
{
    let low = Bound::Included(prefix);
    let high = prefix_end(prefix);
    let key = child_key::<K>(prefix, other)->Ok_0;
    let a = K::encoding(first)->Ok_0;
    let b = K::encoding(other)->Ok_0;
    assert(key.subrange(0, prefix.len() as int) =~= prefix);
    lemma_prefixed_in_range(prefix, key);
    if is_empty_range_spec(low, high) {
        lemma_empty_range_holds_no_key(low, high, key);
    }
    let keys = keys_of(raw);
    assert(keys.contains(key));
    let j = choose|j: int| 0 <= j < keys.len() && keys[j] == key;
    assert(keys[0] == raw[0].0);
    if j == 0 {
        assert(a =~= (prefix + a).skip(prefix.len() as int));
        assert(b =~= (prefix + b).skip(prefix.len() as int));
        K::delimited(first, Seq::empty());
        K::delimited(other, Seq::empty());
    } else {
        assert(comes_before(keys[0], keys[j], order));
        lemma_lex_lt_common_prefix(prefix, a, b);
        lemma_lex_lt_common_prefix(prefix, b, a);
        K::order_preserved(first, other);
        K::order_preserved(other, first);
    }
}

/// A walk makes an element or nothing of every one of the entries `raw`: it
/// does not end among them.
pub open spec fn walk_goes_on<D: DataStructure>(
    prefix: Seq<u8>,
    raw: Seq<(Seq<u8>, Seq<u8>)>,
) -> bool {
    forall|i: int|
        0 <= i < raw.len() ==> {
            let step = classify::<D>(prefix, (#[trigger] raw[i]).0, raw[i].1);
            step is Skip || step is Yield
        }
}

/// Where a walk does not end among its first entries, it hands out what it
/// makes of them and then what it makes of the rest.
pub proof fn lemma_walk_of_two_parts<D: DataStructure>(
    prefix: Seq<u8>,
    first: Seq<(Seq<u8>, Seq<u8>)>,
    rest: Seq<(Seq<u8>, Seq<u8>)>,
)
    requires
        walk_goes_on::<D>(prefix, first),
    ensures
        items::<D>(prefix, first + rest) == items::<D>(prefix, first) + items::<D>(prefix, rest),
    decreases first.len(),
{
    if first.len() == 0 {
        assert(first + rest =~= rest);
        assert(items::<D>(prefix, first) + items::<D>(prefix, rest) =~= items::<D>(prefix, rest));
    } else {
        let all = first + rest;
        assert(all[0] == first[0]);
        assert(all.skip(1) =~= first.skip(1) + rest);
        assert forall|i: int| 0 <= i < first.skip(1).len() implies {
            let step = classify::<D>(prefix, (#[trigger] first.skip(1)[i]).0, first.skip(1)[i].1);
            step is Skip || step is Yield
        } by {
            assert(first.skip(1)[i] == first[i + 1]);
        }
        lemma_walk_of_two_parts::<D>(prefix, first.skip(1), rest);
        let step = classify::<D>(prefix, first[0].0, first[0].1);
        assert(step is Skip || step is Yield);
        match step {
            Step::Yield(k, v) => {
                let head = seq![
                    Ok::<(PartialKeyModel<D>, ValueModel<D>), StorageError<D::Enc>>((k, v)),
                ];
                assert(head + (items::<D>(prefix, first.skip(1)) + items::<D>(prefix, rest))
                    =~= (head + items::<D>(prefix, first.skip(1))) + items::<D>(prefix, rest));
            },
            _ => {},
        }
    }
}

/// The entry of the store that holds the element `value` of the vector at
/// `prefix` under the index `index`.
pub open spec fn element_entry<T: Codec<Enc>, Enc: Encoding>(
    prefix: Seq<u8>,
    index: usize,
    value: T::V,
) -> (Seq<u8>, Seq<u8>) {
    (prefix + index_bytes(index), T::encoding(value)->Ok_0)
}

/// The entries of the store that hold the elements of the vector at
/// `prefix` that `slots` names by index and value, in the order of `slots`.
pub open spec fn element_entries<T: Codec<Enc>, Enc: Encoding>(
    prefix: Seq<u8>,
    slots: Seq<(usize, T::V)>,
) -> Seq<(Seq<u8>, Seq<u8>)> {
    Seq::new(slots.len(), |i: int| element_entry::<T, Enc>(prefix, slots[i].0, slots[i].1))
}

/// What a walk hands out for the elements that `slots` names by index and
/// value, in the order of `slots`.
pub open spec fn elements<T: Codec<Enc>, Enc: Encoding>(slots: Seq<(usize, T::V)>) -> Seq<
    Result<((usize, Option<()>), T::V), StorageError<Enc>>,
> {
    Seq::new(
        slots.len(),
        |i: int|
            Ok::<((usize, Option<()>), T::V), StorageError<Enc>>(
                ((slots[i].0, None), slots[i].1),
            ),
    )
}

/// Every value in `slots` has an encoding.
pub open spec fn all_encode<T: Codec<Enc>, Enc: Encoding>(slots: Seq<(usize, T::V)>) -> bool {
    forall|i: int| 0 <= i < slots.len() ==> T::encoding((#[trigger] slots[i]).1) is Ok
}

/// A walk over a vector leaves out the counter: the entry at the vector's
/// own prefix, whatever it holds.
pub proof fn lemma_counter_is_left_out<V: DataStructure>(prefix: Seq<u8>, counter: Seq<u8>)
    ensures
        classify::<Vector<V>>(prefix, prefix, counter) is Skip,
        items::<Vector<V>>(prefix, seq![(prefix, counter)]) == Seq::<
            Result<
                (PartialKeyModel<Vector<V>>, ValueModel<Vector<V>>),
                StorageError<<Vector<V> as DataStructure>::Enc>,
            >,
        >::empty(),
{
    assert(prefix.subrange(0, prefix.len() as int) =~= prefix);
    assert(prefix.skip(prefix.len() as int) =~= Seq::<u8>::empty());
    let raw = seq![(prefix, counter)];
    assert(raw.skip(1) =~= Seq::empty());
    assert(items::<Vector<V>>(prefix, raw.skip(1)).len() == 0);
}

/// A walk over a map of items hands out the entry under a key as the key
/// and the value. The key ends with the map's own segment: the part of it
/// within the item is missing.
pub proof fn lemma_map_entry_is_handed_out<K: KeySerde, V: Codec<Enc>, Enc: Encoding>(
    prefix: Seq<u8>,
    key: K::V,
    value: V::V,
)
    requires
        K::encoding(key) is Ok,
        K::encoding(key)->Ok_0.len() > 0,
        V::encoding(value) is Ok,
    ensures
        classify::<TypedMap<K, Item<V, Enc>>>(
            prefix,
            prefix + K::encoding(key)->Ok_0,
            V::encoding(value)->Ok_0,
        ) == Step::<(<K::PartialKey as DeepView>::V, Option<()>), V::V, StorageError<Enc>>::Yield(
            (K::partial_model(key, Seq::empty()), None),
            value,
        ),
{
    let bytes = K::encoding(key)->Ok_0;
    let raw = prefix + bytes;
    assert(raw.subrange(0, prefix.len() as int) =~= prefix);
    assert(raw.skip(prefix.len() as int) =~= bytes);
    assert(bytes + Seq::<u8>::empty() =~= bytes);
    K::partial_of_encoding(key, Seq::empty());
    assert(bytes.skip(bytes.len() as int) =~= Seq::<u8>::empty());
    V::round_trip(value);
}

/// A walk over a vector of items hands out the element under an index as
/// the index and the value. The key ends with the index: the part of it
/// within the item is missing.
pub proof fn lemma_element_is_handed_out<T: Codec<Enc>, Enc: Encoding>(
    prefix: Seq<u8>,
    index: usize,
    value: T::V,
)
    requires
        T::encoding(value) is Ok,
    ensures
        classify::<Vector<Item<T, Enc>>>(
            prefix,
            element_entry::<T, Enc>(prefix, index, value).0,
            element_entry::<T, Enc>(prefix, index, value).1,
        ) == Step::<(usize, Option<()>), T::V, StorageError<Enc>>::Yield((index, None), value),
{
    let bytes = index_bytes(index);
    let key = prefix + bytes;
    assert(key.subrange(0, prefix.len() as int) =~= prefix);
    assert(key.skip(prefix.len() as int) =~= bytes);
    lemma_usize_width();
    lemma_be_bytes_len(index as nat, usize_width());
    assert(bytes + Seq::<u8>::empty() =~= bytes);
    <usize as KeySerde>::partial_of_encoding(index, Seq::empty());
    assert(bytes.skip(bytes.len() as int) =~= Seq::<u8>::empty());
    T::round_trip(value);
}

/// A walk over the entries of elements of a vector of items hands out all
/// of them, in the order of the entries.
pub proof fn lemma_elements_are_handed_out<T: Codec<Enc>, Enc: Encoding>(
    prefix: Seq<u8>,
    slots: Seq<(usize, T::V)>,
)
    requires
        all_encode::<T, Enc>(slots),
    ensures
        walk_goes_on::<Vector<Item<T, Enc>>>(prefix, element_entries::<T, Enc>(prefix, slots)),
        items::<Vector<Item<T, Enc>>>(prefix, element_entries::<T, Enc>(prefix, slots))
            == elements::<T, Enc>(slots),
{
    let raw = element_entries::<T, Enc>(prefix, slots);
    assert forall|i: int| 0 <= i < raw.len() implies {
        let step = classify::<Vector<Item<T, Enc>>>(prefix, (#[trigger] raw[i]).0, raw[i].1);
        step is Skip || step is Yield
    } by {
        lemma_element_is_handed_out::<T, Enc>(prefix, slots[i].0, slots[i].1);
    }
    lemma_elements_from::<T, Enc>(prefix, slots, 0);
    assert(raw.skip(0) =~= raw);
    assert(elements::<T, Enc>(slots).skip(0) =~= elements::<T, Enc>(slots));
}

proof fn lemma_elements_from<T: Codec<Enc>, Enc: Encoding>(
    prefix: Seq<u8>,
    slots: Seq<(usize, T::V)>,
    from: int,
)
    requires
        0 <= from <= slots.len(),
        all_encode::<T, Enc>(slots),
    ensures
        items::<Vector<Item<T, Enc>>>(prefix, element_entries::<T, Enc>(prefix, slots).skip(from))
            == elements::<T, Enc>(slots).skip(from),
    decreases slots.len() - from,
{
    let raw = element_entries::<T, Enc>(prefix, slots).skip(from);
    let expected = elements::<T, Enc>(slots).skip(from);
    if from == slots.len() {
        assert(raw.len() == 0);
        assert(expected =~= Seq::empty());
    } else {
        lemma_elements_from::<T, Enc>(prefix, slots, from + 1);
        lemma_element_is_handed_out::<T, Enc>(prefix, slots[from].0, slots[from].1);
        assert(raw[0] == element_entry::<T, Enc>(prefix, slots[from].0, slots[from].1));
        assert(raw.skip(1) =~= element_entries::<T, Enc>(prefix, slots).skip(from + 1));
        assert(expected =~= seq![expected[0]] + elements::<T, Enc>(slots).skip(from + 1));
    }
}

/// The entry of the counter of a vector at `prefix`, if the store holds one.
pub open spec fn counter_entries(prefix: Seq<u8>, counter: Option<Seq<u8>>) -> Seq<
    (Seq<u8>, Seq<u8>),
> {
    match counter {
        Some(bytes) => seq![(prefix, bytes)],
        None => Seq::empty(),
    }
}

/// A walk over a vector of items, for which the store gives the counter
/// before or after the entries of elements, hands out the elements and
/// nothing else: as many as there are entries of elements, and never the
/// counter.
pub proof fn lemma_vector_walk<T: Codec<Enc>, Enc: Encoding>(
    prefix: Seq<u8>,
    counter: Option<Seq<u8>>,
    slots: Seq<(usize, T::V)>,
)
    requires
        all_encode::<T, Enc>(slots),
    ensures
        items::<Vector<Item<T, Enc>>>(
            prefix,
            counter_entries(prefix, counter) + element_entries::<T, Enc>(prefix, slots),
        ) == elements::<T, Enc>(slots),
        items::<Vector<Item<T, Enc>>>(
            prefix,
            element_entries::<T, Enc>(prefix, slots) + counter_entries(prefix, counter),
        ) == elements::<T, Enc>(slots),
        elements::<T, Enc>(slots).len() == slots.len(),
{
    let first = counter_entries(prefix, counter);
    let rest = element_entries::<T, Enc>(prefix, slots);
    lemma_elements_are_handed_out::<T, Enc>(prefix, slots);
    assert(walk_goes_on::<Vector<Item<T, Enc>>>(prefix, first)) by {
        assert forall|i: int| 0 <= i < first.len() implies {
            let step = classify::<Vector<Item<T, Enc>>>(
                prefix,
                (#[trigger] first[i]).0,
                first[i].1,
            );
            step is Skip || step is Yield
        } by {
            lemma_counter_is_left_out::<Item<T, Enc>>(prefix, counter->Some_0);
        }
    }
    lemma_walk_of_two_parts::<Vector<Item<T, Enc>>>(prefix, first, rest);
    lemma_walk_of_two_parts::<Vector<Item<T, Enc>>>(prefix, rest, first);
    let empty = items::<Vector<Item<T, Enc>>>(prefix, first);
    assert(empty.len() == 0) by {
        if let Some(bytes) = counter {
            lemma_counter_is_left_out::<Item<T, Enc>>(prefix, bytes);
        }
    }
    assert(empty + elements::<T, Enc>(slots) =~= elements::<T, Enc>(slots));
    assert(elements::<T, Enc>(slots) + empty =~= elements::<T, Enc>(slots));
}

/// The elements `values` with their indices, from the first to the last.
pub open spec fn upward<V>(values: Seq<V>) -> Seq<(usize, V)> {
    Seq::new(values.len(), |i: int| (i as usize, values[i]))
}

/// The elements `values` with their indices, from the last to the first.
pub open spec fn downward<V>(values: Seq<V>) -> Seq<(usize, V)> {
    Seq::new(
        values.len(),
        |i: int| ((values.len() - 1 - i) as usize, values[values.len() - 1 - i]),
    )
}

/// The elements `values` with their indices, in the direction `order`.
pub open spec fn in_order<V>(values: Seq<V>, order: Order) -> Seq<(usize, V)> {
    match order {
        Order::Ascending => upward(values),
        Order::Descending => downward(values),
    }
}

/// Under `prefix`, the store holds a vector of items with the elements
/// `values`, the counter `counter` if any, and nothing else.
pub open spec fn holds_vector<T: Codec<Enc>, Enc: Encoding>(
    store: Map<Seq<u8>, Seq<u8>>,
    prefix: Seq<u8>,
    counter: Option<Seq<u8>>,
    values: Seq<T::V>,
) -> bool {
    &&& values.len() <= usize::MAX
    &&& match counter {
        Some(bytes) => store.contains_key(prefix) && store[prefix] == bytes,
        None => !store.contains_key(prefix),
    }
    &&& forall|i: int|
        0 <= i < values.len() ==> {
            &&& T::encoding(#[trigger] values[i]) is Ok
            &&& store.contains_key(prefix + index_bytes(i as usize))
            &&& store[prefix + index_bytes(i as usize)] == T::encoding(values[i])->Ok_0
        }
    &&& forall|key: Seq<u8>| #[trigger]
        store.contains_key(key) && is_prefix(prefix, key) ==> key == prefix || is_element_key(
            prefix,
            key,
            values.len() as int,
        )
}

/// `key` is the key of one of the first `n` elements of the vector at `prefix`.
pub open spec fn is_element_key(prefix: Seq<u8>, key: Seq<u8>, n: int) -> bool {
    exists|i: int| 0 <= i < n && key == prefix + #[trigger] index_bytes(i as usize)
}

/// What a scan of all of the vector at `prefix` gives, in the direction
/// `order`, where the store holds the vector with the elements `values`
/// and nothing else under the prefix.
pub open spec fn vector_scan<T: Codec<Enc>, Enc: Encoding>(
    prefix: Seq<u8>,
    counter: Option<Seq<u8>>,
    values: Seq<T::V>,
    order: Order,
) -> Seq<(Seq<u8>, Seq<u8>)> {
    match order {
        Order::Ascending => counter_entries(prefix, counter) + element_entries::<T, Enc>(
            prefix,
            upward(values),
        ),
        Order::Descending => element_entries::<T, Enc>(prefix, downward(values))
            + counter_entries(prefix, counter),
    }
}

/// The keys of the elements of a vector sort as the indices, after the
/// vector's own prefix.
pub proof fn lemma_element_keys_sorted(prefix: Seq<u8>, i: usize, j: usize)
    ensures
        lex_lt(prefix, prefix + index_bytes(i)),
        is_prefix(prefix, prefix + index_bytes(i)),
        i < j <==> lex_lt(prefix + index_bytes(i), prefix + index_bytes(j)),
{
    lemma_usize_width();
    lemma_be_bytes_len(i as nat, usize_width());
    assert((prefix + index_bytes(i)).subrange(0, prefix.len() as int) =~= prefix);
    lemma_proper_prefix_is_below(prefix, prefix + index_bytes(i));
    lemma_uint_order(i as nat, j as nat, usize_width());
    lemma_lex_lt_common_prefix(prefix, index_bytes(i), index_bytes(j));
}

/// Where the store holds a vector of items and nothing else under the
/// vector's prefix, a scan of all of the vector gives the counter and the
/// entries of the elements, in the order of the indices.
pub proof fn lemma_vector_scan<T: Codec<Enc>, Enc: Encoding>(
    store: Map<Seq<u8>, Seq<u8>>,
    prefix: Seq<u8>,
    counter: Option<Seq<u8>>,
    values: Seq<T::V>,
    order: Order,
)
    requires
        holds_vector::<T, Enc>(store, prefix, counter, values),
    ensures
        is_scan(
            vector_scan::<T, Enc>(prefix, counter, values, order),
            store,
            Bound::Included(prefix),
            prefix_end(prefix),
            order,
        ),
{
    let scan = vector_scan::<T, Enc>(prefix, counter, values, order);
    let keys = keys_of(scan);
    let low = Bound::Included(prefix);
    let high = prefix_end(prefix);
    let n = values.len() as int;
    let c = counter_entries(prefix, counter).len() as int;
    // The place in the scan of the element under the index `i`, and of the counter.
    let place = |i: int|
        match order {
            Order::Ascending => c + i,
            Order::Descending => n - 1 - i,
        };
    let counter_place = match order {
        Order::Ascending => 0int,
        Order::Descending => n,
    };
    assert(scan.len() == n + c);
    assert forall|i: int| 0 <= i < n implies 0 <= place(i) < scan.len() && scan[place(i)] == (
        prefix + index_bytes(i as usize),
        T::encoding(values[i])->Ok_0,
    ) by {}
    assert(counter is Some ==> scan[counter_place] == (prefix, counter->Some_0));
    // Every place in the scan is that of an element or of the counter.
    let index_at = |p: int|
        match order {
            Order::Ascending => p - c,
            Order::Descending => n - 1 - p,
        };
    assert forall|p: int| 0 <= p < scan.len() implies store.contains_key(#[trigger] keys[p])
        && in_range(low, high, keys[p]) && store[scan[p].0] == scan[p].1 by {
        let i = index_at(p);
        if 0 <= i < n {
            assert(p == place(i));
            lemma_element_keys_sorted(prefix, i as usize, i as usize);
            lemma_prefixed_in_range(prefix, prefix + index_bytes(i as usize));
        } else {
            assert(p == counter_place);
            assert(prefix.subrange(0, prefix.len() as int) =~= prefix);
            lemma_prefixed_in_range(prefix, prefix);
        }
    }
    assert forall|p: int| 0 <= p < scan.len() implies store[(#[trigger] scan[p]).0]
        == scan[p].1 by {
        assert(store.contains_key(keys[p]));
    }
    assert forall|p: int, q: int| 0 <= p < q < keys.len() implies comes_before(
        #[trigger] keys[p],
        #[trigger] keys[q],
        order,
    ) by {
        let i = index_at(p);
        let j = index_at(q);
        if 0 <= i < n && 0 <= j < n {
            assert(p == place(i) && q == place(j));
            lemma_element_keys_sorted(prefix, i as usize, j as usize);
            lemma_element_keys_sorted(prefix, j as usize, i as usize);
        } else if 0 <= i < n {
            assert(p == place(i) && q == counter_place);
            lemma_element_keys_sorted(prefix, i as usize, i as usize);
        } else {
            assert(p == counter_place && q == place(j));
            lemma_element_keys_sorted(prefix, j as usize, j as usize);
        }
    }
    assert forall|key: Seq<u8>| #[trigger]
        store.contains_key(key) && in_range(low, high, key) implies keys.contains(key) by {
        lemma_in_range_prefixed(prefix, key);
        if key == prefix {
            assert(keys[counter_place] == key);
        } else {
            let i = choose|i: int| 0 <= i < n && key == prefix + #[trigger] index_bytes(i as usize);
            assert(keys[place(i)] == key);
        }
    }
}

/// After the elements `values` were written to a vector of items, a walk
/// over all of the vector hands out exactly these elements, in the order of
/// their indices for `Ascending` and against it for `Descending`: as many as
/// were written, and never the counter, though it lies under the vector's
/// prefix too.
pub proof fn lemma_vector_range<T: Codec<Enc>, Enc: Encoding>(
    store: Map<Seq<u8>, Seq<u8>>,
    prefix: Seq<u8>,
    counter: Option<Seq<u8>>,
    values: Seq<T::V>,
    order: Order,
    raw: Seq<(Seq<u8>, Seq<u8>)>,
)
    requires
        holds_vector::<T, Enc>(store, prefix, counter, values),
        scanned::<usize>(raw, store, prefix, Bound::Unbounded, Bound::Unbounded, order),
    ensures
        items::<Vector<Item<T, Enc>>>(prefix, raw) == elements::<T, Enc>(
            in_order(values, order),
        ),
        items::<Vector<Item<T, Enc>>>(prefix, raw).len() == values.len(),
{
    let low = Bound::Included(prefix);
    let high = prefix_end(prefix);
    assert(prefix.subrange(0, prefix.len() as int) =~= prefix);
    lemma_prefixed_in_range(prefix, prefix);
    if is_empty_range_spec(low, high) {
        lemma_empty_range_holds_no_key(low, high, prefix);
    }
    lemma_vector_scan::<T, Enc>(store, prefix, counter, values, order);
    lemma_scan_unique(
        raw,
        vector_scan::<T, Enc>(prefix, counter, values, order),
        store,
        low,
        high,
        order,
    );
    assert(all_encode::<T, Enc>(in_order(values, order)));
    lemma_vector_walk::<T, Enc>(prefix, counter, in_order(values, order));
}

/// A store that holds nothing under `prefix` holds the empty vector there.
pub proof fn lemma_empty_vector<T: Codec<Enc>, Enc: Encoding>(
    store: Map<Seq<u8>, Seq<u8>>,
    prefix: Seq<u8>,
)
    requires
        forall|key: Seq<u8>| #[trigger] store.contains_key(key) ==> !is_prefix(prefix, key),
    ensures
        holds_vector::<T, Enc>(store, prefix, None, Seq::empty()),
        len_spec(store, prefix) == Ok::<usize, StorageError<KeyEncoding>>(0),
{
    assert(prefix.subrange(0, prefix.len() as int) =~= prefix);
}

/// A push onto a vector makes it the vector with one more element at the
/// end, and the counter says the new number of elements.
pub proof fn lemma_push_extends_vector<T: Codec<Enc>, Enc: Encoding>(
    store: Map<Seq<u8>, Seq<u8>>,
    prefix: Seq<u8>,
    counter: Option<Seq<u8>>,
    values: Seq<T::V>,
    value: T::V,
)
    requires
        holds_vector::<T, Enc>(store, prefix, counter, values),
        len_spec(store, prefix) == Ok::<usize, StorageError<KeyEncoding>>(values.len() as usize),
        values.len() < usize::MAX,
        T::encoding(value) is Ok,
    ensures
        push_spec::<T, Enc>(store, prefix, value) is Ok,
        holds_vector::<T, Enc>(
            push_spec::<T, Enc>(store, prefix, value)->Ok_0,
            prefix,
            Some(index_bytes((values.len() + 1) as usize)),
            values.push(value),
        ),
        len_spec(push_spec::<T, Enc>(store, prefix, value)->Ok_0, prefix) == Ok::<
            usize,
            StorageError<KeyEncoding>,
        >((values.len() + 1) as usize),
{
    let n = values.len() as usize;
    let after = push_spec::<T, Enc>(store, prefix, value)->Ok_0;
    let place = prefix + index_bytes(n);
    let grown = values.push(value);
    lemma_element_keys_sorted(prefix, n, n);
    lemma_lex_lt_irreflexive(prefix);
    assert(place != prefix);
    assert forall|i: int| 0 <= i < grown.len() implies {
        &&& T::encoding(#[trigger] grown[i]) is Ok
        &&& after.contains_key(prefix + index_bytes(i as usize))
        &&& after[prefix + index_bytes(i as usize)] == T::encoding(grown[i])->Ok_0
    } by {
        let key = prefix + index_bytes(i as usize);
        lemma_element_keys_sorted(prefix, i as usize, n);
        lemma_lex_lt_irreflexive(key);
        if i < n {
            assert(grown[i] == values[i]);
            assert(key != place);
            assert(key != prefix);
        }
    }
    assert forall|key: Seq<u8>| #[trigger]
        after.contains_key(key) && is_prefix(prefix, key) implies key == prefix || is_element_key(
        prefix,
        key,
        grown.len() as int,
    ) by {
        if key == place {
            assert(key == prefix + index_bytes(n as int as usize));
        } else if key != prefix {
            assert(store.contains_key(key));
            let i = choose|i: int| 0 <= i < n && key == prefix + #[trigger] index_bytes(i as usize);
            assert(key == prefix + index_bytes(i as usize));
        }
    }
    lemma_usize_width();
    lemma_uint_delimited((n + 1) as nat, usize_width(), Seq::empty());
    assert(index_bytes((n + 1) as usize) + Seq::<u8>::empty() =~= index_bytes((n + 1) as usize));
}

} // verus!
