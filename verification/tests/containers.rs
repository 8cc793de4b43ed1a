use typed_kv::{
    decode, encode, BorshEncoding, BorshError, Bound, CompoundKey, DataStructure,
    DisplayEncoding, DisplayError, DsIter, Item,
    KeyDeserializeError, KeyEncoding, KeySerializeError, MemoryStorage, Order, PriorityQueue,
    Storage, StorageError, StorageMut, TypedMap, Vector,
};

fn collect<D: DataStructure>(
    mut iter: DsIter<D>,
) -> Vec<
    Result<
        (
            <<D as DataStructure>::Key as typed_kv::KeySerde>::PartialKey,
            <D as DataStructure>::Value,
        ),
        StorageError<<D as DataStructure>::Enc>,
    >,
> {
    let mut all = Vec::new();
    while let Some(item) = iter.next() {
        all.push(item);
    }
    all
}

#[test]
fn test_item() {
    let foo: Item<String, DisplayEncoding> = Item::from_bytes(b"foo");
    let foobar: Item<String, DisplayEncoding> = Item::from_bytes(b"foobar");

    let mut storage = MemoryStorage::new();

    assert_eq!(foo.may_load(&storage).unwrap(), None);
    foo.save(&mut storage, &"qux".to_string()).unwrap();
    assert_eq!(foo.may_load(&storage).unwrap(), Some("qux".to_string()));

    assert_eq!(foobar.may_load(&storage).unwrap(), None);
    foobar.save(&mut storage, &"baz".to_string()).unwrap();
    assert_eq!(foobar.may_load(&storage).unwrap(), Some("baz".to_string()));

    println!("{storage:?}");
}

#[test]
fn item_test_item() {
    let first: Item<String, DisplayEncoding> = Item::new(b"foo");
    let item: Item<String, DisplayEncoding> = Item::with_key(b"bar".to_vec()).unwrap();

    let mut storage = MemoryStorage::new();
    assert_eq!(first.may_load(&storage), Ok(None));
    assert_eq!(item.may_load(&storage), Ok(None));

    first.save(&mut storage, &"baz".to_string()).unwrap();
    assert_eq!(first.may_load(&storage), Ok(Some("baz".to_string())));
    assert_eq!(item.may_load(&storage), Ok(None));

    item.save(&mut storage, &"qux".to_string()).unwrap();
    assert_eq!(first.may_load(&storage), Ok(Some("baz".to_string())));
    assert_eq!(item.may_load(&storage), Ok(Some("qux".to_string())));
}

#[test]
fn container_test_item() {
    let mut storage = MemoryStorage::new();
    let item: Item<String, DisplayEncoding> = Item::with_key("foo".to_string()).unwrap();

    assert_eq!(item.may_load(&storage).unwrap(), None);
    item.save(&mut storage, &"bar".to_string()).unwrap();
    assert_eq!(item.may_load(&storage).unwrap(), Some("bar".to_string()));

    let item2: Item<String, DisplayEncoding> = Item::with_key("foobar".to_string()).unwrap();
    assert_eq!(item2.may_load(&storage).unwrap(), None);
    item2.save(&mut storage, &"baz".to_string()).unwrap();
    assert_eq!(item2.may_load(&storage).unwrap(), Some("baz".to_string()));

    println!("{:?}", storage);
}

#[test]
fn test_map() {
    let map: TypedMap<String, Item<String, DisplayEncoding>> = TypedMap::new(b"");

    let mut storage = MemoryStorage::new();

    let key = "foo".to_string();
    assert_eq!(map.may_load(&storage, &key).unwrap(), None);
    map.save(&mut storage, &key, &"qux".to_string()).unwrap();

    let pairs: TypedMap<(String, String), Item<String, DisplayEncoding>> = TypedMap::new(b"");
    let key = ("foo".to_string(), "bar".to_string());
    assert_eq!(pairs.may_load(&storage, &key).unwrap(), None);
    pairs.save(&mut storage, &key, &"qux".to_string()).unwrap();
    assert_eq!(
        pairs.may_load(&storage, &key).unwrap(),
        Some("qux".to_string())
    );
}

#[test]
fn map_test_map() {
    type MapT = TypedMap<String, Item<String, DisplayEncoding>>;
    let map: MapT = TypedMap::new(b"foo");

    let mut storage = MemoryStorage::new();
    let acc = map.at("bar".to_string()).unwrap();
    assert_eq!(acc.may_load(&storage), Ok(None));
    acc.save(&mut storage, &"baz".to_string()).unwrap();
    assert_eq!(acc.may_load(&storage), Ok(Some("baz".to_string())));

    type NestedT = TypedMap<usize, MapT>;
    let nested: NestedT = TypedMap::new(b"nested");
    let acc = nested.at(42usize).unwrap().at("qux".to_string()).unwrap();
    assert_eq!(acc.may_load(&storage), Ok(None));
    acc.save(&mut storage, &"quux".to_string()).unwrap();
    assert_eq!(acc.may_load(&storage), Ok(Some("quux".to_string())));

    println!("{storage:?}");
}

#[test]
fn container_test_map() {
    let map: TypedMap<String, Item<String, DisplayEncoding>> = TypedMap::new(b"");
    let key = map.key(&"foo".to_string()).unwrap();
    assert_eq!(key, vec![3, b'f', b'o', b'o']);
}

#[test]
fn test_map_iter() {
    let mut storage = MemoryStorage::new();
    let map: TypedMap<String, Item<String, DisplayEncoding>> = TypedMap::new(b"foo");

    for i in 0..10 {
        let key = format!("k{}", i);
        let item = map.at(key.clone()).unwrap();
        item.save(&mut storage, &format!("value{}", i)).unwrap();
    }

    let mut iter = map
        .range(
            &storage,
            Bound::Unbounded,
            Bound::Unbounded,
            Order::Ascending,
        )
        .unwrap();
    let mut seen = 0;
    while let Some(item) = iter.next() {
        if let Ok((key, value)) = item {
            println!("{:?}: {:?}", key, value);
            assert_eq!(key.0, format!("k{}", seen));
            assert_eq!(key.1, None);
            assert_eq!(value, format!("value{}", seen));
            seen += 1;
        } else {
            panic!("Error: {:?}", item);
        }
    }
    assert_eq!(seen, 10);
}

#[test]
fn test_priority_queue() {
    let mut storage = MemoryStorage::new();
    let pq: PriorityQueue<i32, String, DisplayEncoding> = PriorityQueue::new(b"test_pq");

    pq.push(&mut storage, 3, &"third".to_string()).unwrap();
    pq.push(&mut storage, 1, &"first".to_string()).unwrap();
    pq.push(&mut storage, 2, &"second".to_string()).unwrap();

    assert_eq!(
        pq.peek(&storage, Order::Ascending).unwrap(),
        Some((1, "first".to_string()))
    );
    assert_eq!(
        pq.peek(&storage, Order::Descending).unwrap(),
        Some((3, "third".to_string()))
    );

    assert_eq!(
        pq.pop(&mut storage, Order::Ascending).unwrap(),
        Some((1, "first".to_string()))
    );
    assert_eq!(
        pq.pop(&mut storage, Order::Ascending).unwrap(),
        Some((2, "second".to_string()))
    );
    assert_eq!(
        pq.pop(&mut storage, Order::Ascending).unwrap(),
        Some((3, "third".to_string()))
    );
    assert_eq!(pq.pop(&mut storage, Order::Ascending).unwrap(), None);
}

#[test]
fn test_vector() {
    let vector: Vector<Item<String, DisplayEncoding>> = Vector::new(b"foo");

    let mut storage = MemoryStorage::new();
    assert_eq!(vector.len(&storage), Ok(0));

    vector
        .at(0)
        .unwrap()
        .save(&mut storage, &"bar".to_string())
        .unwrap();

    assert_eq!(
        vector.at(0).unwrap().may_load(&storage),
        Ok(Some("bar".to_string()))
    );
    assert_eq!(vector.len(&storage), Ok(0));
}

#[test]
fn vector_push_moves_the_counter() {
    let vector: Vector<Item<String, DisplayEncoding>> = Vector::new(b"foo");

    let mut storage = MemoryStorage::new();
    assert_eq!(vector.len(&storage), Ok(0));

    vector.push(&mut storage, &"bar".to_string()).unwrap();

    assert_eq!(
        vector.at(0).unwrap().may_load(&storage),
        Ok(Some("bar".to_string()))
    );
    assert_eq!(vector.len(&storage), Ok(1));
}

#[test]
fn compiles() {
    let _item: Item<String, DisplayEncoding> = Item::new(b"item");
    let _map1: TypedMap<String, Item<String, DisplayEncoding>> = TypedMap::new(b"map1");
    let _map2: TypedMap<String, TypedMap<String, Item<String, DisplayEncoding>>> =
        TypedMap::new(b"map2");
    let _vec1: Vector<Item<String, DisplayEncoding>> = Vector::new(b"vec1");
    let _vec2: Vector<Vector<Item<String, DisplayEncoding>>> = Vector::new(b"vec2");
    let _vec_map: Vector<TypedMap<String, Item<String, DisplayEncoding>>> =
        Vector::new(b"vecmap");
}

#[test]
fn item_lives_under_its_length_prefixed_name() {
    let foo: Item<String, DisplayEncoding> = Item::new(b"foo");
    assert_eq!(foo.key(), &[3, b'f', b'o', b'o']);
    let mut storage = MemoryStorage::new();
    foo.save(&mut storage, &"v".to_string()).unwrap();
    assert_eq!(storage.get_raw(&[3, b'f', b'o', b'o']), Some(vec![b'v']));
    assert_eq!(storage.len(), 1);
    let same: Item<String, DisplayEncoding> = Item::from_vec(b"foo".to_vec());
    assert_eq!(same.may_load(&storage), Ok(Some("v".to_string())));
}

#[test]
fn item_save_load_delete() {
    let item: Item<String, DisplayEncoding> = Item::new(b"k");
    let other: Item<String, DisplayEncoding> = Item::new(b"other");
    let mut storage = MemoryStorage::new();
    assert_eq!(item.may_load(&storage), Ok(None));
    item.save(&mut storage, &"one".to_string()).unwrap();
    item.save(&mut storage, &"two".to_string()).unwrap();
    assert_eq!(item.may_load(&storage), Ok(Some("two".to_string())));
    assert_eq!(other.may_load(&storage), Ok(None));
    assert_eq!(item.delete(&mut storage), Ok(()));
    assert_eq!(item.may_load(&storage), Ok(None));
    assert_eq!(item.delete(&mut storage), Ok(()));
    assert_eq!(storage.len(), 0);
}

#[test]
fn item_reports_a_value_that_does_not_decode() {
    let item: Item<String, DisplayEncoding> = Item::new(b"k");
    let mut storage = MemoryStorage::new();
    storage.set_raw(vec![1, b'k'], vec![0xFF, 0xFE]);
    assert_eq!(
        item.may_load(&storage),
        Err(StorageError::ValueDeserialize(DisplayError::NotText))
    );
}

#[test]
fn end_to_end_map_of_text() {
    let map: TypedMap<String, Item<String, DisplayEncoding>> = TypedMap::new(b"foo");
    let mut storage = MemoryStorage::new();
    map.at("bar".to_string())
        .unwrap()
        .save(&mut storage, &"baz".to_string())
        .unwrap();
    assert_eq!(
        storage.get_raw(&[b'f', b'o', b'o', 3, b'b', b'a', b'r']),
        Some(b"baz".to_vec())
    );
    assert_eq!(storage.len(), 1);
    assert_eq!(
        map.at("bar".to_string()).unwrap().may_load(&storage),
        Ok(Some("baz".to_string()))
    );
    assert_eq!(map.at("qux".to_string()).unwrap().may_load(&storage), Ok(None));
    assert_eq!(map.prefix(), b"foo");
}

#[test]
fn nested_maps_keep_apart() {
    type Inner = TypedMap<String, Item<String, DisplayEncoding>>;
    let map: TypedMap<String, Inner> = TypedMap::new(b"m");
    let mut storage = MemoryStorage::new();
    let at = |a: &str, x: &str| {
        map.at(a.to_string())
            .unwrap()
            .at(x.to_string())
            .unwrap()
    };
    at("b", "x").save(&mut storage, &"bx".to_string()).unwrap();
    at("b", "y").save(&mut storage, &"by".to_string()).unwrap();
    at("ab", "").save(&mut storage, &"ab-".to_string()).unwrap();
    at("a", "x").save(&mut storage, &"ax".to_string()).unwrap();
    at("a", "y").save(&mut storage, &"ay".to_string()).unwrap();
    at("a", "x").save(&mut storage, &"ax2".to_string()).unwrap();
    assert_eq!(at("b", "x").may_load(&storage), Ok(Some("bx".to_string())));
    assert_eq!(at("b", "y").may_load(&storage), Ok(Some("by".to_string())));
    assert_eq!(at("ab", "").may_load(&storage), Ok(Some("ab-".to_string())));
    assert_eq!(at("a", "x").may_load(&storage), Ok(Some("ax2".to_string())));
    assert_eq!(at("a", "b").may_load(&storage), Ok(None));
    assert_eq!(storage.len(), 5);
}

#[test]
fn map_range_respects_its_ends_and_its_direction() {
    let map: TypedMap<u16, Item<String, DisplayEncoding>> = TypedMap::new(b"m");
    let mut storage = MemoryStorage::new();
    for i in [5u16, 1, 300, 2, 4] {
        map.at(i).unwrap().save(&mut storage, &format!("v{}", i)).unwrap();
    }
    let neighbour: Item<String, DisplayEncoding> = Item::new(b"z");
    neighbour.save(&mut storage, &"outside".to_string()).unwrap();
    storage.set_raw(b"l".to_vec(), b"below".to_vec());
    storage.set_raw(b"n".to_vec(), b"above".to_vec());

    let keys = |start: Bound<u16>, end: Bound<u16>, order: Order| -> Vec<u16> {
        collect(map.range(&storage, start, end, order).unwrap())
            .into_iter()
            .map(|item| item.unwrap().0 .0)
            .collect()
    };
    assert_eq!(
        keys(Bound::Unbounded, Bound::Unbounded, Order::Ascending),
        vec![1, 2, 4, 5, 300]
    );
    assert_eq!(
        keys(Bound::Unbounded, Bound::Unbounded, Order::Descending),
        vec![300, 5, 4, 2, 1]
    );
    assert_eq!(
        keys(Bound::Included(2), Bound::Excluded(5), Order::Ascending),
        vec![2, 4]
    );
    assert_eq!(
        keys(Bound::Excluded(2), Bound::Included(5), Order::Descending),
        vec![5, 4]
    );
    assert_eq!(
        keys(Bound::Included(3), Bound::Unbounded, Order::Ascending),
        vec![4, 5, 300]
    );
    assert_eq!(
        keys(Bound::Unbounded, Bound::Excluded(4), Order::Ascending),
        vec![1, 2]
    );
    assert_eq!(
        keys(Bound::Included(4), Bound::Included(4), Order::Ascending),
        vec![4]
    );
}

#[test]
fn map_range_hands_out_partial_keys_and_values() {
    let map: TypedMap<String, TypedMap<u8, Item<String, DisplayEncoding>>> = TypedMap::new(b"p");
    let mut storage = MemoryStorage::new();
    map.at("a".to_string())
        .unwrap()
        .at(7)
        .unwrap()
        .save(&mut storage, &"a7".to_string())
        .unwrap();
    map.at("b".to_string())
        .unwrap()
        .at(1)
        .unwrap()
        .save(&mut storage, &"b1".to_string())
        .unwrap();
    let all = collect(
        map.range(&storage, Bound::Unbounded, Bound::Unbounded, Order::Ascending)
            .unwrap(),
    );
    assert_eq!(
        all,
        vec![
            Ok((
                CompoundKey("a".to_string(), Some(CompoundKey(7u8, None))),
                "a7".to_string()
            )),
            Ok((
                CompoundKey("b".to_string(), Some(CompoundKey(1u8, None))),
                "b1".to_string()
            )),
        ]
    );
}

#[test]
fn walk_ends_after_the_first_failure() {
    let map: TypedMap<u16, Item<String, DisplayEncoding>> = TypedMap::new(b"m");
    let mut storage = MemoryStorage::new();
    map.at(1).unwrap().save(&mut storage, &"one".to_string()).unwrap();
    storage.set_raw(vec![b'm', 0, 2], vec![0xFF]);
    map.at(3).unwrap().save(&mut storage, &"three".to_string()).unwrap();
    let all = collect(
        map.range(&storage, Bound::Unbounded, Bound::Unbounded, Order::Ascending)
            .unwrap(),
    );
    assert_eq!(
        all,
        vec![
            Ok((CompoundKey(1u16, None), "one".to_string())),
            Err(StorageError::ValueDeserialize(DisplayError::NotText)),
        ]
    );

    let mut storage = MemoryStorage::new();
    map.at(1).unwrap().save(&mut storage, &"one".to_string()).unwrap();
    storage.set_raw(vec![b'm', 9], b"short key".to_vec());
    map.at(0x0A00).unwrap().save(&mut storage, &"later".to_string()).unwrap();
    let mut iter = map
        .range(&storage, Bound::Unbounded, Bound::Unbounded, Order::Ascending)
        .unwrap();
    assert_eq!(
        iter.next(),
        Some(Ok((CompoundKey(1u16, None), "one".to_string())))
    );
    assert_eq!(
        iter.next(),
        Some(Err(StorageError::KeyDeserialize(
            KeyDeserializeError::NotEnoughBytes(2, 1)
        )))
    );
    assert_eq!(iter.next(), None);
    assert_eq!(iter.next(), None);
}

#[test]
fn entry_at_the_prefix_of_a_map_is_a_failure() {
    let map: TypedMap<u16, Item<String, DisplayEncoding>> = TypedMap::new(b"m");
    let mut storage = MemoryStorage::new();
    storage.set_raw(b"m".to_vec(), b"stray".to_vec());
    map.at(1).unwrap().save(&mut storage, &"one".to_string()).unwrap();
    let all = collect(
        map.range(&storage, Bound::Unbounded, Bound::Unbounded, Order::Ascending)
            .unwrap(),
    );
    assert_eq!(
        all,
        vec![Err(StorageError::KeyDeserialize(
            KeyDeserializeError::NotEnoughBytes(1, 0)
        ))]
    );
}

#[test]
fn walk_over_given_entries_stops_outside_the_prefix() {
    let entries = vec![
        (vec![b'm', 0, 1], b"one".to_vec()),
        (vec![b'n', 0, 2], b"two".to_vec()),
        (vec![b'm', 0, 3], b"three".to_vec()),
    ];
    let iter: DsIter<TypedMap<u16, Item<String, DisplayEncoding>>> =
        DsIter::new(b"m".to_vec(), entries);
    assert_eq!(
        collect(iter),
        vec![Ok((CompoundKey(1u16, None), "one".to_string()))]
    );
}

#[test]
fn vector_push_counts_and_range_leaves_the_counter_out() {
    let vector: Vector<Item<String, DisplayEncoding>> = Vector::new(b"v");
    let mut storage = MemoryStorage::new();
    for i in 0..5 {
        vector.push(&mut storage, &format!("e{}", i)).unwrap();
    }
    assert_eq!(vector.len(&storage), Ok(5));
    assert_eq!(storage.len(), 6);
    assert_eq!(
        storage.get_raw(b"v"),
        Some(5usize.to_be_bytes().to_vec())
    );
    let mut key = b"v".to_vec();
    key.extend_from_slice(&3usize.to_be_bytes());
    assert_eq!(vector.key(&3).unwrap(), key);
    assert_eq!(storage.get_raw(&key), Some(b"e3".to_vec()));

    let all = collect(
        vector
            .range(&storage, Bound::Unbounded, Bound::Unbounded, Order::Ascending)
            .unwrap(),
    );
    assert_eq!(all.len(), 5);
    for (i, item) in all.into_iter().enumerate() {
        assert_eq!(item, Ok((CompoundKey(i, None), format!("e{}", i))));
    }
    let back = collect(
        vector
            .range(&storage, Bound::Unbounded, Bound::Unbounded, Order::Descending)
            .unwrap(),
    );
    assert_eq!(back.len(), 5);
    assert_eq!(back[0], Ok((CompoundKey(4usize, None), "e4".to_string())));
    let some = collect(
        vector
            .range(&storage, Bound::Included(1), Bound::Excluded(3), Order::Ascending)
            .unwrap(),
    );
    assert_eq!(some.len(), 2);
}

#[test]
fn counters_of_inner_vectors_are_left_out() {
    let outer: TypedMap<String, Vector<Item<String, DisplayEncoding>>> = TypedMap::new(b"o");
    let mut storage = MemoryStorage::new();
    let a = outer.at("a".to_string()).unwrap();
    a.push(&mut storage, &"a0".to_string()).unwrap();
    a.push(&mut storage, &"a1".to_string()).unwrap();
    let b = outer.at("b".to_string()).unwrap();
    b.push(&mut storage, &"b0".to_string()).unwrap();
    assert_eq!(storage.len(), 5);
    let all = collect(
        outer
            .range(&storage, Bound::Unbounded, Bound::Unbounded, Order::Ascending)
            .unwrap(),
    );
    assert_eq!(
        all,
        vec![
            Ok((
                CompoundKey("a".to_string(), Some(CompoundKey(0usize, None))),
                "a0".to_string()
            )),
            Ok((
                CompoundKey("a".to_string(), Some(CompoundKey(1usize, None))),
                "a1".to_string()
            )),
            Ok((
                CompoundKey("b".to_string(), Some(CompoundKey(0usize, None))),
                "b0".to_string()
            )),
        ]
    );

    let nested: Vector<Vector<Item<String, DisplayEncoding>>> = Vector::new(b"n");
    let mut storage = MemoryStorage::new();
    nested.at(0).unwrap().push(&mut storage, &"x".to_string()).unwrap();
    nested.at(2).unwrap().push(&mut storage, &"y".to_string()).unwrap();
    storage.set_raw(b"n".to_vec(), 3usize.to_be_bytes().to_vec());
    let all = collect(
        nested
            .range(&storage, Bound::Unbounded, Bound::Unbounded, Order::Ascending)
            .unwrap(),
    );
    assert_eq!(all.len(), 2);
}

#[test]
fn vector_reports_a_counter_that_does_not_decode_or_is_full() {
    let vector: Vector<Item<String, DisplayEncoding>> = Vector::new(b"v");
    let mut storage = MemoryStorage::new();
    storage.set_raw(b"v".to_vec(), vec![1, 2, 3]);
    assert_eq!(
        vector.len(&storage),
        Err(StorageError::ValueDeserialize(
            KeyDeserializeError::NotEnoughBytes(8, 3)
        ))
    );
    assert_eq!(
        vector.push(&mut storage, &"x".to_string()),
        Err(StorageError::KeyDeserialize(
            KeyDeserializeError::NotEnoughBytes(8, 3)
        ))
    );
    storage.set_raw(b"v".to_vec(), usize::MAX.to_be_bytes().to_vec());
    assert_eq!(
        vector.push(&mut storage, &"x".to_string()),
        Err(StorageError::KeySerialize(KeySerializeError::LengthOverflow))
    );
    assert_eq!(storage.len(), 1);
}

#[test]
fn queue_keeps_one_value_per_priority() {
    let pq: PriorityQueue<i32, String, DisplayEncoding> = PriorityQueue::new(b"q");
    let mut storage = MemoryStorage::new();
    assert_eq!(pq.peek(&storage, Order::Ascending), Ok(None));
    pq.push(&mut storage, -5, &"low".to_string()).unwrap();
    pq.push(&mut storage, 7, &"high".to_string()).unwrap();
    pq.push(&mut storage, -5, &"lower".to_string()).unwrap();
    assert_eq!(storage.len(), 2);
    assert_eq!(
        pq.peek(&storage, Order::Ascending),
        Ok(Some((-5, "lower".to_string())))
    );
    assert_eq!(
        pq.pop(&mut storage, Order::Descending),
        Ok(Some((7, "high".to_string())))
    );
    assert_eq!(storage.len(), 1);
    assert_eq!(
        pq.pop(&mut storage, Order::Descending),
        Ok(Some((-5, "lower".to_string())))
    );
    assert_eq!(pq.pop(&mut storage, Order::Descending), Ok(None));
}

#[test]
fn queue_does_not_see_its_neighbours() {
    let pq: PriorityQueue<u8, String, DisplayEncoding> = PriorityQueue::new(b"q");
    let mut storage = MemoryStorage::new();
    storage.set_raw(b"p".to_vec(), b"before".to_vec());
    storage.set_raw(b"r".to_vec(), b"after".to_vec());
    storage.set_raw(b"q\xFF\x00z".to_vec(), b"9".to_vec());
    assert_eq!(
        pq.peek(&storage, Order::Descending),
        Ok(Some((255, "9".to_string())))
    );
    pq.push(&mut storage, 4, &"four".to_string()).unwrap();
    assert_eq!(
        pq.peek(&storage, Order::Ascending),
        Ok(Some((4, "four".to_string())))
    );
    let counter: Item<usize, KeyEncoding> = Item::new(b"q");
    counter.save(&mut storage, &1).unwrap();
    assert_eq!(
        pq.peek(&storage, Order::Ascending),
        Ok(Some((4, "four".to_string())))
    );
}

#[test]
fn borsh_values_have_the_borsh_form() {
    assert_eq!(
        encode::<BorshEncoding>(&"baz".to_string()),
        Ok(vec![3, 0, 0, 0, b'b', b'a', b'z'])
    );
    assert_eq!(
        decode::<String, BorshEncoding>(&[2, 0, 0, 0, b'h', b'i']),
        Ok("hi".to_string())
    );
    assert_eq!(decode::<String, BorshEncoding>(&[0, 0, 0, 0]), Ok(String::new()));
    assert_eq!(
        decode::<String, BorshEncoding>(&[2, 0, 0, 0, b'h']),
        Err(BorshError::Malformed)
    );
    assert_eq!(
        decode::<String, BorshEncoding>(&[1, 0, 0, 0, b'h', b'i']),
        Err(BorshError::Malformed)
    );
    assert_eq!(
        decode::<String, BorshEncoding>(&[1, 0, 0, 0, 0xFF]),
        Err(BorshError::Malformed)
    );
    assert_eq!(decode::<String, BorshEncoding>(&[1, 0]), Err(BorshError::Malformed));
}

#[test]
fn items_keep_borsh_values() {
    let names: TypedMap<u8, Item<String, BorshEncoding>> = TypedMap::new(b"n");
    let mut storage = MemoryStorage::new();
    names.at(1).unwrap().save(&mut storage, &"ada".to_string()).unwrap();
    assert_eq!(
        storage.get_raw(&[b'n', 1]),
        Some(vec![3, 0, 0, 0, b'a', b'd', b'a'])
    );
    assert_eq!(names.at(1).unwrap().may_load(&storage), Ok(Some("ada".to_string())));
    storage.set_raw(vec![b'n', 2], vec![1, 2]);
    assert_eq!(
        names.at(2).unwrap().may_load(&storage),
        Err(StorageError::ValueDeserialize(BorshError::Malformed))
    );
    storage.set_raw(vec![b'n', 3], vec![1, 0, 0, 0, b'x', b'y']);
    assert_eq!(
        names.at(3).unwrap().may_load(&storage),
        Err(StorageError::ValueDeserialize(BorshError::Malformed))
    );
}

#[test]
fn item_under_given_bytes() {
    let raw: Item<String, DisplayEncoding> =
        Item::with_key(typed_kv::KeyType::<String>::Raw(b"plain".to_vec())).unwrap();
    assert_eq!(raw.key(), b"plain");
    let same: Item<String, DisplayEncoding> = Item::with_prefix(b"plain".to_vec());
    let mut storage = MemoryStorage::new();
    raw.save(&mut storage, &"v".to_string()).unwrap();
    assert_eq!(same.may_load(&storage), Ok(Some("v".to_string())));
    assert_eq!(storage.get_raw(b"plain"), Some(b"v".to_vec()));
}

#[test]
fn map_reads_and_writes_under_a_key() {
    let map: TypedMap<u16, Item<String, DisplayEncoding>> = TypedMap::new(b"m");
    let mut storage = MemoryStorage::new();
    assert_eq!(map.may_load(&storage, &7), Ok(None));
    assert_eq!(map.save(&mut storage, &7, &"seven".to_string()), Ok(()));
    assert_eq!(map.may_load(&storage, &7), Ok(Some("seven".to_string())));
    assert_eq!(
        map.at(7).unwrap().may_load(&storage),
        Ok(Some("seven".to_string()))
    );
    assert_eq!(storage.get_raw(&[b'm', 0, 7]), Some(b"seven".to_vec()));
}

#[test]
fn walk_over_one_entry_of_a_map_of_text() {
    let entries = vec![(
        vec![0x66, 0x6f, 0x6f, 0x03, 0x62, 0x61, 0x72],
        b"baz".to_vec(),
    )];
    let mut iter: DsIter<TypedMap<String, Item<String, DisplayEncoding>>> =
        DsIter::new(b"foo".to_vec(), entries);
    assert_eq!(
        iter.next(),
        Some(Ok((CompoundKey("bar".to_string(), None), "baz".to_string())))
    );
    assert_eq!(iter.next(), None);
}

#[test]
fn bytes_after_the_key_of_an_item_do_not_hide_it() {
    let entries = vec![(vec![b'm', 0, 1, 9, 9], b"one".to_vec())];
    let mut iter: DsIter<TypedMap<u16, Item<String, DisplayEncoding>>> =
        DsIter::new(b"m".to_vec(), entries);
    assert_eq!(
        iter.next(),
        Some(Ok((CompoundKey(1u16, Some(())), "one".to_string())))
    );
    assert_eq!(iter.next(), None);
}
