use typed_kv::{
    is_empty_range, keys_raw, range_raw, Bound, DisplayEncoding, Item, IterableStorage, KeyEncoding,
    MemoryStorage, Order, Storage, StorageMut, TypedMap,
};

fn filled() -> MemoryStorage {
    let mut storage = MemoryStorage::new();
    for key in ["b", "a", "ab", "", "c", "b\u{0}"] {
        storage.set_raw(key.as_bytes().to_vec(), key.to_uppercase().into_bytes());
    }
    storage
}

#[test]
fn memory_storage_sets_gets_deletes() {
    let mut storage = MemoryStorage::new();
    assert_eq!(storage.len(), 0);
    assert_eq!(storage.get_raw(b"k"), None);
    storage.set_raw(b"k".to_vec(), b"1".to_vec());
    storage.set_raw(b"j".to_vec(), b"2".to_vec());
    storage.set_raw(b"k".to_vec(), b"3".to_vec());
    assert_eq!(storage.len(), 2);
    assert_eq!(storage.get_raw(b"k"), Some(b"3".to_vec()));
    assert_eq!(storage.get_raw(b"j"), Some(b"2".to_vec()));
    assert_eq!(storage.get_raw(b""), None);
    storage.delete_raw(b"k");
    storage.delete_raw(b"missing");
    assert_eq!(storage.get_raw(b"k"), None);
    assert_eq!(storage.len(), 1);
}

#[test]
fn memory_storage_takes_typed_keys() {
    let mut storage = MemoryStorage::new();
    storage.set(&"name".to_string(), b"v".to_vec()).unwrap();
    assert_eq!(storage.get_raw(&[4, b'n', b'a', b'm', b'e']), Some(b"v".to_vec()));
    assert_eq!(storage.get(&"name".to_string()), Ok(Some(b"v".to_vec())));
    assert_eq!(storage.get(&7u16), Ok(None));
    storage.delete(&"name".to_string()).unwrap();
    assert_eq!(storage.len(), 0);
}

#[test]
fn memory_storage_scans_in_key_order() {
    let storage = filled();
    let keys = storage.keys(Bound::Unbounded, Bound::Unbounded, Order::Ascending);
    assert_eq!(
        keys,
        vec![
            b"".to_vec(),
            b"a".to_vec(),
            b"ab".to_vec(),
            b"b".to_vec(),
            b"b\0".to_vec(),
            b"c".to_vec()
        ]
    );
    let back = storage.keys(Bound::Unbounded, Bound::Unbounded, Order::Descending);
    let mut reversed = keys.clone();
    reversed.reverse();
    assert_eq!(back, reversed);
    let entries = storage.iter(
        Bound::Included(b"a".to_vec()),
        Bound::Excluded(b"b".to_vec()),
        Order::Ascending,
    );
    assert_eq!(
        entries,
        vec![(b"a".to_vec(), b"A".to_vec()), (b"ab".to_vec(), b"AB".to_vec())]
    );
    let entries = storage.iter(
        Bound::Excluded(b"a".to_vec()),
        Bound::Included(b"b".to_vec()),
        Order::Descending,
    );
    assert_eq!(
        entries,
        vec![(b"b".to_vec(), b"B".to_vec()), (b"ab".to_vec(), b"AB".to_vec())]
    );
    let none = storage.iter(
        Bound::Included(b"x".to_vec()),
        Bound::Excluded(b"x".to_vec()),
        Order::Ascending,
    );
    assert!(none.is_empty());
}

#[test]
fn empty_ranges_are_told_apart() {
    let k = |s: &str| s.as_bytes().to_vec();
    assert!(is_empty_range(&Bound::Excluded(k("x")), &Bound::Excluded(k("x"))));
    assert!(is_empty_range(&Bound::Excluded(k("y")), &Bound::Excluded(k("x"))));
    assert!(is_empty_range(&Bound::Included(k("y")), &Bound::Included(k("x"))));
    assert!(is_empty_range(&Bound::Included(k("y")), &Bound::Excluded(k("x"))));
    assert!(is_empty_range(&Bound::Excluded(k("y")), &Bound::Included(k("x"))));
    assert!(!is_empty_range(&Bound::Included(k("x")), &Bound::Included(k("x"))));
    assert!(!is_empty_range(&Bound::Included(k("x")), &Bound::Excluded(k("x"))));
    assert!(!is_empty_range(&Bound::Excluded(k("x")), &Bound::Included(k("x"))));
    assert!(!is_empty_range(&Bound::Excluded(k("x")), &Bound::Excluded(k("xa"))));
    assert!(!is_empty_range(&Bound::Unbounded, &Bound::Excluded(k(""))));
    assert!(!is_empty_range(&Bound::Included(k("z")), &Bound::Unbounded));
    assert!(!is_empty_range(&Bound::<Vec<u8>>::Unbounded, &Bound::Unbounded));
}

#[test]
fn kinds_are_told() {
    assert!(<typed_kv::Terminal as typed_kv::ContainerType>::leaf());
    assert!(!<typed_kv::NonTerminal as typed_kv::ContainerType>::leaf());
}

#[test]
fn empty_range_hands_out_nothing() {
    let map: TypedMap<u16, Item<String, DisplayEncoding>> = TypedMap::new(b"m");
    let mut storage = MemoryStorage::new();
    for i in 0..4u16 {
        map.at(i).unwrap().save(&mut storage, &format!("v{}", i)).unwrap();
    }
    for (start, end) in [
        (Bound::Excluded(2u16), Bound::Excluded(2u16)),
        (Bound::Included(3), Bound::Included(1)),
        (Bound::Included(3), Bound::Excluded(1)),
        (Bound::Excluded(3), Bound::Included(1)),
        (Bound::Excluded(3), Bound::Excluded(1)),
    ] {
        for order in [Order::Ascending, Order::Descending] {
            let mut iter = map.range(&storage, start_of(&start), start_of(&end), order).unwrap();
            assert!(iter.next().is_none());
        }
    }
    let mut iter = map
        .range(&storage, Bound::Included(1), Bound::Included(1), Order::Ascending)
        .unwrap();
    assert!(iter.next().is_some());
    assert!(iter.next().is_none());
    let mut iter = map
        .range(&storage, Bound::Included(1), Bound::Excluded(1), Order::Ascending)
        .unwrap();
    assert!(iter.next().is_none());
}

fn start_of(bound: &Bound<u16>) -> Bound<u16> {
    match bound {
        Bound::Included(k) => Bound::Included(*k),
        Bound::Excluded(k) => Bound::Excluded(*k),
        Bound::Unbounded => Bound::Unbounded,
    }
}

#[test]
fn counter_item_uses_the_key_encoding() {
    let counter: Item<usize, KeyEncoding> = Item::new(b"n");
    let mut storage = MemoryStorage::new();
    counter.save(&mut storage, &258).unwrap();
    assert_eq!(
        storage.get_raw(&[1, b'n']),
        Some(258usize.to_be_bytes().to_vec())
    );
    assert_eq!(counter.may_load(&storage), Ok(Some(258)));
}

#[test]
fn guarded_scan_gives_nothing_for_an_empty_range() {
    let storage = filled();
    let k = |s: &str| s.as_bytes().to_vec();
    assert!(range_raw(
        &storage,
        Bound::Excluded(k("a")),
        Bound::Excluded(k("a")),
        Order::Ascending
    )
    .is_empty());
    assert!(range_raw(
        &storage,
        Bound::Included(k("c")),
        Bound::Included(k("a")),
        Order::Descending
    )
    .is_empty());
    assert_eq!(
        range_raw(
            &storage,
            Bound::Included(k("b")),
            Bound::Unbounded,
            Order::Descending
        ),
        vec![
            (k("c"), k("C")),
            (k("b\0"), k("B\0")),
            (k("b"), k("B"))
        ]
    );
}

struct Lcg(u64);

impl Lcg {
    fn next(&mut self) -> u64 {
        self.0 = self
            .0
            .wrapping_mul(6364136223846793005)
            .wrapping_add(1442695040888963407);
        self.0 >> 33
    }

    fn key(&mut self) -> Vec<u8> {
        let len = (self.next() % 4) as usize;
        (0..len).map(|_| (self.next() % 3) as u8 * 127).collect()
    }

    fn bound(&mut self) -> Bound<Vec<u8>> {
        match self.next() % 3 {
            0 => Bound::Included(self.key()),
            1 => Bound::Excluded(self.key()),
            _ => Bound::Unbounded,
        }
    }
}

fn std_bound(bound: &Bound<Vec<u8>>) -> std::ops::Bound<Vec<u8>> {
    match bound {
        Bound::Included(k) => std::ops::Bound::Included(k.clone()),
        Bound::Excluded(k) => std::ops::Bound::Excluded(k.clone()),
        Bound::Unbounded => std::ops::Bound::Unbounded,
    }
}

fn copy_of(bound: &Bound<Vec<u8>>) -> Bound<Vec<u8>> {
    match bound {
        Bound::Included(k) => Bound::Included(k.clone()),
        Bound::Excluded(k) => Bound::Excluded(k.clone()),
        Bound::Unbounded => Bound::Unbounded,
    }
}

#[test]
fn memory_storage_behaves_as_a_sorted_map() {
    let mut rng = Lcg(7);
    let mut storage = MemoryStorage::new();
    let mut model: std::collections::BTreeMap<Vec<u8>, Vec<u8>> =
        std::collections::BTreeMap::new();
    for round in 0..2000u32 {
        let key = rng.key();
        match rng.next() % 4 {
            0 | 1 => {
                let value = round.to_be_bytes().to_vec();
                storage.set_raw(key.clone(), value.clone());
                model.insert(key, value);
            }
            2 => {
                storage.delete_raw(&key);
                model.remove(&key);
            }
            _ => {
                assert_eq!(storage.get_raw(&key), model.get(&key).cloned());
            }
        }
        assert_eq!(storage.len(), model.len());
        if round % 10 == 0 {
            let low = rng.bound();
            let high = rng.bound();
            let empty = is_empty_range(&low, &high);
            let expected: Vec<(Vec<u8>, Vec<u8>)> = if empty {
                Vec::new()
            } else {
                model
                    .range((std_bound(&low), std_bound(&high)))
                    .map(|(k, v)| (k.clone(), v.clone()))
                    .collect()
            };
            let mut backward = expected.clone();
            backward.reverse();
            assert_eq!(
                range_raw(&storage, copy_of(&low), copy_of(&high), Order::Ascending),
                expected
            );
            assert_eq!(
                range_raw(&storage, copy_of(&low), copy_of(&high), Order::Descending),
                backward
            );
            if !empty {
                let keys: Vec<Vec<u8>> = expected.iter().map(|(k, _)| k.clone()).collect();
                assert_eq!(storage.keys(low, high, Order::Ascending), keys);
            }
        }
    }
}

#[test]
fn guarded_key_scan_gives_nothing_for_an_empty_range() {
    let storage = filled();
    let k = |s: &str| s.as_bytes().to_vec();
    assert!(keys_raw(
        &storage,
        Bound::Excluded(k("a")),
        Bound::Excluded(k("a")),
        Order::Ascending
    )
    .is_empty());
    assert!(keys_raw(
        &storage,
        Bound::Included(k("c")),
        Bound::Excluded(k("a")),
        Order::Descending
    )
    .is_empty());
    assert_eq!(
        keys_raw(
            &storage,
            Bound::Excluded(k("a")),
            Bound::Included(k("b")),
            Order::Ascending
        ),
        vec![k("ab"), k("b")]
    );
    assert_eq!(
        keys_raw(&storage, Bound::Unbounded, Bound::Excluded(k("a")), Order::Descending),
        vec![k("")]
    );
}
