//! A store in memory: the entries in a vector, kept in the order of their keys.
use vstd::prelude::*;
use vstd::slice::slice_to_vec;
use crate::order::{
    bytes_equal, lemma_lex_lt_irreflexive, lemma_lex_lt_total, lemma_lex_lt_transitive, lex_less,
    lex_lt,
};
use crate::storage::{
    clone_k, clone_kv, comes_before, entries_view, in_range, is_key_scan, is_scan, keys_of,
    keys_view, raw_bound, within, Bound, IterableStorage, Order, Storage, StorageMut,
};

verus! {

/// The keys of `entries` go strictly upward.
pub open spec fn strictly_sorted(entries: Seq<(Seq<u8>, Seq<u8>)>) -> bool {
    forall|i: int, j: int|
        0 <= i < j < entries.len() ==> lex_lt((#[trigger] entries[i]).0, (#[trigger] entries[j]).0)
}

/// Some entry of `entries` has the key `key`.
pub open spec fn holds(entries: Seq<(Seq<u8>, Seq<u8>)>, key: Seq<u8>) -> bool {
    exists|i: int| 0 <= i < entries.len() && (#[trigger] entries[i]).0 == key
}

/// The place of an entry with the key `key`.
pub open spec fn index_of(entries: Seq<(Seq<u8>, Seq<u8>)>, key: Seq<u8>) -> int {
    choose|i: int| 0 <= i < entries.len() && (#[trigger] entries[i]).0 == key
}

/// The map that a sequence of entries with different keys stands for.
pub open spec fn map_of(entries: Seq<(Seq<u8>, Seq<u8>)>) -> Map<Seq<u8>, Seq<u8>> {
    Map::new(|key: Seq<u8>| holds(entries, key), |key: Seq<u8>| entries[index_of(entries, key)].1)
}

/// In a sorted sequence no two entries have the same key.
pub proof fn lemma_sorted_keys_differ(entries: Seq<(Seq<u8>, Seq<u8>)>, i: int, j: int)
    requires
        strictly_sorted(entries),
        0 <= i < entries.len(),
        0 <= j < entries.len(),
        entries[i].0 == entries[j].0,
    ensures
        i == j,
{
    lemma_lex_lt_irreflexive(entries[i].0);
    if i < j {
        assert(lex_lt(entries[i].0, entries[j].0));
    } else if j < i {
        assert(lex_lt(entries[j].0, entries[i].0));
    }
}

/// The map of a sorted sequence holds each entry under its key.
pub proof fn lemma_map_of_entry(entries: Seq<(Seq<u8>, Seq<u8>)>, i: int)
    requires
        strictly_sorted(entries),
        0 <= i < entries.len(),
    ensures
        map_of(entries).contains_key(entries[i].0),
        map_of(entries)[entries[i].0] == entries[i].1,
{
    assert(holds(entries, entries[i].0));
    lemma_sorted_keys_differ(entries, i, index_of(entries, entries[i].0));
}

/// A sorted sequence with one more entry, put where its key belongs, stands
/// for the map with that entry added.
proof fn lemma_insert_entry(entries: Seq<(Seq<u8>, Seq<u8>)>, at: int, key: Seq<u8>, value: Seq<u8>)
    requires
        strictly_sorted(entries),
        0 <= at <= entries.len(),
        forall|j: int| 0 <= j < at ==> lex_lt((#[trigger] entries[j]).0, key),
        forall|j: int| at <= j < entries.len() ==> lex_lt(key, (#[trigger] entries[j]).0),
    ensures
        strictly_sorted(entries.insert(at, (key, value))),
        map_of(entries.insert(at, (key, value))) == map_of(entries).insert(key, value),
{
    let grown = entries.insert(at, (key, value));
    assert forall|i: int, j: int| 0 <= i < j < grown.len() implies lex_lt(
        (#[trigger] grown[i]).0,
        (#[trigger] grown[j]).0,
    ) by {
        let before_i = if i < at {
            i
        } else {
            i - 1
        };
        let before_j = if j < at {
            j
        } else {
            j - 1
        };
        if i == at {
            assert(grown[j] == entries[before_j]);
        } else if j == at {
            assert(grown[i] == entries[before_i]);
        } else {
            assert(grown[i] == entries[before_i]);
            assert(grown[j] == entries[before_j]);
        }
    }
    lemma_lex_lt_irreflexive(key);
    assert forall|k: Seq<u8>| holds(grown, k) <==> (holds(entries, k) || k == key) by {
        if holds(grown, k) {
            let i = index_of(grown, k);
            if i < at {
                assert(grown[i] == entries[i]);
            } else if i > at {
                assert(grown[i] == entries[i - 1]);
            }
        }
        if holds(entries, k) {
            let i = index_of(entries, k);
            if i < at {
                assert(grown[i] == entries[i]);
            } else {
                assert(grown[i + 1] == entries[i]);
            }
        }
        if k == key {
            assert(grown[at].0 == key);
        }
    }
    assert forall|k: Seq<u8>| holds(grown, k) implies #[trigger] map_of(grown)[k] == map_of(
        entries,
    ).insert(key, value)[k] by {
        let i = index_of(grown, k);
        lemma_map_of_entry(grown, i);
        if i < at {
            assert(grown[i] == entries[i]);
            lemma_map_of_entry(entries, i);
        } else if i > at {
            assert(grown[i] == entries[i - 1]);
            lemma_map_of_entry(entries, i - 1);
        }
    }
    assert(map_of(grown) =~= map_of(entries).insert(key, value));
}

/// A sorted sequence with a new value in one entry stands for the map with
/// that value under the entry's key.
proof fn lemma_update_entry(entries: Seq<(Seq<u8>, Seq<u8>)>, at: int, value: Seq<u8>)
    requires
        strictly_sorted(entries),
        0 <= at < entries.len(),
    ensures
        strictly_sorted(entries.update(at, (entries[at].0, value))),
        map_of(entries.update(at, (entries[at].0, value))) == map_of(entries).insert(
            entries[at].0,
            value,
        ),
{
    let key = entries[at].0;
    let changed = entries.update(at, (key, value));
    assert forall|i: int, j: int| 0 <= i < j < changed.len() implies lex_lt(
        (#[trigger] changed[i]).0,
        (#[trigger] changed[j]).0,
    ) by {
        assert(changed[i].0 == entries[i].0);
        assert(changed[j].0 == entries[j].0);
    }
    assert forall|k: Seq<u8>| holds(changed, k) <==> (holds(entries, k) || k == key) by {
        if holds(changed, k) {
            let i = index_of(changed, k);
            assert(changed[i].0 == entries[i].0);
        }
        if holds(entries, k) {
            let i = index_of(entries, k);
            assert(changed[i].0 == entries[i].0);
        }
        if k == key {
            assert(changed[at].0 == key);
        }
    }
    assert forall|k: Seq<u8>| holds(changed, k) implies #[trigger] map_of(changed)[k] == map_of(
        entries,
    ).insert(key, value)[k] by {
        let i = index_of(changed, k);
        lemma_map_of_entry(changed, i);
        if i != at {
            assert(changed[i] == entries[i]);
            lemma_map_of_entry(entries, i);
            if entries[i].0 == key {
                lemma_sorted_keys_differ(entries, i, at);
            }
        }
    }
    assert(map_of(changed) =~= map_of(entries).insert(key, value));
}

/// A sorted sequence without one of its entries stands for the map without
/// that entry's key.
proof fn lemma_remove_entry(entries: Seq<(Seq<u8>, Seq<u8>)>, at: int)
    requires
        strictly_sorted(entries),
        0 <= at < entries.len(),
    ensures
        strictly_sorted(entries.remove(at)),
        map_of(entries.remove(at)) == map_of(entries).remove(entries[at].0),
{
    let key = entries[at].0;
    let rest = entries.remove(at);
    assert forall|i: int, j: int| 0 <= i < j < rest.len() implies lex_lt(
        (#[trigger] rest[i]).0,
        (#[trigger] rest[j]).0,
    ) by {
        let before_i = if i < at {
            i
        } else {
            i + 1
        };
        let before_j = if j < at {
            j
        } else {
            j + 1
        };
        assert(rest[i] == entries[before_i]);
        assert(rest[j] == entries[before_j]);
    }
    assert forall|k: Seq<u8>| holds(rest, k) <==> (holds(entries, k) && k != key) by {
        if holds(rest, k) {
            let i = index_of(rest, k);
            let before = if i < at {
                i
            } else {
                i + 1
            };
            assert(rest[i] == entries[before]);
            if k == key {
                lemma_sorted_keys_differ(entries, before, at);
            }
        }
        if holds(entries, k) && k != key {
            let i = index_of(entries, k);
            if i < at {
                assert(rest[i] == entries[i]);
            } else {
                assert(rest[i - 1] == entries[i]);
            }
        }
    }
    assert forall|k: Seq<u8>| holds(rest, k) implies #[trigger] map_of(rest)[k] == map_of(
        entries,
    ).remove(key)[k] by {
        let i = index_of(rest, k);
        let before = if i < at {
            i
        } else {
            i + 1
        };
        lemma_map_of_entry(rest, i);
        assert(rest[i] == entries[before]);
        lemma_map_of_entry(entries, before);
    }
    assert(map_of(rest) =~= map_of(entries).remove(key));
}

/// A store in memory. Its entries are kept in the lexicographic order of
/// their keys, so that a scan hands them out as it finds them.
#[derive(Debug)]
pub struct MemoryStorage {
    entries: Vec<(Vec<u8>, Vec<u8>)>,
}

impl View for MemoryStorage {
    type V = Map<Seq<u8>, Seq<u8>>;

    closed spec fn view(&self) -> Map<Seq<u8>, Seq<u8>> {
        map_of(entries_view(self.entries@))
    }
}

impl MemoryStorage {
    #[verifier::type_invariant]
    spec fn well_formed(&self) -> bool {
        strictly_sorted(entries_view(self.entries@))
    }

    /// A store that holds nothing.
    pub fn new() -> (store: Self)
        ensures
            store@ == Map::<Seq<u8>, Seq<u8>>::empty(),
    {
        let store = MemoryStorage { entries: Vec::new() };
        proof {
            assert(store@ =~= Map::<Seq<u8>, Seq<u8>>::empty());
        }
        store
    }

    /// The number of entries in the store.
    pub fn len(&self) -> (n: usize)
        ensures
            n == self@.dom().len(),
            self@.dom().finite(),
    {
        proof {
            use_type_invariant(self);
            lemma_map_of_size(entries_view(self.entries@));
        }
        self.entries.len()
    }

    /// The place of the first entry whose key is not below `key`.
    fn lower_bound(&self, key: &[u8]) -> (at: usize)
        ensures
            at <= self.entries@.len(),
            forall|j: int| 0 <= j < at ==> lex_lt((#[trigger] self.entries@[j]).0@, key@),
            forall|j: int|
                at <= j < self.entries@.len() ==> !lex_lt((#[trigger] self.entries@[j]).0@, key@),
    {
        proof {
            use_type_invariant(self);
        }
        let mut low: usize = 0;
        let mut high: usize = self.entries.len();
        while low < high
            invariant
                0 <= low <= high <= self.entries@.len(),
                strictly_sorted(entries_view(self.entries@)),
                forall|j: int| 0 <= j < low ==> lex_lt((#[trigger] self.entries@[j]).0@, key@),
                forall|j: int|
                    high <= j < self.entries@.len() ==> !lex_lt(
                        (#[trigger] self.entries@[j]).0@,
                        key@,
                    ),
            decreases high - low,
        {
            let middle = low + (high - low) / 2;
            let ghost model = entries_view(self.entries@);
            if lex_less(self.entries[middle].0.as_slice(), key) {
                proof {
                    assert forall|j: int| 0 <= j < middle + 1 implies lex_lt(
                        (#[trigger] self.entries@[j]).0@,
                        key@,
                    ) by {
                        if j < middle {
                            assert(lex_lt(model[j].0, model[middle as int].0));
                            lemma_lex_lt_transitive(model[j].0, model[middle as int].0, key@);
                        }
                    }
                }
                low = middle + 1;
            } else {
                proof {
                    assert forall|j: int| middle <= j < self.entries@.len() implies !lex_lt(
                        (#[trigger] self.entries@[j]).0@,
                        key@,
                    ) by {
                        if j > middle && lex_lt(model[j].0, key@) {
                            assert(lex_lt(model[middle as int].0, model[j].0));
                            lemma_lex_lt_transitive(model[middle as int].0, model[j].0, key@);
                        }
                    }
                }
                high = middle;
            }
        }
        low
    }

    /// Whether an entry with the key `key` stands at `at`, the place where
    /// the key belongs.
    fn found_at(&self, at: usize, key: &[u8]) -> (found: bool)
        requires
            at <= self.entries@.len(),
            forall|j: int| 0 <= j < at ==> lex_lt((#[trigger] self.entries@[j]).0@, key@),
            forall|j: int|
                at <= j < self.entries@.len() ==> !lex_lt((#[trigger] self.entries@[j]).0@, key@),
        ensures
            found == self@.contains_key(key@),
            found ==> at < self.entries@.len() && self.entries@[at as int].0@ == key@ && self@[key@]
                == self.entries@[at as int].1@,
            !found ==> forall|j: int|
                at <= j < self.entries@.len() ==> lex_lt(key@, (#[trigger] self.entries@[j]).0@),
    {
        let ghost model = entries_view(self.entries@);
        proof {
            use_type_invariant(self);
        }
        let found = at < self.entries.len() && bytes_equal(self.entries[at].0.as_slice(), key);
        proof {
            if found {
                lemma_map_of_entry(model, at as int);
            } else {
                assert forall|j: int| at <= j < self.entries@.len() implies lex_lt(
                    key@,
                    (#[trigger] self.entries@[j]).0@,
                ) by {
                    lemma_lex_lt_total(key@, model[j].0);
                    if model[j].0 == key@ {
                        assert(lex_lt(model[at as int].0, model[j].0));
                    }
                }
                if holds(model, key@) {
                    let j = index_of(model, key@);
                    lemma_lex_lt_irreflexive(key@);
                    if j < at {
                        assert(lex_lt(self.entries@[j].0@, key@));
                    } else {
                        assert(lex_lt(key@, self.entries@[j].0@));
                    }
                }
            }
        }
        found
    }
}

/// The map of a sorted sequence has as many keys as the sequence has entries.
proof fn lemma_map_of_size(entries: Seq<(Seq<u8>, Seq<u8>)>)
    requires
        strictly_sorted(entries),
    ensures
        map_of(entries).dom().finite(),
        map_of(entries).dom().len() == entries.len(),
    decreases entries.len(),
{
    if entries.len() == 0 {
        assert(map_of(entries).dom() =~= Set::<Seq<u8>>::empty());
    } else {
        let last = (entries.len() - 1) as int;
        lemma_remove_entry(entries, last);
        let rest = entries.remove(last);
        assert(rest =~= entries.drop_last());
        lemma_map_of_size(rest);
        lemma_map_of_entry(entries, last);
        assert(map_of(entries).dom() =~= map_of(rest).dom().insert(entries[last].0));
    }
}

impl Storage for MemoryStorage {
    fn get_raw(&self, key: &[u8]) -> (r: Option<Vec<u8>>) {
        let at = self.lower_bound(key);
        if self.found_at(at, key) {
            Some(slice_to_vec(self.entries[at].1.as_slice()))
        } else {
            None
        }
    }
}

impl StorageMut for MemoryStorage {
    fn set_raw(&mut self, key: Vec<u8>, value: Vec<u8>) {
        let at = self.lower_bound(key.as_slice());
        let found = self.found_at(at, key.as_slice());
        let ghost before = entries_view(self.entries@);
        proof {
            use_type_invariant(&*self);
        }
        if found {
            proof {
                lemma_update_entry(before, at as int, value@);
                let changed = self.entries@.update(at as int, (key, value));
                assert(entries_view(changed) =~= before.update(at as int, (key@, value@)));
            }
            let mut entries: Vec<(Vec<u8>, Vec<u8>)> = Vec::new();
            core::mem::swap(&mut self.entries, &mut entries);
            entries.set(at, (key, value));
            self.entries = entries;
        } else {
            proof {
                lemma_insert_entry(before, at as int, key@, value@);
                let grown = self.entries@.insert(at as int, (key, value));
                assert(entries_view(grown) =~= before.insert(at as int, (key@, value@)));
            }
            let mut entries: Vec<(Vec<u8>, Vec<u8>)> = Vec::new();
            core::mem::swap(&mut self.entries, &mut entries);
            entries.insert(at, (key, value));
            self.entries = entries;
        }
    }

    fn delete_raw(&mut self, key: &[u8]) {
        let at = self.lower_bound(key);
        let found = self.found_at(at, key);
        let ghost before = entries_view(self.entries@);
        proof {
            use_type_invariant(&*self);
        }
        if found {
            proof {
                lemma_remove_entry(before, at as int);
                assert(entries_view(self.entries@.remove(at as int)) =~= before.remove(at as int));
            }
            let mut entries: Vec<(Vec<u8>, Vec<u8>)> = Vec::new();
            core::mem::swap(&mut self.entries, &mut entries);
            entries.remove(at);
            self.entries = entries;
        } else {
            proof {
                assert(self@.remove(key@) =~= self@);
            }
        }
    }
}

impl MemoryStorage {
    /// The entries whose keys lie between the two ends, in the direction
    /// `order`: one walk over the entries, from the front or from the back.
    fn scan(&self, low: &Bound<Vec<u8>>, high: &Bound<Vec<u8>>, order: Order) -> (r: Vec<
        (Vec<u8>, Vec<u8>),
    >)
        ensures
            is_scan(entries_view(r@), self@, raw_bound(*low), raw_bound(*high), order),
    {
        let ghost model = entries_view(self.entries@);
        let ghost lo = raw_bound(*low);
        let ghost hi = raw_bound(*high);
        proof {
            use_type_invariant(self);
        }
        let mut found: Vec<(Vec<u8>, Vec<u8>)> = Vec::new();
        let ghost mut origin: Seq<int> = Seq::empty();
        let n = self.entries.len();
        let mut step: usize = 0;
        while step < n
            invariant
                0 <= step <= n,
                n == self.entries@.len(),
                model == entries_view(self.entries@),
                lo == raw_bound(*low),
                hi == raw_bound(*high),
                strictly_sorted(model),
                origin.len() == found@.len(),
                forall|a: int|
                    0 <= a < origin.len() ==> 0 <= #[trigger] origin[a] < n && walked(
                        origin[a],
                        step as int,
                        n as int,
                        order,
                    ) && entries_view(found@)[a] == model[origin[a]] && in_range(
                        lo,
                        hi,
                        model[origin[a]].0,
                    ),
                forall|a: int, b: int|
                    0 <= a < b < origin.len() ==> comes_before(
                        model[#[trigger] origin[a]].0,
                        model[#[trigger] origin[b]].0,
                        order,
                    ),
                forall|j: int|
                    0 <= j < n && walked(j, step as int, n as int, order) && in_range(
                        lo,
                        hi,
                        (#[trigger] model[j]).0,
                    ) ==> origin.contains(j),
            decreases n - step,
        {
            let at = match order {
                Order::Ascending => step,
                Order::Descending => n - 1 - step,
            };
            if within(low, high, self.entries[at].0.as_slice()) {
                let entry = clone_kv((&self.entries[at].0, &self.entries[at].1));
                proof {
                    let ghost grown = origin.push(at as int);
                    assert forall|a: int, b: int| 0 <= a < b < grown.len() implies comes_before(
                        model[#[trigger] grown[a]].0,
                        model[#[trigger] grown[b]].0,
                        order,
                    ) by {
                        if b == origin.len() {
                            assert(walked(origin[a], step as int, n as int, order));
                            if order is Ascending {
                                assert(lex_lt(model[origin[a]].0, model[at as int].0));
                            } else {
                                assert(lex_lt(model[at as int].0, model[origin[a]].0));
                            }
                        }
                    }
                    assert forall|j: int|
                        0 <= j < n && walked(j, step + 1, n as int, order) && in_range(
                            lo,
                            hi,
                            (#[trigger] model[j]).0,
                        ) implies grown.contains(j) by {
                        if j == at {
                            assert(grown[origin.len() as int] == j);
                        } else {
                            assert(walked(j, step as int, n as int, order));
                            let a = choose|a: int| 0 <= a < origin.len() && origin[a] == j;
                            assert(grown[a] == j);
                        }
                    }
                    origin = grown;
                }
                found.push(entry);
                proof {
                    assert forall|a: int| 0 <= a < origin.len() implies entries_view(found@)[a]
                        == model[#[trigger] origin[a]] by {
                        if a < origin.len() - 1 {
                            assert(entries_view(found@)[a] == entries_view(found@.drop_last())[a]);
                        }
                    }
                }
            } else {
                proof {
                    assert forall|j: int|
                        0 <= j < n && walked(j, step + 1, n as int, order) && in_range(
                            lo,
                            hi,
                            (#[trigger] model[j]).0,
                        ) implies origin.contains(j) by {
                        assert(j != at);
                        assert(walked(j, step as int, n as int, order));
                    }
                }
            }
            step = step + 1;
        }
        proof {
            let result = entries_view(found@);
            let keys = keys_of(result);
            assert forall|i: int| 0 <= i < keys.len() implies self@.contains_key(
                #[trigger] keys[i],
            ) && in_range(lo, hi, keys[i]) by {
                assert(result[i] == model[origin[i]]);
                lemma_map_of_entry(model, origin[i]);
            }
            assert forall|i: int| 0 <= i < result.len() implies self@[(#[trigger] result[i]).0]
                == result[i].1 by {
                assert(result[i] == model[origin[i]]);
                lemma_map_of_entry(model, origin[i]);
            }
            assert forall|key: Seq<u8>| #[trigger]
                self@.contains_key(key) && in_range(lo, hi, key) implies keys.contains(key) by {
                let j = index_of(model, key);
                assert(model[j].0 == key);
                assert(walked(j, n as int, n as int, order));
                assert(origin.contains(j));
                let a = choose|a: int| 0 <= a < origin.len() && origin[a] == j;
                assert(result[a] == model[origin[a]]);
                assert(keys[a] == key);
            }
            assert forall|i: int, j: int| 0 <= i < j < keys.len() implies comes_before(
                #[trigger] keys[i],
                #[trigger] keys[j],
                order,
            ) by {
                assert(result[i] == model[origin[i]]);
                assert(result[j] == model[origin[j]]);
            }
            assert(is_key_scan(keys, self@, lo, hi, order));
        }
        found
    }
}

/// Whether a scan in the direction `order` over `n` entries has come past the
/// place `j` after `step` steps.
pub open spec fn walked(j: int, step: int, n: int, order: Order) -> bool {
    match order {
        Order::Ascending => j < step,
        Order::Descending => j >= n - step,
    }
}

impl IterableStorage for MemoryStorage {
    fn keys(&self, low: Bound<Vec<u8>>, high: Bound<Vec<u8>>, order: Order) -> (r: Vec<Vec<u8>>) {
        let entries = self.scan(&low, &high, order);
        let mut keys: Vec<Vec<u8>> = Vec::new();
        let mut i: usize = 0;
        while i < entries.len()
            invariant
                0 <= i <= entries@.len(),
                keys@.len() == i,
                forall|a: int| 0 <= a < i ==> (#[trigger] keys@[a])@ == entries@[a].0@,
            decreases entries@.len() - i,
        {
            keys.push(clone_k((&entries[i].0, &entries[i].1)));
            i = i + 1;
        }
        proof {
            assert(keys_view(keys@) =~= keys_of(entries_view(entries@)));
        }
        keys
    }

    fn iter(&self, low: Bound<Vec<u8>>, high: Bound<Vec<u8>>, order: Order) -> (r: Vec<
        (Vec<u8>, Vec<u8>),
    >) {
        self.scan(&low, &high, order)
    }
}

} // verus!
