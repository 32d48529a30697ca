//! Containers: append-only sequences frozen generation by generation, and
//! ordered maps with integer keys.

use std::collections::HashMap;
use vstd::prelude::*;

verus! {

// ---------------------------------------------------------------------------
// Generations

/// An append-only sequence. What was appended since the last freeze can be told
/// from what is frozen; nothing that was appended ever changes.
pub struct GenerationVec<T> {
    items: Vec<T>,
    sealed: usize,
}

impl<T> View for GenerationVec<T> {
    type V = Seq<T>;

    closed spec fn view(&self) -> Seq<T> {
        self.items@
    }
}

impl<T> GenerationVec<T> {
    /// Only what was appended is frozen.
    pub closed spec fn wf(self) -> bool {
        self.sealed <= self.items@.len()
    }

    /// The number of items that are not frozen yet.
    pub closed spec fn unsealed(self) -> nat {
        (self.items@.len() - self.sealed) as nat
    }

    /// The items can be counted.
    pub proof fn lemma_len(self)
        requires
            self.wf(),
        ensures
            self@.len() <= usize::MAX,
    {
        assert(self.items.len() == self.items@.len());
    }

    /// A sequence without items.
    pub fn new() -> (r: Self)
        ensures
            r.wf(),
            r@ == Seq::<T>::empty(),
            r.unsealed() == 0,
    {
        GenerationVec { items: Vec::new(), sealed: 0 }
    }

    /// The number of items.
    pub fn len(&self) -> (r: usize)
        requires
            self.wf(),
        ensures
            r == self@.len(),
    {
        self.items.len()
    }

    /// Appends one item and returns its index.
    pub fn push(&mut self, item: T) -> (r: usize)
        requires
            old(self).wf(),
        ensures
            final(self).wf(),
            r == old(self)@.len(),
            final(self)@ == old(self)@.push(item),
            final(self).unsealed() == old(self).unsealed() + 1,
    {
        let id: usize = self.items.len();
        self.items.push(item);
        id
    }

    /// The item at an index, where there is one.
    pub fn get(&self, id: usize) -> (r: Option<&T>)
        requires
            self.wf(),
        ensures
            match r {
                Some(item) => id < self@.len() && *item == self@[id as int],
                None => id >= self@.len(),
            },
    {
        if id < self.items.len() {
            Some(&self.items[id])
        } else {
            None
        }
    }

    /// Freezes what was appended since the last freeze. The items stay where
    /// they are.
    pub fn seal(&mut self)
        requires
            old(self).wf(),
        ensures
            final(self).wf(),
            final(self)@ == old(self)@,
            final(self).unsealed() == 0,
    {
        self.sealed = self.items.len();
    }
}

// ---------------------------------------------------------------------------
// Ordered maps

/// An ordered map with integer keys, held as two parallel vectors with the keys
/// in ascending order.
pub struct RadixMap<V> {
    keys: Vec<u64>,
    values: Vec<V>,
}

/// The place of a key in an ascending key vector.
pub open spec fn place_of(keys: Seq<u64>, key: u64) -> int {
    choose|i: int| 0 <= i < keys.len() && keys[i] == key
}

/// The keys rise from each to the next.
pub open spec fn rising(keys: Seq<u64>) -> bool {
    forall|i: int, j: int| 0 <= i < j < keys.len() ==> #[trigger] keys[i] < #[trigger] keys[j]
}

proof fn lemma_place_of(keys: Seq<u64>, i: int)
    requires
        rising(keys),
        0 <= i < keys.len(),
    ensures
        place_of(keys, keys[i]) == i,
{
    let j = place_of(keys, keys[i]);
    assert(0 <= j < keys.len() && keys[j] == keys[i]);
    if j < i {
        assert(keys[j] < keys[i]);
    } else if i < j {
        assert(keys[i] < keys[j]);
    }
}

impl<V> View for RadixMap<V> {
    type V = Map<u64, V>;

    closed spec fn view(&self) -> Map<u64, V> {
        Map::new(
            |key: u64| self.keys@.contains(key),
            |key: u64| self.values@[place_of(self.keys@, key)],
        )
    }
}

impl<V> RadixMap<V> {
    /// The keys rise and each has a value.
    pub closed spec fn wf(self) -> bool {
        &&& self.keys@.len() == self.values@.len()
        &&& rising(self.keys@)
    }

    /// The keys in ascending order.
    pub closed spec fn spec_keys(self) -> Seq<u64> {
        self.keys@
    }

    /// A map without entries.
    pub fn new() -> (r: Self)
        ensures
            r.wf(),
            r@ == Map::<u64, V>::empty(),
            r.spec_keys() == Seq::<u64>::empty(),
    {
        let r = RadixMap { keys: Vec::new(), values: Vec::new() };
        assert(r@ =~= Map::<u64, V>::empty());
        r
    }

    /// The number of entries.
    pub fn len(&self) -> (r: usize)
        requires
            self.wf(),
        ensures
            r == self.spec_keys().len(),
            r == self@.len(),
            self@.dom().finite(),
    {
        proof {
            self.lemma_keys();
            self.spec_keys().unique_seq_to_set();
            assert(self.spec_keys().to_set() =~= self@.dom());
        }
        self.keys.len()
    }

    /// True where there are no entries.
    pub fn is_empty(&self) -> (r: bool)
        requires
            self.wf(),
        ensures
            r == (self@ == Map::<u64, V>::empty()),
            r == (self.spec_keys().len() == 0),
    {
        proof {
            if self.keys@.len() > 0 {
                assert(self@.dom().contains(self.keys@[0]));
            } else {
                assert(self@ =~= Map::<u64, V>::empty());
            }
        }
        self.keys.len() == 0
    }

    /// The ascending keys are the domain of the map, each once.
    pub proof fn lemma_keys(self)
        requires
            self.wf(),
        ensures
            rising(self.spec_keys()),
            self.spec_keys().no_duplicates(),
            forall|key: u64| self@.dom().contains(key) <==> #[trigger] self.spec_keys().contains(key),
    {
    }

    /// The first place whose key is not below `key`.
    fn lower_bound(&self, key: u64) -> (r: usize)
        requires
            self.wf(),
        ensures
            r <= self.keys@.len(),
            forall|i: int| 0 <= i < r ==> #[trigger] self.keys@[i] < key,
            forall|i: int| r <= i < self.keys@.len() ==> #[trigger] self.keys@[i] >= key,
    {
        let mut low: usize = 0;
        let mut high: usize = self.keys.len();
        while low < high
            invariant
                self.wf(),
                low <= high <= self.keys@.len(),
                forall|i: int| 0 <= i < low ==> #[trigger] self.keys@[i] < key,
                forall|i: int| high <= i < self.keys@.len() ==> #[trigger] self.keys@[i] >= key,
            decreases high - low,
        {
            let middle: usize = low + (high - low) / 2;
            if self.keys[middle] < key {
                assert forall|i: int| 0 <= i < middle + 1 implies #[trigger] self.keys@[i] < key by {
                    if i < middle {
                        assert(self.keys@[i] < self.keys@[middle as int]);
                    }
                }
                low = middle + 1;
            } else {
                assert forall|i: int| middle <= i < self.keys@.len() implies #[trigger] self.keys@[i]
                    >= key by {
                    if i > middle {
                        assert(self.keys@[middle as int] < self.keys@[i]);
                    }
                }
                high = middle;
            }
        }
        low
    }

    /// The value of a key, where it has one.
    pub fn get(&self, key: u64) -> (r: Option<&V>)
        requires
            self.wf(),
        ensures
            match r {
                Some(value) => self@.dom().contains(key) && *value == self@[key],
                None => !self@.dom().contains(key),
            },
    {
        let at: usize = self.lower_bound(key);
        if at < self.keys.len() && self.keys[at] == key {
            proof {
                assert(self.keys@.contains(key));
                lemma_place_of(self.keys@, at as int);
            }
            Some(&self.values[at])
        } else {
            proof {
                if self.keys@.contains(key) {
                    let i = place_of(self.keys@, key);
                    assert(self.keys@[i] == key);
                }
            }
            None
        }
    }

    /// True where the key has a value.
    pub fn contains(&self, key: u64) -> (r: bool)
        requires
            self.wf(),
        ensures
            r == self@.dom().contains(key),
    {
        self.get(key).is_some()
    }

    /// Gives a key a value.
    pub fn insert(&mut self, key: u64, value: V)
        requires
            old(self).wf(),
        ensures
            final(self).wf(),
            final(self)@ == old(self)@.insert(key, value),
    {
        let at: usize = self.lower_bound(key);
        let ghost keys = self.keys@;
        let ghost values = self.values@;
        if at < self.keys.len() && self.keys[at] == key {
            self.values.set(at, value);
            proof {
                assert forall|other: u64| keys.contains(other) && other != key implies place_of(
                    keys,
                    other,
                ) != at by {
                    let i = place_of(keys, other);
                    assert(keys[i] == other);
                }
                assert(keys.contains(key));
                lemma_place_of(keys, at as int);
                assert(self@ =~= old(self)@.insert(key, value));
            }
        } else {
            self.keys.insert(at, key);
            self.values.insert(at, value);
            proof {
                let after = self.keys@;
                assert forall|i: int, j: int| 0 <= i < j < after.len() implies #[trigger] after[i]
                    < #[trigger] after[j] by {
                    if i < at && j < at {
                        assert(keys[i] < keys[j]);
                    } else if i < at && j > at {
                        assert(keys[i] < keys[j - 1]);
                    } else if i > at {
                        assert(keys[i - 1] < keys[j - 1]);
                    } else if i == at {
                        assert(keys[j - 1] >= key);
                        if j - 1 > at {
                            assert(keys[at as int] < keys[j - 1]);
                        }
                    } else {
                        assert(keys[i] < key);
                    }
                }
                assert forall|other: u64| after.contains(other) == (keys.contains(other) || other
                    == key) by {
                    if keys.contains(other) {
                        let i = place_of(keys, other);
                        assert(keys[i] == other);
                        if i < at {
                            assert(after[i] == other);
                        } else {
                            assert(after[i + 1] == other);
                        }
                    }
                    if after.contains(other) {
                        let i = place_of(after, other);
                        assert(after[i] == other);
                        if i < at {
                            assert(keys[i] == other);
                        } else if i > at {
                            assert(keys[i - 1] == other);
                        }
                    }
                    assert(after[at as int] == key);
                }
                assert forall|other: u64| after.contains(other) implies self.values@[place_of(
                    after,
                    other,
                )] == old(self)@.insert(key, value)[other] by {
                    let i = place_of(after, other);
                    assert(after[i] == other);
                    if i < at {
                        assert(keys[i] == other);
                        lemma_place_of(keys, i);
                    } else if i > at {
                        assert(keys[i - 1] == other);
                        lemma_place_of(keys, i - 1);
                    }
                    if other == key {
                        lemma_place_of(after, at as int);
                    }
                }
                assert(self@ =~= old(self)@.insert(key, value));
            }
        }
    }

    /// Takes a key out and returns whether it had a value.
    pub fn remove(&mut self, key: u64) -> (r: bool)
        requires
            old(self).wf(),
        ensures
            final(self).wf(),
            final(self)@ == old(self)@.remove(key),
            r == old(self)@.dom().contains(key),
    {
        let at: usize = self.lower_bound(key);
        let ghost keys = self.keys@;
        if at < self.keys.len() && self.keys[at] == key {
            self.keys.remove(at);
            self.values.remove(at);
            proof {
                let after = self.keys@;
                assert(keys.contains(key));
                assert forall|i: int, j: int| 0 <= i < j < after.len() implies #[trigger] after[i]
                    < #[trigger] after[j] by {
                    let a = if i < at {
                        i
                    } else {
                        i + 1
                    };
                    let b = if j < at {
                        j
                    } else {
                        j + 1
                    };
                    assert(keys[a] < keys[b]);
                }
                assert forall|other: u64| after.contains(other) == (keys.contains(other) && other
                    != key) by {
                    if after.contains(other) {
                        let i = place_of(after, other);
                        assert(after[i] == other);
                        let a = if i < at {
                            i
                        } else {
                            i + 1
                        };
                        assert(keys[a] == other);
                        lemma_place_of(keys, a);
                        lemma_place_of(keys, at as int);
                    }
                    if keys.contains(other) && other != key {
                        let i = place_of(keys, other);
                        assert(keys[i] == other);
                        if i < at {
                            assert(after[i] == other);
                        } else {
                            assert(after[i - 1] == other);
                        }
                    }
                }
                assert forall|other: u64| after.contains(other) implies self.values@[place_of(
                    after,
                    other,
                )] == old(self)@[other] by {
                    let i = place_of(after, other);
                    assert(after[i] == other);
                    let a = if i < at {
                        i
                    } else {
                        i + 1
                    };
                    assert(keys[a] == other);
                    lemma_place_of(keys, a);
                }
                assert(self@ =~= old(self)@.remove(key));
            }
            true
        } else {
            proof {
                if keys.contains(key) {
                    let i = place_of(keys, key);
                    assert(keys[i] == key);
                }
                assert(self@ =~= old(self)@.remove(key));
            }
            false
        }
    }

    /// The key at a place in ascending order.
    pub fn key_at(&self, at: usize) -> (r: u64)
        requires
            self.wf(),
            at < self.spec_keys().len(),
        ensures
            r == self.spec_keys()[at as int],
            self@.dom().contains(r),
    {
        proof {
            assert(self.keys@.contains(self.keys@[at as int]));
        }
        self.keys[at]
    }

    /// The value at a place in ascending key order.
    pub fn value_at(&self, at: usize) -> (r: &V)
        requires
            self.wf(),
            at < self.spec_keys().len(),
        ensures
            self@.dom().contains(self.spec_keys()[at as int]),
            *r == self@[self.spec_keys()[at as int]],
    {
        proof {
            assert(self.keys@.contains(self.keys@[at as int]));
            lemma_place_of(self.keys@, at as int);
        }
        &self.values[at]
    }

    /// The largest key, where there is one.
    pub fn last_key(&self) -> (r: Option<u64>)
        requires
            self.wf(),
        ensures
            match r {
                Some(key) => self@.dom().contains(key) && forall|other: u64|
                    #[trigger] self@.dom().contains(other) ==> other <= key,
                None => self@ == Map::<u64, V>::empty(),
            },
    {
        let count: usize = self.keys.len();
        if count == 0 {
            assert(self@ =~= Map::<u64, V>::empty());
            return None;
        }
        proof {
            assert(self.keys@.contains(self.keys@[count as int - 1]));
            assert forall|other: u64| #[trigger] self@.dom().contains(other) implies other
                <= self.keys@[count as int - 1] by {
                let i = place_of(self.keys@, other);
                assert(self.keys@[i] == other);
                if i < count - 1 {
                    assert(self.keys@[i] < self.keys@[count as int - 1]);
                }
            }
        }
        Some(self.keys[count - 1])
    }
}

impl<V: Copy> RadixMap<V> {
    /// A map with the same entries.
    pub fn copied(&self) -> (r: Self)
        requires
            self.wf(),
        ensures
            r.wf(),
            r@ == self@,
            r.spec_keys() == self.spec_keys(),
    {
        let mut keys: Vec<u64> = Vec::new();
        let mut values: Vec<V> = Vec::new();
        let mut index: usize = 0;
        while index < self.keys.len()
            invariant
                self.wf(),
                index <= self.keys@.len(),
                keys@ == self.keys@.take(index as int),
                values@ == self.values@.take(index as int),
            decreases self.keys@.len() - index,
        {
            keys.push(self.keys[index]);
            values.push(self.values[index]);
            index += 1;
            assert(keys@ =~= self.keys@.take(index as int));
            assert(values@ =~= self.values@.take(index as int));
        }
        assert(keys@ =~= self.keys@);
        assert(values@ =~= self.values@);
        let r = RadixMap { keys, values };
        assert(r@ =~= self@);
        r
    }
}

// ---------------------------------------------------------------------------
// Interning

/// Values that can be stored once and found again.
pub trait Interned: Copy + Sized {
    /// The place of the value in the lookup directory.
    spec fn bucket_spec(self) -> u64;

    fn bucket(&self) -> (r: u64)
        ensures
            r == self.bucket_spec(),
    ;

    fn same(&self, other: &Self) -> (r: bool)
        ensures
            r == (*self == *other),
    ;
}

/// An append-only sequence in which no value occurs twice.
pub struct InternVec<T: Interned> {
    items: GenerationVec<T>,
    index: HashMap<u64, Vec<usize>>,
}

impl<T: Interned> View for InternVec<T> {
    type V = Seq<T>;

    closed spec fn view(&self) -> Seq<T> {
        self.items@
    }
}

impl<T: Interned> InternVec<T> {
    /// No value occurs twice, and the directory finds every value.
    pub closed spec fn wf(self) -> bool {
        &&& self.items.wf()
        &&& self.items@.no_duplicates()
        &&& forall|id: int|
            0 <= id < self.items@.len() ==> self.index@.dom().contains(
                (#[trigger] self.items@[id]).bucket_spec(),
            ) && self.index@[self.items@[id].bucket_spec()]@.contains(id as usize)
        &&& forall|key: u64, i: int|
            #![trigger self.index@[key]@[i]]
            self.index@.dom().contains(key) && 0 <= i < self.index@[key]@.len()
                ==> self.index@[key]@[i] < self.items@.len()
    }

    /// No value occurs twice.
    pub proof fn lemma_distinct(self)
        requires
            self.wf(),
        ensures
            self@.no_duplicates(),
            self@.len() <= usize::MAX,
    {
        self.items.lemma_len();
    }

    pub fn new() -> (r: Self)
        ensures
            r.wf(),
            r@ == Seq::<T>::empty(),
    {
        InternVec { items: GenerationVec::new(), index: HashMap::new() }
    }

    pub fn len(&self) -> (r: usize)
        requires
            self.wf(),
        ensures
            r == self@.len(),
    {
        self.items.len()
    }

    /// The value with an id, where there is one.
    pub fn get(&self, id: usize) -> (r: Option<&T>)
        requires
            self.wf(),
        ensures
            match r {
                Some(item) => id < self@.len() && *item == self@[id as int],
                None => id >= self@.len(),
            },
    {
        self.items.get(id)
    }

    /// Looks for a value.
    pub fn find(&self, item: &T) -> (r: Option<usize>)
        requires
            self.wf(),
        ensures
            match r {
                Some(id) => id < self@.len() && self@[id as int] == *item,
                None => !self@.contains(*item),
            },
    {
        broadcast use vstd::std_specs::hash::group_hash_axioms;

        let key: u64 = item.bucket();
        match self.index.get(&key) {
            Some(list) => {
                let mut at: usize = 0;
                while at < list.len()
                    invariant
                        self.wf(),
                        at <= list@.len(),
                        self.index@.dom().contains(key),
                        self.index@[key] == *list,
                        forall|i: int| 0 <= i < at ==> self@[#[trigger] list@[i] as int] != *item,
                    decreases list@.len() - at,
                {
                    let id: usize = list[at];
                    assert(self.index@[key]@[at as int] == id);
                    match self.items.get(id) {
                        Some(found) => {
                            if found.same(item) {
                                return Some(id);
                            }
                        },
                        None => {},
                    }
                    at += 1;
                }
                proof {
                    self.items.lemma_len();
                    if self@.contains(*item) {
                        let id = choose|id: int| 0 <= id < self@.len() && self@[id] == *item;
                        assert(self.index@[self.items@[id].bucket_spec()]@.contains(id as usize));
                        let i = choose|i: int| 0 <= i < list@.len() && list@[i] == id as usize;
                        assert(self@[list@[i] as int] == *item);
                    }
                }
                None
            },
            None => {
                proof {
                    if self@.contains(*item) {
                        let id = choose|id: int| 0 <= id < self@.len() && self@[id] == *item;
                        assert(self.index@.dom().contains(self.items@[id].bucket_spec()));
                    }
                }
                None
            },
        }
    }

    /// Appends a value that is not stored yet and returns its id.
    pub fn push_new(&mut self, item: T) -> (r: usize)
        requires
            old(self).wf(),
            !old(self)@.contains(item),
        ensures
            final(self).wf(),
            r == old(self)@.len(),
            final(self)@ == old(self)@.push(item),
    {
        broadcast use vstd::std_specs::hash::group_hash_axioms;

        let key: u64 = item.bucket();
        let ghost before = self@;
        let ghost index0 = self.index@;
        let id: usize = self.items.push(item);
        let mut list: Vec<usize> = match self.index.remove(&key) {
            Some(list) => list,
            None => Vec::new(),
        };
        let ghost list0 = list@;
        list.push(id);
        self.index.insert(key, list);
        proof {
            assert(self.index@[key]@ == list0.push(id));
            assert forall|k: int| 0 <= k < self.items@.len() implies self.index@.dom().contains(
                (#[trigger] self.items@[k]).bucket_spec(),
            ) && self.index@[self.items@[k].bucket_spec()]@.contains(k as usize) by {
                if k < before.len() {
                    assert(self.items@[k] == before[k]);
                    assert(index0[before[k].bucket_spec()]@.contains(k as usize));
                    if before[k].bucket_spec() == key {
                        let i = choose|i: int| 0 <= i < list0.len() && list0[i] == k as usize;
                        assert(list0.push(id)[i] == k as usize);
                    }
                } else {
                    assert(list0.push(id)[list0.len() as int] == id);
                }
            }
            assert forall|other: u64, i: int|
                #![trigger self.index@[other]@[i]]
                self.index@.dom().contains(other) && 0 <= i < self.index@[other]@.len() implies
                self.index@[other]@[i] < self.items@.len() by {
                if other == key {
                    if i < list0.len() {
                        assert(index0.dom().contains(key));
                        assert(index0[key]@[i] == list0[i]);
                    }
                } else {
                    assert(index0[other]@[i] < before.len());
                }
            }
            assert forall|i: int, j: int|
                0 <= i < self.items@.len() && 0 <= j < self.items@.len() && i != j implies
                self.items@[i] != self.items@[j] by {
                if i < before.len() && j < before.len() {
                    assert(before[i] != before[j]);
                } else if i < before.len() {
                    assert(before.contains(before[i]));
                } else {
                    assert(before.contains(before[j]));
                }
            }
        }
        id
    }

    /// Freezes the current generation; values and directory stay as they are.
    pub fn seal(&mut self)
        requires
            old(self).wf(),
        ensures
            final(self).wf(),
            final(self)@ == old(self)@,
    {
        self.items.seal();
    }
}

// ---------------------------------------------------------------------------
// Maps with structured keys

/// A key that is found by a hash and then compared.
pub trait Hashed: Sized {
    /// What the key says.
    type Image;

    spec fn image(&self) -> Self::Image;

    spec fn bucket_of(image: Self::Image) -> u64;

    /// The bucket of the key.
    fn bucket(&self) -> (r: u64)
        ensures
            r == Self::bucket_of(self.image()),
    ;

    /// True where both keys say the same.
    fn same(&self, other: &Self) -> (r: bool)
        ensures
            r == (self.image() == other.image()),
    ;
}

/// A map with structured keys. The hash chooses a bucket; what the keys say
/// decides.
pub struct BucketMap<K: Hashed, V> {
    buckets: HashMap<u64, Vec<(K, V)>>,
}

/// A bucket holds a key.
spec fn held<K: Hashed, V>(list: Seq<(K, V)>, image: K::Image) -> bool {
    exists|i: int| 0 <= i < list.len() && (#[trigger] list[i]).0.image() == image
}

/// The place of a key in its bucket.
spec fn spot<K: Hashed, V>(list: Seq<(K, V)>, image: K::Image) -> int {
    choose|i: int| 0 <= i < list.len() && (#[trigger] list[i]).0.image() == image
}

/// No key is in a bucket twice.
spec fn told_apart<K: Hashed, V>(list: Seq<(K, V)>) -> bool {
    forall|i: int, j: int|
        0 <= i < j < list.len() ==> (#[trigger] list[i]).0.image() != (
        #[trigger] list[j]).0.image()
}

proof fn lemma_spot<K: Hashed, V>(list: Seq<(K, V)>, i: int)
    requires
        told_apart(list),
        0 <= i < list.len(),
    ensures
        held(list, list[i].0.image()),
        spot(list, list[i].0.image()) == i,
{
    let image = list[i].0.image();
    let j = spot(list, image);
    assert(0 <= j < list.len() && list[j].0.image() == image);
    if j < i {
        assert(list[j].0.image() != list[i].0.image());
    } else if i < j {
        assert(list[i].0.image() != list[j].0.image());
    }
}

impl<K: Hashed, V> View for BucketMap<K, V> {
    type V = Map<K::Image, V>;

    closed spec fn view(&self) -> Map<K::Image, V> {
        Map::new(
            |image: K::Image|
                self.buckets@.dom().contains(K::bucket_of(image)) && held(
                    self.buckets@[K::bucket_of(image)]@,
                    image,
                ),
            |image: K::Image|
                {
                    let list = self.buckets@[K::bucket_of(image)]@;
                    list[spot(list, image)].1
                },
        )
    }
}

impl<K: Hashed, V> BucketMap<K, V> {
    /// No key occurs twice.
    pub closed spec fn wf(self) -> bool {
        forall|bucket: u64| #[trigger]
            self.buckets@.dom().contains(bucket) ==> told_apart(self.buckets@[bucket]@)
    }

    /// A map without entries.
    pub fn new() -> (r: Self)
        ensures
            r.wf(),
            r@ == Map::<K::Image, V>::empty(),
    {
        let r = BucketMap { buckets: HashMap::new() };
        assert(r@ =~= Map::<K::Image, V>::empty());
        r
    }

    /// The value of a key.
    pub fn get(&self, key: &K) -> (r: Option<&V>)
        requires
            self.wf(),
        ensures
            match r {
                Some(value) => self@.dom().contains(key.image()) && *value == self@[key.image()],
                None => !self@.dom().contains(key.image()),
            },
    {
        broadcast use vstd::std_specs::hash::group_hash_axioms;

        let bucket: u64 = key.bucket();
        match self.buckets.get(&bucket) {
            Some(list) => {
                let mut at: usize = 0;
                while at < list.len()
                    invariant
                        self.wf(),
                        at <= list@.len(),
                        bucket == K::bucket_of(key.image()),
                        self.buckets@.dom().contains(bucket),
                        self.buckets@[bucket] == *list,
                        forall|i: int|
                            0 <= i < at ==> (#[trigger] list@[i]).0.image() != key.image(),
                    decreases list@.len() - at,
                {
                    if list[at].0.same(key) {
                        proof {
                            lemma_spot(list@, at as int);
                        }
                        return Some(&list[at].1);
                    }
                    at += 1;
                }
                None
            },
            None => None,
        }
    }

    /// Sets the value of a key.
    pub fn insert(&mut self, key: K, value: V)
        requires
            old(self).wf(),
        ensures
            final(self).wf(),
            final(self)@ == old(self)@.insert(key.image(), value),
    {
        broadcast use vstd::std_specs::hash::group_hash_axioms;

        let ghost image = key.image();
        let ghost before = self.buckets@;
        let bucket: u64 = key.bucket();
        let mut list: Vec<(K, V)> = match self.buckets.remove(&bucket) {
            Some(list) => list,
            None => Vec::new(),
        };
        let ghost list0 = list@;
        let mut at: usize = 0;
        while at < list.len()
            invariant
                at <= list@.len(),
                list@ == list0,
                image == key.image(),
                forall|i: int| 0 <= i < at ==> (#[trigger] list@[i]).0.image() != image,
            ensures
                at <= list@.len(),
                list@ == list0,
                forall|i: int| 0 <= i < at ==> (#[trigger] list@[i]).0.image() != image,
                at < list@.len() ==> list@[at as int].0.image() == image,
            decreases list@.len() - at,
        {
            if list[at].0.same(&key) {
                break;
            }
            at += 1;
        }
        if at < list.len() {
            list.set(at, (key, value));
        } else {
            list.push((key, value));
        }
        let ghost list1 = list@;
        self.buckets.insert(bucket, list);
        proof {
            assert(told_apart(list0));
            assert(told_apart(list1));
            lemma_spot(list1, at as int);
            let old_map = old(self)@;
            let want = old_map.insert(image, value);
            assert forall|other: K::Image|
                #![trigger self@.dom().contains(other)]
                self@.dom().contains(other) == want.dom().contains(other) && (self@.dom().contains(
                    other,
                ) ==> self@[other] == want[other]) by {
                if other == image {
                    assert(list1[at as int].0.image() == image);
                } else if K::bucket_of(other) == bucket {
                    if held(list1, other) {
                        let i = spot(list1, other);
                        assert(i != at);
                        assert(list0[i] == list1[i]);
                        lemma_spot(list0, i);
                        lemma_spot(list1, i);
                        assert(before.dom().contains(bucket));
                    }
                    if before.dom().contains(bucket) && held(list0, other) {
                        let i = spot(list0, other);
                        assert(list1[i] == list0[i]);
                        lemma_spot(list0, i);
                        lemma_spot(list1, i);
                    }
                }
            }
            assert(self@ =~= want);
        }
    }

    /// Forgets a key.
    pub fn remove(&mut self, key: &K)
        requires
            old(self).wf(),
        ensures
            final(self).wf(),
            final(self)@ == old(self)@.remove(key.image()),
    {
        broadcast use vstd::std_specs::hash::group_hash_axioms;

        let ghost image = key.image();
        let ghost before = self.buckets@;
        let bucket: u64 = key.bucket();
        let mut list: Vec<(K, V)> = match self.buckets.remove(&bucket) {
            Some(list) => list,
            None => {
                assert(self@ =~= old(self)@.remove(image));
                return ;
            },
        };
        let ghost list0 = list@;
        let mut at: usize = 0;
        while at < list.len()
            invariant
                at <= list@.len(),
                list@ == list0,
                image == key.image(),
                forall|i: int| 0 <= i < at ==> (#[trigger] list@[i]).0.image() != image,
            ensures
                at <= list@.len(),
                list@ == list0,
                forall|i: int| 0 <= i < at ==> (#[trigger] list@[i]).0.image() != image,
                at < list@.len() ==> list@[at as int].0.image() == image,
            decreases list@.len() - at,
        {
            if list[at].0.same(key) {
                break;
            }
            at += 1;
        }
        if at < list.len() {
            list.remove(at);
        }
        let ghost list1 = list@;
        self.buckets.insert(bucket, list);
        proof {
            assert(told_apart(list0));
            if at < list0.len() {
                assert(list1 =~= list0.remove(at as int));
            }
            assert(told_apart(list1));
            let want = old(self)@.remove(image);
            assert forall|other: K::Image|
                #![trigger self@.dom().contains(other)]
                self@.dom().contains(other) == want.dom().contains(other) && (self@.dom().contains(
                    other,
                ) ==> self@[other] == want[other]) by {
                if K::bucket_of(other) == bucket {
                    if held(list1, other) {
                        let i = spot(list1, other);
                        let j = if at < list0.len() && i >= at {
                            i + 1
                        } else {
                            i
                        };
                        assert(list0[j] == list1[i]);
                        lemma_spot(list0, j);
                        lemma_spot(list1, i);
                        if other == image && at < list0.len() {
                            lemma_spot(list0, at as int);
                        }
                    }
                    if held(list0, other) && other != image {
                        let j = spot(list0, other);
                        let i = if at < list0.len() && j > at {
                            j - 1
                        } else {
                            j
                        };
                        assert(list1[i] == list0[j]);
                        lemma_spot(list0, j);
                        lemma_spot(list1, i);
                    }
                }
            }
            assert(self@ =~= want);
        }
    }
}

} // verus!
