//! A finite map kept as a list of entries with distinct keys.
use vstd::prelude::*;

verus! {

/// A key that can be compared for equality.
pub trait Key: Sized {
    fn same(&self, other: &Self) -> (same: bool)
        ensures
            same == (*self == *other),
    ;
}

impl Key for u64 {
    fn same(&self, other: &Self) -> (same: bool) {
        *self == *other
    }
}

impl Key for (u64, u64) {
    fn same(&self, other: &Self) -> (same: bool) {
        self.0 == other.0 && self.1 == other.1
    }
}

impl Key for [u8; 32] {
    fn same(&self, other: &Self) -> (same: bool) {
        crate::bytes::same_id(self, other)
    }
}

/// A finite map. Entries keep the order in which their keys were first added.
#[derive(Debug)]
pub struct Table<K, V> {
    entries: Vec<(K, V)>,
}

impl<K, V> Table<K, V> {
    /// The entries in order.
    pub closed spec fn items(&self) -> Seq<(K, V)> {
        self.entries@
    }

    #[verifier::type_invariant]
    spec fn distinct(&self) -> bool {
        distinct_keys(self.entries@)
    }
}

/// No key stands in two entries.
pub open spec fn distinct_keys<K, V>(items: Seq<(K, V)>) -> bool {
    forall|i: int, j: int|
        #![trigger items[i], items[j]]
        0 <= i < j < items.len() ==> items[i].0 != items[j].0
}

/// Whether `key` stands in an entry.
pub open spec fn has_key<K, V>(items: Seq<(K, V)>, key: K) -> bool {
    exists|i: int| 0 <= i < items.len() && (#[trigger] items[i]).0 == key
}

/// The position of the entry of `key`.
pub open spec fn position<K, V>(items: Seq<(K, V)>, key: K) -> int {
    choose|i: int| 0 <= i < items.len() && (#[trigger] items[i]).0 == key
}

/// The map that a list of entries stands for.
pub open spec fn as_map<K, V>(items: Seq<(K, V)>) -> Map<K, V> {
    Map::new(|key: K| has_key(items, key), |key: K| items[position(items, key)].1)
}

impl<K, V> View for Table<K, V> {
    type V = Map<K, V>;

    open spec fn view(&self) -> Map<K, V> {
        as_map(self.items())
    }
}

impl<K: Key, V> Table<K, V> {
    pub fn new() -> (table: Self)
        ensures
            table@ == Map::<K, V>::empty(),
            table.items() == Seq::<(K, V)>::empty(),
    {
        let table = Table { entries: Vec::new() };
        proof {
            assert(table@ =~= Map::<K, V>::empty());
        }
        table
    }

    fn find(&self, key: &K) -> (found: Option<usize>)
        ensures
            match found {
                Some(i) => i < self.items().len() && self.items()[i as int].0 == *key,
                None => !has_key(self.items(), *key),
            },
    {
        let mut i: usize = 0;
        while i < self.entries.len()
            invariant
                i <= self.entries@.len(),
                forall|j: int| 0 <= j < i ==> (#[trigger] self.entries@[j]).0 != *key,
            decreases self.entries@.len() - i,
        {
            if self.entries[i].0.same(key) {
                return Some(i);
            }
            i = i + 1;
        }
        None
    }

    pub fn get(&self, key: &K) -> (value: Option<&V>)
        ensures
            match value {
                Some(v) => self@.dom().contains(*key) && *v == self@[*key],
                None => !self@.dom().contains(*key),
            },
    {
        proof {
            use_type_invariant(self);
        }
        match self.find(key) {
            Some(i) => {
                assert(self.items()[i as int].0 == *key);
                Some(&self.entries[i].1)
            },
            None => None,
        }
    }

    pub fn contains_key(&self, key: &K) -> (found: bool)
        ensures
            found == self@.dom().contains(*key),
    {
        self.get(key).is_some()
    }

    pub fn insert(&mut self, key: K, value: V)
        ensures
            final(self)@ == old(self)@.insert(key, value),
    {
        proof {
            use_type_invariant(&*self);
        }
        let ghost before = self.items();
        let found = self.find(&key);
        let mut entries: Vec<(K, V)> = Vec::new();
        std::mem::swap(&mut entries, &mut self.entries);
        match found {
            Some(i) => {
                entries.set(i, (key, value));
            },
            None => {
                entries.push((key, value));
            },
        }
        self.entries = entries;
        proof {
            lemma_insert(before, self.items(), key, value, found);
        }
    }

    pub fn remove(&mut self, key: &K)
        ensures
            final(self)@ == old(self)@.remove(*key),
    {
        proof {
            use_type_invariant(&*self);
        }
        let ghost before = self.items();
        let found = self.find(key);
        if let Some(i) = found {
            let mut entries: Vec<(K, V)> = Vec::new();
            std::mem::swap(&mut entries, &mut self.entries);
            let removed = entries.remove(i);
            self.entries = entries;
            proof {
                lemma_remove(before, i as int);
            }
        } else {
            proof {
                assert(self@.remove(*key) =~= self@);
            }
        }
    }

    pub fn len(&self) -> (n: usize)
        ensures
            n == self.items().len(),
            distinct_keys(self.items()),
            n == self@.dom().len(),
            self@.dom().finite(),
    {
        proof {
            use_type_invariant(self);
            lemma_size(self.items());
        }
        self.entries.len()
    }

    /// The key of the `i`th entry.
    pub fn key_at(&self, i: usize) -> (key: &K)
        requires
            i < self.items().len(),
        ensures
            *key == self.items()[i as int].0,
            self@.dom().contains(*key),
            self@[*key] == self.items()[i as int].1,
    {
        proof {
            use_type_invariant(self);
            assert(has_key(self.items(), self.items()[i as int].0));
        }
        &self.entries[i].0
    }

    /// The value of the `i`th entry.
    pub fn value_at(&self, i: usize) -> (value: &V)
        requires
            i < self.items().len(),
        ensures
            *value == self.items()[i as int].1,
            self@.dom().contains(self.items()[i as int].0),
            self@[self.items()[i as int].0] == *value,
    {
        proof {
            use_type_invariant(self);
            assert(has_key(self.items(), self.items()[i as int].0));
        }
        &self.entries[i].1
    }

    /// Removes the entry of `key` and hands its value out.
    pub fn take(&mut self, key: &K) -> (value: Option<V>)
        ensures
            match value {
                Some(v) => old(self)@.dom().contains(*key) && v == old(self)@[*key]
                    && final(self)@ == old(self)@.remove(*key),
                None => !old(self)@.dom().contains(*key) && final(self)@ == old(self)@,
            },
    {
        proof {
            use_type_invariant(&*self);
        }
        let ghost before = self.items();
        let found = self.find(key);
        match found {
            Some(i) => {
                let mut entries: Vec<(K, V)> = Vec::new();
                std::mem::swap(&mut entries, &mut self.entries);
                let removed = entries.remove(i);
                self.entries = entries;
                proof {
                    lemma_remove(before, i as int);
                }
                Some(removed.1)
            },
            None => None,
        }
    }
}

pub proof fn lemma_position<K, V>(items: Seq<(K, V)>, i: int)
    requires
        distinct_keys(items),
        0 <= i < items.len(),
    ensures
        has_key(items, items[i].0),
        position(items, items[i].0) == i,
        as_map(items).dom().contains(items[i].0),
        as_map(items)[items[i].0] == items[i].1,
{
    let p = position(items, items[i].0);
    assert(items[p].0 == items[i].0);
}

proof fn lemma_insert<K, V>(
    before: Seq<(K, V)>,
    after: Seq<(K, V)>,
    key: K,
    value: V,
    found: Option<usize>,
)
    requires
        distinct_keys(before),
        match found {
            Some(i) => i < before.len() && before[i as int].0 == key && after == before.update(
                i as int,
                (key, value),
            ),
            None => !has_key(before, key) && after == before.push((key, value)),
        },
    ensures
        as_map(after) == as_map(before).insert(key, value),
        distinct_keys(after),
{
    assert(distinct_keys(after)) by {
        assert forall|i: int, j: int|
            #![trigger after[i], after[j]]
            0 <= i < j < after.len() implies after[i].0 != after[j].0 by {
            if i < before.len() {
                assert(before[i] == before[i]);
            }
            if j < before.len() {
                assert(before[j] == before[j]);
            }
        }
    }
    let m = as_map(before).insert(key, value);
    assert forall|k: K| as_map(after).dom().contains(k) == m.dom().contains(k) by {
        if has_key(before, k) {
            let i = position(before, k);
            assert(after[i].0 == k);
        }
        if has_key(after, k) {
            let i = position(after, k);
            if i < before.len() {
                assert(before[i].0 == k);
            }
        }
        match found {
            Some(i) => { assert(after[i as int].0 == key); },
            None => { assert(after[before.len() as int].0 == key); },
        }
    }
    assert forall|k: K| as_map(after).dom().contains(k) implies as_map(after)[k] == m[k] by {
        let i = position(after, k);
        lemma_position(after, i);
        if k != key {
            lemma_position(before, i);
        }
    }
    assert(as_map(after) =~= m);
}

proof fn lemma_remove<K, V>(before: Seq<(K, V)>, i: int)
    requires
        distinct_keys(before),
        0 <= i < before.len(),
    ensures
        as_map(before.remove(i)) == as_map(before).remove(before[i].0),
        distinct_keys(before.remove(i)),
        as_map(before).dom().contains(before[i].0),
        as_map(before)[before[i].0] == before[i].1,
{
    let after = before.remove(i);
    let key = before[i].0;
    lemma_position(before, i);
    assert(distinct_keys(after)) by {
        assert forall|a: int, b: int|
            #![trigger after[a], after[b]]
            0 <= a < b < after.len() implies after[a].0 != after[b].0 by {
            let a0 = if a < i { a } else { a + 1 };
            let b0 = if b < i { b } else { b + 1 };
            assert(before[a0].0 != before[b0].0);
        }
    }
    let m = as_map(before).remove(key);
    assert forall|k: K| as_map(after).dom().contains(k) == m.dom().contains(k) by {
        if has_key(before, k) && k != key {
            let p = position(before, k);
            let q = if p < i { p } else { p - 1 };
            assert(after[q].0 == k);
        }
        if has_key(after, k) {
            let q = position(after, k);
            let p = if q < i { q } else { q + 1 };
            assert(before[p].0 == k);
            assert(before[i].0 != before[p].0);
        }
    }
    assert forall|k: K| as_map(after).dom().contains(k) implies as_map(after)[k] == m[k] by {
        let q = position(after, k);
        let p = if q < i { q } else { q + 1 };
        lemma_position(before, p);
        assert(before[p] == after[q]);
    }
    assert(as_map(after) =~= m);
}

pub proof fn lemma_size<K, V>(items: Seq<(K, V)>)
    requires
        distinct_keys(items),
    ensures
        as_map(items).dom().finite(),
        as_map(items).dom().len() == items.len(),
    decreases items.len(),
{
    if items.len() == 0 {
        assert(as_map(items).dom() =~= Set::<K>::empty());
    } else {
        let last = items.len() - 1;
        lemma_remove(items, last);
        lemma_size(items.remove(last));
        let d = as_map(items).dom();
        assert(as_map(items.remove(last)).dom() =~= d.remove(items[last].0));
    }
}


/// A map with each value taken by its view.
pub open spec fn views<K, V: View>(map: Map<K, V>) -> Map<K, V::V> {
    Map::new(|key: K| map.dom().contains(key), |key: K| map[key]@)
}

pub broadcast proof fn lemma_views_insert<K, V: View>(map: Map<K, V>, key: K, value: V)
    ensures
        #[trigger] views(map.insert(key, value)) == views(map).insert(key, value@),
{
    assert(views(map.insert(key, value)) =~= views(map).insert(key, value@));
}

pub broadcast proof fn lemma_views_remove<K, V: View>(map: Map<K, V>, key: K)
    ensures
        #[trigger] views(map.remove(key)) == views(map).remove(key),
{
    assert(views(map.remove(key)) =~= views(map).remove(key));
}

/// One more entry puts one more key into the map.
pub proof fn lemma_grow<K, V>(items: Seq<(K, V)>, i: int)
    requires
        distinct_keys(items),
        0 <= i < items.len(),
    ensures
        as_map(items.take(i + 1)) == as_map(items.take(i)).insert(items[i].0, items[i].1),
{
    let before = items.take(i);
    let after = items.take(i + 1);
    assert(after =~= before.push(items[i]));
    assert(distinct_keys(before));
    assert(!has_key(before, items[i].0)) by {
        if has_key(before, items[i].0) {
            let j = position(before, items[i].0);
            assert(items[j].0 == items[i].0);
        }
    }
    lemma_insert(before, after, items[i].0, items[i].1, None);
}

impl<K: Key + Copy, V: Copy> Table<K, V> {
    /// A copy of the table.
    pub fn copied(&self) -> (copy: Self)
        ensures
            copy.items() == self.items(),
            copy@ == self@,
    {
        proof {
            use_type_invariant(self);
        }
        let mut entries: Vec<(K, V)> = Vec::new();
        let mut i: usize = 0;
        while i < self.entries.len()
            invariant
                i <= self.entries@.len(),
                entries@ == self.entries@.take(i as int),
            decreases self.entries@.len() - i,
        {
            entries.push((self.entries[i].0, self.entries[i].1));
            i = i + 1;
            proof {
                assert(entries@ =~= self.entries@.take(i as int));
            }
        }
        proof {
            assert(self.entries@.take(i as int) =~= self.entries@);
        }
        Table { entries }
    }
}

} // verus!
