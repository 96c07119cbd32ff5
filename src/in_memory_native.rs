use vstd::prelude::*;
use std::collections::HashMap;
use std::rc::Rc;
use crate::primitives::{ManagedCount, ManagedMap, ManagedValue, StateKey, StateValue};

verus! {

broadcast use vstd::std_specs::hash::group_hash_axioms;

/// A counter held directly in process memory.
pub struct InMemoryNativeManagedCount {
    count: i64,
}

impl InMemoryNativeManagedCount {
    pub fn new() -> (r: Self)
        ensures
            r.count() == 0,
    {
        InMemoryNativeManagedCount { count: 0 }
    }
}

impl ManagedCount for InMemoryNativeManagedCount {
    closed spec fn count(&self) -> int {
        self.count as int
    }

    fn decrease(&mut self, amount: i64) {
        self.count = self.count - amount;
    }

    fn increase(&mut self, amount: i64) {
        self.count = self.count + amount;
    }

    fn get(&self) -> (r: i64) {
        self.count
    }

    fn set(&mut self, value: i64) {
        self.count = value;
    }
}

/// An optional value held directly in process memory.
pub struct InMemoryNativeManagedValue<V> {
    value: Option<V>,
}

impl<V: StateValue> InMemoryNativeManagedValue<V> {
    pub fn new() -> (r: Self)
        ensures
            r.value() is None,
    {
        InMemoryNativeManagedValue { value: None }
    }
}

impl<V: StateValue> ManagedValue<V> for InMemoryNativeManagedValue<V> {
    closed spec fn value(&self) -> Option<V::V> {
        match self.value {
            Some(v) => Some(v@),
            None => None,
        }
    }

    fn set(&mut self, value: V) {
        self.value = Some(value);
    }

    fn get(&self) -> (r: Option<Rc<V>>) {
        match &self.value {
            None => None,
            Some(v) => Some(Rc::new(v.duplicate())),
        }
    }

    fn take(&mut self) -> (r: Option<V>) {
        let r = self.value.take();
        r
    }

    fn rmw(&mut self, modification: V) {
        let next = match &self.value {
            None => modification,
            Some(v) => v.merge(modification),
        };
        self.value = Some(next);
    }
}

/// A map held directly in process memory, hashed by key code.
pub struct InMemoryNativeManagedMap<K, V> {
    map: HashMap<u128, V>,
    key: std::marker::PhantomData<K>,
}

/// The entries of a table indexed by key code, seen as a map from keys.
pub open spec fn entries_by_code<K: StateKey, V: StateValue>(table: Map<u128, V>) -> Map<K, V::V> {
    Map::new(|k: K| table.contains_key(k.code_of()), |k: K| table[k.code_of()]@)
}

/// Changing the entry under one key code changes only the key with that code.
proof fn lemma_entries_insert<K: StateKey, V: StateValue>(table: Map<u128, V>, k: K, v: V)
    ensures
        entries_by_code::<K, V>(table.insert(k.code_of(), v)) == entries_by_code::<K, V>(
            table,
        ).insert(k, v@),
{
    assert forall|k2: K|
        #![auto]
        entries_by_code::<K, V>(table.insert(k.code_of(), v)).contains_key(k2)
            == entries_by_code::<K, V>(table).insert(k, v@).contains_key(k2) by {
        K::lemma_code_injective(k, k2);
    }
    assert forall|k2: K|
        #![auto]
        entries_by_code::<K, V>(table.insert(k.code_of(), v)).contains_key(k2) ==> entries_by_code::<
            K,
            V,
        >(table.insert(k.code_of(), v))[k2] == entries_by_code::<K, V>(table).insert(k, v@)[k2] by {
        K::lemma_code_injective(k, k2);
    }
    assert(entries_by_code::<K, V>(table.insert(k.code_of(), v)) =~= entries_by_code::<K, V>(
        table,
    ).insert(k, v@));
}

/// Removing the entry under one key code removes only the key with that code.
proof fn lemma_entries_remove<K: StateKey, V: StateValue>(table: Map<u128, V>, k: K)
    ensures
        entries_by_code::<K, V>(table.remove(k.code_of())) == entries_by_code::<K, V>(
            table,
        ).remove(k),
{
    assert forall|k2: K|
        #![auto]
        entries_by_code::<K, V>(table.remove(k.code_of())).contains_key(k2)
            == entries_by_code::<K, V>(table).remove(k).contains_key(k2) by {
        K::lemma_code_injective(k, k2);
    }
    assert(entries_by_code::<K, V>(table.remove(k.code_of())) =~= entries_by_code::<K, V>(
        table,
    ).remove(k));
}

impl<K: StateKey, V: StateValue> InMemoryNativeManagedMap<K, V> {
    pub fn new() -> (r: Self)
        ensures
            r.entries() == Map::<K, V::V>::empty(),
    {
        let r = InMemoryNativeManagedMap { map: HashMap::new(), key: std::marker::PhantomData };
        proof {
            assert(r.entries() =~= Map::<K, V::V>::empty());
        }
        r
    }
}

impl<K: StateKey, V: StateValue> ManagedMap<K, V> for InMemoryNativeManagedMap<K, V> {
    closed spec fn entries(&self) -> Map<K, V::V> {
        entries_by_code::<K, V>(self.map@)
    }

    open spec fn key_prefix_length(&self) -> nat {
        0
    }

    fn get_key_prefix_length(&self) -> (r: usize) {
        0
    }

    fn insert(&mut self, key: K, value: V) {
        proof {
            lemma_entries_insert::<K, V>(self.map@, key, value);
        }
        let code = key.code();
        self.map.insert(code, value);
    }

    fn get(&self, key: &K) -> (r: Option<Rc<V>>) {
        let code = key.code();
        match self.map.get(&code) {
            None => None,
            Some(v) => Some(Rc::new(v.duplicate())),
        }
    }

    fn remove(&mut self, key: &K) -> (r: Option<V>) {
        proof {
            lemma_entries_remove::<K, V>(self.map@, *key);
        }
        let code = key.code();
        self.map.remove(&code)
    }

    fn rmw(&mut self, key: K, modification: V) {
        let code = key.code();
        let next = match self.map.get(&code) {
            None => modification,
            Some(v) => v.merge(modification),
        };
        proof {
            lemma_entries_insert::<K, V>(self.map@, key, next);
        }
        self.map.insert(code, next);
    }

    fn contains(&self, key: &K) -> (r: bool) {
        let code = key.code();
        self.map.contains_key(&code)
    }
}

/// A backend whose counters, values and maps each live in their own process-local
/// container; names play no part.
pub struct InMemoryNativeBackend {}

impl InMemoryNativeBackend {
    pub fn new() -> (r: Self) {
        InMemoryNativeBackend {  }
    }

    pub fn get_managed_count(&self, name: &str) -> (r: InMemoryNativeManagedCount)
        ensures
            r.count() == 0,
    {
        InMemoryNativeManagedCount::new()
    }

    pub fn get_managed_value<V: StateValue>(&self, name: &str) -> (r: InMemoryNativeManagedValue<V>)
        ensures
            r.value() is None,
    {
        InMemoryNativeManagedValue::new()
    }

    pub fn get_managed_map<K: StateKey, V: StateValue>(&self, name: &str) -> (r:
        InMemoryNativeManagedMap<K, V>)
        ensures
            r.entries() == Map::<K, V::V>::empty(),
    {
        InMemoryNativeManagedMap::new()
    }
}

} // verus!
