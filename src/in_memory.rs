use vstd::prelude::*;
use std::rc::Rc;
use crate::in_memory_native::{InMemoryNativeManagedMap, InMemoryNativeManagedValue};
use crate::primitives::{ManagedCount, ManagedMap, ManagedValue, StateKey, StateValue};
use vstd::string::StringSliceAdditionalSpecFns;

verus! {

/// A process-local backend that keeps one counter per name, so that a counter obtained
/// again under the same name sees the value left by an earlier one.
pub struct InMemoryBackend {
    counts: Vec<(String, i64)>,
}

impl InMemoryBackend {
    /// Entry `i` is the first one under `name`.
    pub closed spec fn first_at(&self, name: Seq<char>, i: int) -> bool {
        &&& 0 <= i < self.counts@.len()
        &&& self.counts@[i].0@ == name
        &&& forall|j: int| 0 <= j < i ==> self.counts@[j].0@ != name
    }

    /// The counter kept under `name`; a name never set counts zero.
    pub closed spec fn count_of(&self, name: Seq<char>) -> int {
        if exists|i: int| self.first_at(name, i) {
            let i = choose|i: int| self.first_at(name, i);
            self.counts@[i].1 as int
        } else {
            0
        }
    }

    proof fn lemma_first_unique(&self, name: Seq<char>, i: int, j: int)
        requires
            self.first_at(name, i),
            self.first_at(name, j),
        ensures
            i == j,
    {
    }

    pub fn new() -> (r: Self)
        ensures
            forall|name: Seq<char>| r.count_of(name) == 0,
    {
        InMemoryBackend { counts: Vec::new() }
    }

    fn find(&self, name: &String) -> (r: Option<usize>)
        ensures
            match r {
                Some(i) => self.first_at(name@, i as int),
                None => forall|i: int|
                    0 <= i < self.counts@.len() ==> self.counts@[i].0@ != name@,
            },
    {
        let mut i: usize = 0;
        while i < self.counts.len()
            invariant
                0 <= i <= self.counts@.len(),
                forall|j: int| 0 <= j < i ==> self.counts@[j].0@ != name@,
            decreases self.counts@.len() - i,
        {
            if self.counts[i].0 == *name {
                return Some(i);
            }
            i = i + 1;
        }
        None
    }

    /// The counter kept under `name`.
    pub fn get_count(&self, name: &String) -> (r: i64)
        ensures
            r == self.count_of(name@),
    {
        match self.find(name) {
            Some(i) => {
                proof {
                    let k = choose|k: int| self.first_at(name@, k);
                    self.lemma_first_unique(name@, i as int, k);
                }
                self.counts[i].1
            },
            None => 0,
        }
    }

    /// Sets the counter kept under `name`; every other counter stays as it was.
    pub fn set_count(&mut self, name: &String, value: i64)
        ensures
            final(self).count_of(name@) == value,
            forall|other: Seq<char>| other != name@ ==> final(self).count_of(other) == old(
                self,
            ).count_of(other),
    {
        let ghost before = *self;
        let found = self.find(name);
        match found {
            Some(i) => {
                self.counts.set(i, (name.clone(), value));
            },
            None => {
                self.counts.push((name.clone(), value));
            },
        }
        proof {
            let at = match found {
                Some(i) => i as int,
                None => before.counts@.len() as int,
            };
            assert(self.first_at(name@, at));
            let k = choose|k: int| self.first_at(name@, k);
            self.lemma_first_unique(name@, at, k);
            assert forall|other: Seq<char>| other != name@ implies self.count_of(other) == before.count_of(
                other,
            ) by {
                assert forall|j: int| 0 <= j < before.counts@.len() implies #[trigger] self.counts@[j].0@
                    == before.counts@[j].0@ by {
                    if j == at {
                        assert(before.counts@[j].0@ == name@);
                    }
                }
                if exists|i: int| before.first_at(other, i) {
                    let i = choose|i: int| before.first_at(other, i);
                    assert forall|j: int| 0 <= j < i implies self.counts@[j].0@ != other by {
                        assert(self.counts@[j].0@ == before.counts@[j].0@);
                    }
                    assert(self.counts@[i].0@ == before.counts@[i].0@);
                    assert(self.first_at(other, i));
                    let k2 = choose|k: int| self.first_at(other, k);
                    self.lemma_first_unique(other, i, k2);
                }
                if exists|i: int| self.first_at(other, i) {
                    let i = choose|i: int| self.first_at(other, i);
                    assert(i < before.counts@.len());
                    assert forall|j: int| 0 <= j < i implies before.counts@[j].0@ != other by {
                        assert(self.counts@[j].0@ == before.counts@[j].0@);
                    }
                    assert(self.counts@[i].0@ == before.counts@[i].0@);
                    assert(before.first_at(other, i));
                }
            }
        }
    }

    /// A counter named `name` over this backend.
    pub fn get_managed_count(self, name: &str) -> (r: InMemoryManagedCount)
        ensures
            r.count() == self.count_of(name@),
    {
        InMemoryManagedCount::new(name, self)
    }
}

/// A named counter kept in an [`InMemoryBackend`].
pub struct InMemoryManagedCount {
    name: String,
    backend: InMemoryBackend,
}

impl InMemoryManagedCount {
    pub closed spec fn name(&self) -> Seq<char> {
        self.name@
    }

    /// The backend behind this counter.
    pub closed spec fn backend(&self) -> InMemoryBackend {
        self.backend
    }

    pub fn new(name: &str, backend: InMemoryBackend) -> (r: Self)
        ensures
            r.name() == name@,
            r.backend() == backend,
            r.count() == backend.count_of(name@),
    {
        InMemoryManagedCount { name: name.to_owned(), backend }
    }

    /// Gives the backend back, with this counter's value kept under its name.
    pub fn into_backend(self) -> (r: InMemoryBackend)
        ensures
            r == self.backend(),
    {
        self.backend
    }
}

impl ManagedCount for InMemoryManagedCount {
    closed spec fn count(&self) -> int {
        self.backend.count_of(self.name@)
    }

    fn decrease(&mut self, amount: i64) {
        let current = self.get();
        self.set(current - amount);
    }

    fn increase(&mut self, amount: i64) {
        let current = self.get();
        self.set(current + amount);
    }

    fn get(&self) -> (r: i64) {
        self.backend.get_count(&self.name)
    }

    fn set(&mut self, value: i64) {
        self.backend.set_count(&self.name, value);
    }
}

/// Containers kept under names: one slot per name, so that a primitive obtained again
/// under the same name sees what an earlier one left.
pub struct NamedSlots<T> {
    slots: Vec<(String, T)>,
}

impl<T> NamedSlots<T> {
    /// Slot `i` is the first one under `name`.
    pub closed spec fn first_at(&self, name: Seq<char>, i: int) -> bool {
        &&& 0 <= i < self.slots@.len()
        &&& self.slots@[i].0@ == name
        &&& forall|j: int| 0 <= j < i ==> self.slots@[j].0@ != name
    }

    /// The container kept under `name`, if any.
    pub closed spec fn slot(&self, name: Seq<char>) -> Option<T> {
        if exists|i: int| self.first_at(name, i) {
            let i = choose|i: int| self.first_at(name, i);
            Some(self.slots@[i].1)
        } else {
            None
        }
    }

    proof fn lemma_first_unique(&self, name: Seq<char>, i: int, j: int)
        requires
            self.first_at(name, i),
            self.first_at(name, j),
        ensures
            i == j,
    {
    }

    pub fn new() -> (r: Self)
        ensures
            forall|name: Seq<char>| r.slot(name) is None,
    {
        NamedSlots { slots: Vec::new() }
    }

    fn find(&self, name: &String) -> (r: Option<usize>)
        ensures
            match r {
                Some(i) => self.first_at(name@, i as int),
                None => forall|i: int| 0 <= i < self.slots@.len() ==> self.slots@[i].0@ != name@,
            },
    {
        let mut i: usize = 0;
        while i < self.slots.len()
            invariant
                0 <= i <= self.slots@.len(),
                forall|j: int| 0 <= j < i ==> self.slots@[j].0@ != name@,
            decreases self.slots@.len() - i,
        {
            if self.slots[i].0 == *name {
                return Some(i);
            }
            i = i + 1;
        }
        None
    }

    /// The container kept under `name`.
    pub fn get(&self, name: &String) -> (r: Option<&T>)
        ensures
            match r {
                Some(t) => self.slot(name@) == Some(*t),
                None => self.slot(name@) is None,
            },
    {
        match self.find(name) {
            Some(i) => {
                proof {
                    let k = choose|k: int| self.first_at(name@, k);
                    self.lemma_first_unique(name@, i as int, k);
                }
                Some(&self.slots[i].1)
            },
            None => None,
        }
    }

    /// Puts `value` under `name` and returns what was there; every other name keeps its
    /// container.
    pub fn replace(&mut self, name: &String, value: T) -> (r: Option<T>)
        ensures
            r == old(self).slot(name@),
            final(self).slot(name@) == Some(value),
            forall|other: Seq<char>| other != name@ ==> final(self).slot(other) == old(
                self,
            ).slot(other),
    {
        let ghost before = *self;
        let found = self.find(name);
        let r = match found {
            Some(i) => {
                let (n, v) = self.slots.remove(i);
                self.slots.insert(i, (n, value));
                proof {
                    assert(self.slots@ =~= before.slots@.update(i as int, (n, value)));
                    let k = choose|k: int| before.first_at(name@, k);
                    before.lemma_first_unique(name@, i as int, k);
                }
                Some(v)
            },
            None => {
                self.slots.push((name.clone(), value));
                None
            },
        };
        proof {
            let at = match found {
                Some(i) => i as int,
                None => before.slots@.len() as int,
            };
            assert forall|j: int| 0 <= j < before.slots@.len() implies #[trigger] self.slots@[j].0@
                == before.slots@[j].0@ by {
                if j == at {
                    assert(before.slots@[j].0@ == name@);
                }
            }
            assert(self.first_at(name@, at));
            let k = choose|k: int| self.first_at(name@, k);
            self.lemma_first_unique(name@, at, k);
            assert forall|other: Seq<char>| other != name@ implies self.slot(other) == before.slot(
                other,
            ) by {
                if exists|i: int| before.first_at(other, i) {
                    let i = choose|i: int| before.first_at(other, i);
                    assert forall|j: int| 0 <= j < i implies self.slots@[j].0@ != other by {
                        assert(self.slots@[j].0@ == before.slots@[j].0@);
                    }
                    assert(i != at);
                    assert(self.slots@[i] == before.slots@[i]);
                    assert(self.first_at(other, i));
                    let k2 = choose|k: int| self.first_at(other, k);
                    self.lemma_first_unique(other, i, k2);
                }
                if exists|i: int| self.first_at(other, i) {
                    let i = choose|i: int| self.first_at(other, i);
                    assert(i != at);
                    assert(i < before.slots@.len());
                    assert forall|j: int| 0 <= j < i implies before.slots@[j].0@ != other by {
                        assert(self.slots@[j].0@ == before.slots@[j].0@);
                    }
                    assert(before.first_at(other, i));
                }
            }
        }
        r
    }
}

/// A named map kept in a store of maps shared by name.
pub struct InMemoryManagedMap<K, V> {
    name: String,
    name_bytes: usize,
    tables: NamedSlots<InMemoryNativeManagedMap<K, V>>,
}

impl<K: StateKey, V: StateValue> InMemoryManagedMap<K, V> {
    pub closed spec fn name(&self) -> Seq<char> {
        self.name@
    }

    /// The store behind this map.
    pub closed spec fn tables(&self) -> NamedSlots<InMemoryNativeManagedMap<K, V>> {
        self.tables
    }

    /// The entries of the map kept under `name` in `tables`; none when there is none.
    pub open spec fn entries_in(
        tables: NamedSlots<InMemoryNativeManagedMap<K, V>>,
        name: Seq<char>,
    ) -> Map<K, V::V> {
        match tables.slot(name) {
            Some(t) => t.entries(),
            None => Map::empty(),
        }
    }

    pub fn new(name: &str, tables: NamedSlots<InMemoryNativeManagedMap<K, V>>) -> (r: Self)
        ensures
            r.name() == name@,
            r.tables() == tables,
            r.entries() == Self::entries_in(tables, name@),
            r.key_prefix_length() == name.spec_bytes().len() as usize,
    {
        InMemoryManagedMap { name: name.to_owned(), name_bytes: name.len(), tables }
    }

    /// Gives the store back, with this map kept under its name.
    pub fn into_tables(self) -> (r: NamedSlots<InMemoryNativeManagedMap<K, V>>)
        ensures
            r == self.tables(),
    {
        self.tables
    }

    /// Takes this map's table out of the store, leaving an empty one in its place.
    fn take_table(&mut self) -> (t: InMemoryNativeManagedMap<K, V>)
        ensures
            t.entries() == old(self).entries(),
            final(self).name == old(self).name,
            final(self).name_bytes == old(self).name_bytes,
            forall|other: Seq<char>| other != old(self).name@ ==> final(self).tables.slot(other)
                == old(self).tables.slot(other),
    {
        match self.tables.replace(&self.name, InMemoryNativeManagedMap::new()) {
            Some(t) => t,
            None => InMemoryNativeManagedMap::new(),
        }
    }

    /// Puts `t` back as this map's table.
    fn put_table(&mut self, t: InMemoryNativeManagedMap<K, V>)
        ensures
            final(self).entries() == t.entries(),
            final(self).name == old(self).name,
            final(self).name_bytes == old(self).name_bytes,
            forall|other: Seq<char>| other != old(self).name@ ==> final(self).tables.slot(other)
                == old(self).tables.slot(other),
    {
        let _ = self.tables.replace(&self.name, t);
    }
}

impl<K: StateKey, V: StateValue> ManagedMap<K, V> for InMemoryManagedMap<K, V> {
    closed spec fn entries(&self) -> Map<K, V::V> {
        Self::entries_in(self.tables, self.name@)
    }

    /// The name's length in bytes.
    closed spec fn key_prefix_length(&self) -> nat {
        self.name_bytes as nat
    }

    fn get_key_prefix_length(&self) -> (r: usize) {
        self.name_bytes
    }

    fn insert(&mut self, key: K, value: V) {
        let mut t = self.take_table();
        t.insert(key, value);
        self.put_table(t);
    }

    fn get(&self, key: &K) -> (r: Option<Rc<V>>) {
        match self.tables.get(&self.name) {
            Some(t) => t.get(key),
            None => None,
        }
    }

    fn remove(&mut self, key: &K) -> (r: Option<V>) {
        let mut t = self.take_table();
        let r = t.remove(key);
        self.put_table(t);
        r
    }

    fn rmw(&mut self, key: K, modification: V) {
        let mut t = self.take_table();
        t.rmw(key, modification);
        self.put_table(t);
    }

    fn contains(&self, key: &K) -> (r: bool) {
        match self.tables.get(&self.name) {
            Some(t) => t.contains(key),
            None => false,
        }
    }
}

/// A named value kept in a store of values shared by name.
pub struct InMemoryManagedValue<V> {
    name: String,
    slots: NamedSlots<InMemoryNativeManagedValue<V>>,
}

impl<V: StateValue> InMemoryManagedValue<V> {
    pub closed spec fn name(&self) -> Seq<char> {
        self.name@
    }

    /// The store behind this value.
    pub closed spec fn slots(&self) -> NamedSlots<InMemoryNativeManagedValue<V>> {
        self.slots
    }

    /// The value kept under `name` in `slots`; none when there is none.
    pub open spec fn value_in(slots: NamedSlots<InMemoryNativeManagedValue<V>>, name: Seq<char>) -> Option<
        V::V,
    > {
        match slots.slot(name) {
            Some(t) => t.value(),
            None => None,
        }
    }

    pub fn new(name: &str, slots: NamedSlots<InMemoryNativeManagedValue<V>>) -> (r: Self)
        ensures
            r.name() == name@,
            r.slots() == slots,
            r.value() == Self::value_in(slots, name@),
    {
        InMemoryManagedValue { name: name.to_owned(), slots }
    }

    /// Gives the store back, with this value kept under its name.
    pub fn into_slots(self) -> (r: NamedSlots<InMemoryNativeManagedValue<V>>)
        ensures
            r == self.slots(),
    {
        self.slots
    }

    fn take_slot(&mut self) -> (t: InMemoryNativeManagedValue<V>)
        ensures
            t.value() == old(self).value(),
            final(self).name == old(self).name,
    {
        match self.slots.replace(&self.name, InMemoryNativeManagedValue::new()) {
            Some(t) => t,
            None => InMemoryNativeManagedValue::new(),
        }
    }

    fn put_slot(&mut self, t: InMemoryNativeManagedValue<V>)
        ensures
            final(self).value() == t.value(),
            final(self).name == old(self).name,
    {
        let _ = self.slots.replace(&self.name, t);
    }
}

impl<V: StateValue> ManagedValue<V> for InMemoryManagedValue<V> {
    closed spec fn value(&self) -> Option<V::V> {
        Self::value_in(self.slots, self.name@)
    }

    fn set(&mut self, value: V) {
        let mut t = self.take_slot();
        t.set(value);
        self.put_slot(t);
    }

    fn get(&self) -> (r: Option<Rc<V>>) {
        match self.slots.get(&self.name) {
            Some(t) => t.get(),
            None => None,
        }
    }

    fn take(&mut self) -> (r: Option<V>) {
        let mut t = self.take_slot();
        let r = t.take();
        self.put_slot(t);
        r
    }

    fn rmw(&mut self, modification: V) {
        let mut t = self.take_slot();
        t.rmw(modification);
        self.put_slot(t);
    }
}

} // verus!
