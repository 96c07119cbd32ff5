use std::rc::Rc;

use nexmark_state::in_memory::{InMemoryManagedMap, InMemoryManagedValue, NamedSlots};
use nexmark_state::primitives::{ManagedMap, ManagedValue};

#[test]
fn new_map_gets_none() {
    let map: InMemoryManagedMap<u64, i32> = InMemoryManagedMap::new("", NamedSlots::new());
    assert_eq!(map.get(&1), None);
}

#[test]
fn map_remove() {
    let mut map: InMemoryManagedMap<u64, i32> = InMemoryManagedMap::new("", NamedSlots::new());
    let key = 1;
    let value = 42;
    map.insert(key, value);
    assert_eq!(map.remove(&key), Some(value));
    assert_eq!(map.get(&key), None);
}

#[test]
fn managed_map_map_rmw() {
    let mut map: InMemoryManagedMap<u64, i32> = InMemoryManagedMap::new("", NamedSlots::new());
    let key = 1;
    let value = 32;
    let modification = 10;
    map.insert(key, value);
    map.rmw(key, modification);
    assert_eq!(map.get(&key), Some(Rc::new(value + modification)));
}

#[test]
fn map_drop() {
    let tables = NamedSlots::new();
    let tables = {
        let mut map: InMemoryManagedMap<u64, i32> = InMemoryManagedMap::new("state", tables);
        map.insert(7, 100);
        map.rmw(7, 50);
        assert_eq!(Rc::new(150), map.get(&7).expect("Value not rmw correctly"));
        map.into_tables()
    };
    let mut map: InMemoryManagedMap<u64, i32> = InMemoryManagedMap::new("state", tables);
    assert_eq!(150, map.remove(&7).expect("Value dropped from backend"));
}

#[test]
fn named_maps_are_kept_apart() {
    let tables = NamedSlots::new();
    let mut a: InMemoryManagedMap<u64, i32> = InMemoryManagedMap::new("a", tables);
    a.insert(1, 1);
    let mut b = InMemoryManagedMap::new("b", a.into_tables());
    assert_eq!(b.get(&1), None);
    b.insert(1, 2);
    let a = InMemoryManagedMap::new("a", b.into_tables());
    assert_eq!(a.get(&1), Some(Rc::new(1)));
    assert_eq!(a.get_key_prefix_length(), 1);
}

#[test]
fn new_value_contains_none() {
    let value: InMemoryManagedValue<i32> = InMemoryManagedValue::new("", NamedSlots::new());
    assert_eq!(value.get(), None);
}

#[test]
fn value_take_removes_value() {
    let mut value: InMemoryManagedValue<i32> = InMemoryManagedValue::new("", NamedSlots::new());
    value.set(42);
    assert_eq!(value.take(), Some(42));
    assert_eq!(value.take(), None);
}

#[test]
fn managed_value_value_rmw() {
    let mut value: InMemoryManagedValue<i32> = InMemoryManagedValue::new("", NamedSlots::new());
    value.set(32);
    value.rmw(10);
    assert_eq!(value.take(), Some(42));
}

#[test]
fn value_drop() {
    let slots = {
        let mut value: InMemoryManagedValue<i32> = InMemoryManagedValue::new("", NamedSlots::new());
        value.set(32);
        value.rmw(10);
        assert_eq!(value.get(), Some(Rc::new(42)));
        value.into_slots()
    };
    let mut value: InMemoryManagedValue<i32> = InMemoryManagedValue::new("", slots);
    assert_eq!(value.take(), Some(42));
}
