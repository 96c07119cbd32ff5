use std::rc::Rc;

use nexmark_state::in_memory_native::{
    InMemoryNativeBackend, InMemoryNativeManagedMap, InMemoryNativeManagedValue,
};
use nexmark_state::primitives::{ManagedMap, ManagedValue};

#[test]
fn native_map_insert_get() {
    let mut map: InMemoryNativeManagedMap<u64, u64> = InMemoryNativeManagedMap::new();
    map.insert(1, 1337);
    assert_eq!(map.get(&1), Some(Rc::new(1337)));
    assert_eq!(map.get(&2), None);
    assert_eq!(map.get_key_prefix_length(), 0);
}

#[test]
fn native_map_contains() {
    let mut map: InMemoryNativeManagedMap<u64, u64> = InMemoryNativeManagedMap::new();
    map.insert(1, 1337);
    assert!(map.contains(&1));
    assert!(!map.contains(&2));
}

#[test]
fn native_map_rmw() {
    let mut map: InMemoryNativeManagedMap<u64, u64> = InMemoryNativeManagedMap::new();
    map.insert(1, 1337);
    map.rmw(1, 10);
    assert_eq!(map.get(&1), Some(Rc::new(1347)));
    map.rmw(2, 5);
    assert_eq!(map.get(&2), Some(Rc::new(5)));
}

#[test]
fn native_map_remove_removes() {
    let mut map: InMemoryNativeManagedMap<u64, u64> = InMemoryNativeManagedMap::new();
    map.insert(1, 1337);
    assert_eq!(map.remove(&1), Some(1337));
    assert_eq!(map.remove(&1), None);
    assert_eq!(map.get(&1), None);
}

#[test]
fn native_map_pair_keys_and_lists() {
    let backend = InMemoryNativeBackend::new();
    let mut map: InMemoryNativeManagedMap<(u64, u64), Vec<(u64, u64)>> =
        backend.get_managed_map("window_buckets");
    map.rmw((7, 0), vec![(7, 500)]);
    map.rmw((7, 0), vec![(7, 1500)]);
    map.rmw((9, 0), vec![(9, 2500)]);
    assert_eq!(map.get(&(7, 0)), Some(Rc::new(vec![(7, 500), (7, 1500)])));
    assert_eq!(map.get(&(9, 0)), Some(Rc::new(vec![(9, 2500)])));
    assert_eq!(map.get(&(0, 7)), None);
}

#[test]
fn native_value_set_get_take() {
    let mut value: InMemoryNativeManagedValue<u64> = InMemoryNativeManagedValue::new();
    assert_eq!(value.get(), None);
    value.set(1337);
    assert_eq!(value.get(), Some(Rc::new(1337)));
    assert_eq!(value.take(), Some(1337));
    assert_eq!(value.take(), None);
}

#[test]
fn native_value_rmw() {
    let mut value: InMemoryNativeManagedValue<u64> = InMemoryNativeManagedValue::new();
    value.rmw(32);
    assert_eq!(value.get(), Some(Rc::new(32)));
    value.rmw(10);
    assert_eq!(value.take(), Some(42));
}

#[test]
fn native_value_list_rmw_appends() {
    let mut value: InMemoryNativeManagedValue<Vec<u64>> = InMemoryNativeManagedValue::new();
    value.set(vec![1, 2]);
    value.rmw(vec![3]);
    assert_eq!(value.take(), Some(vec![1, 2, 3]));
}
