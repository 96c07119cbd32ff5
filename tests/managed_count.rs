use nexmark_state::in_memory::{InMemoryBackend, InMemoryManagedCount};
use nexmark_state::in_memory_native::InMemoryNativeManagedCount;
use nexmark_state::primitives::ManagedCount;

#[test]
fn managed_count_new_count_returns_0() {
    let count = InMemoryManagedCount::new("", InMemoryBackend::new());
    assert_eq!(count.get(), 0);
}

#[test]
fn managed_count_count_can_increase() {
    let mut count = InMemoryManagedCount::new("", InMemoryBackend::new());
    count.increase(42);
    assert_eq!(count.get(), 42);
}

#[test]
fn managed_count_count_can_decrease() {
    let mut count = InMemoryManagedCount::new("", InMemoryBackend::new());
    count.decrease(42);
    assert_eq!(count.get(), -42);
}

#[test]
fn managed_count_count_can_set_directly() {
    let mut count = InMemoryManagedCount::new("", InMemoryBackend::new());
    count.set(42);
    assert_eq!(count.get(), 42);
}

#[test]
fn named_count_survives_its_handle() {
    let mut count = InMemoryManagedCount::new("state", InMemoryBackend::new());
    count.set(100);
    count.increase(50);
    let backend = count.into_backend();
    assert_eq!(backend.get_count(&"state".to_string()), 150);
    assert_eq!(backend.get_count(&"other".to_string()), 0);
    let again = backend.get_managed_count("state");
    assert_eq!(again.get(), 150);
}

#[test]
fn named_counts_are_kept_apart() {
    let mut backend = InMemoryBackend::new();
    backend.set_count(&"a".to_string(), 1);
    backend.set_count(&"b".to_string(), 2);
    backend.set_count(&"a".to_string(), 3);
    assert_eq!(backend.get_count(&"a".to_string()), 3);
    assert_eq!(backend.get_count(&"b".to_string()), 2);
}

#[test]
fn native_count_changes() {
    let mut count = InMemoryNativeManagedCount::new();
    assert_eq!(count.get(), 0);
    count.increase(42);
    count.decrease(2);
    assert_eq!(count.get(), 40);
    count.set(-7);
    assert_eq!(count.get(), -7);
}
