use std::rc::Rc;

use nexmark_state::global_rank::GlobalRankWindow;
use nexmark_state::handle::StateHandle;
use nexmark_state::in_memory_native::{InMemoryNativeBackend, InMemoryNativeManagedMap};
use nexmark_state::keyed_count::KeyedCountWindow;
use nexmark_state::keyed_rank::KeyedRankWindow;
use nexmark_state::primitives::{ManagedCount, ManagedMap};

const SEC: u64 = 1_000_000_000;

#[test]
fn three_second_window_ranks_keys() {
    let panes: InMemoryNativeManagedMap<u64, Vec<(u64, u64)>> = InMemoryNativeManagedMap::new();
    let mut op = GlobalRankWindow::new(1000, 3, panes);
    let timers = op.on_data(2500, &vec![(7, 500), (7, 1500), (9, 2500)]);
    assert_eq!(timers, vec![4000, 5000]);
    assert_eq!(op.on_notification(4000), vec![
        (3000, 7, 1),
        (3000, 7, 1),
        (3000, 9, 3),
        (4000, 7, 1),
        (4000, 9, 2),
    ]);
    assert!(!op.panes.contains(&1000));
    assert!(!op.panes.contains(&2000));
}

#[test]
fn rank_window_fire_reads_its_panes() {
    let panes: InMemoryNativeManagedMap<u64, Vec<(u64, u64)>> = InMemoryNativeManagedMap::new();
    let mut op = GlobalRankWindow::new(1000, 3, panes);
    op.on_data(2500, &vec![(9, 2500), (7, 500), (7, 1500)]);
    assert_eq!(op.fire(3000), vec![(3000, 7, 1), (3000, 7, 1), (3000, 9, 3)]);
    assert_eq!(op.fire(6000), Vec::<(u64, u64, u64)>::new());
}

#[test]
fn keyed_window_counts_each_key() {
    let index: InMemoryNativeManagedMap<u64, Vec<u64>> = InMemoryNativeManagedMap::new();
    let panes: InMemoryNativeManagedMap<(u64, u64), u64> = InMemoryNativeManagedMap::new();
    let mut op = KeyedCountWindow::new(SEC, 2, index, panes);
    let events = vec![(7, SEC / 2), (9, SEC + 1), (7, SEC + 2), (7, 3 * SEC)];
    let timers = op.on_data(SEC + 5, &events);
    assert_eq!(timers, vec![3 * SEC]);
    assert_eq!(op.clock.pending, vec![2 * SEC]);
    assert_eq!(op.index.get(&SEC), Some(Rc::new(vec![7])));
    assert_eq!(op.index.get(&(2 * SEC)), Some(Rc::new(vec![9, 7])));
    assert_eq!(op.panes.get(&(7, 2 * SEC)), Some(Rc::new(1)));
    let out = op.on_notification(3 * SEC);
    assert_eq!(out, vec![(2 * SEC, 7, 2), (2 * SEC, 9, 1), (3 * SEC, 7, 1), (3 * SEC, 9, 1)]);
    assert!(op.clock.pending.is_empty());
}

#[test]
fn keyed_fire_purges_first_panes_and_slices() {
    let index: InMemoryNativeManagedMap<u64, Vec<u64>> = InMemoryNativeManagedMap::new();
    let panes: InMemoryNativeManagedMap<(u64, u64), u64> = InMemoryNativeManagedMap::new();
    let mut op = KeyedCountWindow::new(SEC, 2, index, panes);
    op.on_data(0, &vec![(7, 10), (7, SEC + 10), (8, SEC + 20)]);
    assert_eq!(op.fire(2 * SEC), vec![(2 * SEC, 7, 2), (2 * SEC, 8, 1)]);
    assert!(!op.panes.contains(&(7, SEC)));
    assert!(op.panes.contains(&(7, 2 * SEC)));
    assert!(!op.index.contains(&SEC));
    assert!(op.index.contains(&(2 * SEC)));
}

#[test]
fn keyed_rank_ranks_each_key_window() {
    let index: InMemoryNativeManagedMap<u64, Vec<u64>> = InMemoryNativeManagedMap::new();
    let buckets: InMemoryNativeManagedMap<(u64, u64), Vec<(u64, u64)>> =
        InMemoryNativeManagedMap::new();
    let mut op = KeyedRankWindow::new(SEC, 2, index, buckets);
    let timers = op.on_data(&vec![(7, 10), (7, SEC + 10), (8, SEC + 20)]);
    assert_eq!(timers, vec![2 * SEC, 3 * SEC, 2 * SEC, 3 * SEC, 2 * SEC]);
    assert_eq!(op.buckets.get(&(7, 0)), Some(Rc::new(vec![(7, 10), (7, SEC + 10)])));
    assert_eq!(op.buckets.get(&(8, SEC)), Some(Rc::new(vec![(8, SEC + 20)])));
    let out = op.fire(2 * SEC);
    assert_eq!(out, vec![(2 * SEC, 7, 1), (2 * SEC, 7, 1), (2 * SEC, 8, 1)]);
    assert!(!op.buckets.contains(&(7, 0)));
    assert!(op.buckets.contains(&(7, SEC)));
    assert!(!op.index.contains(&SEC));
}

#[test]
fn handles_compose_names() {
    let handle = StateHandle::new(Rc::new(InMemoryNativeBackend::new()), "query");
    let sub = handle.create_sub_handle("op");
    assert_eq!(sub.physical_name("panes"), "query.op.panes".to_string());
    assert_eq!(handle.clone().physical_name("x"), "query.x".to_string());
    let fresh = sub.spawn_new_backend();
    assert_eq!(fresh.physical_name(""), "query.op.".to_string());
    let count = sub.get_managed_count("n");
    assert_eq!(count.get(), 0);
    let map: InMemoryNativeManagedMap<u64, u64> = sub.get_managed_map("m");
    assert!(!map.contains(&1));
}

#[test]
fn window_contents_oldest_pane_first() {
    let panes: InMemoryNativeManagedMap<u64, Vec<(u64, u64)>> = InMemoryNativeManagedMap::new();
    let mut op = GlobalRankWindow::new(1000, 3, panes);
    op.on_data(2500, &vec![(9, 2500), (7, 500), (8, 1500), (6, 2600)]);
    assert_eq!(
        op.fire_records(3000),
        vec![(7, 500), (8, 1500), (9, 2500), (6, 2600)]
    );
    assert!(!op.panes.contains(&1000));
    assert_eq!(op.fire_records(4000), vec![(8, 1500), (9, 2500), (6, 2600)]);
}

#[test]
fn keyed_counts_come_in_ascending_key_order() {
    let index: InMemoryNativeManagedMap<u64, Vec<u64>> = InMemoryNativeManagedMap::new();
    let panes: InMemoryNativeManagedMap<(u64, u64), u64> = InMemoryNativeManagedMap::new();
    let mut op = KeyedCountWindow::new(1000, 3, index, panes);
    op.on_data(600, &vec![(9, 500), (7, 600)]);
    assert_eq!(op.fire(3000), vec![(3000, 7, 1), (3000, 9, 1)]);
}

#[test]
fn window_contents_come_in_time_order() {
    let panes: InMemoryNativeManagedMap<u64, Vec<(u64, u64)>> = InMemoryNativeManagedMap::new();
    let mut op = GlobalRankWindow::new(1000, 3, panes);
    op.on_data(600, &vec![(1, 600), (2, 500), (3, 2200), (4, 1300)]);
    assert_eq!(op.fire_records(3000), vec![(2, 500), (1, 600), (4, 1300), (3, 2200)]);
}
