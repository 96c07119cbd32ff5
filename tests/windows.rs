use nexmark_state::global_count::GlobalCountWindow;
use nexmark_state::in_memory_native::InMemoryNativeManagedMap;
use nexmark_state::primitives::ManagedMap;
use nexmark_state::rank::{rank_keys, rank_sorted};
use nexmark_state::schedule::WindowClock;
use nexmark_state::window::{assign_windows, pane_end, slice_end, window_start};

#[test]
fn pane_ends() {
    assert_eq!(pane_end(0, 1000), 1000);
    assert_eq!(pane_end(999, 1000), 1000);
    assert_eq!(pane_end(1000, 1000), 2000);
    assert_eq!(pane_end(2500, 1000), 3000);
    assert_eq!(slice_end(1_500_000_000), 2_000_000_000);
    assert_eq!(window_start(3000, 1000, 3), 0);
}

#[test]
fn windows_of_an_event() {
    assert_eq!(assign_windows(2500, 1000, 3000), vec![2000, 1000, 0]);
    assert_eq!(assign_windows(500, 1000, 3000), vec![0]);
    assert_eq!(assign_windows(1000, 1000, 2500), vec![1000, 0]);
    assert_eq!(assign_windows(7, 10, 0), Vec::<u64>::new());
}

#[test]
fn clock_requests_and_defers() {
    let mut clock = WindowClock::new(1000, 3);
    let timers = clock.advance(2500);
    assert_eq!(timers, vec![4000, 5000]);
    assert_eq!(clock.pending, vec![3000]);
    assert_eq!(clock.last_slide_seen, 3000);
    let timers = clock.advance(2900);
    assert_eq!(timers, Vec::<u64>::new());
    let timers = clock.advance(3000);
    assert_eq!(timers, vec![6000]);
    assert_eq!(clock.due_windows(4000), vec![3000, 4000]);
    assert!(clock.pending.is_empty());
    assert_eq!(clock.due_windows(5000), vec![5000]);
}

#[test]
fn rank_ties_share_and_jump() {
    assert_eq!(rank_keys(vec![9, 7, 7]), vec![(7, 1), (7, 1), (9, 3)]);
    assert_eq!(
        rank_sorted(&vec![1, 2, 2, 2, 5, 5, 8]),
        vec![(1, 1), (2, 2), (2, 2), (2, 2), (5, 5), (5, 5), (8, 7)]
    );
    assert_eq!(rank_keys(vec![]), Vec::<(u64, u64)>::new());
}

#[test]
fn rank_ignores_input_order() {
    let a = rank_keys(vec![3, 1, 2, 1, 3]);
    let b = rank_keys(vec![1, 3, 3, 2, 1]);
    assert_eq!(a, b);
    assert_eq!(a, vec![(1, 1), (1, 1), (2, 3), (3, 4), (3, 4)]);
}

#[test]
fn three_second_window_counts_three() {
    let panes: InMemoryNativeManagedMap<u64, u64> = InMemoryNativeManagedMap::new();
    let mut op = GlobalCountWindow::new(1000, 3, panes);
    let timers = op.on_data(2500, &vec![(7, 500), (7, 1500), (9, 2500)]);
    assert_eq!(timers, vec![4000, 5000]);
    let out = op.on_notification(4000);
    assert_eq!(out, vec![(3000, 3), (4000, 2)]);
    let out = op.on_notification(5000);
    assert_eq!(out, vec![(5000, 1)]);
}

#[test]
fn empty_window_counts_zero() {
    let panes: InMemoryNativeManagedMap<u64, u64> = InMemoryNativeManagedMap::new();
    let mut op = GlobalCountWindow::new(1000, 3, panes);
    assert_eq!(op.on_notification(3000), vec![(3000, 0)]);
}

#[test]
fn fired_window_purges_its_first_pane() {
    let panes: InMemoryNativeManagedMap<u64, u64> = InMemoryNativeManagedMap::new();
    let mut op = GlobalCountWindow::new(1000, 2, panes);
    op.on_data(1500, &vec![(1, 500), (2, 1200), (3, 1700)]);
    assert!(op.panes.contains(&1000));
    assert_eq!(op.fire(2000), 3);
    assert!(!op.panes.contains(&1000));
    assert!(op.panes.contains(&2000));
}
