use nexmark_state::maintenance::{maintenance_for, SerialCounter};

#[test]
fn upkeep_follows_the_operation_count() {
    let m = maintenance_for(16);
    assert!(m.refresh && !m.complete_pending && !m.report_size);
    let m = maintenance_for(1024);
    assert!(m.refresh && m.complete_pending && !m.report_size);
    let m = maintenance_for(1 << 20);
    assert!(m.refresh && m.complete_pending && m.report_size);
    let m = maintenance_for(17);
    assert!(!m.refresh && !m.complete_pending && !m.report_size);
}

#[test]
fn serial_numbers_count_up_from_one() {
    let mut counter = SerialCounter::new();
    let (first, _) = counter.take();
    let (second, _) = counter.take();
    assert_eq!((first, second), (1, 2));
    assert_eq!(counter.next, 3);
}
