use metrics_dashboard::ring::Ring;

#[test]
fn push_beyond_capacity_keeps_last_values_oldest_first() {
    let mut ring: Ring<u64> = Ring::new(3);
    for v in 1..=7u64 {
        ring.push(v);
    }
    assert_eq!(ring.iter_chronological(), vec![5, 6, 7]);
    assert_eq!(ring.latest(), Some(&7));
    assert_eq!(ring.len(), 3);
}

#[test]
fn push_below_capacity_keeps_everything() {
    let mut ring: Ring<u64> = Ring::new(5);
    ring.push(10);
    ring.push(20);
    assert_eq!(ring.iter_chronological(), vec![10, 20]);
    assert_eq!(ring.max_len(), 5);
}

#[test]
fn empty_ring_has_no_latest() {
    let ring: Ring<u64> = Ring::new(4);
    assert_eq!(ring.latest(), None);
    assert!(ring.iter_chronological().is_empty());
}

#[test]
fn zero_capacity_ring_keeps_nothing() {
    let mut ring: Ring<u64> = Ring::new(0);
    ring.push(1);
    ring.push(2);
    assert!(ring.iter_chronological().is_empty());
    assert_eq!(ring.latest(), None);
}

#[test]
fn shrinking_drops_oldest_and_growing_keeps_all() {
    let mut ring: Ring<u64> = Ring::new(5);
    for v in 1..=5u64 {
        ring.push(v);
    }
    ring.set_max_len(2);
    assert_eq!(ring.iter_chronological(), vec![4, 5]);
    assert_eq!(ring.max_len(), 2);
    ring.set_max_len(4);
    assert_eq!(ring.iter_chronological(), vec![4, 5]);
    ring.push(6);
    ring.push(7);
    ring.push(8);
    assert_eq!(ring.iter_chronological(), vec![5, 6, 7, 8]);
}

#[test]
fn resize_round_trip_keeps_newest_in_order() {
    let mut ring: Ring<u64> = Ring::new(6);
    for v in 1..=6u64 {
        ring.push(v);
    }
    ring.set_max_len(3);
    ring.set_max_len(6);
    assert_eq!(ring.iter_chronological(), vec![4, 5, 6]);

    let mut grown: Ring<u64> = Ring::new(3);
    for v in 1..=3u64 {
        grown.push(v);
    }
    grown.set_max_len(10);
    grown.set_max_len(3);
    assert_eq!(grown.iter_chronological(), vec![1, 2, 3]);
}
