use polymarket_backtest::ring::{Ring, TimedRing};

#[test]
fn ring_keeps_the_latest_items() {
    let mut r: Ring<i32> = Ring::new(3);
    assert_eq!(r.len(), 0);
    assert_eq!(r.oldest(), None);
    assert_eq!(r.newest(), None);
    r.push(1);
    r.push(2);
    assert!(!r.is_full());
    assert_eq!(r.oldest(), Some(1));
    r.push(3);
    r.push(4);
    assert!(r.is_full());
    assert_eq!(r.len(), 3);
    assert_eq!(r.oldest(), Some(2));
    assert_eq!(r.newest(), Some(4));
    assert_eq!(r.get(0), 2);
    assert_eq!(r.last_n(2), vec![3, 4]);
    assert_eq!(r.last_n(10), vec![2, 3, 4]);
    r.clear();
    assert_eq!(r.len(), 0);
    assert_eq!(r.newest(), None);
}

#[test]
fn timed_ring_finds_oldest_entry_at_or_before() {
    let mut r: TimedRing<u8> = TimedRing::new(3);
    assert_eq!(r.value_at_or_before(10), None);
    r.push(10, 1);
    r.push(20, 2);
    r.push(30, 3);
    r.push(40, 4);
    assert_eq!(r.len(), 3);
    assert_eq!(r.newest(), Some((40, 4)));
    assert_eq!(r.value_at_or_before(35), Some((20, 2)));
    assert_eq!(r.value_at_or_before(15), None);
    assert_eq!(r.get(2), (40, 4));
    r.clear();
    assert_eq!(r.len(), 0);
}
