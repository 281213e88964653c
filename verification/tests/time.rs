use cahill::time::{Duration, MAX_NANOS};

#[test]
fn constructors() {
    assert_eq!(Duration::from_secs(2).nanos, 2_000_000_000);
    assert_eq!(Duration::from_millis(1500).as_secs(), 1);
    assert_eq!(Duration::from_millis(1500).subsec_nanos(), 500_000_000);
    assert_eq!(Duration::from_nanos(7).nanos, 7);
    assert_eq!(Duration::new(1, 2_500_000_000), Some(Duration::from_millis(3500)));
    assert_eq!(Duration::new(u64::MAX, 999_999_999), Some(Duration::max_value()));
    assert_eq!(Duration::new(u64::MAX, 1_000_000_000), None);
    assert_eq!(Duration::max_value().nanos, MAX_NANOS);
}

#[test]
fn arithmetic() {
    let a = Duration::from_secs(3);
    let b = Duration::from_secs(5);
    assert_eq!(a.checked_add(b), Some(Duration::from_secs(8)));
    assert_eq!(b.checked_sub(a), Some(Duration::from_secs(2)));
    assert_eq!(a.checked_sub(b), None);
    assert_eq!(Duration::max_value().checked_add(Duration::from_nanos(1)), None);
    assert_eq!(a.max(b), b);
    assert_eq!(a.min(b), a);
    assert!(b.longer_than(&a));
    assert!(a.at_most(&a));
}
