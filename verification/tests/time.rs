use postflight::time::{Duration, Timestamp};

#[test]
fn durations_are_whole_seconds_and_a_rest() {
    let d = Duration::from_millis(61_500);
    assert_eq!(d.as_secs(), 61);
    assert_eq!(d.subsec_nanos(), 500_000_000);
    assert_eq!(Duration::from_secs(3).as_secs(), 3);
    assert!(Duration::new(1, 0) == Duration::from_millis(1000));
}

#[test]
fn durations_compare_by_length() {
    let short = Duration::new(1, 999_999_999);
    let long = Duration::new(2, 0);
    assert!(long.at_least(short));
    assert!(long.at_least(long));
    assert!(!short.at_least(long));
}

#[test]
fn sums_carry_and_overflow_is_told() {
    let sum = Duration::new(1, 600_000_000).checked_add(Duration::new(2, 600_000_000)).unwrap();
    assert!(sum == Duration::new(4, 200_000_000));
    assert!(Duration::new(u64::MAX, 999_999_999).checked_add(Duration::new(0, 1)).is_none());
    assert!(Duration::new(u64::MAX, 0).checked_add(Duration::new(0, 999_999_999)).is_some());
}

#[test]
fn differences_borrow_and_stop_at_nothing() {
    let late = Duration::new(5, 100_000_000);
    let early = Duration::new(3, 200_000_000);
    assert!(late.saturating_sub(early) == Duration::new(1, 900_000_000));
    assert!(early.saturating_sub(late) == Duration::new(0, 0));
}

#[test]
fn moments_count_from_the_start_of_1970() {
    let after = Timestamp::after_epoch(Duration::new(5, 7)).unwrap();
    assert_eq!((after.secs, after.nanos), (5, 7));
    let before = Timestamp::before_epoch(Duration::new(5, 7)).unwrap();
    assert_eq!((before.secs, before.nanos), (-6, 999_999_993));
    let whole = Timestamp::before_epoch(Duration::new(5, 0)).unwrap();
    assert_eq!((whole.secs, whole.nanos), (-5, 0));
    assert!(Timestamp::after_epoch(Duration::new(u64::MAX, 0)).is_none());
    assert!(Timestamp::before_epoch(Duration::new(u64::MAX, 0)).is_none());
}

#[test]
fn the_clock_agrees_with_the_system() {
    let before = std::time::SystemTime::now().duration_since(std::time::UNIX_EPOCH).unwrap();
    let now = Timestamp::now();
    let after = std::time::SystemTime::now().duration_since(std::time::UNIX_EPOCH).unwrap();
    assert!(before.as_secs() as i64 <= now.secs && now.secs <= after.as_secs() as i64);
    assert!(now.nanos < 1_000_000_000);
}
