use mock_instant::thread_local::MockClock;
use qwikache::cache::key_before;
use qwikache::Instant;
use std::time::Duration;

#[test]
fn key_order_is_bytewise() {
    assert!(key_before(&"a".to_string(), &"b".to_string()));
    assert!(!key_before(&"b".to_string(), &"a".to_string()));
    assert!(key_before(&"ab".to_string(), &"abc".to_string()));
    assert!(!key_before(&"abc".to_string(), &"ab".to_string()));
    assert!(!key_before(&"same".to_string(), &"same".to_string()));
    assert!(key_before(&"".to_string(), &"x".to_string()));
    assert!(key_before(&"Z".to_string(), &"a".to_string()));
}

#[test]
fn instant_arithmetic() {
    let t = Instant::from_nanos(5);
    assert_eq!(t.as_nanos(), 5);
    assert_eq!(t.plus_nanos(7).as_nanos(), 12);
    assert_eq!(t.plus_secs(2).as_nanos(), 2_000_000_005);
    assert_eq!(t.plus_nanos(u64::MAX).as_nanos(), u64::MAX);
    assert_eq!(t.plus_secs(u64::MAX).as_nanos(), u64::MAX);
}

#[test]
fn now_reads_the_mock_clock() {
    MockClock::set_time(Duration::from_secs(3));
    assert_eq!(Instant::now().as_nanos(), 3_000_000_000);
    MockClock::advance(Duration::from_millis(1));
    assert_eq!(Instant::now().as_nanos(), 3_001_000_000);
}
