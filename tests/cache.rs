use mock_instant::thread_local::MockClock;
use qwikache::{Cache, Instant};
use std::time::Duration;

#[test]
fn put_with_no_expiration() {
    let mut cache = Cache::default();
    cache.put("test_key".to_string(), "test_value");
    assert_eq!(cache.len(), 1);
    assert!(cache.contains_key(&"test_key".to_string()));
    assert_eq!(cache.expiration_count(), 0);
}

#[test]
fn put_with_expiration() {
    let mut cache = Cache::default();
    cache.put_exp(
        "test_key".to_string(),
        "test_value",
        Some(Instant::now().plus_secs(1)),
    );

    assert_eq!(cache.len(), 1);
    assert!(cache.contains_key(&"test_key".to_string()));
    assert_eq!(cache.expiration_count(), 1);

    MockClock::advance(Duration::from_secs(2));
    cache.put("another_key".to_string(), "another_value");

    assert_eq!(cache.len(), 1);
    assert!(!cache.contains_key(&"test_key".to_string()));
    assert_eq!(cache.expiration_count(), 0);
}

#[test]
fn get_unexpired() {
    let mut cache = Cache::default();
    cache.put_exp(
        "test_key".to_string(),
        "test_value",
        Some(Instant::now().plus_secs(1)),
    );

    assert_eq!(cache.get(&"test_key".to_string()), Some(&"test_value"));
}

#[test]
fn get_expired() {
    let mut cache = Cache::default();
    cache.put_exp(
        "test_key".to_string(),
        "test_value",
        Some(Instant::now().plus_secs(1)),
    );

    MockClock::advance(Duration::from_secs(2));

    assert_eq!(cache.get(&"test_key".to_string()), None);
}

#[test]
fn delete_unexpired() {
    let mut cache = Cache::default();
    cache.put_exp(
        "test_key".to_string(),
        "test_value",
        Some(Instant::now().plus_secs(1)),
    );

    cache.delete(&"test_key".to_string());
    assert_eq!(cache.len(), 0);
    assert_eq!(cache.expiration_count(), 0);
}

#[test]
fn scenario_expire_then_sweep_on_next_store() {
    let mut cache = Cache::default();
    cache.put_exp("a".to_string(), 1, Some(Instant::now().plus_secs(1)));
    assert_eq!(cache.get(&"a".to_string()), Some(&1));
    MockClock::advance(Duration::from_secs(2));
    assert_eq!(cache.get(&"a".to_string()), None);
    cache.put("b".to_string(), 2);
    assert_eq!(cache.len(), 1);
    assert!(!cache.contains_key(&"a".to_string()));
    assert!(cache.contains_key(&"b".to_string()));
    assert_eq!(cache.expiration_count(), 0);
    assert_eq!(cache.get(&"b".to_string()), Some(&2));
}

#[test]
fn round_trip_without_expiration() {
    let mut cache = Cache::new();
    cache.put_at("k".to_string(), 7u32, Instant::from_nanos(5));
    assert_eq!(cache.get_at(&"k".to_string(), Instant::from_nanos(0)), Some(&7));
    assert_eq!(cache.get_at(&"k".to_string(), Instant::from_nanos(u64::MAX)), Some(&7));
    cache.put_at("k".to_string(), 8u32, Instant::from_nanos(6));
    assert_eq!(cache.get_at(&"k".to_string(), Instant::from_nanos(6)), Some(&8));
    assert_eq!(cache.len(), 1);
}

#[test]
fn expiration_boundary_is_exclusive() {
    let mut cache = Cache::new();
    cache.put_exp_at("k".to_string(), 1u8, Some(Instant::from_nanos(100)), Instant::from_nanos(10));
    assert_eq!(cache.get_at(&"k".to_string(), Instant::from_nanos(99)), Some(&1));
    assert_eq!(cache.get_at(&"k".to_string(), Instant::from_nanos(100)), None);
    assert_eq!(cache.get_at(&"k".to_string(), Instant::from_nanos(101)), None);
}

#[test]
fn lookups_never_evict() {
    let mut cache = Cache::new();
    cache.put_exp_at("k".to_string(), 1u8, Some(Instant::from_nanos(100)), Instant::from_nanos(10));
    for _ in 0..5 {
        assert_eq!(cache.get_at(&"k".to_string(), Instant::from_nanos(200)), None);
    }
    assert_eq!(cache.len(), 1);
    assert_eq!(cache.expiration_count(), 1);
    cache.put_at("other".to_string(), 2u8, Instant::from_nanos(200));
    assert_eq!(cache.len(), 1);
    assert_eq!(cache.expiration_count(), 0);
}

#[test]
fn store_already_expired_is_swept_at_once() {
    let mut cache = Cache::new();
    cache.put_exp_at("k".to_string(), 1u8, Some(Instant::from_nanos(10)), Instant::from_nanos(10));
    assert_eq!(cache.len(), 0);
    assert_eq!(cache.expiration_count(), 0);
}

#[test]
fn sweep_removes_every_expired_entry_and_keeps_the_rest() {
    let mut cache = Cache::new();
    cache.put_exp_at("c".to_string(), 3u8, Some(Instant::from_nanos(30)), Instant::from_nanos(0));
    cache.put_exp_at("a".to_string(), 1u8, Some(Instant::from_nanos(10)), Instant::from_nanos(0));
    cache.put_exp_at("b".to_string(), 2u8, Some(Instant::from_nanos(10)), Instant::from_nanos(0));
    cache.put_at("d".to_string(), 4u8, Instant::from_nanos(0));
    assert_eq!(cache.len(), 4);
    assert_eq!(cache.expiration_count(), 3);
    cache.put_at("e".to_string(), 5u8, Instant::from_nanos(10));
    assert_eq!(cache.len(), 3);
    assert!(!cache.contains_key(&"a".to_string()));
    assert!(!cache.contains_key(&"b".to_string()));
    assert!(cache.contains_key(&"c".to_string()));
    assert_eq!(cache.expiration_count(), 1);
    cache.put_at("f".to_string(), 6u8, Instant::from_nanos(30));
    assert_eq!(cache.len(), 3);
    assert!(!cache.contains_key(&"c".to_string()));
    assert_eq!(cache.expiration_count(), 0);
}

#[test]
fn replacement_drops_earlier_record() {
    let mut cache = Cache::new();
    cache.put_exp_at("k".to_string(), 1u8, Some(Instant::from_nanos(50)), Instant::from_nanos(0));
    cache.put_exp_at("k".to_string(), 2u8, Some(Instant::from_nanos(90)), Instant::from_nanos(0));
    assert_eq!(cache.expiration_count(), 1);
    cache.put_at("other".to_string(), 0u8, Instant::from_nanos(60));
    assert_eq!(cache.get_at(&"k".to_string(), Instant::from_nanos(60)), Some(&2));
    cache.put_at("k".to_string(), 3u8, Instant::from_nanos(60));
    assert_eq!(cache.expiration_count(), 0);
    cache.put_at("other".to_string(), 0u8, Instant::from_nanos(1000));
    assert_eq!(cache.get_at(&"k".to_string(), Instant::from_nanos(1000)), Some(&3));
}

#[test]
fn delete_absent_and_twice() {
    let mut cache = Cache::new();
    cache.delete(&"missing".to_string());
    assert_eq!(cache.len(), 0);
    cache.put_exp_at("k".to_string(), 1u8, Some(Instant::from_nanos(50)), Instant::from_nanos(0));
    cache.put_at("j".to_string(), 2u8, Instant::from_nanos(0));
    cache.delete(&"k".to_string());
    cache.delete(&"k".to_string());
    assert_eq!(cache.len(), 1);
    assert_eq!(cache.expiration_count(), 0);
    assert_eq!(cache.get_at(&"j".to_string(), Instant::from_nanos(0)), Some(&2));
}
