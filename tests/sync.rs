use mock_instant::thread_local::MockClock;
use qwikache::{Instant, SyncCache};
use std::time::Duration;

#[test]
fn sync_cache_round_trip_and_delete() {
    let cache: SyncCache<String> = SyncCache::default();
    cache.put("k".to_string(), "v".to_string());
    assert_eq!(cache.get(&"k".to_string()), Some("v".to_string()));
    cache.delete(&"k".to_string());
    assert_eq!(cache.get(&"k".to_string()), None);
}

#[test]
fn sync_cache_expiration() {
    let cache: SyncCache<u32> = SyncCache::new();
    cache.put_exp("k".to_string(), 9, Some(Instant::now().plus_secs(1)));
    assert_eq!(cache.get(&"k".to_string()), Some(9));
    MockClock::advance(Duration::from_secs(2));
    assert_eq!(cache.get(&"k".to_string()), None);
}

#[test]
fn sync_cache_clones_share_state() {
    let a: SyncCache<u32> = SyncCache::new();
    let b = a.clone();
    a.put("k".to_string(), 1);
    assert_eq!(b.get(&"k".to_string()), Some(1));
    b.put("k".to_string(), 2);
    assert_eq!(a.get(&"k".to_string()), Some(2));
}
