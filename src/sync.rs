//! A cache shared between threads: any number of readers at once, or one writer.
use crate::cache::Cache;
use crate::instant::Instant;
use std::sync::Arc;
use vstd::prelude::*;
use vstd::rwlock::{RwLock, RwLockPredicate};

verus! {

/// What every cache held by the lock satisfies: the cache's own invariant.
pub struct WellFormed;

impl<V> RwLockPredicate<Cache<V>> for WellFormed {
    open spec fn inv(self, c: Cache<V>) -> bool {
        c.wf()
    }
}

/// A cache behind a reader/writer lock. Lookups share the lock; stores and
/// deletes hold it alone, so each one is seen whole or not at all. Clones of
/// a `SyncCache` share one lock and one cache.
#[verifier::reject_recursive_types(V)]
pub struct SyncCache<V> {
    cache: Arc<RwLock<Cache<V>, WellFormed>>,
}

impl<V: Clone> SyncCache<V> {
    /// A shared, empty cache.
    pub fn new() -> (r: Self) {
        let lock = RwLock::new(Cache::new(), Ghost(WellFormed));
        SyncCache { cache: Arc::new(lock) }
    }

    /// Stores `value` under `key` with an optional expiration, replacing any
    /// earlier entry. Waits until no other thread holds the lock.
    pub fn put_exp(&self, key: String, value: V, expires: Option<Instant>) {
        let (mut c, handle) = self.cache.acquire_write();
        c.put_exp(key, value, expires);
        handle.release_write(c);
    }

    /// Stores `value` under `key`; the entry never expires. Waits until no
    /// other thread holds the lock.
    pub fn put(&self, key: String, value: V) {
        self.put_exp(key, value, None)
    }

    /// A copy of the value stored for `key`, if it has not expired. Waits
    /// only for a writer, never for other readers.
    pub fn get(&self, key: &String) -> (r: Option<V>) {
        let handle = self.cache.acquire_read();
        let r = match handle.borrow().get(key) {
            Some(v) => Some(v.clone()),
            None => None,
        };
        handle.release_read();
        r
    }

    /// Deletes any entry for `key`. Waits until no other thread holds the lock.
    pub fn delete(&self, key: &String) {
        let (mut c, handle) = self.cache.acquire_write();
        c.delete(key);
        handle.release_write(c);
    }
}

impl<V: Clone> Default for SyncCache<V> {
    /// A shared, empty cache.
    fn default() -> (r: Self) {
        SyncCache::new()
    }
}

impl<V> Clone for SyncCache<V> {
    /// Another handle on the same lock and cache.
    fn clone(&self) -> (r: Self) {
        SyncCache { cache: self.cache.clone() }
    }
}

} // verus!
