//! A key/value cache keyed by strings, whose entries may carry an expiration
//! instant. Expired entries stop being returned at once and are removed by the
//! next store.
use vstd::prelude::*;

pub mod cache;
pub mod instant;
pub mod laws;
pub mod sync;

pub use cache::{Cache, Entry};
pub use instant::Instant;
pub use sync::SyncCache;

verus! {

} // verus!
