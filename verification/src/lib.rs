//! A sharded hash map with S3-FIFO cache eviction.
//!
//! A [`NeoCache`] spreads its entries over shards by the digests of their keys.
//! Each shard keeps its entries together with two FIFO queues and a ghost set:
//! new entries start in the small queue, entries that were accessed move on to
//! the main queue, and a key that comes back shortly after it was evicted goes
//! to the main queue at once.
//!
//! [`model`] says what a shard's operations do, and [`state`] what a cache's
//! operations do. What follows from both stands in [`laws`], of eviction in
//! [`eviction`], of a cache and its clone in [`alike`], and of any sequence of
//! calls in [`calls`].
pub mod alike;
mod cache;
pub mod calls;
pub mod eviction;
pub mod hashing;
mod index;
pub mod iter;
pub mod keys;
pub mod laws;
pub mod mapref;
pub mod model;
mod ops;
mod read_only;
mod sealed;
pub mod shard;
pub mod sharding;
pub mod state;
mod table;
pub mod try_result;
pub mod util;

pub use crate::cache::NeoCache;
pub use crate::index::MAX_ENTRIES;
pub use crate::mapref::entry::{Entry, OccupiedEntry, VacantEntry};
pub use crate::read_only::ReadOnlyView;
use vstd::prelude::*;

verus! {

/// Error returned when space for more entries could not be allocated.
#[non_exhaustive]
#[derive(PartialEq, Eq, Structural, Debug)]
pub struct TryReserveError {}

impl Clone for TryReserveError {
    fn clone(&self) -> (copy: Self)
        ensures
            copy == *self,
    {
        TryReserveError {  }
    }
}

} // verus!
