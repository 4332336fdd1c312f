//! Market valuation service for a fixed catalog of tradeable items across
//! game realms that share auction houses.
//!
//! The crate holds the verified core of the service: the percentile-based
//! valuation engine, the realm-grouping logic, the per-realm snapshot store,
//! the rate-limiter and retry decisions of the fetch client, and the
//! scheduler's per-cycle planning. Transport and presentation live outside.

pub mod fetch;
pub mod scheduler;
pub mod store;
pub mod topology;
pub mod valuation;

use vstd::prelude::*;

verus! {

/// Content we care about in an item info response.
pub struct ItemInfo {
    pub id: u64,
    pub name: String,
    pub icon: String,
}

} // verus!
