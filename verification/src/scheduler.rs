//! The scheduler's per-cycle decisions: what a realm-group task does with a
//! fetch outcome, and how long a finished cycle waits before the next one.
//!
//! The surrounding loop — worker pool, clock, network — lives outside; it
//! hands each group task the outcome of the auction-listings fetch and
//! performs the waits this module computes.

use crate::store::{snapshot_wf, PriceSnapshotStore, RealmPriceSnapshot};
use crate::valuation::{
    calculate_auction_values, category_values_spec, valuation_input_ok, value_map_spec,
    AuctionListing, Category, VendorItem,
};
use vstd::prelude::*;

verus! {

/// What the auction-listings fetch reported for a group's lead realm: new
/// listings with their timestamp, or nothing new since the last update.
pub enum FetchOutcome {
    Unchanged,
    NewData(u64, Vec<AuctionListing>),
}

/// Decides what a group task publishes. No new data plans no publish at all,
/// leaving every member's snapshot untouched; new data plans one snapshot —
/// the engine's output under the new timestamp — for the whole group.
pub fn plan_group_update(outcome: FetchOutcome, catalog: &Vec<VendorItem>) -> (r: Option<
    RealmPriceSnapshot,
>)
    requires
        outcome matches FetchOutcome::NewData(_, listings) ==> valuation_input_ok(
            listings@,
            catalog@,
        ),
    ensures
        match outcome {
            FetchOutcome::Unchanged => r is None,
            FetchOutcome::NewData(ts, listings) => (r matches Some(s) && s.last_update == ts
                && s.value_map@ == value_map_spec(listings@, catalog@, catalog@)
                && s.blood_item_values@ == category_values_spec(
                listings@,
                catalog@,
                Category::Blood,
            ) && s.sargerite_item_values@ == category_values_spec(
                listings@,
                catalog@,
                Category::Sargerite,
            ) && snapshot_wf(s)),
        },
{
    match outcome {
        FetchOutcome::Unchanged => None,
        FetchOutcome::NewData(ts, listings) => {
            let (value_map, blood, sargerite) = calculate_auction_values(&listings, catalog);
            Some(
                RealmPriceSnapshot {
                    last_update: ts,
                    value_map,
                    blood_item_values: blood,
                    sargerite_item_values: sargerite,
                },
            )
        },
    }
}

/// Runs one group's cycle step against the store: plan from the fetch
/// outcome, then publish the planned snapshot to every member realm of the
/// group — identical data for all, since they share one auction house. An
/// unchanged outcome publishes nothing.
pub fn run_group_task(
    store: &PriceSnapshotStore,
    group: &Vec<String>,
    outcome: FetchOutcome,
    catalog: &Vec<VendorItem>,
)
    requires
        store.wf(),
        forall|i: int| 0 <= i < group@.len() ==> store.has_realm((#[trigger] group@[i])@),
        outcome matches FetchOutcome::NewData(_, listings) ==> valuation_input_ok(
            listings@,
            catalog@,
        ),
{
    match plan_group_update(outcome, catalog) {
        None => {},
        Some(snap) => {
            let n = group.len();
            for i in 0..n
                invariant
                    n == group@.len(),
                    store.wf(),
                    snapshot_wf(snap),
                    forall|k: int| 0 <= k < group@.len() ==> store.has_realm((#[trigger] group@[k])@),
            {
                store.publish(&group[i], snap.duplicate());
            }
        },
    }
}

/// How long a finished cycle waits before the next one: the remainder of the
/// configured period, or nothing when the cycle overran it.
pub fn cycle_wait(cycle_start: u64, cycle_end: u64, period: u64) -> (r: u64)
    requires
        cycle_start <= cycle_end,
    ensures
        cycle_end - cycle_start >= period ==> r == 0,
        cycle_end - cycle_start < period ==> r == period - (cycle_end - cycle_start),
{
    let elapsed = cycle_end - cycle_start;
    if elapsed >= period {
        0
    } else {
        period - elapsed
    }
}

} // verus!
