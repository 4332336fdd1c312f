use blood_money::fetch::{
    app_url_for_region, AdmitDecision, AttemptOutcome, FetchStep, RateLimiter, Region, RetryState,
};
use blood_money::scheduler::{cycle_wait, plan_group_update, run_group_task, FetchOutcome};
use blood_money::store::PriceSnapshotStore;
use blood_money::valuation::{AuctionListing, Category, Conversion, ItemValuation, VendorItem};

fn catalog_one_item() -> Vec<VendorItem> {
    vec![VendorItem {
        id: 100,
        name: "X".to_string(),
        conversion: Conversion::Multiply(1),
        category: Category::Blood,
        subtext: None,
        mats: None,
    }]
}

fn sample_listings() -> Vec<AuctionListing> {
    vec![
        AuctionListing {
            item: 100,
            quantity: 10,
            buyout: 1000,
        },
        AuctionListing {
            item: 100,
            quantity: 90,
            buyout: 500,
        },
    ]
}

#[test]
fn unchanged_outcome_plans_no_publish() {
    let catalog = catalog_one_item();
    assert!(plan_group_update(FetchOutcome::Unchanged, &catalog).is_none());
}

#[test]
fn new_data_plans_the_engine_output() {
    let catalog = catalog_one_item();
    let snap = plan_group_update(FetchOutcome::NewData(777, sample_listings()), &catalog)
        .expect("new data must plan a snapshot");
    assert_eq!(snap.last_update, 777);
    assert_eq!(snap.value_map, vec![ItemValuation { id: 100, value: 5 }]);
    assert_eq!(
        snap.blood_item_values,
        vec![ItemValuation { id: 100, value: 5 }]
    );
    assert!(snap.sargerite_item_values.is_empty());
}

#[test]
fn unchanged_cycle_leaves_snapshots_identical() {
    let slugs = vec!["cenarius".to_string(), "nesingwary".to_string()];
    let store = PriceSnapshotStore::new(&slugs);
    let catalog = catalog_one_item();

    // Give the group some data first.
    run_group_task(
        &store,
        &slugs,
        FetchOutcome::NewData(10, sample_listings()),
        &catalog,
    );
    let before_a = store.read(&slugs[0]).unwrap();
    let before_b = store.read(&slugs[1]).unwrap();

    // A cycle that fetched nothing new must change nothing.
    run_group_task(&store, &slugs, FetchOutcome::Unchanged, &catalog);
    let after_a = store.read(&slugs[0]).unwrap();
    let after_b = store.read(&slugs[1]).unwrap();

    assert_eq!(after_a.last_update, before_a.last_update);
    assert_eq!(after_a.value_map, before_a.value_map);
    assert_eq!(after_a.blood_item_values, before_a.blood_item_values);
    assert_eq!(after_a.sargerite_item_values, before_a.sargerite_item_values);
    assert_eq!(after_b.last_update, before_b.last_update);
    assert_eq!(after_b.value_map, before_b.value_map);
    assert_eq!(after_b.blood_item_values, before_b.blood_item_values);
    assert_eq!(after_b.sargerite_item_values, before_b.sargerite_item_values);
}

#[test]
fn new_data_updates_every_group_member_identically() {
    let slugs = vec!["cenarius".to_string(), "nesingwary".to_string()];
    let store = PriceSnapshotStore::new(&slugs);
    let catalog = catalog_one_item();

    run_group_task(
        &store,
        &slugs,
        FetchOutcome::NewData(55, sample_listings()),
        &catalog,
    );
    for slug in &slugs {
        let snap = store.read(slug).unwrap();
        assert_eq!(snap.last_update, 55);
        assert_eq!(snap.blood_item_values, vec![ItemValuation { id: 100, value: 5 }]);
    }
}

#[test]
fn cycle_wait_sleeps_the_remainder() {
    assert_eq!(cycle_wait(100, 160, 1800), 1740);
}

#[test]
fn cycle_wait_restarts_immediately_after_overrun() {
    assert_eq!(cycle_wait(100, 2000, 1800), 0);
    assert_eq!(cycle_wait(100, 1900, 1800), 0);
}

#[test]
fn rate_limiter_admits_up_to_the_budget() {
    let mut limiter = RateLimiter::new(2, 1000);
    assert_eq!(limiter.try_admit(0), AdmitDecision::Admitted);
    assert_eq!(limiter.try_admit(10), AdmitDecision::Admitted);
    assert_eq!(limiter.try_admit(20), AdmitDecision::WaitUntil(1000));
    // The window rolls over and the budget refills.
    assert_eq!(limiter.try_admit(1000), AdmitDecision::Admitted);
}

#[test]
fn retry_counts_failures_and_stops_on_success() {
    let mut retry = RetryState::start();
    match retry.next_step::<u64>(AttemptOutcome::Failed(
        blood_money::fetch::FetchError::Transport,
    )) {
        FetchStep::RetryAttempt(n) => assert_eq!(n, 1),
        FetchStep::Finished(_) => panic!("failure must retry"),
    }
    match retry.next_step::<u64>(AttemptOutcome::Failed(
        blood_money::fetch::FetchError::Decode,
    )) {
        FetchStep::RetryAttempt(n) => assert_eq!(n, 2),
        FetchStep::Finished(_) => panic!("failure must retry"),
    }
    match retry.next_step(AttemptOutcome::Success(99u64)) {
        FetchStep::Finished(v) => assert_eq!(v, 99),
        FetchStep::RetryAttempt(_) => panic!("success must finish"),
    }
    assert_eq!(retry.attempts, 2);
}

#[test]
fn app_url_matches_region() {
    assert_eq!(app_url_for_region(&Region::US), "blood-money");
    assert_eq!(app_url_for_region(&Region::EU), "blood-money-eu");
}
