use blood_money::store::{PriceSnapshotStore, RealmPriceSnapshot};
use blood_money::valuation::ItemValuation;

fn store_with(slugs: &[&str]) -> PriceSnapshotStore {
    let keys: Vec<String> = slugs.iter().map(|s| s.to_string()).collect();
    PriceSnapshotStore::new(&keys)
}

#[test]
fn new_store_reports_known_and_unknown_slugs() {
    let store = store_with(&["cenarius", "arthas"]);
    assert!(store.contains_realm(&"cenarius".to_string()));
    assert!(store.contains_realm(&"arthas".to_string()));
    assert!(!store.contains_realm(&"tichondrius".to_string()));
}

#[test]
fn unknown_slug_reads_not_found() {
    let store = store_with(&["cenarius"]);
    assert!(store.read(&"tichondrius".to_string()).is_none());
}

#[test]
fn fresh_realm_reads_as_never_updated() {
    let store = store_with(&["cenarius"]);
    let snap = store.read(&"cenarius".to_string()).expect("known realm");
    assert_eq!(snap.last_update, 0);
    assert!(snap.value_map.is_empty());
    assert!(snap.blood_item_values.is_empty());
    assert!(snap.sargerite_item_values.is_empty());
}

#[test]
fn publish_replaces_the_whole_snapshot() {
    let store = store_with(&["cenarius", "arthas"]);
    let snap = RealmPriceSnapshot {
        last_update: 42,
        value_map: vec![ItemValuation { id: 1, value: 10 }],
        blood_item_values: vec![ItemValuation { id: 1, value: 10 }],
        sargerite_item_values: Vec::new(),
    };
    store.publish(&"cenarius".to_string(), snap);

    let seen = store.read(&"cenarius".to_string()).expect("known realm");
    assert_eq!(seen.last_update, 42);
    assert_eq!(seen.value_map, vec![ItemValuation { id: 1, value: 10 }]);
    assert_eq!(
        seen.blood_item_values,
        vec![ItemValuation { id: 1, value: 10 }]
    );
    assert!(seen.sargerite_item_values.is_empty());

    // The sibling key is untouched.
    let other = store.read(&"arthas".to_string()).expect("known realm");
    assert_eq!(other.last_update, 0);
    assert!(other.value_map.is_empty());
}

#[test]
fn duplicate_copies_every_field() {
    let snap = RealmPriceSnapshot {
        last_update: 7,
        value_map: vec![ItemValuation { id: 3, value: 4 }],
        blood_item_values: vec![ItemValuation { id: 3, value: 4 }],
        sargerite_item_values: vec![ItemValuation { id: 5, value: 2 }],
    };
    let copy = snap.duplicate();
    assert_eq!(copy.last_update, snap.last_update);
    assert_eq!(copy.value_map, snap.value_map);
    assert_eq!(copy.blood_item_values, snap.blood_item_values);
    assert_eq!(copy.sargerite_item_values, snap.sargerite_item_values);
}
