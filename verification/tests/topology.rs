use blood_money::topology::{extract_realms, process_realm_sets, DataIntegrityError, RealmInfo};

fn realm(name: &str, slug: &str, connected: &[&str]) -> RealmInfo {
    RealmInfo {
        name: name.to_string(),
        slug: slug.to_string(),
        connected_realms: connected.iter().map(|s| s.to_string()).collect(),
    }
}

fn slugs(group: &[String]) -> Vec<&str> {
    group.iter().map(|s| s.as_str()).collect()
}

#[test]
fn grouping_collapses_shared_auction_houses() {
    let realms = vec![
        realm("Cenarius", "cenarius", &["cenarius", "nesingwary"]),
        realm("Nesingwary", "nesingwary", &["cenarius", "nesingwary"]),
        realm("Arthas", "arthas", &["arthas"]),
    ];
    let groups = process_realm_sets(&realms);
    assert_eq!(groups.len(), 2);
    assert_eq!(slugs(&groups[0]), vec!["arthas"]);
    assert_eq!(slugs(&groups[1]), vec!["cenarius", "nesingwary"]);
}

#[test]
fn grouping_is_idempotent() {
    let realms = vec![
        realm("B", "b", &["b", "c"]),
        realm("C", "c", &["b", "c"]),
        realm("A", "a", &["a"]),
    ];
    let once = process_realm_sets(&realms);
    let again: Vec<RealmInfo> = once
        .iter()
        .map(|group| RealmInfo {
            name: group[0].clone(),
            slug: group[0].clone(),
            connected_realms: group.clone(),
        })
        .collect();
    let twice = process_realm_sets(&again);
    assert_eq!(once, twice);
}

#[test]
fn grouping_output_leads_are_distinct() {
    let realms = vec![
        realm("A", "a", &["a", "b"]),
        realm("B", "b", &["a", "b"]),
        realm("C", "c", &["c", "d"]),
        realm("D", "d", &["c", "d"]),
    ];
    let groups = process_realm_sets(&realms);
    for i in 0..groups.len() {
        for j in 0..groups.len() {
            if i != j {
                assert_ne!(groups[i][0], groups[j][0]);
            }
        }
    }
}

#[test]
fn grouping_sorts_by_lead_slug() {
    let realms = vec![
        realm("Z", "z", &["z"]),
        realm("M", "m", &["m"]),
        realm("A", "a", &["a"]),
    ];
    let groups = process_realm_sets(&realms);
    assert_eq!(slugs(&groups[0]), vec!["a"]);
    assert_eq!(slugs(&groups[1]), vec!["m"]);
    assert_eq!(slugs(&groups[2]), vec!["z"]);
}

#[test]
fn grouping_orders_prefixes_before_extensions() {
    let realms = vec![
        realm("Drakthul", "drakthul", &["drakthul"]),
        realm("Draka", "draka", &["draka"]),
        realm("Drak", "drak", &["drak"]),
    ];
    let groups = process_realm_sets(&realms);
    assert_eq!(slugs(&groups[0]), vec!["drak"]);
    assert_eq!(slugs(&groups[1]), vec!["draka"]);
    assert_eq!(slugs(&groups[2]), vec!["drakthul"]);
}

#[test]
fn extract_realms_passes_the_list_through() {
    let realms = vec![realm("A", "a", &["a"])];
    let extracted = extract_realms(Some(realms)).expect("realm list should extract");
    assert_eq!(extracted.len(), 1);
    assert_eq!(extracted[0].slug, "a");
}

#[test]
fn extract_realms_missing_list_is_fatal_error() {
    match extract_realms(None) {
        Err(e) => assert_eq!(e, DataIntegrityError::MissingRealmList),
        Ok(_) => panic!("a missing realm list must be an error"),
    }
}
