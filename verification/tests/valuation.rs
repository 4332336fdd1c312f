use blood_money::valuation::{
    calculate_auction_values, lookup_value, percentile_price_exec, AuctionListing, Category,
    Conversion, CraftingComponent, ItemValuation, VendorItem,
};

fn item(id: u64, conversion: Conversion, category: Category) -> VendorItem {
    VendorItem {
        id,
        name: format!("item-{}", id),
        conversion,
        category,
        subtext: None,
        mats: None,
    }
}

fn listing(item: u64, quantity: u64, buyout: u64) -> AuctionListing {
    AuctionListing {
        item,
        quantity,
        buyout,
    }
}

#[test]
fn percentile_price_basic_scenario() {
    // Unit prices 100 and 5; total quantity 100; threshold 100/20 = 5; the
    // ascending scan hits (90, 5) first with cumulative 90 >= 5, so 5 wins.
    let listings = vec![listing(100, 10, 1000), listing(100, 90, 500)];
    assert_eq!(percentile_price_exec(&listings, 100), 5);
}

#[test]
fn percentile_price_no_listings_is_zero() {
    let listings = vec![listing(7, 10, 1000)];
    assert_eq!(percentile_price_exec(&listings, 100), 0);
    assert_eq!(percentile_price_exec(&Vec::new(), 100), 0);
}

#[test]
fn percentile_price_ignores_zero_buyout() {
    let listings = vec![listing(100, 5, 0), listing(100, 4, 40)];
    assert_eq!(percentile_price_exec(&listings, 100), 10);
}

#[test]
fn end_to_end_single_item() {
    let catalog = vec![item(100, Conversion::Multiply(1), Category::Blood)];
    let listings = vec![listing(100, 10, 1000), listing(100, 90, 500)];
    let (value_map, blood, sargerite) = calculate_auction_values(&listings, &catalog);
    assert_eq!(value_map, vec![ItemValuation { id: 100, value: 5 }]);
    assert_eq!(blood, vec![ItemValuation { id: 100, value: 5 }]);
    assert!(sargerite.is_empty());
}

#[test]
fn item_without_market_data_values_zero() {
    let catalog = vec![
        item(1, Conversion::Multiply(1), Category::Blood),
        item(2, Conversion::Multiply(1), Category::Sargerite),
    ];
    let listings = vec![listing(1, 1, 30)];
    let (value_map, blood, sargerite) = calculate_auction_values(&listings, &catalog);
    // Only the item with listings is in the value map; the other still gets
    // a valuation row, at 0, rather than any lookup failure.
    assert_eq!(value_map, vec![ItemValuation { id: 1, value: 30 }]);
    assert_eq!(blood, vec![ItemValuation { id: 1, value: 30 }]);
    assert_eq!(sargerite, vec![ItemValuation { id: 2, value: 0 }]);
}

#[test]
fn material_cost_clamps_to_zero_at_boundary() {
    // Material 1 prices at 7; item 2 needs two of it (cost 14) and prices at
    // exactly 14: the subtraction lands exactly on the boundary and clamps to 0.
    let mut crafted = item(2, Conversion::Multiply(1), Category::Blood);
    crafted.mats = Some(vec![CraftingComponent { id: 1, quantity: 2 }]);
    let catalog = vec![item(1, Conversion::Multiply(1), Category::Blood), crafted];
    let listings = vec![listing(1, 1, 7), listing(2, 1, 14)];
    let (value_map, blood, _) = calculate_auction_values(&listings, &catalog);
    assert_eq!(lookup_value(&value_map, 2), Some(14));
    assert!(blood.contains(&ItemValuation { id: 2, value: 0 }));
}

#[test]
fn material_cost_exceeding_base_clamps_to_zero() {
    let mut crafted = item(2, Conversion::Multiply(1), Category::Blood);
    crafted.mats = Some(vec![CraftingComponent { id: 1, quantity: 3 }]);
    let catalog = vec![item(1, Conversion::Multiply(1), Category::Blood), crafted];
    let listings = vec![listing(1, 1, 10), listing(2, 1, 14)];
    let (_, blood, _) = calculate_auction_values(&listings, &catalog);
    assert!(blood.contains(&ItemValuation { id: 2, value: 0 }));
}

#[test]
fn material_cost_below_base_subtracts() {
    let mut crafted = item(2, Conversion::Multiply(1), Category::Blood);
    crafted.mats = Some(vec![CraftingComponent { id: 1, quantity: 2 }]);
    let catalog = vec![item(1, Conversion::Multiply(1), Category::Blood), crafted];
    let listings = vec![listing(1, 1, 5), listing(2, 1, 14)];
    let (_, blood, _) = calculate_auction_values(&listings, &catalog);
    assert!(blood.contains(&ItemValuation { id: 2, value: 4 }));
}

#[test]
fn unknown_material_counts_as_free() {
    // Material id 9 is not in the catalog, so its price defaults to 0.
    let mut crafted = item(2, Conversion::Multiply(1), Category::Blood);
    crafted.mats = Some(vec![CraftingComponent { id: 9, quantity: 5 }]);
    let catalog = vec![crafted];
    let listings = vec![listing(2, 1, 14), listing(9, 1, 100)];
    let (_, blood, _) = calculate_auction_values(&listings, &catalog);
    assert_eq!(blood, vec![ItemValuation { id: 2, value: 14 }]);
}

#[test]
fn conversion_divide_by_ten() {
    // Post-material value 50 with the ten-for-one ratio yields 5.
    let catalog = vec![item(1, Conversion::DivideByTen, Category::Blood)];
    let listings = vec![listing(1, 1, 50)];
    let (_, blood, _) = calculate_auction_values(&listings, &catalog);
    assert_eq!(blood, vec![ItemValuation { id: 1, value: 5 }]);
}

#[test]
fn conversion_multiplies_whole_ratios() {
    // Post-material value 7 with a whole ratio of 3 yields 21.
    let catalog = vec![item(1, Conversion::Multiply(3), Category::Blood)];
    let listings = vec![listing(1, 1, 7)];
    let (_, blood, _) = calculate_auction_values(&listings, &catalog);
    assert_eq!(blood, vec![ItemValuation { id: 1, value: 21 }]);
}

#[test]
fn lists_sort_descending_and_keep_ties_stable() {
    let catalog = vec![
        item(1, Conversion::Multiply(1), Category::Blood),
        item(2, Conversion::Multiply(1), Category::Blood),
        item(3, Conversion::Multiply(1), Category::Blood),
    ];
    // Values: item 1 -> 10, item 2 -> 30, item 3 -> 10. Sorted descending
    // gives 30 first; the two equal values keep catalog order (1 before 3).
    let listings = vec![listing(1, 1, 10), listing(2, 1, 30), listing(3, 1, 10)];
    let (_, blood, _) = calculate_auction_values(&listings, &catalog);
    assert_eq!(
        blood,
        vec![
            ItemValuation { id: 2, value: 30 },
            ItemValuation { id: 1, value: 10 },
            ItemValuation { id: 3, value: 10 },
        ]
    );
}

#[test]
fn categories_partition_the_catalog() {
    let catalog = vec![
        item(1, Conversion::Multiply(1), Category::Sargerite),
        item(2, Conversion::Multiply(1), Category::Blood),
    ];
    let listings = vec![listing(1, 1, 4), listing(2, 1, 9)];
    let (_, blood, sargerite) = calculate_auction_values(&listings, &catalog);
    assert_eq!(blood, vec![ItemValuation { id: 2, value: 9 }]);
    assert_eq!(sargerite, vec![ItemValuation { id: 1, value: 4 }]);
}

#[test]
fn lookup_value_finds_only_present_ids() {
    let value_map = vec![
        ItemValuation { id: 1, value: 10 },
        ItemValuation { id: 2, value: 20 },
    ];
    assert_eq!(lookup_value(&value_map, 1), Some(10));
    assert_eq!(lookup_value(&value_map, 2), Some(20));
    assert_eq!(lookup_value(&value_map, 3), None);
}
