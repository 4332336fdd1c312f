//! The valuation engine: pure computation from raw auction listings and the
//! item catalog to per-item values and the two category-sorted value lists.
//!
//! The central notion is the volume percentile price of an item: listings are
//! ranked by unit price, and the price quoted is the cheapest unit price at
//! which the cumulative offered quantity reaches one twentieth of the total
//! offered quantity (an approximation of the 5th percentile by volume, with
//! truncating division throughout).

use vstd::prelude::*;

verus! {

/// One sell offer for a stack of an item; `buyout` is the price of the whole
/// stack, in the smallest currency unit.
#[derive(Clone, Copy, PartialEq, Eq, Structural, Debug)]
pub struct AuctionListing {
    pub item: u64,
    pub quantity: u64,
    pub buyout: u64,
}

/// How a market value in raw units converts into the value of one priced
/// catalog unit. Ten raw units for one priced unit is a division, kept
/// separate so the pipeline stays all-integer; every other ratio is a whole
/// multiplier.
#[derive(Clone, Copy, PartialEq, Eq, Structural, Debug)]
pub enum Conversion {
    DivideByTen,
    Multiply(u64),
}

/// The two recognized catalog categories.
#[derive(Clone, Copy, PartialEq, Eq, Structural, Debug)]
pub enum Category {
    Blood,
    Sargerite,
}

/// An ingredient of a catalog item that is crafted or traded rather than
/// bought directly.
#[derive(Clone, Copy, PartialEq, Eq, Structural, Debug)]
pub struct CraftingComponent {
    pub id: u64,
    pub quantity: u64,
}

/// A catalog entry: one option available from the vendor.
pub struct VendorItem {
    pub id: u64,
    pub name: String,
    pub conversion: Conversion,
    pub category: Category,
    pub subtext: Option<String>,
    pub mats: Option<Vec<CraftingComponent>>,
}

/// Value of an item on a realm, in the smallest currency unit.
#[derive(Clone, Copy, PartialEq, Eq, Structural, Debug)]
pub struct ItemValuation {
    pub id: u64,
    pub value: u64,
}

/// A listing takes part in an item's valuation when it offers that item and
/// carries a positive buyout.
pub open spec fn qualifies(l: AuctionListing, id: u64) -> bool {
    l.item == id && l.buyout > 0
}

/// Unit price of a listing: the buyout of the whole stack divided, with
/// truncation, by the stack size.
pub open spec fn unit_price(l: AuctionListing) -> u64 {
    l.buyout / l.quantity
}

/// Total quantity offered across an item's qualifying listings.
pub open spec fn total_qty(listings: Seq<AuctionListing>, id: u64) -> int
    decreases listings.len(),
{
    if listings.len() == 0 {
        0
    } else {
        total_qty(listings.drop_last(), id) + if qualifies(listings.last(), id) {
            listings.last().quantity as int
        } else {
            0
        }
    }
}

/// Quantity offered across an item's qualifying listings whose unit price is
/// at most `p`.
pub open spec fn qty_at_most(listings: Seq<AuctionListing>, id: u64, p: u64) -> int
    decreases listings.len(),
{
    if listings.len() == 0 {
        0
    } else {
        qty_at_most(listings.drop_last(), id, p) + if qualifies(listings.last(), id)
            && unit_price(listings.last()) <= p {
            listings.last().quantity as int
        } else {
            0
        }
    }
}

/// The volume threshold an item's percentile price must cover: one twentieth
/// of the total offered quantity, truncated.
pub open spec fn percentile_threshold(listings: Seq<AuctionListing>, id: u64) -> int {
    total_qty(listings, id) / 20
}

/// Whether any qualifying listing offers the item at all.
pub open spec fn has_listing(listings: Seq<AuctionListing>, id: u64) -> bool {
    exists|i: int| 0 <= i < listings.len() && qualifies(listings[i], id)
}

/// Whether `p` is the unit price of some qualifying listing of the item.
pub open spec fn is_price_of(listings: Seq<AuctionListing>, id: u64, p: u64) -> bool {
    exists|i: int|
        0 <= i < listings.len() && qualifies(listings[i], id) && unit_price(listings[i]) == p
}

/// Characterizes the percentile price: the cheapest quoted unit price whose
/// cumulative offered quantity reaches the volume threshold.
pub open spec fn is_percentile_price(listings: Seq<AuctionListing>, id: u64, p: u64) -> bool {
    &&& is_price_of(listings, id, p)
    &&& qty_at_most(listings, id, p) >= percentile_threshold(listings, id)
    &&& forall|q: u64|
        is_price_of(listings, id, q) && q < p ==> qty_at_most(listings, id, q)
            < percentile_threshold(listings, id)
}

/// The percentile price of an item, defaulting to 0 when the item has no
/// qualifying listings.
pub open spec fn percentile_price(listings: Seq<AuctionListing>, id: u64) -> u64 {
    if has_listing(listings, id) {
        choose|p: u64| is_percentile_price(listings, id, p)
    } else {
        0
    }
}

pub proof fn lemma_total_qty_nonneg(listings: Seq<AuctionListing>, id: u64)
    ensures
        total_qty(listings, id) >= 0,
    decreases listings.len(),
{
    if listings.len() > 0 {
        lemma_total_qty_nonneg(listings.drop_last(), id);
    }
}

pub proof fn lemma_qty_at_most_nonneg(listings: Seq<AuctionListing>, id: u64, p: u64)
    ensures
        qty_at_most(listings, id, p) >= 0,
    decreases listings.len(),
{
    if listings.len() > 0 {
        lemma_qty_at_most_nonneg(listings.drop_last(), id, p);
    }
}

pub proof fn lemma_qty_at_most_le_total(listings: Seq<AuctionListing>, id: u64, p: u64)
    ensures
        qty_at_most(listings, id, p) <= total_qty(listings, id),
    decreases listings.len(),
{
    if listings.len() > 0 {
        lemma_qty_at_most_le_total(listings.drop_last(), id, p);
    }
}

/// Cumulative quantity only grows with the price bound.
proof fn lemma_qty_at_most_mono_price(listings: Seq<AuctionListing>, id: u64, p1: u64, p2: u64)
    requires
        p1 <= p2,
    ensures
        qty_at_most(listings, id, p1) <= qty_at_most(listings, id, p2),
    decreases listings.len(),
{
    if listings.len() > 0 {
        lemma_qty_at_most_mono_price(listings.drop_last(), id, p1, p2);
    }
}

proof fn lemma_no_listing_total_zero(listings: Seq<AuctionListing>, id: u64)
    requires
        !has_listing(listings, id),
    ensures
        total_qty(listings, id) == 0,
    decreases listings.len(),
{
    if listings.len() > 0 {
        let prefix = listings.drop_last();
        assert(forall|i: int| 0 <= i < prefix.len() ==> prefix[i] == listings[i]);
        lemma_no_listing_total_zero(prefix, id);
    }
}

/// Some quoted unit price covers the whole offered quantity.
proof fn lemma_exists_covering_price(listings: Seq<AuctionListing>, id: u64)
    requires
        has_listing(listings, id),
    ensures
        exists|p: u64|
            is_price_of(listings, id, p) && qty_at_most(listings, id, p) == total_qty(
                listings,
                id,
            ),
    decreases listings.len(),
{
    let n = listings.len() as int;
    let prefix = listings.drop_last();
    let last = listings.last();
    assert(forall|i: int| 0 <= i < prefix.len() ==> prefix[i] == listings[i]);
    if has_listing(prefix, id) {
        lemma_exists_covering_price(prefix, id);
        let p0 = choose|p: u64|
            is_price_of(prefix, id, p) && qty_at_most(prefix, id, p) == total_qty(prefix, id);
        if qualifies(last, id) {
            let pl = unit_price(last);
            let p = if p0 >= pl {
                p0
            } else {
                pl
            };
            lemma_qty_at_most_mono_price(prefix, id, p0, p);
            lemma_qty_at_most_le_total(prefix, id, p);
            assert(qty_at_most(prefix, id, p) == total_qty(prefix, id));
            assert(is_price_of(listings, id, p)) by {
                if p == pl {
                    assert(qualifies(listings[n - 1], id) && unit_price(listings[n - 1]) == p);
                } else {
                    let j = choose|j: int|
                        0 <= j < prefix.len() && qualifies(prefix[j], id) && unit_price(prefix[j])
                            == p0;
                    assert(qualifies(listings[j], id) && unit_price(listings[j]) == p);
                }
            }
            assert(qty_at_most(listings, id, p) == total_qty(listings, id));
        } else {
            let j = choose|j: int|
                0 <= j < prefix.len() && qualifies(prefix[j], id) && unit_price(prefix[j]) == p0;
            assert(qualifies(listings[j], id) && unit_price(listings[j]) == p0);
            assert(qty_at_most(listings, id, p0) == total_qty(listings, id));
        }
    } else {
        assert(qualifies(last, id)) by {
            let w = choose|i: int| 0 <= i < n && qualifies(listings[i], id);
            if w < n - 1 {
                assert(qualifies(prefix[w], id));
            }
        }
        let p = unit_price(last);
        lemma_no_listing_total_zero(prefix, id);
        lemma_qty_at_most_le_total(prefix, id, p);
        lemma_qty_at_most_nonneg(prefix, id, p);
        assert(qualifies(listings[n - 1], id) && unit_price(listings[n - 1]) == p);
        assert(qty_at_most(listings, id, p) == total_qty(listings, id));
    }
}

/// The percentile price characterization admits at most one price.
pub proof fn lemma_percentile_price_unique(
    listings: Seq<AuctionListing>,
    id: u64,
    p1: u64,
    p2: u64,
)
    requires
        is_percentile_price(listings, id, p1),
        is_percentile_price(listings, id, p2),
    ensures
        p1 == p2,
{
    if p1 < p2 {
        assert(qty_at_most(listings, id, p1) < percentile_threshold(listings, id));
    } else if p2 < p1 {
        assert(qty_at_most(listings, id, p2) < percentile_threshold(listings, id));
    }
}

/// An item with no qualifying listings is valued at 0, never a lookup failure.
pub proof fn lemma_no_data_percentile_zero(listings: Seq<AuctionListing>, id: u64)
    requires
        !has_listing(listings, id),
    ensures
        percentile_price(listings, id) == 0,
{
}

/// Cumulative quantities over a prefix never exceed those over the whole.
proof fn lemma_qty_at_most_take_le(listings: Seq<AuctionListing>, id: u64, p: u64, i: int)
    requires
        0 <= i <= listings.len(),
    ensures
        qty_at_most(listings.take(i), id, p) <= qty_at_most(listings, id, p),
    decreases listings.len() - i,
{
    if i == listings.len() {
        assert(listings.take(i) =~= listings);
    } else {
        lemma_qty_at_most_take_le(listings, id, p, i + 1);
        assert(listings.take(i + 1).drop_last() =~= listings.take(i));
        assert(listings.take(i + 1).last() == listings[i]);
        lemma_qty_at_most_nonneg(listings.take(i), id, p);
    }
}

proof fn lemma_total_qty_take_le(listings: Seq<AuctionListing>, id: u64, i: int)
    requires
        0 <= i <= listings.len(),
    ensures
        total_qty(listings.take(i), id) <= total_qty(listings, id),
    decreases listings.len() - i,
{
    if i == listings.len() {
        assert(listings.take(i) =~= listings);
    } else {
        lemma_total_qty_take_le(listings, id, i + 1);
        assert(listings.take(i + 1).drop_last() =~= listings.take(i));
        assert(listings.take(i + 1).last() == listings[i]);
        lemma_total_qty_nonneg(listings.take(i), id);
    }
}

/// Division in an item's unit prices never faults when every qualifying
/// listing carries a positive stack size.
pub open spec fn quantities_positive_for(listings: Seq<AuctionListing>, id: u64) -> bool {
    forall|i: int|
        0 <= i < listings.len() && qualifies(#[trigger] listings[i], id) ==> listings[i].quantity
            > 0
}

fn total_qty_exec(listings: &Vec<AuctionListing>, id: u64) -> (r: u64)
    requires
        total_qty(listings@, id) <= u64::MAX,
    ensures
        r == total_qty(listings@, id),
{
    let mut sum: u64 = 0;
    let n = listings.len();
    for i in 0..n
        invariant
            n == listings@.len(),
            total_qty(listings@, id) <= u64::MAX,
            sum == total_qty(listings@.take(i as int), id),
    {
        proof {
            assert(listings@.take(i + 1).drop_last() =~= listings@.take(i as int));
            assert(listings@.take(i + 1).last() == listings@[i as int]);
            lemma_total_qty_take_le(listings@, id, i + 1);
            lemma_total_qty_nonneg(listings@.take(i as int), id);
        }
        if listings[i].item == id && listings[i].buyout > 0 {
            sum = sum + listings[i].quantity;
        }
    }
    proof {
        assert(listings@.take(n as int) =~= listings@);
    }
    sum
}

fn qty_at_most_exec(listings: &Vec<AuctionListing>, id: u64, p: u64) -> (r: u64)
    requires
        total_qty(listings@, id) <= u64::MAX,
        quantities_positive_for(listings@, id),
    ensures
        r == qty_at_most(listings@, id, p),
{
    let mut sum: u64 = 0;
    let n = listings.len();
    for i in 0..n
        invariant
            n == listings@.len(),
            total_qty(listings@, id) <= u64::MAX,
            quantities_positive_for(listings@, id),
            sum == qty_at_most(listings@.take(i as int), id, p),
    {
        proof {
            assert(listings@.take(i + 1).drop_last() =~= listings@.take(i as int));
            assert(listings@.take(i + 1).last() == listings@[i as int]);
            lemma_qty_at_most_take_le(listings@, id, p, i + 1);
            lemma_qty_at_most_le_total(listings@, id, p);
            lemma_qty_at_most_nonneg(listings@.take(i as int), id, p);
        }
        if listings[i].item == id && listings[i].buyout > 0 {
            let up = listings[i].buyout / listings[i].quantity;
            if up <= p {
                sum = sum + listings[i].quantity;
            }
        }
    }
    proof {
        assert(listings@.take(n as int) =~= listings@);
    }
    sum
}

/// Whether the item has any qualifying listing.
pub fn has_listing_exec(listings: &Vec<AuctionListing>, id: u64) -> (r: bool)
    ensures
        r == has_listing(listings@, id),
{
    let n = listings.len();
    for i in 0..n
        invariant
            n == listings@.len(),
            forall|j: int| 0 <= j < i ==> !qualifies(listings@[j], id),
    {
        if listings[i].item == id && listings[i].buyout > 0 {
            return true;
        }
    }
    false
}

/// Computes the percentile price of one item from the raw listings.
pub fn percentile_price_exec(listings: &Vec<AuctionListing>, id: u64) -> (r: u64)
    requires
        total_qty(listings@, id) <= u64::MAX,
        quantities_positive_for(listings@, id),
    ensures
        r == percentile_price(listings@, id),
        has_listing(listings@, id) ==> is_percentile_price(listings@, id, r),
        !has_listing(listings@, id) ==> r == 0,
{
    let total = total_qty_exec(listings, id);
    let t = total / 20;
    let mut best: Option<u64> = None;
    let n = listings.len();
    for i in 0..n
        invariant
            n == listings@.len(),
            total_qty(listings@, id) <= u64::MAX,
            quantities_positive_for(listings@, id),
            total == total_qty(listings@, id),
            t == percentile_threshold(listings@, id),
            match best {
                Some(b) => {
                    &&& is_price_of(listings@, id, b)
                    &&& qty_at_most(listings@, id, b) >= t
                },
                None => true,
            },
            forall|j: int|
                0 <= j < i && qualifies(#[trigger] listings@[j], id) ==> {
                    let q = unit_price(listings@[j]);
                    qty_at_most(listings@, id, q) >= t ==> (best matches Some(b) && b <= q)
                },
    {
        if listings[i].item == id && listings[i].buyout > 0 {
            let q = listings[i].buyout / listings[i].quantity;
            let qa = qty_at_most_exec(listings, id, q);
            if qa >= t {
                best = match best {
                    None => Some(q),
                    Some(b) => if q < b {
                        Some(q)
                    } else {
                        Some(b)
                    },
                };
            }
        }
    }
    match best {
        Some(p) => {
            proof {
                assert(is_percentile_price(listings@, id, p)) by {
                    assert(forall|q: u64|
                        is_price_of(listings@, id, q) && q < p ==> qty_at_most(listings@, id, q)
                            < percentile_threshold(listings@, id)) by {
                        assert forall|q: u64|
                            is_price_of(listings@, id, q) && q < p implies qty_at_most(
                            listings@,
                            id,
                            q,
                        ) < percentile_threshold(listings@, id) by {
                            let j = choose|j: int|
                                0 <= j < listings@.len() && qualifies(listings@[j], id)
                                    && unit_price(listings@[j]) == q;
                            assert(qty_at_most(listings@, id, q) >= t ==> p <= q);
                        }
                    }
                }
                let w = choose|w: u64| is_percentile_price(listings@, id, w);
                assert(has_listing(listings@, id));
                lemma_percentile_price_unique(listings@, id, p, w);
            }
            p
        },
        None => {
            proof {
                if has_listing(listings@, id) {
                    lemma_exists_covering_price(listings@, id);
                    let pm = choose|p: u64|
                        is_price_of(listings@, id, p) && qty_at_most(listings@, id, p) == total_qty(
                            listings@,
                            id,
                        );
                    lemma_total_qty_nonneg(listings@, id);
                    assert(qty_at_most(listings@, id, pm) >= t);
                    let j = choose|j: int|
                        0 <= j < listings@.len() && qualifies(listings@[j], id) && unit_price(
                            listings@[j],
                        ) == pm;
                    assert(false);
                }
            }
            0
        },
    }
}

/// Whether some catalog entry carries the given item id.
pub open spec fn catalog_has(catalog: Seq<VendorItem>, id: u64) -> bool {
    exists|i: int| 0 <= i < catalog.len() && catalog[i].id == id
}

/// The price the published value map quotes for an id: the percentile price
/// for cataloged items, 0 for anything outside the catalog.
pub open spec fn map_price(listings: Seq<AuctionListing>, catalog: Seq<VendorItem>, id: u64) -> u64 {
    if catalog_has(catalog, id) {
        percentile_price(listings, id)
    } else {
        0
    }
}

/// Total market cost of a recipe's ingredients, each ingredient priced at the
/// value map's quote for its id.
pub open spec fn mats_cost(
    listings: Seq<AuctionListing>,
    catalog: Seq<VendorItem>,
    mats: Seq<CraftingComponent>,
) -> int
    decreases mats.len(),
{
    if mats.len() == 0 {
        0
    } else {
        mats_cost(listings, catalog, mats.drop_last()) + mats.last().quantity * map_price(
            listings,
            catalog,
            mats.last().id,
        )
    }
}

/// An item's value after subtracting its ingredient costs, clamped at 0 so it
/// is never negative.
pub open spec fn net_value(
    listings: Seq<AuctionListing>,
    catalog: Seq<VendorItem>,
    item: VendorItem,
) -> int {
    let base = percentile_price(listings, item.id) as int;
    match item.mats {
        Some(m) => if base >= mats_cost(listings, catalog, m@) {
            base - mats_cost(listings, catalog, m@)
        } else {
            0
        },
        None => base,
    }
}

/// An item's final value after applying its conversion ratio.
pub open spec fn final_value(
    listings: Seq<AuctionListing>,
    catalog: Seq<VendorItem>,
    item: VendorItem,
) -> int {
    match item.conversion {
        Conversion::DivideByTen => net_value(listings, catalog, item) / 10,
        Conversion::Multiply(k) => net_value(listings, catalog, item) * k,
    }
}

/// The full valuation row computed for one catalog entry.
pub open spec fn item_valuation(
    listings: Seq<AuctionListing>,
    catalog: Seq<VendorItem>,
    item: VendorItem,
) -> ItemValuation {
    ItemValuation { id: item.id, value: final_value(listings, catalog, item) as u64 }
}

/// The valuations of every catalog entry, in catalog order.
pub open spec fn all_values_spec(
    listings: Seq<AuctionListing>,
    catalog: Seq<VendorItem>,
) -> Seq<ItemValuation> {
    catalog.map_values(|it: VendorItem| item_valuation(listings, catalog, it))
}

/// The published value map: one row per catalog entry with market data,
/// quoting the raw percentile price (before ingredient subtraction).
pub open spec fn value_map_spec(
    listings: Seq<AuctionListing>,
    catalog: Seq<VendorItem>,
    entries: Seq<VendorItem>,
) -> Seq<ItemValuation>
    decreases entries.len(),
{
    if entries.len() == 0 {
        Seq::empty()
    } else {
        let rest = value_map_spec(listings, catalog, entries.drop_last());
        if has_listing(listings, entries.last().id) {
            rest.push(
                ItemValuation {
                    id: entries.last().id,
                    value: percentile_price(listings, entries.last().id),
                },
            )
        } else {
            rest
        }
    }
}

/// Every row of the value map quotes the raw percentile price of a cataloged
/// item that has market data.
pub proof fn lemma_value_map_rows_sound(
    listings: Seq<AuctionListing>,
    catalog: Seq<VendorItem>,
    entries: Seq<VendorItem>,
    j: int,
)
    requires
        0 <= j < value_map_spec(listings, catalog, entries).len(),
    ensures
        ({
            let row = value_map_spec(listings, catalog, entries)[j];
            &&& has_listing(listings, row.id)
            &&& row.value == percentile_price(listings, row.id)
            &&& exists|i: int| 0 <= i < entries.len() && (#[trigger] entries[i]).id == row.id
        }),
    decreases entries.len(),
{
    if entries.len() > 0 {
        let rest = value_map_spec(listings, catalog, entries.drop_last());
        if j < rest.len() {
            lemma_value_map_rows_sound(listings, catalog, entries.drop_last(), j);
            let i = choose|i: int|
                0 <= i < entries.drop_last().len() && (#[trigger] entries.drop_last()[i]).id
                    == rest[j].id;
            assert(entries[i].id == value_map_spec(listings, catalog, entries)[j].id);
        } else {
            assert(entries[entries.len() - 1].id == value_map_spec(
                listings,
                catalog,
                entries,
            )[j].id);
        }
    }
}

/// Every cataloged item with market data has its row in the value map.
pub proof fn lemma_value_map_rows_complete(
    listings: Seq<AuctionListing>,
    catalog: Seq<VendorItem>,
    entries: Seq<VendorItem>,
    i: int,
)
    requires
        0 <= i < entries.len(),
        has_listing(listings, entries[i].id),
    ensures
        exists|j: int|
            0 <= j < value_map_spec(listings, catalog, entries).len() && value_map_spec(
                listings,
                catalog,
                entries,
            )[j] == (ItemValuation {
                id: entries[i].id,
                value: percentile_price(listings, entries[i].id),
            }),
    decreases entries.len(),
{
    let out = value_map_spec(listings, catalog, entries);
    if i == entries.len() - 1 {
        assert(out[out.len() - 1] == (ItemValuation {
            id: entries[i].id,
            value: percentile_price(listings, entries[i].id),
        }));
    } else {
        assert(entries.drop_last()[i] == entries[i]);
        lemma_value_map_rows_complete(listings, catalog, entries.drop_last(), i);
        let rest = value_map_spec(listings, catalog, entries.drop_last());
        let j = choose|j: int|
            0 <= j < rest.len() && rest[j] == (ItemValuation {
                id: entries[i].id,
                value: percentile_price(listings, entries[i].id),
            });
        assert(out[j] == (ItemValuation {
            id: entries[i].id,
            value: percentile_price(listings, entries[i].id),
        }));
    }
}

/// The category the catalog assigns to an id (first matching entry).
pub open spec fn catalog_category(catalog: Seq<VendorItem>, id: u64) -> Category
    decreases catalog.len(),
{
    if catalog.len() == 0 {
        Category::Blood
    } else if catalog[0].id == id {
        catalog[0].category
    } else {
        catalog_category(catalog.skip(1), id)
    }
}

/// Descending order by value.
pub open spec fn sorted_desc(s: Seq<ItemValuation>) -> bool {
    forall|i: int, j: int| 0 <= i < j < s.len() ==> s[i].value >= s[j].value
}

/// Stable descending insertion: the new row goes after every row whose value
/// is at least as large.
pub open spec fn insert_desc(s: Seq<ItemValuation>, x: ItemValuation) -> Seq<ItemValuation>
    decreases s.len(),
{
    if s.len() == 0 {
        seq![x]
    } else if s.last().value >= x.value {
        s.push(x)
    } else {
        insert_desc(s.drop_last(), x).push(s.last())
    }
}

/// Stable descending sort by value.
pub open spec fn sort_desc(s: Seq<ItemValuation>) -> Seq<ItemValuation>
    decreases s.len(),
{
    if s.len() == 0 {
        Seq::empty()
    } else {
        insert_desc(sort_desc(s.drop_last()), s.last())
    }
}

/// The rows of a valuation list that the catalog files under one category,
/// keeping their order.
pub open spec fn restrict_category(
    catalog: Seq<VendorItem>,
    s: Seq<ItemValuation>,
    c: Category,
) -> Seq<ItemValuation>
    decreases s.len(),
{
    if s.len() == 0 {
        Seq::empty()
    } else {
        let rest = restrict_category(catalog, s.drop_last(), c);
        if catalog_category(catalog, s.last().id) == c {
            rest.push(s.last())
        } else {
            rest
        }
    }
}

/// The published category list: all catalog valuations, sorted descending by
/// value, restricted to one category.
pub open spec fn category_values_spec(
    listings: Seq<AuctionListing>,
    catalog: Seq<VendorItem>,
    c: Category,
) -> Seq<ItemValuation> {
    restrict_category(catalog, sort_desc(all_values_spec(listings, catalog)), c)
}

/// No two catalog entries share an id: the catalog is a map keyed by id.
pub open spec fn catalog_ids_unique(catalog: Seq<VendorItem>) -> bool {
    forall|i: int, j: int| 0 <= i < j < catalog.len() ==> catalog[i].id != catalog[j].id
}

/// Machine-limit bounds on the listings themselves: unit-price division never
/// divides by zero, and per-item offered quantities fit in 64 bits.
pub open spec fn listings_bounds_ok(
    listings: Seq<AuctionListing>,
    catalog: Seq<VendorItem>,
) -> bool {
    &&& forall|i: int|
        0 <= i < listings.len() && #[trigger] listings[i].buyout > 0 && catalog_has(
            catalog,
            listings[i].item,
        ) ==> listings[i].quantity > 0
    &&& forall|i: int|
        0 <= i < catalog.len() ==> total_qty(listings, (#[trigger] catalog[i]).id) <= u64::MAX
}

/// Machine-limit bounds the engine needs: listing bounds, and ingredient
/// costs and converted values that fit in 64 bits.
pub open spec fn valuation_input_ok(
    listings: Seq<AuctionListing>,
    catalog: Seq<VendorItem>,
) -> bool {
    &&& listings_bounds_ok(listings, catalog)
    &&& forall|i: int|
        0 <= i < catalog.len() ==> match (#[trigger] catalog[i]).mats {
            Some(m) => mats_cost(listings, catalog, m@) <= u64::MAX,
            None => true,
        }
    &&& forall|i: int|
        0 <= i < catalog.len() ==> final_value(listings, catalog, #[trigger] catalog[i])
            <= u64::MAX
    &&& catalog_ids_unique(catalog)
}

pub proof fn lemma_mats_cost_nonneg(
    listings: Seq<AuctionListing>,
    catalog: Seq<VendorItem>,
    mats: Seq<CraftingComponent>,
)
    ensures
        mats_cost(listings, catalog, mats) >= 0,
    decreases mats.len(),
{
    if mats.len() > 0 {
        lemma_mats_cost_nonneg(listings, catalog, mats.drop_last());
    }
}

proof fn lemma_mats_cost_take_le(
    listings: Seq<AuctionListing>,
    catalog: Seq<VendorItem>,
    mats: Seq<CraftingComponent>,
    i: int,
)
    requires
        0 <= i <= mats.len(),
    ensures
        mats_cost(listings, catalog, mats.take(i)) <= mats_cost(listings, catalog, mats),
    decreases mats.len() - i,
{
    if i == mats.len() {
        assert(mats.take(i) =~= mats);
    } else {
        lemma_mats_cost_take_le(listings, catalog, mats, i + 1);
        assert(mats.take(i + 1).drop_last() =~= mats.take(i));
        assert(mats.take(i + 1).last() == mats[i]);
    }
}

/// The net value never goes negative: ingredient costs at or above the base
/// value clamp it to exactly 0.
pub proof fn lemma_material_clamp(
    listings: Seq<AuctionListing>,
    catalog: Seq<VendorItem>,
    item: VendorItem,
)
    requires
        item.mats is Some,
    ensures
        net_value(listings, catalog, item) >= 0,
        mats_cost(listings, catalog, item.mats->0@) >= percentile_price(listings, item.id)
            ==> net_value(listings, catalog, item) == 0,
        mats_cost(listings, catalog, item.mats->0@) <= percentile_price(listings, item.id)
            ==> net_value(listings, catalog, item) == percentile_price(listings, item.id)
            - mats_cost(listings, catalog, item.mats->0@),
{
}

/// An item with no market data is valued at 0, whatever its recipe and
/// conversion say.
pub proof fn lemma_no_data_value_zero(
    listings: Seq<AuctionListing>,
    catalog: Seq<VendorItem>,
    item: VendorItem,
)
    requires
        !has_listing(listings, item.id),
    ensures
        final_value(listings, catalog, item) == 0,
{
    lemma_no_data_percentile_zero(listings, item.id);
    match item.mats {
        Some(m) => {
            lemma_mats_cost_nonneg(listings, catalog, m@);
        },
        None => {},
    }
}

proof fn lemma_insert_desc_sorted(s: Seq<ItemValuation>, x: ItemValuation)
    requires
        sorted_desc(s),
    ensures
        sorted_desc(insert_desc(s, x)),
        insert_desc(s, x).len() == s.len() + 1,
    decreases s.len(),
{
    if s.len() == 0 {
    } else if s.last().value >= x.value {
    } else {
        assert(sorted_desc(s.drop_last()));
        lemma_insert_desc_sorted(s.drop_last(), x);
        let inner = insert_desc(s.drop_last(), x);
        assert forall|i: int| 0 <= i < inner.len() implies inner[i].value >= s.last().value by {
            lemma_insert_desc_elems(s.drop_last(), x, i);
        }
    }
}

/// Every row of an insertion result is the inserted row or a row of the input.
proof fn lemma_insert_desc_elems(s: Seq<ItemValuation>, x: ItemValuation, i: int)
    requires
        0 <= i < insert_desc(s, x).len(),
    ensures
        insert_desc(s, x)[i] == x || exists|j: int| 0 <= j < s.len() && s[j] == insert_desc(s, x)[i],
    decreases s.len(),
{
    if s.len() == 0 {
    } else if s.last().value >= x.value {
        if i < s.len() {
            assert(s[i] == insert_desc(s, x)[i]);
        }
    } else {
        let inner = insert_desc(s.drop_last(), x);
        if i < inner.len() {
            lemma_insert_desc_elems(s.drop_last(), x, i);
            if inner[i] != x {
                let j = choose|j: int| 0 <= j < s.drop_last().len() && s.drop_last()[j] == inner[i];
                assert(s[j] == insert_desc(s, x)[i]);
            }
        } else {
            assert(s[s.len() - 1] == insert_desc(s, x)[i]);
        }
    }
}

/// The category lists the engine publishes are sorted descending by value.
pub proof fn lemma_sort_desc_sorted(s: Seq<ItemValuation>)
    ensures
        sorted_desc(sort_desc(s)),
        sort_desc(s).len() == s.len(),
    decreases s.len(),
{
    if s.len() > 0 {
        lemma_sort_desc_sorted(s.drop_last());
        lemma_insert_desc_sorted(sort_desc(s.drop_last()), s.last());
    }
}

/// A list restricted to a category keeps its descending order.
pub proof fn lemma_restrict_category_sorted(
    catalog: Seq<VendorItem>,
    s: Seq<ItemValuation>,
    c: Category,
)
    requires
        sorted_desc(s),
    ensures
        sorted_desc(restrict_category(catalog, s, c)),
    decreases s.len(),
{
    if s.len() > 0 {
        assert(sorted_desc(s.drop_last()));
        lemma_restrict_category_sorted(catalog, s.drop_last(), c);
        if catalog_category(catalog, s.last().id) == c {
            let rest = restrict_category(catalog, s.drop_last(), c);
            assert forall|i: int| 0 <= i < rest.len() implies rest[i].value >= s.last().value by {
                lemma_restrict_elems(catalog, s.drop_last(), c, i);
            }
        }
    }
}

proof fn lemma_restrict_elems(catalog: Seq<VendorItem>, s: Seq<ItemValuation>, c: Category, i: int)
    requires
        0 <= i < restrict_category(catalog, s, c).len(),
    ensures
        exists|j: int| 0 <= j < s.len() && s[j] == restrict_category(catalog, s, c)[i],
    decreases s.len(),
{
    if s.len() > 0 {
        let rest = restrict_category(catalog, s.drop_last(), c);
        if i < rest.len() {
            lemma_restrict_elems(catalog, s.drop_last(), c, i);
            let j = choose|j: int| 0 <= j < s.drop_last().len() && s.drop_last()[j] == rest[i];
            assert(s[j] == restrict_category(catalog, s, c)[i]);
        } else {
            assert(s[s.len() - 1] == restrict_category(catalog, s, c)[i]);
        }
    }
}

/// The two category lists partition the valuation rows: every row lands in
/// exactly one of them.
pub proof fn lemma_categories_partition(catalog: Seq<VendorItem>, s: Seq<ItemValuation>)
    ensures
        restrict_category(catalog, s, Category::Blood).len() + restrict_category(
            catalog,
            s,
            Category::Sargerite,
        ).len() == s.len(),
    decreases s.len(),
{
    if s.len() > 0 {
        lemma_categories_partition(catalog, s.drop_last());
    }
}

/// The rows of a list carrying one given value, in their original order.
pub open spec fn rows_with_value(s: Seq<ItemValuation>, v: u64) -> Seq<ItemValuation>
    decreases s.len(),
{
    if s.len() == 0 {
        Seq::empty()
    } else {
        let rest = rows_with_value(s.drop_last(), v);
        if s.last().value == v {
            rest.push(s.last())
        } else {
            rest
        }
    }
}

proof fn lemma_insert_desc_stable(s: Seq<ItemValuation>, x: ItemValuation, v: u64)
    ensures
        rows_with_value(insert_desc(s, x), v) == if x.value == v {
            rows_with_value(s, v).push(x)
        } else {
            rows_with_value(s, v)
        },
    decreases s.len(),
{
    if s.len() == 0 {
        assert(insert_desc(s, x) =~= seq![x]);
        assert(seq![x].drop_last() =~= s);
        assert(seq![x].last() == x);
        assert(rows_with_value(insert_desc(s, x), v) == if x.value == v {
            rows_with_value(s, v).push(x)
        } else {
            rows_with_value(s, v)
        });
    } else if s.last().value >= x.value {
        assert(insert_desc(s, x).drop_last() =~= s);
        assert(insert_desc(s, x).last() == x);
    } else {
        lemma_insert_desc_stable(s.drop_last(), x, v);
        let inner = insert_desc(s.drop_last(), x);
        assert(insert_desc(s, x).drop_last() =~= inner);
        assert(insert_desc(s, x).last() == s.last());
    }
}

/// The sort is stable: for every value, the rows carrying that value appear
/// in the sorted list exactly as they appeared in the input.
pub proof fn lemma_sort_desc_stable(s: Seq<ItemValuation>, v: u64)
    ensures
        rows_with_value(sort_desc(s), v) == rows_with_value(s, v),
    decreases s.len(),
{
    if s.len() > 0 {
        lemma_sort_desc_stable(s.drop_last(), v);
        lemma_insert_desc_stable(sort_desc(s.drop_last()), s.last(), v);
    }
}

/// On a descending-sorted sequence, insertion lands exactly before the first
/// row of smaller value.
proof fn lemma_insert_desc_split(s: Seq<ItemValuation>, x: ItemValuation, j: int)
    requires
        sorted_desc(s),
        0 <= j <= s.len(),
        forall|k: int| 0 <= k < j ==> s[k].value >= x.value,
        j < s.len() ==> s[j].value < x.value,
    ensures
        insert_desc(s, x) == s.take(j) + seq![x] + s.skip(j),
    decreases s.len(),
{
    if s.len() == 0 {
        assert(insert_desc(s, x) =~= s.take(j) + seq![x] + s.skip(j));
    } else if s.last().value >= x.value {
        assert(j == s.len()) by {
            if j < s.len() {
                assert(s[j].value >= s[s.len() - 1].value);
            }
        }
        assert(insert_desc(s, x) =~= s.take(j) + seq![x] + s.skip(j));
    } else {
        assert(j < s.len());
        assert(sorted_desc(s.drop_last()));
        lemma_insert_desc_split(s.drop_last(), x, j);
        assert(s.drop_last().take(j) =~= s.take(j));
        assert(insert_desc(s, x) =~= s.take(j) + seq![x] + s.skip(j)) by {
            assert(s.drop_last().skip(j).push(s.last()) =~= s.skip(j));
        }
    }
}

fn catalog_has_exec(catalog: &Vec<VendorItem>, id: u64) -> (r: bool)
    ensures
        r == catalog_has(catalog@, id),
{
    let n = catalog.len();
    for i in 0..n
        invariant
            n == catalog@.len(),
            forall|j: int| 0 <= j < i ==> catalog@[j].id != id,
    {
        if catalog[i].id == id {
            return true;
        }
    }
    false
}

fn map_price_exec(listings: &Vec<AuctionListing>, catalog: &Vec<VendorItem>, id: u64) -> (r: u64)
    requires
        listings_bounds_ok(listings@, catalog@),
    ensures
        r == map_price(listings@, catalog@, id),
{
    if catalog_has_exec(catalog, id) {
        proof {
            let w = choose|w: int| 0 <= w < catalog@.len() && catalog@[w].id == id;
            assert(total_qty(listings@, catalog@[w].id) <= u64::MAX);
            assert forall|i: int|
                0 <= i < listings@.len() && qualifies(
                    #[trigger] listings@[i],
                    id,
                ) implies listings@[i].quantity > 0 by {
                assert(listings@[i].buyout > 0);
                assert(catalog_has(catalog@, listings@[i].item));
            }
        }
        percentile_price_exec(listings, id)
    } else {
        0
    }
}

fn mats_cost_exec(
    listings: &Vec<AuctionListing>,
    catalog: &Vec<VendorItem>,
    mats: &Vec<CraftingComponent>,
) -> (r: u64)
    requires
        listings_bounds_ok(listings@, catalog@),
        mats_cost(listings@, catalog@, mats@) <= u64::MAX,
    ensures
        r == mats_cost(listings@, catalog@, mats@),
{
    let mut sum: u64 = 0;
    let n = mats.len();
    for i in 0..n
        invariant
            n == mats@.len(),
            listings_bounds_ok(listings@, catalog@),
            mats_cost(listings@, catalog@, mats@) <= u64::MAX,
            sum == mats_cost(listings@, catalog@, mats@.take(i as int)),
    {
        let m = mats[i];
        let price = map_price_exec(listings, catalog, m.id);
        proof {
            assert(mats@.take(i + 1).drop_last() =~= mats@.take(i as int));
            assert(mats@.take(i + 1).last() == mats@[i as int]);
            lemma_mats_cost_take_le(listings@, catalog@, mats@, i + 1);
            lemma_mats_cost_nonneg(listings@, catalog@, mats@.take(i as int));
        }
        sum = sum + m.quantity * price;
    }
    proof {
        assert(mats@.take(n as int) =~= mats@);
    }
    sum
}

fn catalog_category_exec(catalog: &Vec<VendorItem>, id: u64) -> (r: Category)
    ensures
        r == catalog_category(catalog@, id),
{
    let n = catalog.len();
    proof {
        assert(catalog@.skip(0) =~= catalog@);
    }
    for i in 0..n
        invariant
            n == catalog@.len(),
            catalog_category(catalog@, id) == catalog_category(catalog@.skip(i as int), id),
    {
        proof {
            assert(catalog@.skip(i as int)[0] == catalog@[i as int]);
            assert(catalog@.skip(i as int).skip(1) =~= catalog@.skip(i + 1));
        }
        if catalog[i].id == id {
            return catalog[i].category;
        }
    }
    proof {
        assert(catalog@.skip(n as int).len() == 0);
    }
    Category::Blood
}

/// Stable descending sort of a valuation list.
fn sort_desc_exec(input: &Vec<ItemValuation>) -> (out: Vec<ItemValuation>)
    ensures
        out@ == sort_desc(input@),
{
    let mut out: Vec<ItemValuation> = Vec::new();
    let n = input.len();
    for i in 0..n
        invariant
            n == input@.len(),
            out@ == sort_desc(input@.take(i as int)),
    {
        let x = input[i];
        proof {
            lemma_sort_desc_sorted(input@.take(i as int));
        }
        let mut j: usize = 0;
        while j < out.len() && out[j].value >= x.value
            invariant
                0 <= j <= out@.len(),
                out@ == sort_desc(input@.take(i as int)),
                forall|k: int| 0 <= k < j ==> out@[k].value >= x.value,
            decreases out@.len() - j,
        {
            j = j + 1;
        }
        proof {
            lemma_insert_desc_split(out@, x, j as int);
            assert(input@.take(i + 1).drop_last() =~= input@.take(i as int));
            assert(input@.take(i + 1).last() == input@[i as int]);
        }
        out.insert(j, x);
        proof {
            assert(out@ =~= sort_desc(input@.take(i as int)).take(j as int) + seq![x] + sort_desc(
                input@.take(i as int),
            ).skip(j as int));
        }
    }
    proof {
        assert(input@.take(n as int) =~= input@);
    }
    out
}

/// Splits a valuation list into the two category lists, keeping order.
fn partition_by_category(
    sorted: &Vec<ItemValuation>,
    catalog: &Vec<VendorItem>,
) -> (r: (Vec<ItemValuation>, Vec<ItemValuation>))
    ensures
        r.0@ == restrict_category(catalog@, sorted@, Category::Blood),
        r.1@ == restrict_category(catalog@, sorted@, Category::Sargerite),
{
    let mut blood: Vec<ItemValuation> = Vec::new();
    let mut sargerite: Vec<ItemValuation> = Vec::new();
    let n = sorted.len();
    for i in 0..n
        invariant
            n == sorted@.len(),
            blood@ == restrict_category(catalog@, sorted@.take(i as int), Category::Blood),
            sargerite@ == restrict_category(catalog@, sorted@.take(i as int), Category::Sargerite),
    {
        let v = sorted[i];
        proof {
            assert(sorted@.take(i + 1).drop_last() =~= sorted@.take(i as int));
            assert(sorted@.take(i + 1).last() == sorted@[i as int]);
        }
        match catalog_category_exec(catalog, v.id) {
            Category::Blood => blood.push(v),
            Category::Sargerite => sargerite.push(v),
        }
    }
    proof {
        assert(sorted@.take(n as int) =~= sorted@);
    }
    (blood, sargerite)
}

/// Looks a quoted price up in a published value map.
pub fn lookup_value(value_map: &Vec<ItemValuation>, id: u64) -> (r: Option<u64>)
    ensures
        (r is Some) == exists|j: int| 0 <= j < value_map@.len() && value_map@[j].id == id,
        match r {
            Some(v) => exists|j: int|
                0 <= j < value_map@.len() && value_map@[j].id == id && value_map@[j].value == v,
            None => true,
        },
{
    let n = value_map.len();
    for i in 0..n
        invariant
            n == value_map@.len(),
            forall|j: int| 0 <= j < i ==> value_map@[j].id != id,
    {
        if value_map[i].id == id {
            return Some(value_map[i].value);
        }
    }
    None
}

/// The valuation engine: from one realm group's raw listings and the catalog
/// to the published value map and the two category-sorted valuation lists.
pub fn calculate_auction_values(
    listings: &Vec<AuctionListing>,
    catalog: &Vec<VendorItem>,
) -> (r: (Vec<ItemValuation>, Vec<ItemValuation>, Vec<ItemValuation>))
    requires
        valuation_input_ok(listings@, catalog@),
    ensures
        r.0@ == value_map_spec(listings@, catalog@, catalog@),
        r.1@ == category_values_spec(listings@, catalog@, Category::Blood),
        r.2@ == category_values_spec(listings@, catalog@, Category::Sargerite),
        sorted_desc(r.1@),
        sorted_desc(r.2@),
{
    let mut value_map: Vec<ItemValuation> = Vec::new();
    let mut all: Vec<ItemValuation> = Vec::new();
    let n = catalog.len();
    for i in 0..n
        invariant
            n == catalog@.len(),
            valuation_input_ok(listings@, catalog@),
            value_map@ == value_map_spec(listings@, catalog@, catalog@.take(i as int)),
            all@.len() == i,
            forall|j: int|
                0 <= j < i ==> all@[j] == item_valuation(listings@, catalog@, catalog@[j]),
    {
        let it = &catalog[i];
        proof {
            assert(total_qty(listings@, (catalog@[i as int]).id) <= u64::MAX);
            assert forall|k: int|
                0 <= k < listings@.len() && qualifies(
                    #[trigger] listings@[k],
                    it.id,
                ) implies listings@[k].quantity > 0 by {
                assert(listings@[k].buyout > 0);
                assert(catalog_has(catalog@, listings@[k].item));
            }
        }
        let p = percentile_price_exec(listings, it.id);
        proof {
            assert(catalog@.take(i + 1).drop_last() =~= catalog@.take(i as int));
            assert(catalog@.take(i + 1).last() == catalog@[i as int]);
        }
        if has_listing_exec(listings, it.id) {
            value_map.push(ItemValuation { id: it.id, value: p });
        }
        let net: u64 = match &it.mats {
            Some(m) => {
                proof {
                    assert(match catalog@[i as int].mats {
                        Some(mm) => mats_cost(listings@, catalog@, mm@) <= u64::MAX,
                        None => true,
                    });
                }
                let cost = mats_cost_exec(listings, catalog, m);
                if p >= cost {
                    p - cost
                } else {
                    0
                }
            },
            None => p,
        };
        proof {
            assert(net == net_value(listings@, catalog@, catalog@[i as int]));
            assert(final_value(listings@, catalog@, catalog@[i as int]) <= u64::MAX);
        }
        let v: u64 = match it.conversion {
            Conversion::DivideByTen => net / 10,
            Conversion::Multiply(k) => {
                proof {
                    assert(final_value(listings@, catalog@, catalog@[i as int]) == net as int
                        * k as int);
                    assert(net as int * k as int >= 0) by (nonlinear_arith)
                        requires
                            net >= 0,
                            k >= 0,
                    ;
                }
                net * k
            },
        };
        all.push(ItemValuation { id: it.id, value: v });
    }
    proof {
        assert(catalog@.take(n as int) =~= catalog@);
        assert(all@ =~= all_values_spec(listings@, catalog@));
    }
    let sorted = sort_desc_exec(&all);
    let (blood, sargerite) = partition_by_category(&sorted, catalog);
    proof {
        lemma_sort_desc_sorted(all_values_spec(listings@, catalog@));
        lemma_restrict_category_sorted(
            catalog@,
            sort_desc(all_values_spec(listings@, catalog@)),
            Category::Blood,
        );
        lemma_restrict_category_sorted(
            catalog@,
            sort_desc(all_values_spec(listings@, catalog@)),
            Category::Sargerite,
        );
    }
    (value_map, blood, sargerite)
}

} // verus!
