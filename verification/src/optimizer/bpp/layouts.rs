//! The open layouts of a bin packing problem, as plain values.
use crate::order;
use crate::order::order_by;
use crate::scalar::Scalar;
use vstd::multiset::Multiset;
use vstd::prelude::*;

verus! {

/// Key of an open layout.
///
/// `rank` holds the slot index in its upper and the slot version in its lower half, so that keys
/// are ordered as their ranks are.
#[derive(Debug, Clone, Copy, PartialEq, Eq, Structural)]
pub struct LayKey {
    /// Slot index and version.
    pub rank: u64,
}

/// Key of an item placed in a layout, ordered by its rank.
#[derive(Debug, Clone, Copy, PartialEq, Eq, Structural)]
pub struct PItemKey {
    /// Slot index and version.
    pub rank: u64,
}

/// An item placed in a layout.
#[derive(Debug, Clone, Copy, PartialEq, Eq, Structural)]
pub struct PlacedItem {
    /// Key under which it is placed.
    pub key: PItemKey,
    /// Which item of the instance it is a copy of.
    pub item_id: usize,
    /// Area of the item's original shape.
    pub area: Scalar,
}

/// An open layout.
#[derive(Debug, Clone)]
pub struct LayoutState {
    /// Key of the layout.
    pub key: LayKey,
    /// Which bin type it is opened from.
    pub bin_id: usize,
    /// Item area divided by container area.
    pub density: Scalar,
    /// Container area minus item area.
    pub free_area: Scalar,
    /// The placed items, in slot order.
    pub items: Vec<PlacedItem>,
}

/// Whether some layout has this key.
pub open spec fn has_layout(layouts: Seq<LayoutState>, key: LayKey) -> bool {
    exists|i: int| 0 <= i < layouts.len() && (#[trigger] layouts[i]).key == key
}

/// No two layouts share a key.
pub open spec fn distinct_layouts(layouts: Seq<LayoutState>) -> bool {
    forall|i: int, j: int|
        0 <= i < j < layouts.len() ==> (#[trigger] layouts[i]).key != (#[trigger] layouts[j]).key
}

/// Position of the first layout with this key; the number of layouts if there is none.
pub open spec fn layout_position(layouts: Seq<LayoutState>, key: LayKey) -> int
    decreases layouts.len(),
{
    if layouts.len() == 0 {
        0
    } else if layouts[0].key == key {
        0
    } else {
        1 + layout_position(layouts.skip(1), key)
    }
}

proof fn lemma_layout_position(layouts: Seq<LayoutState>, key: LayKey, p: int)
    requires
        0 <= p <= layouts.len(),
        forall|i: int| 0 <= i < p ==> (#[trigger] layouts[i]).key != key,
        p < layouts.len() ==> layouts[p].key == key,
    ensures
        layout_position(layouts, key) == p,
    decreases p,
{
    if layouts.len() > 0 && p > 0 {
        assert(layouts[0].key != key);
        assert forall|i: int| 0 <= i < p - 1 implies (#[trigger] layouts.skip(1)[i]).key != key by {
            assert(layouts.skip(1)[i] == layouts[i + 1]);
        }
        lemma_layout_position(layouts.skip(1), key, p - 1);
    }
}

/// Finds the layout with the given key.
pub fn find_layout(layouts: &Vec<LayoutState>, key: LayKey) -> (r: Option<usize>)
    ensures
        match r {
            Some(p) => p < layouts@.len() && p == layout_position(layouts@, key) && layouts@[
                p as int
            ].key == key,
            None => !has_layout(layouts@, key) && layout_position(layouts@, key)
                == layouts@.len(),
        },
{
    let mut i: usize = 0;
    while i < layouts.len()
        invariant
            i <= layouts@.len(),
            forall|k: int| 0 <= k < i ==> (#[trigger] layouts@[k]).key != key,
        decreases layouts@.len() - i,
    {
        if layouts[i].key == key {
            proof {
                lemma_layout_position(layouts@, key, i as int);
            }
            return Some(i);
        }
        i = i + 1;
    }
    proof {
        lemma_layout_position(layouts@, key, i as int);
    }
    None
}

/// Whether some placed item has this key.
pub open spec fn has_item(items: Seq<PlacedItem>, key: PItemKey) -> bool {
    exists|i: int| 0 <= i < items.len() && (#[trigger] items[i]).key == key
}

/// Position of the first item with this key; the number of items if there is none.
pub open spec fn item_position(items: Seq<PlacedItem>, key: PItemKey) -> int
    decreases items.len(),
{
    if items.len() == 0 {
        0
    } else if items[0].key == key {
        0
    } else {
        1 + item_position(items.skip(1), key)
    }
}

proof fn lemma_item_position(items: Seq<PlacedItem>, key: PItemKey, p: int)
    requires
        0 <= p <= items.len(),
        forall|i: int| 0 <= i < p ==> (#[trigger] items[i]).key != key,
        p < items.len() ==> items[p].key == key,
    ensures
        item_position(items, key) == p,
    decreases p,
{
    if items.len() > 0 && p > 0 {
        assert(items[0].key != key);
        assert forall|i: int| 0 <= i < p - 1 implies (#[trigger] items.skip(1)[i]).key != key by {
            assert(items.skip(1)[i] == items[i + 1]);
        }
        lemma_item_position(items.skip(1), key, p - 1);
    }
}

/// Finds the placed item with the given key.
pub fn find_item(items: &Vec<PlacedItem>, key: PItemKey) -> (r: Option<usize>)
    ensures
        match r {
            Some(p) => p < items@.len() && p == item_position(items@, key) && items@[p as int].key
                == key,
            None => !has_item(items@, key) && item_position(items@, key) == items@.len(),
        },
{
    let mut i: usize = 0;
    while i < items.len()
        invariant
            i <= items@.len(),
            forall|k: int| 0 <= k < i ==> (#[trigger] items@[k]).key != key,
        decreases items@.len() - i,
    {
        if items[i].key == key {
            proof {
                lemma_item_position(items@, key, i as int);
            }
            return Some(i);
        }
        i = i + 1;
    }
    proof {
        lemma_item_position(items@, key, i as int);
    }
    None
}

/// A key that sorts large numbers first.
pub open spec fn descending(s: Scalar) -> u64 {
    (u32::MAX - s.key()) as u64
}

/// A key that sorts small numbers first.
pub open spec fn ascending(s: Scalar) -> u64 {
    s.key() as u64
}

/// The sort keys of the layouts by density: ascending, or by descending density (the density
/// negated), with the layout key as the tie-break.
pub open spec fn density_keys(layouts: Seq<LayoutState>, up: bool) -> Seq<(u64, u64)> {
    layouts.map_values(
        |l: LayoutState|
            (
                if up {
                    ascending(l.density)
                } else {
                    ascending(l.density.flipped())
                },
                l.key.rank,
            ),
    )
}

/// The keys of the layouts at the given positions.
pub open spec fn keys_at(layouts: Seq<LayoutState>, positions: Seq<usize>) -> Seq<LayKey> {
    positions.map_values(|p: usize| layouts[p as int].key)
}

/// The keys of all layouts by density, least dense first if `up`, densest first otherwise.
pub open spec fn layouts_by_density(layouts: Seq<LayoutState>, up: bool) -> Seq<LayKey> {
    keys_at(layouts, order::positions_in_order(density_keys(layouts, up)))
}

fn keys_of_positions(layouts: &Vec<LayoutState>, positions: &Vec<usize>) -> (r: Vec<LayKey>)
    requires
        forall|i: int| 0 <= i < positions@.len() ==> (#[trigger] positions@[i]) < layouts@.len(),
    ensures
        r@ == keys_at(layouts@, positions@),
{
    let mut r: Vec<LayKey> = Vec::new();
    let mut i: usize = 0;
    while i < positions.len()
        invariant
            i <= positions@.len(),
            forall|k: int|
                0 <= k < positions@.len() ==> (#[trigger] positions@[k]) < layouts@.len(),
            r@ == keys_at(layouts@, positions@.take(i as int)),
        decreases positions@.len() - i,
    {
        r.push(layouts[positions[i]].key);
        assert(positions@.take(i + 1) =~= positions@.take(i as int).push(positions@[i as int]));
        assert(r@ =~= keys_at(layouts@, positions@.take(i + 1)));
        i = i + 1;
    }
    assert(positions@.take(i as int) =~= positions@);
    r
}

/// All open layouts ordered by density, ascending or descending. Ties break by key, so the order
/// is a total one.
pub fn ordered_layouts(layouts: &Vec<LayoutState>, up: bool) -> (r: Vec<LayKey>)
    ensures
        r@ == layouts_by_density(layouts@, up),
{
    let mut keys: Vec<(u64, u64)> = Vec::new();
    let mut i: usize = 0;
    while i < layouts.len()
        invariant
            i <= layouts@.len(),
            keys@.len() == i,
            forall|k: int|
                0 <= k < i ==> #[trigger] keys@[k] == density_keys(layouts@, up)[k],
        decreases layouts@.len() - i,
    {
        let d = layouts[i].density;
        let k: u32 = if up {
            d.order_key()
        } else {
            d.negated().order_key()
        };
        keys.push((k as u64, layouts[i].key.rank));
        i = i + 1;
    }
    assert(keys@ =~= density_keys(layouts@, up));
    let order = order_by(&keys);
    keys_of_positions(layouts, &order)
}

/// The sort keys of placed items: largest area first, ties by key.
pub open spec fn area_keys(items: Seq<PlacedItem>) -> Seq<(u64, u64)> {
    items.map_values(|p: PlacedItem| (descending(p.area), p.key.rank))
}

/// The placed items, largest area first, ties by key.
pub open spec fn items_by_area(items: Seq<PlacedItem>) -> Seq<PlacedItem> {
    order::positions_in_order(area_keys(items)).map_values(|p: usize| items[p as int])
}

/// The placed items of a layout, largest area first. Ties break by key.
pub fn largest_first(items: &Vec<PlacedItem>) -> (r: Vec<PlacedItem>)
    ensures
        r@ == items_by_area(items@),
        r@.len() == items@.len(),
{
    let mut keys: Vec<(u64, u64)> = Vec::new();
    let mut i: usize = 0;
    while i < items.len()
        invariant
            i <= items@.len(),
            keys@.len() == i,
            forall|k: int| 0 <= k < i ==> #[trigger] keys@[k] == area_keys(items@)[k],
        decreases items@.len() - i,
    {
        let k: u32 = u32::MAX - items[i].area.order_key();
        keys.push((k as u64, items[i].key.rank));
        i = i + 1;
    }
    assert(keys@ =~= area_keys(items@));
    let order = order_by(&keys);
    let mut r: Vec<PlacedItem> = Vec::new();
    let mut j: usize = 0;
    while j < order.len()
        invariant
            j <= order@.len(),
            forall|k: int| 0 <= k < order@.len() ==> (#[trigger] order@[k]) < items@.len(),
            r@.len() == j,
            forall|k: int| 0 <= k < j ==> #[trigger] r@[k] == items@[order@[k] as int],
        decreases order@.len() - j,
    {
        r.push(items[order[j]]);
        j = j + 1;
    }
    assert(r@ =~= items_by_area(items@));
    r
}

/// A key that occurs has a position.
pub proof fn lemma_present(layouts: Seq<LayoutState>, key: LayKey)
    requires
        has_layout(layouts, key),
    ensures
        0 <= layout_position(layouts, key) < layouts.len(),
        layouts[layout_position(layouts, key)].key == key,
    decreases layouts.len(),
{
    if layouts[0].key != key {
        let i = choose|i: int| 0 <= i < layouts.len() && (#[trigger] layouts[i]).key == key;
        assert(layouts.skip(1)[i - 1].key == key);
        lemma_present(layouts.skip(1), key);
    }
}

/// A position within the layouts is that of a layout with the key.
pub proof fn lemma_position_is_present(layouts: Seq<LayoutState>, key: LayKey)
    requires
        layout_position(layouts, key) < layouts.len(),
    ensures
        has_layout(layouts, key),
{
    if !has_layout(layouts, key) {
        lemma_layout_position(layouts, key, layouts.len() as int);
    }
}

/// The density order lists every layout once, and nothing else.
pub proof fn lemma_layouts_by_density(layouts: Seq<LayoutState>, up: bool)
    requires
        layouts.len() <= usize::MAX,
    ensures
        layouts_by_density(layouts, up).len() == layouts.len(),
        forall|i: int|
            0 <= i < layouts.len() ==> has_layout(
                layouts,
                #[trigger] layouts_by_density(layouts, up)[i],
            ),
        forall|i: int|
            0 <= i < layouts.len() ==> layouts_by_density(layouts, up).contains(
                (#[trigger] layouts[i]).key,
            ),
{
    let keys = density_keys(layouts, up);
    order::lemma_order_exists(keys);
    let o = order::positions_in_order(keys);
    let r = layouts_by_density(layouts, up);
    assert forall|i: int| 0 <= i < layouts.len() implies has_layout(layouts, #[trigger] r[i]) by {
        assert(layouts[o[i] as int].key == r[i]);
    }
    assert forall|i: int| 0 <= i < layouts.len() implies r.contains((#[trigger] layouts[i]).key) by {
        assert(o.contains(i as usize));
        let k = choose|k: int| 0 <= k < o.len() && o[k] == i as usize;
        assert(r[k] == layouts[i].key);
    }
}

/// The bin types of the open layouts, each as often as it is open.
pub open spec fn bins_of(layouts: Seq<LayoutState>) -> Multiset<usize> {
    layouts.map_values(|l: LayoutState| l.bin_id).to_multiset()
}

/// What bins cost in total, as far as they are of the first `n` types.
pub open spec fn bins_cost(bins: Multiset<usize>, costs: Seq<u64>, n: nat) -> nat
    decreases n,
{
    if n == 0 {
        0
    } else {
        bins_cost(bins, costs, (n - 1) as nat) + bins.count((n - 1) as usize) * costs[n - 1] as nat
    }
}

/// **Fewer bins cost no more.**
pub proof fn lemma_fewer_bins_cost_no_more(
    fewer: Multiset<usize>,
    bins: Multiset<usize>,
    costs: Seq<u64>,
    n: nat,
)
    requires
        fewer.subset_of(bins),
    ensures
        bins_cost(fewer, costs, n) <= bins_cost(bins, costs, n),
    decreases n,
{
    if n > 0 {
        lemma_fewer_bins_cost_no_more(fewer, bins, costs, (n - 1) as nat);
        let id = (n - 1) as usize;
        assert(fewer.count(id) <= bins.count(id));
        vstd::arithmetic::mul::lemma_mul_inequality(
            fewer.count(id) as int,
            bins.count(id) as int,
            costs[n - 1] as int,
        );
    }
}

/// The bin type of an open layout is one of those that are open.
pub proof fn lemma_open_bin(layouts: Seq<LayoutState>, key: LayKey)
    requires
        has_layout(layouts, key),
    ensures
        bins_of(layouts).count(layouts[layout_position(layouts, key)].bin_id) > 0,
{
    broadcast use vstd::seq_lib::group_to_multiset_ensures;
    lemma_present(layouts, key);
    let types = layouts.map_values(|l: LayoutState| l.bin_id);
    let p = layout_position(layouts, key);
    assert(types[p] == layouts[p].bin_id);
    assert(types.contains(layouts[p].bin_id));
}

/// **The density order is one of density**: of two layouts, the sparser one comes first on the way up and
/// the denser one on the way down; two of the same density come in the order of their keys.
pub proof fn lemma_density_decides_the_order(
    layouts: Seq<LayoutState>,
    up: bool,
    p: int,
    q: int,
    i: int,
    j: int,
)
    requires
        layouts.len() <= usize::MAX,
        distinct_layouts(layouts),
        0 <= p < layouts.len(),
        0 <= q < layouts.len(),
        0 <= i < layouts.len(),
        0 <= j < layouts.len(),
        layouts_by_density(layouts, up)[i] == layouts[p].key,
        layouts_by_density(layouts, up)[j] == layouts[q].key,
    ensures
        up && layouts[p].density.less(layouts[q].density) ==> i < j,
        !up && layouts[q].density.less(layouts[p].density) ==> i < j,
        !layouts[p].density.nan() && layouts[q].density.nan() ==> i < j,
        !layouts[p].density.nan() && !layouts[q].density.nan() && layouts[p].density.value()
            == layouts[q].density.value() && layouts[p].key.rank < layouts[q].key.rank ==> i < j,
        i == j <==> p == q,
{
    let keys = density_keys(layouts, up);
    order::lemma_order_exists(keys);
    let o = order::positions_in_order(keys);
    let (a, b) = (layouts[p].density, layouts[q].density);
    assert(layouts[o[i] as int].key == layouts[p].key);
    assert(layouts[o[j] as int].key == layouts[q].key);
    assert(o[i] == p && o[j] == q);
    crate::scalar::lemma_key_is_order(a, b);
    crate::scalar::lemma_key_is_order(b, a);
    crate::scalar::lemma_key_is_order(a.flipped(), b.flipped());
    crate::scalar::lemma_key_is_order(b.flipped(), a.flipped());
    assert(keys[p].0 == if up {
        ascending(a)
    } else {
        ascending(a.flipped())
    });
    assert(keys[q].0 == if up {
        ascending(b)
    } else {
        ascending(b.flipped())
    });
    if j < i {
        assert(order::key_less(order::full_key(keys, o[j]), order::full_key(keys, o[i])));
    }
}

/// **Items come largest first**: the same items, none of them in front of a larger one, and items of the
/// same area in the order of their keys.
pub proof fn lemma_items_come_largest_first(items: Seq<PlacedItem>)
    requires
        items.len() <= usize::MAX,
    ensures
        items_by_area(items).to_multiset() == items.to_multiset(),
        forall|i: int, j: int|
            #![trigger items_by_area(items)[i], items_by_area(items)[j]]
            0 <= i < j < items.len() ==> {
                let (a, b) = (items_by_area(items)[i], items_by_area(items)[j]);
                &&& !a.area.less(b.area)
                &&& a.area == b.area ==> a.key.rank <= b.key.rank
            },
{
    let keys = area_keys(items);
    order::lemma_order_exists(keys);
    order::lemma_order_permutes(keys, items);
    let o = order::positions_in_order(keys);
    let r = items_by_area(items);
    assert forall|i: int, j: int|
        #![trigger r[i], r[j]]
        0 <= i < j < items.len() implies !r[i].area.less(r[j].area) && (r[i].area == r[j].area
        ==> r[i].key.rank <= r[j].key.rank) by {
        let (p, q) = (o[i] as int, o[j] as int);
        assert(r[i] == items[p] && r[j] == items[q]);
        assert(order::key_less(order::full_key(keys, o[i]), order::full_key(keys, o[j])));
        assert(keys[p] == (descending(items[p].area), items[p].key.rank));
        assert(keys[q] == (descending(items[q].area), items[q].key.rank));
        crate::scalar::lemma_key_is_order(items[p].area, items[q].area);
    }
}

/// **A layout is found under its key.**
pub proof fn lemma_found_under_its_key(layouts: Seq<LayoutState>, i: int)
    requires
        distinct_layouts(layouts),
        0 <= i < layouts.len(),
    ensures
        layout_position(layouts, layouts[i].key) == i,
{
    lemma_layout_position(layouts, layouts[i].key, i);
}

/// **What is not there is not found.**
pub proof fn lemma_absent_is_not_found(layouts: Seq<LayoutState>, key: LayKey)
    requires
        !has_layout(layouts, key),
    ensures
        layout_position(layouts, key) == layouts.len(),
{
    lemma_layout_position(layouts, key, layouts.len() as int);
}

/// No two items share a key.
pub open spec fn distinct_items(items: Seq<PlacedItem>) -> bool {
    forall|i: int, j: int|
        0 <= i < j < items.len() ==> (#[trigger] items[i]).key != (#[trigger] items[j]).key
}

/// **An item is found under its key.**
pub proof fn lemma_item_is_found_under_its_key(items: Seq<PlacedItem>, i: int)
    requires
        distinct_items(items),
        0 <= i < items.len(),
    ensures
        item_position(items, items[i].key) == i,
{
    lemma_item_position(items, items[i].key, i);
}

/// An item that is there has a position.
pub proof fn lemma_item_present(items: Seq<PlacedItem>, key: PItemKey)
    requires
        has_item(items, key),
    ensures
        0 <= item_position(items, key) < items.len(),
        items[item_position(items, key)].key == key,
    decreases items.len(),
{
    let i = choose|i: int| 0 <= i < items.len() && (#[trigger] items[i]).key == key;
    if items[0].key != key {
        assert(items.skip(1)[i - 1] == items[i]);
        lemma_item_present(items.skip(1), key);
        let p = item_position(items.skip(1), key);
        assert(items.skip(1)[p] == items[p + 1]);
    }
}

/// **An item that is not there is not found.**
pub proof fn lemma_absent_item_is_not_found(items: Seq<PlacedItem>, key: PItemKey)
    requires
        !has_item(items, key),
    ensures
        item_position(items, key) == items.len(),
{
    lemma_item_position(items, key, items.len() as int);
}

} // verus!
