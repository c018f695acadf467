//! Decisions of the separator over several layouts: which bin to close, where its items go, which
//! worker to adopt, and which collision trackers survive a rollback.
use crate::keymap::KeyMap;
use crate::optimizer::bpp::layouts;
use crate::optimizer::bpp::layouts::{
    find_item, find_layout, LayKey, LayoutState, PItemKey, PlacedItem,
};
use crate::optimizer::bpp::trackers;
use crate::optimizer::bpp::trackers::{follow, layout_size, TakenOver, TrackerSync};
use crate::order;
use crate::order::order_by;
use crate::scalar::Scalar;
use vstd::prelude::*;

verus! {

/// The sort keys of layouts by density alone, so that layouts of equal density keep their order.
pub open spec fn sparse_keys(layouts: Seq<LayoutState>) -> Seq<(u64, u64)> {
    layouts.map_values(|l: LayoutState| (layouts::ascending(l.density), 0u64))
}

/// The layouts, least dense first; layouts of equal density keep their order.
pub open spec fn sparsest_first(layouts: Seq<LayoutState>) -> Seq<LayoutState> {
    order::positions_in_order(sparse_keys(layouts)).map_values(|p: usize| layouts[p as int])
}

fn sparse_order(layouts: &Vec<LayoutState>) -> (r: Vec<usize>)
    ensures
        r@ == order::positions_in_order(sparse_keys(layouts@)),
        order::is_order(sparse_keys(layouts@), r@),
{
    let mut keys: Vec<(u64, u64)> = Vec::new();
    let mut i: usize = 0;
    while i < layouts.len()
        invariant
            i <= layouts@.len(),
            keys@.len() == i,
            forall|k: int| 0 <= k < i ==> #[trigger] keys@[k] == sparse_keys(layouts@)[k],
        decreases layouts@.len() - i,
    {
        keys.push((layouts[i].density.order_key() as u64, 0));
        i = i + 1;
    }
    assert(keys@ =~= sparse_keys(layouts@));
    order_by(&keys)
}

/// The `n`-th least dense open layout (0 = least dense), or `None` if there are fewer layouts.
pub fn nth_least_dense_layout(layouts: &Vec<LayoutState>, n: usize) -> (r: Option<LayKey>)
    ensures
        r == if n < layouts@.len() {
            Some(sparsest_first(layouts@)[n as int].key)
        } else {
            None
        },
{
    let order = sparse_order(layouts);
    if n < order.len() {
        Some(layouts[order[n]].key)
    } else {
        None
    }
}

/// The open layout with the lowest density.
pub fn least_dense_layout(layouts: &Vec<LayoutState>) -> (r: Option<LayKey>)
    ensures
        r == if layouts@.len() > 0 {
            Some(sparsest_first(layouts@)[0].key)
        } else {
            None
        },
{
    nth_least_dense_layout(layouts, 0)
}

/// No open layout is less dense than the one that is picked as the least dense.
pub proof fn lemma_least_dense_is_minimal(layouts: Seq<LayoutState>, i: int)
    requires
        0 <= i < layouts.len() <= usize::MAX,
    ensures
        !layouts[i].density.before(sparsest_first(layouts)[0].density),
{
    let keys = sparse_keys(layouts);
    order::lemma_order_exists(keys);
    let o = order::positions_in_order(keys);
    assert(o.contains(i as usize));
    let k = choose|k: int| 0 <= k < o.len() && o[k] == i as usize;
    if k > 0 {
        assert(order::key_less(order::full_key(keys, o[0]), order::full_key(keys, o[k])));
    }
    crate::scalar::lemma_key_is_order(layouts[i].density, layouts[o[0] as int].density);
}

/// The position of the smallest number in the total order, the first one if there are several.
pub open spec fn is_first_minimum(losses: Seq<Scalar>, best: int) -> bool {
    &&& 0 <= best < losses.len()
    &&& forall|i: int| 0 <= i < losses.len() ==> !(#[trigger] losses[i]).before(losses[best])
    &&& forall|i: int| 0 <= i < best ==> losses[best].before(#[trigger] losses[i])
}

/// Picks the worker with the lowest total weighted loss, the first one of several.
pub fn best_worker(weighted_losses: &Vec<Scalar>) -> (best: usize)
    requires
        weighted_losses@.len() > 0,
    ensures
        is_first_minimum(weighted_losses@, best as int),
{
    let mut best: usize = 0;
    let mut i: usize = 1;
    while i < weighted_losses.len()
        invariant
            1 <= i <= weighted_losses@.len(),
            is_first_minimum(weighted_losses@.take(i as int), best as int),
        decreases weighted_losses@.len() - i,
    {
        let (a, b) = (weighted_losses[i], weighted_losses[best]);
        proof {
            assert forall|j: int, k: int|
                0 <= j < weighted_losses@.len() && 0 <= k < weighted_losses@.len() implies (
            weighted_losses@[j].key() < weighted_losses@[k].key()) == (
            #[trigger] weighted_losses@[j]).before(#[trigger] weighted_losses@[k]) by {
                crate::scalar::lemma_key_is_order(weighted_losses@[j], weighted_losses@[k]);
            }
        }
        let ghost old_best = best;
        if a.order_key() < b.order_key() {
            best = i;
        }
        assert forall|j: int| 0 <= j < i + 1 implies !(#[trigger] weighted_losses@.take(
            i + 1,
        )[j]).before(weighted_losses@.take(i + 1)[best as int]) by {
            if j < i {
                assert(weighted_losses@.take(i as int)[j] == weighted_losses@[j]);
            }
        }
        assert forall|j: int| 0 <= j < best implies weighted_losses@.take(
            i + 1,
        )[best as int].before(#[trigger] weighted_losses@.take(i + 1)[j]) by {
            assert(weighted_losses@.take(i as int)[j] == weighted_losses@[j]);
        }
        i = i + 1;
    }
    assert(weighted_losses@.take(i as int) =~= weighted_losses@);
    best
}

/// One re-placement of a scattered item.
#[derive(Debug, Clone, Copy, PartialEq, Eq, Structural)]
pub struct Placement {
    /// Which item of the instance.
    pub item_id: usize,
    /// The layout it goes to.
    pub dst: LayKey,
}

/// How one bin is closed and its content scattered over the others.
#[derive(Debug)]
pub struct Scatter {
    /// The items to remove from the closed bin, in this order.
    pub removals: Vec<PItemKey>,
    /// Where they go, in the same order.
    pub placements: Vec<Placement>,
    /// The layouts that receive an item, each once.
    pub affected: Vec<LayKey>,
}

/// What closing a bin comes to.
#[derive(Debug)]
pub enum ScatterDecision {
    /// It is the only open bin: there is nowhere to scatter to.
    OnlyBin,
    /// An item does not fit its destination in any rotation. Nothing is to be changed.
    DoesNotFit(Placement),
    /// Remove and re-place the items.
    Scatter(Scatter),
}

/// The sort keys of items by area alone, largest first.
pub open spec fn large_keys(items: Seq<PlacedItem>) -> Seq<(u64, u64)> {
    items.map_values(|p: PlacedItem| (layouts::descending(p.area), 0u64))
}

/// The items, largest area first; items of equal area keep their order.
pub open spec fn scatter_items(items: Seq<PlacedItem>) -> Seq<PlacedItem> {
    order::positions_in_order(large_keys(items)).map_values(|p: usize| items[p as int])
}

/// The layouts that remain when `target` is closed.
pub open spec fn without(layouts: Seq<LayoutState>, target: LayKey) -> Seq<LayoutState> {
    layouts.filter(|l: LayoutState| l.key != target)
}

/// Where the items of `items` go: largest first, round-robin over the remaining layouts, starting
/// with the least dense one.
pub open spec fn scatter_placements(
    items: Seq<PlacedItem>,
    remaining: Seq<LayoutState>,
) -> Seq<Placement> {
    Seq::new(
        items.len(),
        |i: int|
            Placement {
                item_id: scatter_items(items)[i].item_id,
                dst: sparsest_first(remaining)[i % remaining.len() as int].key,
            },
    )
}

/// Whether the `i`-th scattered item fits its destination.
pub open spec fn scatter_fits(
    items: Seq<PlacedItem>,
    remaining: Seq<LayoutState>,
    fits: Seq<Vec<bool>>,
    i: int,
) -> bool {
    fits[scatter_items(items)[i].item_id as int]@[sparsest_first(remaining)[i
        % remaining.len() as int].bin_id as int]
}

/// The table has an entry for every item and every layout.
pub open spec fn fits_covers(layouts: Seq<LayoutState>, fits: Seq<Vec<bool>>) -> bool {
    forall|i: int, k: int, j: int|
        0 <= i < layouts.len() && 0 <= k < layouts[i].items@.len() && 0 <= j < layouts.len() ==> (
        #[trigger] layouts[i].items@[k]).item_id < fits.len() && (#[trigger] layouts[j]).bin_id
            < fits[layouts[i].items@[k].item_id as int]@.len()
}

fn remaining_positions(layouts: &Vec<LayoutState>, target: LayKey) -> (r: Vec<usize>)
    ensures
        r@.len() == without(layouts@, target).len(),
        forall|k: int| 0 <= k < r@.len() ==> (#[trigger] r@[k]) < layouts@.len(),
        forall|k: int|
            0 <= k < r@.len() ==> layouts@[(#[trigger] r@[k]) as int] == without(
                layouts@,
                target,
            )[k],
{
    let ghost pred = |l: LayoutState| l.key != target;
    let mut r: Vec<usize> = Vec::new();
    let mut i: usize = 0;
    proof {
        reveal(Seq::filter);
    }
    while i < layouts.len()
        invariant
            i <= layouts@.len(),
            pred == (|l: LayoutState| l.key != target),
            r@.len() == layouts@.take(i as int).filter(pred).len(),
            forall|k: int| 0 <= k < r@.len() ==> (#[trigger] r@[k]) < i,
            forall|k: int|
                0 <= k < r@.len() ==> layouts@[(#[trigger] r@[k]) as int] == layouts@.take(
                    i as int,
                ).filter(pred)[k],
        decreases layouts@.len() - i,
    {
        proof {
            reveal(Seq::filter);
            assert(layouts@.take(i + 1).drop_last() =~= layouts@.take(i as int));
        }
        if layouts[i].key != target {
            r.push(i);
        }
        i = i + 1;
    }
    assert(layouts@.take(i as int) =~= layouts@);
    r
}

/// Decides how to close one bin and scatter its content over the remaining open bins.
///
/// `fits[item][bin]` says whether the item fits the bin type in some rotation.
pub fn close_bin_and_scatter(
    layouts: &Vec<LayoutState>,
    target: LayKey,
    fits: &Vec<Vec<bool>>,
) -> (r: ScatterDecision)
    requires
        layouts::has_layout(layouts@, target),
        layouts::distinct_layouts(layouts@),
        fits_covers(layouts@, fits@),
    ensures
        ({
            let items = layouts@[layouts::layout_position(layouts@, target)].items@;
            let remaining = without(layouts@, target);
            let placements = scatter_placements(items, remaining);
            match r {
                ScatterDecision::OnlyBin => layouts@.len() < 2,
                ScatterDecision::DoesNotFit(p) => layouts@.len() >= 2 && exists|i: int|
                    0 <= i < items.len() && !scatter_fits(items, remaining, fits@, i) && p
                        == #[trigger] placements[i] && forall|j: int|
                        0 <= j < i ==> scatter_fits(items, remaining, fits@, j),
                ScatterDecision::Scatter(s) => {
                    &&& layouts@.len() >= 2
                    &&& forall|i: int|
                        0 <= i < items.len() ==> scatter_fits(items, remaining, fits@, i)
                    &&& s.placements@ == placements
                    &&& s.removals@ == scatter_items(items).map_values(|p: PlacedItem| p.key)
                    &&& s.affected@ == sparsest_first(remaining).take(
                        if items.len() < remaining.len() {
                            items.len() as int
                        } else {
                            remaining.len() as int
                        },
                    ).map_values(|l: LayoutState| l.key)
                },
            }
        }),
{
    if layouts.len() < 2 {
        return ScatterDecision::OnlyBin;
    }
    let ghost pred = |l: LayoutState| l.key != target;
    let ghost remaining = without(layouts@, target);
    proof {
        layouts::lemma_present(layouts@, target);
        lemma_one_leaves(layouts@, target);
    }
    let p: usize = match find_layout(layouts, target) {
        Some(p) => p,
        None => {
            return ScatterDecision::OnlyBin;
        },
    };
    let items: &Vec<PlacedItem> = &layouts[p].items;
    // The items, largest first.
    let mut keys: Vec<(u64, u64)> = Vec::new();
    let mut i: usize = 0;
    while i < items.len()
        invariant
            i <= items@.len(),
            keys@.len() == i,
            forall|k: int| 0 <= k < i ==> #[trigger] keys@[k] == large_keys(items@)[k],
        decreases items@.len() - i,
    {
        let k: u32 = u32::MAX - items[i].area.order_key();
        keys.push((k as u64, 0));
        i = i + 1;
    }
    assert(keys@ =~= large_keys(items@));
    let item_order = order_by(&keys);
    // The destinations, least dense first.
    let rest = remaining_positions(layouts, target);
    let mut dst_keys: Vec<(u64, u64)> = Vec::new();
    let mut j: usize = 0;
    while j < rest.len()
        invariant
            j <= rest@.len(),
            rest@.len() == remaining.len(),
            dst_keys@.len() == j,
            forall|k: int| 0 <= k < rest@.len() ==> (#[trigger] rest@[k]) < layouts@.len(),
            forall|k: int|
                0 <= k < rest@.len() ==> layouts@[(#[trigger] rest@[k]) as int] == remaining[k],
            forall|k: int| 0 <= k < j ==> #[trigger] dst_keys@[k] == sparse_keys(remaining)[k],
        decreases rest@.len() - j,
    {
        assert(layouts@[rest@[j as int] as int] == remaining[j as int]);
        dst_keys.push((layouts[rest[j]].density.order_key() as u64, 0));
        j = j + 1;
    }
    assert(dst_keys@ =~= sparse_keys(remaining));
    let dst_order = order_by(&dst_keys);
    let n: usize = rest.len();
    let mut removals: Vec<PItemKey> = Vec::new();
    let mut placements: Vec<Placement> = Vec::new();
    let mut affected: Vec<LayKey> = Vec::new();
    let mut k: usize = 0;
    while k < items.len()
        invariant
            k <= items@.len(),
            0 < n == rest@.len() == remaining.len(),
            p < layouts@.len(),
            p == layouts::layout_position(layouts@, target),
            layouts@.len() >= 2,
            *items == layouts@[p as int].items,
            remaining == without(layouts@, target),
            item_order@ == order::positions_in_order(large_keys(items@)),
            order::is_order(large_keys(items@), item_order@),
            dst_order@ == order::positions_in_order(sparse_keys(remaining)),
            order::is_order(sparse_keys(remaining), dst_order@),
            fits_covers(layouts@, fits@),
            forall|q: int| 0 <= q < rest@.len() ==> (#[trigger] rest@[q]) < layouts@.len(),
            forall|q: int|
                0 <= q < rest@.len() ==> layouts@[(#[trigger] rest@[q]) as int] == remaining[q],
            forall|q: int| 0 <= q < k ==> scatter_fits(items@, remaining, fits@, q),
            removals@.len() == k,
            placements@.len() == k,
            forall|q: int|
                0 <= q < k ==> #[trigger] removals@[q] == scatter_items(items@)[q].key,
            forall|q: int|
                0 <= q < k ==> #[trigger] placements@[q] == scatter_placements(
                    items@,
                    remaining,
                )[q],
            affected@.len() == if k < n {
                k
            } else {
                n
            },
            forall|q: int|
                0 <= q < affected@.len() ==> #[trigger] affected@[q] == sparsest_first(
                    remaining,
                )[q].key,
        decreases items@.len() - k,
    {
        let item: PlacedItem = items[item_order[k]];
        let slot: usize = k % n;
        let dst: &LayoutState = &layouts[rest[dst_order[slot]]];
        assert(item == scatter_items(items@)[k as int]);
        assert(*dst == sparsest_first(remaining)[slot as int]);
        let placement = Placement { item_id: item.item_id, dst: dst.key };
        assert(placement == scatter_placements(items@, remaining)[k as int]);
        proof {
            let a = item_order@[k as int] as int;
            let b = rest@[dst_order@[slot as int] as int] as int;
            assert(layouts@[p as int].items@[a].item_id < fits@.len() && layouts@[b].bin_id
                < fits@[layouts@[p as int].items@[a].item_id as int]@.len());
        }
        if !fits[item.item_id][dst.bin_id] {
            assert(!scatter_fits(items@, remaining, fits@, k as int));
            return ScatterDecision::DoesNotFit(placement);
        }
        assert(scatter_fits(items@, remaining, fits@, k as int));
        removals.push(item.key);
        placements.push(placement);
        if k < n {
            proof {
                vstd::arithmetic::div_mod::lemma_small_mod(k as nat, n as nat);
            }
            affected.push(dst.key);
        }
        k = k + 1;
    }
    proof {
        assert(removals@ =~= scatter_items(items@).map_values(|p: PlacedItem| p.key));
        assert(placements@ =~= scatter_placements(items@, remaining));
        assert(affected@ =~= sparsest_first(remaining).take(
            if items@.len() < remaining.len() {
                items@.len() as int
            } else {
                remaining.len() as int
            },
        ).map_values(|l: LayoutState| l.key));
    }
    ScatterDecision::Scatter(Scatter { removals, placements, affected })
}

/// Closing one bin leaves all others open.
pub proof fn lemma_one_leaves(layouts: Seq<LayoutState>, target: LayKey)
    requires
        layouts::has_layout(layouts, target),
        layouts::distinct_layouts(layouts),
    ensures
        without(layouts, target).len() == layouts.len() - 1,
    decreases layouts.len(),
{
    reveal(Seq::filter);
    let pred = |l: LayoutState| l.key != target;
    let rest = layouts.drop_last();
    let i = choose|i: int| 0 <= i < layouts.len() && (#[trigger] layouts[i]).key == target;
    if layouts.last().key == target {
        assert forall|j: int| 0 <= j < rest.len() implies (#[trigger] rest[j]).key != target by {
            assert(layouts[j].key != layouts[layouts.len() - 1].key);
        }
        lemma_none_leaves(rest, target);
    } else {
        assert(rest[i].key == target);
        assert forall|a: int, b: int| 0 <= a < b < rest.len() implies (#[trigger] rest[a]).key != (
        #[trigger] rest[b]).key by {
            assert(layouts[a].key != layouts[b].key);
        }
        lemma_one_leaves(rest, target);
    }
}

proof fn lemma_none_leaves(layouts: Seq<LayoutState>, target: LayKey)
    requires
        forall|j: int| 0 <= j < layouts.len() ==> (#[trigger] layouts[j]).key != target,
    ensures
        without(layouts, target) == layouts,
    decreases layouts.len(),
{
    reveal(Seq::filter);
    if layouts.len() > 0 {
        assert forall|j: int| 0 <= j < layouts.drop_last().len() implies (
        #[trigger] layouts.drop_last()[j]).key != target by {
            assert(layouts[j].key != target);
        }
        lemma_none_leaves(layouts.drop_last(), target);
        assert(layouts[layouts.len() - 1].key != target);
        assert(without(layouts, target) =~= layouts);
    }
}

/// The item ids of placed items.
pub open spec fn ids_of(items: Seq<PlacedItem>) -> Seq<usize> {
    items.map_values(|p: PlacedItem| p.item_id)
}

/// **A scatter neither loses nor invents items, and the closed bin stays closed.** The re-placed
/// items are, copy by copy, the items of the closed bin, and every one of them goes to a bin that
/// remains open.
pub proof fn lemma_scatter_conserves_items(
    items: Seq<PlacedItem>,
    layouts: Seq<LayoutState>,
    target: LayKey,
)
    requires
        items.len() <= usize::MAX,
        layouts.len() <= usize::MAX,
        without(layouts, target).len() > 0,
    ensures
        scatter_placements(items, without(layouts, target)).map_values(
            |p: Placement| p.item_id,
        ).to_multiset() == ids_of(items).to_multiset(),
        forall|i: int|
            0 <= i < items.len() ==> {
                let dst = (#[trigger] scatter_placements(items, without(layouts, target))[i]).dst;
                dst != target && layouts::has_layout(layouts, dst)
            },
{
    let remaining = without(layouts, target);
    let pred = |l: LayoutState| l.key != target;
    let placements = scatter_placements(items, remaining);
    let keys = large_keys(items);
    order::lemma_order_exists(keys);
    let o = order::positions_in_order(keys);
    order::lemma_order_permutes(keys, ids_of(items));
    assert(placements.map_values(|p: Placement| p.item_id) =~= o.map_values(
        |p: usize| ids_of(items)[p as int],
    ));
    layouts.lemma_filter_len(pred);
    let dkeys = sparse_keys(remaining);
    order::lemma_order_exists(dkeys);
    let d = order::positions_in_order(dkeys);
    assert forall|i: int| 0 <= i < items.len() implies {
        let dst = (#[trigger] placements[i]).dst;
        dst != target && layouts::has_layout(layouts, dst)
    } by {
        let slot = i % remaining.len() as int;
        let l = remaining[d[slot] as int];
        layouts.lemma_filter_pred(pred, d[slot] as int);
        assert(remaining.contains(l));
        layouts.lemma_filter_contains_rev(pred, l);
    }
}

/// A cross-layout move of one item.
#[derive(Debug, Clone, Copy, PartialEq, Eq, Structural)]
pub struct Transfer {
    /// Which item of the instance moves.
    pub item_id: usize,
    /// The source held only this item, so it is closed and its bin returns to stock.
    pub src_closed: bool,
}

/// Decides a move of the item `pk` out of layout `src` and into another one.
///
/// `fits` says whether the item fits the destination in some rotation; if it does not, nothing is
/// to be changed.
pub fn transfer_item(
    layouts: &Vec<LayoutState>,
    src: LayKey,
    pk: PItemKey,
    fits: bool,
) -> (r: Option<Transfer>)
    requires
        layouts::has_layout(layouts@, src),
        layouts::has_item(layouts@[layouts::layout_position(layouts@, src)].items@, pk),
    ensures
        r is Some <==> fits,
        r matches Some(t) ==> (t.src_closed <==> layouts@[layouts::layout_position(
            layouts@,
            src,
        )].items@.len() < 2),
        ({
            let items = layouts@[layouts::layout_position(layouts@, src)].items@;
            r == if fits {
                Some(
                    Transfer {
                        item_id: items[layouts::item_position(items, pk)].item_id,
                        src_closed: items.len() == 1,
                    },
                )
            } else {
                None
            }
        }),
{
    if !fits {
        return None;
    }
    match find_layout(layouts, src) {
        Some(p) => match find_item(&layouts[p].items, pk) {
            Some(q) => Some(
                Transfer {
                    item_id: layouts[p].items[q].item_id,
                    src_closed: layouts[p].items.len() == 1,
                },
            ),
            None => None,
        },
        None => None,
    }
}

/// Lets the trackers follow a rollback to a saved solution, with or without the trackers that were
/// saved with it.
pub fn rollback(
    own: &mut KeyMap,
    keys_changed: bool,
    snapshots: Option<&KeyMap>,
    layouts: &Vec<LayoutState>,
) -> (r: TrackerSync)
    requires
        old(own).wf(),
        trackers::sound_layouts(layouts@),
        !keys_changed && snapshots is Some ==> trackers::within(*(snapshots->0), layouts@),
    ensures
        final(own).wf(),
        trackers::is_sync(
            r,
            keys_changed || snapshots is None,
            *old(own),
            *final(own),
            trackers::given_map(snapshots),
            layouts@,
        ),
{
    follow(own, keys_changed, snapshots, layouts)
}

/// Whether a tracker keeps its weights in a rollback and takes over the losses only: it holds exactly
/// as many items as the snapshot and as the layout. Otherwise the snapshot is adopted as it is.
pub fn keeps_weights(t: &TakenOver, layouts: &Vec<LayoutState>) -> (r: bool)
    ensures
        r == (t.present == Some(t.size) && trackers::size_in(layouts@, t.key.rank) == Some(t.size)),
{
    let present: bool = match t.present {
        Some(n) => n == t.size,
        None => false,
    };
    match layout_size(layouts, t.key.rank) {
        Some(n) => present && n == t.size,
        None => false,
    }
}

/// **The sparsest come first**: the same layouts, none of them behind a denser one, and layouts of the same
/// density in the order in which they stood.
pub proof fn lemma_sparsest_come_first(layouts: Seq<LayoutState>)
    requires
        layouts.len() <= usize::MAX,
    ensures
        sparsest_first(layouts).to_multiset() == layouts.to_multiset(),
        forall|i: int, j: int|
            #![trigger sparsest_first(layouts)[i], sparsest_first(layouts)[j]]
            0 <= i < j < layouts.len() ==> !sparsest_first(layouts)[j].density.before(
                sparsest_first(layouts)[i].density,
            ),
        (forall|i: int, j: int|
            0 <= i < j < layouts.len() ==> !(#[trigger] layouts[j]).density.before(
                (#[trigger] layouts[i]).density,
            )) ==> sparsest_first(layouts) == layouts,
{
    let keys = sparse_keys(layouts);
    order::lemma_order_exists(keys);
    order::lemma_order_permutes(keys, layouts);
    let o = order::positions_in_order(keys);
    let r = sparsest_first(layouts);
    assert forall|i: int, j: int|
        #![trigger r[i], r[j]]
        0 <= i < j < layouts.len() implies !r[j].density.before(r[i].density) by {
        let (p, q) = (o[i] as int, o[j] as int);
        assert(r[i] == layouts[p] && r[j] == layouts[q]);
        assert(order::key_less(order::full_key(keys, o[i]), order::full_key(keys, o[j])));
        crate::scalar::lemma_key_is_order(layouts[q].density, layouts[p].density);
    }
    if forall|i: int, j: int|
        0 <= i < j < layouts.len() ==> !(#[trigger] layouts[j]).density.before(
            (#[trigger] layouts[i]).density,
        ) {
        let same = Seq::new(layouts.len(), |i: int| i as usize);
        assert forall|p: usize| p < keys.len() implies #[trigger] same.contains(p) by {
            assert(same[p as int] == p);
        }
        assert forall|i: int, j: int| 0 <= i < j < same.len() implies order::key_less(
            order::full_key(keys, #[trigger] same[i]),
            order::full_key(keys, #[trigger] same[j]),
        ) by {
            crate::scalar::lemma_key_is_order(layouts[j].density, layouts[i].density);
            crate::scalar::lemma_key_is_order(layouts[i].density, layouts[j].density);
            assert(!layouts[j].density.before(layouts[i].density));
        }
        order::lemma_order_unique(keys, o, same);
        assert(r =~= layouts);
    }
}

/// **The largest items are scattered first**: the same items, none of them in front of a larger one.
pub proof fn lemma_largest_are_scattered_first(items: Seq<PlacedItem>)
    requires
        items.len() <= usize::MAX,
    ensures
        scatter_items(items).to_multiset() == items.to_multiset(),
        forall|i: int, j: int|
            #![trigger scatter_items(items)[i], scatter_items(items)[j]]
            0 <= i < j < items.len() ==> !scatter_items(items)[i].area.less(
                scatter_items(items)[j].area,
            ),
{
    let keys = large_keys(items);
    order::lemma_order_exists(keys);
    order::lemma_order_permutes(keys, items);
    let o = order::positions_in_order(keys);
    let r = scatter_items(items);
    assert forall|i: int, j: int|
        #![trigger r[i], r[j]]
        0 <= i < j < items.len() implies !r[i].area.less(r[j].area) by {
        let (p, q) = (o[i] as int, o[j] as int);
        assert(r[i] == items[p] && r[j] == items[q]);
        assert(order::key_less(order::full_key(keys, o[i]), order::full_key(keys, o[j])));
        crate::scalar::lemma_key_is_order(items[p].area, items[q].area);
    }
}

/// **Scattered items go to the remaining bins in turn**: the first to the sparsest of them, the next to the
/// next sparsest, and when every bin had one the turn starts over, so that no bin gets two more than
/// another.
pub proof fn lemma_scatter_goes_round(items: Seq<PlacedItem>, remaining: Seq<LayoutState>, i: int)
    requires
        items.len() <= usize::MAX,
        0 < remaining.len() <= usize::MAX,
        0 <= i < items.len(),
    ensures
        ({
            let p = scatter_placements(items, remaining);
            let n = remaining.len() as int;
            &&& p.len() == items.len()
            &&& p[i].item_id == scatter_items(items)[i].item_id
            &&& i < n ==> p[i].dst == sparsest_first(remaining)[i].key
            &&& i >= n ==> p[i].dst == p[i - n].dst
        }),
{
    let n = remaining.len();
    if i < n {
        vstd::arithmetic::div_mod::lemma_small_mod(i as nat, n);
    } else {
        vstd::arithmetic::div_mod::lemma_mod_add_multiples_vanish(i - n, n as int);
    }
}

/// **A closed bin is gone, and only that one**: the layouts that remain are all the others.
pub proof fn lemma_only_the_target_leaves(layouts: Seq<LayoutState>, target: LayKey, i: int)
    requires
        0 <= i < layouts.len(),
    ensures
        without(layouts, target).contains(layouts[i]) <==> layouts[i].key != target,
{
    let pred = |l: LayoutState| l.key != target;
    let l = layouts[i];
    if l.key != target {
        layouts.lemma_filter_contains(pred, i);
    }
    let rest = without(layouts, target);
    if rest.contains(l) {
        let k = choose|k: int| 0 <= k < rest.len() && rest[k] == l;
        layouts.lemma_filter_pred(pred, k);
    }
}

/// **The best worker is the one with the least loss**: none has less, and of several with as little it is the
/// first.
pub proof fn lemma_best_worker_has_the_least_loss(losses: Seq<Scalar>, best: int, i: int)
    requires
        is_first_minimum(losses, best),
        0 <= i < losses.len(),
    ensures
        0 <= best < losses.len(),
        !losses[i].less(losses[best]),
        losses[i].nan() || !losses[best].nan(),
        losses[i] == losses[best] ==> best <= i,
{
    assert(!losses[i].before(losses[best]));
    if i < best {
        assert(losses[best].before(losses[i]));
    }
}

/// **An item is scattered only where it fits**: whether the item that goes to a bin fits it is what the table
/// says of that item and the type of that bin.
pub proof fn lemma_scattered_items_are_checked(
    items: Seq<PlacedItem>,
    remaining: Seq<LayoutState>,
    fits: Seq<Vec<bool>>,
    i: int,
)
    requires
        0 <= i < items.len(),
        0 < remaining.len() <= usize::MAX,
        items.len() <= usize::MAX,
    ensures
        ({
            let p = scatter_placements(items, remaining)[i];
            exists|k: int|
                0 <= k < remaining.len() && (#[trigger] remaining[k]).key == p.dst && scatter_fits(
                    items,
                    remaining,
                    fits,
                    i,
                ) == fits[p.item_id as int]@[remaining[k].bin_id as int]
        }),
{
    let keys = sparse_keys(remaining);
    order::lemma_order_exists(keys);
    let o = order::positions_in_order(keys);
    let slot = i % remaining.len() as int;
    let k = o[slot] as int;
    assert(sparsest_first(remaining)[slot] == remaining[k]);
    assert(remaining[k].key == scatter_placements(items, remaining)[i].dst);
}

} // verus!
