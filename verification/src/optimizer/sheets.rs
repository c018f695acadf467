//! Decisions over walled sheets: which sheet an item lies on, which items have to leave when the
//! strip is cut back, and how the sheets are compacted.
use crate::optimizer::bpp::layouts;
use crate::optimizer::bpp::layouts::PItemKey;
use crate::optimizer::separator as separation;
use crate::optimizer::separator::SeparatorConfig;
use crate::order;
use crate::order::order_by;
use crate::scalar::{Scalar, ONE_BITS, ZERO_BITS};
use crate::text;
use crate::text::push_decimal;
use vstd::prelude::*;

verus! {

/// An item of a walled strip, with the sheets that its two edges fall on.
#[derive(Debug, Clone, Copy, PartialEq, Eq, Structural)]
pub struct SheetItem {
    /// Which item of the instance it is a copy of.
    pub item_id: usize,
    /// Sheet of the left edge.
    pub left: usize,
    /// Sheet of the right edge.
    pub right: usize,
}

/// What lies on one sheet.
#[derive(Debug, Clone)]
pub struct SheetStats {
    /// Index of the sheet, `0` is the leftmost one.
    pub index: usize,
    /// Positions of the items on this sheet.
    pub members: Vec<usize>,
    /// Ids of the items on this sheet whose left edge is on another one.
    pub straddling_item_ids: Vec<usize>,
}

/// A sheet index, clamped to the sheets that there are.
pub open spec fn clamped(k: usize, n: usize) -> int {
    if k < n {
        k as int
    } else {
        n - 1
    }
}

/// Whether the edges of an item are on different sheets.
pub open spec fn straddles(item: SheetItem, n: usize) -> bool {
    clamped(item.left, n) != clamped(item.right, n)
}

/// The positions of the items on sheet `k` among the first `m`: an item belongs to the sheet of its
/// right edge.
pub open spec fn members_of(items: Seq<SheetItem>, n: usize, k: int, m: nat) -> Seq<usize>
    decreases m,
{
    if m == 0 {
        seq![]
    } else {
        let before = members_of(items, n, k, (m - 1) as nat);
        if clamped(items[m - 1].right, n) == k {
            before.push((m - 1) as usize)
        } else {
            before
        }
    }
}

/// The ids of the straddling items on sheet `k` among the first `m`.
pub open spec fn straddling_on(items: Seq<SheetItem>, n: usize, k: int, m: nat) -> Seq<usize>
    decreases m,
{
    if m == 0 {
        seq![]
    } else {
        let before = straddling_on(items, n, k, (m - 1) as nat);
        if clamped(items[m - 1].right, n) == k && straddles(items[m - 1], n) {
            before.push(items[m - 1].item_id)
        } else {
            before
        }
    }
}

/// The table lists, for every sheet, its members and the straddling ones among them, as far as the
/// first `m` items go.
pub open spec fn is_sheet_table(
    items: Seq<SheetItem>,
    n: usize,
    stats: Seq<SheetStats>,
    m: nat,
) -> bool {
    &&& stats.len() == n
    &&& forall|k: int|
        0 <= k < n ==> {
            &&& (#[trigger] stats[k]).index == k
            &&& stats[k].members@ == members_of(items, n, k, m)
            &&& stats[k].straddling_item_ids@ == straddling_on(items, n, k, m)
        }
}

/// Distributes the items over the `n` sheets of a strip, one entry per sheet, empty ones included.
pub fn sheet_stats(n: usize, items: &Vec<SheetItem>) -> (r: Vec<SheetStats>)
    requires
        n >= 1,
    ensures
        is_sheet_table(items@, n, r@, items@.len()),
{
    let mut stats: Vec<SheetStats> = Vec::new();
    let mut i: usize = 0;
    while i < n
        invariant
            i <= n,
            stats@.len() == i,
            forall|k: int|
                0 <= k < i ==> {
                    &&& (#[trigger] stats@[k]).index == k
                    &&& stats@[k].members@ == Seq::<usize>::empty()
                    &&& stats@[k].straddling_item_ids@ == Seq::<usize>::empty()
                },
        decreases n - i,
    {
        stats.push(
            SheetStats { index: i, members: Vec::new(), straddling_item_ids: Vec::new() },
        );
        i = i + 1;
    }
    assert(is_sheet_table(items@, n, stats@, 0));
    let mut j: usize = 0;
    while j < items.len()
        invariant
            n >= 1,
            j <= items@.len(),
            is_sheet_table(items@, n, stats@, j as nat),
        decreases items@.len() - j,
    {
        let item = items[j];
        let left: usize = if item.left < n {
            item.left
        } else {
            n - 1
        };
        let right: usize = if item.right < n {
            item.right
        } else {
            n - 1
        };
        let ghost before = stats@;
        let mut members: Vec<usize> = Vec::new();
        let mut straddling: Vec<usize> = Vec::new();
        std::mem::swap(&mut members, &mut stats[right].members);
        std::mem::swap(&mut straddling, &mut stats[right].straddling_item_ids);
        members.push(j);
        if left != right {
            straddling.push(item.item_id);
        }
        stats[right].members = members;
        stats[right].straddling_item_ids = straddling;
        assert forall|k: int| 0 <= k < n implies {
            &&& (#[trigger] stats@[k]).index == k
            &&& stats@[k].members@ == members_of(items@, n, k, (j + 1) as nat)
            &&& stats@[k].straddling_item_ids@ == straddling_on(items@, n, k, (j + 1) as nat)
        } by {
            if k != right {
                assert(stats@[k] == before[k]);
            }
        }
        j = j + 1;
    }
    stats
}

/// **Every item is on exactly one sheet**: the one of its right edge.
pub proof fn lemma_one_sheet_per_item(items: Seq<SheetItem>, n: usize, k: int, m: nat, p: usize)
    requires
        p < m <= items.len() <= usize::MAX,
    ensures
        members_of(items, n, k, m).contains(p) == (clamped(items[p as int].right, n) == k),
    decreases m,
{
    let before = members_of(items, n, k, (m - 1) as nat);
    let all = members_of(items, n, k, m);
    lemma_members_bounded(items, n, k, (m - 1) as nat);
    if p < m - 1 {
        lemma_one_sheet_per_item(items, n, k, (m - 1) as nat, p);
        if before.contains(p) {
            let i = choose|i: int| 0 <= i < before.len() && before[i] == p;
            assert(all[i] == p);
        }
        if all.contains(p) {
            let i = choose|i: int| 0 <= i < all.len() && all[i] == p;
            assert(before[i] == p);
        }
    } else {
        if clamped(items[p as int].right, n) == k {
            assert(all[before.len() as int] == p);
        }
    }
}

proof fn lemma_members_bounded(items: Seq<SheetItem>, n: usize, k: int, m: nat)
    requires
        m <= items.len() <= usize::MAX,
    ensures
        forall|i: int|
            0 <= i < members_of(items, n, k, m).len() ==> (#[trigger] members_of(items, n, k, m)[i])
                < m,
    decreases m,
{
    if m > 0 {
        let before = members_of(items, n, k, (m - 1) as nat);
        let all = members_of(items, n, k, m);
        lemma_members_bounded(items, n, k, (m - 1) as nat);
        assert forall|i: int| 0 <= i < all.len() implies (#[trigger] all[i]) < m by {
            if i < before.len() {
                assert(all[i] == before[i]);
            }
        }
    }
}

/// **A strip can be cut if nothing straddles**: a sheet lists no straddling item exactly if both
/// edges of each of its items are on it.
pub proof fn lemma_cuttable(items: Seq<SheetItem>, n: usize, k: int, m: nat)
    requires
        m <= items.len(),
    ensures
        (straddling_on(items, n, k, m).len() == 0) == forall|i: int|
            0 <= i < m && clamped((#[trigger] items[i]).right, n) == k ==> clamped(
                items[i].left,
                n,
            ) == k,
    decreases m,
{
    if m > 0 {
        lemma_cuttable(items, n, k, (m - 1) as nat);
        if clamped(items[m - 1].right, n) == k && straddles(items[m - 1], n) {
            assert(clamped(items[m - 1].left, n) != k);
        }
    }
}

/// The ids of all straddling items, sheet by sheet.
pub open spec fn all_straddling(stats: Seq<SheetStats>) -> Seq<usize>
    decreases stats.len(),
{
    if stats.len() == 0 {
        seq![]
    } else {
        all_straddling(stats.drop_last()) + stats.last().straddling_item_ids@
    }
}

/// The ids of all straddling items, sheet by sheet. Empty for any layout that can be cut.
pub fn straddling_items(stats: &Vec<SheetStats>) -> (r: Vec<usize>)
    ensures
        r@ == all_straddling(stats@),
{
    let mut r: Vec<usize> = Vec::new();
    let mut i: usize = 0;
    assert(stats@.take(0) =~= Seq::empty());
    while i < stats.len()
        invariant
            i <= stats@.len(),
            r@ == all_straddling(stats@.take(i as int)),
        decreases stats@.len() - i,
    {
        let ids: &Vec<usize> = &stats[i].straddling_item_ids;
        let ghost before = r@;
        let mut j: usize = 0;
        while j < ids.len()
            invariant
                j <= ids@.len(),
                r@ == before + ids@.take(j as int),
            decreases ids@.len() - j,
        {
            r.push(ids[j]);
            assert(ids@.take(j + 1) =~= ids@.take(j as int).push(ids@[j as int]));
            j = j + 1;
        }
        assert(ids@.take(j as int) =~= ids@);
        assert(stats@.take(i + 1).drop_last() =~= stats@.take(i as int));
        i = i + 1;
    }
    assert(stats@.take(i as int) =~= stats@);
    r
}

/// The text of one straddling item: its id and its sheet.
pub open spec fn straddling_entry(id: usize, index: usize) -> Seq<char> {
    text::decimal(id as nat) + "@sheet"@ + text::decimal(index as nat)
}

/// The texts of the first `m` straddling items of a sheet, behind what stands before them.
pub open spec fn straddling_text_of(
    before: Seq<char>,
    ids: Seq<usize>,
    index: usize,
    m: nat,
) -> Seq<char>
    decreases m,
{
    if m == 0 {
        before
    } else {
        let head = straddling_text_of(before, ids, index, (m - 1) as nat);
        (if head.len() == 0 {
            head
        } else {
            head + ", "@
        }) + straddling_entry(ids[m - 1], index)
    }
}

/// The texts of the straddling items of the first `k` sheets, separated by commas.
pub open spec fn straddling_text(stats: Seq<SheetStats>, k: nat) -> Seq<char>
    decreases k,
{
    if k == 0 {
        seq![]
    } else {
        straddling_text_of(
            straddling_text(stats, (k - 1) as nat),
            stats[k - 1].straddling_item_ids@,
            stats[k - 1].index,
            stats[k - 1].straddling_item_ids@.len(),
        )
    }
}

/// Lists the straddling items for the report, each as `<id>@sheet<index>`.
pub fn straddling_report(stats: &Vec<SheetStats>) -> (s: String)
    ensures
        s@ == straddling_text(stats@, stats@.len()),
{
    let mut s = String::new();
    let mut i: usize = 0;
    while i < stats.len()
        invariant
            i <= stats@.len(),
            s@ == straddling_text(stats@, i as nat),
        decreases stats@.len() - i,
    {
        let ids: &Vec<usize> = &stats[i].straddling_item_ids;
        let index: usize = stats[i].index;
        let ghost before = s@;
        let mut j: usize = 0;
        while j < ids.len()
            invariant
                j <= ids@.len(),
                s@ == straddling_text_of(before, ids@, index, j as nat),
            decreases ids@.len() - j,
        {
            if s.as_str().unicode_len() > 0 {
                s.append(", ");
            }
            push_decimal(&mut s, ids[j] as u64);
            s.append("@sheet");
            push_decimal(&mut s, index as u64);
            j = j + 1;
            assert(s@ =~= straddling_text_of(before, ids@, index, j as nat));
        }
        i = i + 1;
    }
    s
}

/// How far into a sheet its items reach: the largest of the distances, and at least `0`.
pub open spec fn reach(distances: Seq<Scalar>, m: nat) -> Scalar
    decreases m,
{
    if m == 0 {
        Scalar { bits: ZERO_BITS }
    } else {
        reach(distances, (m - 1) as nat).larger(distances[m - 1])
    }
}

/// How far into a sheet its items reach, from the distances of their right edges to the sheet's left
/// edge; `0` for an empty sheet.
pub fn used_width(distances: &Vec<Scalar>) -> (r: Scalar)
    ensures
        r == reach(distances@, distances@.len()),
{
    let mut r = Scalar { bits: ZERO_BITS };
    let mut i: usize = 0;
    while i < distances.len()
        invariant
            i <= distances@.len(),
            r == reach(distances@, i as nat),
        decreases distances@.len() - i,
    {
        r = r.max(distances[i]);
        i = i + 1;
    }
    r
}

/// **Nothing reaches further**: the used width is at least every distance.
pub proof fn lemma_used_width_bounds(distances: Seq<Scalar>, m: nat, i: int)
    requires
        m <= distances.len(),
        0 <= i < m,
        !distances[i].nan(),
    ensures
        !reach(distances, m).nan(),
        distances[i].value() <= reach(distances, m).value(),
    decreases m,
{
    if i < m - 1 {
        lemma_used_width_bounds(distances, (m - 1) as nat, i);
    } else {
        lemma_reach_is_a_number(distances, (m - 1) as nat);
    }
}

proof fn lemma_reach_is_a_number(distances: Seq<Scalar>, m: nat)
    requires
        m <= distances.len(),
    ensures
        !reach(distances, m).nan(),
    decreases m,
{
    if m > 0 {
        lemma_reach_is_a_number(distances, (m - 1) as nat);
    }
}

/// Extent of a rotated shape around its origin.
#[derive(Debug, Clone, Copy, PartialEq, Eq, Structural)]
pub struct Extent {
    /// Left end.
    pub x_min: Scalar,
    /// Lower end.
    pub y_min: Scalar,
    /// Right end.
    pub x_max: Scalar,
    /// Upper end.
    pub y_max: Scalar,
}

/// The extent that covers the origin and the first `m` extents.
pub open spec fn covering(extents: Seq<Extent>, m: nat) -> Extent
    decreases m,
{
    if m == 0 {
        let zero = Scalar { bits: ZERO_BITS };
        Extent { x_min: zero, y_min: zero, x_max: zero, y_max: zero }
    } else {
        let e = covering(extents, (m - 1) as nat);
        let b = extents[m - 1];
        Extent {
            x_min: e.x_min.smaller(b.x_min),
            y_min: e.y_min.smaller(b.y_min),
            x_max: e.x_max.larger(b.x_max),
            y_max: e.y_max.larger(b.y_max),
        }
    }
}

/// How far a shape reaches at most in each direction over all of its rotations. A window that is
/// smaller by this much keeps the whole shape inside, whichever rotation is drawn.
pub fn shrink_bbox_for_item(rotated: &Vec<Extent>) -> (r: Extent)
    ensures
        r == covering(rotated@, rotated@.len()),
{
    let zero = Scalar { bits: ZERO_BITS };
    let mut r = Extent { x_min: zero, y_min: zero, x_max: zero, y_max: zero };
    let mut i: usize = 0;
    while i < rotated.len()
        invariant
            i <= rotated@.len(),
            r == covering(rotated@, i as nat),
        decreases rotated@.len() - i,
    {
        let b = rotated[i];
        r = Extent {
            x_min: r.x_min.min(b.x_min),
            y_min: r.y_min.min(b.y_min),
            x_max: r.x_max.max(b.x_max),
            y_max: r.y_max.max(b.y_max),
        };
        i = i + 1;
    }
    r
}

/// **Every rotation is covered**: no rotation reaches further than the covering extent.
pub proof fn lemma_rotations_are_covered(extents: Seq<Extent>, m: nat, i: int)
    requires
        m <= extents.len(),
        0 <= i < m,
        forall|k: int|
            0 <= k < m ==> !(#[trigger] extents[k]).x_min.nan() && !extents[k].y_min.nan()
                && !extents[k].x_max.nan() && !extents[k].y_max.nan(),
    ensures
        covering(extents, m).x_min.less_or_equal(extents[i].x_min),
        covering(extents, m).y_min.less_or_equal(extents[i].y_min),
        extents[i].x_max.less_or_equal(covering(extents, m).x_max),
        extents[i].y_max.less_or_equal(covering(extents, m).y_max),
    decreases m,
{
    lemma_covering_is_a_number(extents, (m - 1) as nat);
    if i < m - 1 {
        lemma_rotations_are_covered(extents, (m - 1) as nat, i);
    }
    let b = extents[m - 1];
}

proof fn lemma_covering_is_a_number(extents: Seq<Extent>, m: nat)
    requires
        m <= extents.len(),
    ensures
        !covering(extents, m).x_min.nan() && !covering(extents, m).y_min.nan(),
        !covering(extents, m).x_max.nan() && !covering(extents, m).y_max.nan(),
    decreases m,
{
    if m > 0 {
        lemma_covering_is_a_number(extents, (m - 1) as nat);
    }
}

/// Strike limit of the separation that repairs a scatter.
pub const SCATTER_STRIKE_LIMIT: usize = 8;

/// Limit of iterations without improvement of the separation that repairs a scatter.
pub const SCATTER_ITER_NO_IMPRV_LIMIT: usize = 400;

/// An item of a strip that is about to be cut back.
#[derive(Debug, Clone, Copy, PartialEq, Eq, Structural)]
pub struct StripItem {
    /// Key under which it is placed.
    pub key: PItemKey,
    /// Which item of the instance it is a copy of.
    pub item_id: usize,
    /// Area of the item's original shape.
    pub area: Scalar,
    /// Right edge of its bounding box.
    pub x_max: Scalar,
}

/// One relocation of an item.
#[derive(Debug, Clone, Copy, PartialEq, Eq, Structural)]
pub struct Relocation {
    /// Key under which the item is placed.
    pub key: PItemKey,
    /// Which item of the instance it is a copy of.
    pub item_id: usize,
    /// The sheet it goes to.
    pub sheet: usize,
    /// That sheet is the last one, which ends where the strip ends.
    pub on_last: bool,
}

/// How a strip is cut back.
#[derive(Debug)]
pub struct CutBack {
    /// The items to relocate, in this order. Empty if nothing sticks out.
    pub relocations: Vec<Relocation>,
    /// The limits of the separation that follows.
    pub separator_config: SeparatorConfig,
}

/// The items that stick out of a strip of the given width, among the first `m`.
pub open spec fn doomed(items: Seq<StripItem>, new_width: Scalar, m: nat) -> Seq<StripItem>
    decreases m,
{
    if m == 0 {
        seq![]
    } else {
        let before = doomed(items, new_width, (m - 1) as nat);
        if new_width.less(items[m - 1].x_max) {
            before.push(items[m - 1])
        } else {
            before
        }
    }
}

/// The sort keys of strip items: largest area first, ties by key.
pub open spec fn strip_keys(items: Seq<StripItem>) -> Seq<(u64, u64)> {
    items.map_values(|p: StripItem| (layouts::descending(p.area), p.key.rank))
}

/// The strip items, largest area first.
pub open spec fn largest_strip_items(items: Seq<StripItem>) -> Seq<StripItem> {
    order::positions_in_order(strip_keys(items)).map_values(|p: usize| items[p as int])
}

/// Where the items that stick out go: largest first, in turn to each of the sheets that remain.
pub open spec fn relocations_of(items: Seq<StripItem>, new_width: Scalar, n_target: usize) -> Seq<
    Relocation,
> {
    let out = largest_strip_items(doomed(items, new_width, items.len()));
    Seq::new(
        out.len(),
        |i: int|
            Relocation {
                key: out[i].key,
                item_id: out[i].item_id,
                sheet: (i % n_target as int) as usize,
                on_last: i % n_target as int == n_target - 1,
            },
    )
}

/// Plans how a strip is cut back to `new_width`, which holds `n_target` sheets: whatever sticks out
/// is scattered over the sheets that remain, and the separation that follows is more patient than
/// usual. If nothing sticks out, the usual limits apply.
pub fn scatter_and_shrink(
    items: &Vec<StripItem>,
    new_width: Scalar,
    n_target: usize,
    config: SeparatorConfig,
) -> (r: CutBack)
    requires
        n_target >= 1,
    ensures
        r.relocations@ == relocations_of(items@, new_width, n_target),
        r.relocations@.len() == 0 ==> r.separator_config == config,
        r.relocations@.len() > 0 ==> r.separator_config == (SeparatorConfig {
            strike_limit: if config.strike_limit >= 8 {
                config.strike_limit
            } else {
                8
            },
            iter_no_imprv_limit: if config.iter_no_imprv_limit >= 400 {
                config.iter_no_imprv_limit
            } else {
                400
            },
            ..config
        }),
{
    let mut out: Vec<StripItem> = Vec::new();
    let mut keys: Vec<(u64, u64)> = Vec::new();
    let mut i: usize = 0;
    while i < items.len()
        invariant
            i <= items@.len(),
            out@ == doomed(items@, new_width, i as nat),
            keys@.len() == out@.len(),
            forall|k: int| 0 <= k < keys@.len() ==> #[trigger] keys@[k] == strip_keys(out@)[k],
        decreases items@.len() - i,
    {
        let item = items[i];
        if new_width.lt(item.x_max) {
            let k: u32 = u32::MAX - item.area.order_key();
            out.push(item);
            keys.push((k as u64, item.key.rank));
        }
        i = i + 1;
    }
    assert(keys@ =~= strip_keys(out@));
    let order = order_by(&keys);
    let mut relocations: Vec<Relocation> = Vec::new();
    let mut j: usize = 0;
    while j < order.len()
        invariant
            n_target >= 1,
            j <= order@.len(),
            out@ == doomed(items@, new_width, items@.len()),
            order@ == order::positions_in_order(strip_keys(out@)),
            order@.len() == out@.len(),
            forall|k: int| 0 <= k < order@.len() ==> (#[trigger] order@[k]) < out@.len(),
            relocations@.len() == j,
            forall|k: int|
                0 <= k < j ==> #[trigger] relocations@[k] == relocations_of(
                    items@,
                    new_width,
                    n_target,
                )[k],
        decreases order@.len() - j,
    {
        let item = out[order[j]];
        let sheet: usize = j % n_target;
        relocations.push(
            Relocation {
                key: item.key,
                item_id: item.item_id,
                sheet,
                on_last: sheet == n_target - 1,
            },
        );
        j = j + 1;
    }
    assert(relocations@ =~= relocations_of(items@, new_width, n_target));
    let separator_config = if relocations.len() == 0 {
        config
    } else {
        config.patient(SCATTER_STRIKE_LIMIT, SCATTER_ITER_NO_IMPRV_LIMIT)
    };
    CutBack { relocations, separator_config }
}

/// **Exactly what sticks out is relocated**, each item once, and only to a sheet that remains.
pub proof fn lemma_cut_back_is_exact(items: Seq<StripItem>, new_width: Scalar, n_target: usize)
    requires
        n_target >= 1,
        items.len() <= usize::MAX,
    ensures
        ({
            let moved = relocations_of(items, new_width, n_target);
            &&& moved.map_values(|r: Relocation| r.key).to_multiset() == doomed(
                items,
                new_width,
                items.len(),
            ).map_values(|p: StripItem| p.key).to_multiset()
            &&& forall|i: int| 0 <= i < moved.len() ==> (#[trigger] moved[i]).sheet < n_target
        }),
{
    lemma_doomed_len(items, new_width, items.len());
    let out = doomed(items, new_width, items.len());
    let moved = relocations_of(items, new_width, n_target);
    let sorted = largest_strip_items(out);
    order::lemma_order_exists(strip_keys(out));
    order::lemma_order_permutes(strip_keys(out), out);
    let f = |p: StripItem| p.key;
    assert(moved.map_values(|r: Relocation| r.key) =~= sorted.map_values(f));
    order::lemma_map_multiset(sorted, out, f);
}

proof fn lemma_doomed_len(items: Seq<StripItem>, new_width: Scalar, m: nat)
    requires
        m <= items.len(),
    ensures
        doomed(items, new_width, m).len() <= m,
    decreases m,
{
    if m > 0 {
        lemma_doomed_len(items, new_width, (m - 1) as nat);
    }
}

/// How often the first cut of a pack-down, half of the last sheet's used width, may be halved
/// before it is too small to be worth an attempt (below a twentieth of that width).
pub const PACK_DOWN_MAX_HALVINGS: u32 = 3;

/// Cuts in a row that may fail before a pack-down gives up.
pub const PACK_DOWN_MAX_FAILS: usize = 2;

/// Bits of the used width of the last sheet (mm) below which its band counts as gone, `1`.
pub const PACK_DOWN_MIN_BAND_BITS: u32 = ONE_BITS;

/// What a pack-down waits for.
#[derive(Debug, Clone, Copy, PartialEq, Eq, Structural)]
pub enum BandStage {
    /// A poll before the next cut.
    Poll,
    /// The result of a cut.
    Cutting,
    /// Nothing: the pack-down is over.
    Done,
}

/// Progress of a pack-down over sheets: the band of the last sheet is cut back in large steps.
#[derive(Debug, Clone, Copy, PartialEq, Eq, Structural)]
pub struct BandPackDown {
    /// What it waits for.
    pub stage: BandStage,
    /// Handle of the best solution.
    pub best: usize,
    /// Accepted cuts.
    pub n_accepted: usize,
    /// Failed cuts in a row.
    pub n_failed: usize,
    /// How often the step was halved.
    pub halvings: u32,
}

/// What the engine reports to a pack-down.
#[derive(Debug, Clone, Copy, PartialEq, Eq, Structural)]
pub enum BandEvent {
    /// The state before a cut.
    Poll {
        /// The pack-down has to stop.
        killed: bool,
        /// Used width of the last sheet.
        used: Scalar,
    },
    /// A cut was tried.
    Cut {
        /// The loss that was left.
        loss: Scalar,
        /// Handle of the resulting solution.
        solution: usize,
    },
}

/// What the engine has to do next in a pack-down.
#[derive(Debug, Clone, Copy, PartialEq, Eq, Structural)]
pub enum BandAction {
    /// Cut away the used width of the last sheet, divided by two, `1 + halvings` times.
    Cut {
        /// How often the step was halved.
        halvings: u32,
    },
    /// Adopt and report the new best solution, then poll.
    Adopt,
    /// Return to the best solution, then poll.
    Restore,
    /// Return to the best solution: it is over.
    Finish,
}

/// Whether the stage waits for this kind of event.
pub open spec fn band_expects(s: BandPackDown, event: BandEvent) -> bool {
    match s.stage {
        BandStage::Poll => event is Poll,
        BandStage::Cutting => event is Cut,
        BandStage::Done => false,
    }
}

/// What a pack-down does on an event.
pub open spec fn band_next(s: BandPackDown, event: BandEvent) -> (BandPackDown, BandAction) {
    match event {
        BandEvent::Poll { killed, used } => if killed || s.halvings > PACK_DOWN_MAX_HALVINGS
            || s.n_failed >= PACK_DOWN_MAX_FAILS || used.less_or_equal(
            Scalar { bits: PACK_DOWN_MIN_BAND_BITS },
        ) {
            (BandPackDown { stage: BandStage::Done, ..s }, BandAction::Finish)
        } else {
            (
                BandPackDown { stage: BandStage::Cutting, ..s },
                BandAction::Cut { halvings: s.halvings },
            )
        },
        BandEvent::Cut { loss, solution } => if separation::settled(loss) {
            (
                BandPackDown {
                    stage: BandStage::Poll,
                    best: solution,
                    n_accepted: if s.n_accepted < usize::MAX {
                        (s.n_accepted + 1) as usize
                    } else {
                        s.n_accepted
                    },
                    n_failed: 0,
                    ..s
                },
                BandAction::Adopt,
            )
        } else {
            (
                BandPackDown {
                    stage: BandStage::Poll,
                    n_failed: (s.n_failed + 1) as usize,
                    halvings: (s.halvings + 1) as u32,
                    ..s
                },
                BandAction::Restore,
            )
        },
    }
}

/// The counters are within their limits.
pub open spec fn band_wf(s: BandPackDown) -> bool {
    &&& s.n_failed <= PACK_DOWN_MAX_FAILS
    &&& s.halvings <= PACK_DOWN_MAX_HALVINGS + 1
    &&& s.stage is Cutting ==> s.n_failed < PACK_DOWN_MAX_FAILS && s.halvings
        <= PACK_DOWN_MAX_HALVINGS
}

/// The start of a pack-down of the given solution over `n_sheets` sheets.
pub open spec fn band_start(init: usize, n_sheets: usize) -> BandPackDown {
    BandPackDown {
        stage: if n_sheets < 2 {
            BandStage::Done
        } else {
            BandStage::Poll
        },
        best: init,
        n_accepted: 0,
        n_failed: 0,
        halvings: 0,
    }
}

impl BandPackDown {
    /// A pack-down of the given solution. With a single sheet there is nothing to do.
    pub fn new(init: usize, n_sheets: usize) -> (r: BandPackDown)
        ensures
            r == band_start(init, n_sheets),
            band_wf(r),
    {
        BandPackDown {
            stage: if n_sheets < 2 {
                BandStage::Done
            } else {
                BandStage::Poll
            },
            best: init,
            n_accepted: 0,
            n_failed: 0,
            halvings: 0,
        }
    }
}

/// Advances a pack-down over sheets by one event.
///
/// A cut removes half of the last sheet's used width at once, so that what no longer fits has to
/// move to an earlier sheet. A success is kept and the next cut starts from it; a failure halves the
/// step.
pub fn pack_down_sheets(run: &mut BandPackDown, event: BandEvent) -> (action: BandAction)
    requires
        band_wf(*old(run)),
        band_expects(*old(run), event),
    ensures
        (*final(run), action) == band_next(*old(run), event),
        band_wf(*final(run)),
{
    match event {
        BandEvent::Poll { killed, used } => {
            if killed || run.halvings > PACK_DOWN_MAX_HALVINGS || run.n_failed
                >= PACK_DOWN_MAX_FAILS || used.le(Scalar { bits: PACK_DOWN_MIN_BAND_BITS }) {
                run.stage = BandStage::Done;
                BandAction::Finish
            } else {
                run.stage = BandStage::Cutting;
                BandAction::Cut { halvings: run.halvings }
            }
        },
        BandEvent::Cut { loss, solution } => {
            run.stage = BandStage::Poll;
            if loss.is_zero() {
                run.best = solution;
                if run.n_accepted < usize::MAX {
                    run.n_accepted = run.n_accepted + 1;
                }
                run.n_failed = 0;
                BandAction::Adopt
            } else {
                run.n_failed = run.n_failed + 1;
                run.halvings = run.halvings + 1;
                BandAction::Restore
            }
        },
    }
}

/// The pack-down after a sequence of events.
pub open spec fn band_after(s: BandPackDown, events: Seq<BandEvent>) -> BandPackDown
    decreases events.len(),
{
    if events.len() == 0 {
        s
    } else {
        band_next(band_after(s, events.drop_last()), events.last()).0
    }
}

/// Whether the event reports a cut that left no overlap.
pub open spec fn reports_cut(event: BandEvent, solution: usize) -> bool {
    event matches BandEvent::Cut { loss, solution: s } && separation::settled(loss) && s == solution
}

/// **The result is the solution that was put in, or a feasible one with a shorter band.** As long as
/// no cut was accepted, it is the solution that was put in.
pub proof fn lemma_band_result(init: usize, n_sheets: usize, events: Seq<BandEvent>)
    ensures
        ({
            let end = band_after(band_start(init, n_sheets), events);
            &&& end.n_accepted == 0 ==> end.best == init
            &&& end.best == init || exists|k: int|
                0 <= k < events.len() && reports_cut(#[trigger] events[k], end.best)
        }),
    decreases events.len(),
{
    if events.len() > 0 {
        let start = band_start(init, n_sheets);
        lemma_band_result(init, n_sheets, events.drop_last());
        let before = band_after(start, events.drop_last());
        let end = band_after(start, events);
        if end.best != before.best {
            assert(reports_cut(events[events.len() - 1], end.best));
        } else if before.best != init {
            let k = choose|k: int|
                0 <= k < events.drop_last().len() && reports_cut(
                    #[trigger] events.drop_last()[k],
                    before.best,
                );
            assert(events[k] == events.drop_last()[k]);
        }
    }
}

/// An item that may slide to the left within its sheet.
#[derive(Debug, Clone, Copy, PartialEq, Eq, Structural)]
pub struct SlideItem {
    /// Key under which it is placed.
    pub key: PItemKey,
    /// Sheet of its left edge.
    pub sheet: usize,
    /// Left edge of its bounding box.
    pub x_min: Scalar,
}

/// The items on any sheet but the last, among the first `m`.
pub open spec fn sliding(items: Seq<SlideItem>, n: usize, m: nat) -> Seq<SlideItem>
    decreases m,
{
    if m == 0 {
        seq![]
    } else {
        let before = sliding(items, n, (m - 1) as nat);
        if clamped(items[m - 1].sheet, n) < n - 1 {
            before.push(items[m - 1])
        } else {
            before
        }
    }
}

/// The sort keys of sliding items: from left to right, ties by key.
pub open spec fn slide_keys(items: Seq<SlideItem>) -> Seq<(u64, u64)> {
    items.map_values(|p: SlideItem| (layouts::ascending(p.x_min), p.key.rank))
}

/// The keys of the items to slide, from left to right.
pub open spec fn slide_order(items: Seq<SlideItem>, n: usize) -> Seq<PItemKey> {
    let candidates = sliding(items, n, items.len());
    order::positions_in_order(slide_keys(candidates)).map_values(
        |p: usize| candidates[p as int].key,
    )
}

/// Which items a compaction slides to the left, and in which order: those on any of the `n` sheets
/// but the last, from left to right, so that an item can use the space that an earlier one left.
/// Nothing slides on a single sheet.
pub fn compact_sheets_left(items: &Vec<SlideItem>, n: usize) -> (r: Vec<PItemKey>)
    requires
        n >= 1,
    ensures
        r@ == slide_order(items@, n),
        n == 1 ==> r@.len() == 0,
{
    let mut candidates: Vec<SlideItem> = Vec::new();
    let mut keys: Vec<(u64, u64)> = Vec::new();
    let mut i: usize = 0;
    while i < items.len()
        invariant
            n >= 1,
            i <= items@.len(),
            candidates@ == sliding(items@, n, i as nat),
            n == 1 ==> candidates@.len() == 0,
            keys@.len() == candidates@.len(),
            forall|k: int|
                0 <= k < keys@.len() ==> #[trigger] keys@[k] == slide_keys(candidates@)[k],
        decreases items@.len() - i,
    {
        let item = items[i];
        let sheet: usize = if item.sheet < n {
            item.sheet
        } else {
            n - 1
        };
        if sheet < n - 1 {
            candidates.push(item);
            keys.push((item.x_min.order_key() as u64, item.key.rank));
        }
        i = i + 1;
    }
    assert(keys@ =~= slide_keys(candidates@));
    let order = order_by(&keys);
    let mut r: Vec<PItemKey> = Vec::new();
    let mut j: usize = 0;
    while j < order.len()
        invariant
            j <= order@.len(),
            forall|k: int| 0 <= k < order@.len() ==> (#[trigger] order@[k]) < candidates@.len(),
            r@.len() == j,
            forall|k: int| 0 <= k < j ==> #[trigger] r@[k] == candidates@[order@[k] as int].key,
        decreases order@.len() - j,
    {
        r.push(candidates[order[j]].key);
        j = j + 1;
    }
    assert(r@ =~= slide_order(items@, n));
    r
}

/// What the search for the largest shift of an item waits for.
#[derive(Debug, Clone, Copy, PartialEq, Eq, Structural)]
pub enum SlideStage {
    /// The middle of the range that is left.
    Range,
    /// Whether the item may be shifted by `probe`.
    Probing,
    /// Whether the best shift could be applied once more.
    Reapplying,
    /// Nothing: the search is over.
    Done,
}

/// Search for the largest shift of one item to the left that collides with nothing.
#[derive(Debug, Clone, Copy, PartialEq, Eq, Structural)]
pub struct Slide {
    /// What it waits for.
    pub stage: SlideStage,
    /// Largest shift known to be free, if there is one.
    pub best: Option<Scalar>,
    /// Largest shift that is not known to collide.
    pub limit: Scalar,
    /// The shift that is being tried.
    pub probe: Scalar,
    /// Where the item sits: at this shift, or where it was.
    pub at: Option<Scalar>,
}

/// What the engine reports to a search.
#[derive(Debug, Clone, Copy, PartialEq, Eq, Structural)]
pub enum SlideEvent {
    /// The range between the best shift and the limit.
    Range {
        /// It is wide enough to be searched further.
        open: bool,
        /// Its middle.
        middle: Scalar,
    },
    /// The item was shifted; it was put back if it collided.
    Tried {
        /// It collides with nothing.
        free: bool,
    },
}

/// What the engine has to do next in a search.
#[derive(Debug, Clone, Copy, PartialEq, Eq, Structural)]
pub enum SlideAction {
    /// Compute the range.
    Measure,
    /// Shift the item by this much from where it was at first, and put it back there if it
    /// collides.
    Try {
        /// The shift.
        shift: Scalar,
    },
    /// Nothing more.
    Finish,
}

/// Whether the stage waits for this kind of event.
pub open spec fn slide_expects(s: Slide, event: SlideEvent) -> bool {
    match s.stage {
        SlideStage::Range => event is Range,
        SlideStage::Probing | SlideStage::Reapplying => event is Tried,
        SlideStage::Done => false,
    }
}

/// What a search does on an event.
pub open spec fn slide_next(s: Slide, event: SlideEvent) -> (Slide, SlideAction) {
    match event {
        SlideEvent::Range { open, middle } => if open {
            (
                Slide { stage: SlideStage::Probing, probe: middle, ..s },
                SlideAction::Try { shift: middle },
            )
        } else {
            match s.best {
                Some(b) if s.at != s.best => (
                    Slide { stage: SlideStage::Reapplying, ..s },
                    SlideAction::Try { shift: b },
                ),
                _ => (Slide { stage: SlideStage::Done, ..s }, SlideAction::Finish),
            }
        },
        SlideEvent::Tried { free } => if s.stage is Probing {
            (
                if free {
                    Slide {
                        stage: SlideStage::Range,
                        best: Some(s.probe),
                        at: Some(s.probe),
                        ..s
                    }
                } else {
                    Slide { stage: SlideStage::Range, limit: s.probe, at: None, ..s }
                },
                SlideAction::Measure,
            )
        } else {
            (
                if free {
                    Slide { stage: SlideStage::Done, at: s.best, ..s }
                } else {
                    Slide { stage: SlideStage::Done, at: None, best: None, ..s }
                },
                SlideAction::Finish,
            )
        },
    }
}

/// The item sits at its best shift or where it was, and it ends where the books say.
pub open spec fn slide_wf(s: Slide) -> bool {
    &&& s.at is None || s.at == s.best
    &&& s.stage is Reapplying ==> s.best is Some
    &&& s.stage is Done ==> s.at == s.best
}

/// The start of a search for a shift of at most `max_shift`.
pub open spec fn slide_start(max_shift: Scalar) -> Slide {
    Slide {
        stage: SlideStage::Range,
        best: None,
        limit: max_shift,
        probe: max_shift,
        at: None,
    }
}

impl Slide {
    /// A search for a shift of at most `max_shift`.
    pub fn new(max_shift: Scalar) -> (r: Slide)
        ensures
            r == slide_start(max_shift),
            slide_wf(r),
    {
        Slide {
            stage: SlideStage::Range,
            best: None,
            limit: max_shift,
            probe: max_shift,
            at: None,
        }
    }

    /// Whether the item ends up at another place than it was.
    pub fn moved(&self) -> (r: bool)
        requires
            slide_wf(*self),
            self.stage is Done,
        ensures
            r == (self.at is Some),
            r == (self.best is Some),
    {
        self.best.is_some()
    }
}

/// Advances the search for the largest shift of an item by one event.
///
/// The range is halved until it is too small to matter. A shift that collides puts the item back
/// where it was, so the best one is applied once more at the end if the last one tried collided.
pub fn try_shift(run: &mut Slide, event: SlideEvent) -> (action: SlideAction)
    requires
        slide_wf(*old(run)),
        slide_expects(*old(run), event),
    ensures
        (*final(run), action) == slide_next(*old(run), event),
        slide_wf(*final(run)),
{
    match event {
        SlideEvent::Range { open, middle } => {
            if open {
                run.stage = SlideStage::Probing;
                run.probe = middle;
                return SlideAction::Try { shift: middle };
            }
            match run.best {
                Some(b) => {
                    if run.at.is_none() {
                        run.stage = SlideStage::Reapplying;
                        SlideAction::Try { shift: b }
                    } else {
                        run.stage = SlideStage::Done;
                        SlideAction::Finish
                    }
                },
                None => {
                    run.stage = SlideStage::Done;
                    SlideAction::Finish
                },
            }
        },
        SlideEvent::Tried { free } => {
            if run.stage == SlideStage::Probing {
                run.stage = SlideStage::Range;
                if free {
                    run.best = Some(run.probe);
                    run.at = Some(run.probe);
                } else {
                    run.limit = run.probe;
                    run.at = None;
                }
                SlideAction::Measure
            } else {
                run.stage = SlideStage::Done;
                if free {
                    run.at = run.best;
                } else {
                    run.at = None;
                    run.best = None;
                }
                SlideAction::Finish
            }
        },
    }
}

/// **An item that counts as moved has moved**: a search ends with the item at the best free shift
/// that was found, or where it was if there is none.
pub proof fn lemma_slide_ends_at_its_best(s: Slide, event: SlideEvent)
    requires
        slide_wf(s),
        slide_expects(s, event),
        slide_next(s, event).1 is Finish,
    ensures
        slide_next(s, event).0.at == slide_next(s, event).0.best,
        slide_next(s, event).0.best is None || slide_next(s, event).0.best == s.best,
{
}

/// The search after a sequence of events.
pub open spec fn slide_after(s: Slide, events: Seq<SlideEvent>) -> Slide
    decreases events.len(),
{
    if events.len() == 0 {
        s
    } else {
        slide_next(slide_after(s, events.drop_last()), events.last()).0
    }
}

/// A shift to the left by no more than `max_shift`.
pub open spec fn is_shift(shift: Scalar, max_shift: Scalar) -> bool {
    !shift.nan() && 0 <= shift.value() <= max_shift.value()
}

/// The largest shift that is known to be free; none counts as zero.
pub open spec fn free_shift(s: Slide) -> int {
    match s.best {
        Some(b) => b.value(),
        None => 0,
    }
}

/// Every event is one that the search waits for at that point, and the middle of a range lies between
/// its ends.
pub open spec fn slide_admits(s: Slide, events: Seq<SlideEvent>) -> bool
    decreases events.len(),
{
    events.len() > 0 ==> {
        let before = slide_after(s, events.drop_last());
        &&& slide_admits(s, events.drop_last())
        &&& slide_expects(before, events.last())
        &&& events.last() matches SlideEvent::Range { open, middle } ==> (open ==> !middle.nan()
            && free_shift(before) <= middle.value() <= before.limit.value())
    }
}

/// Every shift of the search is one to the left by no more than `max_shift`.
pub open spec fn slides_within(s: Slide, max_shift: Scalar) -> bool {
    &&& is_shift(s.limit, max_shift)
    &&& is_shift(s.probe, max_shift)
    &&& s.best matches Some(b) ==> is_shift(b, max_shift)
    &&& s.at matches Some(a) ==> is_shift(a, max_shift)
}

proof fn lemma_step_slides_within(s: Slide, event: SlideEvent, max_shift: Scalar)
    requires
        slides_within(s, max_shift),
        slide_expects(s, event),
        event matches SlideEvent::Range { open, middle } ==> (open ==> !middle.nan() && free_shift(s)
            <= middle.value() <= s.limit.value()),
    ensures
        slides_within(slide_next(s, event).0, max_shift),
        slide_next(s, event).1 matches SlideAction::Try { shift } ==> is_shift(shift, max_shift),
{
}

/// **No item moves to the right, and none leaves its sheet**: from the start of a search on, every shift
/// that is tried, the best one and the one at which the item sits are shifts to the left by no more than
/// `max_shift`, which is how far the item stands from the left edge of its sheet.
pub proof fn lemma_items_only_slide_left(max_shift: Scalar, events: Seq<SlideEvent>, event: SlideEvent)
    requires
        is_shift(max_shift, max_shift),
        slide_admits(slide_start(max_shift), events.push(event)),
    ensures
        ({
            let s = slide_after(slide_start(max_shift), events);
            let (t, action) = slide_next(s, event);
            &&& slides_within(s, max_shift)
            &&& slides_within(t, max_shift)
            &&& action matches SlideAction::Try { shift } ==> is_shift(shift, max_shift)
        }),
    decreases events.len(),
{
    let start = slide_start(max_shift);
    let all = events.push(event);
    assert(all.drop_last() =~= events);
    assert(all.last() == event);
    if events.len() > 0 {
        assert(events.drop_last().push(events.last()) =~= events);
        lemma_items_only_slide_left(max_shift, events.drop_last(), events.last());
    }
    lemma_step_slides_within(slide_after(start, events), event, max_shift);
}

/// A wall between two sheets, from its left to its right edge.
#[derive(Debug, Clone, Copy, PartialEq, Eq, Structural)]
pub struct Wall {
    /// Left edge.
    pub x_min: Scalar,
    /// Right edge.
    pub x_max: Scalar,
}

/// Whether a wall stands inside a strip of this width.
pub open spec fn stands_inside(wall: Wall, width: Scalar) -> bool {
    wall.x_min.less(width)
}

/// Whether a wall has any thickness, so that it can be put up.
pub fn has_thickness(wall: Wall) -> (r: bool)
    ensures
        r == wall.x_min.less(wall.x_max),
{
    wall.x_min.lt(wall.x_max)
}

/// The walls of a strip: of those at all sheet boundaries, the ones inside the strip. A strip shorter
/// than one sheet has none.
pub fn wall_intervals(boundaries: &Vec<Wall>, width: Scalar) -> (r: Vec<Wall>)
    ensures
        r@ == boundaries@.filter(|w: Wall| stands_inside(w, width)),
{
    let ghost inside = |w: Wall| stands_inside(w, width);
    let mut r: Vec<Wall> = Vec::new();
    let mut i: usize = 0;
    proof {
        reveal(Seq::filter);
    }
    while i < boundaries.len()
        invariant
            i <= boundaries@.len(),
            inside == (|w: Wall| stands_inside(w, width)),
            r@ == boundaries@.take(i as int).filter(inside),
        decreases boundaries@.len() - i,
    {
        proof {
            reveal(Seq::filter);
            assert(boundaries@.take(i + 1).drop_last() =~= boundaries@.take(i as int));
        }
        let w = boundaries[i];
        if w.x_min.lt(width) {
            r.push(w);
        }
        i = i + 1;
    }
    assert(boundaries@.take(i as int) =~= boundaries@);
    r
}

/// **The members of a sheet are the items whose right edge is on it**, each once and in order; an edge
/// beyond the last sheet counts as being on the last.
pub proof fn lemma_members_are_in_order(items: Seq<SheetItem>, n: usize, k: int, m: nat)
    requires
        m <= items.len() <= usize::MAX,
        0 <= k < n,
    ensures
        forall|i: int, j: int|
            0 <= i < j < members_of(items, n, k, m).len() ==> (#[trigger] members_of(
                items,
                n,
                k,
                m,
            )[i]) < (#[trigger] members_of(items, n, k, m)[j]),
        forall|p: usize|
            #![trigger members_of(items, n, k, m).contains(p)]
            p < m ==> (members_of(items, n, k, m).contains(p) <==> items[p as int].right == k || (
            items[p as int].right >= n && k == n - 1)),
    decreases m,
{
    if m > 0 {
        let before = members_of(items, n, k, (m - 1) as nat);
        let all = members_of(items, n, k, m);
        lemma_members_are_in_order(items, n, k, (m - 1) as nat);
        lemma_members_bounded(items, n, k, (m - 1) as nat);
        assert forall|i: int, j: int| 0 <= i < j < all.len() implies (#[trigger] all[i]) < (
        #[trigger] all[j]) by {
            assert(all[i] == before[i]);
            if j < before.len() {
                assert(all[j] == before[j]);
            }
        }
    }
    assert forall|p: usize|
        #![trigger members_of(items, n, k, m).contains(p)]
        p < m implies (members_of(items, n, k, m).contains(p) <==> items[p as int].right == k || (
    items[p as int].right >= n && k == n - 1)) by {
        lemma_one_sheet_per_item(items, n, k, m, p);
    }
}

/// **The straddling items of a sheet are those of its members whose left edge is on another sheet**, in
/// the order of the members.
pub proof fn lemma_straddling_members(items: Seq<SheetItem>, n: usize, k: int, m: nat)
    requires
        m <= items.len() <= usize::MAX,
        0 <= k < n,
    ensures
        straddling_on(items, n, k, m) == members_of(items, n, k, m).filter(
            |p: usize|
                !(items[p as int].left == k || (items[p as int].left >= n && k == n - 1)),
        ).map_values(|p: usize| items[p as int].item_id),
    decreases m,
{
    reveal(Seq::filter);
    let off = |p: usize| !(items[p as int].left == k || (items[p as int].left >= n && k == n - 1));
    let f = |p: usize| items[p as int].item_id;
    if m > 0 {
        lemma_straddling_members(items, n, k, (m - 1) as nat);
        let before = members_of(items, n, k, (m - 1) as nat);
        let all = members_of(items, n, k, m);
        if clamped(items[m - 1].right, n) == k {
            assert(all.drop_last() =~= before);
            assert(all.last() == (m - 1) as usize);
            if off((m - 1) as usize) {
                assert(before.filter(off).push((m - 1) as usize).map_values(f) =~= before.filter(
                    off,
                ).map_values(f).push(items[m - 1].item_id));
            }
        }
    } else {
        assert(members_of(items, n, k, m).filter(off).map_values(f) =~= seq![]);
    }
}

/// **All straddling items are listed, and no other**: from a table of the sheets, an id is listed if and
/// only if some item of that id has its edges on different sheets.
pub proof fn lemma_all_straddling_are_listed(
    items: Seq<SheetItem>,
    n: usize,
    stats: Seq<SheetStats>,
    id: usize,
)
    requires
        n >= 1,
        items.len() <= usize::MAX,
        is_sheet_table(items, n, stats, items.len()),
    ensures
        all_straddling(stats).contains(id) <==> exists|i: int|
            0 <= i < items.len() && (#[trigger] items[i]).item_id == id && clamped(items[i].left, n)
                != clamped(items[i].right, n),
{
    let all = all_straddling(stats);
    if all.contains(id) {
        lemma_listed_on_a_sheet(stats, id);
        let k = choose|k: int|
            0 <= k < stats.len() && (#[trigger] stats[k]).straddling_item_ids@.contains(id);
        lemma_straddler_is_an_item(items, n, k, items.len(), id);
    }
    if exists|i: int|
        0 <= i < items.len() && (#[trigger] items[i]).item_id == id && clamped(items[i].left, n)
            != clamped(items[i].right, n) {
        let i = choose|i: int|
            0 <= i < items.len() && (#[trigger] items[i]).item_id == id && clamped(items[i].left, n)
                != clamped(items[i].right, n);
        let k = clamped(items[i].right, n);
        lemma_straddler_is_on_its_sheet(items, n, k, items.len(), i);
        assert(stats[k].straddling_item_ids@.contains(id));
        lemma_listed_on_a_sheet(stats, id);
    }
}

proof fn lemma_listed_on_a_sheet(stats: Seq<SheetStats>, id: usize)
    ensures
        all_straddling(stats).contains(id) <==> exists|k: int|
            0 <= k < stats.len() && (#[trigger] stats[k]).straddling_item_ids@.contains(id),
    decreases stats.len(),
{
    if stats.len() > 0 {
        let first = stats.drop_last();
        let before = all_straddling(first);
        let ids = stats.last().straddling_item_ids@;
        let all = all_straddling(stats);
        lemma_listed_on_a_sheet(first, id);
        if all.contains(id) {
            let i = choose|i: int| 0 <= i < all.len() && all[i] == id;
            if i < before.len() {
                assert(before[i] == id);
                let k = choose|k: int|
                    0 <= k < first.len() && (#[trigger] first[k]).straddling_item_ids@.contains(id);
                assert(stats[k] == first[k]);
            } else {
                assert(ids[i - before.len()] == id);
                assert(stats[stats.len() - 1].straddling_item_ids@.contains(id));
            }
        }
        if exists|k: int|
            0 <= k < stats.len() && (#[trigger] stats[k]).straddling_item_ids@.contains(id) {
            let k = choose|k: int|
                0 <= k < stats.len() && (#[trigger] stats[k]).straddling_item_ids@.contains(id);
            if k < first.len() {
                assert(first[k] == stats[k]);
                let i = choose|i: int| 0 <= i < before.len() && before[i] == id;
                assert(all[i] == id);
            } else {
                let i = choose|i: int| 0 <= i < ids.len() && ids[i] == id;
                assert(all[before.len() + i] == id);
            }
        }
    }
}

proof fn lemma_straddler_is_an_item(items: Seq<SheetItem>, n: usize, k: int, m: nat, id: usize)
    requires
        m <= items.len(),
        straddling_on(items, n, k, m).contains(id),
    ensures
        exists|i: int|
            0 <= i < m && (#[trigger] items[i]).item_id == id && clamped(items[i].left, n)
                != clamped(items[i].right, n),
    decreases m,
{
    if m > 0 {
        let before = straddling_on(items, n, k, (m - 1) as nat);
        let all = straddling_on(items, n, k, m);
        let j = choose|j: int| 0 <= j < all.len() && all[j] == id;
        if j < before.len() {
            assert(before[j] == id);
            lemma_straddler_is_an_item(items, n, k, (m - 1) as nat, id);
        } else {
            assert(items[m - 1].item_id == id);
        }
    }
}

proof fn lemma_straddler_is_on_its_sheet(items: Seq<SheetItem>, n: usize, k: int, m: nat, i: int)
    requires
        0 <= i < m <= items.len(),
        k == clamped(items[i].right, n),
        clamped(items[i].left, n) != k,
    ensures
        straddling_on(items, n, k, m).contains(items[i].item_id),
    decreases m,
{
    let before = straddling_on(items, n, k, (m - 1) as nat);
    let all = straddling_on(items, n, k, m);
    if i < m - 1 {
        lemma_straddler_is_on_its_sheet(items, n, k, (m - 1) as nat, i);
        let j = choose|j: int| 0 <= j < before.len() && before[j] == items[i].item_id;
        assert(all[j] == items[i].item_id);
    } else {
        assert(all[before.len() as int] == items[i].item_id);
    }
}

/// **The used width is reached**: it is zero, or the distance of one of the items, and never below zero.
pub proof fn lemma_used_width_is_reached(distances: Seq<Scalar>, m: nat)
    requires
        m <= distances.len(),
    ensures
        reach(distances, m).value() >= 0,
        reach(distances, m).value() == 0 || exists|i: int|
            0 <= i < m && #[trigger] distances[i] == reach(distances, m),
    decreases m,
{
    if m > 0 {
        lemma_used_width_is_reached(distances, (m - 1) as nat);
        lemma_reach_is_a_number(distances, (m - 1) as nat);
    }
}

/// **The covering extent is no larger than it has to be**: each of its ends is at the origin, or at the
/// same end of one of the extents.
pub proof fn lemma_covering_is_tight(extents: Seq<Extent>, m: nat)
    requires
        m <= extents.len(),
    ensures
        ({
            let c = covering(extents, m);
            &&& c.x_min.value() == 0 || exists|i: int|
                0 <= i < m && (#[trigger] extents[i]).x_min == c.x_min
            &&& c.y_min.value() == 0 || exists|i: int|
                0 <= i < m && (#[trigger] extents[i]).y_min == c.y_min
            &&& c.x_max.value() == 0 || exists|i: int|
                0 <= i < m && (#[trigger] extents[i]).x_max == c.x_max
            &&& c.y_max.value() == 0 || exists|i: int|
                0 <= i < m && (#[trigger] extents[i]).y_max == c.y_max
            &&& c.x_min.value() <= 0 <= c.x_max.value()
            &&& c.y_min.value() <= 0 <= c.y_max.value()
        }),
    decreases m,
{
    if m > 0 {
        lemma_covering_is_tight(extents, (m - 1) as nat);
        lemma_covering_is_a_number(extents, (m - 1) as nat);
        let b = extents[m - 1];
    }
}

/// **What sticks out is what ends right of the cut**: exactly the items whose right edge is beyond the new
/// width are relocated.
pub proof fn lemma_doomed_are_beyond_the_cut(items: Seq<StripItem>, new_width: Scalar)
    ensures
        doomed(items, new_width, items.len()) == items.filter(
            |p: StripItem| new_width.less(p.x_max),
        ),
{
    lemma_doomed_is_a_filter(items, new_width, items.len());
    assert(items.take(items.len() as int) =~= items);
}

proof fn lemma_doomed_is_a_filter(items: Seq<StripItem>, new_width: Scalar, m: nat)
    requires
        m <= items.len(),
    ensures
        doomed(items, new_width, m) == items.take(m as int).filter(
            |p: StripItem| new_width.less(p.x_max),
        ),
    decreases m,
{
    reveal(Seq::filter);
    if m > 0 {
        lemma_doomed_is_a_filter(items, new_width, (m - 1) as nat);
        assert(items.take(m as int).drop_last() =~= items.take(m - 1));
        assert(items.take(m as int).last() == items[m - 1]);
    }
}

/// **What sticks out goes to the sheets in turn, largest first**: the relocations are those of a list of
/// the items that stick out, in which no item stands in front of a larger one; the first goes to the first
/// sheet, the next to the next one, and after the last sheet the turn starts over.
pub proof fn lemma_relocations_go_round(items: Seq<StripItem>, new_width: Scalar, n_target: usize)
    requires
        n_target >= 1,
        items.len() <= usize::MAX,
    ensures
        ({
            let moved = relocations_of(items, new_width, n_target);
            let out = items.filter(|p: StripItem| new_width.less(p.x_max));
            &&& moved.len() > 0 ==> moved[0].sheet == 0
            &&& forall|i: int|
                #![trigger moved[i]]
                0 < i < moved.len() ==> moved[i].sheet == if moved[i - 1].on_last {
                    0
                } else {
                    moved[i - 1].sheet + 1
                }
            &&& forall|i: int|
                #![trigger moved[i]]
                0 <= i < moved.len() ==> moved[i].on_last == (moved[i].sheet == n_target - 1)
            &&& exists|sorted: Seq<StripItem>|
                {
                    &&& #[trigger] sorted.to_multiset() == out.to_multiset()
                    &&& sorted.len() == moved.len()
                    &&& forall|i: int|
                        #![trigger moved[i]]
                        0 <= i < moved.len() ==> moved[i].key == sorted[i].key && moved[i].item_id
                            == sorted[i].item_id
                    &&& forall|i: int, j: int|
                        0 <= i < j < sorted.len() ==> !(#[trigger] sorted[i]).area.less(
                            (#[trigger] sorted[j]).area,
                        )
                }
        }),
{
    lemma_doomed_are_beyond_the_cut(items, new_width);
    lemma_doomed_len(items, new_width, items.len());
    let moved = relocations_of(items, new_width, n_target);
    let out = doomed(items, new_width, items.len());
    let keys = strip_keys(out);
    order::lemma_order_exists(keys);
    order::lemma_order_permutes(keys, out);
    let o = order::positions_in_order(keys);
    let sorted = largest_strip_items(out);
    let n = n_target as int;
    assert forall|i: int|
        #![trigger moved[i]]
        0 < i < moved.len() implies moved[i].sheet == if moved[i - 1].on_last {
        0
    } else {
        moved[i - 1].sheet + 1
    } by {
        let before = moved[i - 1];
        vstd::arithmetic::div_mod::lemma_fundamental_div_mod(i - 1, n);
        vstd::arithmetic::div_mod::lemma_fundamental_div_mod(i, n);
        let q = (i - 1) / n;
        let r = (i - 1) % n;
        assert(n * q + n == n * (q + 1)) by (nonlinear_arith);
        if r == n - 1 {
            assert(i == (q + 1) * n + 0) by (nonlinear_arith)
                requires
                    i - 1 == n * q + r,
                    r == n - 1,
            ;
            vstd::arithmetic::div_mod::lemma_fundamental_div_mod_converse(i, n, q + 1, 0);
        } else {
            assert(i == q * n + (r + 1)) by (nonlinear_arith)
                requires
                    i - 1 == n * q + r,
            ;
            vstd::arithmetic::div_mod::lemma_fundamental_div_mod_converse(i, n, q, r + 1);
        }
    }
    if moved.len() > 0 {
        vstd::arithmetic::div_mod::lemma_small_mod(0, n as nat);
    }
    assert forall|i: int, j: int| 0 <= i < j < sorted.len() implies !(#[trigger] sorted[i]).area.less(
        (#[trigger] sorted[j]).area,
    ) by {
        let (p, q) = (o[i] as int, o[j] as int);
        assert(sorted[i] == out[p] && sorted[j] == out[q]);
        assert(order::key_less(order::full_key(keys, o[i]), order::full_key(keys, o[j])));
        assert(keys[p] == (layouts::descending(out[p].area), out[p].key.rank));
        assert(keys[q] == (layouts::descending(out[q].area), out[q].key.rank));
        crate::scalar::lemma_key_is_order(out[p].area, out[q].area);
    }
    assert(sorted.to_multiset() == out.to_multiset());
}

/// The solution of the last cut that left no overlap, or the one that was put in.
pub open spec fn last_good_cut(init: usize, events: Seq<BandEvent>) -> usize
    decreases events.len(),
{
    if events.len() == 0 {
        init
    } else {
        match events.last() {
            BandEvent::Cut { loss, solution } if separation::settled(loss) => solution,
            _ => last_good_cut(init, events.drop_last()),
        }
    }
}

/// How many cuts left some overlap.
pub open spec fn bad_cuts(events: Seq<BandEvent>) -> nat
    decreases events.len(),
{
    if events.len() == 0 {
        0
    } else {
        bad_cuts(events.drop_last()) + match events.last() {
            BandEvent::Cut { loss, .. } if !separation::settled(loss) => 1nat,
            _ => 0nat,
        }
    }
}

/// How many cuts in a row, up to the last one, left some overlap.
pub open spec fn bad_cuts_in_a_row(events: Seq<BandEvent>) -> nat
    decreases events.len(),
{
    if events.len() == 0 {
        0
    } else {
        match events.last() {
            BandEvent::Cut { loss, .. } => if separation::settled(loss) {
                0
            } else {
                bad_cuts_in_a_row(events.drop_last()) + 1
            },
            _ => bad_cuts_in_a_row(events.drop_last()),
        }
    }
}

/// Every event is one that the pack-down waits for at that point.
pub open spec fn band_admits(s: BandPackDown, events: Seq<BandEvent>) -> bool
    decreases events.len(),
{
    events.len() > 0 ==> band_admits(s, events.drop_last()) && band_expects(
        band_after(s, events.drop_last()),
        events.last(),
    )
}

/// How many cuts left no overlap.
pub open spec fn good_cuts(events: Seq<BandEvent>) -> nat
    decreases events.len(),
{
    if events.len() == 0 {
        0
    } else {
        good_cuts(events.drop_last()) + match events.last() {
            BandEvent::Cut { loss, .. } if separation::settled(loss) => 1nat,
            _ => 0nat,
        }
    }
}

proof fn lemma_band_remembers(init: usize, n_sheets: usize, events: Seq<BandEvent>)
    requires
        band_admits(band_start(init, n_sheets), events),
        events.len() <= usize::MAX,
    ensures
        ({
            let s = band_after(band_start(init, n_sheets), events);
            &&& band_wf(s)
            &&& s.best == last_good_cut(init, events)
            &&& s.n_accepted == good_cuts(events)
            &&& s.n_failed == bad_cuts_in_a_row(events)
            &&& s.halvings == bad_cuts(events)
            &&& good_cuts(events) <= events.len()
        }),
    decreases events.len(),
{
    if events.len() > 0 {
        lemma_band_remembers(init, n_sheets, events.drop_last());
    }
}

/// **A pack-down over sheets follows its history.** Its result is the last cut that left no overlap. It
/// tries the next cut, halved once for every cut that failed so far, until the time is up, the band is
/// gone, two cuts in a row have failed or the step has become too small. A cut that left no overlap is
/// adopted, any other one undone.
pub proof fn lemma_band_follows_its_history(
    init: usize,
    n_sheets: usize,
    events: Seq<BandEvent>,
    event: BandEvent,
)
    requires
        band_admits(band_start(init, n_sheets), events.push(event)),
        events.len() < usize::MAX,
    ensures
        ({
            let (t, action) = band_next(band_after(band_start(init, n_sheets), events), event);
            let seen = events.push(event);
            &&& t.best == last_good_cut(init, seen)
            &&& t.n_accepted == good_cuts(seen)
            &&& match event {
                BandEvent::Poll { killed, used } => {
                    let over = killed || bad_cuts_in_a_row(events) >= 2
                        || bad_cuts(events) > 3 || used.less_or_equal(
                        Scalar { bits: ONE_BITS },
                    );
                    &&& over ==> action is Finish
                    &&& !over ==> (action matches BandAction::Cut { halvings } && halvings
                        == bad_cuts(events))
                },
                BandEvent::Cut { loss, .. } => action == if separation::settled(loss) {
                    BandAction::Adopt
                } else {
                    BandAction::Restore
                },
            }
        }),
{
    let all = events.push(event);
    assert(all.drop_last() =~= events);
    assert(all.last() == event);
    lemma_band_remembers(init, n_sheets, events);
    lemma_band_remembers(init, n_sheets, all);
}

/// **Every order of a pack-down over sheets is answered by its own report**, and over fewer than two
/// sheets there is nothing to do.
pub proof fn lemma_band_orders(
    s: BandPackDown,
    event: BandEvent,
    e: BandEvent,
    init: usize,
    n_sheets: usize,
)
    requires
        band_expects(s, event),
    ensures
        band_expects(band_next(s, event).0, e) == match band_next(s, event).1 {
            BandAction::Cut { .. } => e is Cut,
            BandAction::Adopt | BandAction::Restore => e is Poll,
            BandAction::Finish => false,
        },
        band_expects(band_start(init, n_sheets), e) == (n_sheets >= 2 && e is Poll),
{
}

/// **Items slide from left to right**: the keys are those of a list of the items that are on any sheet
/// but the last, in which no item stands behind one that is further to the right.
pub proof fn lemma_slide_order_is_from_left_to_right(items: Seq<SlideItem>, n: usize)
    requires
        n >= 1,
        items.len() <= usize::MAX,
    ensures
        exists|sorted: Seq<SlideItem>|
            {
                &&& #[trigger] sorted.to_multiset() == items.filter(
                    |p: SlideItem| p.sheet < n - 1,
                ).to_multiset()
                &&& slide_order(items, n) == sorted.map_values(|p: SlideItem| p.key)
                &&& forall|i: int, j: int|
                    0 <= i < j < sorted.len() ==> !(#[trigger] sorted[j]).x_min.before(
                        (#[trigger] sorted[i]).x_min,
                    )
            },
{
    let c = sliding(items, n, items.len());
    lemma_sliding_is_a_filter(items, n, items.len());
    assert(items.take(items.len() as int) =~= items);
    items.lemma_filter_len(|p: SlideItem| p.sheet < n - 1);
    let keys = slide_keys(c);
    order::lemma_order_exists(keys);
    order::lemma_order_permutes(keys, c);
    let o = order::positions_in_order(keys);
    let sorted = o.map_values(|p: usize| c[p as int]);
    assert(slide_order(items, n) =~= sorted.map_values(|p: SlideItem| p.key));
    assert forall|i: int, j: int| 0 <= i < j < sorted.len() implies !(#[trigger] sorted[j]).x_min.before(
        (#[trigger] sorted[i]).x_min,
    ) by {
        let (p, q) = (o[i] as int, o[j] as int);
        assert(sorted[i] == c[p] && sorted[j] == c[q]);
        assert(order::key_less(order::full_key(keys, o[i]), order::full_key(keys, o[j])));
        assert(keys[p] == (layouts::ascending(c[p].x_min), c[p].key.rank));
        assert(keys[q] == (layouts::ascending(c[q].x_min), c[q].key.rank));
        crate::scalar::lemma_key_is_order(c[q].x_min, c[p].x_min);
    }
    assert(sorted.to_multiset() == c.to_multiset());
}

proof fn lemma_sliding_is_a_filter(items: Seq<SlideItem>, n: usize, m: nat)
    requires
        m <= items.len(),
        n >= 1,
    ensures
        sliding(items, n, m) == items.take(m as int).filter(|p: SlideItem| p.sheet < n - 1),
    decreases m,
{
    reveal(Seq::filter);
    if m > 0 {
        lemma_sliding_is_a_filter(items, n, (m - 1) as nat);
        assert(items.take(m as int).drop_last() =~= items.take(m - 1));
        assert(items.take(m as int).last() == items[m - 1]);
    }
}

/// The shifts that were tried while the range was open, each with whether it was free.
pub open spec fn probes(events: Seq<SlideEvent>) -> Seq<(Scalar, bool)>
    decreases events.len(),
{
    if events.len() < 2 {
        seq![]
    } else {
        let earlier = probes(events.drop_last());
        match (events[events.len() - 2], events.last()) {
            (SlideEvent::Range { open: true, middle }, SlideEvent::Tried { free }) => earlier.push(
                (middle, free),
            ),
            _ => earlier,
        }
    }
}

/// The last of the shifts that turned out this way.
pub open spec fn last_probe(tried: Seq<(Scalar, bool)>, free: bool) -> Option<Scalar>
    decreases tried.len(),
{
    if tried.len() == 0 {
        None
    } else if tried.last().1 == free {
        Some(tried.last().0)
    } else {
        last_probe(tried.drop_last(), free)
    }
}

/// Where an item sits after some shifts were tried: at the last one if it was free, where it was otherwise.
pub open spec fn sits_at(tried: Seq<(Scalar, bool)>) -> Option<Scalar> {
    if tried.len() > 0 && tried.last().1 {
        Some(tried.last().0)
    } else {
        None
    }
}

proof fn lemma_slide_remembers(max_shift: Scalar, events: Seq<SlideEvent>)
    requires
        slide_admits(slide_start(max_shift), events),
    ensures
        ({
            let s = slide_after(slide_start(max_shift), events);
            let tried = probes(events);
            &&& !(s.stage is Done) ==> {
                &&& s.best == last_probe(tried, true)
                &&& s.limit == match last_probe(tried, false) {
                    Some(l) => l,
                    None => max_shift,
                }
                &&& s.at == sits_at(tried)
            }
            &&& s.stage is Range ==> events.len() == 0 || events.last() is Tried
            &&& s.stage is Probing ==> events.len() > 0 && (events.last() matches SlideEvent::Range {
                open,
                middle,
            } && open && s.probe == middle)
            &&& s.stage is Reapplying ==> events.len() > 0 && (events.last() matches SlideEvent::Range {
                open,
                ..
            } && !open)
        }),
    decreases events.len(),
{
    if events.len() > 0 {
        let earlier = events.drop_last();
        lemma_slide_remembers(max_shift, earlier);
        reveal_with_fuel(slide_admits, 2);
        if events.len() > 1 {
            assert(events[events.len() - 2] == earlier.last());
        }
        let tried = probes(events);
        if tried.len() > probes(earlier).len() {
            assert(tried.drop_last() =~= probes(earlier));
        }
    }
}

/// **A search closes in on the largest free shift.** The middle of an open range is tried next. A free one
/// becomes the best, one that collides the limit. When the range is closed, the best one is applied once
/// more if the last one that was tried collided; if even that collides, the item stays where it was.
pub proof fn lemma_slide_follows_its_history(
    max_shift: Scalar,
    events: Seq<SlideEvent>,
    event: SlideEvent,
)
    requires
        slide_admits(slide_start(max_shift), events.push(event)),
    ensures
        ({
            let s = slide_after(slide_start(max_shift), events);
            let (t, action) = slide_next(s, event);
            let tried = probes(events);
            let seen = probes(events.push(event));
            match event {
                SlideEvent::Range { open, middle } => {
                    &&& t.best == last_probe(tried, true)
                    &&& t.limit == match last_probe(tried, false) {
                        Some(l) => l,
                        None => max_shift,
                    }
                    &&& t.at == sits_at(tried)
                    &&& open ==> action == (SlideAction::Try { shift: middle })
                    &&& !open ==> match last_probe(tried, true) {
                        Some(b) if sits_at(tried) is None => action == (SlideAction::Try { shift: b }),
                        _ => action is Finish,
                    }
                },
                SlideEvent::Tried { free } => if seen.len() > tried.len() {
                    &&& action is Measure
                    &&& t.best == last_probe(seen, true)
                    &&& t.limit == match last_probe(seen, false) {
                        Some(l) => l,
                        None => max_shift,
                    }
                    &&& t.at == sits_at(seen)
                } else {
                    &&& action is Finish
                    &&& t.at == t.best
                    &&& free ==> t.best == last_probe(tried, true)
                    &&& !free ==> t.best is None
                },
            }
        }),
{
    let start = slide_start(max_shift);
    let all = events.push(event);
    assert(all.drop_last() =~= events);
    assert(all.last() == event);
    lemma_slide_remembers(max_shift, events);
    lemma_slide_remembers(max_shift, all);
    if events.len() > 0 {
        assert(all[all.len() - 2] == events.last());
    }
}

/// **Every order of a search is answered by its own report.**
pub proof fn lemma_slide_orders(s: Slide, event: SlideEvent, e: SlideEvent, max_shift: Scalar)
    requires
        slide_expects(s, event),
    ensures
        slide_expects(slide_next(s, event).0, e) == match slide_next(s, event).1 {
            SlideAction::Measure => e is Range,
            SlideAction::Try { .. } => e is Tried,
            SlideAction::Finish => false,
        },
        slide_expects(slide_start(max_shift), e) == e is Range,
{
}

/// **A wall stands in a strip if it begins before the strip ends**: every boundary that does is kept, in order,
/// and no other.
pub proof fn lemma_walls_begin_inside_the_strip(boundaries: Seq<Wall>, width: Scalar, i: int)
    requires
        0 <= i < boundaries.len(),
    ensures
        boundaries.filter(|w: Wall| stands_inside(w, width)).contains(boundaries[i])
            <==> boundaries[i].x_min.less(width),
{
    let inside = |w: Wall| stands_inside(w, width);
    if inside(boundaries[i]) {
        boundaries.lemma_filter_contains(inside, i);
    }
    let kept = boundaries.filter(inside);
    if kept.contains(boundaries[i]) {
        let k = choose|k: int| 0 <= k < kept.len() && kept[k] == boundaries[i];
        boundaries.lemma_filter_pred(inside, k);
    }
}

/// The names of the straddling items of the first `k` sheets, sheet by sheet: the id and the sheet.
pub open spec fn straddler_names(stats: Seq<SheetStats>, k: nat) -> Seq<Seq<char>>
    decreases k,
{
    if k == 0 {
        seq![]
    } else {
        straddler_names(stats, (k - 1) as nat) + stats[k - 1].straddling_item_ids@.map_values(
            |id: usize| text::decimal(id as nat) + "@sheet"@ + text::decimal(stats[k - 1].index as nat),
        )
    }
}

proof fn lemma_named_after(
    names: Seq<Seq<char>>,
    before: Seq<char>,
    ids: Seq<usize>,
    index: usize,
    m: nat,
)
    requires
        m <= ids.len(),
        before == text::joined_by(names, ", "@),
        before.len() == 0 <==> names.len() == 0,
    ensures
        ({
            let all = names + ids.take(m as int).map_values(
                |id: usize| text::decimal(id as nat) + "@sheet"@ + text::decimal(index as nat),
            );
            let s = straddling_text_of(before, ids, index, m);
            s == text::joined_by(all, ", "@) && (s.len() == 0 <==> all.len() == 0)
        }),
    decreases m,
{
    let f = |id: usize| text::decimal(id as nat) + "@sheet"@ + text::decimal(index as nat);
    let all = names + ids.take(m as int).map_values(f);
    if m > 0 {
        let head = names + ids.take(m - 1).map_values(f);
        lemma_named_after(names, before, ids, index, (m - 1) as nat);
        assert(all.drop_last() =~= head);
        assert(all.last() == f(ids[m - 1]));
        text::lemma_joined_last(all, ", "@);
        text::lemma_decimal_is_plain(ids[m - 1] as nat);
        if head.len() == 0 {
            assert(straddling_text_of(before, ids, index, m) =~= f(ids[m - 1]));
        }
    } else {
        assert(all =~= names);
    }
}

/// **Every straddling item is reported, with its sheet**, one after the other.
pub proof fn lemma_every_straddling_item_is_reported(stats: Seq<SheetStats>, k: nat)
    requires
        k <= stats.len(),
    ensures
        straddling_text(stats, k) == text::joined_by(straddler_names(stats, k), ", "@),
        straddling_text(stats, k).len() == 0 <==> straddler_names(stats, k).len() == 0,
    decreases k,
{
    if k > 0 {
        lemma_every_straddling_item_is_reported(stats, (k - 1) as nat);
        let ids = stats[k - 1].straddling_item_ids@;
        lemma_named_after(
            straddler_names(stats, (k - 1) as nat),
            straddling_text(stats, (k - 1) as nat),
            ids,
            stats[k - 1].index,
            ids.len(),
        );
        assert(ids.take(ids.len() as int) =~= ids);
    }
}

/// **A table has every sheet, and every item on the sheet of its right edge**: an item whose right edge is beyond
/// the last sheet is on the last one.
pub proof fn lemma_table_has_every_item(
    items: Seq<SheetItem>,
    n: usize,
    stats: Seq<SheetStats>,
    k: int,
    p: usize,
)
    requires
        is_sheet_table(items, n, stats, items.len()),
        items.len() <= usize::MAX,
        0 <= k < n,
        p < items.len(),
    ensures
        stats.len() == n,
        stats[k].index == k,
        stats[k].members@.contains(p) <==> items[p as int].right == k || (items[p as int].right >= n
            && k == n - 1),
{
    lemma_one_sheet_per_item(items, n, k, items.len(), p);
}

} // verus!
