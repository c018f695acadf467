//! Consolidating one bin as a strip: its items get ids of their own, are compacted, and are put
//! back into a bin of the same type.
use crate::optimizer::bpp::layouts;
use crate::optimizer::bpp::layouts::{PItemKey, PlacedItem};
use crate::optimizer::separator as separation;
use crate::order;
use crate::order::order_by;
use crate::scalar::Scalar;
use vstd::prelude::*;

verus! {

/// What is done about a bin.
#[derive(Debug, Clone, Copy, PartialEq, Eq, Structural)]
pub enum Consolidation {
    /// It holds fewer than two items: there is nothing to push together.
    TooFewItems,
    /// Its content spans the whole bin already.
    FullWidth,
    /// No time is left.
    NoBudget,
    /// Compact it, within this budget (ns).
    Run {
        /// The budget.
        budget: u128,
    },
}

/// Decides whether a bin is consolidated. `full_width` is the width from which the content counts as
/// spanning the bin, `limit` the budget of a single attempt.
pub fn consolidate_layout(
    n_items: usize,
    used_width: Scalar,
    full_width: Scalar,
    budget: u128,
    limit: u128,
) -> (r: Consolidation)
    ensures
        r matches Consolidation::Run { budget: b } ==> 0 < b <= budget && b <= limit && (b == budget
            || b == limit) && n_items >= 2,
        r is Run ==> !full_width.less_or_equal(used_width),
        r == if n_items < 2 {
            Consolidation::TooFewItems
        } else if full_width.less_or_equal(used_width) {
            Consolidation::FullWidth
        } else if budget == 0 || limit == 0 {
            Consolidation::NoBudget
        } else {
            Consolidation::Run {
                budget: if budget < limit {
                    budget
                } else {
                    limit
                },
            }
        },
{
    if n_items < 2 {
        return Consolidation::TooFewItems;
    }
    if full_width.le(used_width) {
        return Consolidation::FullWidth;
    }
    let capped: u128 = if budget < limit {
        budget
    } else {
        limit
    };
    if capped == 0 {
        Consolidation::NoBudget
    } else {
        Consolidation::Run { budget: capped }
    }
}

/// Whether the compacted content is written back: there is a solution, and its width is below the
/// bar, which is a fixed fraction of the width that was used before.
pub fn narrowed(new_width: Option<Scalar>, bar: Scalar) -> (r: bool)
    ensures
        new_width matches Some(w) ==> (!w.nan() && !bar.nan() ==> (r <==> w.value() < bar.value())),
        new_width is None ==> !r,
        r == match new_width {
            Some(w) => !bar.less_or_equal(w),
            None => false,
        },
{
    match new_width {
        Some(w) => !bar.le(w),
        None => false,
    }
}

/// The item ids of a bin.
pub open spec fn ids(items: Seq<PlacedItem>) -> Seq<usize> {
    items.map_values(|p: PlacedItem| p.item_id)
}

/// The distinct ids, in the order of their first occurrence.
pub open spec fn first_occurrences(ids: Seq<usize>) -> Seq<usize>
    decreases ids.len(),
{
    if ids.len() == 0 {
        ids
    } else {
        let before = first_occurrences(ids.drop_last());
        if before.contains(ids.last()) {
            before
        } else {
            before.push(ids.last())
        }
    }
}

/// The distinct ids have no repeats and are the same ids.
pub proof fn lemma_first_occurrences(ids: Seq<usize>)
    ensures
        first_occurrences(ids).no_duplicates(),
        first_occurrences(ids).len() <= ids.len(),
        forall|id: usize| #[trigger] first_occurrences(ids).contains(id) == ids.contains(id),
    decreases ids.len(),
{
    if ids.len() > 0 {
        let before = first_occurrences(ids.drop_last());
        let all = first_occurrences(ids);
        lemma_first_occurrences(ids.drop_last());
        assert(ids =~= ids.drop_last().push(ids.last()));
        assert forall|id: usize| #[trigger] all.contains(id) == ids.contains(id) by {
            if ids.contains(id) {
                let k = choose|k: int| 0 <= k < ids.len() && ids[k] == id;
                if k < ids.len() - 1 {
                    assert(ids.drop_last()[k] == id);
                    assert(before.contains(id));
                }
                if !before.contains(ids.last()) {
                    if before.contains(id) {
                        let p = choose|p: int| 0 <= p < before.len() && before[p] == id;
                        assert(all[p] == id);
                    } else {
                        assert(all[before.len() as int] == id);
                    }
                }
            }
            if all.contains(id) {
                if before.contains(id) {
                    let p = choose|p: int|
                        0 <= p < ids.drop_last().len() && ids.drop_last()[p] == id;
                    assert(ids[p] == id);
                } else {
                    assert(ids[ids.len() - 1] == id);
                }
            }
        }
    }
}

/// How often an id occurs.
pub open spec fn occurrences(ids: Seq<usize>, id: usize) -> nat {
    ids.to_multiset().count(id)
}

/// The strip packing problem of one bin.
#[derive(Debug)]
pub struct Subproblem {
    /// The items of the problem: the `i`-th one is this item of the instance.
    pub global_ids: Vec<usize>,
    /// How often each of them is demanded.
    pub demands: Vec<usize>,
    /// For each placed item, which item of the problem it is.
    pub local_ids: Vec<usize>,
}

fn position(list: &Vec<usize>, id: usize) -> (r: Option<usize>)
    ensures
        match r {
            Some(p) => p < list@.len() && list@[p as int] == id,
            None => !list@.contains(id),
        },
{
    let mut i: usize = 0;
    while i < list.len()
        invariant
            i <= list@.len(),
            forall|k: int| 0 <= k < i ==> #[trigger] list@[k] != id,
        decreases list@.len() - i,
    {
        if list[i] == id {
            return Some(i);
        }
        i = i + 1;
    }
    None
}

/// The correspondence between a bin and the problem it is solved as.
pub open spec fn lifts(items: Seq<PlacedItem>, sub: Subproblem) -> bool {
    &&& sub.global_ids@ == first_occurrences(ids(items))
    &&& sub.local_ids@.len() == items.len()
    &&& forall|i: int|
        0 <= i < items.len() ==> (#[trigger] sub.local_ids@[i]) < sub.global_ids@.len()
            && sub.global_ids@[sub.local_ids@[i] as int] == items[i].item_id
    &&& sub.demands@.len() == sub.global_ids@.len()
    &&& forall|j: int|
        0 <= j < sub.demands@.len() ==> #[trigger] sub.demands@[j] == occurrences(
            ids(items),
            sub.global_ids@[j],
        )
}

/// Lifts the content of a bin into a strip packing problem. The ids of a problem are consecutive,
/// while the items of a bin are any of the instance's, so each distinct item gets the next id when
/// it first occurs.
pub fn build_sp_subproblem(items: &Vec<PlacedItem>) -> (r: Subproblem)
    ensures
        lifts(items@, r),
{
    let mut sub = Subproblem {
        global_ids: Vec::new(),
        demands: Vec::new(),
        local_ids: Vec::new(),
    };
    assert(ids(items@.take(0)) =~= Seq::empty());
    assert(sub.global_ids@ =~= first_occurrences(ids(items@.take(0))));
    let mut i: usize = 0;
    while i < items.len()
        invariant
            i <= items@.len(),
            lifts(items@.take(i as int), sub),
        decreases items@.len() - i,
    {
        let id: usize = items[i].item_id;
        let ghost before = ids(items@.take(i as int));
        let ghost after = ids(items@.take(i + 1));
        let ghost old_sub = sub;
        proof {
            assert(after =~= before.push(id));
            assert(after.drop_last() =~= before);
            lemma_first_occurrences(before);
            broadcast use vstd::seq_lib::group_to_multiset_ensures;
            assert forall|x: usize| #[trigger] occurrences(after, x) == occurrences(before, x)
                + if x == id {
                1nat
            } else {
                0
            } by {}
            assert forall|x: usize| #[trigger] occurrences(before, x) <= before.len() by {
                assert(before.to_multiset().len() == before.len());
            }
        }
        match position(&sub.global_ids, id) {
            Some(p) => {
                let n: usize = sub.demands[p];
                sub.demands.set(p, n + 1);
                sub.local_ids.push(p);
            },
            None => {
                let p: usize = sub.global_ids.len();
                sub.global_ids.push(id);
                sub.demands.push(1);
                sub.local_ids.push(p);
            },
        }
        i = i + 1;
    }
    assert(items@.take(i as int) =~= items@);
    sub
}

/// Where a written back item goes.
#[derive(Debug, Clone, Copy, PartialEq, Eq, Structural)]
pub enum WriteTarget {
    /// Into a bin of this type that is opened for it.
    Closed {
        /// The bin type.
        bin_id: usize,
    },
    /// Into the bin that the first item opened.
    Open,
}

/// How a bin is emptied and filled again.
#[derive(Debug)]
pub struct WriteBack {
    /// The items to remove, in this order. Removing the last one closes the bin.
    pub removals: Vec<PItemKey>,
    /// The items to place, in this order: which item of the instance, and where it goes.
    pub placements: Vec<(usize, WriteTarget)>,
}

/// The placements of a write-back: the items of the strip solution under the ids of the instance,
/// the first one into a freshly opened bin of the same type.
pub open spec fn write_placements(
    global_ids: Seq<usize>,
    bin_id: usize,
    local_ids: Seq<usize>,
) -> Seq<(usize, WriteTarget)> {
    Seq::new(
        local_ids.len(),
        |i: int|
            (
                global_ids[local_ids[i] as int],
                if i == 0 {
                    WriteTarget::Closed { bin_id }
                } else {
                    WriteTarget::Open
                },
            ),
    )
}

/// Plans how a strip solution, given by the ids of its items, is written back into the bin it came
/// from. `None` if it does not hold as many items as the bin.
pub fn write_back(items: &Vec<PlacedItem>, bin_id: usize, local_ids: &Vec<usize>) -> (r: Option<
    WriteBack,
>)
    requires
        forall|i: int|
            0 <= i < local_ids@.len() ==> (#[trigger] local_ids@[i]) < first_occurrences(
                ids(items@),
            ).len(),
    ensures
        match r {
            Some(w) => {
                &&& local_ids@.len() == items@.len()
                &&& w.removals@ == items@.map_values(|p: PlacedItem| p.key)
                &&& w.placements@ == write_placements(
                    first_occurrences(ids(items@)),
                    bin_id,
                    local_ids@,
                )
            },
            None => local_ids@.len() != items@.len(),
        },
{
    let sub = build_sp_subproblem(items);
    if local_ids.len() != items.len() {
        return None;
    }
    let mut removals: Vec<PItemKey> = Vec::new();
    let mut placements: Vec<(usize, WriteTarget)> = Vec::new();
    let ghost planned = write_placements(sub.global_ids@, bin_id, local_ids@);
    let mut i: usize = 0;
    while i < items.len()
        invariant
            i <= items@.len(),
            local_ids@.len() == items@.len(),
            sub.global_ids@ == first_occurrences(ids(items@)),
            forall|k: int|
                0 <= k < local_ids@.len() ==> (#[trigger] local_ids@[k]) < sub.global_ids@.len(),
            planned == write_placements(sub.global_ids@, bin_id, local_ids@),
            removals@.len() == i,
            forall|k: int| 0 <= k < i ==> #[trigger] removals@[k] == items@[k].key,
            placements@.len() == i,
            forall|k: int| 0 <= k < i ==> #[trigger] placements@[k] == planned[k],
        decreases items@.len() - i,
    {
        removals.push(items[i].key);
        let target = if i == 0 {
            WriteTarget::Closed { bin_id }
        } else {
            WriteTarget::Open
        };
        placements.push((sub.global_ids[local_ids[i]], target));
        i = i + 1;
    }
    assert(removals@ =~= items@.map_values(|p: PlacedItem| p.key));
    assert(placements@ =~= planned);
    Some(WriteBack { removals, placements })
}

/// Whether a bin that was filled again is kept: it is free of collisions, and no loss is left
/// anywhere.
pub fn accepts_write_back(feasible: bool, total_loss: Scalar) -> (r: bool)
    ensures
        !feasible ==> !r,
        !total_loss.nan() && total_loss.value() > 0 ==> !r,
        r == (feasible && !(Scalar { bits: crate::scalar::ZERO_BITS }).less(total_loss)),
{
    feasible && !total_loss.is_positive()
}

/// **Nothing is lost on the way to the strip and back.** If the strip solution places each item as
/// often as the problem demands it, the write-back places exactly the items that the bin held.
pub proof fn lemma_write_back_conserves_items(
    items: Seq<PlacedItem>,
    sub: Subproblem,
    bin_id: usize,
    local_ids: Seq<usize>,
)
    requires
        lifts(items, sub),
        local_ids.to_multiset() == sub.local_ids@.to_multiset(),
    ensures
        local_ids.len() == items.len(),
        write_placements(sub.global_ids@, bin_id, local_ids).map_values(
            |p: (usize, WriteTarget)| p.0,
        ).to_multiset() == ids(items).to_multiset(),
{
    broadcast use vstd::seq_lib::group_to_multiset_ensures;
    assert(local_ids.len() == local_ids.to_multiset().len());
    assert(sub.local_ids@.len() == sub.local_ids@.to_multiset().len());
    let f = |l: usize| sub.global_ids@[l as int];
    let placed = write_placements(sub.global_ids@, bin_id, local_ids).map_values(
        |p: (usize, WriteTarget)| p.0,
    );
    assert(placed =~= local_ids.map_values(f));
    assert(ids(items) =~= sub.local_ids@.map_values(f));
    order::lemma_map_multiset(local_ids, sub.local_ids@, f);
}

/// **Every item of the problem is one of the bin's**, no two of them are the same, and each is
/// demanded as often as the bin holds it.
pub proof fn lemma_subproblem_is_exact(items: Seq<PlacedItem>, sub: Subproblem, j: int)
    requires
        lifts(items, sub),
        0 <= j < sub.global_ids@.len(),
    ensures
        sub.global_ids@.no_duplicates(),
        ids(items).contains(sub.global_ids@[j]),
        sub.demands@[j] == occurrences(ids(items), sub.global_ids@[j]),
        sub.demands@[j] > 0,
{
    lemma_first_occurrences(ids(items));
    assert(sub.global_ids@.contains(sub.global_ids@[j]));
    broadcast use vstd::seq_lib::group_to_multiset_ensures;
    assert(ids(items).to_multiset().contains(sub.global_ids@[j]));
}

/// The part of a span inside `lo..hi`.
pub open spec fn clipped(span: (Scalar, Scalar), lo: Scalar, hi: Scalar) -> (Scalar, Scalar) {
    (span.0.larger(lo), span.1.smaller(hi))
}

/// The parts of the first `n` spans inside `lo..hi`, without empty ones.
pub open spec fn clipped_spans(spans: Seq<(Scalar, Scalar)>, lo: Scalar, hi: Scalar, n: nat) -> Seq<
    (Scalar, Scalar),
>
    decreases n,
{
    if n == 0 {
        seq![]
    } else {
        let before = clipped_spans(spans, lo, hi, (n - 1) as nat);
        let c = clipped(spans[n - 1], lo, hi);
        if c.0.less(c.1) {
            before.push(c)
        } else {
            before
        }
    }
}

/// The sort keys of spans: by their start alone.
pub open spec fn start_keys(spans: Seq<(Scalar, Scalar)>) -> Seq<(u64, u64)> {
    spans.map_values(|s: (Scalar, Scalar)| (layouts::ascending(s.0), 0u64))
}

/// The spans by their start.
pub open spec fn sorted_spans(spans: Seq<(Scalar, Scalar)>) -> Seq<(Scalar, Scalar)> {
    order::positions_in_order(start_keys(spans)).map_values(|p: usize| spans[p as int])
}

/// The far end of what the first `n` spans cover, from `lo` on.
pub open spec fn covered_to(spans: Seq<(Scalar, Scalar)>, lo: Scalar, n: nat) -> Scalar
    decreases n,
{
    if n == 0 {
        lo
    } else {
        covered_to(spans, lo, (n - 1) as nat).larger(spans[n - 1].1)
    }
}

/// The gaps in front of the first `n` spans.
pub open spec fn gaps_before(spans: Seq<(Scalar, Scalar)>, lo: Scalar, n: nat) -> Seq<
    (Scalar, Scalar),
>
    decreases n,
{
    if n == 0 {
        seq![]
    } else {
        let before = gaps_before(spans, lo, (n - 1) as nat);
        let cursor = covered_to(spans, lo, (n - 1) as nat);
        if cursor.less(spans[n - 1].0) {
            before.push((cursor, spans[n - 1].0))
        } else {
            before
        }
    }
}

/// The gaps that the spans leave in `lo..hi`, the one at the end last even if it is empty.
pub open spec fn free_bands_of(spans: Seq<(Scalar, Scalar)>, lo: Scalar, hi: Scalar) -> Seq<
    (Scalar, Scalar),
> {
    let sorted = sorted_spans(clipped_spans(spans, lo, hi, spans.len()));
    gaps_before(sorted, lo, sorted.len()).push((covered_to(sorted, lo, sorted.len()), hi))
}

/// The gaps that the spans leave in `lo..hi`. The spans need not be sorted or disjoint. The widest
/// free band is the widest of the gaps.
pub fn widest_gap(spans: &Vec<(Scalar, Scalar)>, lo: Scalar, hi: Scalar) -> (r: Vec<
    (Scalar, Scalar),
>)
    ensures
        r@ == free_bands_of(spans@, lo, hi),
        r@.len() >= 1,
{
    let mut inside: Vec<(Scalar, Scalar)> = Vec::new();
    let mut keys: Vec<(u64, u64)> = Vec::new();
    let mut i: usize = 0;
    while i < spans.len()
        invariant
            i <= spans@.len(),
            inside@ == clipped_spans(spans@, lo, hi, i as nat),
            keys@.len() == inside@.len(),
            forall|k: int|
                0 <= k < keys@.len() ==> #[trigger] keys@[k] == (
                    layouts::ascending(inside@[k].0),
                    0u64,
                ),
        decreases spans@.len() - i,
    {
        let a = spans[i].0.max(lo);
        let b = spans[i].1.min(hi);
        if a.lt(b) {
            inside.push((a, b));
            keys.push((a.order_key() as u64, 0));
        }
        i = i + 1;
    }
    assert(keys@ =~= start_keys(inside@));
    let order = order_by(&keys);
    let ghost sorted = sorted_spans(inside@);
    let mut gaps: Vec<(Scalar, Scalar)> = Vec::new();
    let mut cursor = lo;
    let mut j: usize = 0;
    while j < order.len()
        invariant
            j <= order@.len(),
            order@.len() == sorted.len(),
            forall|k: int| 0 <= k < order@.len() ==> (#[trigger] order@[k]) < inside@.len(),
            forall|k: int|
                0 <= k < order@.len() ==> inside@[(#[trigger] order@[k]) as int] == sorted[k],
            cursor == covered_to(sorted, lo, j as nat),
            gaps@ == gaps_before(sorted, lo, j as nat),
        decreases order@.len() - j,
    {
        let (a, b) = inside[order[j]];
        assert((a, b) == sorted[j as int]);
        if cursor.lt(a) {
            gaps.push((cursor, a));
        }
        cursor = cursor.max(b);
        j = j + 1;
    }
    gaps.push((cursor, hi));
    gaps
}

proof fn lemma_covered_grows(spans: Seq<(Scalar, Scalar)>, lo: Scalar, m: nat, n: nat)
    requires
        m <= n <= spans.len(),
        !lo.nan(),
        forall|k: int| 0 <= k < spans.len() ==> !(#[trigger] spans[k]).1.nan(),
    ensures
        !covered_to(spans, lo, n).nan(),
        lo.value() <= covered_to(spans, lo, m).value() <= covered_to(spans, lo, n).value(),
        m < n ==> spans[m as int].1.value() <= covered_to(spans, lo, n).value(),
    decreases n,
{
    if n > 0 {
        if m < n {
            lemma_covered_grows(spans, lo, m, (n - 1) as nat);
        } else {
            lemma_covered_grows(spans, lo, (m - 1) as nat, (n - 1) as nat);
        }
    }
}

/// **A gap is free.** No span reaches into a gap: every span that ends after the gap begins starts
/// no earlier than the gap ends. So an item that fits a gap can be placed there.
pub proof fn lemma_gaps_are_free(
    spans: Seq<(Scalar, Scalar)>,
    lo: Scalar,
    n: nat,
    g: int,
    k: int,
)
    requires
        n <= spans.len(),
        !lo.nan(),
        forall|k: int|
            0 <= k < spans.len() ==> (#[trigger] spans[k]).0.less(spans[k].1),
        forall|i: int, j: int|
            0 <= i < j < spans.len() ==> (#[trigger] spans[i]).0.value() <= (
            #[trigger] spans[j]).0.value(),
        0 <= g < gaps_before(spans, lo, n).len(),
        0 <= k < spans.len(),
    ensures
        ({
            let gap = gaps_before(spans, lo, n)[g];
            spans[k].1.value() <= gap.0.value() || gap.1.value() <= spans[k].0.value()
        }),
    decreases n,
{
    if n > 0 {
        let before = gaps_before(spans, lo, (n - 1) as nat);
        if g < before.len() {
            lemma_gaps_are_free(spans, lo, (n - 1) as nat, g, k);
        } else if k < n - 1 {
            assert(forall|k: int| 0 <= k < spans.len() ==> !(#[trigger] spans[k]).1.nan());
            lemma_covered_grows(spans, lo, k as nat, (n - 1) as nat);
        } else {
            assert(spans[n - 1].0.value() <= spans[k].0.value());
        }
    }
}

/// The clipped spans are not empty.
proof fn lemma_clipped(spans: Seq<(Scalar, Scalar)>, lo: Scalar, hi: Scalar, n: nat)
    requires
        n <= spans.len(),
    ensures
        clipped_spans(spans, lo, hi, n).len() <= n,
        forall|k: int|
            0 <= k < clipped_spans(spans, lo, hi, n).len() ==> (#[trigger] clipped_spans(
                spans,
                lo,
                hi,
                n,
            )[k]).0.less(clipped_spans(spans, lo, hi, n)[k].1),
    decreases n,
{
    if n > 0 {
        lemma_clipped(spans, lo, hi, (n - 1) as nat);
    }
}

/// **Every band is free of every span**, as far as the span lies in `lo..hi`.
pub proof fn lemma_free_bands_are_free(
    spans: Seq<(Scalar, Scalar)>,
    lo: Scalar,
    hi: Scalar,
    g: int,
    k: int,
)
    requires
        spans.len() <= usize::MAX,
        !lo.nan(),
        0 <= g < free_bands_of(spans, lo, hi).len(),
        0 <= k < clipped_spans(spans, lo, hi, spans.len()).len(),
    ensures
        ({
            let gap = free_bands_of(spans, lo, hi)[g];
            let span = clipped_spans(spans, lo, hi, spans.len())[k];
            span.1.value() <= gap.0.value() || gap.1.value() <= span.0.value()
        }),
{
    let inside = clipped_spans(spans, lo, hi, spans.len());
    lemma_clipped(spans, lo, hi, spans.len());
    let keys = start_keys(inside);
    order::lemma_order_exists(keys);
    let o = order::positions_in_order(keys);
    let sorted = sorted_spans(inside);
    assert forall|i: int| 0 <= i < sorted.len() implies (#[trigger] sorted[i]).0.less(
        sorted[i].1,
    ) by {
        assert(sorted[i] == inside[o[i] as int]);
    }
    assert forall|i: int, j: int| 0 <= i < j < sorted.len() implies (
    #[trigger] sorted[i]).0.value() <= (#[trigger] sorted[j]).0.value() by {
        assert(order::key_less(order::full_key(keys, o[i]), order::full_key(keys, o[j])));
        crate::scalar::lemma_key_is_order(sorted[j].0, sorted[i].0);
    }
    assert(o.contains(k as usize));
    let q = choose|q: int| 0 <= q < o.len() && o[q] == k as usize;
    assert(sorted[q] == inside[k]);
    if g < free_bands_of(spans, lo, hi).len() - 1 {
        lemma_gaps_are_free(sorted, lo, sorted.len(), g, q);
    } else {
        assert(forall|i: int| 0 <= i < sorted.len() ==> !(#[trigger] sorted[i]).1.nan());
        lemma_covered_grows(sorted, lo, q as nat, sorted.len());
    }
}

/// No band is wide enough for an item of this extent, and not even its area is free.
pub open spec fn hopeless(
    min_extent: Option<Scalar>,
    widest_vertical: Scalar,
    widest_horizontal: Scalar,
    free_area: Scalar,
    item_area: Scalar,
) -> bool {
    match min_extent {
        Some(e) => !e.less_or_equal(widest_vertical) && !e.less_or_equal(widest_horizontal)
            && free_area.less(item_area),
        None => false,
    }
}

/// Whether placing an item into a bin is clearly impossible: its smallest extent is wider than every
/// free band in both directions, and the bin does not even have the item's area free. Without a
/// known extent nothing is ruled out.
pub fn placement_is_hopeless(
    min_extent: Option<Scalar>,
    widest_vertical: Scalar,
    widest_horizontal: Scalar,
    free_area: Scalar,
    item_area: Scalar,
) -> (r: bool)
    ensures
        r == hopeless(min_extent, widest_vertical, widest_horizontal, free_area, item_area),
{
    match min_extent {
        Some(e) => {
            if e.le(widest_vertical) || e.le(widest_horizontal) {
                return false;
            }
            free_area.lt(item_area)
        },
        None => false,
    }
}

/// **The prefilter never costs a move**: a bin with enough free area for the item is not ruled out.
pub proof fn lemma_roomy_bins_are_tried(
    min_extent: Option<Scalar>,
    widest_vertical: Scalar,
    widest_horizontal: Scalar,
    free_area: Scalar,
    item_area: Scalar,
)
    requires
        item_area.less_or_equal(free_area),
    ensures
        !hopeless(min_extent, widest_vertical, widest_horizontal, free_area, item_area),
{
}

/// Whether a point lies in one of the spans; the far end of a span is not in it.
pub open spec fn lies_in(spans: Seq<(Scalar, Scalar)>, x: int) -> bool {
    exists|k: int|
        0 <= k < spans.len() && (#[trigger] spans[k]).0.value() <= x < spans[k].1.value()
}

proof fn lemma_clipping_keeps_points(
    spans: Seq<(Scalar, Scalar)>,
    lo: Scalar,
    hi: Scalar,
    n: nat,
    x: int,
)
    requires
        n <= spans.len(),
        !lo.nan(),
        !hi.nan(),
        lo.value() <= x < hi.value(),
        forall|k: int| 0 <= k < n ==> !(#[trigger] spans[k]).0.nan() && !spans[k].1.nan(),
    ensures
        lies_in(clipped_spans(spans, lo, hi, n), x) <==> lies_in(spans.take(n as int), x),
    decreases n,
{
    if n > 0 {
        lemma_clipping_keeps_points(spans, lo, hi, (n - 1) as nat, x);
        let before = clipped_spans(spans, lo, hi, (n - 1) as nat);
        let all = clipped_spans(spans, lo, hi, n);
        let c = clipped(spans[n - 1], lo, hi);
        let (shorter, longer) = (spans.take(n - 1), spans.take(n as int));
        let here = spans[n - 1].0.value() <= x < spans[n - 1].1.value();
        assert(longer[n - 1] == spans[n - 1]);
        if lies_in(all, x) {
            let k = choose|k: int|
                0 <= k < all.len() && (#[trigger] all[k]).0.value() <= x < all[k].1.value();
            if k < before.len() {
                assert(before[k] == all[k]);
                let j = choose|j: int|
                    0 <= j < shorter.len() && (#[trigger] shorter[j]).0.value() <= x
                        < shorter[j].1.value();
                assert(longer[j] == shorter[j]);
            } else {
                assert(all[k] == c);
                assert(here);
            }
        }
        if lies_in(longer, x) {
            let j = choose|j: int|
                0 <= j < longer.len() && (#[trigger] longer[j]).0.value() <= x < longer[j].1.value();
            if j < n - 1 {
                assert(shorter[j] == longer[j]);
                let k = choose|k: int|
                    0 <= k < before.len() && (#[trigger] before[k]).0.value() <= x
                        < before[k].1.value();
                assert(all[k] == before[k]);
            } else {
                assert(c.0.value() <= x < c.1.value());
                assert(all[before.len() as int] == c);
            }
        }
    } else {
        assert(spans.take(0).len() == 0);
    }
}

proof fn lemma_swept_points_are_spanned_or_free(
    spans: Seq<(Scalar, Scalar)>,
    lo: Scalar,
    n: nat,
    x: int,
)
    requires
        n <= spans.len(),
        !lo.nan(),
        forall|k: int| 0 <= k < spans.len() ==> (#[trigger] spans[k]).0.less(spans[k].1),
        lo.value() <= x < covered_to(spans, lo, n).value(),
    ensures
        lies_in(spans, x) || lies_in(gaps_before(spans, lo, n), x),
    decreases n,
{
    if n > 0 {
        let cursor = covered_to(spans, lo, (n - 1) as nat);
        let before = gaps_before(spans, lo, (n - 1) as nat);
        let all = gaps_before(spans, lo, n);
        lemma_covered_is_a_number(spans, lo, (n - 1) as nat);
        if x < cursor.value() {
            lemma_swept_points_are_spanned_or_free(spans, lo, (n - 1) as nat, x);
            if lies_in(before, x) {
                let k = choose|k: int|
                    0 <= k < before.len() && (#[trigger] before[k]).0.value() <= x
                        < before[k].1.value();
                assert(all[k] == before[k]);
            }
        } else if spans[n - 1].0.value() <= x {
            assert(spans[n - 1].0.value() <= x < spans[n - 1].1.value());
        } else {
            assert(all[before.len() as int] == (cursor, spans[n - 1].0));
        }
    }
}

proof fn lemma_covered_is_a_number(spans: Seq<(Scalar, Scalar)>, lo: Scalar, n: nat)
    requires
        n <= spans.len(),
        !lo.nan(),
        forall|k: int| 0 <= k < spans.len() ==> (#[trigger] spans[k]).0.less(spans[k].1),
    ensures
        !covered_to(spans, lo, n).nan(),
    decreases n,
{
    if n > 0 {
        lemma_covered_is_a_number(spans, lo, (n - 1) as nat);
    }
}

/// **The bands are exactly what the spans leave free**: a point of `lo..hi` lies in one of the bands if and
/// only if it lies in none of the spans, whatever order they come in and however they overlap.
pub proof fn lemma_free_bands_are_all_there_is(
    spans: Seq<(Scalar, Scalar)>,
    lo: Scalar,
    hi: Scalar,
    x: int,
)
    requires
        spans.len() <= usize::MAX,
        !lo.nan(),
        !hi.nan(),
        lo.value() <= x < hi.value(),
        forall|k: int| 0 <= k < spans.len() ==> !(#[trigger] spans[k]).0.nan() && !spans[k].1.nan(),
    ensures
        lies_in(free_bands_of(spans, lo, hi), x) <==> !lies_in(spans, x),
{
    let inside = clipped_spans(spans, lo, hi, spans.len());
    let bands = free_bands_of(spans, lo, hi);
    lemma_clipped(spans, lo, hi, spans.len());
    lemma_clipping_keeps_points(spans, lo, hi, spans.len(), x);
    assert(spans.take(spans.len() as int) =~= spans);
    let keys = start_keys(inside);
    order::lemma_order_exists(keys);
    let o = order::positions_in_order(keys);
    let sorted = sorted_spans(inside);
    assert forall|i: int| 0 <= i < sorted.len() implies (#[trigger] sorted[i]).0.less(
        sorted[i].1,
    ) by {
        assert(sorted[i] == inside[o[i] as int]);
    }
    if lies_in(bands, x) && lies_in(inside, x) {
        let g = choose|g: int|
            0 <= g < bands.len() && (#[trigger] bands[g]).0.value() <= x < bands[g].1.value();
        let k = choose|k: int|
            0 <= k < inside.len() && (#[trigger] inside[k]).0.value() <= x < inside[k].1.value();
        lemma_free_bands_are_free(spans, lo, hi, g, k);
    }
    if !lies_in(inside, x) {
        let gaps = gaps_before(sorted, lo, sorted.len());
        if lies_in(sorted, x) {
            let k = choose|k: int|
                0 <= k < sorted.len() && (#[trigger] sorted[k]).0.value() <= x
                    < sorted[k].1.value();
            assert(inside[o[k] as int] == sorted[k]);
        }
        if x < covered_to(sorted, lo, sorted.len()).value() {
            lemma_swept_points_are_spanned_or_free(sorted, lo, sorted.len(), x);
            let g = choose|g: int|
                0 <= g < gaps.len() && (#[trigger] gaps[g]).0.value() <= x < gaps[g].1.value();
            assert(bands[g] == gaps[g]);
        } else {
            assert(bands[gaps.len() as int] == (covered_to(sorted, lo, sorted.len()), hi));
        }
    }
}

/// **What is hopeless**: an item that fits a free band in one direction or the other is tried, and so is
/// one for whose area there is room, or whose extent is not known; any other one is not.
pub proof fn lemma_what_is_hopeless(
    extent: Scalar,
    widest_vertical: Scalar,
    widest_horizontal: Scalar,
    free_area: Scalar,
    item_area: Scalar,
)
    ensures
        !hopeless(None, widest_vertical, widest_horizontal, free_area, item_area),
        extent.less_or_equal(widest_vertical) ==> !hopeless(
            Some(extent),
            widest_vertical,
            widest_horizontal,
            free_area,
            item_area,
        ),
        extent.less_or_equal(widest_horizontal) ==> !hopeless(
            Some(extent),
            widest_vertical,
            widest_horizontal,
            free_area,
            item_area,
        ),
        widest_vertical.less(extent) && widest_horizontal.less(extent) && free_area.less(item_area)
            ==> hopeless(
            Some(extent),
            widest_vertical,
            widest_horizontal,
            free_area,
            item_area,
        ),
{
}

/// **A write-back opens one bin and fills it**: the first item goes into a fresh bin of the same type, and
/// all others into that one, each under its id of the instance.
pub proof fn lemma_write_back_opens_one_bin(
    global_ids: Seq<usize>,
    bin_id: usize,
    local_ids: Seq<usize>,
    i: int,
)
    requires
        0 <= i < local_ids.len(),
    ensures
        ({
            let p = write_placements(global_ids, bin_id, local_ids);
            &&& p.len() == local_ids.len()
            &&& p[i].0 == global_ids[local_ids[i] as int]
            &&& p[i].1 is Closed <==> i == 0
            &&& p[0].1 == (WriteTarget::Closed { bin_id })
        }),
{
}

} // verus!
