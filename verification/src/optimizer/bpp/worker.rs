//! One worker of the separator: which items it moves, and how it follows the master.
use crate::keymap::KeyMap;
use crate::optimizer::bpp::layouts;
use crate::optimizer::bpp::layouts::{LayKey, LayoutState, PItemKey, PlacedItem};
use crate::optimizer::bpp::trackers;
use crate::optimizer::bpp::trackers::{follow, TrackerSync};
use crate::random::shuffle;
use crate::scalar::Scalar;
use rand::rngs::Xoshiro256PlusPlus;
use vstd::prelude::*;

verus! {

/// An item that collides, and the layout it is placed in.
#[derive(Debug, Clone, Copy, PartialEq, Eq, Structural)]
pub struct Candidate {
    /// The layout.
    pub layout: LayKey,
    /// The item.
    pub item: PItemKey,
}

/// Whether a loss means a collision.
pub open spec fn collides(loss: Scalar) -> bool {
    !loss.nan() && loss.value() > 0
}

/// The colliding ones among the first `n` items of a layout.
pub open spec fn colliding_in(l: LayoutState, losses: Seq<Scalar>, n: nat) -> Seq<Candidate>
    decreases n,
{
    if n == 0 {
        seq![]
    } else {
        let before = colliding_in(l, losses, (n - 1) as nat);
        if collides(losses[n - 1]) {
            before.push(Candidate { layout: l.key, item: l.items@[n - 1].key })
        } else {
            before
        }
    }
}

/// The colliding items of the first `n` layouts.
pub open spec fn colliding(
    layouts: Seq<LayoutState>,
    losses: Seq<Vec<Scalar>>,
    n: nat,
) -> Seq<Candidate>
    decreases n,
{
    if n == 0 {
        seq![]
    } else {
        colliding(layouts, losses, (n - 1) as nat) + colliding_in(
            layouts[n - 1],
            losses[n - 1]@,
            layouts[n - 1].items@.len(),
        )
    }
}

/// There is one loss for every item of every layout.
pub open spec fn losses_cover(layouts: Seq<LayoutState>, losses: Seq<Vec<Scalar>>) -> bool {
    &&& losses.len() == layouts.len()
    &&& forall|i: int|
        0 <= i < layouts.len() ==> (#[trigger] losses[i])@.len() == layouts[i].items@.len()
}

/// All colliding items over all layouts, in slot order.
pub fn colliding_items(layouts: &Vec<LayoutState>, losses: &Vec<Vec<Scalar>>) -> (r: Vec<Candidate>)
    requires
        losses_cover(layouts@, losses@),
    ensures
        r@ == colliding(layouts@, losses@, layouts@.len()),
{
    let mut r: Vec<Candidate> = Vec::new();
    let mut i: usize = 0;
    while i < layouts.len()
        invariant
            i <= layouts@.len(),
            losses_cover(layouts@, losses@),
            r@ == colliding(layouts@, losses@, i as nat),
        decreases layouts@.len() - i,
    {
        let l = &layouts[i];
        let ghost before = r@;
        let mut j: usize = 0;
        assert(losses@[i as int]@.len() == layouts@[i as int].items@.len());
        while j < l.items.len()
            invariant
                i < layouts@.len(),
                *l == layouts@[i as int],
                j <= l.items@.len(),
                losses@.len() == layouts@.len(),
                losses@[i as int]@.len() == l.items@.len(),
                r@ == before + colliding_in(*l, losses@[i as int]@, j as nat),
            decreases l.items@.len() - j,
        {
            if losses[i][j].is_positive() {
                r.push(Candidate { layout: l.key, item: l.items[j].key });
            }
            j = j + 1;
            assert(r@ =~= before + colliding_in(*l, losses@[i as int]@, j as nat));
        }
        i = i + 1;
    }
    r
}

/// The items that a worker gives an opportunity to move: every colliding one, in a random order.
pub fn move_items(
    layouts: &Vec<LayoutState>,
    losses: &Vec<Vec<Scalar>>,
    rng: &mut Xoshiro256PlusPlus,
) -> (r: Vec<Candidate>)
    requires
        losses_cover(layouts@, losses@),
    ensures
        r@.to_multiset() == colliding(layouts@, losses@, layouts@.len()).to_multiset(),
{
    let mut r = colliding_items(layouts, losses);
    shuffle(&mut r, rng);
    r
}

/// Where an item goes back to after it was removed from its layout.
#[derive(Debug, Clone, Copy, PartialEq, Eq, Structural)]
pub enum Reopen {
    /// The layout survived the removal.
    Same(LayKey),
    /// The layout held only this item and was closed: open a layout of the same bin type.
    Fresh {
        /// The bin type.
        bin_id: usize,
    },
}

/// Where to re-place an item that is moved within its layout.
pub fn move_item(layout: &LayoutState) -> (r: Reopen)
    ensures
        r is Fresh <==> layout.items@.len() < 2,
        r == if layout.items@.len() >= 2 {
            Reopen::Same(layout.key)
        } else {
            Reopen::Fresh { bin_id: layout.bin_id }
        },
{
    if layout.items.len() >= 2 {
        Reopen::Same(layout.key)
    } else {
        Reopen::Fresh { bin_id: layout.bin_id }
    }
}

/// Lets the trackers of a worker follow those of the master after its problem was restored: a tracker
/// that is there already is overwritten, one that is not is copied.
pub fn load(own: &mut KeyMap, keys_changed: bool, master: &KeyMap, layouts: &Vec<LayoutState>) -> (r:
    TrackerSync)
    requires
        old(own).wf(),
        trackers::sound_layouts(layouts@),
        !keys_changed ==> trackers::within(*master, layouts@),
    ensures
        final(own).wf(),
        trackers::is_sync(r, keys_changed, *old(own), *final(own), Some(*master), layouts@),
{
    follow(own, keys_changed, Some(master), layouts)
}

/// A coordinate, kept within a range if there is one; one that is empty leaves it as it is.
pub open spec fn kept_within(v: Scalar, low: Scalar, high: Scalar) -> Scalar {
    if !low.less_or_equal(high) {
        v
    } else if v.less(low) {
        low
    } else if high.less(v) {
        high
    } else {
        v
    }
}

/// Whether two numbers differ as numbers: a value that is not a number differs from every one.
pub open spec fn differ(a: Scalar, b: Scalar) -> bool {
    a.nan() || b.nan() || a.value() != b.value()
}

fn keep_within(v: Scalar, low: Scalar, high: Scalar) -> (r: Scalar)
    ensures
        r == kept_within(v, low, high),
{
    if !low.le(high) {
        v
    } else if v.lt(low) {
        low
    } else if high.lt(v) {
        high
    } else {
        v
    }
}

/// Where an item may be moved to without leaving the container, in one direction.
#[derive(Debug, Clone, Copy, PartialEq, Eq, Structural)]
pub struct Range {
    /// Smallest coordinate.
    pub low: Scalar,
    /// Largest coordinate.
    pub high: Scalar,
}

/// Keeps a placement inside the container, by its translation alone. A direction in which the item is
/// longer than the container has an empty range, and is left as it is.
///
/// Returns the translation and whether it is another one.
pub fn clamp_to_container(x: Scalar, y: Scalar, xs: Range, ys: Range) -> (r: (Scalar, Scalar, bool))
    ensures
        r.0 == kept_within(x, xs.low, xs.high),
        r.1 == kept_within(y, ys.low, ys.high),
        r.2 == (differ(r.0, x) || differ(r.1, y)),
{
    let (cx, cy) = (keep_within(x, xs.low, xs.high), keep_within(y, ys.low, ys.high));
    let same_x: bool = cx.le(x) && x.le(cx);
    let same_y: bool = cy.le(y) && y.le(cy);
    (cx, cy, !same_x || !same_y)
}

/// **What can be kept inside is kept inside**: with a range that is not empty, a coordinate that is a
/// number ends up in it.
pub proof fn lemma_kept_inside(v: Scalar, low: Scalar, high: Scalar)
    requires
        !v.nan(),
        low.less_or_equal(high),
    ensures
        low.less_or_equal(kept_within(v, low, high)),
        kept_within(v, low, high).less_or_equal(high),
{
}

/// **The colliding items of a layout are those with some loss**, each once and in order.
pub proof fn lemma_colliding_items_have_loss(l: LayoutState, losses: Seq<Scalar>, n: nat)
    requires
        n <= l.items@.len(),
        n <= losses.len(),
    ensures
        colliding_in(l, losses, n) == Seq::new(n, |i: int| i).filter(
            |i: int| !losses[i].nan() && losses[i].value() > 0,
        ).map_values(|i: int| Candidate { layout: l.key, item: l.items@[i].key }),
    decreases n,
{
    reveal(Seq::filter);
    let pred = |i: int| !losses[i].nan() && losses[i].value() > 0;
    let f = |i: int| Candidate { layout: l.key, item: l.items@[i].key };
    if n > 0 {
        lemma_colliding_items_have_loss(l, losses, (n - 1) as nat);
        let before = Seq::new((n - 1) as nat, |i: int| i);
        let all = Seq::new(n, |i: int| i);
        assert(all.drop_last() =~= before);
        assert(all.last() == n - 1);
        if pred(n - 1) {
            assert(all.filter(pred) =~= before.filter(pred).push(n - 1));
            assert(before.filter(pred).push(n - 1).map_values(f) =~= before.filter(pred).map_values(
                f,
            ).push(f(n - 1)));
        }
    } else {
        assert(Seq::new(n, |i: int| i).filter(pred).map_values(f) =~= seq![]);
    }
}

/// **An item is given the opportunity to move if and only if it collides**: a candidate is listed exactly
/// if it is an item of an open layout with some loss.
pub proof fn lemma_every_colliding_item_is_listed(
    layouts: Seq<LayoutState>,
    losses: Seq<Vec<Scalar>>,
    n: nat,
    c: Candidate,
)
    requires
        losses_cover(layouts, losses),
        n <= layouts.len(),
    ensures
        colliding(layouts, losses, n).contains(c) <==> exists|i: int, j: int|
            0 <= i < n && 0 <= j < layouts[i].items@.len() && layouts[i].key == c.layout && (
            #[trigger] layouts[i].items@[j]).key == c.item && !losses[i]@[j].nan()
                && losses[i]@[j].value() > 0,
    decreases n,
{
    if n > 0 {
        lemma_every_colliding_item_is_listed(layouts, losses, (n - 1) as nat, c);
        let before = colliding(layouts, losses, (n - 1) as nat);
        let l = layouts[n - 1];
        let here = colliding_in(l, losses[n - 1]@, l.items@.len());
        let all = colliding(layouts, losses, n);
        assert(losses[n - 1]@.len() == l.items@.len());
        lemma_listed_in_a_layout(l, losses[n - 1]@, l.items@.len(), c);
        if all.contains(c) {
            let k = choose|k: int| 0 <= k < all.len() && all[k] == c;
            if k < before.len() {
                assert(before[k] == c);
            } else {
                assert(here[k - before.len()] == c);
            }
        }
        if before.contains(c) {
            let k = choose|k: int| 0 <= k < before.len() && before[k] == c;
            assert(all[k] == c);
        }
        if here.contains(c) {
            let k = choose|k: int| 0 <= k < here.len() && here[k] == c;
            assert(all[before.len() + k] == c);
        }
        if exists|i: int, j: int|
            0 <= i < n && 0 <= j < layouts[i].items@.len() && layouts[i].key == c.layout && (
            #[trigger] layouts[i].items@[j]).key == c.item && !losses[i]@[j].nan()
                && losses[i]@[j].value() > 0 {
            let (i, j) = choose|i: int, j: int|
                0 <= i < n && 0 <= j < layouts[i].items@.len() && layouts[i].key == c.layout && (
                #[trigger] layouts[i].items@[j]).key == c.item && !losses[i]@[j].nan()
                    && losses[i]@[j].value() > 0;
            if i == n - 1 {
                assert(l.items@[j].key == c.item);
                assert(here.contains(c));
            } else {
                assert(before.contains(c));
            }
        }
    }
}

proof fn lemma_listed_in_a_layout(l: LayoutState, losses: Seq<Scalar>, n: nat, c: Candidate)
    requires
        n <= l.items@.len(),
    ensures
        colliding_in(l, losses, n).contains(c) <==> exists|j: int|
            0 <= j < n && l.key == c.layout && (#[trigger] l.items@[j]).key == c.item && collides(
                losses[j],
            ),
    decreases n,
{
    if n > 0 {
        lemma_listed_in_a_layout(l, losses, (n - 1) as nat, c);
        let before = colliding_in(l, losses, (n - 1) as nat);
        let all = colliding_in(l, losses, n);
        if all.contains(c) {
            let k = choose|k: int| 0 <= k < all.len() && all[k] == c;
            if k < before.len() {
                assert(before[k] == c);
            } else {
                assert(l.items@[n - 1].key == c.item);
            }
        }
        if before.contains(c) {
            let k = choose|k: int| 0 <= k < before.len() && before[k] == c;
            assert(all[k] == c);
        }
        if exists|j: int|
            0 <= j < n && l.key == c.layout && (#[trigger] l.items@[j]).key == c.item && collides(
                losses[j],
            ) {
            let j = choose|j: int|
                0 <= j < n && l.key == c.layout && (#[trigger] l.items@[j]).key == c.item
                    && collides(losses[j]);
            if j == n - 1 {
                assert(all[before.len() as int] == c);
            } else {
                assert(before.contains(c));
            }
        }
    }
}

/// **What is inside stays, and what is outside goes to the nearer end.**
pub proof fn lemma_kept_at_the_nearer_end(v: Scalar, low: Scalar, high: Scalar)
    requires
        low.less_or_equal(high),
    ensures
        low.less_or_equal(v) && v.less_or_equal(high) ==> kept_within(v, low, high) == v,
        v.less(low) ==> kept_within(v, low, high) == low,
        high.less(v) ==> kept_within(v, low, high) == high,
{
}

/// **A translation counts as another one exactly if it differs as a number.**
pub proof fn lemma_when_a_translation_differs(a: Scalar, b: Scalar)
    ensures
        !a.nan() && !b.nan() ==> (differ(a, b) <==> a.less(b) || b.less(a)),
        a.nan() || b.nan() ==> differ(a, b),
{
}

} // verus!
