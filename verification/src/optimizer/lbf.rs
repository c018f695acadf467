//! Construction of a first solution: largest items first, each at the first place that is free.
use crate::optimizer::bpp::layouts;
use crate::order;
use crate::order::order_by;
use crate::scalar::Scalar;
use vstd::prelude::*;

verus! {

/// The sort keys of item types: largest score first.
pub open spec fn score_keys(scores: Seq<Scalar>) -> Seq<(u64, u64)> {
    scores.map_values(|s: Scalar| (layouts::descending(s), 0u64))
}

/// `n` copies of an item.
pub open spec fn copies(id: usize, n: nat) -> Seq<usize> {
    Seq::new(n, |i: int| id)
}

/// The first `m` item types of `order`, each repeated as often as it is demanded.
pub open spec fn expanded(order: Seq<usize>, demands: Seq<usize>, m: nat) -> Seq<usize>
    decreases m,
{
    if m == 0 {
        seq![]
    } else {
        expanded(order, demands, (m - 1) as nat) + copies(
            order[m - 1],
            demands[order[m - 1] as int] as nat,
        )
    }
}

/// The items in the order in which they are placed: by descending score, types of equal score in
/// the order of their ids, each repeated as often as it is demanded.
pub open spec fn placing_order(scores: Seq<Scalar>, demands: Seq<usize>) -> Seq<usize> {
    expanded(order::positions_in_order(score_keys(scores)), demands, scores.len())
}

/// The order in which the items are placed. A score is a type's convex hull area times its
/// diameter.
pub fn construct(scores: &Vec<Scalar>, demands: &Vec<usize>) -> (r: Vec<usize>)
    requires
        scores@.len() == demands@.len(),
    ensures
        r@ == placing_order(scores@, demands@),
{
    let mut keys: Vec<(u64, u64)> = Vec::new();
    let mut i: usize = 0;
    while i < scores.len()
        invariant
            i <= scores@.len(),
            keys@.len() == i,
            forall|k: int| 0 <= k < i ==> #[trigger] keys@[k] == score_keys(scores@)[k],
        decreases scores@.len() - i,
    {
        let k: u32 = u32::MAX - scores[i].order_key();
        keys.push((k as u64, 0));
        i = i + 1;
    }
    assert(keys@ =~= score_keys(scores@));
    let order = order_by(&keys);
    let mut r: Vec<usize> = Vec::new();
    let mut j: usize = 0;
    while j < order.len()
        invariant
            j <= order@.len(),
            forall|k: int| 0 <= k < order@.len() ==> (#[trigger] order@[k]) < demands@.len(),
            r@ == expanded(order@, demands@, j as nat),
        decreases order@.len() - j,
    {
        let id: usize = order[j];
        let n: usize = demands[id];
        let ghost before = r@;
        let mut c: usize = 0;
        while c < n
            invariant
                c <= n,
                r@ == before + copies(id, c as nat),
            decreases n - c,
        {
            r.push(id);
            assert(copies(id, (c + 1) as nat) =~= copies(id, c as nat).push(id));
            c = c + 1;
            assert(r@ =~= before + copies(id, c as nat));
        }
        j = j + 1;
    }
    r
}

proof fn lemma_copies_count(id: usize, n: nat, x: usize)
    ensures
        copies(id, n).to_multiset().count(x) == if x == id {
            n
        } else {
            0
        },
    decreases n,
{
    broadcast use vstd::seq_lib::group_to_multiset_ensures;
    if n > 0 {
        lemma_copies_count(id, (n - 1) as nat, x);
        assert(copies(id, n) =~= copies(id, (n - 1) as nat).push(id));
    } else {
        assert(copies(id, n) =~= Seq::empty());
    }
}

proof fn lemma_expanded_count(order: Seq<usize>, demands: Seq<usize>, m: nat, x: usize)
    requires
        m <= order.len(),
        order.no_duplicates(),
    ensures
        expanded(order, demands, m).to_multiset().count(x) == if order.take(m as int).contains(x) {
            demands[x as int] as nat
        } else {
            0
        },
    decreases m,
{
    broadcast use vstd::seq_lib::group_to_multiset_ensures;
    if m > 0 {
        let id = order[m - 1];
        let before = expanded(order, demands, (m - 1) as nat);
        let c = copies(id, demands[id as int] as nat);
        lemma_expanded_count(order, demands, (m - 1) as nat, x);
        lemma_copies_count(id, demands[id as int] as nat, x);
        vstd::seq_lib::lemma_multiset_commutative(before, c);
        let shorter = order.take(m - 1);
        let longer = order.take(m as int);
        assert(longer =~= shorter.push(id));
        if shorter.contains(x) {
            let k = choose|k: int| 0 <= k < shorter.len() && shorter[k] == x;
            assert(longer[k] == x);
            assert(order[k] == x);
        }
        if x == id {
            assert(longer[m - 1] == x);
        }
        if longer.contains(x) && x != id {
            let k = choose|k: int| 0 <= k < longer.len() && longer[k] == x;
            assert(shorter[k] == x);
        }
    } else {
        assert(expanded(order, demands, m) =~= Seq::empty());
        assert(order.take(0) =~= Seq::empty());
    }
}

/// **The order covers the demand exactly**: every item type occurs as often as it is demanded.
pub proof fn lemma_order_covers_the_demand(scores: Seq<Scalar>, demands: Seq<usize>, id: usize)
    requires
        scores.len() == demands.len(),
        id < scores.len() <= usize::MAX,
    ensures
        placing_order(scores, demands).to_multiset().count(id) == demands[id as int],
{
    let keys = score_keys(scores);
    order::lemma_order_exists(keys);
    let o = order::positions_in_order(keys);
    assert(o.contains(id));
    let k = choose|k: int| 0 <= k < o.len() && o[k] == id;
    assert(o.take(o.len() as int) =~= o);
    assert(o.no_duplicates());
    lemma_expanded_count(o, demands, scores.len(), id);
}

/// What the constructor does with the next item.
#[derive(Debug, Clone, Copy, PartialEq, Eq, Structural)]
pub enum PlaceStep {
    /// Place it where the search found room.
    Place,
    /// Widen the strip and search again.
    Widen,
    /// Give up: the strip was widened beyond all measure, so the item does not seem to fit.
    RunningAway,
}

/// What the constructor does with an item: it is placed where there is room, and the strip is widened
/// as long as there is none and its width is in check.
pub fn place_item(found: bool, width_in_check: bool) -> (r: PlaceStep)
    ensures
        r is Place <==> found,
        r is RunningAway ==> !width_in_check,
        r is Widen ==> width_in_check,
        r == if found {
            PlaceStep::Place
        } else if width_in_check {
            PlaceStep::Widen
        } else {
            PlaceStep::RunningAway
        },
{
    if found {
        PlaceStep::Place
    } else if width_in_check {
        PlaceStep::Widen
    } else {
        PlaceStep::RunningAway
    }
}

proof fn lemma_expanded_keeps_order(order: Seq<usize>, demands: Seq<usize>, m: nat, i: int, j: int) -> (r: (
    int,
    int,
))
    requires
        m <= order.len(),
        0 <= i <= j < expanded(order, demands, m).len(),
    ensures
        0 <= r.0 <= r.1 < m,
        expanded(order, demands, m)[i] == order[r.0],
        expanded(order, demands, m)[j] == order[r.1],
    decreases m,
{
    if m == 0 {
        (0, 0)
    } else {
        let before = expanded(order, demands, (m - 1) as nat);
        if j < before.len() {
            lemma_expanded_keeps_order(order, demands, (m - 1) as nat, i, j)
        } else if i < before.len() {
            let (a, _) = lemma_expanded_keeps_order(order, demands, (m - 1) as nat, i, i);
            (a, m - 1)
        } else {
            (m - 1, m - 1)
        }
    }
}

/// **Items are placed by descending score**: no item is placed before one with a larger score, and items
/// of the same score are placed in the order of their ids, all copies of one in a row.
pub proof fn lemma_larger_items_are_placed_first(
    scores: Seq<Scalar>,
    demands: Seq<usize>,
    i: int,
    j: int,
)
    requires
        scores.len() == demands.len(),
        scores.len() <= usize::MAX,
        0 <= i < j < placing_order(scores, demands).len(),
    ensures
        ({
            let r = placing_order(scores, demands);
            let (a, b) = (r[i], r[j]);
            &&& a < scores.len() && b < scores.len()
            &&& !scores[a as int].less(scores[b as int])
            &&& scores[a as int] == scores[b as int] ==> a <= b
        }),
{
    let keys = score_keys(scores);
    order::lemma_order_exists(keys);
    let o = order::positions_in_order(keys);
    let (p, q) = lemma_expanded_keeps_order(o, demands, scores.len(), i, j);
    if p < q {
        assert(order::key_less(order::full_key(keys, o[p]), order::full_key(keys, o[q])));
    }
    crate::scalar::lemma_key_is_order(scores[o[p] as int], scores[o[q] as int]);
}

} // verus!
