//! Disrupting a solution: swapping two large items of one layout, together with what they contain.
use crate::optimizer::bpp::layouts::PItemKey;
use crate::random::choose_one;
use crate::scalar::Scalar;
use rand::rngs::Xoshiro256PlusPlus;
use vstd::prelude::*;

verus! {

/// The positions below `n` at which `flags` holds.
pub open spec fn flagged(flags: Seq<bool>, n: nat) -> Seq<usize>
    decreases n,
{
    if n == 0 {
        seq![]
    } else {
        let before = flagged(flags, (n - 1) as nat);
        if flags[n - 1] {
            before.push((n - 1) as usize)
        } else {
            before
        }
    }
}

proof fn lemma_flagged(flags: Seq<bool>, n: nat)
    requires
        n <= flags.len() <= usize::MAX,
    ensures
        forall|p: usize| #[trigger] flagged(flags, n).contains(p) == (p < n && flags[p as int]),
    decreases n,
{
    if n > 0 {
        let before = flagged(flags, (n - 1) as nat);
        lemma_flagged(flags, (n - 1) as nat);
        assert forall|p: usize| #[trigger] flagged(flags, n).contains(p) == (p < n
            && flags[p as int]) by {
            if flags[n - 1] {
                let all = before.push((n - 1) as usize);
                if before.contains(p) {
                    let k = choose|k: int| 0 <= k < before.len() && before[k] == p;
                    assert(all[k] == p);
                }
                if p == n - 1 {
                    assert(all[before.len() as int] == p);
                }
                if all.contains(p) {
                    let k = choose|k: int| 0 <= k < all.len() && all[k] == p;
                    if k < before.len() {
                        assert(before[k] == p);
                    }
                }
            }
        }
    }
}

fn positions(flags: &Vec<bool>) -> (r: Vec<usize>)
    ensures
        r@ == flagged(flags@, flags@.len()),
{
    let mut r: Vec<usize> = Vec::new();
    let mut i: usize = 0;
    while i < flags.len()
        invariant
            i <= flags@.len(),
            r@ == flagged(flags@, i as nat),
        decreases flags@.len() - i,
    {
        if flags[i] {
            r.push(i);
        }
        i = i + 1;
    }
    r
}

/// Picks a position at which `flags` holds, at random; `None` if there is none.
pub fn choose_flagged(flags: &Vec<bool>, rng: &mut Xoshiro256PlusPlus) -> (r: Option<usize>)
    ensures
        match r {
            Some(p) => p < flags@.len() && flags@[p as int],
            None => forall|i: int| 0 <= i < flags@.len() ==> !(#[trigger] flags@[i]),
        },
{
    let n: usize = flags.len();
    let list = positions(flags);
    let r = choose_one(&list, rng);
    proof {
        lemma_flagged(flags@, n as nat);
        if r is None {
            assert forall|i: int| 0 <= i < flags@.len() implies !(#[trigger] flags@[i]) by {
                if flags@[i] {
                    assert(list@.contains(i as usize));
                }
            }
        }
    }
    r
}

/// Picks the layout to disrupt: one with at least two items.
pub fn choose_layout(n_items: &Vec<usize>, rng: &mut Xoshiro256PlusPlus) -> (r: Option<usize>)
    ensures
        match r {
            Some(p) => p < n_items@.len() && n_items@[p as int] >= 2,
            None => forall|i: int| 0 <= i < n_items@.len() ==> (#[trigger] n_items@[i]) < 2,
        },
{
    let mut flags: Vec<bool> = Vec::new();
    let mut i: usize = 0;
    while i < n_items.len()
        invariant
            i <= n_items@.len(),
            flags@.len() == i,
            forall|k: int| 0 <= k < i ==> #[trigger] flags@[k] == (n_items@[k] >= 2),
        decreases n_items@.len() - i,
    {
        flags.push(n_items[i] >= 2);
        i = i + 1;
    }
    let r = choose_flagged(&flags, rng);
    assert(r is None ==> forall|i: int| 0 <= i < n_items@.len() ==> !flags@[i] && (#[trigger] n_items@[
        i
    ]) < 2);
    r
}

/// Which items are large: those whose convex hull area reaches the cutoff.
pub fn large_items(hull_areas: &Vec<Scalar>, cutoff: Scalar) -> (r: Vec<bool>)
    ensures
        r@ == hull_areas@.map_values(|a: Scalar| cutoff.less_or_equal(a)),
{
    let mut r: Vec<bool> = Vec::new();
    let mut i: usize = 0;
    while i < hull_areas.len()
        invariant
            i <= hull_areas@.len(),
            r@.len() == i,
            forall|k: int| 0 <= k < i ==> #[trigger] r@[k] == cutoff.less_or_equal(hull_areas@[k]),
        decreases hull_areas@.len() - i,
    {
        r.push(cutoff.le(hull_areas[i]));
        i = i + 1;
    }
    assert(r@ =~= hull_areas@.map_values(|a: Scalar| cutoff.less_or_equal(a)));
    r
}

/// Another item than the first one, large and different enough from it.
pub open spec fn suits(large: Seq<bool>, different: Seq<bool>, first: usize, p: int) -> bool {
    p != first && large[p] && different[p]
}

/// The item at `p` may be swapped with the first one: it is another one, and large and different
/// enough unless no other item is.
pub open spec fn may_swap(large: Seq<bool>, different: Seq<bool>, first: usize, p: int) -> bool {
    &&& p != first
    &&& suits(large, different, first, p) || forall|i: int|
        0 <= i < large.len() ==> !#[trigger] suits(large, different, first, i)
}

/// Picks the partner of item `first`: a large one that is different enough from it, otherwise any
/// other item; `None` if there is no other item.
pub fn choose_partner(
    first: usize,
    large: &Vec<bool>,
    different: &Vec<bool>,
    rng: &mut Xoshiro256PlusPlus,
) -> (r: Option<usize>)
    requires
        large@.len() == different@.len(),
        first < large@.len(),
    ensures
        match r {
            Some(p) => p < large@.len() && may_swap(large@, different@, first, p as int),
            None => large@.len() == 1,
        },
{
    let mut both: Vec<bool> = Vec::new();
    let mut others: Vec<bool> = Vec::new();
    let mut i: usize = 0;
    while i < large.len()
        invariant
            i <= large@.len(),
            large@.len() == different@.len(),
            both@.len() == i,
            others@.len() == i,
            forall|k: int|
                0 <= k < i ==> #[trigger] both@[k] == suits(large@, different@, first, k),
            forall|k: int| 0 <= k < i ==> #[trigger] others@[k] == (k != first),
        decreases large@.len() - i,
    {
        both.push(i != first && large[i] && different[i]);
        others.push(i != first);
        i = i + 1;
    }
    match choose_flagged(&both, rng) {
        Some(p) => Some(p),
        None => {
            assert forall|i: int| 0 <= i < large@.len() implies !#[trigger] suits(
                large@,
                different@,
                first,
                i,
            ) by {
                assert(!both@[i]);
            }
            let r = choose_flagged(&others, rng);
            proof {
                if r is None {
                    if large@.len() > 1 {
                        let q: int = if first == 0 {
                            1
                        } else {
                            0
                        };
                        assert(others@[q]);
                    }
                }
            }
            r
        },
    }
}

/// The first position at which the running total exceeds the threshold.
pub open spec fn is_first_above(totals: Seq<Scalar>, threshold: Scalar, p: int) -> bool {
    &&& 0 <= p < totals.len()
    &&& threshold.less(totals[p])
    &&& forall|i: int| 0 <= i < p ==> !threshold.less(#[trigger] totals[i])
}

/// Finds the item that tips the balance: the first one at which the running total of the hull
/// areas, largest first, exceeds the threshold.
pub fn cutoff_position(totals: &Vec<Scalar>, threshold: Scalar) -> (r: Option<usize>)
    ensures
        match r {
            Some(p) => is_first_above(totals@, threshold, p as int),
            None => forall|i: int| 0 <= i < totals@.len() ==> !threshold.less(#[trigger] totals@[i]),
        },
{
    let mut i: usize = 0;
    while i < totals.len()
        invariant
            i <= totals@.len(),
            forall|k: int| 0 <= k < i ==> !threshold.less(#[trigger] totals@[k]),
        decreases totals@.len() - i,
    {
        if threshold.lt(totals[i]) {
            return Some(i);
        }
        i = i + 1;
    }
    None
}

/// Why a disruption was abandoned.
#[derive(Debug, Clone, Copy, PartialEq, Eq, Structural)]
pub enum DisruptStop {
    /// No layout holds two items.
    NoLayout,
    /// The layout holds fewer than two items.
    TooFewItems,
    /// No item of the layout is large.
    NoLargeItem,
}

/// What a disruption waits for.
#[derive(Debug, Clone, Copy, PartialEq, Eq, Structural)]
pub enum DisruptStage {
    /// The sizes of the layouts.
    Layouts,
    /// The items of the chosen layout.
    Items,
    /// How the other items compare to the first one.
    Partner,
    /// The keys of the two items after the swap.
    Swapping,
    /// What collides with the first item.
    FirstContents,
    /// What collides with the second item.
    SecondContents,
    /// Nothing: the disruption is over.
    Done,
}

/// Progress of a disruption.
#[derive(Debug, Clone)]
pub struct Disruption {
    /// What it waits for.
    pub stage: DisruptStage,
    /// Position of the chosen layout.
    pub layout: usize,
    /// Keys of the layout's items.
    pub keys: Vec<PItemKey>,
    /// Which of them are large.
    pub large: Vec<bool>,
    /// Position of the first item to swap.
    pub first: usize,
    /// Key of the first item after the swap.
    pub one: PItemKey,
    /// Key of the second item after the swap.
    pub two: PItemKey,
}

/// A disruption, as a mathematical value.
pub ghost struct DisruptionView {
    /// What it waits for.
    pub stage: DisruptStage,
    /// Position of the chosen layout.
    pub layout: usize,
    /// Keys of the layout's items.
    pub keys: Seq<PItemKey>,
    /// Which of them are large.
    pub large: Seq<bool>,
    /// Position of the first item to swap.
    pub first: usize,
    /// Key of the first item after the swap.
    pub one: PItemKey,
    /// Key of the second item after the swap.
    pub two: PItemKey,
}

impl View for Disruption {
    type V = DisruptionView;

    open spec fn view(&self) -> DisruptionView {
        DisruptionView {
            stage: self.stage,
            layout: self.layout,
            keys: self.keys@,
            large: self.large@,
            first: self.first,
            one: self.one,
            two: self.two,
        }
    }
}

/// What the engine reports to a disruption.
#[derive(Debug, Clone)]
pub enum DisruptEvent {
    /// How many items each layout holds.
    Layouts {
        /// The item counts.
        n_items: Vec<usize>,
    },
    /// The items of the layout.
    Items {
        /// Their keys.
        keys: Vec<PItemKey>,
        /// Their convex hull areas.
        hull_areas: Vec<Scalar>,
        /// The hull area from which an item is large.
        cutoff: Scalar,
    },
    /// Which items differ from the first one in area and in diameter.
    Compared {
        /// One flag per item.
        different: Vec<bool>,
    },
    /// The two items have changed places.
    Swapped {
        /// New key of the first item.
        one: PItemKey,
        /// New key of the second item.
        two: PItemKey,
    },
    /// The items that collide with the item asked for.
    Contents {
        /// Each with whether its point of inaccessibility lies inside that item.
        hits: Vec<(PItemKey, bool)>,
    },
}

/// What the engine has to do next in a disruption.
#[derive(Debug, Clone)]
pub enum DisruptAction {
    /// Leave the solution as it is.
    GiveUp(DisruptStop),
    /// Report the items of this layout.
    Measure {
        /// Position of the layout.
        layout: usize,
    },
    /// Compare every item of the layout with this one.
    Compare {
        /// Position of the item.
        first: usize,
    },
    /// Let the two items change places.
    Swap {
        /// Key of the first item.
        one: PItemKey,
        /// Key of the second item.
        two: PItemKey,
    },
    /// Report what collides with this item.
    Collide {
        /// Key of the item.
        item: PItemKey,
    },
    /// Move these items along, then report what collides with `next`, if there is one.
    Drag {
        /// Keys of the items.
        items: Vec<PItemKey>,
        /// The item to look into next.
        next: Option<PItemKey>,
    },
}

/// The items inside `container`, except for `other`, among the first `n` hits.
pub open spec fn contained(
    hits: Seq<(PItemKey, bool)>,
    container: PItemKey,
    other: PItemKey,
    n: nat,
) -> Seq<PItemKey>
    decreases n,
{
    if n == 0 {
        seq![]
    } else {
        let before = contained(hits, container, other, (n - 1) as nat);
        let (key, inside) = hits[n - 1];
        if inside && key != container && key != other {
            before.push(key)
        } else {
            before
        }
    }
}

/// Collects the items whose point of inaccessibility lies inside `container`, except for `other`.
pub fn practically_contained_items(
    hits: &Vec<(PItemKey, bool)>,
    container: PItemKey,
    other: PItemKey,
) -> (r: Vec<PItemKey>)
    ensures
        r@ == contained(hits@, container, other, hits@.len()),
{
    let mut r: Vec<PItemKey> = Vec::new();
    let mut i: usize = 0;
    while i < hits.len()
        invariant
            i <= hits@.len(),
            r@ == contained(hits@, container, other, i as nat),
        decreases hits@.len() - i,
    {
        let (key, inside) = hits[i];
        if inside && key != container && key != other {
            r.push(key);
        }
        i = i + 1;
    }
    r
}

/// **The swapped items stay where they were swapped to**: neither is among the items that are
/// moved along, which are all inside the item they are moved along with.
pub proof fn lemma_drag_spares_the_swapped(
    hits: Seq<(PItemKey, bool)>,
    container: PItemKey,
    other: PItemKey,
    n: nat,
)
    requires
        n <= hits.len(),
    ensures
        !contained(hits, container, other, n).contains(container),
        !contained(hits, container, other, n).contains(other),
        forall|k: PItemKey| #[trigger]
            contained(hits, container, other, n).contains(k) ==> hits.contains((k, true)),
    decreases n,
{
    if n > 0 {
        lemma_drag_spares_the_swapped(hits, container, other, (n - 1) as nat);
        let before = contained(hits, container, other, (n - 1) as nat);
        let all = contained(hits, container, other, n);
        assert forall|k: PItemKey| #[trigger] all.contains(k) implies before.contains(k) || (
        hits[n - 1] == (k, true) && k != container && k != other) by {
            let i = choose|i: int| 0 <= i < all.len() && all[i] == k;
            if i < before.len() {
                assert(before[i] == k);
            }
        }
    }
}

/// Whether the stage waits for this kind of event, and the event is consistent in itself.
pub open spec fn disruption_expects(s: DisruptionView, event: DisruptEvent) -> bool {
    match s.stage {
        DisruptStage::Layouts => event is Layouts,
        DisruptStage::Items => event matches DisruptEvent::Items { keys, hull_areas, .. }
            && keys@.len() == hull_areas@.len(),
        DisruptStage::Partner => event matches DisruptEvent::Compared { different }
            && different@.len() == s.large.len(),
        DisruptStage::Swapping => event is Swapped,
        DisruptStage::FirstContents | DisruptStage::SecondContents => event is Contents,
        DisruptStage::Done => false,
    }
}

/// The first item is one of the layout's items.
pub open spec fn disruption_wf(s: DisruptionView) -> bool {
    &&& s.large.len() == s.keys.len()
    &&& s.stage is Partner ==> s.first < s.keys.len() && s.large[s.first as int] && s.keys.len()
        >= 2
}

/// What a disruption may do on an event. The two random choices leave more than one outcome open.
pub open spec fn disruption_allows(
    s: DisruptionView,
    event: DisruptEvent,
    t: DisruptionView,
    action: DisruptAction,
) -> bool {
    match event {
        DisruptEvent::Layouts { n_items } => match action {
            DisruptAction::GiveUp(why) => {
                &&& why == DisruptStop::NoLayout
                &&& forall|i: int| 0 <= i < n_items@.len() ==> (#[trigger] n_items@[i]) < 2
                &&& t == DisruptionView { stage: DisruptStage::Done, ..s }
            },
            DisruptAction::Measure { layout } => {
                &&& layout < n_items@.len() && n_items@[layout as int] >= 2
                &&& t == DisruptionView { stage: DisruptStage::Items, layout, ..s }
            },
            _ => false,
        },
        DisruptEvent::Items { keys, hull_areas, cutoff } => {
            let large = hull_areas@.map_values(|a: Scalar| cutoff.less_or_equal(a));
            let seen = DisruptionView { keys: keys@, large, ..s };
            match action {
                DisruptAction::GiveUp(why) => {
                    &&& why == (if keys@.len() < 2 {
                        DisruptStop::TooFewItems
                    } else {
                        DisruptStop::NoLargeItem
                    })
                    &&& keys@.len() < 2 || forall|i: int| 0 <= i < large.len() ==> !(
                    #[trigger] large[i])
                    &&& t == DisruptionView { stage: DisruptStage::Done, ..seen }
                },
                DisruptAction::Compare { first } => {
                    &&& keys@.len() >= 2
                    &&& first < keys@.len() && large[first as int]
                    &&& t == DisruptionView { stage: DisruptStage::Partner, first, ..seen }
                },
                _ => false,
            }
        },
        DisruptEvent::Compared { different } => match action {
            DisruptAction::Swap { one, two } => {
                &&& one == s.keys[s.first as int]
                &&& exists|p: int|
                    {
                        &&& 0 <= p < s.keys.len()
                        &&& two == #[trigger] s.keys[p]
                        &&& may_swap(s.large, different@, s.first, p)
                    }
                &&& t == DisruptionView { stage: DisruptStage::Swapping, ..s }
            },
            _ => false,
        },
        DisruptEvent::Swapped { one, two } => {
            &&& action == DisruptAction::Collide { item: one }
            &&& t == DisruptionView { stage: DisruptStage::FirstContents, one, two, ..s }
        },
        DisruptEvent::Contents { hits } => match action {
            DisruptAction::Drag { items, next } => if s.stage is FirstContents {
                &&& items@ == contained(hits@, s.one, s.two, hits@.len())
                &&& next == Some(s.two)
                &&& t == DisruptionView { stage: DisruptStage::SecondContents, ..s }
            } else {
                &&& items@ == contained(hits@, s.two, s.one, hits@.len())
                &&& next == None::<PItemKey>
                &&& t == DisruptionView { stage: DisruptStage::Done, ..s }
            },
            _ => false,
        },
    }
}

/// The start of a disruption of one of several layouts: nothing is known of them yet, and nothing is
/// chosen.
pub open spec fn disruption_start() -> DisruptionView {
    DisruptionView {
        stage: DisruptStage::Layouts,
        layout: 0,
        keys: Seq::empty(),
        large: Seq::empty(),
        first: 0,
        one: PItemKey { rank: 0 },
        two: PItemKey { rank: 0 },
    }
}

impl Disruption {
    /// A disruption of one of several layouts.
    pub fn new() -> (r: Disruption)
        ensures
            r@ == disruption_start(),
            disruption_wf(r@),
    {
        let r = Disruption {
            stage: DisruptStage::Layouts,
            layout: 0,
            keys: Vec::new(),
            large: Vec::new(),
            first: 0,
            one: PItemKey { rank: 0 },
            two: PItemKey { rank: 0 },
        };
        assert(r@.keys =~= Seq::empty());
        assert(r@.large =~= Seq::empty());
        r
    }

    /// A disruption of the only layout.
    pub fn within() -> (r: Disruption)
        ensures
            r@ == (DisruptionView { stage: DisruptStage::Items, ..disruption_start() }),
            disruption_wf(r@),
    {
        let mut r = Disruption::new();
        r.stage = DisruptStage::Items;
        r
    }
}

/// Advances a disruption by one event.
///
/// Two large items of a layout change places: the first is picked at random among the large ones,
/// the second among the large ones that differ enough from it, or else among all other items.
/// Whatever either of them then covers moves along to where it came from.
pub fn disrupt_solution(
    run: &mut Disruption,
    event: DisruptEvent,
    rng: &mut Xoshiro256PlusPlus,
) -> (action: DisruptAction)
    requires
        disruption_wf(old(run)@),
        disruption_expects(old(run)@, event),
    ensures
        disruption_allows(old(run)@, event, final(run)@, action),
        disruption_wf(final(run)@),
{
    match event {
        DisruptEvent::Layouts { n_items } => match choose_layout(&n_items, rng) {
            Some(layout) => {
                run.stage = DisruptStage::Items;
                run.layout = layout;
                DisruptAction::Measure { layout }
            },
            None => {
                run.stage = DisruptStage::Done;
                DisruptAction::GiveUp(DisruptStop::NoLayout)
            },
        },
        DisruptEvent::Items { keys, hull_areas, cutoff } => {
            run.large = large_items(&hull_areas, cutoff);
            run.keys = keys;
            if run.keys.len() < 2 {
                run.stage = DisruptStage::Done;
                return DisruptAction::GiveUp(DisruptStop::TooFewItems);
            }
            match choose_flagged(&run.large, rng) {
                Some(first) => {
                    run.stage = DisruptStage::Partner;
                    run.first = first;
                    DisruptAction::Compare { first }
                },
                None => {
                    run.stage = DisruptStage::Done;
                    DisruptAction::GiveUp(DisruptStop::NoLargeItem)
                },
            }
        },
        DisruptEvent::Compared { different } => {
            let second: usize = choose_partner(run.first, &run.large, &different, rng).unwrap();
            assert(run.keys@[second as int] == old(run)@.keys[second as int]);
            run.stage = DisruptStage::Swapping;
            DisruptAction::Swap { one: run.keys[run.first], two: run.keys[second] }
        },
        DisruptEvent::Swapped { one, two } => {
            run.stage = DisruptStage::FirstContents;
            run.one = one;
            run.two = two;
            DisruptAction::Collide { item: one }
        },
        DisruptEvent::Contents { hits } => {
            if run.stage == DisruptStage::FirstContents {
                let items = practically_contained_items(&hits, run.one, run.two);
                run.stage = DisruptStage::SecondContents;
                DisruptAction::Drag { items, next: Some(run.two) }
            } else {
                let items = practically_contained_items(&hits, run.two, run.one);
                run.stage = DisruptStage::Done;
                DisruptAction::Drag { items, next: None }
            }
        },
    }
}

/// **Everything inside moves along**: of the items that collide with the container, exactly those whose point
/// of inaccessibility lies inside it, except for the two that were swapped, in the order in which they were
/// reported.
pub proof fn lemma_everything_inside_moves_along(
    hits: Seq<(PItemKey, bool)>,
    container: PItemKey,
    other: PItemKey,
)
    ensures
        contained(hits, container, other, hits.len()) == hits.filter(
            |h: (PItemKey, bool)| h.1 && h.0 != container && h.0 != other,
        ).map_values(|h: (PItemKey, bool)| h.0),
{
    lemma_contained_is_a_filter(hits, container, other, hits.len());
    assert(hits.take(hits.len() as int) =~= hits);
}

proof fn lemma_contained_is_a_filter(
    hits: Seq<(PItemKey, bool)>,
    container: PItemKey,
    other: PItemKey,
    n: nat,
)
    requires
        n <= hits.len(),
    ensures
        contained(hits, container, other, n) == hits.take(n as int).filter(
            |h: (PItemKey, bool)| h.1 && h.0 != container && h.0 != other,
        ).map_values(|h: (PItemKey, bool)| h.0),
    decreases n,
{
    reveal(Seq::filter);
    let pred = |h: (PItemKey, bool)| h.1 && h.0 != container && h.0 != other;
    let f = |h: (PItemKey, bool)| h.0;
    if n > 0 {
        lemma_contained_is_a_filter(hits, container, other, (n - 1) as nat);
        let before = hits.take(n - 1);
        let all = hits.take(n as int);
        assert(all.drop_last() =~= before);
        assert(all.last() == hits[n - 1]);
        if pred(hits[n - 1]) {
            assert(before.filter(pred).push(hits[n - 1]).map_values(f) =~= before.filter(
                pred,
            ).map_values(f).push(hits[n - 1].0));
        }
    } else {
        assert(hits.take(0).filter(pred).map_values(f) =~= seq![]);
    }
}

/// **Two different items are swapped, a large one with one that is large and different enough, if there is
/// one.** The first item is large; the second one is another one, and if any other item of the layout is both
/// large and different enough, the second one is.
pub proof fn lemma_a_large_item_is_swapped(
    s: DisruptionView,
    different: Vec<bool>,
    t: DisruptionView,
    action: DisruptAction,
)
    requires
        s.stage is Partner,
        disruption_wf(s),
        disruption_expects(s, DisruptEvent::Compared { different }),
        disruption_allows(s, DisruptEvent::Compared { different }, t, action),
    ensures
        action matches DisruptAction::Swap { one, two } && one == s.keys[s.first as int]
            && s.large[s.first as int] && exists|p: int|
            {
                &&& 0 <= p < s.keys.len()
                &&& p != s.first
                &&& two == #[trigger] s.keys[p]
                &&& forall|i: int|
                    0 <= i < s.keys.len() && i != s.first && (#[trigger] s.large[i]) && different@[i]
                        ==> s.large[p] && different@[p]
            },
{
    if let DisruptAction::Swap { one, two } = action {
        let p = choose|p: int|
            {
                &&& 0 <= p < s.keys.len()
                &&& two == #[trigger] s.keys[p]
                &&& may_swap(s.large, different@, s.first, p)
            };
        assert forall|i: int|
            0 <= i < s.keys.len() && i != s.first && (#[trigger] s.large[i])
                && different@[i] implies s.large[p] && different@[p] by {
            assert(suits(s.large, different@, s.first, i));
        }
        assert(s.keys[p] == two);
    }
}

/// **A disruption is abandoned only where nothing can be swapped**: where no layout holds two items, where the
/// layout holds fewer than two, or where none of them reaches the size from which an item is large.
pub proof fn lemma_when_a_disruption_is_abandoned(
    s: DisruptionView,
    event: DisruptEvent,
    t: DisruptionView,
    action: DisruptAction,
)
    requires
        disruption_wf(s),
        disruption_expects(s, event),
        disruption_allows(s, event, t, action),
    ensures
        action is GiveUp <==> match event {
            DisruptEvent::Layouts { n_items } => forall|i: int|
                0 <= i < n_items@.len() ==> (#[trigger] n_items@[i]) < 2,
            DisruptEvent::Items { keys, hull_areas, cutoff } => keys@.len() < 2 || forall|i: int|
                0 <= i < hull_areas@.len() ==> !cutoff.less_or_equal(#[trigger] hull_areas@[i]),
            _ => false,
        },
        action matches DisruptAction::GiveUp(why) ==> match event {
            DisruptEvent::Layouts { .. } => why is NoLayout,
            DisruptEvent::Items { keys, .. } => (why is TooFewItems <==> keys@.len() < 2) && (
            why is NoLargeItem <==> keys@.len() >= 2),
            _ => false,
        },
{
    if let DisruptEvent::Items { keys, hull_areas, cutoff } = event {
        let large = hull_areas@.map_values(|a: Scalar| cutoff.less_or_equal(a));
        match action {
            DisruptAction::GiveUp(_) => {
                if keys@.len() >= 2 {
                    assert forall|i: int| 0 <= i < hull_areas@.len() implies !cutoff.less_or_equal(
                        #[trigger] hull_areas@[i],
                    ) by {
                        assert(!large[i]);
                    }
                }
            },
            DisruptAction::Compare { first } => {
                assert(cutoff.less_or_equal(hull_areas@[first as int]));
            },
            _ => {},
        }
    }
}

/// **Every order of a disruption is answered by its own report**: after the swap, the contents of the first
/// item and then those of the second one move along, and then it is over.
pub proof fn lemma_each_order_awaits_its_report(
    s: DisruptionView,
    event: DisruptEvent,
    t: DisruptionView,
    action: DisruptAction,
    e: DisruptEvent,
)
    requires
        disruption_wf(s),
        disruption_expects(s, event),
        disruption_allows(s, event, t, action),
    ensures
        disruption_expects(t, e) == match action {
            DisruptAction::GiveUp(_) => false,
            DisruptAction::Measure { .. } => e matches DisruptEvent::Items { keys, hull_areas, .. }
                && keys@.len() == hull_areas@.len(),
            DisruptAction::Compare { .. } => e matches DisruptEvent::Compared { different }
                && different@.len() == t.large.len(),
            DisruptAction::Swap { .. } => e is Swapped,
            DisruptAction::Collide { .. } => e is Contents,
            DisruptAction::Drag { next, .. } => next is Some && e is Contents,
        },
        action matches DisruptAction::Drag { next, .. } ==> (next == if s.stage is FirstContents {
            Some(s.two)
        } else {
            None
        }),
        action matches DisruptAction::Collide { item } ==> item == t.one,
        event matches DisruptEvent::Swapped { one, two } ==> t.one == one && t.two == two,
        event is Contents ==> t.one == s.one && t.two == s.two,
        !(event is Items) ==> t.keys == s.keys && t.large == s.large,
{
}

/// **An item is large exactly if its hull reaches the cutoff**, and the items that are reported are the ones
/// that are swapped.
pub proof fn lemma_large_items_reach_the_cutoff(
    s: DisruptionView,
    event: DisruptEvent,
    t: DisruptionView,
    action: DisruptAction,
    i: int,
)
    requires
        disruption_wf(s),
        disruption_expects(s, event),
        disruption_allows(s, event, t, action),
    ensures
        event matches DisruptEvent::Items { keys, hull_areas, cutoff } ==> t.keys == keys@ && (0 <= i
            < keys@.len() ==> t.large[i] == cutoff.less_or_equal(hull_areas@[i])),
{
}

/// **The cutoff is at the first item that tips the balance**: there the running total exceeds the threshold, and
/// nowhere before.
pub proof fn lemma_cutoff_tips_the_balance(totals: Seq<Scalar>, threshold: Scalar, p: int, i: int)
    requires
        is_first_above(totals, threshold, p),
        0 <= i < totals.len(),
        threshold.less(totals[i]),
    ensures
        threshold.less(totals[p]),
        p <= i,
{
}

} // verus!
