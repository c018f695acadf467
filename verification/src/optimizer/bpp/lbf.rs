//! Where the left-bottom-fill construction puts an item: into an open bin, or into a new one.
use crate::optimizer::bpp::layouts::LayKey;
use crate::scalar::Scalar;
use vstd::prelude::*;

verus! {

/// The bin type can be opened: there is one in stock, and it can host the item.
pub open spec fn can_open(stock: Seq<usize>, hosts: Seq<bool>, i: int) -> bool {
    stock[i] > 0 && hosts[i]
}

/// The bin type at `best` can be opened, no other one that can be opened is cheaper, and none before
/// it is as cheap.
pub open spec fn is_cheapest(
    stock: Seq<usize>,
    hosts: Seq<bool>,
    cost_per_area: Seq<Scalar>,
    best: int,
) -> bool {
    &&& 0 <= best < stock.len()
    &&& can_open(stock, hosts, best)
    &&& forall|i: int|
        0 <= i < stock.len() && #[trigger] can_open(stock, hosts, i) ==> !cost_per_area[i].before(
            cost_per_area[best],
        )
    &&& forall|i: int|
        0 <= i < best && #[trigger] can_open(stock, hosts, i) ==> cost_per_area[best].before(
            cost_per_area[i],
        )
}

/// **One bin type is the cheapest**: two that are both the first of the cheapest are the same.
pub proof fn lemma_one_bin_is_cheapest(
    stock: Seq<usize>,
    hosts: Seq<bool>,
    cost_per_area: Seq<Scalar>,
    a: int,
    b: int,
)
    requires
        is_cheapest(stock, hosts, cost_per_area, a),
        is_cheapest(stock, hosts, cost_per_area, b),
    ensures
        a == b,
{
    assert(can_open(stock, hosts, a));
    assert(can_open(stock, hosts, b));
}

/// The bin type to open: the one with the lowest cost per area among those in stock that can host
/// the item, the first one of several.
pub fn cheapest_bin(stock: &Vec<usize>, hosts: &Vec<bool>, cost_per_area: &Vec<Scalar>) -> (r: Option<
    usize,
>)
    requires
        stock@.len() == hosts@.len() == cost_per_area@.len(),
    ensures
        match r {
            Some(best) => is_cheapest(stock@, hosts@, cost_per_area@, best as int),
            None => forall|i: int|
                0 <= i < stock@.len() ==> !#[trigger] can_open(stock@, hosts@, i),
        },
{
    let mut best: Option<usize> = None;
    let mut i: usize = 0;
    while i < stock.len()
        invariant
            stock@.len() == hosts@.len() == cost_per_area@.len(),
            i <= stock@.len(),
            match best {
                Some(b) => {
                    &&& b < i
                    &&& can_open(stock@, hosts@, b as int)
                    &&& forall|k: int|
                        0 <= k < i && #[trigger] can_open(stock@, hosts@, k)
                            ==> !cost_per_area@[k].before(cost_per_area@[b as int])
                    &&& forall|k: int|
                        0 <= k < b && #[trigger] can_open(stock@, hosts@, k)
                            ==> cost_per_area@[b as int].before(cost_per_area@[k])
                },
                None => forall|k: int|
                    0 <= k < i ==> !#[trigger] can_open(stock@, hosts@, k),
            },
        decreases stock@.len() - i,
    {
        if stock[i] > 0 && hosts[i] {
            assert(can_open(stock@, hosts@, i as int));
            let ghost old_best = best;
            match best {
                Some(b) => {
                    proof {
                        crate::scalar::lemma_key_is_order(
                            cost_per_area@[i as int],
                            cost_per_area@[b as int],
                        );
                    }
                    if cost_per_area[i].order_key() < cost_per_area[b].order_key() {
                        best = Some(i);
                        proof {
                            assert forall|k: int|
                                0 <= k < i && #[trigger] can_open(
                                    stock@,
                                    hosts@,
                                    k,
                                ) implies cost_per_area@[i as int].before(cost_per_area@[k]) by {
                                crate::scalar::lemma_key_is_order(
                                    cost_per_area@[k],
                                    cost_per_area@[b as int],
                                );
                                crate::scalar::lemma_key_is_order(
                                    cost_per_area@[i as int],
                                    cost_per_area@[k],
                                );
                            }
                        }
                    }
                },
                None => {
                    best = Some(i);
                },
            }
        }
        i = i + 1;
    }
    best
}

/// What the search of the open layouts for a place comes to next.
#[derive(Debug, Clone, Copy, PartialEq, Eq, Structural)]
pub enum OpenSearch {
    /// Search the layout at this position.
    Search(usize),
    /// The layout at this position has a place.
    Found(usize),
    /// No open layout has a place.
    Nowhere,
}

/// What follows in a search of `n` layouts, after the layout at a position was searched.
pub open spec fn search_next(n: usize, last: Option<(usize, bool)>) -> OpenSearch {
    match last {
        Some((p, true)) => OpenSearch::Found(p),
        Some((p, false)) => if p + 1 < n {
            OpenSearch::Search((p + 1) as usize)
        } else {
            OpenSearch::Nowhere
        },
        None => if n > 0 {
            OpenSearch::Search(0)
        } else {
            OpenSearch::Nowhere
        },
    }
}

/// Advances the search of `n` open layouts, in their order. `last` is the position that was searched
/// last and whether there was a place; `None` at first.
pub fn find_placement_in_open_layouts(n: usize, last: Option<(usize, bool)>) -> (r: OpenSearch)
    requires
        last matches Some((p, _)) ==> p < n,
    ensures
        r == search_next(n, last),
{
    match last {
        Some((p, found)) => if found {
            OpenSearch::Found(p)
        } else if p + 1 < n {
            OpenSearch::Search(p + 1)
        } else {
            OpenSearch::Nowhere
        },
        None => if n > 0 {
            OpenSearch::Search(0)
        } else {
            OpenSearch::Nowhere
        },
    }
}

/// Where a search ends that goes on after `last`, `room` saying which layouts have a place.
pub open spec fn search_end(room: Seq<bool>, last: Option<(usize, bool)>) -> OpenSearch
    decreases
            match last {
                Some((p, found)) => if found {
                    0
                } else {
                    room.len() - p
                },
                None => room.len() as int + 1,
            },
    when room.len() <= usize::MAX
{
    match search_next(room.len() as usize, last) {
        OpenSearch::Search(p) => if p < room.len() {
            search_end(room, Some((p, room[p as int])))
        } else {
            OpenSearch::Nowhere
        },
        end => end,
    }
}

/// The first layout with a place, or that there is none.
pub open spec fn is_first_with_room(room: Seq<bool>, end: OpenSearch) -> bool {
    match end {
        OpenSearch::Found(p) => {
            &&& p < room.len()
            &&& room[p as int]
            &&& forall|i: int| 0 <= i < p ==> !(#[trigger] room[i])
        },
        OpenSearch::Nowhere => forall|i: int| 0 <= i < room.len() ==> !(#[trigger] room[i]),
        OpenSearch::Search(_) => false,
    }
}

proof fn lemma_search_goes_on(room: Seq<bool>, p: usize)
    requires
        p < room.len() <= usize::MAX,
        forall|i: int| 0 <= i < p ==> !(#[trigger] room[i]),
    ensures
        is_first_with_room(room, search_end(room, Some((p, room[p as int])))),
    decreases room.len() - p,
{
    if !room[p as int] && p + 1 < room.len() {
        lemma_search_goes_on(room, (p + 1) as usize);
    }
}

/// **The first open layout with a place gets the item**, and only if there is none a bin is opened.
pub proof fn lemma_first_layout_with_room_wins(room: Seq<bool>)
    requires
        room.len() <= usize::MAX,
    ensures
        is_first_with_room(room, search_end(room, None)),
{
    if room.len() > 0 {
        lemma_search_goes_on(room, 0);
    }
}

/// Where an item goes.
#[derive(Debug, Clone, Copy, PartialEq, Eq, Structural)]
pub enum LbfPlacement {
    /// Into this open layout.
    Open(LayKey),
    /// Into a new bin of this type.
    Closed {
        /// The bin type.
        bin_id: usize,
    },
    /// Nowhere: no open layout has room, and no bin is left in stock.
    NoStock,
}

/// Where an item goes: into the first open layout that has room for it, which is `open`, or else
/// into a new bin of the cheapest type in stock.
pub fn place_item(open: Option<LayKey>, stock: &Vec<usize>, cost_per_area: &Vec<Scalar>) -> (r:
    LbfPlacement)
    requires
        stock@.len() == cost_per_area@.len(),
    ensures
        match open {
            Some(key) => r == LbfPlacement::Open(key),
            None => match r {
                LbfPlacement::Closed { bin_id } => is_cheapest(
                    stock@,
                    Seq::new(stock@.len(), |i: int| true),
                    cost_per_area@,
                    bin_id as int,
                ),
                LbfPlacement::NoStock => forall|i: int|
                    0 <= i < stock@.len() ==> #[trigger] stock@[i] == 0,
                LbfPlacement::Open(_) => false,
            },
        },
{
    if let Some(key) = open {
        return LbfPlacement::Open(key);
    }
    let mut hosts: Vec<bool> = Vec::new();
    let mut i: usize = 0;
    while i < stock.len()
        invariant
            i <= stock@.len(),
            hosts@.len() == i,
            forall|k: int| 0 <= k < i ==> #[trigger] hosts@[k],
        decreases stock@.len() - i,
    {
        hosts.push(true);
        i = i + 1;
    }
    assert(hosts@ =~= Seq::new(stock@.len(), |i: int| true));
    match cheapest_bin(stock, &hosts, cost_per_area) {
        Some(bin_id) => LbfPlacement::Closed { bin_id },
        None => {
            assert forall|i: int| 0 <= i < stock@.len() implies #[trigger] stock@[i] == 0 by {
                assert(!can_open(stock@, hosts@, i));
            }
            LbfPlacement::NoStock
        },
    }
}

/// **A bin is only opened if there is one in stock.**
pub proof fn lemma_opened_bin_is_in_stock(
    stock: Seq<usize>,
    hosts: Seq<bool>,
    cost_per_area: Seq<Scalar>,
    bin_id: usize,
)
    requires
        is_cheapest(stock, hosts, cost_per_area, bin_id as int),
    ensures
        stock[bin_id as int] > 0,
{
}

/// **The bin type that is opened is the cheapest that will do**: it is in stock and can host the item, and
/// no type that is in stock and can host it costs less per area; of equally cheap ones it is the first.
pub proof fn lemma_opened_bin_is_the_cheapest(
    stock: Seq<usize>,
    hosts: Seq<bool>,
    cost_per_area: Seq<Scalar>,
    best: int,
    i: int,
)
    requires
        is_cheapest(stock, hosts, cost_per_area, best),
        0 <= i < stock.len(),
        stock[i] > 0,
        hosts[i],
    ensures
        stock[best] > 0 && hosts[best],
        !cost_per_area[i].less(cost_per_area[best]),
        cost_per_area[i] == cost_per_area[best] ==> best <= i,
{
    assert(can_open(stock, hosts, i));
}

} // verus!
