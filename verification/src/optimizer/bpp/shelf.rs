//! Shelf construction of a starting solution: the bounding boxes of the items are packed into
//! columns, or into shelves, of the bins.
//!
//! The engine measures; what it measured decides here which orientation, which band, which bin and
//! which of the two packings is taken. No randomness is involved, and every order is a total one.
use crate::optimizer::bpp::layouts;
use crate::optimizer::bpp::lbf;
use crate::optimizer::bpp::lbf::cheapest_bin;
use crate::order;
use crate::order::order_by;
use crate::scalar::{Scalar, INFINITE_MAGNITUDE};
use vstd::prelude::*;

verus! {

/// Which construction builds the starting solution of a bin packing run.
#[derive(Debug, Clone, Copy, PartialEq, Eq, Structural)]
pub enum Constructive {
    /// Both; the solution with fewer bins is kept, or else the one whose sparsest bin is sparser.
    Best,
    /// The left-bottom-fill builder.
    Lbf,
    /// The shelf builder.
    Shelf,
}

impl Default for Constructive {
    fn default() -> (c: Constructive)
        ensures
            c == Constructive::Best,
    {
        Constructive::Best
    }
}

/// One orientation of an item.
#[derive(Debug, Clone, Copy, PartialEq, Eq, Structural)]
pub struct Orientation {
    /// It fits into an empty bin of some type.
    pub fits: bool,
    /// Extent in the direction in which a band is filled.
    pub along: Scalar,
    /// Extent across the band.
    pub cross: Scalar,
    /// The angle.
    pub rotation: Scalar,
}

/// One number that orders as two keys do, the first one first.
pub open spec fn joined(a: u32, b: u32) -> u64 {
    (a * 0x1_0000_0000 + b) as u64
}

fn join(a: u32, b: u32) -> (r: u64)
    ensures
        r == joined(a, b),
{
    a as u64 * 0x1_0000_0000 + b as u64
}

/// The sort key of an orientation: longest along the band first, then slimmest, then the smallest
/// angle.
pub open spec fn orientation_key(o: Orientation) -> (u64, u64) {
    (
        joined((u32::MAX - o.along.key()) as u32, o.cross.key()),
        layouts::ascending(o.rotation),
    )
}

/// Whether one sort key comes before another.
pub open spec fn pair_less(a: (u64, u64), b: (u64, u64)) -> bool {
    a.0 < b.0 || (a.0 == b.0 && a.1 < b.1)
}

/// The orientation at `best` fits, and none that fits comes before it; none before it in the list is
/// as good.
pub open spec fn is_best_orientation(candidates: Seq<Orientation>, best: int) -> bool {
    &&& 0 <= best < candidates.len()
    &&& candidates[best].fits
    &&& forall|i: int|
        0 <= i < candidates.len() && (#[trigger] candidates[i]).fits ==> !pair_less(
            orientation_key(candidates[i]),
            orientation_key(candidates[best]),
        )
    &&& forall|i: int|
        0 <= i < best && (#[trigger] candidates[i]).fits ==> pair_less(
            orientation_key(candidates[best]),
            orientation_key(candidates[i]),
        )
}

fn key_of(o: Orientation) -> (k: (u64, u64))
    ensures
        k == orientation_key(o),
{
    (join(u32::MAX - o.along.order_key(), o.cross.order_key()), o.rotation.order_key() as u64)
}

/// Picks the orientation that an item is packed in: slim across the band and long along it. `None`
/// if it fits nowhere in any.
pub fn choose_orientation(candidates: &Vec<Orientation>) -> (r: Option<usize>)
    ensures
        match r {
            Some(best) => is_best_orientation(candidates@, best as int),
            None => forall|i: int| 0 <= i < candidates@.len() ==> !(#[trigger] candidates@[i]).fits,
        },
{
    let mut best: Option<usize> = None;
    let mut i: usize = 0;
    while i < candidates.len()
        invariant
            i <= candidates@.len(),
            match best {
                Some(b) => b < i && is_best_orientation(candidates@.take(i as int), b as int),
                None => forall|k: int| 0 <= k < i ==> !(#[trigger] candidates@[k]).fits,
            },
        decreases candidates@.len() - i,
    {
        let ghost old_best = best;
        if candidates[i].fits {
            match best {
                Some(b) => {
                    let (x, y) = (key_of(candidates[i]), key_of(candidates[b]));
                    if x.0 < y.0 || (x.0 == y.0 && x.1 < y.1) {
                        best = Some(i);
                    }
                },
                None => {
                    best = Some(i);
                },
            }
        }
        proof {
            let seen = candidates@.take(i as int);
            let all = candidates@.take(i + 1);
            if let Some(b) = best {
                assert(all[b as int] == candidates@[b as int]);
                assert forall|k: int| 0 <= k < all.len() && (#[trigger] all[k]).fits implies !pair_less(
                    orientation_key(all[k]),
                    orientation_key(all[b as int]),
                ) by {
                    if k < i {
                        assert(seen[k] == all[k]);
                        assert(all[k] == candidates@[k]);
                    }
                }
                assert forall|k: int| 0 <= k < b && (#[trigger] all[k]).fits implies pair_less(
                    orientation_key(all[b as int]),
                    orientation_key(all[k]),
                ) by {
                    assert(seen[k] == all[k]);
                    assert(all[k] == candidates@[k]);
                }
            }
        }
        i = i + 1;
    }
    assert(candidates@.take(i as int) =~= candidates@);
    best
}

/// One item to pack, as a box.
#[derive(Debug, Clone, Copy, PartialEq, Eq, Structural)]
pub struct BoxItem {
    /// Which item of the instance.
    pub item_id: usize,
    /// Extent in the direction in which a band is filled.
    pub along: Scalar,
    /// Extent across the band.
    pub cross: Scalar,
}

/// The sort keys of boxes: longest first, then widest, then by item.
pub open spec fn box_keys(boxes: Seq<BoxItem>) -> Seq<(u64, u64)> {
    boxes.map_values(
        |b: BoxItem|
            (
                joined((u32::MAX - b.along.key()) as u32, (u32::MAX - b.cross.key()) as u32),
                b.item_id as u64,
            ),
    )
}

/// Where a box goes within a bin.
#[derive(Debug, Clone, Copy, PartialEq, Eq, Structural)]
pub enum Slot {
    /// Onto this open band.
    Band(usize),
    /// Into a new band.
    NewBand,
}

/// One placed box.
#[derive(Debug, Clone, Copy, PartialEq, Eq, Structural)]
pub struct ShelfPlacement {
    /// Position of the box.
    pub position: usize,
    /// Position of the bin.
    pub bin: usize,
    /// Where it goes within the bin.
    pub slot: Slot,
}

/// The first position at which `flags` holds.
pub open spec fn first_true(flags: Seq<bool>) -> Option<int>
    decreases flags.len(),
{
    if flags.len() == 0 {
        None
    } else {
        match first_true(flags.drop_last()) {
            Some(i) => Some(i),
            None => if flags.last() {
                Some(flags.len() - 1)
            } else {
                None
            },
        }
    }
}

/// The first open band that takes the box, or else a new band if there is room for one.
pub open spec fn slot_in(bands: Seq<bool>, fresh: bool) -> Option<Slot> {
    match first_true(bands) {
        Some(i) => Some(Slot::Band(i as usize)),
        None => if fresh {
            Some(Slot::NewBand)
        } else {
            None
        },
    }
}

/// The first of the first `m` bins that takes the box, and where.
pub open spec fn first_fit(bands: Seq<Vec<bool>>, fresh: Seq<bool>, m: nat) -> Option<(usize, Slot)>
    decreases m,
{
    if m == 0 {
        None
    } else {
        match first_fit(bands, fresh, (m - 1) as nat) {
            Some(found) => Some(found),
            None => match slot_in(bands[m - 1]@, fresh[m - 1]) {
                Some(slot) => Some(((m - 1) as usize, slot)),
                None => None,
            },
        }
    }
}

fn place_into_bin(bands: &Vec<bool>, fresh: bool) -> (r: Option<Slot>)
    ensures
        r == slot_in(bands@, fresh),
{
    let mut i: usize = 0;
    while i < bands.len()
        invariant
            i <= bands@.len(),
            first_true(bands@.take(i as int)) is None,
        decreases bands@.len() - i,
    {
        assert(bands@.take(i + 1).drop_last() =~= bands@.take(i as int));
        if bands[i] {
            proof {
                lemma_first_true_extends(bands@, i + 1);
            }
            return Some(Slot::Band(i));
        }
        i = i + 1;
    }
    assert(bands@.take(i as int) =~= bands@);
    if fresh {
        Some(Slot::NewBand)
    } else {
        None
    }
}

proof fn lemma_first_true_extends(flags: Seq<bool>, m: int)
    requires
        0 <= m <= flags.len(),
        first_true(flags.take(m)) is Some,
    ensures
        first_true(flags) == first_true(flags.take(m)),
    decreases flags.len() - m,
{
    if m < flags.len() {
        assert(flags.take(m + 1).drop_last() =~= flags.take(m));
        lemma_first_true_extends(flags, m + 1);
    } else {
        assert(flags.take(m) =~= flags);
    }
}

/// First fit over the open bins: the first bin that takes the box, and the first band in it.
/// `bands[i][j]` says whether band `j` of bin `i` takes it, `fresh[i]` whether a new band does.
pub fn place_into_open_bin(bands: &Vec<Vec<bool>>, fresh: &Vec<bool>) -> (r: Option<(usize, Slot)>)
    requires
        bands@.len() == fresh@.len(),
    ensures
        r == first_fit(bands@, fresh@, bands@.len()),
{
    let mut i: usize = 0;
    while i < bands.len()
        invariant
            bands@.len() == fresh@.len(),
            i <= bands@.len(),
            first_fit(bands@, fresh@, i as nat) is None,
        decreases bands@.len() - i,
    {
        if let Some(slot) = place_into_bin(&bands[i], fresh[i]) {
            proof {
                lemma_first_fit_extends(bands@, fresh@, (i + 1) as nat, bands@.len());
            }
            return Some((i, slot));
        }
        i = i + 1;
    }
    None
}

proof fn lemma_first_fit_extends(bands: Seq<Vec<bool>>, fresh: Seq<bool>, m: nat, n: nat)
    requires
        m <= n,
        first_fit(bands, fresh, m) is Some,
    ensures
        first_fit(bands, fresh, n) == first_fit(bands, fresh, m),
    decreases n - m,
{
    if m < n {
        lemma_first_fit_extends(bands, fresh, m + 1, n);
    }
}

/// What a packing waits for.
#[derive(Debug, Clone, Copy, PartialEq, Eq, Structural)]
pub enum PackStage {
    /// Where the next box fits.
    Fits,
    /// Whether the next box fits into the bin that was opened for it.
    Opening,
    /// Nothing: every box is placed.
    Done,
    /// Nothing: a box cannot be placed.
    Failed,
}

/// Progress of a packing.
#[derive(Debug)]
pub struct ShelfPacking {
    /// The order in which the boxes are packed.
    pub order: Vec<usize>,
    /// What it waits for.
    pub stage: PackStage,
    /// Bins left in stock, by bin type.
    pub stock: Vec<usize>,
    /// Cost per area, by bin type.
    pub cost_per_area: Vec<Scalar>,
    /// The bin types of the open bins.
    pub bins: Vec<usize>,
    /// The placed boxes.
    pub placements: Vec<ShelfPlacement>,
}

/// A packing, as a mathematical value.
pub ghost struct ShelfPackingView {
    /// The order in which the boxes are packed.
    pub order: Seq<usize>,
    /// What it waits for.
    pub stage: PackStage,
    /// Bins left in stock, by bin type.
    pub stock: Seq<usize>,
    /// Cost per area, by bin type.
    pub cost_per_area: Seq<Scalar>,
    /// The bin types of the open bins.
    pub bins: Seq<usize>,
    /// The placed boxes.
    pub placements: Seq<ShelfPlacement>,
}

impl View for ShelfPacking {
    type V = ShelfPackingView;

    open spec fn view(&self) -> ShelfPackingView {
        ShelfPackingView {
            order: self.order@,
            stage: self.stage,
            stock: self.stock@,
            cost_per_area: self.cost_per_area@,
            bins: self.bins@,
            placements: self.placements@,
        }
    }
}

/// What the engine reports to a packing.
#[derive(Debug)]
pub enum PackEvent {
    /// Where the next box fits.
    Fits {
        /// For every open bin, which of its bands take it.
        bands: Vec<Vec<bool>>,
        /// For every open bin, whether a new band takes it.
        fresh: Vec<bool>,
        /// For every bin type, whether it can host the box at all.
        hosts: Vec<bool>,
    },
    /// Whether the box fits into the empty bin that was opened for it.
    Opened {
        /// It fits.
        fits: bool,
    },
}

/// What the engine has to do next in a packing.
#[derive(Debug, Clone, Copy, PartialEq, Eq, Structural)]
pub enum PackAction {
    /// Place the box there, and measure the next one.
    Place(ShelfPlacement),
    /// Open a bin of this type for the box.
    Open {
        /// The bin type.
        bin_id: usize,
    },
    /// No bin that can host the box is left in stock.
    NoStock {
        /// Position of the box.
        position: usize,
    },
    /// The box does not fit into an empty bin.
    DoesNotFit {
        /// Position of the box.
        position: usize,
    },
}

/// The next box is one of the boxes, and the books are consistent.
pub open spec fn pack_wf(s: ShelfPackingView) -> bool {
    &&& s.stock.len() == s.cost_per_area.len()
    &&& s.placements.len() <= s.order.len()
    &&& s.stage is Fits || s.stage is Opening ==> s.placements.len() < s.order.len()
    &&& s.stage is Done ==> s.placements.len() == s.order.len()
    &&& s.stage is Opening ==> s.bins.len() > 0
    &&& forall|i: int|
        0 <= i < s.placements.len() ==> (#[trigger] s.placements[i]).position == s.order[i]
            && s.placements[i].bin < s.bins.len()
    &&& forall|i: int| 0 <= i < s.bins.len() ==> (#[trigger] s.bins[i]) < s.stock.len()
}

/// Whether the stage waits for this kind of event, and the event covers all bins.
pub open spec fn pack_expects(s: ShelfPackingView, event: PackEvent) -> bool {
    match s.stage {
        PackStage::Fits => event matches PackEvent::Fits { bands, fresh, hosts } && bands@.len()
            == s.bins.len() && fresh@.len() == s.bins.len() && hosts@.len() == s.stock.len(),
        PackStage::Opening => event is Opened,
        _ => false,
    }
}

/// The packing with the next box placed.
pub open spec fn with_placement(s: ShelfPackingView, p: ShelfPlacement) -> ShelfPackingView {
    ShelfPackingView {
        stage: if s.placements.len() + 1 == s.order.len() {
            PackStage::Done
        } else {
            PackStage::Fits
        },
        placements: s.placements.push(p),
        ..s
    }
}

/// The position of the next box.
pub open spec fn next_box(s: ShelfPackingView) -> usize {
    s.order[s.placements.len() as int]
}

/// What a packing may do on an event.
pub open spec fn pack_allows(
    s: ShelfPackingView,
    event: PackEvent,
    t: ShelfPackingView,
    action: PackAction,
) -> bool {
    match event {
        PackEvent::Fits { bands, fresh, hosts } => match first_fit(bands@, fresh@, bands@.len()) {
            Some((bin, slot)) => {
                let p = ShelfPlacement { position: next_box(s), bin, slot };
                action == PackAction::Place(p) && t == with_placement(s, p)
            },
            None => match action {
                PackAction::Open { bin_id } => {
                    &&& lbf::is_cheapest(s.stock, hosts@, s.cost_per_area, bin_id as int)
                    &&& t == ShelfPackingView {
                        stage: PackStage::Opening,
                        stock: s.stock.update(
                            bin_id as int,
                            (s.stock[bin_id as int] - 1) as usize,
                        ),
                        bins: s.bins.push(bin_id),
                        ..s
                    }
                },
                PackAction::NoStock { position } => {
                    &&& forall|i: int|
                        0 <= i < s.stock.len() ==> !#[trigger] lbf::can_open(s.stock, hosts@, i)
                    &&& position == next_box(s)
                    &&& t == ShelfPackingView { stage: PackStage::Failed, ..s }
                },
                _ => false,
            },
        },
        PackEvent::Opened { fits } => if fits {
            let p = ShelfPlacement {
                position: next_box(s),
                bin: (s.bins.len() - 1) as usize,
                slot: Slot::NewBand,
            };
            action == PackAction::Place(p) && t == with_placement(s, p)
        } else {
            &&& action == PackAction::DoesNotFit { position: next_box(s) }
            &&& t == ShelfPackingView { stage: PackStage::Failed, ..s }
        },
    }
}

impl ShelfPacking {
    /// A packing of the given boxes into bins with the given stock.
    pub fn new(boxes: &Vec<BoxItem>, stock: Vec<usize>, cost_per_area: Vec<Scalar>) -> (r:
        ShelfPacking)
        requires
            stock@.len() == cost_per_area@.len(),
        ensures
            r@ == (ShelfPackingView {
                order: order::positions_in_order(box_keys(boxes@)),
                stage: if boxes@.len() == 0 {
                    PackStage::Done
                } else {
                    PackStage::Fits
                },
                stock: stock@,
                cost_per_area: cost_per_area@,
                bins: Seq::empty(),
                placements: Seq::empty(),
            }),
            r@.order.len() == boxes@.len(),
            pack_wf(r@),
    {
        let mut keys: Vec<(u64, u64)> = Vec::new();
        let mut i: usize = 0;
        while i < boxes.len()
            invariant
                i <= boxes@.len(),
                keys@.len() == i,
                forall|k: int| 0 <= k < i ==> #[trigger] keys@[k] == box_keys(boxes@)[k],
            decreases boxes@.len() - i,
        {
            let b = boxes[i];
            keys.push(
                (
                    join(u32::MAX - b.along.order_key(), u32::MAX - b.cross.order_key()),
                    b.item_id as u64,
                ),
            );
            i = i + 1;
        }
        assert(keys@ =~= box_keys(boxes@));
        let order = order_by(&keys);
        let stage = if order.len() == 0 {
            PackStage::Done
        } else {
            PackStage::Fits
        };
        let r = ShelfPacking {
            order,
            stage,
            stock,
            cost_per_area,
            bins: Vec::new(),
            placements: Vec::new(),
        };
        assert(r@.bins =~= Seq::empty());
        assert(r@.placements =~= Seq::empty());
        r
    }

    fn put(&mut self, p: ShelfPlacement)
        requires
            pack_wf(old(self)@),
            old(self).stage is Fits || old(self).stage is Opening,
            p.position == next_box(old(self)@),
            p.bin < old(self).bins@.len(),
        ensures
            final(self)@ == with_placement(old(self)@, p),
            pack_wf(final(self)@),
    {
        self.placements.push(p);
        self.stage = if self.placements.len() == self.order.len() {
            PackStage::Done
        } else {
            PackStage::Fits
        };
    }
}

proof fn lemma_first_fit_bounded(bands: Seq<Vec<bool>>, fresh: Seq<bool>, m: nat)
    requires
        m <= usize::MAX,
    ensures
        first_fit(bands, fresh, m) matches Some((bin, _)) ==> bin < m,
    decreases m,
{
    if m > 0 {
        lemma_first_fit_bounded(bands, fresh, (m - 1) as nat);
    }
}

/// Advances a packing by one event: the boxes go, longest first, to the first band of the first bin
/// that takes them, or to a new bin of the cheapest type in stock that can host them.
pub fn pack(run: &mut ShelfPacking, event: PackEvent) -> (action: PackAction)
    requires
        pack_wf(old(run)@),
        pack_expects(old(run)@, event),
    ensures
        pack_allows(old(run)@, event, final(run)@, action),
        pack_wf(final(run)@),
{
    let position: usize = run.order[run.placements.len()];
    match event {
        PackEvent::Fits { bands, fresh, hosts } => {
            let n: usize = bands.len();
            if let Some((bin, slot)) = place_into_open_bin(&bands, &fresh) {
                proof {
                    lemma_first_fit_bounded(bands@, fresh@, n as nat);
                }
                let p = ShelfPlacement { position, bin, slot };
                run.put(p);
                return PackAction::Place(p);
            }
            match cheapest_bin(&run.stock, &hosts, &run.cost_per_area) {
                Some(bin_id) => {
                    assert(lbf::can_open(run.stock@, hosts@, bin_id as int));
                    let left: usize = run.stock[bin_id] - 1;
                    run.stock.set(bin_id, left);
                    run.bins.push(bin_id);
                    run.stage = PackStage::Opening;
                    PackAction::Open { bin_id }
                },
                None => {
                    run.stage = PackStage::Failed;
                    PackAction::NoStock { position }
                },
            }
        },
        PackEvent::Opened { fits } => {
            if fits {
                let p = ShelfPlacement { position, bin: run.bins.len() - 1, slot: Slot::NewBand };
                run.put(p);
                PackAction::Place(p)
            } else {
                run.stage = PackStage::Failed;
                PackAction::DoesNotFit { position }
            }
        },
    }
}

/// **Every box is placed exactly once**: in a packing that is done, the placed boxes are a
/// permutation of the boxes.
pub proof fn lemma_every_box_is_placed_once(s: ShelfPackingView, boxes: Seq<BoxItem>)
    requires
        pack_wf(s),
        s.stage is Done,
        s.order == order::positions_in_order(box_keys(boxes)),
        boxes.len() <= usize::MAX,
    ensures
        s.placements.map_values(|p: ShelfPlacement| p.position) == s.order,
        s.placements.map_values(|p: ShelfPlacement| boxes[p.position as int]).to_multiset()
            == boxes.to_multiset(),
{
    let keys = box_keys(boxes);
    order::lemma_order_exists(keys);
    order::lemma_order_permutes(keys, boxes);
    assert(s.placements.map_values(|p: ShelfPlacement| p.position) =~= s.order);
    assert(s.placements.map_values(|p: ShelfPlacement| boxes[p.position as int])
        =~= s.order.map_values(|p: usize| boxes[p as int]));
}

/// **The stock is never exceeded**: what is left of a bin type and what is open of it always add up
/// to what there was.
pub proof fn lemma_stock_adds_up(
    s: ShelfPackingView,
    event: PackEvent,
    t: ShelfPackingView,
    action: PackAction,
    bin_id: usize,
)
    requires
        pack_wf(s),
        pack_expects(s, event),
        pack_allows(s, event, t, action),
        bin_id < s.stock.len(),
    ensures
        t.stock.len() == s.stock.len(),
        t.stock[bin_id as int] + t.bins.to_multiset().count(bin_id) == s.stock[bin_id as int]
            + s.bins.to_multiset().count(bin_id),
{
    broadcast use vstd::seq_lib::group_to_multiset_ensures;
    if let PackAction::Open { bin_id: opened } = action {
        if let PackEvent::Fits { bands, fresh, hosts } = event {
            assert(lbf::can_open(s.stock, hosts@, opened as int));
        }
    }
}

/// A packing from step to step: the states, and the event and the action between two of them.
pub open spec fn is_packing(
    states: Seq<ShelfPackingView>,
    events: Seq<PackEvent>,
    actions: Seq<PackAction>,
) -> bool {
    &&& states.len() == events.len() + 1
    &&& actions.len() == events.len()
    &&& forall|i: int|
        0 <= i < events.len() ==> {
            &&& pack_wf(states[i])
            &&& pack_expects(states[i], #[trigger] events[i])
            &&& pack_allows(states[i], events[i], states[i + 1], actions[i])
        }
}

/// **No bin type is used more often than it is in stock**, over a whole packing that starts without
/// open bins.
pub proof fn lemma_stock_is_never_exceeded(
    states: Seq<ShelfPackingView>,
    events: Seq<PackEvent>,
    actions: Seq<PackAction>,
    bin_id: usize,
)
    requires
        is_packing(states, events, actions),
        states[0].bins.len() == 0,
        bin_id < states[0].stock.len(),
    ensures
        states.last().stock.len() == states[0].stock.len(),
        states.last().bins.to_multiset().count(bin_id) + states.last().stock[bin_id as int]
            == states[0].stock[bin_id as int],
{
    lemma_stock_up_to(states, events, actions, bin_id, states.len() - 1);
}

proof fn lemma_stock_up_to(
    states: Seq<ShelfPackingView>,
    events: Seq<PackEvent>,
    actions: Seq<PackAction>,
    bin_id: usize,
    i: int,
)
    requires
        is_packing(states, events, actions),
        states[0].bins.len() == 0,
        bin_id < states[0].stock.len(),
        0 <= i < states.len(),
    ensures
        states[i].stock.len() == states[0].stock.len(),
        states[i].bins.to_multiset().count(bin_id) + states[i].stock[bin_id as int]
            == states[0].stock[bin_id as int],
    decreases i,
{
    if i == 0 {
        broadcast use vstd::seq_lib::group_to_multiset_ensures;
        assert(states[0].bins.to_multiset().len() == 0);
    } else {
        lemma_stock_up_to(states, events, actions, bin_id, i - 1);
        assert(pack_expects(states[i - 1], events[i - 1]));
        lemma_stock_adds_up(states[i - 1], events[i - 1], states[i], actions[i - 1], bin_id);
    }
}

/// **One step has one outcome**: what a packing does on an event is determined by its state and the
/// event.
pub proof fn lemma_one_outcome(
    s: ShelfPackingView,
    event: PackEvent,
    t: ShelfPackingView,
    action: PackAction,
    u: ShelfPackingView,
    other: PackAction,
)
    requires
        pack_wf(s),
        pack_expects(s, event),
        pack_allows(s, event, t, action),
        pack_allows(s, event, u, other),
    ensures
        t == u,
        action == other,
{
    if let PackEvent::Fits { bands, fresh, hosts } = event {
        if first_fit(bands@, fresh@, bands@.len()) is None {
            match (action, other) {
                (PackAction::Open { bin_id: a }, PackAction::Open { bin_id: b }) => {
                    lbf::lemma_one_bin_is_cheapest(s.stock, hosts@, s.cost_per_area, a as int, b as int);
                },
                (PackAction::Open { bin_id: a }, _) => {
                    assert(lbf::can_open(s.stock, hosts@, a as int));
                },
                (_, PackAction::Open { bin_id: b }) => {
                    assert(lbf::can_open(s.stock, hosts@, b as int));
                },
                _ => {},
            }
        }
    }
}

/// **A packing is deterministic**: from the same start, with the same measurements, it goes through
/// the same states and takes the same actions.
pub proof fn lemma_packing_is_deterministic(
    states: Seq<ShelfPackingView>,
    actions: Seq<PackAction>,
    others: Seq<ShelfPackingView>,
    other_actions: Seq<PackAction>,
    events: Seq<PackEvent>,
)
    requires
        is_packing(states, events, actions),
        is_packing(others, events, other_actions),
        states[0] == others[0],
    ensures
        states == others,
        actions == other_actions,
{
    assert forall|i: int| 0 <= i < states.len() implies states[i] == others[i] by {
        lemma_same_state(states, actions, others, other_actions, events, i);
    }
    assert forall|i: int| 0 <= i < actions.len() implies actions[i] == other_actions[i] by {
        assert(pack_expects(states[i], events[i]));
        assert(pack_expects(others[i], events[i]));
        lemma_one_outcome(
            states[i],
            events[i],
            states[i + 1],
            actions[i],
            others[i + 1],
            other_actions[i],
        );
    }
    assert(states =~= others);
    assert(actions =~= other_actions);
}

proof fn lemma_same_state(
    states: Seq<ShelfPackingView>,
    actions: Seq<PackAction>,
    others: Seq<ShelfPackingView>,
    other_actions: Seq<PackAction>,
    events: Seq<PackEvent>,
    i: int,
)
    requires
        is_packing(states, events, actions),
        is_packing(others, events, other_actions),
        states[0] == others[0],
        0 <= i < states.len(),
    ensures
        states[i] == others[i],
    decreases i,
{
    if i > 0 {
        lemma_same_state(states, actions, others, other_actions, events, i - 1);
        assert(pack_expects(states[i - 1], events[i - 1]));
        assert(pack_expects(others[i - 1], events[i - 1]));
        lemma_one_outcome(
            states[i - 1],
            events[i - 1],
            states[i],
            actions[i - 1],
            others[i],
            other_actions[i - 1],
        );
    }
}

/// **One orientation is the best**: two that are chosen from the same candidates are the same.
pub proof fn lemma_one_orientation_is_best(candidates: Seq<Orientation>, a: int, b: int)
    requires
        is_best_orientation(candidates, a),
        is_best_orientation(candidates, b),
    ensures
        a == b,
{
    if a < b {
        assert(candidates[a].fits);
    } else if b < a {
        assert(candidates[b].fits);
    }
}

/// The least of the densities; infinite if there is none.
pub open spec fn least(densities: Seq<Scalar>, m: nat) -> Scalar
    decreases m,
{
    if m == 0 {
        Scalar { bits: INFINITE_MAGNITUDE }
    } else {
        least(densities, (m - 1) as nat).smaller(densities[m - 1])
    }
}

/// The density of the least dense bin; infinite if there is no bin.
pub fn min_bin_density(densities: &Vec<Scalar>) -> (r: Scalar)
    ensures
        r == least(densities@, densities@.len()),
{
    let mut r = Scalar { bits: INFINITE_MAGNITUDE };
    let mut i: usize = 0;
    while i < densities.len()
        invariant
            i <= densities@.len(),
            r == least(densities@, i as nat),
        decreases densities@.len() - i,
    {
        r = r.min(densities[i]);
        i = i + 1;
    }
    r
}

/// How good a starting solution is.
#[derive(Debug, Clone, Copy, PartialEq, Eq, Structural)]
pub struct StartStats {
    /// How many bins it uses.
    pub n_bins: usize,
    /// Density of its least dense bin.
    pub min_density: Scalar,
}

/// `a` is strictly better: it has fewer bins, or as many and a sparser least dense one.
pub open spec fn better(a: StartStats, b: StartStats) -> bool {
    a.n_bins < b.n_bins || (a.n_bins == b.n_bins && a.min_density.before(b.min_density))
}

/// Whether `a` is strictly better than `b`: it has fewer bins, or as many and a sparser least dense
/// one.
pub fn strictly_better(a: StartStats, b: StartStats) -> (r: bool)
    ensures
        r == better(a, b),
{
    proof {
        crate::scalar::lemma_key_is_order(a.min_density, b.min_density);
    }
    a.n_bins < b.n_bins || (a.n_bins == b.n_bins && a.min_density.order_key()
        < b.min_density.order_key())
}

/// Which of the two packings is kept.
#[derive(Debug, Clone, Copy, PartialEq, Eq, Structural)]
pub enum Mode {
    /// Vertical stacks, packed from left to right.
    Column,
    /// Horizontal shelves, packed from bottom to top.
    Shelf,
}

/// Keeps the better one of the two packings, the columns if neither is.
pub fn construct(column: StartStats, shelf: StartStats) -> (r: Mode)
    ensures
        r == if better(shelf, column) {
            Mode::Shelf
        } else {
            Mode::Column
        },
{
    if strictly_better(shelf, column) {
        Mode::Shelf
    } else {
        Mode::Column
    }
}

/// **One of two packings is never worse than the other both ways**: at most one is strictly better.
pub proof fn lemma_better_is_strict(a: StartStats, b: StartStats)
    ensures
        !(better(a, b) && better(b, a)),
        !better(a, a),
{
}

/// What is wrong with the packing once it is put into practice.
#[derive(Debug, Clone, Copy, PartialEq, Eq, Structural)]
pub enum MaterialiseError {
    /// Not every item is placed.
    MissingDemand,
    /// The layout at this position collides.
    Collides {
        /// Position of the layout.
        position: usize,
    },
}

/// Checks a packing once it is put into practice: every item is placed, and no layout collides.
pub fn materialise(item_demand_qtys: &Vec<usize>, feasible: &Vec<bool>) -> (r: Result<
    (),
    MaterialiseError,
>)
    ensures
        match r {
            Ok(()) => {
                &&& forall|i: int|
                    0 <= i < item_demand_qtys@.len() ==> #[trigger] item_demand_qtys@[i] == 0
                &&& forall|i: int| 0 <= i < feasible@.len() ==> #[trigger] feasible@[i]
            },
            Err(MaterialiseError::MissingDemand) => exists|i: int|
                0 <= i < item_demand_qtys@.len() && #[trigger] item_demand_qtys@[i] != 0,
            Err(MaterialiseError::Collides { position }) => {
                &&& forall|i: int|
                    0 <= i < item_demand_qtys@.len() ==> #[trigger] item_demand_qtys@[i] == 0
                &&& position < feasible@.len() && !feasible@[position as int]
                &&& forall|i: int| 0 <= i < position ==> #[trigger] feasible@[i]
            },
        },
{
    let mut i: usize = 0;
    while i < item_demand_qtys.len()
        invariant
            i <= item_demand_qtys@.len(),
            forall|k: int| 0 <= k < i ==> #[trigger] item_demand_qtys@[k] == 0,
        decreases item_demand_qtys@.len() - i,
    {
        if item_demand_qtys[i] != 0 {
            return Err(MaterialiseError::MissingDemand);
        }
        i = i + 1;
    }
    let mut j: usize = 0;
    while j < feasible.len()
        invariant
            j <= feasible@.len(),
            forall|k: int| 0 <= k < j ==> #[trigger] feasible@[k],
            forall|k: int|
                0 <= k < item_demand_qtys@.len() ==> #[trigger] item_demand_qtys@[k] == 0,
        decreases feasible@.len() - j,
    {
        if !feasible[j] {
            return Err(MaterialiseError::Collides { position: j });
        }
        j = j + 1;
    }
    Ok(())
}

proof fn lemma_joined_orders(a: u32, b: u32, c: u32, d: u32)
    ensures
        joined(a, b) < joined(c, d) <==> a < c || (a == c && b < d),
        joined(a, b) == joined(c, d) <==> a == c && b == d,
{
    assert(a * 0x1_0000_0000 + b <= u64::MAX && c * 0x1_0000_0000 + d <= u64::MAX);
}

/// **An item is packed long along the band and slim across it**: of the orientations that fit, none is
/// longer than the chosen one, none of the same length is slimmer, and none of the same length and width
/// has a smaller angle.
pub proof fn lemma_orientation_is_long_and_slim(candidates: Seq<Orientation>, best: int, i: int)
    requires
        is_best_orientation(candidates, best),
        0 <= i < candidates.len(),
        candidates[i].fits,
    ensures
        candidates[best].fits,
        !candidates[best].along.less(candidates[i].along),
        candidates[i].along == candidates[best].along ==> !candidates[i].cross.less(
            candidates[best].cross,
        ),
        candidates[i].along == candidates[best].along && candidates[i].cross
            == candidates[best].cross ==> !candidates[i].rotation.less(candidates[best].rotation),
{
    let (a, b) = (candidates[i], candidates[best]);
    crate::scalar::lemma_key_is_order(b.along, a.along);
    crate::scalar::lemma_key_is_order(a.cross, b.cross);
    crate::scalar::lemma_key_is_order(a.rotation, b.rotation);
    lemma_joined_orders(
        (u32::MAX - a.along.key()) as u32,
        a.cross.key(),
        (u32::MAX - b.along.key()) as u32,
        b.cross.key(),
    );
    assert(!pair_less(orientation_key(a), orientation_key(b)));
}

/// **Boxes are packed longest first**: no box stands in front of a longer one; of boxes of the same length
/// none stands in front of a wider one, and of boxes of the same size they go by item.
pub proof fn lemma_boxes_come_longest_first(boxes: Seq<BoxItem>, i: int, j: int)
    requires
        boxes.len() <= usize::MAX,
        0 <= i < j < boxes.len(),
    ensures
        ({
            let order = order::positions_in_order(box_keys(boxes));
            let (a, b) = (boxes[order[i] as int], boxes[order[j] as int]);
            &&& order.len() == boxes.len()
            &&& order[i] < boxes.len() && order[j] < boxes.len()
            &&& order[i] != order[j]
            &&& !a.along.less(b.along)
            &&& a.along == b.along ==> !a.cross.less(b.cross)
            &&& a.along == b.along && a.cross == b.cross ==> a.item_id <= b.item_id
        }),
{
    let keys = box_keys(boxes);
    order::lemma_order_exists(keys);
    let order = order::positions_in_order(keys);
    let (a, b) = (boxes[order[i] as int], boxes[order[j] as int]);
    assert(order::key_less(order::full_key(keys, order[i]), order::full_key(keys, order[j])));
    crate::scalar::lemma_key_is_order(a.along, b.along);
    crate::scalar::lemma_key_is_order(a.cross, b.cross);
    lemma_joined_orders(
        (u32::MAX - a.along.key()) as u32,
        (u32::MAX - a.cross.key()) as u32,
        (u32::MAX - b.along.key()) as u32,
        (u32::MAX - b.cross.key()) as u32,
    );
    lemma_joined_orders(
        (u32::MAX - b.along.key()) as u32,
        (u32::MAX - b.cross.key()) as u32,
        (u32::MAX - a.along.key()) as u32,
        (u32::MAX - a.cross.key()) as u32,
    );
}

proof fn lemma_first_true(flags: Seq<bool>)
    ensures
        match first_true(flags) {
            Some(i) => 0 <= i < flags.len() && flags[i] && forall|k: int|
                0 <= k < i ==> !#[trigger] flags[k],
            None => forall|k: int| 0 <= k < flags.len() ==> !#[trigger] flags[k],
        },
    decreases flags.len(),
{
    if flags.len() > 0 {
        let first = flags.drop_last();
        lemma_first_true(first);
        assert forall|k: int| 0 <= k < first.len() implies #[trigger] flags[k] == first[k] by {}
    }
}

/// Whether a bin takes the box: onto one of its bands, or into a new one.
pub open spec fn takes(bands: Seq<bool>, fresh: bool) -> bool {
    fresh || exists|k: int| 0 <= k < bands.len() && #[trigger] bands[k]
}

/// **A box goes to the first bin that takes it**, onto the first band there that takes it, and into a new
/// band only if none does; it goes to no open bin only if none takes it.
pub proof fn lemma_first_fit_is_first(bands: Seq<Vec<bool>>, fresh: Seq<bool>, m: nat)
    requires
        m <= bands.len() <= usize::MAX,
        bands.len() == fresh.len(),
    ensures
        match first_fit(bands, fresh, m) {
            Some((bin, slot)) => {
                &&& bin < m
                &&& forall|i: int| 0 <= i < bin ==> !takes((#[trigger] bands[i])@, fresh[i])
                &&& match slot {
                    Slot::Band(j) => j < bands[bin as int]@.len() && bands[bin as int]@[j as int]
                        && forall|k: int| 0 <= k < j ==> !#[trigger] bands[bin as int]@[k],
                    Slot::NewBand => fresh[bin as int] && forall|k: int|
                        0 <= k < bands[bin as int]@.len() ==> !#[trigger] bands[bin as int]@[k],
                }
            },
            None => forall|i: int| 0 <= i < m ==> !takes((#[trigger] bands[i])@, fresh[i]),
        },
    decreases m,
{
    if m > 0 {
        lemma_first_fit_is_first(bands, fresh, (m - 1) as nat);
        lemma_first_true(bands[m - 1]@);
        assert(bands[m - 1].len() == bands[m - 1]@.len());
    }
}

/// **The least density is the least**: none is less, and it is one of them or, without any, infinite.
pub proof fn lemma_least_density_is_least(densities: Seq<Scalar>, m: nat)
    requires
        m <= densities.len(),
        forall|i: int| 0 <= i < m ==> !(#[trigger] densities[i]).nan(),
    ensures
        !least(densities, m).nan(),
        forall|i: int| 0 <= i < m ==> !(#[trigger] densities[i]).less(least(densities, m)),
        least(densities, m) == (Scalar { bits: INFINITE_MAGNITUDE }) || exists|i: int|
            0 <= i < m && #[trigger] densities[i] == least(densities, m),
    decreases m,
{
    if m > 0 {
        lemma_least_density_is_least(densities, (m - 1) as nat);
    }
}

/// **Fewer bins beat everything, and a sparser last bin decides a tie**; two starts with as many bins and
/// the same least density are equally good.
pub proof fn lemma_what_makes_a_start_better(a: StartStats, b: StartStats)
    ensures
        a.n_bins < b.n_bins ==> better(a, b) && !better(b, a),
        a.n_bins == b.n_bins && a.min_density.less(b.min_density) ==> better(a, b) && !better(b, a),
        a.n_bins == b.n_bins && a.min_density == b.min_density ==> !better(a, b) && !better(b, a),
{
}

/// **Every order of a packing is answered by its own report**: a bin that is opened by whether the box
/// fits; after a box is placed the next one is measured, as long as one is left.
pub proof fn lemma_packing_orders(
    s: ShelfPackingView,
    event: PackEvent,
    t: ShelfPackingView,
    action: PackAction,
    e: PackEvent,
)
    requires
        pack_wf(s),
        s.bins.len() <= usize::MAX,
        pack_expects(s, event),
        pack_allows(s, event, t, action),
    ensures
        pack_expects(t, e) == match action {
            PackAction::Open { .. } => e is Opened,
            PackAction::Place(_) => t.placements.len() < t.order.len() && (e matches
                PackEvent::Fits { bands, fresh, hosts } && bands@.len() == t.bins.len()
                && fresh@.len() == t.bins.len() && hosts@.len() == t.stock.len()),
            PackAction::NoStock { .. } | PackAction::DoesNotFit { .. } => false,
        },
        t.order == s.order && t.cost_per_area == s.cost_per_area,
        action matches PackAction::Place(p) ==> t.placements == s.placements.push(p) && p.position
            == s.order[s.placements.len() as int] && p.bin < t.bins.len() && t.bins == s.bins
            && t.stock == s.stock,
        action matches PackAction::Open { bin_id } ==> t.bins == s.bins.push(bin_id) && t.placements
            == s.placements && s.stock[bin_id as int] > 0,
        event matches PackEvent::Opened { fits } ==> (if fits {
            action matches PackAction::Place(p) && p.bin == s.bins.len() - 1 && p.slot is NewBand
        } else {
            action is DoesNotFit
        }),
{
    if let PackEvent::Fits { bands, fresh, hosts } = event {
        assert(bands.len() == bands@.len());
        lemma_first_fit_bounded(bands@, fresh@, bands@.len());
        if let PackAction::Open { bin_id } = action {
            assert(lbf::can_open(s.stock, hosts@, bin_id as int));
        }
    }
}

/// **A bin is opened only for a box that no open one takes, and a box is refused only for want of a bin.** A box
/// goes to an open bin exactly if one takes it; otherwise a bin of a type that is in stock and can host it is
/// opened, and only if there is no such type the packing fails.
pub proof fn lemma_a_bin_is_opened_only_if_needed(
    s: ShelfPackingView,
    bands: Vec<Vec<bool>>,
    fresh: Vec<bool>,
    hosts: Vec<bool>,
    t: ShelfPackingView,
    action: PackAction,
)
    requires
        pack_wf(s),
        pack_expects(s, PackEvent::Fits { bands, fresh, hosts }),
        pack_allows(s, PackEvent::Fits { bands, fresh, hosts }, t, action),
    ensures
        action is Place <==> exists|i: int|
            0 <= i < bands@.len() && takes((#[trigger] bands@[i])@, fresh@[i]),
        action is NoStock <==> {
            &&& forall|i: int| 0 <= i < bands@.len() ==> !takes((#[trigger] bands@[i])@, fresh@[i])
            &&& forall|k: int| 0 <= k < s.stock.len() ==> !((#[trigger] s.stock[k]) > 0 && hosts@[k])
        },
        action matches PackAction::Open { bin_id } ==> bin_id < s.stock.len() && s.stock[bin_id as int]
            > 0 && hosts@[bin_id as int] && t.stock[bin_id as int] == s.stock[bin_id as int] - 1,
        action is Place || action is Open || action is NoStock,
{
    assert(bands.len() == bands@.len());
    lemma_first_fit_is_first(bands@, fresh@, bands@.len());
    match first_fit(bands@, fresh@, bands@.len()) {
        Some((bin, slot)) => {
            assert(takes(bands@[bin as int]@, fresh@[bin as int]));
        },
        None => {
            match action {
                PackAction::Open { bin_id } => {
                    assert(lbf::can_open(s.stock, hosts@, bin_id as int));
                    assert(s.stock[bin_id as int] > 0);
                },
                PackAction::NoStock { .. } => {
                    assert forall|k: int| 0 <= k < s.stock.len() implies !((#[trigger] s.stock[k])
                        > 0 && hosts@[k]) by {
                        assert(!lbf::can_open(s.stock, hosts@, k));
                    }
                },
                _ => {},
            }
        },
    }
}

} // verus!
