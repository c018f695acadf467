//! Pack-down: moving items between bins, so that the leftover material ends up where it is most
//! useful.
use crate::config::PackDownStrategy;
use crate::optimizer::bpp::layouts;
use crate::optimizer::bpp::layouts::{
    find_item, find_layout, largest_first, ordered_layouts, LayKey, LayoutState, PItemKey, PlacedItem,
};
use crate::order;
use crate::order::order_by;
use crate::scalar::Scalar;
use vstd::multiset::Multiset;
use vstd::prelude::*;

verus! {

/// What one pack-down run did.
#[derive(Debug, Clone)]
pub struct PackDownStats {
    /// Items moved across a bin border.
    pub n_moved: usize,
    /// Full passes over all sources; one that was cut short does not count.
    pub n_passes: usize,
    /// Every layout that took a turn as source, in visit order, with repeats across passes.
    pub sources_visited: Vec<LayKey>,
}

/// One cross-bin move to try: the item `pk` of layout `src` into layout `dst`.
#[derive(Debug, Clone, Copy, PartialEq, Eq, Structural)]
pub struct Move {
    /// The layout the item leaves.
    pub src: LayKey,
    /// The item.
    pub pk: PItemKey,
    /// The layout the item is offered to.
    pub dst: LayKey,
}

/// Progress of a pack-down run.
///
/// ```text
/// repeat while a pass moves something:
///   for every open layout L, ascending density (Concentrate) / descending (Spread):
///     for every item of L, largest area first:
///       for every layout M denser than L (Concentrate) / sparser than L (Spread),
///           most free area first, skipping M whose free area < the item's area:
///         try to move the item from L to M
/// ```
#[derive(Debug)]
pub struct PackDown {
    /// Direction of the moves.
    pub strategy: PackDownStrategy,
    /// What has been done so far.
    pub stats: PackDownStats,
    /// The first pass has begun.
    pub started: bool,
    /// Items moved in the current pass.
    pub moved_this_pass: usize,
    /// The sources of the current pass, of which the first `next_source` have had their turn.
    pub sources: Vec<LayKey>,
    /// Position in `sources`.
    pub next_source: usize,
    /// The layout whose turn it is, with its density at the start of the turn.
    pub src: Option<(LayKey, Scalar)>,
    /// The items of the source, of which the first `next_item` have been offered.
    pub items: Vec<PItemKey>,
    /// Position in `items`.
    pub next_item: usize,
    /// The item that is being offered.
    pub item: Option<PItemKey>,
    /// The destinations of that item, of which the first `next_destination` have been tried.
    pub destinations: Vec<LayKey>,
    /// Position in `destinations`.
    pub next_destination: usize,
    /// The best solution so far, as a handle of the caller.
    pub best: usize,
    /// Nothing is left to try.
    pub finished: bool,
}

/// A [`PackDown`] with sequences in place of vectors.
#[verifier::ext_equal]
pub struct PackDownView {
    pub strategy: PackDownStrategy,
    pub n_moved: nat,
    pub n_passes: nat,
    pub sources_visited: Seq<LayKey>,
    pub started: bool,
    pub moved_this_pass: nat,
    pub sources: Seq<LayKey>,
    pub next_source: nat,
    pub src: Option<(LayKey, Scalar)>,
    pub items: Seq<PItemKey>,
    pub next_item: nat,
    pub item: Option<PItemKey>,
    pub destinations: Seq<LayKey>,
    pub next_destination: nat,
    pub best: usize,
    pub finished: bool,
}

impl View for PackDown {
    type V = PackDownView;

    open spec fn view(&self) -> PackDownView {
        PackDownView {
            strategy: self.strategy,
            n_moved: self.stats.n_moved as nat,
            n_passes: self.stats.n_passes as nat,
            sources_visited: self.stats.sources_visited@,
            started: self.started,
            moved_this_pass: self.moved_this_pass as nat,
            sources: self.sources@,
            next_source: self.next_source as nat,
            src: self.src,
            items: self.items@,
            next_item: self.next_item as nat,
            item: self.item,
            destinations: self.destinations@,
            next_destination: self.next_destination as nat,
            best: self.best,
            finished: self.finished,
        }
    }
}

/// Whether a layout may receive an item of area `area` from a source of density `src_density`:
/// it lies on the far side of the source in the density order and has the area free.
pub open spec fn eligible(
    l: LayoutState,
    strategy: PackDownStrategy,
    src: LayKey,
    src_density: Scalar,
    area: Scalar,
) -> bool {
    l.key != src && strategy.accepts(src_density, l.density) && area.less_or_equal(l.free_area)
}

/// The layouts that may receive the item, in the order in which they stand.
pub open spec fn eligible_layouts(
    layouts: Seq<LayoutState>,
    strategy: PackDownStrategy,
    src: LayKey,
    src_density: Scalar,
    area: Scalar,
) -> Seq<LayoutState> {
    layouts.filter(|l: LayoutState| eligible(l, strategy, src, src_density, area))
}

/// The sort keys of destinations: most free area first, ties by key.
pub open spec fn free_keys(layouts: Seq<LayoutState>) -> Seq<(u64, u64)> {
    layouts.map_values(|l: LayoutState| (layouts::descending(l.free_area), l.key.rank))
}

/// The destinations of an item, most free area first, ties by key.
pub open spec fn destinations_of(
    layouts: Seq<LayoutState>,
    strategy: PackDownStrategy,
    src: LayKey,
    src_density: Scalar,
    area: Scalar,
) -> Seq<LayKey> {
    let chosen = eligible_layouts(layouts, strategy, src, src_density, area);
    layouts::keys_at(chosen, order::positions_in_order(free_keys(chosen)))
}

/// The keys of placed items.
pub open spec fn item_keys(items: Seq<PlacedItem>) -> Seq<PItemKey> {
    items.map_values(|p: PlacedItem| p.key)
}

/// One step of a run that looks at the open layouts.
pub enum PackDownStep {
    /// Keep looking.
    Next(PackDownView),
    /// Try this move.
    Offer(PackDownView, Move),
    /// The run is over.
    Stop(PackDownView),
}

/// The next destination of the item on offer, or the end of the offer: a source that is closed or
/// no longer holds the item ends it, a destination that is closed is skipped.
pub open spec fn step_destination(
    s: PackDownView,
    layouts: Seq<LayoutState>,
    src: LayKey,
    pk: PItemKey,
) -> PackDownStep {
    let withdrawn = PackDownView { item: None, ..s };
    let p = layouts::layout_position(layouts, src);
    if s.next_destination >= s.destinations.len() {
        PackDownStep::Next(withdrawn)
    } else if p >= layouts.len() {
        PackDownStep::Next(withdrawn)
    } else {
        let dst = s.destinations[s.next_destination as int];
        let tried = PackDownView { next_destination: s.next_destination + 1, ..s };
        if !layouts::has_layout(layouts, dst) {
            PackDownStep::Next(tried)
        } else if !layouts::has_item(layouts[p].items@, pk) {
            PackDownStep::Next(withdrawn)
        } else {
            PackDownStep::Offer(tried, Move { src, pk, dst })
        }
    }
}

/// The next item of the source, or the end of its turn.
pub open spec fn step_item(
    s: PackDownView,
    layouts: Seq<LayoutState>,
    src: LayKey,
    src_density: Scalar,
) -> PackDownStep {
    let p = layouts::layout_position(layouts, src);
    if s.next_item >= s.items.len() || p >= layouts.len() {
        PackDownStep::Next(PackDownView { src: None, ..s })
    } else {
        let pk = s.items[s.next_item as int];
        let offered = PackDownView { next_item: s.next_item + 1, ..s };
        let q = layouts::item_position(layouts[p].items@, pk);
        if q >= layouts[p].items@.len() {
            PackDownStep::Next(offered)
        } else {
            PackDownStep::Next(
                PackDownView {
                    item: Some(pk),
                    destinations: destinations_of(
                        layouts,
                        s.strategy,
                        src,
                        src_density,
                        layouts[p].items@[q].area,
                    ),
                    next_destination: 0,
                    ..offered
                },
            )
        }
    }
}

/// The next source of the pass. A single open layout ends the run.
pub open spec fn step_source(s: PackDownView, layouts: Seq<LayoutState>) -> PackDownStep {
    let key = s.sources[s.next_source as int];
    let passed = PackDownView { next_source: s.next_source + 1, ..s };
    let p = layouts::layout_position(layouts, key);
    if layouts.len() < 2 {
        PackDownStep::Stop(PackDownView { finished: true, ..s })
    } else if p >= layouts.len() {
        PackDownStep::Next(passed)
    } else {
        PackDownStep::Next(
            PackDownView {
                src: Some((key, layouts[p].density)),
                items: item_keys(layouts::items_by_area(layouts[p].items@)),
                next_item: 0,
                sources_visited: s.sources_visited.push(key),
                ..passed
            },
        )
    }
}

/// The end of a pass, if one has begun, and the next pass, unless that one moved nothing.
pub open spec fn step_pass(s: PackDownView, layouts: Seq<LayoutState>) -> PackDownStep {
    let n_passes = if s.started {
        s.n_passes + 1
    } else {
        s.n_passes
    };
    if s.started && s.moved_this_pass == 0 {
        PackDownStep::Stop(PackDownView { n_passes, finished: true, ..s })
    } else {
        PackDownStep::Next(
            PackDownView {
                n_passes,
                started: true,
                moved_this_pass: 0,
                sources: layouts::layouts_by_density(
                    layouts,
                    s.strategy == PackDownStrategy::Concentrate,
                ),
                next_source: 0,
                ..s
            },
        )
    }
}

/// One step of a run.
pub open spec fn pack_down_step(s: PackDownView, layouts: Seq<LayoutState>) -> PackDownStep {
    match (s.item, s.src) {
        (Some(pk), Some((src, _))) => step_destination(s, layouts, src, pk),
        (None, Some((src, density))) => step_item(s, layouts, src, density),
        _ => if s.next_source < s.sources.len() {
            step_source(s, layouts)
        } else {
            step_pass(s, layouts)
        },
    }
}

/// Passes that the run can still start without another accepted move.
pub open spec fn passes_left(s: PackDownView) -> nat {
    if !s.started || s.moved_this_pass > 0 {
        1
    } else {
        0
    }
}

/// What is left of `len` entries after the first `next`.
pub open spec fn left(len: nat, next: nat) -> nat {
    if next < len {
        (len - next) as nat
    } else {
        0
    }
}

/// 1 for a pending entry, 0 for none.
pub open spec fn pending<T>(o: Option<T>) -> nat {
    if o is Some {
        1
    } else {
        0
    }
}

/// An item is on offer only during a turn of a source.
pub open spec fn consistent(s: PackDownView) -> bool {
    s.item is Some ==> s.src is Some
}

/// Steps until a move is offered or the run is over.
pub open spec fn pack_down_advance(s: PackDownView, layouts: Seq<LayoutState>) -> (
    PackDownView,
    Option<Move>,
)
    decreases
            passes_left(s),
            left(s.sources.len(), s.next_source),
            pending(s.src),
            left(s.items.len(), s.next_item),
            pending(s.item),
            left(s.destinations.len(), s.next_destination),
    when consistent(s)
{
    match pack_down_step(s, layouts) {
        PackDownStep::Next(t) => pack_down_advance(t, layouts),
        PackDownStep::Offer(t, m) => (t, Some(m)),
        PackDownStep::Stop(t) => (t, None),
    }
}

fn destinations(
    layouts: &Vec<LayoutState>,
    strategy: PackDownStrategy,
    src: LayKey,
    src_density: Scalar,
    area: Scalar,
) -> (r: Vec<LayKey>)
    ensures
        r@ == destinations_of(layouts@, strategy, src, src_density, area),
{
    let ghost pred = |l: LayoutState| eligible(l, strategy, src, src_density, area);
    let mut chosen: Vec<LayKey> = Vec::new();
    let mut keys: Vec<(u64, u64)> = Vec::new();
    let mut i: usize = 0;
    proof {
        reveal(Seq::filter);
    }
    while i < layouts.len()
        invariant
            i <= layouts@.len(),
            pred == (|l: LayoutState| eligible(l, strategy, src, src_density, area)),
            chosen@ == layouts@.take(i as int).filter(pred).map_values(|l: LayoutState| l.key),
            keys@ == free_keys(layouts@.take(i as int).filter(pred)),
        decreases layouts@.len() - i,
    {
        let ghost before = layouts@.take(i as int).filter(pred);
        proof {
            reveal(Seq::filter);
            assert(layouts@.take(i + 1).drop_last() =~= layouts@.take(i as int));
            assert(layouts@.take(i + 1).last() == layouts@[i as int]);
        }
        let l = &layouts[i];
        if l.key != src && strategy.accepts_destination(src_density, l.density) && area.le(
            l.free_area,
        ) {
            assert(layouts@.take(i + 1).filter(pred) == before.push(layouts@[i as int]));
            chosen.push(l.key);
            let free: u32 = u32::MAX - l.free_area.order_key();
            keys.push((free as u64, l.key.rank));
            assert(keys@ =~= free_keys(before.push(layouts@[i as int])));
            assert(chosen@ =~= before.push(layouts@[i as int]).map_values(
                |l: LayoutState| l.key,
            ));
        } else {
            assert(layouts@.take(i + 1).filter(pred) == before);
        }
        i = i + 1;
    }
    assert(layouts@.take(i as int) =~= layouts@);
    let order = order_by(&keys);
    let mut r: Vec<LayKey> = Vec::new();
    let mut j: usize = 0;
    while j < order.len()
        invariant
            j <= order@.len(),
            forall|k: int| 0 <= k < order@.len() ==> (#[trigger] order@[k]) < chosen@.len(),
            r@.len() == j,
            forall|k: int| 0 <= k < j ==> #[trigger] r@[k] == chosen@[order@[k] as int],
        decreases order@.len() - j,
    {
        r.push(chosen[order[j]]);
        j = j + 1;
    }
    assert(r@ =~= destinations_of(layouts@, strategy, src, src_density, area));
    r
}

fn keys_of(items: &Vec<PlacedItem>) -> (r: Vec<PItemKey>)
    ensures
        r@ == item_keys(items@),
{
    let mut r: Vec<PItemKey> = Vec::new();
    let mut i: usize = 0;
    while i < items.len()
        invariant
            i <= items@.len(),
            r@.len() == i,
            forall|k: int| 0 <= k < i ==> #[trigger] r@[k] == items@[k].key,
        decreases items@.len() - i,
    {
        r.push(items[i].key);
        i = i + 1;
    }
    assert(r@ =~= item_keys(items@));
    r
}

/// Outcome of one step.
enum Progress {
    Looking,
    Offered(Move),
    Over,
}

impl PackDown {
    /// A run over `n_layouts` open layouts, starting from the feasible solution `start`. With
    /// fewer than two layouts there is nothing to pack down.
    pub fn new(strategy: PackDownStrategy, n_layouts: usize, start: usize) -> (r: PackDown)
        ensures
            r@ == pack_down_start(strategy, n_layouts, start),
            consistent(r@),
    {
        PackDown {
            strategy,
            stats: PackDownStats { n_moved: 0, n_passes: 0, sources_visited: Vec::new() },
            started: false,
            moved_this_pass: 0,
            sources: Vec::new(),
            next_source: 0,
            src: None,
            items: Vec::new(),
            next_item: 0,
            item: None,
            destinations: Vec::new(),
            next_destination: 0,
            best: start,
            finished: n_layouts < 2,
        }
    }

    fn step(&mut self, layouts: &Vec<LayoutState>) -> (r: Progress)
        requires
            consistent(old(self)@),
            old(self)@.n_passes < usize::MAX,
        ensures
            match pack_down_step(old(self)@, layouts@) {
                PackDownStep::Next(t) => final(self)@ == t && r is Looking,
                PackDownStep::Offer(t, m) => final(self)@ == t && r == Progress::Offered(m),
                PackDownStep::Stop(t) => final(self)@ == t && r is Over,
            },
    {
        match self.src {
            Some((src, density)) => {
                let found = find_layout(layouts, src);
                match self.item {
                    Some(pk) => {
                        if self.next_destination >= self.destinations.len() {
                            self.item = None;
                            return Progress::Looking;
                        }
                        match found {
                            None => {
                                self.item = None;
                                Progress::Looking
                            },
                            Some(p) => {
                                let dst = self.destinations[self.next_destination];
                                let dst_found = find_layout(layouts, dst);
                                if dst_found.is_none() {
                                    self.next_destination = self.next_destination + 1;
                                    return Progress::Looking;
                                }
                                if find_item(&layouts[p].items, pk).is_none() {
                                    self.item = None;
                                    return Progress::Looking;
                                }
                                self.next_destination = self.next_destination + 1;
                                Progress::Offered(Move { src, pk, dst })
                            },
                        }
                    },
                    None => {
                        if self.next_item >= self.items.len() {
                            self.src = None;
                            return Progress::Looking;
                        }
                        match found {
                            None => {
                                self.src = None;
                                Progress::Looking
                            },
                            Some(p) => {
                                let pk = self.items[self.next_item];
                                self.next_item = self.next_item + 1;
                                match find_item(&layouts[p].items, pk) {
                                    None => Progress::Looking,
                                    Some(q) => {
                                        let area = layouts[p].items[q].area;
                                        self.destinations = destinations(
                                            layouts,
                                            self.strategy,
                                            src,
                                            density,
                                            area,
                                        );
                                        self.next_destination = 0;
                                        self.item = Some(pk);
                                        Progress::Looking
                                    },
                                }
                            },
                        }
                    },
                }
            },
            None => {
                if self.next_source < self.sources.len() {
                    if layouts.len() < 2 {
                        self.finished = true;
                        return Progress::Over;
                    }
                    let key = self.sources[self.next_source];
                    self.next_source = self.next_source + 1;
                    match find_layout(layouts, key) {
                        None => Progress::Looking,
                        Some(p) => {
                            self.src = Some((key, layouts[p].density));
                            let sorted = largest_first(&layouts[p].items);
                            self.items = keys_of(&sorted);
                            self.next_item = 0;
                            self.stats.sources_visited.push(key);
                            Progress::Looking
                        },
                    }
                } else {
                    if self.started {
                        self.stats.n_passes = self.stats.n_passes + 1;
                        if self.moved_this_pass == 0 {
                            self.finished = true;
                            return Progress::Over;
                        }
                    }
                    self.started = true;
                    self.moved_this_pass = 0;
                    self.sources = ordered_layouts(layouts, self.strategy.source_ascending());
                    self.next_source = 0;
                    Progress::Looking
                }
            },
        }
    }
}

/// The start of a run.
pub open spec fn pack_down_start(
    strategy: PackDownStrategy,
    n_layouts: usize,
    start: usize,
) -> PackDownView {
    PackDownView {
        strategy,
        n_moved: 0,
        n_passes: 0,
        sources_visited: seq![],
        started: false,
        moved_this_pass: 0,
        sources: seq![],
        next_source: 0,
        src: None,
        items: seq![],
        next_item: 0,
        item: None,
        destinations: seq![],
        next_destination: 0,
        best: start,
        finished: n_layouts < 2,
    }
}

/// What the engine reports to a pack-down run.
pub enum PackDownEvent {
    /// The open layouts as they are now, and whether the time is up.
    Observed {
        /// The phase has to stop.
        killed: bool,
        /// The open layouts, in slot order.
        layouts: Vec<LayoutState>,
    },
    /// The offered item was moved and the layouts were separated.
    Separated {
        /// Total collision loss that is left over all layouts.
        loss: Scalar,
        /// Every layout is collision-free and the full demand is placed.
        valid: bool,
        /// Handle of the resulting solution.
        solution: usize,
    },
    /// The move was not tried: the destination clearly cannot host the item, or the item does not
    /// fit into it in any rotation. Nothing was changed.
    NotTried,
}

/// What the engine has to do next in a pack-down run.
#[derive(Debug, Clone, Copy, PartialEq, Eq, Structural)]
pub enum PackDownAction {
    /// Try this move, then report how it went.
    Try(Move),
    /// Keep the result as the best solution, then observe.
    Accept,
    /// Restore the state from before the move, then observe.
    Reject,
    /// Observe.
    Skip,
    /// Return the best solution.
    Finish,
}

/// What a run does on an event.
pub open spec fn pack_down_next(s: PackDownView, event: PackDownEvent) -> (
    PackDownView,
    PackDownAction,
) {
    match event {
        PackDownEvent::Observed { killed, layouts } => if s.finished || killed {
            (PackDownView { finished: true, ..s }, PackDownAction::Finish)
        } else {
            match pack_down_advance(s, layouts@) {
                (t, Some(m)) => (t, PackDownAction::Try(m)),
                (t, None) => (t, PackDownAction::Finish),
            }
        },
        PackDownEvent::Separated { loss, valid, solution } => if settles(loss) && valid {
            (
                PackDownView {
                    n_moved: s.n_moved + 1,
                    moved_this_pass: s.moved_this_pass + 1,
                    best: solution,
                    item: None,
                    ..s
                },
                PackDownAction::Accept,
            )
        } else {
            (s, PackDownAction::Reject)
        },
        PackDownEvent::NotTried => (s, PackDownAction::Skip),
    }
}

/// No collision is left.
pub open spec fn settles(loss: Scalar) -> bool {
    !loss.nan() && loss.value() == 0
}

/// Advances a pack-down run by one event: moves items between bins so that the leftover material
/// concentrates (or, under [`PackDownStrategy::Spread`], evens out).
pub fn pack_down(run: &mut PackDown, event: PackDownEvent) -> (action: PackDownAction)
    requires
        consistent(old(run)@),
        old(run)@.n_passes + 1 < usize::MAX,
        old(run)@.n_moved < usize::MAX,
        old(run)@.moved_this_pass < usize::MAX,
    ensures
        (final(run)@, action) == pack_down_next(old(run)@, event),
        consistent(final(run)@),
{
    match event {
        PackDownEvent::Observed { killed, layouts } => {
            if run.finished || killed {
                run.finished = true;
                return PackDownAction::Finish;
            }
            let ghost start = run@;
            loop
                invariant
                    consistent(run@),
                    passes_left(run@) + run@.n_passes < usize::MAX,
                    pack_down_advance(run@, layouts@) == pack_down_advance(start, layouts@),
                    start == old(run)@,
                    !start.finished,
                    !killed,
                    event == (PackDownEvent::Observed { killed, layouts }),
                decreases
                        passes_left(run@),
                        left(run@.sources.len(), run@.next_source),
                        pending(run@.src),
                        left(run@.items.len(), run@.next_item),
                        pending(run@.item),
                        left(run@.destinations.len(), run@.next_destination),
            {
                match run.step(&layouts) {
                    Progress::Looking => {},
                    Progress::Offered(m) => {
                        return PackDownAction::Try(m);
                    },
                    Progress::Over => {
                        return PackDownAction::Finish;
                    },
                }
            }
        },
        PackDownEvent::Separated { loss, valid, solution } => {
            if loss.is_zero() && valid {
                run.stats.n_moved = run.stats.n_moved + 1;
                run.moved_this_pass = run.moved_this_pass + 1;
                run.best = solution;
                run.item = None;
                PackDownAction::Accept
            } else {
                PackDownAction::Reject
            }
        },
        PackDownEvent::NotTried => PackDownAction::Skip,
    }
}

/// Steps to the end of the run over layouts that never change, with every offered move failing.
pub open spec fn pack_down_drain(s: PackDownView, layouts: Seq<LayoutState>) -> PackDownView
    decreases
            passes_left(s),
            left(s.sources.len(), s.next_source),
            pending(s.src),
            left(s.items.len(), s.next_item),
            pending(s.item),
            left(s.destinations.len(), s.next_destination),
    when consistent(s)
{
    match pack_down_step(s, layouts) {
        PackDownStep::Next(t) => pack_down_drain(t, layouts),
        PackDownStep::Offer(t, _) => pack_down_drain(t, layouts),
        PackDownStep::Stop(t) => t,
    }
}

proof fn lemma_pass_visits(s: PackDownView, layouts: Seq<LayoutState>)
    requires
        consistent(s),
        layouts.len() >= 2,
        s.started,
        s.moved_this_pass == 0,
        s.next_source <= s.sources.len(),
        forall|i: int| 0 <= i < s.sources.len() ==> layouts::has_layout(layouts, #[trigger] s.sources[i]),
    ensures
        pack_down_drain(s, layouts).sources_visited == s.sources_visited + s.sources.skip(
            s.next_source as int,
        ),
        pack_down_drain(s, layouts).finished,
        pack_down_drain(s, layouts).n_passes == s.n_passes + 1,
    decreases
            left(s.sources.len(), s.next_source),
            pending(s.src),
            left(s.items.len(), s.next_item),
            pending(s.item),
            left(s.destinations.len(), s.next_destination),
{
    match pack_down_step(s, layouts) {
        PackDownStep::Next(t) => {
            if s.src is None && s.next_source < s.sources.len() {
                let key = s.sources[s.next_source as int];
                layouts::lemma_present(layouts, key);
            }
            lemma_pass_visits(t, layouts);
            assert(s.sources_visited + s.sources.skip(s.next_source as int)
                =~= t.sources_visited + t.sources.skip(t.next_source as int));
        },
        PackDownStep::Offer(t, _) => {
            lemma_pass_visits(t, layouts);
        },
        PackDownStep::Stop(t) => {
            assert(s.sources.skip(s.next_source as int) =~= Seq::<LayKey>::empty());
        },
    }
}

/// **Every open bin takes a turn as source.** A run over two or more layouts in which no move
/// succeeds ends only after each of them has been a source, in density order, in one full pass.
pub proof fn lemma_every_bin_takes_a_turn(
    strategy: PackDownStrategy,
    layouts: Seq<LayoutState>,
    start: usize,
)
    requires
        2 <= layouts.len() <= usize::MAX,
    ensures
        ({
            let end = pack_down_drain(
                pack_down_start(strategy, layouts.len() as usize, start),
                layouts,
            );
            &&& end.finished
            &&& end.n_passes == 1
            &&& end.sources_visited == layouts::layouts_by_density(
                layouts,
                strategy == PackDownStrategy::Concentrate,
            )
            &&& forall|i: int|
                0 <= i < layouts.len() ==> end.sources_visited.contains(
                    (#[trigger] layouts[i]).key,
                )
        }),
{
    let s = pack_down_start(strategy, layouts.len() as usize, start);
    let up = strategy == PackDownStrategy::Concentrate;
    match pack_down_step(s, layouts) {
        PackDownStep::Next(t) => {
            layouts::lemma_layouts_by_density(layouts, up);
            lemma_pass_visits(t, layouts);
            assert(t.sources_visited + t.sources.skip(0) =~= t.sources);
            assert(pack_down_drain(s, layouts) == pack_down_drain(t, layouts));
        },
        _ => {},
    }
}

/// A listed destination is another open layout, on the far side of the source in the density
/// order, with enough free area for the item.
pub proof fn lemma_destinations_eligible(
    layouts: Seq<LayoutState>,
    strategy: PackDownStrategy,
    src: LayKey,
    src_density: Scalar,
    area: Scalar,
    dst: LayKey,
)
    requires
        layouts.len() <= usize::MAX,
        destinations_of(layouts, strategy, src, src_density, area).contains(dst),
    ensures
        dst != src,
        exists|i: int|
            0 <= i < layouts.len() && (#[trigger] layouts[i]).key == dst && eligible(
                layouts[i],
                strategy,
                src,
                src_density,
                area,
            ),
{
    let pred = |l: LayoutState| eligible(l, strategy, src, src_density, area);
    let chosen = eligible_layouts(layouts, strategy, src, src_density, area);
    let keys = free_keys(chosen);
    layouts.lemma_filter_len(pred);
    order::lemma_order_exists(keys);
    let order = order::positions_in_order(keys);
    let d = destinations_of(layouts, strategy, src, src_density, area);
    let k = choose|k: int| 0 <= k < d.len() && d[k] == dst;
    let l = chosen[order[k] as int];
    assert(l.key == dst);
    assert(chosen.contains(l));
    layouts.lemma_filter_contains_rev(pred, l);
    layouts.lemma_filter_pred(pred, order[k] as int);
    let i = choose|i: int| 0 <= i < layouts.len() && layouts[i] == l;
    assert(layouts[i].key == dst);
}

/// The state after a sequence of events.
pub open spec fn pack_down_after(s: PackDownView, events: Seq<PackDownEvent>) -> PackDownView
    decreases events.len(),
{
    if events.len() == 0 {
        s
    } else {
        pack_down_next(pack_down_after(s, events.drop_last()), events.last()).0
    }
}

/// The event that makes a solution acceptable.
pub open spec fn reports_feasible(event: PackDownEvent, solution: usize) -> bool {
    event matches PackDownEvent::Separated { loss, valid, solution: sol } && settles(loss) && valid
        && sol == solution
}

proof fn lemma_advance_keeps(s: PackDownView, layouts: Seq<LayoutState>)
    requires
        consistent(s),
    ensures
        ({
            let t = pack_down_advance(s, layouts).0;
            t.best == s.best && t.n_moved == s.n_moved && consistent(t) && t.strategy == s.strategy
        }),
    decreases
            passes_left(s),
            left(s.sources.len(), s.next_source),
            pending(s.src),
            left(s.items.len(), s.next_item),
            pending(s.item),
            left(s.destinations.len(), s.next_destination),
{
    match pack_down_step(s, layouts) {
        PackDownStep::Next(t) => {
            lemma_advance_keeps(t, layouts);
        },
        _ => {},
    }
}

/// The source has had its turn, or is still to have it.
pub open spec fn turn_is_safe(s: PackDownView, key: LayKey) -> bool {
    s.sources_visited.contains(key) || (!s.finished && if !s.started {
        s.sources.len() == 0 && s.src is None
    } else {
        exists|j: int| s.next_source <= j < s.sources.len() && #[trigger] s.sources[j] == key
    })
}

/// In all observations there is time left, and the bin is open, along with another one.
pub open spec fn stays_open(events: Seq<PackDownEvent>, key: LayKey) -> bool {
    forall|i: int|
        0 <= i < events.len() ==> match #[trigger] events[i] {
            PackDownEvent::Observed { killed, layouts } => !killed && open_among_others(
                layouts@,
                key,
            ),
            _ => true,
        }
}

/// The bin is open, along with another one.
pub open spec fn open_among_others(layouts: Seq<LayoutState>, key: LayKey) -> bool {
    &&& 2 <= layouts.len() <= usize::MAX
    &&& layouts::has_layout(layouts, key)
}

proof fn lemma_step_keeps_the_turn(s: PackDownView, layouts: Seq<LayoutState>, key: LayKey)
    requires
        consistent(s),
        turn_is_safe(s, key),
        open_among_others(layouts, key),
    ensures
        match pack_down_step(s, layouts) {
            PackDownStep::Next(t) => turn_is_safe(t, key),
            PackDownStep::Offer(t, _) => turn_is_safe(t, key),
            PackDownStep::Stop(t) => turn_is_safe(t, key),
        },
{
    layouts::lemma_present(layouts, key);
    let t = match pack_down_step(s, layouts) {
        PackDownStep::Next(t) => t,
        PackDownStep::Offer(t, _) => t,
        PackDownStep::Stop(t) => t,
    };
    if s.sources_visited.contains(key) {
        let i = choose|i: int| 0 <= i < s.sources_visited.len() && s.sources_visited[i] == key;
        assert(t.sources_visited[i] == key);
    } else if !s.started {
        let up = s.strategy == PackDownStrategy::Concentrate;
        layouts::lemma_layouts_by_density(layouts, up);
        let i = choose|i: int| 0 <= i < layouts.len() && (#[trigger] layouts[i]).key == key;
        assert(layouts::layouts_by_density(layouts, up).contains(layouts[i].key));
        let j = choose|j: int| 0 <= j < t.sources.len() && t.sources[j] == key;
        assert(t.sources[j] == key);
    } else {
        let j = choose|j: int| s.next_source <= j < s.sources.len() && #[trigger] s.sources[j] == key;
        assert(t.sources[j] == key);
        if s.src is None && j == s.next_source {
            assert(t.sources_visited.last() == key);
        }
    }
}

proof fn lemma_advance_keeps_the_turn(s: PackDownView, layouts: Seq<LayoutState>, key: LayKey)
    requires
        consistent(s),
        turn_is_safe(s, key),
        open_among_others(layouts, key),
    ensures
        turn_is_safe(pack_down_advance(s, layouts).0, key),
    decreases
            passes_left(s),
            left(s.sources.len(), s.next_source),
            pending(s.src),
            left(s.items.len(), s.next_item),
            pending(s.item),
            left(s.destinations.len(), s.next_destination),
{
    lemma_step_keeps_the_turn(s, layouts, key);
    if let PackDownStep::Next(t) = pack_down_step(s, layouts) {
        lemma_advance_keeps_the_turn(t, layouts, key);
    }
}

proof fn lemma_turns_are_safe(s: PackDownView, events: Seq<PackDownEvent>, key: LayKey)
    requires
        consistent(s),
        turn_is_safe(s, key),
        stays_open(events, key),
    ensures
        consistent(pack_down_after(s, events)),
        turn_is_safe(pack_down_after(s, events), key),
    decreases events.len(),
{
    if events.len() > 0 {
        let earlier = events.drop_last();
        assert forall|i: int| 0 <= i < earlier.len() implies match #[trigger] earlier[i] {
            PackDownEvent::Observed { killed, layouts } => !killed && open_among_others(
                layouts@,
                key,
            ),
            _ => true,
        } by {
            assert(earlier[i] == events[i]);
        }
        lemma_turns_are_safe(s, earlier, key);
        let before = pack_down_after(s, earlier);
        if let PackDownEvent::Observed { killed, layouts } = events[events.len() - 1] {
            lemma_advance_keeps(before, layouts@);
            if !before.finished {
                lemma_advance_keeps_the_turn(before, layouts@, key);
            }
        } else if !before.sources_visited.contains(key) && before.started {
            let j = choose|j: int|
                before.next_source <= j < before.sources.len() && #[trigger] before.sources[j] == key;
            assert(pack_down_after(s, events).sources[j] == key);
        }
    }
}

/// **No open bin is passed over.** Whatever is moved in the meantime: when a run ends with time left,
/// every bin that was open all along, and never the only one, has taken a turn as source.
pub proof fn lemma_no_open_bin_is_passed_over(
    strategy: PackDownStrategy,
    n_layouts: usize,
    start: usize,
    events: Seq<PackDownEvent>,
    key: LayKey,
)
    requires
        n_layouts >= 2,
        stays_open(events, key),
        pack_down_after(pack_down_start(strategy, n_layouts, start), events).finished,
    ensures
        pack_down_after(
            pack_down_start(strategy, n_layouts, start),
            events,
        ).sources_visited.contains(key),
{
    lemma_turns_are_safe(pack_down_start(strategy, n_layouts, start), events, key);
}

/// **The result of a pack-down run is always feasible**: it is the solution the run started from,
/// or one that was reported with no collision left and the full demand placed.
pub proof fn lemma_pack_down_result_is_feasible(s: PackDownView, events: Seq<PackDownEvent>)
    requires
        consistent(s),
    ensures
        ({
            let t = pack_down_after(s, events);
            &&& consistent(t)
            &&& t.n_moved >= s.n_moved
            &&& t.n_moved == s.n_moved ==> t.best == s.best
            &&& t.best == s.best || exists|i: int|
                0 <= i < events.len() && reports_feasible(#[trigger] events[i], t.best)
        }),
    decreases events.len(),
{
    if events.len() > 0 {
        let before = pack_down_after(s, events.drop_last());
        lemma_pack_down_result_is_feasible(s, events.drop_last());
        let t = pack_down_after(s, events);
        if let PackDownEvent::Observed { killed, layouts } = events.last() {
            lemma_advance_keeps(before, layouts@);
        }
        if t.best == before.best {
            if t.best != s.best {
                let i = choose|i: int|
                    0 <= i < events.len() - 1 && reports_feasible(
                        #[trigger] events.drop_last()[i],
                        before.best,
                    );
                assert(reports_feasible(events[i], t.best));
            }
        } else {
            assert(reports_feasible(events[events.len() - 1], t.best));
        }
    }
}

/// **A pack-down of a feasible solution returns a feasible one**, if every solution that is reported as
/// acceptable is feasible.
pub proof fn lemma_pack_down_stays_feasible(
    s: PackDownView,
    events: Seq<PackDownEvent>,
    feasible: spec_fn(usize) -> bool,
)
    requires
        consistent(s),
        feasible(s.best),
        forall|k: int, solution: usize|
            0 <= k < events.len() && #[trigger] reports_feasible(events[k], solution) ==> feasible(
                solution,
            ),
    ensures
        feasible(pack_down_after(s, events).best),
{
    lemma_pack_down_result_is_feasible(s, events);
}

/// The bins that are open after a move: those from before, without the one that the item leaves if it
/// was the only item there.
pub open spec fn bins_after(layouts: Seq<LayoutState>, m: Move) -> Multiset<usize> {
    let src = layouts[layouts::layout_position(layouts, m.src)];
    if src.items@.len() == 1 {
        layouts::bins_of(layouts).remove(src.bin_id)
    } else {
        layouts::bins_of(layouts)
    }
}

/// The engine does as it is told, `bins` being the open bins of every solution: it observes the best
/// solution, and a move that it reports is the one that it was to try.
pub open spec fn follows(
    s: PackDownView,
    events: Seq<PackDownEvent>,
    bins: spec_fn(usize) -> Multiset<usize>,
) -> bool
    decreases events.len(),
{
    events.len() == 0 || {
        let earlier = events.drop_last();
        &&& follows(s, earlier, bins)
        &&& match events.last() {
            PackDownEvent::Observed { layouts, .. } => layouts::bins_of(layouts@) == bins(
                pack_down_after(s, earlier).best,
            ),
            PackDownEvent::Separated { solution, .. } => earlier.len() > 0 && match (
                earlier.last(),
                pack_down_next(pack_down_after(s, earlier.drop_last()), earlier.last()).1,
            ) {
                (PackDownEvent::Observed { layouts, .. }, PackDownAction::Try(m)) => bins(solution)
                    == bins_after(layouts@, m),
                _ => false,
            },
            PackDownEvent::NotTried => true,
        }
    }
}

/// **A pack-down opens no bin**: the bins of its result are among those of the solution that it started
/// from, so that it costs no more.
pub proof fn lemma_pack_down_opens_no_bin(
    s: PackDownView,
    events: Seq<PackDownEvent>,
    bins: spec_fn(usize) -> Multiset<usize>,
    costs: Seq<u64>,
)
    requires
        consistent(s),
        follows(s, events, bins),
    ensures
        bins(pack_down_after(s, events).best).subset_of(bins(s.best)),
        layouts::bins_cost(bins(pack_down_after(s, events).best), costs, costs.len())
            <= layouts::bins_cost(bins(s.best), costs, costs.len()),
    decreases events.len(),
{
    if events.len() > 0 {
        let earlier = events.drop_last();
        let before = pack_down_after(s, earlier);
        lemma_pack_down_opens_no_bin(s, earlier, bins, costs);
        lemma_pack_down_result_is_feasible(s, earlier);
        match events.last() {
            PackDownEvent::Observed { layouts, .. } => {
                lemma_advance_keeps(before, layouts@);
            },
            PackDownEvent::Separated { solution, .. } => {
                let asked = pack_down_after(s, earlier.drop_last());
                lemma_pack_down_result_is_feasible(s, earlier.drop_last());
                if let PackDownEvent::Observed { layouts, .. } = earlier.last() {
                    lemma_advance_keeps(asked, layouts@);
                    reveal_with_fuel(follows, 2);
                    reveal_with_fuel(pack_down_after, 2);
                    assert(layouts::bins_of(layouts@) == bins(before.best));
                    assert(bins(solution).subset_of(bins(before.best)));
                }
            },
            PackDownEvent::NotTried => {},
        }
        assert(bins(pack_down_after(s, events).best).subset_of(bins(s.best)));
    }
    layouts::lemma_fewer_bins_cost_no_more(
        bins(pack_down_after(s, events).best),
        bins(s.best),
        costs,
        costs.len(),
    );
}

/// No destination of the item on offer is the bin that it comes from.
pub open spec fn offers_elsewhere(s: PackDownView) -> bool {
    s.item is Some && s.src is Some ==> forall|k: int|
        0 <= k < s.destinations.len() ==> #[trigger] s.destinations[k] != (s.src->0).0
}

proof fn lemma_advance_offers_elsewhere(s: PackDownView, layouts: Seq<LayoutState>)
    requires
        consistent(s),
        offers_elsewhere(s),
        layouts.len() <= usize::MAX,
    ensures
        offers_elsewhere(pack_down_advance(s, layouts).0),
        pack_down_advance(s, layouts).1 matches Some(m) ==> is_between_open_bins(m, layouts),
    decreases
            passes_left(s),
            left(s.sources.len(), s.next_source),
            pending(s.src),
            left(s.items.len(), s.next_item),
            pending(s.item),
            left(s.destinations.len(), s.next_destination),
{
    match pack_down_step(s, layouts) {
        PackDownStep::Next(t) => {
            if let (None, Some((src, density))) = (s.item, s.src) {
                let p = layouts::layout_position(layouts, src);
                if t.item is Some {
                    let q = layouts::item_position(layouts[p].items@, t.item->0);
                    let area = layouts[p].items@[q].area;
                    assert forall|k: int| 0 <= k < t.destinations.len() implies #[trigger] t.destinations[k]
                        != src by {
                        assert(t.destinations.contains(t.destinations[k]));
                        lemma_destinations_eligible(
                            layouts,
                            s.strategy,
                            src,
                            density,
                            area,
                            t.destinations[k],
                        );
                    }
                }
            }
            lemma_advance_offers_elsewhere(t, layouts);
        },
        PackDownStep::Offer(_, m) => {
            layouts::lemma_position_is_present(layouts, m.src);
            assert(s.destinations[s.next_destination as int] == m.dst);
        },
        PackDownStep::Stop(_) => {},
    }
}

/// A move of an item that lies in an open bin into another open bin.
pub open spec fn is_between_open_bins(m: Move, layouts: Seq<LayoutState>) -> bool {
    &&& m.src != m.dst
    &&& layouts::has_layout(layouts, m.src)
    &&& layouts::has_layout(layouts, m.dst)
    &&& layouts::has_item(layouts[layouts::layout_position(layouts, m.src)].items@, m.pk)
}

proof fn lemma_offers_stay_elsewhere(s: PackDownView, events: Seq<PackDownEvent>)
    requires
        consistent(s),
        offers_elsewhere(s),
    ensures
        consistent(pack_down_after(s, events)),
        offers_elsewhere(pack_down_after(s, events)),
    decreases events.len(),
{
    if events.len() > 0 {
        let before = pack_down_after(s, events.drop_last());
        lemma_offers_stay_elsewhere(s, events.drop_last());
        if let PackDownEvent::Observed { layouts, .. } = events.last() {
            assert(layouts.len() == layouts@.len());
            lemma_advance_keeps(before, layouts@);
            lemma_advance_offers_elsewhere(before, layouts@);
        }
    }
}

/// **An item only ever moves from one open bin to another**: whatever happened before, a move that is
/// to be tried takes an item out of a bin that is open and into another one that is open.
pub proof fn lemma_moves_are_between_open_bins(
    strategy: PackDownStrategy,
    n_layouts: usize,
    start: usize,
    events: Seq<PackDownEvent>,
    killed: bool,
    layouts: Vec<LayoutState>,
)
    ensures
        ({
            let s = pack_down_after(pack_down_start(strategy, n_layouts, start), events);
            pack_down_next(s, PackDownEvent::Observed { killed, layouts }).1 matches PackDownAction::Try(
                m,
            ) ==> is_between_open_bins(m, layouts@)
        }),
{
    let first = pack_down_start(strategy, n_layouts, start);
    lemma_offers_stay_elsewhere(first, events);
    assert(layouts.len() == layouts@.len());
    lemma_advance_offers_elsewhere(pack_down_after(first, events), layouts@);
}

/// Whether the layouts are in the order of their keys, without repeats.
pub open spec fn strictly_ascending(keys: Seq<LayKey>) -> bool {
    forall|i: int, j: int|
        0 <= i < j < keys.len() ==> (#[trigger] keys[i]).rank < (#[trigger] keys[j]).rank
}

impl PackDownStats {
    /// The distinct layouts that took a turn as source, in the order of their keys.
    pub fn distinct_sources(&self) -> (r: Vec<LayKey>)
        ensures
            strictly_ascending(r@),
            forall|k: LayKey| #[trigger] r@.contains(k) == self.sources_visited@.contains(k),
    {
        let visited: &Vec<LayKey> = &self.sources_visited;
        let mut keys: Vec<(u64, u64)> = Vec::new();
        let mut i: usize = 0;
        while i < visited.len()
            invariant
                i <= visited@.len(),
                keys@.len() == i,
                forall|k: int| 0 <= k < i ==> #[trigger] keys@[k] == (visited@[k].rank, 0u64),
            decreases visited@.len() - i,
        {
            keys.push((visited[i].rank, 0));
            i = i + 1;
        }
        let order = order_by(&keys);
        let mut r: Vec<LayKey> = Vec::new();
        let mut j: usize = 0;
        while j < order.len()
            invariant
                j <= order@.len(),
                keys@.len() == visited@.len(),
                forall|k: int|
                    0 <= k < visited@.len() ==> #[trigger] keys@[k] == (visited@[k].rank, 0u64),
                order::is_order(keys@, order@),
                strictly_ascending(r@),
                j == 0 ==> r@.len() == 0,
                j > 0 ==> r@.len() > 0 && r@.last() == visited@[order@[j - 1] as int],
                forall|k: int| 0 <= k < r@.len() ==> visited@.contains(#[trigger] r@[k]),
                forall|k: int|
                    0 <= k < j ==> r@.contains(visited@[(#[trigger] order@[k]) as int]),
            decreases order@.len() - j,
        {
            let key = visited[order[j]];
            let n: usize = r.len();
            proof {
                if j > 0 {
                    assert(order::key_less(
                        order::full_key(keys@, order@[j - 1]),
                        order::full_key(keys@, order@[j as int]),
                    ));
                }
            }
            let ghost before = r@;
            if n == 0 || r[n - 1] != key {
                r.push(key);
                assert forall|k: int| 0 <= k < j implies r@.contains(
                    visited@[(#[trigger] order@[k]) as int],
                ) by {
                    let p = choose|p: int|
                        0 <= p < before.len() && before[p] == visited@[order@[k] as int];
                    assert(r@[p] == visited@[order@[k] as int]);
                }
                assert(r@[n as int] == key);
            } else {
                assert(r@[n - 1] == key);
            }
            j = j + 1;
        }
        assert forall|k: LayKey| #[trigger] r@.contains(k) == visited@.contains(k) by {
            if visited@.contains(k) {
                let p = choose|p: int| 0 <= p < visited@.len() && visited@[p] == k;
                assert(order@.contains(p as usize));
                let q = choose|q: int| 0 <= q < order@.len() && order@[q] == p as usize;
                assert(r@.contains(visited@[order@[q] as int]));
            }
        }
        r
    }
}

/// **Every bin that may take the item is listed, and no other.** Of the open bins other than the
/// source, those with enough free area that are denser than the source (or sparser, when spreading) are
/// all listed.
pub proof fn lemma_every_possible_destination_is_listed(
    layouts: Seq<LayoutState>,
    strategy: PackDownStrategy,
    src: LayKey,
    src_density: Scalar,
    area: Scalar,
    p: int,
)
    requires
        layouts.len() <= usize::MAX,
        layouts::distinct_layouts(layouts),
        0 <= p < layouts.len(),
    ensures
        ({
            let l = layouts[p];
            let possible = l.key != src && area.less_or_equal(l.free_area) && (match strategy {
                PackDownStrategy::Concentrate => src_density.less(l.density),
                PackDownStrategy::Spread => l.density.less(src_density),
            });
            destinations_of(layouts, strategy, src, src_density, area).contains(l.key) == possible
        }),
{
    let l = layouts[p];
    let pred = |l: LayoutState| eligible(l, strategy, src, src_density, area);
    let chosen = eligible_layouts(layouts, strategy, src, src_density, area);
    let d = destinations_of(layouts, strategy, src, src_density, area);
    layouts.lemma_filter_len(pred);
    let keys = free_keys(chosen);
    order::lemma_order_exists(keys);
    let o = order::positions_in_order(keys);
    if pred(l) {
        layouts.lemma_filter_contains(pred, p);
        let k = choose|k: int| 0 <= k < chosen.len() && chosen[k] == l;
        assert(o.contains(k as usize));
        let n = choose|n: int| 0 <= n < o.len() && o[n] == k as usize;
        assert(d[n] == l.key);
    }
    if d.contains(l.key) {
        lemma_destinations_eligible(layouts, strategy, src, src_density, area, l.key);
        let i = choose|i: int|
            0 <= i < layouts.len() && (#[trigger] layouts[i]).key == l.key && eligible(
                layouts[i],
                strategy,
                src,
                src_density,
                area,
            );
        assert(i == p);
    }
}

/// **Roomier destinations come first**: of two listed bins the one with more free area, and of two with
/// the same free area the one with the lower key.
pub proof fn lemma_roomier_destinations_come_first(
    layouts: Seq<LayoutState>,
    strategy: PackDownStrategy,
    src: LayKey,
    src_density: Scalar,
    area: Scalar,
    i: int,
    j: int,
    p: int,
    q: int,
)
    requires
        layouts.len() <= usize::MAX,
        layouts::distinct_layouts(layouts),
        0 <= i < destinations_of(layouts, strategy, src, src_density, area).len(),
        0 <= j < destinations_of(layouts, strategy, src, src_density, area).len(),
        0 <= p < layouts.len(),
        0 <= q < layouts.len(),
        layouts[p].key == destinations_of(layouts, strategy, src, src_density, area)[i],
        layouts[q].key == destinations_of(layouts, strategy, src, src_density, area)[j],
    ensures
        layouts[q].free_area.less(layouts[p].free_area) ==> i < j,
        layouts[p].free_area == layouts[q].free_area && layouts[p].key.rank < layouts[q].key.rank
            ==> i < j,
{
    let pred = |l: LayoutState| eligible(l, strategy, src, src_density, area);
    let chosen = eligible_layouts(layouts, strategy, src, src_density, area);
    layouts.lemma_filter_len(pred);
    let keys = free_keys(chosen);
    order::lemma_order_exists(keys);
    let o = order::positions_in_order(keys);
    let (a, b) = (o[i] as int, o[j] as int);
    layouts.lemma_filter_contains_rev(pred, chosen[a]);
    layouts.lemma_filter_contains_rev(pred, chosen[b]);
    let pa = choose|k: int| 0 <= k < layouts.len() && layouts[k] == chosen[a];
    let pb = choose|k: int| 0 <= k < layouts.len() && layouts[k] == chosen[b];
    assert(layouts[pa].key == layouts[p].key && layouts[pb].key == layouts[q].key);
    assert(pa == p && pb == q);
    crate::scalar::lemma_key_is_order(layouts[p].free_area, layouts[q].free_area);
    crate::scalar::lemma_key_is_order(layouts[q].free_area, layouts[p].free_area);
    assert(keys[a] == (layouts::descending(layouts[p].free_area), layouts[p].key.rank));
    assert(keys[b] == (layouts::descending(layouts[q].free_area), layouts[q].key.rank));
    if j < i {
        assert(order::key_less(order::full_key(keys, o[j]), order::full_key(keys, o[i])));
    }
}

/// The moves of one item of a bin of the given density: one to each of its destinations.
pub open spec fn moves_of_item(
    layouts: Seq<LayoutState>,
    strategy: PackDownStrategy,
    src: (LayKey, Scalar),
    pk: PItemKey,
) -> Seq<Move> {
    let items = layouts[layouts::layout_position(layouts, src.0)].items@;
    let area = items[layouts::item_position(items, pk)].area;
    destinations_of(layouts, strategy, src.0, src.1, area).map_values(
        |dst: LayKey| Move { src: src.0, pk, dst },
    )
}

/// The moves of several items of a bin, item by item.
pub open spec fn moves_of_items(
    layouts: Seq<LayoutState>,
    strategy: PackDownStrategy,
    src: (LayKey, Scalar),
    items: Seq<PItemKey>,
) -> Seq<Move>
    decreases items.len(),
{
    if items.len() == 0 {
        seq![]
    } else {
        moves_of_item(layouts, strategy, src, items[0]) + moves_of_items(
            layouts,
            strategy,
            src,
            items.skip(1),
        )
    }
}

/// The moves of several bins, bin by bin, each item of a bin in turn, largest first.
pub open spec fn moves_of_bins(
    layouts: Seq<LayoutState>,
    strategy: PackDownStrategy,
    sources: Seq<LayKey>,
) -> Seq<Move>
    decreases sources.len(),
{
    if sources.len() == 0 {
        seq![]
    } else {
        let l = layouts[layouts::layout_position(layouts, sources[0])];
        moves_of_items(
            layouts,
            strategy,
            (sources[0], l.density),
            item_keys(layouts::items_by_area(l.items@)),
        ) + moves_of_bins(layouts, strategy, sources.skip(1))
    }
}

/// The moves that a run offers over layouts that never change, with every one of them failing.
pub open spec fn moves_offered(s: PackDownView, layouts: Seq<LayoutState>) -> Seq<Move>
    decreases
            passes_left(s),
            left(s.sources.len(), s.next_source),
            pending(s.src),
            left(s.items.len(), s.next_item),
            pending(s.item),
            left(s.destinations.len(), s.next_destination),
    when consistent(s)
{
    match pack_down_step(s, layouts) {
        PackDownStep::Next(t) => moves_offered(t, layouts),
        PackDownStep::Offer(t, m) => seq![m] + moves_offered(t, layouts),
        PackDownStep::Stop(_) => seq![],
    }
}

/// What is still to be offered of the item, the bin and the pass that a run is at.
spec fn still_to_offer(s: PackDownView, layouts: Seq<LayoutState>) -> Seq<Move> {
    let of_item = match (s.item, s.src) {
        (Some(pk), Some((src, _))) => s.destinations.skip(s.next_destination as int).map_values(
            |dst: LayKey| Move { src, pk, dst },
        ),
        _ => seq![],
    };
    let of_bin = match s.src {
        Some(src) => moves_of_items(layouts, s.strategy, src, s.items.skip(s.next_item as int)),
        None => seq![],
    };
    of_item + of_bin + moves_of_bins(layouts, s.strategy, s.sources.skip(s.next_source as int))
}

/// Everything that a run still has to look up is there.
spec fn all_there(s: PackDownView, layouts: Seq<LayoutState>) -> bool {
    &&& s.started
    &&& s.moved_this_pass == 0
    &&& consistent(s)
    &&& s.next_source <= s.sources.len()
    &&& forall|i: int|
        0 <= i < s.sources.len() ==> layouts::has_layout(layouts, #[trigger] s.sources[i])
    &&& s.src matches Some((src, _)) ==> {
        &&& layouts::has_layout(layouts, src)
        &&& s.next_item <= s.items.len()
        &&& forall|i: int|
            0 <= i < s.items.len() ==> layouts::has_item(
                layouts[layouts::layout_position(layouts, src)].items@,
                #[trigger] s.items[i],
            )
        &&& s.item matches Some(pk) ==> {
            &&& s.next_destination <= s.destinations.len()
            &&& layouts::has_item(layouts[layouts::layout_position(layouts, src)].items@, pk)
            &&& forall|i: int|
                0 <= i < s.destinations.len() ==> layouts::has_layout(
                    layouts,
                    #[trigger] s.destinations[i],
                )
        }
    }
}

proof fn lemma_step_keeps_all_there(s: PackDownView, layouts: Seq<LayoutState>)
    requires
        2 <= layouts.len() <= usize::MAX,
        all_there(s, layouts),
    ensures
        match pack_down_step(s, layouts) {
            PackDownStep::Next(t) => all_there(t, layouts) && still_to_offer(s, layouts)
                == still_to_offer(t, layouts),
            PackDownStep::Offer(t, m) => all_there(t, layouts) && still_to_offer(s, layouts)
                == seq![m] + still_to_offer(t, layouts),
            PackDownStep::Stop(_) => still_to_offer(s, layouts) == Seq::<Move>::empty(),
        },
{
    let none = Seq::<Move>::empty();
    match (s.item, s.src) {
        (Some(pk), Some((src, density))) => {
            layouts::lemma_present(layouts, src);
            if s.next_destination < s.destinations.len() {
                let dst = s.destinations[s.next_destination as int];
                assert(layouts::has_layout(layouts, dst));
                let f = |dst: LayKey| Move { src, pk, dst };
                assert(s.destinations.skip(s.next_destination as int).map_values(f) =~= seq![
                    Move { src, pk, dst },
                ] + s.destinations.skip((s.next_destination + 1) as int).map_values(f));
                let t = PackDownView { next_destination: s.next_destination + 1, ..s };
                assert(still_to_offer(s, layouts) =~= seq![Move { src, pk, dst }]
                    + still_to_offer(t, layouts));
            } else {
                assert(s.destinations.skip(s.next_destination as int).map_values(
                    |dst: LayKey| Move { src, pk, dst },
                ) =~= none);
                assert(still_to_offer(s, layouts) =~= still_to_offer(
                    PackDownView { item: None, ..s },
                    layouts,
                ));
            }
        },
        (None, Some((src, density))) => {
            layouts::lemma_present(layouts, src);
            let p = layouts::layout_position(layouts, src);
            if s.next_item < s.items.len() {
                let pk = s.items[s.next_item as int];
                let items = layouts[p].items@;
                assert(layouts::has_item(items, pk));
                layouts::lemma_item_present(items, pk);
                let q = layouts::item_position(items, pk);
                let d = destinations_of(layouts, s.strategy, src, density, items[q].area);
                assert forall|i: int| 0 <= i < d.len() implies layouts::has_layout(
                    layouts,
                    #[trigger] d[i],
                ) by {
                    assert(d.contains(d[i]));
                    lemma_destinations_eligible(
                        layouts,
                        s.strategy,
                        src,
                        density,
                        items[q].area,
                        d[i],
                    );
                }
                let t = PackDownView {
                    item: Some(pk),
                    destinations: d,
                    next_destination: 0,
                    next_item: s.next_item + 1,
                    ..s
                };
                assert(pack_down_step(s, layouts) == PackDownStep::Next(t));
                let rest = s.items.skip(s.next_item as int);
                assert(rest[0] == pk);
                assert(rest.skip(1) =~= s.items.skip((s.next_item + 1) as int));
                assert(d.skip(0) =~= d);
                assert(d.map_values(|dst: LayKey| Move { src, pk, dst }) =~= moves_of_item(
                    layouts,
                    s.strategy,
                    (src, density),
                    pk,
                ));
                assert(still_to_offer(s, layouts) =~= still_to_offer(t, layouts));
            } else {
                assert(s.items.skip(s.next_item as int).len() == 0);
                assert(still_to_offer(s, layouts) =~= still_to_offer(
                    PackDownView { src: None, ..s },
                    layouts,
                ));
            }
        },
        _ => {
            if s.next_source < s.sources.len() {
                let key = s.sources[s.next_source as int];
                assert(layouts::has_layout(layouts, key));
                layouts::lemma_present(layouts, key);
                let p = layouts::layout_position(layouts, key);
                let items = layouts[p].items@;
                assert(layouts[p].items.len() == items.len());
                let sorted = layouts::items_by_area(items);
                layouts::lemma_items_come_largest_first(items);
                assert forall|i: int| 0 <= i < item_keys(sorted).len() implies layouts::has_item(
                    items,
                    #[trigger] item_keys(sorted)[i],
                ) by {
                    broadcast use vstd::seq_lib::group_to_multiset_ensures;

                    assert(sorted.to_multiset().count(sorted[i]) > 0);
                    assert(items.contains(sorted[i]));
                    let k = choose|k: int| 0 <= k < items.len() && items[k] == sorted[i];
                    assert(items[k].key == item_keys(sorted)[i]);
                }
                let t = PackDownView {
                    next_source: s.next_source + 1,
                    src: Some((key, layouts[p].density)),
                    items: item_keys(sorted),
                    next_item: 0,
                    sources_visited: s.sources_visited.push(key),
                    ..s
                };
                assert(pack_down_step(s, layouts) == PackDownStep::Next(t));
                let rest = s.sources.skip(s.next_source as int);
                assert(rest[0] == key);
                assert(rest.skip(1) =~= s.sources.skip((s.next_source + 1) as int));
                assert(item_keys(sorted).skip(0) =~= item_keys(sorted));
                assert(still_to_offer(s, layouts) =~= still_to_offer(t, layouts));
            } else {
                assert(s.sources.skip(s.next_source as int).len() == 0);
                assert(still_to_offer(s, layouts) =~= none);
            }
        },
    }
}

proof fn lemma_offers_what_is_left(s: PackDownView, layouts: Seq<LayoutState>)
    requires
        2 <= layouts.len() <= usize::MAX,
        all_there(s, layouts),
    ensures
        moves_offered(s, layouts) == still_to_offer(s, layouts),
    decreases
            left(s.sources.len(), s.next_source),
            pending(s.src),
            left(s.items.len(), s.next_item),
            pending(s.item),
            left(s.destinations.len(), s.next_destination),
{
    lemma_step_keeps_all_there(s, layouts);
    match pack_down_step(s, layouts) {
        PackDownStep::Next(t) => {
            lemma_offers_what_is_left(t, layouts);
        },
        PackDownStep::Offer(t, m) => {
            lemma_offers_what_is_left(t, layouts);
        },
        PackDownStep::Stop(_) => {},
    }
}

/// **A run in which no move succeeds tries them all, in order**: bin by bin in density order, each item
/// of a bin, largest first, to each of its destinations, roomiest first, and nothing else.
pub proof fn lemma_every_move_is_offered_in_order(
    strategy: PackDownStrategy,
    layouts: Seq<LayoutState>,
    start: usize,
)
    requires
        2 <= layouts.len() <= usize::MAX,
    ensures
        moves_offered(pack_down_start(strategy, layouts.len() as usize, start), layouts)
            == moves_of_bins(
            layouts,
            strategy,
            layouts::layouts_by_density(layouts, strategy is Concentrate),
        ),
{
    let s = pack_down_start(strategy, layouts.len() as usize, start);
    let up = strategy == PackDownStrategy::Concentrate;
    layouts::lemma_layouts_by_density(layouts, up);
    let sources = layouts::layouts_by_density(layouts, up);
    let t = PackDownView { started: true, sources, next_source: 0, ..s };
    assert(pack_down_step(s, layouts) == PackDownStep::Next(t));
    lemma_offers_what_is_left(t, layouts);
    assert(t.sources.skip(0) =~= t.sources);
    assert(still_to_offer(t, layouts) =~= moves_of_bins(layouts, strategy, sources));
    assert(moves_offered(s, layouts) == moves_offered(t, layouts));
}

/// How many moves were accepted.
pub open spec fn moves_accepted(events: Seq<PackDownEvent>) -> nat
    decreases events.len(),
{
    if events.len() == 0 {
        0
    } else {
        moves_accepted(events.drop_last()) + match events.last() {
            PackDownEvent::Separated { loss, valid, .. } if valid && settles(loss) => 1nat,
            _ => 0nat,
        }
    }
}

/// The solution that was accepted last, or the one that the run started from.
pub open spec fn last_accepted(start: usize, events: Seq<PackDownEvent>) -> usize
    decreases events.len(),
{
    if events.len() == 0 {
        start
    } else {
        match events.last() {
            PackDownEvent::Separated { loss, valid, solution } if valid && settles(loss) => solution,
            _ => last_accepted(start, events.drop_last()),
        }
    }
}

/// **A run keeps what was accepted last, and counts what was accepted**, from its start to any point.
pub proof fn lemma_run_counts_what_was_accepted(
    strategy: PackDownStrategy,
    n_layouts: usize,
    start: usize,
    events: Seq<PackDownEvent>,
)
    ensures
        ({
            let s = pack_down_after(pack_down_start(strategy, n_layouts, start), events);
            &&& s.n_moved == moves_accepted(events)
            &&& s.best == last_accepted(start, events)
            &&& s.strategy == strategy
            &&& consistent(s)
        }),
    decreases events.len(),
{
    if events.len() > 0 {
        let first = pack_down_start(strategy, n_layouts, start);
        lemma_run_counts_what_was_accepted(strategy, n_layouts, start, events.drop_last());
        if let PackDownEvent::Observed { layouts, .. } = events.last() {
            lemma_advance_keeps(pack_down_after(first, events.drop_last()), layouts@);
        }
    }
}

/// **What a report changes.** A collision-free result with the full demand is kept and counted, and the
/// source goes on with its next item; any other result is undone and changes nothing, and so does a move
/// that was not tried: the item goes on with its next destination. When the time is up, or nothing is
/// left, the run ends with what it has.
pub proof fn lemma_what_a_report_changes(s: PackDownView, event: PackDownEvent)
    requires
        consistent(s),
    ensures
        ({
            let (t, action) = pack_down_next(s, event);
            match event {
                PackDownEvent::Separated { loss, valid, solution } => {
                    let good = valid && !loss.nan() && loss.value() == 0;
                    &&& good ==> action is Accept && t.best == solution && t.n_moved == s.n_moved + 1
                        && t.moved_this_pass == s.moved_this_pass + 1 && t.item is None && t.src
                        == s.src && t.items == s.items && t.next_item == s.next_item && t.sources
                        == s.sources && t.next_source == s.next_source && t.n_passes == s.n_passes
                        && t.sources_visited == s.sources_visited && t.started == s.started
                        && t.finished == s.finished
                    &&& !good ==> action is Reject && t == s
                },
                PackDownEvent::NotTried => action is Skip && t == s,
                PackDownEvent::Observed { killed, .. } => {
                    &&& killed || s.finished ==> action is Finish && t.finished && t.best == s.best
                        && t.n_moved == s.n_moved && t.n_passes == s.n_passes && t.sources_visited
                        == s.sources_visited
                    &&& action is Finish || action is Try
                    &&& action is Finish ==> t.finished
                },
            }
        }),
{
    if let PackDownEvent::Observed { killed, layouts } = event {
        if !s.finished && !killed {
            lemma_advance_ends_finished(s, layouts@);
        }
    }
}

proof fn lemma_advance_ends_finished(s: PackDownView, layouts: Seq<LayoutState>)
    requires
        consistent(s),
    ensures
        pack_down_advance(s, layouts).1 is None ==> pack_down_advance(s, layouts).0.finished,
    decreases
            passes_left(s),
            left(s.sources.len(), s.next_source),
            pending(s.src),
            left(s.items.len(), s.next_item),
            pending(s.item),
            left(s.destinations.len(), s.next_destination),
{
    if let PackDownStep::Next(t) = pack_down_step(s, layouts) {
        lemma_advance_ends_finished(t, layouts);
    }
}

/// **A pass is followed by another one exactly if it moved something**, and the new one visits all bins
/// that are open by then.
pub proof fn lemma_passes_go_on_while_something_moves(s: PackDownView, layouts: Seq<LayoutState>)
    requires
        s.src is None,
        s.item is None,
        s.next_source >= s.sources.len(),
    ensures
        s.started && s.moved_this_pass == 0 ==> pack_down_advance(s, layouts).1 is None
            && pack_down_advance(s, layouts).0.finished && pack_down_advance(s, layouts).0.n_passes
            == s.n_passes + 1,
        !s.started || s.moved_this_pass > 0 ==> pack_down_advance(s, layouts) == pack_down_advance(
            PackDownView {
                n_passes: if s.started {
                    s.n_passes + 1
                } else {
                    s.n_passes
                },
                started: true,
                moved_this_pass: 0,
                sources: layouts::layouts_by_density(layouts, s.strategy is Concentrate),
                next_source: 0,
                ..s
            },
            layouts,
        ),
{
}

/// **What became of the bins in the meantime is heeded.** The next destination is offered if it, the source and
/// the item are all still there; a destination that was closed is passed over, and an item that is gone, or whose
/// bin is, is no longer offered. The source is compared as dense as it was when its turn began.
pub proof fn lemma_what_became_of_the_bins_is_heeded(
    s: PackDownView,
    layouts: Seq<LayoutState>,
    src: LayKey,
    density: Scalar,
)
    requires
        s.src == Some((src, density)),
    ensures
        ({
            let p = layouts::layout_position(layouts, src);
            let open = layouts::has_layout(layouts, src);
            match s.item {
                Some(pk) => {
                    let withdrawn = PackDownView { item: None, ..s };
                    if s.next_destination >= s.destinations.len() || !open {
                        pack_down_advance(s, layouts) == pack_down_advance(withdrawn, layouts)
                    } else {
                        let dst = s.destinations[s.next_destination as int];
                        let tried = PackDownView { next_destination: s.next_destination + 1, ..s };
                        if !layouts::has_layout(layouts, dst) {
                            pack_down_advance(s, layouts) == pack_down_advance(tried, layouts)
                        } else if !layouts::has_item(layouts[p].items@, pk) {
                            pack_down_advance(s, layouts) == pack_down_advance(withdrawn, layouts)
                        } else {
                            pack_down_advance(s, layouts) == (tried, Some(Move { src, pk, dst }))
                        }
                    }
                },
                None => if s.next_item >= s.items.len() || !open {
                    pack_down_advance(s, layouts) == pack_down_advance(
                        PackDownView { src: None, ..s },
                        layouts,
                    )
                } else {
                    let pk = s.items[s.next_item as int];
                    let q = layouts::item_position(layouts[p].items@, pk);
                    let passed = PackDownView { next_item: s.next_item + 1, ..s };
                    if !layouts::has_item(layouts[p].items@, pk) {
                        pack_down_advance(s, layouts) == pack_down_advance(passed, layouts)
                    } else {
                        pack_down_advance(s, layouts) == pack_down_advance(
                            PackDownView {
                                item: Some(pk),
                                destinations: destinations_of(
                                    layouts,
                                    s.strategy,
                                    src,
                                    density,
                                    layouts[p].items@[q].area,
                                ),
                                next_destination: 0,
                                ..passed
                            },
                            layouts,
                        )
                    }
                },
            }
        }),
{
    let p = layouts::layout_position(layouts, src);
    if layouts::has_layout(layouts, src) {
        layouts::lemma_present(layouts, src);
        if s.item is None && s.next_item < s.items.len() {
            let pk = s.items[s.next_item as int];
            if layouts::has_item(layouts[p].items@, pk) {
                layouts::lemma_item_present(layouts[p].items@, pk);
            } else {
                layouts::lemma_absent_item_is_not_found(layouts[p].items@, pk);
            }
        }
    } else {
        layouts::lemma_absent_is_not_found(layouts, src);
    }
}

/// **A source that was closed is passed over, and the last bin ends the run**; any other one takes its turn with
/// the density and the items that it has by then.
pub proof fn lemma_the_next_source_takes_its_turn(s: PackDownView, layouts: Seq<LayoutState>)
    requires
        s.src is None,
        s.item is None,
        s.next_source < s.sources.len(),
    ensures
        ({
            let key = s.sources[s.next_source as int];
            let l = layouts[layouts::layout_position(layouts, key)];
            let passed = PackDownView { next_source: s.next_source + 1, ..s };
            if layouts.len() < 2 {
                pack_down_advance(s, layouts) == (PackDownView { finished: true, ..s }, None::<Move>)
            } else if !layouts::has_layout(layouts, key) {
                pack_down_advance(s, layouts) == pack_down_advance(passed, layouts)
            } else {
                pack_down_advance(s, layouts) == pack_down_advance(
                    PackDownView {
                        src: Some((key, l.density)),
                        items: layouts::items_by_area(l.items@).map_values(|p: PlacedItem| p.key),
                        next_item: 0,
                        sources_visited: s.sources_visited.push(key),
                        ..passed
                    },
                    layouts,
                )
            }
        }),
{
    let key = s.sources[s.next_source as int];
    if layouts::has_layout(layouts, key) {
        layouts::lemma_present(layouts, key);
    } else {
        layouts::lemma_absent_is_not_found(layouts, key);
    }
}

} // verus!
