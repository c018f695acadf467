//! Compression over bins: moving items between bins and consolidating every bin, in turns, until
//! nothing changes any more.
use crate::config::PackDownStrategy;
use crate::optimizer::bpp::layouts;
use crate::optimizer::bpp::layouts::{ordered_layouts, LayKey, LayoutState};
use crate::optimizer::bpp::pack_down;
use crate::optimizer::bpp::pack_down::PackDownEvent;
use crate::scalar::Scalar;
use vstd::multiset::Multiset;
use vstd::prelude::*;

verus! {

/// What a compression waits for.
#[derive(Debug, Clone, Copy, PartialEq, Eq, Structural)]
pub enum CompressStage {
    /// A poll before the next round.
    Round,
    /// The result of the pack-down.
    PackingDown,
    /// The state before the bins are consolidated.
    Sweep,
    /// The state before the next bin is consolidated.
    Target,
    /// The result of consolidating a bin.
    Consolidating,
    /// Nothing: the compression is over.
    Done,
}

/// Progress of a compression.
#[derive(Debug, Clone, Copy, PartialEq, Eq, Structural)]
pub struct BPCompression {
    /// Whether items move between bins.
    pub pack_down: bool,
    /// Whether bins are consolidated.
    pub consolidate_remainder: bool,
    /// What it waits for.
    pub stage: CompressStage,
    /// Handle of the best solution.
    pub best: usize,
    /// Something changed in this round.
    pub progress: bool,
    /// Bins to consolidate in this round.
    pub n_targets: usize,
    /// Bins that had their turn in this round.
    pub n_done: usize,
    /// Bins that were consolidated in this round.
    pub n_consolidated: usize,
}

/// What the engine reports to a compression.
#[derive(Debug)]
pub enum CompressEvent {
    /// The state before a round.
    Poll {
        /// The compression has to stop.
        killed: bool,
        /// Number of open bins.
        n_layouts: usize,
    },
    /// The pack-down is over.
    PackedDown {
        /// How many items it moved.
        n_moved: usize,
        /// Handle of its solution.
        solution: usize,
    },
    /// The state before the next bin: the open layouts of the best solution.
    Bins {
        /// The compression, or its share for the consolidation, has to stop.
        killed: bool,
        /// The open layouts.
        layouts: Vec<LayoutState>,
    },
    /// The consolidation of a bin is over, with the handle of the solution if it succeeded.
    Consolidated(Option<usize>),
}

/// What the engine has to do next in a compression.
#[derive(Debug, Clone, Copy, PartialEq, Eq, Structural)]
pub enum CompressAction {
    /// Run a pack-down.
    PackDown,
    /// Return to the best solution and report its bins.
    Restore,
    /// Adopt and report the new best solution, then report its bins.
    Adopt,
    /// Report the bins.
    Look,
    /// Consolidate this bin.
    Consolidate {
        /// The bin.
        target: LayKey,
        /// Bins that still share the time, this one included.
        n_remaining: usize,
    },
    /// Poll for the next round.
    NextRound,
    /// Return to the best solution: it is over.
    Finish,
}

/// Whether the stage waits for this kind of event.
pub open spec fn compress_expects(s: BPCompression, event: CompressEvent) -> bool {
    match s.stage {
        CompressStage::Round => event is Poll,
        CompressStage::PackingDown => event is PackedDown,
        CompressStage::Sweep | CompressStage::Target => event is Bins,
        CompressStage::Consolidating => event is Consolidated,
        CompressStage::Done => false,
    }
}

/// The compression, over.
pub open spec fn compress_done(s: BPCompression) -> (BPCompression, CompressAction) {
    (BPCompression { stage: CompressStage::Done, ..s }, CompressAction::Finish)
}

/// Which bin is next, or whether the round is over.
pub open spec fn compress_target(s: BPCompression, killed: bool, layouts: Seq<LayoutState>) -> (
    BPCompression,
    CompressAction,
) {
    if s.n_done < s.n_targets && !killed && s.n_done < layouts.len() {
        (
            BPCompression { stage: CompressStage::Consolidating, ..s },
            CompressAction::Consolidate {
                target: layouts::layouts_by_density(layouts, true)[s.n_done as int],
                n_remaining: (s.n_targets - s.n_done) as usize,
            },
        )
    } else if s.progress {
        (BPCompression { stage: CompressStage::Round, ..s }, CompressAction::NextRound)
    } else {
        compress_done(s)
    }
}

/// What a compression does on an event.
pub open spec fn compress_next(s: BPCompression, event: CompressEvent) -> (
    BPCompression,
    CompressAction,
) {
    match event {
        CompressEvent::Poll { killed, n_layouts } => if killed || n_layouts == 0 {
            compress_done(s)
        } else if s.pack_down {
            (
                BPCompression { stage: CompressStage::PackingDown, progress: false, ..s },
                CompressAction::PackDown,
            )
        } else {
            (
                BPCompression { stage: CompressStage::Sweep, progress: false, ..s },
                CompressAction::Look,
            )
        },
        CompressEvent::PackedDown { n_moved, solution } => (
            BPCompression {
                stage: CompressStage::Sweep,
                best: if n_moved > 0 {
                    solution
                } else {
                    s.best
                },
                progress: s.progress || n_moved > 0,
                ..s
            },
            CompressAction::Restore,
        ),
        CompressEvent::Bins { killed, layouts } => if s.stage is Sweep {
            if !s.consolidate_remainder || killed || layouts@.len() == 0 {
                compress_done(s)
            } else {
                compress_target(
                    BPCompression {
                        n_targets: layouts@.len() as usize,
                        n_done: 0,
                        n_consolidated: 0,
                        ..s
                    },
                    killed,
                    layouts@,
                )
            }
        } else {
            compress_target(s, killed, layouts@)
        },
        CompressEvent::Consolidated(result) => match result {
            Some(solution) => (
                BPCompression {
                    stage: CompressStage::Target,
                    best: solution,
                    progress: true,
                    n_done: (s.n_done + 1) as usize,
                    n_consolidated: (s.n_consolidated + 1) as usize,
                    ..s
                },
                CompressAction::Adopt,
            ),
            None => (
                BPCompression {
                    stage: CompressStage::Target,
                    n_done: (s.n_done + 1) as usize,
                    ..s
                },
                CompressAction::Restore,
            ),
        },
    }
}

/// The counters are within their limits.
pub open spec fn compress_wf(s: BPCompression) -> bool {
    &&& s.n_consolidated <= s.n_done <= s.n_targets
    &&& s.stage is Consolidating ==> s.n_done < s.n_targets
}

/// The start of a compression of the given solution.
pub open spec fn compress_start(
    pack_down: bool,
    consolidate_remainder: bool,
    init: usize,
) -> BPCompression {
    BPCompression {
        pack_down,
        consolidate_remainder,
        stage: CompressStage::Round,
        best: init,
        progress: false,
        n_targets: 0,
        n_done: 0,
        n_consolidated: 0,
    }
}

impl BPCompression {
    /// A compression of the given solution.
    pub fn new(pack_down: bool, consolidate_remainder: bool, init: usize) -> (r: BPCompression)
        ensures
            r == compress_start(pack_down, consolidate_remainder, init),
            compress_wf(r),
    {
        BPCompression {
            pack_down,
            consolidate_remainder,
            stage: CompressStage::Round,
            best: init,
            progress: false,
            n_targets: 0,
            n_done: 0,
            n_consolidated: 0,
        }
    }
}

fn next_target(run: &mut BPCompression, killed: bool, layouts: &Vec<LayoutState>) -> (action:
    CompressAction)
    requires
        compress_wf(*old(run)),
    ensures
        (*final(run), action) == compress_target(*old(run), killed, layouts@),
        compress_wf(*final(run)),
{
    if run.n_done < run.n_targets && !killed && run.n_done < layouts.len() {
        let n: usize = layouts.len();
        proof {
            layouts::lemma_layouts_by_density(layouts@, true);
        }
        let order = ordered_layouts(layouts, true);
        run.stage = CompressStage::Consolidating;
        CompressAction::Consolidate {
            target: order[run.n_done],
            n_remaining: run.n_targets - run.n_done,
        }
    } else if run.progress {
        run.stage = CompressStage::Round;
        CompressAction::NextRound
    } else {
        run.stage = CompressStage::Done;
        CompressAction::Finish
    }
}

/// Advances a compression by one event.
///
/// Each round moves items between bins and then consolidates every bin in turn, least dense first.
/// The two help each other: consolidation leaves the contiguous space that a moved item needs. The
/// compression ends with the time, or with a round that changed nothing.
pub fn compression_phase(run: &mut BPCompression, event: CompressEvent) -> (action: CompressAction)
    requires
        compress_wf(*old(run)),
        compress_expects(*old(run), event),
    ensures
        (*final(run), action) == compress_next(*old(run), event),
        compress_wf(*final(run)),
{
    match event {
        CompressEvent::Poll { killed, n_layouts } => {
            if killed || n_layouts == 0 {
                run.stage = CompressStage::Done;
                CompressAction::Finish
            } else if run.pack_down {
                run.progress = false;
                run.stage = CompressStage::PackingDown;
                CompressAction::PackDown
            } else {
                run.progress = false;
                run.stage = CompressStage::Sweep;
                CompressAction::Look
            }
        },
        CompressEvent::PackedDown { n_moved, solution } => {
            if n_moved > 0 {
                run.best = solution;
                run.progress = true;
            }
            run.stage = CompressStage::Sweep;
            CompressAction::Restore
        },
        CompressEvent::Bins { killed, layouts } => {
            if run.stage == CompressStage::Sweep {
                if !run.consolidate_remainder || killed || layouts.len() == 0 {
                    run.stage = CompressStage::Done;
                    return CompressAction::Finish;
                }
                run.n_targets = layouts.len();
                run.n_done = 0;
                run.n_consolidated = 0;
            }
            next_target(run, killed, &layouts)
        },
        CompressEvent::Consolidated(result) => {
            run.stage = CompressStage::Target;
            run.n_done = run.n_done + 1;
            match result {
                Some(solution) => {
                    run.best = solution;
                    run.progress = true;
                    run.n_consolidated = run.n_consolidated + 1;
                    CompressAction::Adopt
                },
                None => CompressAction::Restore,
            }
        },
    }
}

/// The compression after a sequence of events.
pub open spec fn compress_after(s: BPCompression, events: Seq<CompressEvent>) -> BPCompression
    decreases events.len(),
{
    if events.len() == 0 {
        s
    } else {
        compress_next(compress_after(s, events.drop_last()), events.last()).0
    }
}

/// The solution that the last of the improvements reports, or the one that was put in if none does.
pub open spec fn last_improvement(init: usize, events: Seq<CompressEvent>) -> usize
    decreases events.len(),
{
    if events.len() == 0 {
        init
    } else {
        let before = last_improvement(init, events.drop_last());
        match events.last() {
            CompressEvent::PackedDown { n_moved, solution } if n_moved > 0 => solution,
            CompressEvent::Consolidated(Some(solution)) => solution,
            _ => before,
        }
    }
}

/// Whether something improved since the last round began.
pub open spec fn improved_this_round(events: Seq<CompressEvent>) -> bool
    decreases events.len(),
{
    if events.len() == 0 {
        false
    } else {
        let before = improved_this_round(events.drop_last());
        match events.last() {
            CompressEvent::Poll { killed, n_layouts } => before && (killed || n_layouts == 0),
            CompressEvent::PackedDown { n_moved, .. } => before || n_moved > 0,
            CompressEvent::Consolidated(result) => before || result is Some,
            CompressEvent::Bins { .. } => before,
        }
    }
}

/// **The result is the last improvement**: the best solution is the one that the last of the
/// improvements reported, be it a pack-down that moved something or a consolidation, and the one that was
/// put in only if there was none. Such an improvement is what makes a round count as progress.
pub proof fn lemma_compression_keeps_the_last_improvement(
    pack_down: bool,
    consolidate_remainder: bool,
    init: usize,
    events: Seq<CompressEvent>,
)
    ensures
        ({
            let end = compress_after(
                compress_start(pack_down, consolidate_remainder, init),
                events,
            );
            &&& end.best == last_improvement(init, events)
            &&& end.progress == improved_this_round(events)
            &&& end.pack_down == pack_down
            &&& end.consolidate_remainder == consolidate_remainder
        }),
    decreases events.len(),
{
    if events.len() > 0 {
        lemma_compression_keeps_the_last_improvement(
            pack_down,
            consolidate_remainder,
            init,
            events.drop_last(),
        );
    }
}

/// **What a compression orders**: a round begins as long as there is time and a bin, with a pack-down if
/// that is asked for; the sweep then has every bin consolidated if that is asked for, and after the last
/// one another round follows exactly if this one improved something. What improved is adopted, whatever
/// did not is undone, and every order is answered by its own report.
pub proof fn lemma_compression_orders(s: BPCompression, event: CompressEvent, e: CompressEvent)
    requires
        compress_wf(s),
        compress_expects(s, event),
    ensures
        ({
            let (t, action) = compress_next(s, event);
            &&& match event {
                CompressEvent::Poll { killed, n_layouts } => if killed || n_layouts == 0 {
                    action is Finish
                } else if s.pack_down {
                    action is PackDown
                } else {
                    action is Look
                },
                CompressEvent::PackedDown { .. } => action is Restore,
                CompressEvent::Bins { killed, layouts } => if s.stage is Sweep {
                    if !s.consolidate_remainder || killed || layouts@.len() == 0 {
                        action is Finish
                    } else {
                        &&& action is Consolidate
                        &&& t.n_done == 0 && t.n_targets == layouts@.len() && t.n_consolidated == 0
                    }
                } else if !killed && s.n_done < s.n_targets && s.n_done < layouts@.len() {
                    action is Consolidate
                } else if s.progress {
                    action is NextRound
                } else {
                    action is Finish
                },
                CompressEvent::Consolidated(Some(_)) => {
                    &&& action is Adopt
                    &&& t.n_done == s.n_done + 1 && t.n_consolidated == s.n_consolidated + 1
                },
                CompressEvent::Consolidated(None) => {
                    &&& action is Restore
                    &&& t.n_done == s.n_done + 1 && t.n_consolidated == s.n_consolidated
                },
            }
            &&& compress_expects(t, e) == match action {
                CompressAction::PackDown => e is PackedDown,
                CompressAction::Restore | CompressAction::Adopt | CompressAction::Look => e is Bins,
                CompressAction::Consolidate { .. } => e is Consolidated,
                CompressAction::NextRound => e is Poll,
                CompressAction::Finish => false,
            }
            &&& !(event is Consolidated || event is Bins) ==> t.n_done == s.n_done && t.n_targets
                == s.n_targets
        }),
        compress_expects(
            compress_start(s.pack_down, s.consolidate_remainder, s.best),
            e,
        ) == e is Poll,
{
    if let CompressEvent::Bins { layouts, .. } = event {
        assert(layouts.len() == layouts@.len());
    }
}

/// Whether the event reports an improved solution.
pub open spec fn reports_improvement(event: CompressEvent, solution: usize) -> bool {
    match event {
        CompressEvent::PackedDown { n_moved, solution: s } => n_moved > 0 && s == solution,
        CompressEvent::Consolidated(result) => result == Some(solution),
        _ => false,
    }
}

/// **The result is the solution that was put in, or an improved one**: what comes out of a
/// compression is the initial solution unless a pack-down that moved something, or a successful
/// consolidation, reported it.
pub proof fn lemma_compression_result(
    pack_down: bool,
    consolidate_remainder: bool,
    init: usize,
    events: Seq<CompressEvent>,
)
    ensures
        ({
            let end = compress_after(
                compress_start(pack_down, consolidate_remainder, init),
                events,
            );
            end.best == init || exists|k: int|
                0 <= k < events.len() && reports_improvement(#[trigger] events[k], end.best)
        }),
    decreases events.len(),
{
    if events.len() > 0 {
        let start = compress_start(pack_down, consolidate_remainder, init);
        lemma_compression_result(pack_down, consolidate_remainder, init, events.drop_last());
        let before = compress_after(start, events.drop_last());
        let end = compress_after(start, events);
        if end.best != before.best {
            assert(reports_improvement(events[events.len() - 1], end.best));
        } else if before.best != init {
            let k = choose|k: int|
                0 <= k < events.drop_last().len() && reports_improvement(
                    #[trigger] events.drop_last()[k],
                    before.best,
                );
            assert(events[k] == events.drop_last()[k]);
        }
    }
}

/// Whether these events are a pack-down that leads from one solution to another, `bins` being the open
/// bins of every solution.
pub open spec fn is_pack_down(
    bins: spec_fn(usize) -> Multiset<usize>,
    from: usize,
    to: usize,
    strategy: PackDownStrategy,
    n_layouts: usize,
    events: Seq<PackDownEvent>,
) -> bool {
    let start = pack_down::pack_down_start(strategy, n_layouts, from);
    pack_down::follows(start, events, bins) && pack_down::pack_down_after(start, events).best == to
}

/// Whether the solution `to` comes of a pack-down that started from `from`, `bins` being the open bins
/// of every solution.
pub open spec fn packed_down(bins: spec_fn(usize) -> Multiset<usize>, from: usize, to: usize) -> bool {
    exists|strategy: PackDownStrategy, n_layouts: usize, events: Seq<PackDownEvent>| #[trigger]
        is_pack_down(bins, from, to, strategy, n_layouts, events)
}

/// The bins that are open after the bin `target` was emptied and filled again: it is closed, and one of
/// its type is opened.
pub open spec fn bins_refilled(layouts: Seq<LayoutState>, target: LayKey) -> Multiset<usize> {
    let bin_id = layouts[layouts::layout_position(layouts, target)].bin_id;
    layouts::bins_of(layouts).remove(bin_id).insert(bin_id)
}

/// The engine does as it is told, `bins` being the open bins of every solution: it packs the best
/// solution down, it reports the bins of the best solution, and it consolidates the bin that it is to
/// consolidate.
pub open spec fn follows(
    s: BPCompression,
    events: Seq<CompressEvent>,
    bins: spec_fn(usize) -> Multiset<usize>,
) -> bool
    decreases events.len(),
{
    events.len() == 0 || {
        let earlier = events.drop_last();
        let best = compress_after(s, earlier).best;
        &&& follows(s, earlier, bins)
        &&& match events.last() {
            CompressEvent::Poll { .. } => true,
            CompressEvent::PackedDown { solution, .. } => packed_down(bins, best, solution),
            CompressEvent::Bins { layouts, .. } => layouts::bins_of(layouts@) == bins(best),
            CompressEvent::Consolidated(None) => true,
            CompressEvent::Consolidated(Some(solution)) => earlier.len() > 0 && match (
                earlier.last(),
                compress_next(compress_after(s, earlier.drop_last()), earlier.last()).1,
            ) {
                (CompressEvent::Bins { layouts, .. }, CompressAction::Consolidate { target, .. }) =>
                bins(solution) == bins_refilled(layouts@, target),
                _ => false,
            },
        }
    }
}

proof fn lemma_refilling_opens_no_bin(s: BPCompression, killed: bool, layouts: Vec<LayoutState>)
    ensures
        compress_next(s, CompressEvent::Bins { killed, layouts }).1 matches CompressAction::Consolidate {
            target,
            ..
        } ==> bins_refilled(layouts@, target) == layouts::bins_of(layouts@),
{
    if let CompressAction::Consolidate { target, .. } = compress_next(
        s,
        CompressEvent::Bins { killed, layouts },
    ).1 {
        assert(layouts.len() == layouts@.len());
        layouts::lemma_layouts_by_density(layouts@, true);
        let k = if s.stage is Sweep {
            0int
        } else {
            s.n_done as int
        };
        assert(layouts::layouts_by_density(layouts@, true)[k] == target);
        layouts::lemma_open_bin(layouts@, target);
        assert(bins_refilled(layouts@, target) =~= layouts::bins_of(layouts@));
    }
}

/// **Compression opens no bin and never costs more**: the bins of the result are among those of the
/// solution that was put in.
pub proof fn lemma_compression_opens_no_bin(
    s: BPCompression,
    events: Seq<CompressEvent>,
    bins: spec_fn(usize) -> Multiset<usize>,
    costs: Seq<u64>,
)
    requires
        follows(s, events, bins),
    ensures
        bins(compress_after(s, events).best).subset_of(bins(s.best)),
        layouts::bins_cost(bins(compress_after(s, events).best), costs, costs.len())
            <= layouts::bins_cost(bins(s.best), costs, costs.len()),
    decreases events.len(),
{
    if events.len() > 0 {
        let earlier = events.drop_last();
        let before = compress_after(s, earlier);
        lemma_compression_opens_no_bin(s, earlier, bins, costs);
        match events.last() {
            CompressEvent::PackedDown { solution, .. } => {
                let (strategy, n_layouts, moves) = choose|
                    strategy: PackDownStrategy,
                    n_layouts: usize,
                    moves: Seq<PackDownEvent>,
                | #[trigger]
                    is_pack_down(bins, before.best, solution, strategy, n_layouts, moves);
                let start = pack_down::pack_down_start(strategy, n_layouts, before.best);
                pack_down::lemma_pack_down_opens_no_bin(start, moves, bins, costs);
            },
            CompressEvent::Consolidated(Some(_)) => {
                if let CompressEvent::Bins { killed, layouts } = earlier.last() {
                    reveal_with_fuel(follows, 2);
                    reveal_with_fuel(compress_after, 2);
                    lemma_refilling_opens_no_bin(
                        compress_after(s, earlier.drop_last()),
                        killed,
                        layouts,
                    );
                }
            },
            _ => {},
        }
        assert(bins(compress_after(s, events).best).subset_of(bins(s.best)));
    }
    layouts::lemma_fewer_bins_cost_no_more(
        bins(compress_after(s, events).best),
        bins(s.best),
        costs,
        costs.len(),
    );
}

/// **A round that changes nothing is the last one**, and the other way round: a further round is
/// only started after one that changed something.
pub proof fn lemma_idle_round_is_the_last(s: BPCompression, event: CompressEvent)
    requires
        compress_expects(s, event),
        compress_next(s, event).1 is NextRound,
    ensures
        s.progress,
{
}

/// The bins that an event reports, with time left.
pub open spec fn seen_in_time(event: CompressEvent) -> Option<Seq<LayoutState>> {
    match event {
        CompressEvent::Bins { killed, layouts } => if killed {
            None
        } else {
            Some(layouts@)
        },
        _ => None,
    }
}

/// A sweep over `n` bins that nothing cuts short: in turn, the bins are reported with time left and
/// at least `n` of them are there, and one of them is consolidated.
pub open spec fn undisturbed(events: Seq<CompressEvent>, n: nat) -> bool {
    &&& events.len() > 0
    &&& seen_in_time(events[0]) matches Some(layouts) && layouts.len() == n
    &&& forall|i: int|
        0 <= i < events.len() && i % 2 == 0 ==> (seen_in_time(#[trigger] events[i]) matches Some(
            layouts,
        ) && n <= layouts.len() <= usize::MAX)
    &&& forall|i: int|
        0 <= i < events.len() && i % 2 == 1 ==> (#[trigger] events[i]) is Consolidated
}

proof fn lemma_sweep_counts(s: BPCompression, events: Seq<CompressEvent>, n: nat, k: nat)
    requires
        s.stage is Sweep,
        s.consolidate_remainder,
        undisturbed(events, n),
        k <= n,
        2 * k <= events.len(),
    ensures
        ({
            let t = compress_after(s, events.take(2 * k as int));
            if k == 0 {
                t == s
            } else {
                t.stage is Target && t.n_done == k && t.n_targets == n
            }
        }),
    decreases k,
{
    if k > 0 {
        let j = (k - 1) as nat;
        lemma_sweep_counts(s, events, n, j);
        let looked = events.take(2 * k as int).drop_last();
        assert(looked.drop_last() =~= events.take(2 * j as int));
        assert(looked.last() == events[2 * j as int]);
        assert(events.take(2 * k as int).last() == events[2 * j as int + 1]);
        assert(seen_in_time(events[2 * j as int]) is Some);
        assert(events[2 * j as int + 1] is Consolidated);
        let counted = compress_after(s, events.take(2 * j as int));
        assert(compress_after(s, looked) == compress_next(counted, events[2 * j as int]).0);
        assert(compress_after(s, looked).stage is Consolidating);
        assert(compress_after(s, looked).n_done == j);
    }
}

/// **Every bin gets its turn**: in a sweep that nothing cuts short, the consolidation after `k` others
/// is that of the bin with the rank `k` by density, for every `k` below the number of bins that the
/// sweep began with.
pub proof fn lemma_every_bin_gets_its_turn(
    s: BPCompression,
    events: Seq<CompressEvent>,
    n: nat,
    k: nat,
)
    requires
        s.stage is Sweep,
        s.consolidate_remainder,
        undisturbed(events, n),
        k < n,
        2 * k < events.len(),
    ensures
        ({
            let layouts = seen_in_time(events[2 * k as int])->0;
            let target = layouts::layouts_by_density(layouts, true)[k as int];
            &&& layouts::has_layout(layouts, target)
            &&& compress_next(compress_after(s, events.take(2 * k as int)), events[2 * k as int]).1
                == (CompressAction::Consolidate { target, n_remaining: (n - k) as usize })
        }),
{
    lemma_sweep_counts(s, events, n, k);
    assert(seen_in_time(events[2 * k as int]) is Some);
    layouts::lemma_layouts_by_density(seen_in_time(events[2 * k as int])->0, true);
}

/// What is left of the time: up to the deadline if there is one, all of the fallback otherwise.
pub open spec fn time_left(remaining: Option<u128>, fallback: u128) -> u128 {
    match remaining {
        Some(t) => t,
        None => fallback,
    }
}

/// The budget of one consolidation (ns): an equal share of what is left for all bins that are still
/// to come, but never less than `min_per_bin`.
pub fn fair_share(
    remaining: Option<u128>,
    fallback: u128,
    n_remaining: usize,
    min_per_bin: u128,
) -> (r: u128)
    requires
        n_remaining <= u32::MAX,
    ensures
        r >= min_per_bin,
        remaining is Some ==> r == min_per_bin || r * n_remaining <= remaining->0,
        remaining is None ==> r == min_per_bin || r * n_remaining <= fallback,
        remaining is Some && n_remaining > 0 ==> (r + 1) * n_remaining > remaining->0,
        remaining is None && n_remaining > 0 ==> (r + 1) * n_remaining > fallback,
        ({
            let share = time_left(remaining, fallback) as int / (if n_remaining == 0 {
                1int
            } else {
                n_remaining as int
            });
            r == if share >= min_per_bin {
                share
            } else {
                min_per_bin as int
            }
        }),
{
    let left: u128 = match remaining {
        Some(t) => t,
        None => fallback,
    };
    let n: u128 = if n_remaining == 0 {
        1
    } else {
        n_remaining as u128
    };
    let share: u128 = left / n;
    proof {
        vstd::arithmetic::div_mod::lemma_fundamental_div_mod(left as int, n as int);
        assert(share * n_remaining <= left) by (nonlinear_arith)
            requires
                left == n * share + left as int % n as int,
                0 <= left as int % n as int,
                n_remaining <= n,
                share >= 0,
        ;
        if n_remaining > 0 {
            assert((share + 1) * n_remaining > left) by (nonlinear_arith)
                requires
                    left == n * share + left as int % n as int,
                    left as int % (n as int) < n,
                    n_remaining == n,
            ;
            assert((min_per_bin + 1) * n_remaining >= (share + 1) * n_remaining || min_per_bin
                < share) by (nonlinear_arith)
                requires
                    n_remaining > 0,
            ;
        }
    }
    if share >= min_per_bin {
        share
    } else {
        min_per_bin
    }
}

/// The budget of one move between bins (ns): `limit`, or what is left if that is less.
pub fn short_term(remaining: Option<u128>, limit: u128) -> (r: u128)
    ensures
        r <= limit,
        remaining matches Some(t) ==> r <= t,
        r == limit || remaining == Some(r),
        r == match remaining {
            Some(t) => if t < limit {
                t
            } else {
                limit
            },
            None => limit,
        },
{
    match remaining {
        Some(t) => if t < limit {
            t
        } else {
            limit
        },
        None => limit,
    }
}

/// Whether a solution may be accepted: no loss, every layout free of collisions, and no item left
/// unplaced.
pub fn solution_is_valid(
    total_loss: Scalar,
    feasible: &Vec<bool>,
    item_demand_qtys: &Vec<usize>,
) -> (r: bool)
    ensures
        r ==> !total_loss.nan() && total_loss.value() == 0,
        r == {
            &&& crate::optimizer::separator::settled(total_loss)
            &&& forall|i: int| 0 <= i < feasible@.len() ==> #[trigger] feasible@[i]
            &&& forall|i: int| 0 <= i < item_demand_qtys@.len() ==> #[trigger] item_demand_qtys@[i]
                == 0
        },
{
    if !total_loss.is_zero() {
        return false;
    }
    let mut i: usize = 0;
    while i < feasible.len()
        invariant
            i <= feasible@.len(),
            forall|k: int| 0 <= k < i ==> #[trigger] feasible@[k],
        decreases feasible@.len() - i,
    {
        if !feasible[i] {
            return false;
        }
        i = i + 1;
    }
    let mut j: usize = 0;
    while j < item_demand_qtys.len()
        invariant
            j <= item_demand_qtys@.len(),
            forall|k: int| 0 <= k < j ==> #[trigger] item_demand_qtys@[k] == 0,
        decreases item_demand_qtys@.len() - j,
    {
        if item_demand_qtys[j] != 0 {
            return false;
        }
        j = j + 1;
    }
    true
}

} // verus!
