//! Reducing the number of bins: closing one bin after the other, as long as what it held can be
//! separated in the bins that remain.
use crate::config::BPExplorationConfig;
use crate::optimizer::bpp::layouts;
use crate::optimizer::bpp::layouts::{LayKey, LayoutState};
use crate::optimizer::bpp::separator;
use crate::optimizer::bpp::separator::nth_least_dense_layout;
use crate::optimizer::pool;
use crate::optimizer::pool::{insert_sorted, Pooled};
use crate::optimizer::separator as separation;
use crate::order;
use crate::order::order_by;
use crate::scalar::{Scalar, INFINITE_MAGNITUDE};
use vstd::multiset::Multiset;
use vstd::prelude::*;

verus! {

/// A feasible solution, as a handle of the caller.
#[derive(Debug, Clone, Copy, PartialEq, Eq, Structural)]
pub struct Found {
    /// Handle of the solution.
    pub solution: usize,
    /// How many bins it uses.
    pub n_bins: usize,
}

/// Why an exploration stopped.
#[derive(Debug, Clone, Copy, PartialEq, Eq, Structural)]
pub enum ExploreStop {
    /// The time is up.
    TimeLimit,
    /// Only one bin is left.
    SingleBin,
    /// One bin fewer would need too high a density.
    AreaBound,
    /// A bin could not be closed.
    CouldNotClose,
    /// Too many failed attempts in a row.
    StrikesExhausted,
    /// Too many failed attempts in a row without progress.
    Stagnation,
}

/// What an exploration waits for.
#[derive(Debug, Clone, Copy, PartialEq, Eq, Structural)]
pub enum ExploreStage {
    /// A poll before the next attempt.
    Poll,
    /// Whether the bin was closed.
    Closing,
    /// The result of the separation.
    Separating,
    /// A choice from the pool.
    Sampling,
    /// Nothing: the exploration is over.
    Done,
}

/// Progress of an exploration.
#[derive(Debug)]
pub struct BPExploration {
    /// The settings.
    pub config: BPExplorationConfig,
    /// What it waits for.
    pub stage: ExploreStage,
    /// Open bins at the last poll.
    pub n_bins: usize,
    /// The feasible solutions found so far, best last.
    pub feasible: Vec<Found>,
    /// The failed attempts at the current bin count, lowest loss first.
    pub pool: Vec<Pooled>,
    /// Lowest loss of an attempt at the current bin count.
    pub best_level_loss: Scalar,
    /// Failed attempts since that loss last fell meaningfully.
    pub n_stagnant: usize,
    /// Why it stopped.
    pub stop: Option<ExploreStop>,
}

/// An exploration, as a mathematical value.
pub ghost struct BPExplorationView {
    /// The settings.
    pub config: BPExplorationConfig,
    /// What it waits for.
    pub stage: ExploreStage,
    /// Open bins at the last poll.
    pub n_bins: usize,
    /// The feasible solutions found so far, best last.
    pub feasible: Seq<Found>,
    /// The failed attempts at the current bin count, lowest loss first.
    pub pool: Seq<Pooled>,
    /// Lowest loss of an attempt at the current bin count.
    pub best_level_loss: Scalar,
    /// Failed attempts since that loss last fell meaningfully.
    pub n_stagnant: usize,
    /// Why it stopped.
    pub stop: Option<ExploreStop>,
}

impl View for BPExploration {
    type V = BPExplorationView;

    open spec fn view(&self) -> BPExplorationView {
        BPExplorationView {
            config: self.config,
            stage: self.stage,
            n_bins: self.n_bins,
            feasible: self.feasible@,
            pool: self.pool@,
            best_level_loss: self.best_level_loss,
            n_stagnant: self.n_stagnant,
            stop: self.stop,
        }
    }
}

/// What the engine reports to an exploration.
#[derive(Debug)]
pub enum ExploreEvent {
    /// The state before the next attempt.
    Poll {
        /// The exploration has to stop.
        killed: bool,
        /// The density that one bin fewer would need.
        required_density: Scalar,
        /// The open layouts.
        layouts: Vec<LayoutState>,
    },
    /// Whether the bin was closed and its content scattered.
    Closed(bool),
    /// The overlap of the scattered items was separated as far as possible.
    Separated {
        /// The loss that is left.
        loss: Scalar,
        /// The loss below which it is a meaningful improvement: a fixed fraction of
        /// `best_level_loss`.
        bar: Scalar,
        /// Handle of the resulting solution.
        solution: usize,
    },
    /// A random choice from the pool.
    Sampled {
        /// Position in the pool.
        index: usize,
    },
}

/// What the engine has to do next in an exploration.
#[derive(Debug, Clone, Copy, PartialEq, Eq, Structural)]
pub enum ExploreAction {
    /// Close this bin and scatter its content over the others.
    Close {
        /// The bin.
        target: LayKey,
    },
    /// Separate the items.
    Separate,
    /// Adopt and report the separated solution, then poll.
    Accept,
    /// Report the separated solution as infeasible, then choose from the pool.
    Reject,
    /// Report the separated solution as infeasible and return to the best solution: it is over.
    RejectAndFinish,
    /// Return to the best solution, disrupt it this often, then poll.
    Restart {
        /// Number of disruptions.
        n_disruptions: usize,
    },
    /// Return to the best solution: it is over.
    Finish,
}

/// The largest number.
pub open spec fn infinity() -> Scalar {
    Scalar { bits: INFINITE_MAGNITUDE }
}

/// Whether the stage waits for this kind of event.
pub open spec fn explore_expects(s: BPExplorationView, event: ExploreEvent) -> bool {
    match s.stage {
        ExploreStage::Poll => event is Poll,
        ExploreStage::Closing => event is Closed,
        ExploreStage::Separating => event matches ExploreEvent::Separated { loss, .. }
            && !loss.nan(),
        ExploreStage::Sampling => event matches ExploreEvent::Sampled { index } && index
            < s.pool.len(),
        ExploreStage::Done => false,
    }
}

/// Which of the least dense bins is the next to be closed: they take turns.
pub open spec fn target_rank(s: BPExplorationView) -> nat {
    if s.config.n_scatter_retries == 0 {
        0
    } else {
        s.pool.len() % (s.config.n_scatter_retries as nat)
    }
}

/// The bin to close: the one of that rank, or the least dense one if there are fewer.
pub open spec fn target(s: BPExplorationView, layouts: Seq<LayoutState>) -> LayKey {
    separator::sparsest_first(layouts)[if target_rank(s) < layouts.len() {
        target_rank(s) as int
    } else {
        0
    }].key
}

/// The exploration, stopped.
pub open spec fn stopped(s: BPExplorationView, why: ExploreStop) -> BPExplorationView {
    BPExplorationView { stage: ExploreStage::Done, stop: Some(why), ..s }
}

/// The state before an attempt.
pub open spec fn explore_poll(
    s: BPExplorationView,
    killed: bool,
    required_density: Scalar,
    layouts: Seq<LayoutState>,
) -> (BPExplorationView, ExploreAction) {
    if killed {
        (stopped(s, ExploreStop::TimeLimit), ExploreAction::Finish)
    } else if layouts.len() < 2 {
        (stopped(s, ExploreStop::SingleBin), ExploreAction::Finish)
    } else if s.config.max_reduction_density.less(required_density) {
        (stopped(s, ExploreStop::AreaBound), ExploreAction::Finish)
    } else {
        (
            BPExplorationView {
                stage: ExploreStage::Closing,
                n_bins: layouts.len() as usize,
                ..s
            },
            ExploreAction::Close { target: target(s, layouts) },
        )
    }
}

/// An attempt that left no overlap: one bin fewer.
pub open spec fn explore_success(s: BPExplorationView, solution: usize) -> BPExplorationView {
    BPExplorationView {
        stage: ExploreStage::Poll,
        feasible: s.feasible.push(Found { solution, n_bins: (s.n_bins - 1) as usize }),
        pool: Seq::empty(),
        best_level_loss: infinity(),
        n_stagnant: 0,
        ..s
    }
}

/// The books after an attempt that left some overlap.
pub open spec fn explore_failure(
    s: BPExplorationView,
    loss: Scalar,
    bar: Scalar,
    solution: usize,
) -> BPExplorationView {
    BPExplorationView {
        stage: ExploreStage::Sampling,
        pool: pool::pool_with(s.pool, Pooled { solution, loss }),
        best_level_loss: if loss.less(s.best_level_loss) {
            loss
        } else {
            s.best_level_loss
        },
        n_stagnant: if loss.less(bar) {
            0
        } else {
            (s.n_stagnant + 1) as usize
        },
        ..s
    }
}

/// Why an exploration gives up after a failure, if it does.
pub open spec fn gives_up(s: BPExplorationView) -> Option<ExploreStop> {
    if s.pool.len() >= match s.config.max_conseq_failed_attempts {
        Some(max) => max as nat,
        None => usize::MAX as nat,
    } {
        Some(ExploreStop::StrikesExhausted)
    } else if s.config.stagnation_limit matches Some(limit) && s.n_stagnant >= limit {
        Some(ExploreStop::Stagnation)
    } else {
        None
    }
}

/// What an exploration does on an event.
pub open spec fn explore_next(s: BPExplorationView, event: ExploreEvent) -> (
    BPExplorationView,
    ExploreAction,
) {
    match event {
        ExploreEvent::Poll { killed, required_density, layouts } => explore_poll(
            s,
            killed,
            required_density,
            layouts@,
        ),
        ExploreEvent::Closed(closed) => if closed {
            (
                BPExplorationView { stage: ExploreStage::Separating, ..s },
                ExploreAction::Separate,
            )
        } else {
            (stopped(s, ExploreStop::CouldNotClose), ExploreAction::Finish)
        },
        ExploreEvent::Separated { loss, bar, solution } => if separation::settled(loss) {
            (explore_success(s, solution), ExploreAction::Accept)
        } else {
            let t = explore_failure(s, loss, bar, solution);
            match gives_up(t) {
                Some(why) => (stopped(t, why), ExploreAction::RejectAndFinish),
                None => (t, ExploreAction::Reject),
            }
        },
        ExploreEvent::Sampled { index } => (
            BPExplorationView { stage: ExploreStage::Poll, ..s },
            ExploreAction::Restart { n_disruptions: (1 + index) as usize },
        ),
    }
}

/// The pool is sorted, the counters match it, and there is something to close when it comes to that.
pub open spec fn explore_wf(s: BPExplorationView) -> bool {
    &&& pool::pool_sorted(s.pool)
    &&& s.pool.len() <= usize::MAX
    &&& s.n_stagnant <= s.pool.len()
    &&& s.feasible.len() > 0
    &&& s.stage is Closing || s.stage is Separating ==> s.n_bins >= 2
    &&& s.stage is Done <==> s.stop is Some
}

/// The start of an exploration from a feasible solution.
pub open spec fn explore_start(
    config: BPExplorationConfig,
    solution: usize,
    n_bins: usize,
) -> BPExplorationView {
    BPExplorationView {
        config,
        stage: ExploreStage::Poll,
        n_bins,
        feasible: seq![Found { solution, n_bins }],
        pool: Seq::empty(),
        best_level_loss: infinity(),
        n_stagnant: 0,
        stop: None,
    }
}

impl BPExploration {
    /// An exploration that starts from a feasible solution.
    pub fn new(config: BPExplorationConfig, solution: usize, n_bins: usize) -> (r: BPExploration)
        ensures
            r@ == explore_start(config, solution, n_bins),
            explore_wf(r@),
    {
        let mut feasible: Vec<Found> = Vec::new();
        feasible.push(Found { solution, n_bins });
        let r = BPExploration {
            config,
            stage: ExploreStage::Poll,
            n_bins,
            feasible,
            pool: Vec::new(),
            best_level_loss: Scalar { bits: INFINITE_MAGNITUDE },
            n_stagnant: 0,
            stop: None,
        };
        assert(r@.feasible =~= seq![Found { solution, n_bins }]);
        assert(r@.pool =~= Seq::empty());
        r
    }

    fn finish(&mut self, why: ExploreStop)
        ensures
            final(self)@ == stopped(old(self)@, why),
    {
        self.stage = ExploreStage::Done;
        self.stop = Some(why);
    }

    fn fail(&mut self, loss: Scalar, bar: Scalar, solution: usize) -> (action: ExploreAction)
        requires
            explore_wf(old(self)@),
            old(self).stage is Separating,
            !loss.nan(),
            !separation::settled(loss),
        ensures
            (final(self)@, action) == explore_next(
                old(self)@,
                ExploreEvent::Separated { loss, bar, solution },
            ),
            explore_wf(final(self)@),
    {
        insert_sorted(&mut self.pool, Pooled { solution, loss });
        let n_failed: usize = self.pool.len();
        if loss.lt(bar) {
            self.n_stagnant = 0;
        } else {
            self.n_stagnant = self.n_stagnant + 1;
        }
        if loss.lt(self.best_level_loss) {
            self.best_level_loss = loss;
        }
        self.stage = ExploreStage::Sampling;
        proof {
            let t = explore_failure(old(self)@, loss, bar, solution);
            assert(self@.pool == t.pool);
            assert(self@ == t);
        }
        let max: usize = match self.config.max_conseq_failed_attempts {
            Some(max) => max,
            None => usize::MAX,
        };
        if n_failed >= max {
            self.finish(ExploreStop::StrikesExhausted);
            return ExploreAction::RejectAndFinish;
        }
        if let Some(limit) = self.config.stagnation_limit {
            if self.n_stagnant >= limit {
                self.finish(ExploreStop::Stagnation);
                return ExploreAction::RejectAndFinish;
            }
        }
        ExploreAction::Reject
    }
}

/// Advances an exploration by one event.
///
/// Every attempt closes one of the least dense bins and scatters its content. If the overlap can be
/// resolved, the solution with one bin fewer is the new best one. Otherwise the attempt is pooled,
/// and the next one starts from the best solution, disrupted the more strongly the worse the
/// attempt that was chosen from the pool.
pub fn exploration_phase(run: &mut BPExploration, event: ExploreEvent) -> (action: ExploreAction)
    requires
        explore_wf(old(run)@),
        explore_expects(old(run)@, event),
    ensures
        (final(run)@, action) == explore_next(old(run)@, event),
        explore_wf(final(run)@),
{
    match event {
        ExploreEvent::Poll { killed, required_density, layouts } => {
            if killed {
                run.finish(ExploreStop::TimeLimit);
                return ExploreAction::Finish;
            }
            let n: usize = layouts.len();
            if n < 2 {
                run.finish(ExploreStop::SingleBin);
                return ExploreAction::Finish;
            }
            if run.config.max_reduction_density.lt(required_density) {
                run.finish(ExploreStop::AreaBound);
                return ExploreAction::Finish;
            }
            let rank: usize = if run.config.n_scatter_retries == 0 {
                0
            } else {
                run.pool.len() % run.config.n_scatter_retries
            };
            let target: LayKey = nth_least_dense_layout(
                &layouts,
                if rank < n {
                    rank
                } else {
                    0
                },
            ).unwrap();
            run.stage = ExploreStage::Closing;
            run.n_bins = n;
            ExploreAction::Close { target }
        },
        ExploreEvent::Closed(closed) => {
            if closed {
                run.stage = ExploreStage::Separating;
                ExploreAction::Separate
            } else {
                run.finish(ExploreStop::CouldNotClose);
                ExploreAction::Finish
            }
        },
        ExploreEvent::Separated { loss, bar, solution } => {
            if loss.is_zero() {
                run.feasible.push(Found { solution, n_bins: run.n_bins - 1 });
                run.pool = Vec::new();
                run.best_level_loss = Scalar { bits: INFINITE_MAGNITUDE };
                run.n_stagnant = 0;
                run.stage = ExploreStage::Poll;
                assert(run@.pool =~= Seq::empty());
                ExploreAction::Accept
            } else {
                run.fail(loss, bar, solution)
            }
        },
        ExploreEvent::Sampled { index } => {
            let n: usize = run.pool.len();
            run.stage = ExploreStage::Poll;
            ExploreAction::Restart { n_disruptions: 1 + index }
        },
    }
}

/// The exploration after a sequence of events.
pub open spec fn explore_after(s: BPExplorationView, events: Seq<ExploreEvent>) -> BPExplorationView
    decreases events.len(),
{
    if events.len() == 0 {
        s
    } else {
        explore_next(explore_after(s, events.drop_last()), events.last()).0
    }
}

/// Every event is one that the exploration waits for at that point, and a poll always finds the
/// bins of the best solution, to which the engine returned.
pub open spec fn explore_admits(s: BPExplorationView, events: Seq<ExploreEvent>) -> bool
    decreases events.len(),
{
    events.len() > 0 ==> {
        let before = explore_after(s, events.drop_last());
        &&& explore_admits(s, events.drop_last())
        &&& explore_expects(before, events.last())
        &&& events.last() matches ExploreEvent::Poll { layouts, .. } ==> layouts@.len()
            == before.feasible.last().n_bins
    }
}

/// Whether the event reports a solution without overlap.
pub open spec fn reports_separated(event: ExploreEvent, solution: usize) -> bool {
    event matches ExploreEvent::Separated { loss, solution: s, .. } && separation::settled(loss)
        && s == solution
}

/// **Every solution is better than the one before it.** The list starts with the solution the
/// exploration started from, so it is never empty; every other solution in it was reported without
/// any overlap and has exactly one bin fewer than the one before it; the last one is the best.
pub proof fn lemma_solutions_improve(
    config: BPExplorationConfig,
    solution: usize,
    n_bins: usize,
    events: Seq<ExploreEvent>,
)
    requires
        explore_admits(explore_start(config, solution, n_bins), events),
        events.len() <= usize::MAX,
    ensures
        ({
            let end = explore_after(explore_start(config, solution, n_bins), events);
            &&& explore_wf(end)
            &&& end.pool.len() <= events.len()
            &&& end.feasible.len() >= 1
            &&& end.feasible[0] == (Found { solution, n_bins })
            &&& forall|i: int|
                0 < i < end.feasible.len() ==> (#[trigger] end.feasible[i]).n_bins
                    == end.feasible[i - 1].n_bins - 1
            &&& forall|i: int|
                0 < i < end.feasible.len() ==> exists|k: int|
                    0 <= k < events.len() && reports_separated(
                        #[trigger] events[k],
                        (#[trigger] end.feasible[i]).solution,
                    )
            &&& end.stage is Closing || end.stage is Separating ==> end.n_bins
                == end.feasible.last().n_bins
        }),
    decreases events.len(),
{
    let start = explore_start(config, solution, n_bins);
    if events.len() > 0 {
        let n = events.len() - 1;
        lemma_solutions_improve(config, solution, n_bins, events.drop_last());
        let before = explore_after(start, events.drop_last());
        let end = explore_after(start, events);
        assert forall|i: int| 0 < i < end.feasible.len() implies exists|k: int|
            0 <= k < events.len() && reports_separated(
                #[trigger] events[k],
                (#[trigger] end.feasible[i]).solution,
            ) by {
            if i < before.feasible.len() {
                assert(end.feasible[i] == before.feasible[i]);
                let k = choose|k: int|
                    0 <= k < events.drop_last().len() && reports_separated(
                        #[trigger] events.drop_last()[k],
                        before.feasible[i].solution,
                    );
                assert(events[k] == events.drop_last()[k]);
            } else {
                assert(reports_separated(events[n], end.feasible[i].solution));
            }
        }
        lemma_step_keeps_wf(before, events.last());
        if end.feasible.len() > before.feasible.len() {
            assert(before.feasible.last() == before.feasible[before.feasible.len() - 1]);
        }
    }
}

proof fn lemma_step_keeps_wf(s: BPExplorationView, event: ExploreEvent)
    requires
        explore_wf(s),
        explore_expects(s, event),
        s.pool.len() < usize::MAX,
        event matches ExploreEvent::Poll { layouts, .. } ==> layouts@.len() <= usize::MAX,
    ensures
        explore_wf(explore_next(s, event).0),
        explore_next(s, event).0.pool.len() <= s.pool.len() + 1,
{
    if let ExploreEvent::Separated { loss, bar, solution } = event {
        if !separation::settled(loss) {
            pool::lemma_pool_with(s.pool, Pooled { solution, loss });
        }
    }
}

/// The bins that are open after the bin `target` was closed.
pub open spec fn bins_without(layouts: Seq<LayoutState>, target: LayKey) -> Multiset<usize> {
    layouts::bins_of(layouts).remove(
        layouts[layouts::layout_position(layouts, target)].bin_id,
    )
}

/// The engine does as it is told, `bins` being the open bins of every solution: a poll finds the bins of
/// the best solution, and what is separated is what is left of them once the bin that was to be closed is
/// closed.
pub open spec fn follows(
    s: BPExplorationView,
    events: Seq<ExploreEvent>,
    bins: spec_fn(usize) -> Multiset<usize>,
) -> bool
    decreases events.len(),
{
    events.len() == 0 || {
        let earlier = events.drop_last();
        &&& follows(s, earlier, bins)
        &&& match events.last() {
            ExploreEvent::Poll { layouts, .. } => layouts::bins_of(layouts@) == bins(
                explore_after(s, earlier).feasible.last().solution,
            ),
            ExploreEvent::Separated { solution, .. } => {
                let polled = earlier.drop_last();
                earlier.len() >= 2 && earlier.last() is Closed && match (
                    polled.last(),
                    explore_next(explore_after(s, polled.drop_last()), polled.last()).1,
                ) {
                    (ExploreEvent::Poll { layouts, .. }, ExploreAction::Close { target }) => bins(
                        solution,
                    ) == bins_without(layouts@, target),
                    _ => false,
                }
            },
            ExploreEvent::Closed(_) | ExploreEvent::Sampled { .. } => true,
        }
    }
}

/// The bins of every found solution are among those of the one before it.
pub open spec fn bins_only_close(s: BPExplorationView, bins: spec_fn(usize) -> Multiset<usize>) -> bool {
    forall|i: int|
        0 < i < s.feasible.len() ==> bins((#[trigger] s.feasible[i]).solution).subset_of(
            bins(s.feasible[i - 1].solution),
        )
}

proof fn lemma_bins_only_close(
    s: BPExplorationView,
    events: Seq<ExploreEvent>,
    bins: spec_fn(usize) -> Multiset<usize>,
)
    requires
        s.feasible.len() == 1,
        follows(s, events, bins),
    ensures
        bins_only_close(explore_after(s, events), bins),
        explore_after(s, events).feasible.len() >= 1,
        explore_after(s, events).feasible[0] == s.feasible[0],
    decreases events.len(),
{
    if events.len() > 0 {
        let earlier = events.drop_last();
        let (before, end) = (explore_after(s, earlier), explore_after(s, events));
        lemma_bins_only_close(s, earlier, bins);
        if let ExploreEvent::Separated { solution, .. } = events.last() {
            reveal_with_fuel(follows, 3);
            reveal_with_fuel(explore_after, 3);
            let best = before.feasible.last().solution;
            assert(bins(solution).subset_of(bins(best)));
        }
        assert forall|i: int| 0 < i < end.feasible.len() implies bins(
            (#[trigger] end.feasible[i]).solution,
        ).subset_of(bins(end.feasible[i - 1].solution)) by {
            if i < before.feasible.len() {
                assert(end.feasible[i] == before.feasible[i]);
            }
            assert(end.feasible[i - 1] == before.feasible[i - 1]);
        }
    }
}

proof fn lemma_bins_are_among_the_first(
    s: BPExplorationView,
    bins: spec_fn(usize) -> Multiset<usize>,
    i: int,
)
    requires
        bins_only_close(s, bins),
        0 <= i < s.feasible.len(),
    ensures
        bins(s.feasible[i].solution).subset_of(bins(s.feasible[0].solution)),
    decreases i,
{
    if i > 0 {
        lemma_bins_are_among_the_first(s, bins, i - 1);
        assert(bins(s.feasible[i].solution).subset_of(bins(s.feasible[i - 1].solution)));
    }
}

/// **Exploration only closes bins and never costs more**: the bins of every solution that it finds are
/// among those of the one before it, and so among those of the solution that it started from.
pub proof fn lemma_exploration_opens_no_bin(
    config: BPExplorationConfig,
    solution: usize,
    n_bins: usize,
    events: Seq<ExploreEvent>,
    bins: spec_fn(usize) -> Multiset<usize>,
    costs: Seq<u64>,
)
    requires
        follows(explore_start(config, solution, n_bins), events, bins),
    ensures
        ({
            let end = explore_after(explore_start(config, solution, n_bins), events);
            let best = end.feasible.last().solution;
            &&& bins_only_close(end, bins)
            &&& bins(best).subset_of(bins(solution))
            &&& layouts::bins_cost(bins(best), costs, costs.len()) <= layouts::bins_cost(
                bins(solution),
                costs,
                costs.len(),
            )
        }),
{
    let start = explore_start(config, solution, n_bins);
    let end = explore_after(start, events);
    lemma_bins_only_close(start, events, bins);
    lemma_bins_are_among_the_first(end, bins, end.feasible.len() - 1);
    layouts::lemma_fewer_bins_cost_no_more(
        bins(end.feasible.last().solution),
        bins(solution),
        costs,
        costs.len(),
    );
}

/// **An exploration of a feasible solution returns a feasible one**, if every solution that is reported
/// without overlap is feasible.
pub proof fn lemma_exploration_stays_feasible(
    config: BPExplorationConfig,
    solution: usize,
    n_bins: usize,
    events: Seq<ExploreEvent>,
    feasible: spec_fn(usize) -> bool,
)
    requires
        explore_admits(explore_start(config, solution, n_bins), events),
        events.len() <= usize::MAX,
        feasible(solution),
        forall|k: int, found: usize|
            0 <= k < events.len() && #[trigger] reports_separated(events[k], found) ==> feasible(found),
    ensures
        ({
            let end = explore_after(explore_start(config, solution, n_bins), events);
            &&& end.feasible.len() > 0
            &&& forall|i: int|
                0 <= i < end.feasible.len() ==> feasible((#[trigger] end.feasible[i]).solution)
        }),
{
    lemma_solutions_improve(config, solution, n_bins, events);
    let end = explore_after(explore_start(config, solution, n_bins), events);
    assert forall|i: int| 0 <= i < end.feasible.len() implies feasible(
        (#[trigger] end.feasible[i]).solution,
    ) by {
        if i > 0 {
            let k = choose|k: int|
                0 <= k < events.len() && reports_separated(
                    #[trigger] events[k],
                    end.feasible[i].solution,
                );
            assert(reports_separated(events[k], end.feasible[i].solution));
        }
    }
}

/// **The exploration never runs on after its limits.** Once it waits for the next attempt, it has
/// failed less often in a row than the limit allows, and made progress more recently than the
/// stagnation limit asks for.
pub proof fn lemma_limits_hold(s: BPExplorationView, event: ExploreEvent)
    requires
        explore_wf(s),
        explore_expects(s, event),
        s.stage is Separating,
    ensures
        ({
            let (t, action) = explore_next(s, event);
            action is Reject ==> {
                &&& s.config.max_conseq_failed_attempts matches Some(max) ==> t.pool.len() < max
                &&& s.config.stagnation_limit matches Some(limit) ==> t.n_stagnant < limit
            }
        }),
{
}

/// **A hopeless reduction is not attempted**: no bin is closed when the time is up, when it is the
/// only one, or when one bin fewer would need a higher density than the cap.
pub proof fn lemma_no_hopeless_attempt(s: BPExplorationView, event: ExploreEvent)
    requires
        explore_expects(s, event),
        explore_next(s, event).1 is Close,
    ensures
        event matches ExploreEvent::Poll { killed, required_density, layouts } && !killed
            && layouts@.len() >= 2 && !s.config.max_reduction_density.less(required_density),
{
}

/// The attempts that failed since the last one that succeeded, in order.
pub open spec fn latest_failures(events: Seq<ExploreEvent>) -> Seq<Pooled>
    decreases events.len(),
{
    if events.len() == 0 {
        seq![]
    } else {
        let before = latest_failures(events.drop_last());
        match events.last() {
            ExploreEvent::Separated { loss, solution, .. } => if separation::settled(loss) {
                seq![]
            } else {
                before.push(Pooled { solution, loss })
            },
            _ => before,
        }
    }
}

/// The lowest loss of an attempt that failed since the last one that succeeded.
pub open spec fn level_loss(events: Seq<ExploreEvent>) -> Scalar
    decreases events.len(),
{
    if events.len() == 0 {
        infinity()
    } else {
        let before = level_loss(events.drop_last());
        match events.last() {
            ExploreEvent::Separated { loss, .. } => if separation::settled(loss) {
                infinity()
            } else if loss.less(before) {
                loss
            } else {
                before
            },
            _ => before,
        }
    }
}

/// How many of the latest attempts in a row failed without a loss below their bar.
pub open spec fn stagnant_attempts(events: Seq<ExploreEvent>) -> nat
    decreases events.len(),
{
    if events.len() == 0 {
        0
    } else {
        let before = stagnant_attempts(events.drop_last());
        match events.last() {
            ExploreEvent::Separated { loss, bar, .. } => if separation::settled(loss) || loss.less(
                bar,
            ) {
                0
            } else {
                before + 1
            },
            _ => before,
        }
    }
}

/// The handles of the solutions that were reported without overlap, in order.
pub open spec fn separated_solutions(events: Seq<ExploreEvent>) -> Seq<usize>
    decreases events.len(),
{
    if events.len() == 0 {
        seq![]
    } else {
        let before = separated_solutions(events.drop_last());
        match events.last() {
            ExploreEvent::Separated { loss, solution, .. } => if separation::settled(loss) {
                before.push(solution)
            } else {
                before
            },
            _ => before,
        }
    }
}

/// The handles of found solutions.
pub open spec fn handles(found: Seq<Found>) -> Seq<usize> {
    found.map_values(|f: Found| f.solution)
}

/// Enough attempts failed in a row that the exploration gives up, and why.
pub open spec fn exhausted(config: BPExplorationConfig, events: Seq<ExploreEvent>) -> Option<ExploreStop> {
    if latest_failures(events).len() >= match config.max_conseq_failed_attempts {
        Some(max) => max as nat,
        None => usize::MAX as nat,
    } {
        Some(ExploreStop::StrikesExhausted)
    } else {
        match config.stagnation_limit {
            Some(limit) => if stagnant_attempts(events) >= limit {
                Some(ExploreStop::Stagnation)
            } else {
                None
            },
            None => None,
        }
    }
}

proof fn lemma_exploration_remembers(
    config: BPExplorationConfig,
    solution: usize,
    n_bins: usize,
    events: Seq<ExploreEvent>,
)
    requires
        explore_admits(explore_start(config, solution, n_bins), events),
        events.len() <= usize::MAX,
    ensures
        ({
            let s = explore_after(explore_start(config, solution, n_bins), events);
            &&& s.config == config
            &&& explore_wf(s)
            &&& s.pool.len() == latest_failures(events).len()
            &&& s.pool.to_multiset() == latest_failures(events).to_multiset()
            &&& s.pool.len() <= events.len()
            &&& s.best_level_loss == level_loss(events)
            &&& s.n_stagnant == stagnant_attempts(events)
            &&& handles(s.feasible) == seq![solution] + separated_solutions(events)
            &&& stagnant_attempts(events) <= latest_failures(events).len()
        }),
    decreases events.len(),
{
    broadcast use vstd::seq_lib::group_to_multiset_ensures;
    let start = explore_start(config, solution, n_bins);
    if events.len() > 0 {
        let earlier = events.drop_last();
        lemma_exploration_remembers(config, solution, n_bins, earlier);
        lemma_solutions_improve(config, solution, n_bins, events);
        let before = explore_after(start, earlier);
        let end = explore_after(start, events);
        if let ExploreEvent::Separated { loss, bar, solution: sol } = events.last() {
            if separation::settled(loss) {
                assert(handles(end.feasible) =~= handles(before.feasible).push(sol));
                assert(seq![solution] + separated_solutions(events) =~= (seq![solution]
                    + separated_solutions(earlier)).push(sol));
            } else {
                pool::lemma_pool_with(before.pool, Pooled { solution: sol, loss });
            }
        }
    } else {
        assert(handles(start.feasible) =~= seq![solution]);
        assert(seq![solution] + separated_solutions(events) =~= seq![solution]);
    }
}

/// **What an exploration knows is what was reported since its last success**: the pool holds exactly the
/// attempts that failed since then, lowest loss first, and the solutions are the one at the start and
/// all that were reported without overlap, in order. Right after a success the pool is empty, the
/// stagnation count is zero and no loss of the old level is remembered.
pub proof fn lemma_exploration_knows_its_level(
    config: BPExplorationConfig,
    solution: usize,
    n_bins: usize,
    events: Seq<ExploreEvent>,
)
    requires
        explore_admits(explore_start(config, solution, n_bins), events),
        events.len() <= usize::MAX,
    ensures
        ({
            let s = explore_after(explore_start(config, solution, n_bins), events);
            &&& pool::pool_sorted(s.pool)
            &&& s.pool.to_multiset() == latest_failures(events).to_multiset()
            &&& s.best_level_loss == level_loss(events)
            &&& s.n_stagnant == stagnant_attempts(events)
            &&& handles(s.feasible) == seq![solution] + separated_solutions(events)
            &&& events.len() > 0 && (events.last() matches ExploreEvent::Separated { loss, .. }
                && separation::settled(loss)) ==> {
                &&& s.pool.len() == 0
                &&& s.n_stagnant == 0
                &&& s.best_level_loss == infinity()
            }
        }),
{
    lemma_exploration_remembers(config, solution, n_bins, events);
}

/// **What an exploration does is decided by what was reported**: it closes a bin whenever there is time,
/// a second bin, and enough room; among the sparsest bins it takes turns with the failures of the level.
/// It accepts exactly what is without overlap, and after a failure it gives up exactly if the limit of
/// failures in a row, or of failures in a row without progress, is reached.
pub proof fn lemma_exploration_follows_its_history(
    config: BPExplorationConfig,
    solution: usize,
    n_bins: usize,
    events: Seq<ExploreEvent>,
    event: ExploreEvent,
)
    requires
        explore_admits(explore_start(config, solution, n_bins), events.push(event)),
        events.len() < usize::MAX,
    ensures
        ({
            let s = explore_after(explore_start(config, solution, n_bins), events);
            let (t, action) = explore_next(s, event);
            let seen = events.push(event);
            match event {
                ExploreEvent::Poll { killed, required_density, layouts } => {
                    let n = latest_failures(events).len();
                    let turn = if config.n_scatter_retries == 0 {
                        0
                    } else {
                        n % (config.n_scatter_retries as nat)
                    };
                    if killed {
                        action is Finish && t.stop == Some(ExploreStop::TimeLimit)
                    } else if layouts@.len() < 2 {
                        action is Finish && t.stop == Some(ExploreStop::SingleBin)
                    } else if config.max_reduction_density.less(required_density) {
                        action is Finish && t.stop == Some(ExploreStop::AreaBound)
                    } else {
                        &&& t.stop is None
                        &&& turn < layouts@.len() ==> action == (ExploreAction::Close {
                            target: separator::sparsest_first(layouts@)[turn as int].key,
                        })
                        &&& turn >= layouts@.len() ==> action == (ExploreAction::Close {
                            target: separator::sparsest_first(layouts@)[0].key,
                        })
                    }
                },
                ExploreEvent::Closed(closed) => if closed {
                    action is Separate && t.stop is None
                } else {
                    action is Finish && t.stop == Some(ExploreStop::CouldNotClose)
                },
                ExploreEvent::Separated { loss, .. } => if separation::settled(loss) {
                    action is Accept && t.stop is None
                } else {
                    &&& t.stop == exhausted(config, seen)
                    &&& t.stop is None ==> action is Reject
                    &&& t.stop is Some ==> action is RejectAndFinish
                },
                ExploreEvent::Sampled { index } => action == (ExploreAction::Restart {
                    n_disruptions: (1 + index) as usize,
                }) && t.stop is None,
            }
        }),
{
    let start = explore_start(config, solution, n_bins);
    let all = events.push(event);
    assert(all.drop_last() =~= events);
    assert(all.last() == event);
    lemma_exploration_remembers(config, solution, n_bins, events);
    lemma_exploration_remembers(config, solution, n_bins, all);
    assert(explore_after(start, all) == explore_next(explore_after(start, events), event).0);
}

/// **A success starts the count of failures anew**: whatever failed before an attempt that succeeded no
/// longer counts, so that the exploration then gives up only after as many new failures as the limit says.
pub proof fn lemma_success_wipes_the_slate(earlier: Seq<ExploreEvent>, later: Seq<ExploreEvent>)
    requires
        earlier.len() > 0,
        earlier.last() matches ExploreEvent::Separated { loss, .. } && separation::settled(loss),
    ensures
        latest_failures(earlier + later) == latest_failures(later),
        stagnant_attempts(earlier + later) == stagnant_attempts(later),
        level_loss(earlier + later) == level_loss(later),
    decreases later.len(),
{
    if later.len() > 0 {
        lemma_success_wipes_the_slate(earlier, later.drop_last());
        assert((earlier + later).drop_last() =~= earlier + later.drop_last());
    } else {
        assert(earlier + later =~= earlier);
    }
}

/// **Every order is answered by its own report**: which event an exploration waits for next follows from
/// the action that it just ordered, and after it has finished it waits for none.
pub proof fn lemma_each_order_awaits_its_report(
    s: BPExplorationView,
    event: ExploreEvent,
    e: ExploreEvent,
    solution: usize,
    n_bins: usize,
)
    requires
        explore_expects(s, event),
    ensures
        ({
            let (t, action) = explore_next(s, event);
            explore_expects(t, e) == match action {
                ExploreAction::Close { .. } => e is Closed,
                ExploreAction::Separate => e matches ExploreEvent::Separated { loss, .. }
                    && !loss.nan(),
                ExploreAction::Accept | ExploreAction::Restart { .. } => e is Poll,
                ExploreAction::Reject => e matches ExploreEvent::Sampled { index } && index
                    < t.pool.len(),
                ExploreAction::RejectAndFinish | ExploreAction::Finish => false,
            }
        }),
        explore_expects(explore_start(s.config, solution, n_bins), e) == e is Poll,
{
}

/// The sort keys of containers: largest area first, ties by key.
pub open spec fn container_keys(keys: Seq<LayKey>, areas: Seq<Scalar>) -> Seq<(u64, u64)> {
    Seq::new(keys.len(), |i: int| (layouts::descending(areas[i]), keys[i].rank))
}

/// The containers whose areas bound a reduction by one bin: all but the smallest, largest first, by
/// position. `None` if there is nothing to reduce.
pub fn required_density_for_reduction(keys: &Vec<LayKey>, areas: &Vec<Scalar>) -> (r: Option<
    Vec<usize>,
>)
    requires
        keys@.len() == areas@.len(),
    ensures
        match r {
            Some(positions) => keys@.len() >= 2 && positions@ == order::positions_in_order(
                container_keys(keys@, areas@),
            ).drop_last(),
            None => keys@.len() < 2,
        },
{
    if keys.len() < 2 {
        return None;
    }
    let mut sort_keys: Vec<(u64, u64)> = Vec::new();
    let mut i: usize = 0;
    while i < keys.len()
        invariant
            i <= keys@.len(),
            keys@.len() == areas@.len(),
            sort_keys@.len() == i,
            forall|k: int|
                0 <= k < i ==> #[trigger] sort_keys@[k] == container_keys(keys@, areas@)[k],
        decreases keys@.len() - i,
    {
        let k: u32 = u32::MAX - areas[i].order_key();
        sort_keys.push((k as u64, keys[i].rank));
        i = i + 1;
    }
    assert(sort_keys@ =~= container_keys(keys@, areas@));
    let mut order = order_by(&sort_keys);
    order.pop();
    Some(order)
}

/// **The smallest container is left out**: all others are listed, each once, none of them smaller than the
/// one that is not, and none in front of a larger one.
pub proof fn lemma_smallest_container_is_left_out(keys: Seq<LayKey>, areas: Seq<Scalar>)
    requires
        keys.len() == areas.len(),
        1 <= keys.len() <= usize::MAX,
    ensures
        ({
            let order = order::positions_in_order(container_keys(keys, areas));
            let listed = order.drop_last();
            let left_out = order.last();
            &&& left_out < keys.len()
            &&& listed.len() == keys.len() - 1
            &&& forall|p: usize|
                #![trigger listed.contains(p)]
                p < keys.len() ==> (listed.contains(p) <==> p != left_out)
            &&& forall|i: int|
                #![trigger listed[i]]
                0 <= i < listed.len() ==> !areas[listed[i] as int].less(areas[left_out as int])
            &&& forall|i: int, j: int|
                #![trigger listed[i], listed[j]]
                0 <= i < j < listed.len() ==> !areas[listed[i] as int].less(areas[listed[j] as int])
        }),
{
    let sort_keys = container_keys(keys, areas);
    order::lemma_order_exists(sort_keys);
    let o = order::positions_in_order(sort_keys);
    let listed = o.drop_last();
    assert forall|i: int, j: int|
        #![trigger o[i], o[j]]
        0 <= i < j < o.len() implies !areas[o[i] as int].less(areas[o[j] as int]) && o[i] != o[j] by {
        assert(order::key_less(
            order::full_key(sort_keys, o[i]),
            order::full_key(sort_keys, o[j]),
        ));
        crate::scalar::lemma_key_is_order(areas[o[i] as int], areas[o[j] as int]);
    }
    assert forall|p: usize|
        #![trigger listed.contains(p)]
        p < keys.len() implies (listed.contains(p) <==> p != o.last()) by {
        assert(o.contains(p));
        let k = choose|k: int| 0 <= k < o.len() && o[k] == p;
        if k < o.len() - 1 {
            assert(listed[k] == p);
        }
        if listed.contains(p) {
            let i = choose|i: int| 0 <= i < listed.len() && listed[i] == p;
            assert(o[i] == p);
            assert(o[i] != o[o.len() - 1]);
        }
    }
    assert forall|i: int|
        #![trigger listed[i]]
        0 <= i < listed.len() implies !areas[listed[i] as int].less(areas[o.last() as int]) by {
        assert(listed[i] == o[i]);
        assert(!areas[o[i] as int].less(areas[o[o.len() - 1] as int]));
    }
}

} // verus!
