//! Exploring ever narrower strips and, over walled sheets, ever fewer sheets.
use crate::config::{ExplorationConfig, SheetConfig};
use crate::optimizer::pool;
use crate::optimizer::pool::{insert_sorted, Pooled};
use crate::optimizer::separator as separation;
use crate::scalar::{Scalar, INFINITE_MAGNITUDE};
use vstd::prelude::*;

verus! {

/// Failures in a row of the fine shrink after which a sheet drop is attempted.
pub const SHEET_DROP_AFTER_SHRINK_FAILURES: usize = 2;

/// Rounds without strikes left after which the strikes are refilled.
pub const SHEET_DROP_COOLDOWN: usize = 6;

/// A feasible solution, as a handle of the caller, and the width of its strip.
#[derive(Debug, Clone, Copy, PartialEq, Eq, Structural)]
pub struct Strip {
    /// Handle of the solution.
    pub solution: usize,
    /// Width of the strip.
    pub width: Scalar,
}

/// What an exploration waits for.
#[derive(Debug, Clone, Copy, PartialEq, Eq, Structural)]
pub enum StripStage {
    /// A poll before the next separation.
    Poll,
    /// The result of a separation.
    Separating,
    /// The sheets of the last feasible solution.
    Dropping,
    /// The result of a sheet drop.
    Dropped,
    /// A choice from the pool.
    Sampling,
    /// The width of the chosen solution.
    Restoring,
    /// Nothing: the exploration is over.
    Done,
}

/// Progress of an exploration.
#[derive(Debug)]
pub struct SPExploration {
    /// The settings.
    pub config: ExplorationConfig,
    /// What it waits for.
    pub stage: StripStage,
    /// Width of the strip.
    pub current_width: Scalar,
    /// Width of the best feasible solution; infinite as long as there is none.
    pub best_width: Scalar,
    /// The feasible solutions found so far, best last.
    pub feasible: Vec<Strip>,
    /// The failed attempts since the last feasible solution, lowest loss first.
    pub pool: Vec<Pooled>,
    /// Handle of the last feasible solution.
    pub last_feasible: Option<usize>,
    /// Failures in a row of the fine shrink.
    pub shrink_failures: usize,
    /// Failed drops at the sheet count `drop_strikes_at`.
    pub drop_strikes: usize,
    /// The sheet count at which the strikes were collected.
    pub drop_strikes_at: Option<usize>,
    /// Rounds since the strikes ran out.
    pub drop_cooldown: usize,
}

/// An exploration, as a mathematical value.
pub ghost struct SPExplorationView {
    /// The settings.
    pub config: ExplorationConfig,
    /// What it waits for.
    pub stage: StripStage,
    /// Width of the strip.
    pub current_width: Scalar,
    /// Width of the best feasible solution; infinite as long as there is none.
    pub best_width: Scalar,
    /// The feasible solutions found so far, best last.
    pub feasible: Seq<Strip>,
    /// The failed attempts since the last feasible solution, lowest loss first.
    pub pool: Seq<Pooled>,
    /// Handle of the last feasible solution.
    pub last_feasible: Option<usize>,
    /// Failures in a row of the fine shrink.
    pub shrink_failures: usize,
    /// Failed drops at the sheet count `drop_strikes_at`.
    pub drop_strikes: usize,
    /// The sheet count at which the strikes were collected.
    pub drop_strikes_at: Option<usize>,
    /// Rounds since the strikes ran out.
    pub drop_cooldown: usize,
}

impl View for SPExploration {
    type V = SPExplorationView;

    open spec fn view(&self) -> SPExplorationView {
        SPExplorationView {
            config: self.config,
            stage: self.stage,
            current_width: self.current_width,
            best_width: self.best_width,
            feasible: self.feasible@,
            pool: self.pool@,
            last_feasible: self.last_feasible,
            shrink_failures: self.shrink_failures,
            drop_strikes: self.drop_strikes,
            drop_strikes_at: self.drop_strikes_at,
            drop_cooldown: self.drop_cooldown,
        }
    }
}

/// What the engine reports to an exploration.
#[derive(Debug, Clone, Copy, PartialEq, Eq, Structural)]
pub enum StripEvent {
    /// Whether the time is up.
    Poll {
        /// The exploration has to stop.
        killed: bool,
    },
    /// The layout was separated as far as possible.
    Separated {
        /// The loss that is left.
        loss: Scalar,
        /// Handle of the resulting solution.
        solution: usize,
        /// The current width, less the shrink step.
        next_width: Scalar,
    },
    /// The sheets of the last feasible solution.
    Sheets {
        /// How many they are.
        n: usize,
        /// The density that one sheet fewer would need.
        required_density: Scalar,
    },
    /// A sheet drop was tried.
    Dropped {
        /// The loss that is left.
        loss: Scalar,
        /// Handle of the resulting solution.
        solution: usize,
        /// Width of its strip.
        width: Scalar,
        /// How many sheets it has.
        n: usize,
    },
    /// A random choice from the pool.
    Sampled {
        /// Position in the pool.
        index: usize,
    },
    /// The chosen solution is restored and disrupted.
    Restored {
        /// Width of its strip.
        width: Scalar,
    },
}

/// What the engine has to do next in an exploration.
#[derive(Debug, Clone, Copy, PartialEq, Eq, Structural)]
pub enum StripAction {
    /// Poll.
    Poll,
    /// Separate the layout.
    Separate,
    /// Report the separated solution as feasible if it is an improvement, change to this width, then
    /// poll.
    Shrink {
        /// The solution is narrower than any before it.
        improved: bool,
        /// The new width.
        width: Scalar,
    },
    /// Report the separated solution as infeasible: it is over.
    RejectAndFinish,
    /// Report the separated solution as infeasible, return to this solution and count its sheets.
    PrepareDrop {
        /// Handle of the last feasible solution.
        solution: usize,
    },
    /// Try to drop a sheet.
    Drop,
    /// Adopt and report the solution with one sheet fewer, then poll.
    Adopt,
    /// Report the separated solution as infeasible, then choose from the pool.
    Reject,
    /// Report the failed drop as infeasible, return to this solution, then choose from the pool.
    Undo {
        /// Handle of the last feasible solution.
        solution: usize,
    },
    /// Choose from the pool.
    Sample,
    /// Return to this solution, disrupt it and report its width.
    Restart {
        /// Handle of the solution.
        solution: usize,
    },
    /// It is over.
    Finish,
}

/// Whether the stage waits for this kind of event.
pub open spec fn strip_expects(s: SPExplorationView, event: StripEvent) -> bool {
    match s.stage {
        StripStage::Poll => event is Poll,
        StripStage::Separating => event matches StripEvent::Separated { loss, .. } && !loss.nan(),
        StripStage::Dropping => event is Sheets,
        StripStage::Dropped => event matches StripEvent::Dropped { loss, .. } && !loss.nan(),
        StripStage::Sampling => event matches StripEvent::Sampled { index } && index
            < s.pool.len(),
        StripStage::Restoring => event is Restored,
        StripStage::Done => false,
    }
}

/// A separation that left no overlap.
pub open spec fn strip_success(s: SPExplorationView, solution: usize, next_width: Scalar) -> (
    SPExplorationView,
    StripAction,
) {
    let improved = s.current_width.less(s.best_width);
    (
        SPExplorationView {
            stage: StripStage::Poll,
            current_width: next_width,
            best_width: if improved {
                s.current_width
            } else {
                s.best_width
            },
            feasible: if improved {
                s.feasible.push(Strip { solution, width: s.current_width })
            } else {
                s.feasible
            },
            pool: Seq::empty(),
            last_feasible: Some(solution),
            shrink_failures: 0,
            ..s
        },
        StripAction::Shrink { improved, width: next_width },
    )
}

/// A separation that left some overlap.
pub open spec fn strip_failure(s: SPExplorationView, loss: Scalar, solution: usize) -> (
    SPExplorationView,
    StripAction,
) {
    let pool = pool::pool_with(s.pool, Pooled { solution, loss });
    let failures = (s.shrink_failures + 1) as usize;
    if pool.len() >= match s.config.max_conseq_failed_attempts {
        Some(max) => max as nat,
        None => usize::MAX as nat,
    } {
        (SPExplorationView { stage: StripStage::Done, pool, ..s }, StripAction::RejectAndFinish)
    } else {
        match s.last_feasible {
            Some(last) if s.config.sheet is Some && failures
                >= SHEET_DROP_AFTER_SHRINK_FAILURES => (
                SPExplorationView {
                    stage: StripStage::Dropping,
                    pool,
                    shrink_failures: 0,
                    ..s
                },
                StripAction::PrepareDrop { solution: last },
            ),
            _ => (
                SPExplorationView {
                    stage: StripStage::Sampling,
                    pool,
                    shrink_failures: failures,
                    ..s
                },
                StripAction::Reject,
            ),
        }
    }
}

/// The strikes at this sheet count: fresh ones if the count has changed, and refilled ones after a
/// while without any.
pub open spec fn strip_strikes(s: SPExplorationView, sheet: SheetConfig, n: usize) -> (
    usize,
    usize,
) {
    let strikes = if s.drop_strikes_at == Some(n) {
        s.drop_strikes
    } else {
        0
    };
    if strikes >= sheet.sheet_drop_strikes {
        if s.drop_cooldown + 1 >= SHEET_DROP_COOLDOWN {
            (0, 0)
        } else {
            (strikes, (s.drop_cooldown + 1) as usize)
        }
    } else {
        (strikes, s.drop_cooldown)
    }
}

/// Whether a drop is attempted: there is a sheet to drop, a strike left, and one sheet fewer does
/// not need too high a density.
pub open spec fn attempts_drop(
    sheet: SheetConfig,
    n: usize,
    strikes: usize,
    required_density: Scalar,
) -> bool {
    n >= 2 && strikes < sheet.sheet_drop_strikes && !sheet.max_reduction_density.less(
        required_density,
    )
}

/// Before a sheet drop.
pub open spec fn strip_drop(
    s: SPExplorationView,
    sheet: SheetConfig,
    n: usize,
    required_density: Scalar,
) -> (SPExplorationView, StripAction) {
    let (drop_strikes, drop_cooldown) = strip_strikes(s, sheet, n);
    let t = SPExplorationView { drop_strikes, drop_cooldown, drop_strikes_at: Some(n), ..s };
    if attempts_drop(sheet, n, drop_strikes, required_density) {
        (SPExplorationView { stage: StripStage::Dropped, ..t }, StripAction::Drop)
    } else {
        (SPExplorationView { stage: StripStage::Sampling, ..t }, StripAction::Sample)
    }
}

/// After a sheet drop.
pub open spec fn strip_dropped(
    s: SPExplorationView,
    loss: Scalar,
    solution: usize,
    width: Scalar,
    n: usize,
) -> (SPExplorationView, StripAction) {
    if separation::settled(loss) {
        (
            SPExplorationView {
                stage: StripStage::Poll,
                current_width: width,
                best_width: width,
                feasible: s.feasible.push(Strip { solution, width }),
                pool: Seq::empty(),
                last_feasible: Some(solution),
                drop_strikes: 0,
                drop_strikes_at: Some(n),
                ..s
            },
            StripAction::Adopt,
        )
    } else {
        (
            SPExplorationView {
                stage: StripStage::Sampling,
                pool: pool::pool_with(s.pool, Pooled { solution, loss }),
                drop_strikes: (s.drop_strikes + 1) as usize,
                ..s
            },
            StripAction::Undo { solution: s.last_feasible->0 },
        )
    }
}

/// What an exploration does on an event.
pub open spec fn strip_next(s: SPExplorationView, event: StripEvent) -> (
    SPExplorationView,
    StripAction,
) {
    match event {
        StripEvent::Poll { killed } => if killed {
            (SPExplorationView { stage: StripStage::Done, ..s }, StripAction::Finish)
        } else {
            (SPExplorationView { stage: StripStage::Separating, ..s }, StripAction::Separate)
        },
        StripEvent::Separated { loss, solution, next_width } => if separation::settled(loss) {
            strip_success(s, solution, next_width)
        } else {
            strip_failure(s, loss, solution)
        },
        StripEvent::Sheets { n, required_density } => strip_drop(
            s,
            s.config.sheet->0,
            n,
            required_density,
        ),
        StripEvent::Dropped { loss, solution, width, n } => strip_dropped(
            s,
            loss,
            solution,
            width,
            n,
        ),
        StripEvent::Sampled { index } => (
            SPExplorationView { stage: StripStage::Restoring, ..s },
            StripAction::Restart { solution: s.pool[index as int].solution },
        ),
        StripEvent::Restored { width } => (
            SPExplorationView { stage: StripStage::Poll, current_width: width, ..s },
            StripAction::Poll,
        ),
    }
}

/// The pool is sorted, and the counters are within their limits.
pub open spec fn strip_wf(s: SPExplorationView) -> bool {
    &&& pool::pool_sorted(s.pool)
    &&& s.pool.len() <= usize::MAX
    &&& s.shrink_failures <= s.pool.len()
    &&& s.drop_cooldown < SHEET_DROP_COOLDOWN
    &&& s.stage is Dropping || s.stage is Dropped ==> s.config.sheet is Some
        && s.last_feasible is Some && s.shrink_failures == 0
    &&& s.stage is Dropped ==> s.drop_strikes < (s.config.sheet->0).sheet_drop_strikes
}

/// The start of an exploration of a layout with the given loss.
pub open spec fn strip_start(
    config: ExplorationConfig,
    loss: Scalar,
    solution: usize,
    width: Scalar,
) -> SPExplorationView {
    let ok = separation::settled(loss);
    SPExplorationView {
        config,
        stage: StripStage::Poll,
        current_width: width,
        best_width: if ok {
            width
        } else {
            Scalar { bits: INFINITE_MAGNITUDE }
        },
        feasible: if ok {
            seq![Strip { solution, width }]
        } else {
            seq![]
        },
        pool: Seq::empty(),
        last_feasible: if ok {
            Some(solution)
        } else {
            None
        },
        shrink_failures: 0,
        drop_strikes: 0,
        drop_strikes_at: None,
        drop_cooldown: 0,
    }
}

impl SPExploration {
    /// An exploration of a layout with the given loss. The layout is the first solution if it is
    /// feasible, and none otherwise.
    pub fn new(
        config: ExplorationConfig,
        loss: Scalar,
        solution: usize,
        width: Scalar,
    ) -> (r: SPExploration)
        ensures
            r@ == strip_start(config, loss, solution, width),
            strip_wf(r@),
    {
        let mut feasible: Vec<Strip> = Vec::new();
        let mut best_width = Scalar { bits: INFINITE_MAGNITUDE };
        let mut last_feasible: Option<usize> = None;
        if loss.is_zero() {
            feasible.push(Strip { solution, width });
            best_width = width;
            last_feasible = Some(solution);
        }
        let r = SPExploration {
            config,
            stage: StripStage::Poll,
            current_width: width,
            best_width,
            feasible,
            pool: Vec::new(),
            last_feasible,
            shrink_failures: 0,
            drop_strikes: 0,
            drop_strikes_at: None,
            drop_cooldown: 0,
        };
        assert(r@.feasible =~= strip_start(config, loss, solution, width).feasible);
        assert(r@.pool =~= Seq::empty());
        r
    }

    fn succeed(&mut self, solution: usize, next_width: Scalar) -> (action: StripAction)
        requires
            strip_wf(old(self)@),
            old(self).stage is Separating,
        ensures
            (final(self)@, action) == strip_success(old(self)@, solution, next_width),
            strip_wf(final(self)@),
    {
        let improved: bool = self.current_width.lt(self.best_width);
        if improved {
            self.best_width = self.current_width;
            self.feasible.push(Strip { solution, width: self.current_width });
        }
        self.last_feasible = Some(solution);
        self.shrink_failures = 0;
        self.current_width = next_width;
        self.pool = Vec::new();
        self.stage = StripStage::Poll;
        assert(self@.pool =~= Seq::empty());
        StripAction::Shrink { improved, width: next_width }
    }

    fn fail(&mut self, loss: Scalar, solution: usize) -> (action: StripAction)
        requires
            strip_wf(old(self)@),
            old(self).stage is Separating,
            !loss.nan(),
        ensures
            (final(self)@, action) == strip_failure(old(self)@, loss, solution),
            strip_wf(final(self)@),
    {
        insert_sorted(&mut self.pool, Pooled { solution, loss });
        let n: usize = self.pool.len();
        let max: usize = match self.config.max_conseq_failed_attempts {
            Some(max) => max,
            None => usize::MAX,
        };
        if n >= max {
            self.stage = StripStage::Done;
            return StripAction::RejectAndFinish;
        }
        self.shrink_failures = self.shrink_failures + 1;
        if self.config.sheet.is_some() && self.shrink_failures
            >= SHEET_DROP_AFTER_SHRINK_FAILURES {
            if let Some(last) = self.last_feasible {
                self.shrink_failures = 0;
                self.stage = StripStage::Dropping;
                return StripAction::PrepareDrop { solution: last };
            }
        }
        self.stage = StripStage::Sampling;
        StripAction::Reject
    }

    /// Decides whether to attempt a sheet drop.
    ///
    /// At most a fixed number of drops may fail per sheet count. When they are used up, the fine
    /// shrink goes on alone for a while, and then they are refilled.
    fn attempt_sheet_drop(&mut self, sheet: SheetConfig, n: usize, required_density: Scalar) -> (action:
        StripAction)
        requires
            strip_wf(old(self)@),
            old(self).stage is Dropping,
            old(self).config.sheet == Some(sheet),
        ensures
            (final(self)@, action) == strip_drop(old(self)@, sheet, n, required_density),
            strip_wf(final(self)@),
    {
        let same: bool = match self.drop_strikes_at {
            Some(at) => at == n,
            None => false,
        };
        if !same {
            self.drop_strikes = 0;
        }
        self.drop_strikes_at = Some(n);
        if self.drop_strikes >= sheet.sheet_drop_strikes {
            self.drop_cooldown = self.drop_cooldown + 1;
            if self.drop_cooldown >= SHEET_DROP_COOLDOWN {
                self.drop_strikes = 0;
                self.drop_cooldown = 0;
            }
        }
        if n >= 2 && self.drop_strikes < sheet.sheet_drop_strikes
            && !sheet.max_reduction_density.lt(required_density) {
            self.stage = StripStage::Dropped;
            StripAction::Drop
        } else {
            self.stage = StripStage::Sampling;
            StripAction::Sample
        }
    }
}

/// Advances an exploration by one event.
///
/// Whenever the layout can be separated, the strip is shrunk by a small step. When it cannot, the
/// attempt is pooled, and the next one starts from a pooled solution that is disrupted first. Over
/// walled sheets, a whole sheet is dropped at once when the fine shrink is stuck.
pub fn exploration_phase(run: &mut SPExploration, event: StripEvent) -> (action: StripAction)
    requires
        strip_wf(old(run)@),
        strip_expects(old(run)@, event),
    ensures
        (final(run)@, action) == strip_next(old(run)@, event),
        strip_wf(final(run)@),
{
    match event {
        StripEvent::Poll { killed } => {
            if killed {
                run.stage = StripStage::Done;
                StripAction::Finish
            } else {
                run.stage = StripStage::Separating;
                StripAction::Separate
            }
        },
        StripEvent::Separated { loss, solution, next_width } => {
            if loss.is_zero() {
                run.succeed(solution, next_width)
            } else {
                run.fail(loss, solution)
            }
        },
        StripEvent::Sheets { n, required_density } => {
            let sheet = run.config.sheet.unwrap();
            run.attempt_sheet_drop(sheet, n, required_density)
        },
        StripEvent::Dropped { loss, solution, width, n } => {
            let last: usize = run.last_feasible.unwrap();
            if loss.is_zero() {
                run.best_width = width;
                run.current_width = width;
                run.last_feasible = Some(solution);
                run.feasible.push(Strip { solution, width });
                run.drop_strikes = 0;
                run.drop_strikes_at = Some(n);
                run.pool = Vec::new();
                run.stage = StripStage::Poll;
                assert(run@.pool =~= Seq::empty());
                StripAction::Adopt
            } else {
                insert_sorted(&mut run.pool, Pooled { solution, loss });
                let n_pooled: usize = run.pool.len();
                run.drop_strikes = run.drop_strikes + 1;
                run.stage = StripStage::Sampling;
                StripAction::Undo { solution: last }
            }
        },
        StripEvent::Sampled { index } => {
            run.stage = StripStage::Restoring;
            StripAction::Restart { solution: run.pool[index].solution }
        },
        StripEvent::Restored { width } => {
            run.current_width = width;
            run.stage = StripStage::Poll;
            StripAction::Poll
        },
    }
}

/// The exploration after a sequence of events.
pub open spec fn strip_after(s: SPExplorationView, events: Seq<StripEvent>) -> SPExplorationView
    decreases events.len(),
{
    if events.len() == 0 {
        s
    } else {
        strip_next(strip_after(s, events.drop_last()), events.last()).0
    }
}

/// Every event is one that the exploration waits for at that point, and a strip with one sheet fewer
/// is narrower than the best one.
pub open spec fn strip_admits(s: SPExplorationView, events: Seq<StripEvent>) -> bool
    decreases events.len(),
{
    events.len() > 0 ==> {
        let before = strip_after(s, events.drop_last());
        &&& strip_admits(s, events.drop_last())
        &&& strip_expects(before, events.last())
        &&& events.last() matches StripEvent::Dropped { loss, width, .. } ==> (separation::settled(
            loss,
        ) ==> width.less(before.best_width))
    }
}

/// Whether the event reports a solution without overlap.
pub open spec fn reports_separated(event: StripEvent, solution: usize) -> bool {
    match event {
        StripEvent::Separated { loss, solution: s, .. } => separation::settled(loss) && s
            == solution,
        StripEvent::Dropped { loss, solution: s, .. } => separation::settled(loss) && s == solution,
        _ => false,
    }
}

/// What one event adds to the solutions: none, or one that it reports, narrower than the best so far.
pub open spec fn adds_at_most_one(
    s: SPExplorationView,
    event: StripEvent,
    t: SPExplorationView,
) -> bool {
    ||| t.feasible == s.feasible && t.best_width == s.best_width
    ||| {
        &&& t.feasible.len() == s.feasible.len() + 1
        &&& t.feasible.drop_last() == s.feasible
        &&& t.feasible.last().width == t.best_width
        &&& t.best_width.less(s.best_width)
        &&& reports_separated(event, t.feasible.last().solution)
    }
}

proof fn lemma_step_adds_at_most_one(s: SPExplorationView, event: StripEvent)
    requires
        strip_expects(s, event),
        event matches StripEvent::Dropped { loss, width, .. } ==> (separation::settled(loss)
            ==> width.less(s.best_width)),
    ensures
        adds_at_most_one(s, event, strip_next(s, event).0),
{
    let t = strip_next(s, event).0;
    if t.feasible.len() > s.feasible.len() {
        assert(t.feasible.drop_last() =~= s.feasible);
    }
}

/// The widths fall, and the best one is the last.
pub open spec fn strips_narrow(s: SPExplorationView) -> bool {
    &&& s.feasible.len() > 0 ==> s.best_width == s.feasible.last().width
    &&& !s.best_width.nan()
    &&& forall|i: int|
        0 < i < s.feasible.len() ==> (#[trigger] s.feasible[i]).width.less(
            s.feasible[i - 1].width,
        )
}

proof fn lemma_strips_narrow(s: SPExplorationView, events: Seq<StripEvent>)
    requires
        strip_admits(s, events),
        strips_narrow(s),
    ensures
        strips_narrow(strip_after(s, events)),
    decreases events.len(),
{
    if events.len() > 0 {
        lemma_strips_narrow(s, events.drop_last());
        let before = strip_after(s, events.drop_last());
        let end = strip_after(s, events);
        lemma_step_adds_at_most_one(before, events.last());
        assert forall|i: int| 0 < i < end.feasible.len() implies (
        #[trigger] end.feasible[i]).width.less(end.feasible[i - 1].width) by {
            if i < before.feasible.len() {
                assert(end.feasible[i] == before.feasible[i]);
            }
            assert(end.feasible[i - 1] == before.feasible[i - 1]);
        }
    }
}

/// The list of solutions never gets shorter.
pub proof fn lemma_strips_stay(s: SPExplorationView, events: Seq<StripEvent>)
    requires
        strip_admits(s, events),
    ensures
        s.feasible.len() <= strip_after(s, events).feasible.len(),
    decreases events.len(),
{
    if events.len() > 0 {
        lemma_strips_stay(s, events.drop_last());
        lemma_step_adds_at_most_one(strip_after(s, events.drop_last()), events.last());
    }
}

proof fn lemma_strips_have_sources(s: SPExplorationView, events: Seq<StripEvent>, i: int)
    requires
        strip_admits(s, events),
        0 <= i < strip_after(s, events).feasible.len(),
    ensures
        i < s.feasible.len() ==> strip_after(s, events).feasible[i] == s.feasible[i],
        i >= s.feasible.len() ==> exists|k: int|
            0 <= k < events.len() && reports_separated(
                #[trigger] events[k],
                strip_after(s, events).feasible[i].solution,
            ),
    decreases events.len(),
{
    if events.len() > 0 {
        let earlier = events.drop_last();
        let before = strip_after(s, earlier);
        let end = strip_after(s, events);
        lemma_step_adds_at_most_one(before, events.last());
        if i < before.feasible.len() {
            assert(end.feasible[i] == before.feasible[i]);
            lemma_strips_have_sources(s, earlier, i);
            if i >= s.feasible.len() {
                let k = choose|k: int|
                    0 <= k < earlier.len() && reports_separated(
                        #[trigger] earlier[k],
                        before.feasible[i].solution,
                    );
                assert(events[k] == earlier[k]);
            }
        } else {
            lemma_strips_stay(s, earlier);
            assert(reports_separated(events[events.len() - 1], end.feasible[i].solution));
        }
    }
}

/// **Only feasible solutions are returned, and each is narrower than the one before it.** The first
/// one may be the layout at the start, if that has no loss; every other one was reported without
/// any overlap. A layout that starts with some loss is never among them.
pub proof fn lemma_strips_are_feasible_and_narrow(
    config: ExplorationConfig,
    loss: Scalar,
    solution: usize,
    width: Scalar,
    events: Seq<StripEvent>,
)
    requires
        strip_admits(strip_start(config, loss, solution, width), events),
        !width.nan(),
    ensures
        ({
            let end = strip_after(strip_start(config, loss, solution, width), events);
            &&& end.feasible.len() > 0 ==> end.best_width == end.feasible.last().width
            &&& !end.best_width.nan()
            &&& forall|i: int|
                0 < i < end.feasible.len() ==> (#[trigger] end.feasible[i]).width.less(
                    end.feasible[i - 1].width,
                )
            &&& forall|i: int|
                0 <= i < end.feasible.len() ==> {
                    ||| i == 0 && separation::settled(loss) && (#[trigger] end.feasible[i])
                        == (Strip { solution, width })
                    ||| exists|k: int|
                        0 <= k < events.len() && reports_separated(
                            #[trigger] events[k],
                            end.feasible[i].solution,
                        )
                }
        }),
{
    let start = strip_start(config, loss, solution, width);
    let end = strip_after(start, events);
    lemma_strips_narrow(start, events);
    assert forall|i: int| 0 <= i < end.feasible.len() implies {
        ||| i == 0 && separation::settled(loss) && (#[trigger] end.feasible[i]) == (Strip {
            solution,
            width,
        })
        ||| exists|k: int|
            0 <= k < events.len() && reports_separated(
                #[trigger] events[k],
                end.feasible[i].solution,
            )
    } by {
        lemma_strips_have_sources(start, events, i);
    }
}

/// **The strikes bound the failed drops**: a drop is only attempted with two sheets or more, with a
/// strike left, and if one sheet fewer does not need a higher density than the cap.
pub proof fn lemma_no_hopeless_drop(s: SPExplorationView, event: StripEvent)
    requires
        strip_wf(s),
        strip_expects(s, event),
        strip_next(s, event).1 is Drop,
    ensures
        event matches StripEvent::Sheets { n, required_density } && n >= 2 && !(
        s.config.sheet->0).max_reduction_density.less(required_density),
        strip_next(s, event).0.drop_strikes < (s.config.sheet->0).sheet_drop_strikes,
{
}

/// **Without sheets there is no drop**: an exploration of a plain strip never asks for one.
pub proof fn lemma_plain_strip_never_drops(s: SPExplorationView, event: StripEvent)
    requires
        strip_wf(s),
        strip_expects(s, event),
        s.config.sheet is None,
    ensures
        !(strip_next(s, event).1 is Drop),
        !(strip_next(s, event).1 is PrepareDrop),
{
}

/// Whether an event reports a layout, fine or after a drop, that has no overlap left.
pub open spec fn is_success(event: StripEvent) -> bool {
    match event {
        StripEvent::Separated { loss, .. } => separation::settled(loss),
        StripEvent::Dropped { loss, .. } => separation::settled(loss),
        _ => false,
    }
}

/// The attempts that failed since the last success, in the order in which they were made.
pub open spec fn latest_failures(events: Seq<StripEvent>) -> Seq<Pooled>
    decreases events.len(),
{
    if events.len() == 0 || is_success(events.last()) {
        seq![]
    } else {
        let before = latest_failures(events.drop_last());
        match events.last() {
            StripEvent::Separated { loss, solution, .. } => before.push(Pooled { solution, loss }),
            StripEvent::Dropped { loss, solution, .. } => before.push(Pooled { solution, loss }),
            _ => before,
        }
    }
}

/// The width that was reported last, in an exploration that starts with a strip of the given width.
pub open spec fn latest_width(width: Scalar, events: Seq<StripEvent>) -> Scalar
    decreases events.len(),
{
    if events.len() == 0 {
        width
    } else {
        match events.last() {
            StripEvent::Restored { width: w } => w,
            StripEvent::Dropped { width: w, .. } if is_success(events.last()) => w,
            StripEvent::Separated { next_width, .. } if is_success(events.last()) => next_width,
            _ => latest_width(width, events.drop_last()),
        }
    }
}

/// The solution of the last success, or the one at the start.
pub open spec fn latest_success(first: Option<usize>, events: Seq<StripEvent>) -> Option<usize>
    decreases events.len(),
{
    if events.len() == 0 {
        first
    } else {
        match events.last() {
            StripEvent::Separated { solution, .. } if is_success(events.last()) => Some(solution),
            StripEvent::Dropped { solution, .. } if is_success(events.last()) => Some(solution),
            _ => latest_success(first, events.drop_last()),
        }
    }
}

/// The strips that were kept: the first one, every one that was separated at a width below all before
/// it, and every one with a sheet fewer.
pub open spec fn kept_strips(first: Seq<Strip>, width: Scalar, events: Seq<StripEvent>) -> Seq<Strip>
    decreases events.len(),
{
    if events.len() == 0 {
        first
    } else {
        let earlier = events.drop_last();
        let kept = kept_strips(first, width, earlier);
        match events.last() {
            StripEvent::Separated { solution, .. } if is_success(events.last()) => {
                let w = latest_width(width, earlier);
                if w.less(
                    if kept.len() == 0 {
                        Scalar { bits: INFINITE_MAGNITUDE }
                    } else {
                        kept.last().width
                    },
                ) {
                    kept.push(Strip { solution, width: w })
                } else {
                    kept
                }
            },
            StripEvent::Dropped { solution, width: w, .. } if is_success(events.last()) => kept.push(
                Strip { solution, width: w },
            ),
            _ => kept,
        }
    }
}

/// How often in a row the fine shrink has failed: since the last strip that it could separate, or
/// since the sheets were last counted.
pub open spec fn stuck_for(events: Seq<StripEvent>) -> nat
    decreases events.len(),
{
    if events.len() == 0 {
        0
    } else {
        match events.last() {
            StripEvent::Separated { .. } => if is_success(events.last()) {
                0
            } else {
                stuck_for(events.drop_last()) + 1
            },
            StripEvent::Sheets { .. } => 0,
            _ => stuck_for(events.drop_last()),
        }
    }
}

/// The solution at the start, if it is feasible.
pub open spec fn first_success(loss: Scalar, solution: usize) -> Option<usize> {
    if separation::settled(loss) {
        Some(solution)
    } else {
        None
    }
}

/// The strip at the start, if it is feasible.
pub open spec fn first_strips(loss: Scalar, solution: usize, width: Scalar) -> Seq<Strip> {
    if separation::settled(loss) {
        seq![Strip { solution, width }]
    } else {
        seq![]
    }
}

proof fn lemma_exploration_remembers(
    config: ExplorationConfig,
    loss: Scalar,
    solution: usize,
    width: Scalar,
    events: Seq<StripEvent>,
)
    requires
        strip_admits(strip_start(config, loss, solution, width), events),
        events.len() <= usize::MAX,
    ensures
        ({
            let s = strip_after(strip_start(config, loss, solution, width), events);
            let kept = kept_strips(first_strips(loss, solution, width), width, events);
            &&& s.config == config
            &&& pool::pool_sorted(s.pool)
            &&& s.pool.len() == latest_failures(events).len()
            &&& s.pool.to_multiset() == latest_failures(events).to_multiset()
            &&& latest_failures(events).len() <= events.len()
            &&& s.current_width == latest_width(width, events)
            &&& s.last_feasible == latest_success(first_success(loss, solution), events)
            &&& s.feasible == kept
            &&& s.best_width == if kept.len() == 0 {
                Scalar { bits: INFINITE_MAGNITUDE }
            } else {
                kept.last().width
            }
            &&& stuck_for(events) <= events.len()
            &&& s.stage is Dropping ==> s.shrink_failures == 0
            &&& !(s.stage is Dropping) && !(s.stage is Done) ==> s.shrink_failures == stuck_for(
                events,
            )
        }),
    decreases events.len(),
{
    broadcast use vstd::seq_lib::group_to_multiset_ensures;
    let start = strip_start(config, loss, solution, width);
    if events.len() > 0 {
        let earlier = events.drop_last();
        lemma_exploration_remembers(config, loss, solution, width, earlier);
        let before = strip_after(start, earlier);
        match events.last() {
            StripEvent::Separated { loss: l, solution: sol, .. } => {
                if !separation::settled(l) {
                    pool::lemma_pool_with(before.pool, Pooled { solution: sol, loss: l });
                }
            },
            StripEvent::Dropped { loss: l, solution: sol, .. } => {
                if !separation::settled(l) {
                    pool::lemma_pool_with(before.pool, Pooled { solution: sol, loss: l });
                }
            },
            _ => {},
        }
    }
}

/// **An exploration does what its history asks for.** A separated strip is shrunk, and kept if it is
/// narrower than every one before it; a success of either kind empties the pool. A failure is pooled,
/// and ends the exploration when as many attempts as allowed have failed since the last success. Over
/// sheets, every second failure in a row of the fine shrink leads to a drop, from the last success. A
/// failed drop goes back to the last success too.
pub proof fn lemma_exploration_follows_its_history(
    config: ExplorationConfig,
    loss: Scalar,
    solution: usize,
    width: Scalar,
    events: Seq<StripEvent>,
    event: StripEvent,
)
    requires
        strip_admits(strip_start(config, loss, solution, width), events.push(event)),
        events.len() < usize::MAX,
    ensures
        ({
            let s = strip_after(strip_start(config, loss, solution, width), events);
            let (t, action) = strip_next(s, event);
            let seen = events.push(event);
            let first = first_strips(loss, solution, width);
            let last = latest_success(first_success(loss, solution), events);
            let n = latest_failures(seen).len();
            let over = match config.max_conseq_failed_attempts {
                Some(max) => n >= max,
                None => n >= usize::MAX,
            };
            &&& t.pool.to_multiset() == latest_failures(seen).to_multiset()
            &&& pool::pool_sorted(t.pool)
            &&& t.feasible == kept_strips(first, width, seen)
            &&& t.last_feasible == latest_success(first_success(loss, solution), seen)
            &&& t.current_width == latest_width(width, seen)
            &&& match event {
                StripEvent::Poll { killed } => action == if killed {
                    StripAction::Finish
                } else {
                    StripAction::Separate
                },
                StripEvent::Separated { loss: l, next_width, .. } => if separation::settled(l) {
                    action == StripAction::Shrink {
                        improved: kept_strips(first, width, seen).len() > kept_strips(
                            first,
                            width,
                            events,
                        ).len(),
                        width: next_width,
                    }
                } else if over {
                    action is RejectAndFinish
                } else if config.sheet is Some && last is Some && stuck_for(seen) >= 2 {
                    action == (StripAction::PrepareDrop { solution: last->0 })
                } else {
                    action is Reject
                },
                StripEvent::Sheets { .. } => action is Drop || action is Sample,
                StripEvent::Dropped { loss: l, .. } => if separation::settled(l) {
                    action is Adopt
                } else {
                    last matches Some(h) ==> action == (StripAction::Undo { solution: h })
                },
                StripEvent::Sampled { index } => action == (StripAction::Restart {
                    solution: t.pool[index as int].solution,
                }),
                StripEvent::Restored { .. } => action is Poll,
            }
        }),
{
    let start = strip_start(config, loss, solution, width);
    let all = events.push(event);
    assert(all.drop_last() =~= events);
    assert(all.last() == event);
    lemma_exploration_remembers(config, loss, solution, width, events);
    lemma_exploration_remembers(config, loss, solution, width, all);
    assert(strip_after(start, all) == strip_next(strip_after(start, events), event).0);
}

/// **The strikes of a sheet count.** At a count of sheets other than the last one, no strike is used
/// up. At the same count, every failed drop has used up one; when none is left, no drop is attempted
/// for a number of rounds, and after those all of them are back. A drop that succeeds starts the count
/// anew at the sheets it leaves.
pub proof fn lemma_strikes_of_a_sheet_count(s: SPExplorationView, event: StripEvent)
    requires
        strip_wf(s),
        strip_expects(s, event),
    ensures
        ({
            let (t, action) = strip_next(s, event);
            let allowed = (s.config.sheet->0).sheet_drop_strikes;
            match event {
                StripEvent::Sheets { n, required_density } => {
                    let possible = n >= 2 && !(s.config.sheet->0).max_reduction_density.less(
                        required_density,
                    );
                    &&& t.drop_strikes_at == Some(n)
                    &&& s.drop_strikes_at != Some(n) && allowed > 0 ==> t.drop_strikes == 0
                        && t.drop_cooldown == s.drop_cooldown && (action is Drop <==> possible)
                    &&& s.drop_strikes_at == Some(n) && s.drop_strikes < allowed ==> t.drop_strikes
                        == s.drop_strikes && t.drop_cooldown == s.drop_cooldown && (action is Drop
                        <==> possible)
                    &&& s.drop_strikes_at == Some(n) && s.drop_strikes >= allowed
                        && s.drop_cooldown + 1 < 6 ==> t.drop_strikes
                        == s.drop_strikes && t.drop_cooldown == s.drop_cooldown + 1
                        && action is Sample
                    &&& s.drop_strikes_at == Some(n) && s.drop_strikes >= allowed
                        && s.drop_cooldown + 1 == 6 ==> t.drop_strikes == 0
                        && t.drop_cooldown == 0 && (action is Drop <==> possible && allowed > 0)
                    &&& allowed == 0 ==> action is Sample
                },
                StripEvent::Dropped { loss, n, .. } => {
                    &&& separation::settled(loss) ==> t.drop_strikes == 0 && t.drop_strikes_at
                        == Some(n)
                    &&& !separation::settled(loss) ==> t.drop_strikes == s.drop_strikes + 1
                        && t.drop_strikes_at == s.drop_strikes_at
                    &&& t.drop_cooldown == s.drop_cooldown
                },
                _ => t.drop_strikes == s.drop_strikes && t.drop_strikes_at == s.drop_strikes_at
                    && t.drop_cooldown == s.drop_cooldown,
            }
        }),
{
}

/// **Every order is answered by its own report**: a separation by its result, a preparation by the
/// sheets, a drop by its result, a choice by a place in the pool, a restart by the width; after a
/// strip is accepted the time is asked for, and after the end nothing.
pub proof fn lemma_each_order_awaits_its_report(
    s: SPExplorationView,
    event: StripEvent,
    e: StripEvent,
    loss: Scalar,
    solution: usize,
    width: Scalar,
)
    requires
        strip_expects(s, event),
    ensures
        ({
            let (t, action) = strip_next(s, event);
            strip_expects(t, e) == match action {
                StripAction::Separate => e matches StripEvent::Separated { loss, .. }
                    && !loss.nan(),
                StripAction::PrepareDrop { .. } => e is Sheets,
                StripAction::Drop => e matches StripEvent::Dropped { loss, .. } && !loss.nan(),
                StripAction::Reject | StripAction::Undo { .. } | StripAction::Sample => e matches
                    StripEvent::Sampled { index } && index < t.pool.len(),
                StripAction::Restart { .. } => e is Restored,
                StripAction::Shrink { .. } | StripAction::Adopt | StripAction::Poll => e is Poll,
                StripAction::RejectAndFinish | StripAction::Finish => false,
            }
        }),
        strip_expects(strip_start(s.config, loss, solution, width), e) == e is Poll,
{
}

} // verus!
