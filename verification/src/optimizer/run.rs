//! The course of a whole strip packing run.
use crate::config::{CompressionConfig, ExplorationConfig, SheetConfig, SheetPipeline};
use crate::optimizer::compress;
use crate::optimizer::compress::SqueezeEvent;
use crate::optimizer::explore;
use crate::optimizer::explore::StripEvent;
use crate::optimizer::separator as separation;
use crate::optimizer::separator::SeparatorConfig;
use crate::scalar::Scalar;
use vstd::prelude::*;

verus! {

/// How often the repair of a layout that was cut into sheets is tried again, each time with more
/// slack per sheet.
pub const WALL_REPAIR_MAX_EXTRA_SHEETS: usize = 3;

/// Strike limit of such a repair.
pub const WALL_REPAIR_STRIKE_LIMIT: usize = 8;

/// Limit of iterations without improvement of such a repair.
pub const WALL_REPAIR_ITER_NO_IMPRV_LIMIT: usize = 400;

/// The limits of a repair: the given ones, but at least 8 strikes and 400 iterations.
pub open spec fn repair_limits(config: SeparatorConfig) -> SeparatorConfig {
    SeparatorConfig {
        strike_limit: if config.strike_limit >= 8 {
            config.strike_limit
        } else {
            8
        },
        iter_no_imprv_limit: if config.iter_no_imprv_limit >= 400 {
            config.iter_no_imprv_limit
        } else {
            400
        },
        ..config
    }
}

/// The limits of the separation that moves items off the walls.
pub fn wall_repair_config(config: SeparatorConfig) -> (r: SeparatorConfig)
    ensures
        r == repair_limits(config),
{
    config.patient(WALL_REPAIR_STRIKE_LIMIT, WALL_REPAIR_ITER_NO_IMPRV_LIMIT)
}

/// What a wall repair comes to.
#[derive(Debug, Clone, Copy, PartialEq, Eq, Structural)]
pub enum WallRepairAction {
    /// Separate the layout, with the patient limits.
    Separate,
    /// Return to the layout without walls, cut it again with `attempt` units of slack per sheet,
    /// and separate it.
    Recut {
        /// How many units of slack.
        attempt: usize,
    },
    /// Keep the layout: it is feasible.
    Keep,
    /// Give the layout up and build a walled one from scratch, which is feasible by construction.
    Rebuild,
}

/// Progress of a wall repair.
#[derive(Debug, Clone, Copy, PartialEq, Eq, Structural)]
pub struct WallRepair {
    /// How often it may be tried again.
    pub max_retries: usize,
    /// The attempt that is under way.
    pub attempt: usize,
    /// What was decided, once it was.
    pub outcome: Option<WallRepairAction>,
}

/// What a wall repair does with the loss of a separation.
pub open spec fn wall_repair_next(s: WallRepair, loss: Scalar) -> (WallRepair, WallRepairAction) {
    if separation::settled(loss) {
        (WallRepair { outcome: Some(WallRepairAction::Keep), ..s }, WallRepairAction::Keep)
    } else if s.attempt < s.max_retries {
        (
            WallRepair { attempt: (s.attempt + 1) as usize, ..s },
            WallRepairAction::Recut { attempt: (s.attempt + 1) as usize },
        )
    } else {
        (WallRepair { outcome: Some(WallRepairAction::Rebuild), ..s }, WallRepairAction::Rebuild)
    }
}

impl WallRepair {
    fn advance(&mut self, loss: Scalar) -> (action: WallRepairAction)
        requires
            old(self).outcome is None,
        ensures
            (*final(self), action) == wall_repair_next(*old(self), loss),
    {
        if loss.is_zero() {
            self.outcome = Some(WallRepairAction::Keep);
            WallRepairAction::Keep
        } else if self.attempt < self.max_retries {
            self.attempt = self.attempt + 1;
            WallRepairAction::Recut { attempt: self.attempt }
        } else {
            self.outcome = Some(WallRepairAction::Rebuild);
            WallRepairAction::Rebuild
        }
    }
}

/// The start of the repair of a layout that was cut into sheets.
pub open spec fn prepass_repair() -> WallRepair {
    WallRepair { max_retries: WALL_REPAIR_MAX_EXTRA_SHEETS, attempt: 0, outcome: None }
}

/// The repair of a layout that was explored without walls and cut into sheets: it is separated, and
/// cut again with more slack as long as that fails, up to a limit.
///
/// `None` starts it; every other call reports the loss that the separation left.
pub fn plain_first_prepass(run: &mut WallRepair, loss: Option<Scalar>) -> (action: WallRepairAction)
    requires
        loss is Some ==> old(run).outcome is None,
    ensures
        match loss {
            None => *final(run) == prepass_repair() && action == WallRepairAction::Separate,
            Some(l) => (*final(run), action) == wall_repair_next(*old(run), l),
        },
{
    match loss {
        None => {
            *run = WallRepair {
                max_retries: WALL_REPAIR_MAX_EXTRA_SHEETS,
                attempt: 0,
                outcome: None,
            };
            WallRepairAction::Separate
        },
        Some(l) => run.advance(l),
    }
}

/// The repair of an imported layout that knows nothing of the walls. A layout that is clear of them
/// is kept; any other one is separated once.
///
/// The first call reports the loss of the imported layout, the second one the loss that the
/// separation left.
pub fn repair_walled_warm_start(run: &mut Option<WallRepair>, loss: Scalar) -> (action:
    WallRepairAction)
    requires
        *old(run) matches Some(r) ==> r.outcome is None,
    ensures
        action is Keep <==> separation::settled(loss),
        *old(run) is None && !separation::settled(loss) ==> action is Separate,
        *final(run) is Some,
        match *old(run) {
            None => {
                let start = WallRepair { max_retries: 0, attempt: 0, outcome: None };
                if separation::settled(loss) {
                    action == WallRepairAction::Keep && *final(run) == Some(
                        WallRepair { outcome: Some(WallRepairAction::Keep), ..start },
                    )
                } else {
                    action == WallRepairAction::Separate && *final(run) == Some(start)
                }
            },
            Some(r) => *final(run) == Some(wall_repair_next(r, loss).0) && action
                == wall_repair_next(r, loss).1,
        },
{
    match *run {
        None => {
            let mut start = WallRepair { max_retries: 0, attempt: 0, outcome: None };
            if loss.is_zero() {
                start.outcome = Some(WallRepairAction::Keep);
                *run = Some(start);
                WallRepairAction::Keep
            } else {
                *run = Some(start);
                WallRepairAction::Separate
            }
        },
        Some(r) => {
            let mut next = r;
            let action = next.advance(loss);
            *run = Some(next);
            action
        },
    }
}

/// The repair after a sequence of separations.
pub open spec fn wall_repair_after(s: WallRepair, losses: Seq<Scalar>) -> WallRepair
    decreases losses.len(),
{
    if losses.len() == 0 {
        s
    } else {
        wall_repair_next(wall_repair_after(s, losses.drop_last()), losses.last()).0
    }
}

/// **Only a feasible layout is handed on.** After separations that left some overlap, the layout is
/// cut again as long as there are retries, and given up after the last one; it is kept exactly when
/// a separation left no overlap.
pub proof fn lemma_only_feasible_layouts_are_kept(s: WallRepair, losses: Seq<Scalar>)
    requires
        s.attempt == 0,
        s.outcome is None,
        losses.len() <= s.max_retries + 1,
        forall|i: int|
            0 <= i < losses.len() - 1 ==> !separation::settled(#[trigger] losses[i]),
    ensures
        ({
            let end = wall_repair_after(s, losses);
            &&& end.max_retries == s.max_retries
            &&& end.outcome == (if losses.len() > 0 && separation::settled(losses.last()) {
                Some(WallRepairAction::Keep)
            } else if losses.len() == s.max_retries + 1 {
                Some(WallRepairAction::Rebuild)
            } else {
                None
            })
            &&& end.outcome is None ==> end.attempt == losses.len()
        }),
    decreases losses.len(),
{
    if losses.len() > 0 {
        let shorter = losses.drop_last();
        assert forall|i: int| 0 <= i < shorter.len() implies !separation::settled(
            #[trigger] shorter[i],
        ) by {
            assert(shorter[i] == losses[i]);
        }
        lemma_only_feasible_layouts_are_kept(s, shorter);
        if shorter.len() > 0 {
            assert(shorter.last() == losses[shorter.len() - 1]);
        }
    }
}

/// What a run waits for.
#[derive(Debug, Clone, Copy, PartialEq, Eq, Structural)]
pub enum RunStage {
    /// The starting layout.
    Starting,
    /// The repair of an imported layout.
    RepairingStart,
    /// The result of the exploration.
    Exploring,
    /// The result of the last repair.
    Repairing,
    /// The result of the compression.
    Compressing,
    /// Nothing: the run is over.
    Done,
}

/// Progress of a strip packing run.
#[derive(Debug, Clone, Copy, PartialEq, Eq, Structural)]
pub struct StripRun {
    /// The sheets, if the strip is walled.
    pub sheet: Option<SheetConfig>,
    /// The run starts from an imported solution.
    pub warm: bool,
    /// What it waits for.
    pub stage: RunStage,
}

/// What the engine reports to a run.
#[derive(Debug, Clone, Copy, PartialEq, Eq, Structural)]
pub enum RunEvent {
    /// The starting layout, or its repair, is there.
    Ready,
    /// The exploration is over, with the handle of its best solution if it found one.
    Explored(Option<usize>),
    /// The layout was separated once more, as far as possible.
    Repaired {
        /// Handle of the resulting solution.
        solution: usize,
    },
    /// The compression is over.
    Compressed {
        /// Handle of its solution.
        solution: usize,
    },
}

/// What the engine has to do next in a run.
#[derive(Debug, Clone, Copy, PartialEq, Eq, Structural)]
pub enum RunAction {
    /// Explore without walls, cut the result into sheets and repair it.
    PlainFirst,
    /// Build a layout from scratch, with the walls if there are any.
    Construct,
    /// Restore the imported solution, with the walls and more width if there are any.
    Import,
    /// Repair the imported layout, which knows nothing of the walls.
    RepairWarmStart,
    /// Explore.
    Explore,
    /// Separate the layout once more, with the patient limits.
    Repair,
    /// Compress this solution.
    Compress {
        /// Handle of the solution.
        solution: usize,
    },
    /// Return this solution.
    Finish {
        /// Handle of the solution.
        solution: usize,
    },
}

/// How a run starts.
pub open spec fn run_first(sheet: Option<SheetConfig>, warm: bool) -> RunAction {
    if warm {
        RunAction::Import
    } else if sheet matches Some(s) && s.pipeline == SheetPipeline::PlainFirst {
        RunAction::PlainFirst
    } else {
        RunAction::Construct
    }
}

/// Whether the stage waits for this kind of event.
pub open spec fn run_expects(s: StripRun, event: RunEvent) -> bool {
    match s.stage {
        RunStage::Starting | RunStage::RepairingStart => event is Ready,
        RunStage::Exploring => event is Explored,
        RunStage::Repairing => event is Repaired,
        RunStage::Compressing => event is Compressed,
        RunStage::Done => false,
    }
}

/// What a run does on an event.
pub open spec fn run_next(s: StripRun, event: RunEvent) -> (StripRun, RunAction) {
    match event {
        RunEvent::Ready => if s.stage is Starting && s.warm && s.sheet is Some {
            (
                StripRun { stage: RunStage::RepairingStart, ..s },
                RunAction::RepairWarmStart,
            )
        } else {
            (StripRun { stage: RunStage::Exploring, ..s }, RunAction::Explore)
        },
        RunEvent::Explored(best) => match best {
            Some(solution) => (
                StripRun { stage: RunStage::Compressing, ..s },
                RunAction::Compress { solution },
            ),
            None => (StripRun { stage: RunStage::Repairing, ..s }, RunAction::Repair),
        },
        RunEvent::Repaired { solution } => (
            StripRun { stage: RunStage::Compressing, ..s },
            RunAction::Compress { solution },
        ),
        RunEvent::Compressed { solution } => (
            StripRun { stage: RunStage::Done, ..s },
            RunAction::Finish { solution },
        ),
    }
}

impl StripRun {
    /// A run, with what it starts with.
    pub fn new(sheet: Option<SheetConfig>, warm: bool) -> (r: (StripRun, RunAction))
        ensures
            r.0 == (StripRun { sheet, warm, stage: RunStage::Starting }),
            r.1 == run_first(sheet, warm),
    {
        let run = StripRun { sheet, warm, stage: RunStage::Starting };
        if warm {
            return (run, RunAction::Import);
        }
        match sheet {
            Some(s) => if s.pipeline == SheetPipeline::PlainFirst {
                (run, RunAction::PlainFirst)
            } else {
                (run, RunAction::Construct)
            },
            None => (run, RunAction::Construct),
        }
    }
}

/// Advances a strip packing run by one event: a starting layout is built, imported or explored
/// without walls; the exploration works on it, and the compression on the best solution found. If
/// the exploration found none, the layout is repaired once more, and the caller's checks decide
/// about the result.
pub fn optimize(run: &mut StripRun, event: RunEvent) -> (action: RunAction)
    requires
        run_expects(*old(run), event),
    ensures
        (*final(run), action) == run_next(*old(run), event),
{
    match event {
        RunEvent::Ready => {
            if run.stage == RunStage::Starting && run.warm && run.sheet.is_some() {
                run.stage = RunStage::RepairingStart;
                RunAction::RepairWarmStart
            } else {
                run.stage = RunStage::Exploring;
                RunAction::Explore
            }
        },
        RunEvent::Explored(best) => match best {
            Some(solution) => {
                run.stage = RunStage::Compressing;
                RunAction::Compress { solution }
            },
            None => {
                run.stage = RunStage::Repairing;
                RunAction::Repair
            },
        },
        RunEvent::Repaired { solution } => {
            run.stage = RunStage::Compressing;
            RunAction::Compress { solution }
        },
        RunEvent::Compressed { solution } => {
            run.stage = RunStage::Done;
            RunAction::Finish { solution }
        },
    }
}

/// **An imported layout is never explored with the walls before it was repaired**, and any other run
/// goes straight to the exploration.
pub proof fn lemma_walled_warm_start_is_repaired(s: StripRun)
    requires
        s.stage is Starting,
    ensures
        run_next(s, RunEvent::Ready).1 == (if s.warm && s.sheet is Some {
            RunAction::RepairWarmStart
        } else {
            RunAction::Explore
        }),
        s.warm && s.sheet is Some ==> run_next(
            run_next(s, RunEvent::Ready).0,
            RunEvent::Ready,
        ).1 == RunAction::Explore,
{
}

/// The run `s` gets to its exploration, after the repair of an imported layout if there are walls.
pub open spec fn run_explores(s: StripRun) -> StripRun {
    let (next, _) = run_next(s, RunEvent::Ready);
    if next.stage is RepairingStart {
        run_next(next, RunEvent::Ready).0
    } else {
        next
    }
}

/// The run `s` explores, compresses the best solution that the exploration found, and returns what the
/// compression made of it.
pub open spec fn run_leads_to(s: StripRun, explored: usize, compressed: usize) -> bool {
    let exploring = run_explores(s);
    let (compressing, second) = run_next(exploring, RunEvent::Explored(Some(explored)));
    let (done, third) = run_next(compressing, RunEvent::Compressed { solution: compressed });
    &&& exploring.stage is Exploring
    &&& second == (RunAction::Compress { solution: explored })
    &&& third == (RunAction::Finish { solution: compressed })
    &&& done.stage is Done
}

/// **A run returns a feasible solution**, with or without walls, imported or not: given that a start
/// without loss is feasible, and that whatever is reported as separated, packed down, squeezed or
/// compacted is, so is the solution that it finishes with, as soon as the exploration has one. After a
/// start without loss the exploration always has one, so that the layout is never handed on unrepaired.
pub proof fn lemma_run_returns_a_feasible_solution(
    s: StripRun,
    config: ExplorationConfig,
    loss: Scalar,
    start: usize,
    width: Scalar,
    explored: Seq<StripEvent>,
    squeeze: CompressionConfig,
    squeezed: Seq<SqueezeEvent>,
    feasible: spec_fn(usize) -> bool,
)
    requires
        s.stage is Starting,
        explore::strip_admits(explore::strip_start(config, loss, start, width), explored),
        !width.nan(),
        separation::settled(loss) ==> feasible(start),
        forall|k: int, solution: usize|
            0 <= k < explored.len() && #[trigger] explore::reports_separated(explored[k], solution)
                ==> feasible(solution),
        forall|k: int, solution: usize|
            0 <= k < squeezed.len() && #[trigger] compress::reports_improvement(
                squeezed[k],
                solution,
            ) ==> feasible(solution),
    ensures
        ({
            let found = explore::strip_after(
                explore::strip_start(config, loss, start, width),
                explored,
            ).feasible;
            let best = found.last().solution;
            let out = compress::squeeze_after(
                compress::squeeze_start(squeeze, best),
                squeezed,
            ).best;
            &&& separation::settled(loss) ==> found.len() > 0
            &&& found.len() > 0 ==> feasible(best) && run_leads_to(s, best, out) && feasible(out)
        }),
{
    let first = explore::strip_start(config, loss, start, width);
    let found = explore::strip_after(first, explored).feasible;
    let best = found.last().solution;
    explore::lemma_strips_stay(first, explored);
    explore::lemma_strips_are_feasible_and_narrow(config, loss, start, width, explored);
    compress::lemma_squeeze_result(squeeze, best, squeezed);
    let out = compress::squeeze_after(compress::squeeze_start(squeeze, best), squeezed).best;
    if found.len() > 0 {
        let i = found.len() - 1;
        if !(i == 0 && separation::settled(loss) && found[i].solution == start) {
            let k = choose|k: int|
                0 <= k < explored.len() && explore::reports_separated(
                    #[trigger] explored[k],
                    found[i].solution,
                );
            assert(explore::reports_separated(explored[k], best));
        }
        if out != best {
            let k = choose|k: int|
                0 <= k < squeezed.len() && compress::reports_improvement(#[trigger] squeezed[k], out);
            assert(compress::reports_improvement(squeezed[k], out));
        }
    }
}

/// **A repaired start has no loss**: a layout that a repair keeps is one that was just separated without
/// any overlap.
pub proof fn lemma_kept_layout_has_no_loss(s: WallRepair, losses: Seq<Scalar>)
    requires
        s.outcome is None,
        losses.len() > 0,
        wall_repair_after(s, losses.drop_last()).outcome is None,
        wall_repair_after(s, losses).outcome == Some(WallRepairAction::Keep),
    ensures
        separation::settled(losses.last()),
{
}

/// **How a run starts**: an imported solution is always restored; otherwise a walled strip whose pipeline
/// asks for it is explored without walls first, and everything else is built from scratch.
pub proof fn lemma_how_a_run_starts(sheet: Option<SheetConfig>, warm: bool)
    ensures
        run_first(sheet, warm) is Import <==> warm,
        run_first(sheet, warm) is PlainFirst <==> !warm && sheet is Some && (
        sheet->0).pipeline is PlainFirst,
        run_first(sheet, warm) is Construct <==> !warm && (sheet is None || !((
        sheet->0).pipeline is PlainFirst)),
{
}

/// **Every order of a run is answered by its own report**, and what a report hands over is handed on: what
/// was explored or repaired is compressed, what was compressed is returned, and a layout is repaired
/// exactly if the exploration found no solution.
pub proof fn lemma_each_order_awaits_its_report(s: StripRun, event: RunEvent, e: RunEvent)
    requires
        run_expects(s, event),
    ensures
        ({
            let (t, action) = run_next(s, event);
            &&& t.sheet == s.sheet && t.warm == s.warm
            &&& run_expects(t, e) == match action {
                RunAction::RepairWarmStart => e is Ready,
                RunAction::Explore => e is Explored,
                RunAction::Repair => e is Repaired,
                RunAction::Compress { .. } => e is Compressed,
                RunAction::Finish { .. } => false,
                RunAction::PlainFirst | RunAction::Construct | RunAction::Import => true,
            }
            &&& !(action is PlainFirst) && !(action is Construct) && !(action is Import)
            &&& event is Explored ==> (action is Repair <==> event->Explored_0 is None)
            &&& forall|h: usize|
                action == (RunAction::Compress { solution: h }) <==> event == RunEvent::Explored(
                    Some(h),
                ) || event == (RunEvent::Repaired { solution: h })
            &&& forall|h: usize|
                action == (RunAction::Finish { solution: h }) <==> event == (RunEvent::Compressed {
                    solution: h,
                })
            &&& action is RepairWarmStart ==> run_next(t, RunEvent::Ready).1 is Explore
            &&& event is Ready ==> action is Explore || action is RepairWarmStart
        }),
        s.stage is Starting ==> run_expects(s, RunEvent::Ready),
{
}

/// **A layout is cut again with ever more slack**: after a number of separations that all left some
/// overlap, the next cut has one unit of slack per sheet for each of them, as long as retries are left;
/// after that the layout is given up.
pub proof fn lemma_recuts_have_ever_more_slack(s: WallRepair, losses: Seq<Scalar>, loss: Scalar)
    requires
        s.attempt == 0,
        s.outcome is None,
        losses.len() <= s.max_retries,
        forall|i: int| 0 <= i < losses.len() ==> !separation::settled(#[trigger] losses[i]),
    ensures
        ({
            let (t, action) = wall_repair_next(wall_repair_after(s, losses), loss);
            if separation::settled(loss) {
                action is Keep
            } else if losses.len() < s.max_retries {
                action matches WallRepairAction::Recut { attempt } && attempt == losses.len() + 1
                    && t.outcome is None
            } else {
                action is Rebuild
            }
        }),
{
    lemma_only_feasible_layouts_are_kept(s, losses);
    if losses.len() > 0 {
        assert(losses.last() == losses[losses.len() - 1]);
    }
}

/// **A repair is at least as patient as usual**, and no more patient than it has to be.
pub proof fn lemma_repair_is_patient(config: SeparatorConfig)
    ensures
        ({
            let r = repair_limits(config);
            &&& r.strike_limit >= config.strike_limit && r.strike_limit >= 8
            &&& r.iter_no_imprv_limit >= config.iter_no_imprv_limit && r.iter_no_imprv_limit
                >= 400
            &&& r.strike_limit == config.strike_limit || r.strike_limit == 8
            &&& r.iter_no_imprv_limit == config.iter_no_imprv_limit || r.iter_no_imprv_limit
                == 400
            &&& r == (SeparatorConfig {
                strike_limit: r.strike_limit,
                iter_no_imprv_limit: r.iter_no_imprv_limit,
                ..config
            })
        }),
{
}

/// **A repair starts with all of its retries.**
pub proof fn lemma_repair_starts_afresh()
    ensures
        prepass_repair().attempt == 0,
        prepass_repair().outcome is None,
        prepass_repair().max_retries == 3,
{
}

} // verus!
