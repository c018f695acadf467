//! The course of a whole bin packing run.
use crate::config::BPExplorationConfig;
use crate::optimizer::bpp::compress;
use crate::optimizer::bpp::compress::CompressEvent;
use crate::optimizer::bpp::explore;
use crate::optimizer::bpp::explore::ExploreEvent;
use crate::optimizer::bpp::layouts;
use crate::optimizer::bpp::shelf;
use crate::optimizer::bpp::shelf::{strictly_better, Constructive, StartStats};
use vstd::multiset::Multiset;
use vstd::prelude::*;

verus! {

/// What a construction came to.
#[derive(Debug, Clone, Copy, PartialEq, Eq, Structural)]
pub enum Built {
    /// It was not run.
    NotRun,
    /// It failed.
    Failed,
    /// It succeeded.
    Built(StartStats),
}

/// Which solution a run starts from.
#[derive(Debug, Clone, Copy, PartialEq, Eq, Structural)]
pub enum InitialChoice {
    /// The left-bottom-fill solution.
    Lbf,
    /// The shelf solution.
    Shelf,
    /// None: the left-bottom-fill construction failed.
    LbfFailed,
    /// None: the shelf construction failed, and it was the only one.
    ShelfFailed,
}

/// Whether the left-bottom-fill construction runs.
pub open spec fn lbf_runs(constructive: Constructive) -> bool {
    constructive != Constructive::Shelf
}

/// Whether the shelf construction runs.
pub open spec fn shelf_runs(constructive: Constructive) -> bool {
    constructive != Constructive::Lbf
}

/// Decides whether the left-bottom-fill construction runs: unless only the shelf one is asked for.
pub fn runs_lbf(constructive: Constructive) -> (r: bool)
    ensures
        r == lbf_runs(constructive),
{
    constructive != Constructive::Shelf
}

/// Decides whether the shelf construction runs, after the left-bottom-fill one: unless only that one is
/// asked for, or it ran and failed.
pub fn runs_shelf(constructive: Constructive, lbf_failed: bool) -> (r: bool)
    ensures
        r == (shelf_runs(constructive) && !lbf_failed),
{
    constructive != Constructive::Lbf && !lbf_failed
}

/// Which solution a run starts from, by what the constructions came to.
pub open spec fn initial_choice(lbf: Built, shelf: Built) -> InitialChoice {
    match (lbf, shelf) {
        (Built::Failed, _) => InitialChoice::LbfFailed,
        (Built::Built(l), Built::Built(s)) => if shelf::better(s, l) {
            InitialChoice::Shelf
        } else {
            InitialChoice::Lbf
        },
        (Built::Built(_), _) => InitialChoice::Lbf,
        (Built::NotRun, Built::Built(_)) => InitialChoice::Shelf,
        (Built::NotRun, _) => InitialChoice::ShelfFailed,
    }
}

/// Picks the solution that a run starts from. With both constructions the strictly better one is
/// kept, the left-bottom-fill one on a tie. A failed shelf construction matters only if it is the
/// only one.
pub fn build_initial_problem(constructive: Constructive, lbf: Built, shelf: Built) -> (r: InitialChoice)
    requires
        (lbf == Built::NotRun) == !lbf_runs(constructive),
        lbf != Built::Failed ==> (shelf == Built::NotRun) == !shelf_runs(constructive),
    ensures
        r == initial_choice(lbf, shelf),
{
    match lbf {
        Built::Failed => InitialChoice::LbfFailed,
        Built::Built(l) => match shelf {
            Built::Built(s) => if strictly_better(s, l) {
                InitialChoice::Shelf
            } else {
                InitialChoice::Lbf
            },
            _ => InitialChoice::Lbf,
        },
        Built::NotRun => match shelf {
            Built::Built(_) => InitialChoice::Shelf,
            _ => InitialChoice::ShelfFailed,
        },
    }
}

/// **The start is the best one there is**: of two constructions that succeeded one is kept, the other
/// one is not strictly better, and it does not need fewer bins.
pub proof fn lemma_start_is_the_best(l: StartStats, s: StartStats)
    ensures
        match initial_choice(Built::Built(l), Built::Built(s)) {
            InitialChoice::Lbf => !shelf::better(s, l) && l.n_bins <= s.n_bins,
            InitialChoice::Shelf => !shelf::better(l, s) && s.n_bins <= l.n_bins,
            _ => false,
        },
{
}

/// Why an imported solution cannot be started from.
#[derive(Debug, Clone, Copy, PartialEq, Eq, Structural)]
pub enum BPWarmStartError {
    /// It does not place as many items as are demanded.
    ItemCount {
        /// Placed items.
        placed: usize,
        /// Demanded items.
        demanded: usize,
    },
    /// The layout at this position is not free of collisions.
    Collides {
        /// Position of the layout.
        position: usize,
    },
}

/// Checks an imported solution: it places as many items as are demanded, and no layout collides.
pub fn check_warm_start(placed: usize, demanded: usize, feasible: &Vec<bool>) -> (r: Result<
    (),
    BPWarmStartError,
>)
    ensures
        match r {
            Ok(()) => placed == demanded && forall|i: int|
                0 <= i < feasible@.len() ==> #[trigger] feasible@[i],
            Err(e) => if placed != demanded {
                e == (BPWarmStartError::ItemCount { placed, demanded })
            } else {
                e matches BPWarmStartError::Collides { position } && position < feasible@.len()
                    && !feasible@[position as int] && forall|i: int|
                    0 <= i < position ==> #[trigger] feasible@[i]
            },
        },
{
    if placed != demanded {
        return Err(BPWarmStartError::ItemCount { placed, demanded });
    }
    let mut i: usize = 0;
    while i < feasible.len()
        invariant
            placed == demanded,
            i <= feasible@.len(),
            forall|k: int| 0 <= k < i ==> #[trigger] feasible@[k],
        decreases feasible@.len() - i,
    {
        if !feasible[i] {
            return Err(BPWarmStartError::Collides { position: i });
        }
        i = i + 1;
    }
    Ok(())
}

/// The budget of the compression (ns): its own limit, and what the exploration left of its time.
pub fn compression_budget(limit: u128, remaining: Option<u128>) -> (r: u128)
    requires
        remaining matches Some(t) ==> limit + t <= u128::MAX,
    ensures
        r == limit + match remaining {
            Some(t) => t as int,
            None => 0,
        },
{
    match remaining {
        Some(t) => limit + t,
        None => limit,
    }
}

/// What a run waits for.
#[derive(Debug, Clone, Copy, PartialEq, Eq, Structural)]
pub enum BinRunStage {
    /// The starting solution.
    Starting,
    /// The result of the exploration.
    Exploring,
    /// The result of the compression.
    Compressing,
    /// Nothing: the run is over.
    Done,
}

/// What the engine reports to a run.
#[derive(Debug, Clone, Copy, PartialEq, Eq, Structural)]
pub enum BinRunEvent {
    /// The starting solution is there, or there is none.
    Started {
        /// There is one.
        ok: bool,
    },
    /// The exploration is over.
    Explored {
        /// Handle of its best solution.
        solution: usize,
        /// Time that is left of the exploration (ns).
        remaining: Option<u128>,
    },
    /// The compression is over.
    Compressed {
        /// Handle of its solution.
        solution: usize,
    },
}

/// What the engine has to do next in a run.
#[derive(Debug, Clone, Copy, PartialEq, Eq, Structural)]
pub enum BinRunAction {
    /// Give up: there is no starting solution.
    Fail,
    /// Explore, within this budget (ns).
    Explore {
        /// The budget.
        budget: u128,
    },
    /// Compress this solution, within this budget (ns).
    Compress {
        /// Handle of the solution.
        solution: usize,
        /// The budget.
        budget: u128,
    },
    /// Return this solution.
    Finish {
        /// Handle of the solution.
        solution: usize,
    },
}

/// Progress of a bin packing run.
#[derive(Debug, Clone, Copy, PartialEq, Eq, Structural)]
pub struct BinRun {
    /// Limit of the exploration (ns).
    pub exploration_limit: u128,
    /// Limit of the compression (ns).
    pub compression_limit: u128,
    /// What it waits for.
    pub stage: BinRunStage,
}

/// Whether the stage waits for this kind of event.
pub open spec fn bin_run_expects(s: BinRun, event: BinRunEvent) -> bool {
    match s.stage {
        BinRunStage::Starting => event is Started,
        BinRunStage::Exploring => event matches BinRunEvent::Explored { remaining, .. } && (
        remaining matches Some(t) ==> s.compression_limit + t <= u128::MAX),
        BinRunStage::Compressing => event is Compressed,
        BinRunStage::Done => false,
    }
}

/// What a run does on an event.
pub open spec fn bin_run_next(s: BinRun, event: BinRunEvent) -> (BinRun, BinRunAction) {
    match event {
        BinRunEvent::Started { ok } => if ok {
            (
                BinRun { stage: BinRunStage::Exploring, ..s },
                BinRunAction::Explore { budget: s.exploration_limit },
            )
        } else {
            (BinRun { stage: BinRunStage::Done, ..s }, BinRunAction::Fail)
        },
        BinRunEvent::Explored { solution, remaining } => (
            BinRun { stage: BinRunStage::Compressing, ..s },
            BinRunAction::Compress {
                solution,
                budget: (s.compression_limit + match remaining {
                    Some(t) => t as int,
                    None => 0,
                }) as u128,
            },
        ),
        BinRunEvent::Compressed { solution } => (
            BinRun { stage: BinRunStage::Done, ..s },
            BinRunAction::Finish { solution },
        ),
    }
}

impl BinRun {
    /// A run with the given limits (ns).
    pub fn new(exploration_limit: u128, compression_limit: u128) -> (r: BinRun)
        ensures
            r == (BinRun { exploration_limit, compression_limit, stage: BinRunStage::Starting }),
    {
        BinRun { exploration_limit, compression_limit, stage: BinRunStage::Starting }
    }
}

/// Advances a bin packing run by one event: the exploration reduces the number of bins of the
/// starting solution, and the compression consolidates what is left, with the time that the
/// exploration did not need on top of its own.
pub fn optimize_bpp(run: &mut BinRun, event: BinRunEvent) -> (action: BinRunAction)
    requires
        bin_run_expects(*old(run), event),
    ensures
        (*final(run), action) == bin_run_next(*old(run), event),
{
    match event {
        BinRunEvent::Started { ok } => {
            if ok {
                run.stage = BinRunStage::Exploring;
                BinRunAction::Explore { budget: run.exploration_limit }
            } else {
                run.stage = BinRunStage::Done;
                BinRunAction::Fail
            }
        },
        BinRunEvent::Explored { solution, remaining } => {
            run.stage = BinRunStage::Compressing;
            BinRunAction::Compress {
                solution,
                budget: compression_budget(run.compression_limit, remaining),
            }
        },
        BinRunEvent::Compressed { solution } => {
            run.stage = BinRunStage::Done;
            BinRunAction::Finish { solution }
        },
    }
}

/// **No time is lost**: the compression gets its own limit and all that the exploration left.
pub proof fn lemma_no_time_is_lost(s: BinRun, solution: usize, t: u128)
    requires
        s.stage is Exploring,
        s.compression_limit + t <= u128::MAX,
    ensures
        bin_run_next(s, BinRunEvent::Explored { solution, remaining: Some(t) }).1 == (
        BinRunAction::Compress { solution, budget: (s.compression_limit + t) as u128 }),
{
}

/// The run `s` explores, compresses the best solution that the exploration found, and returns what the
/// compression made of it.
pub open spec fn bin_run_leads_to(
    s: BinRun,
    explored: usize,
    remaining: Option<u128>,
    compressed: usize,
) -> bool {
    let (exploring, first) = bin_run_next(s, BinRunEvent::Started { ok: true });
    let found = BinRunEvent::Explored { solution: explored, remaining };
    let (compressing, second) = bin_run_next(exploring, found);
    let (done, third) = bin_run_next(compressing, BinRunEvent::Compressed { solution: compressed });
    &&& first == (BinRunAction::Explore { budget: s.exploration_limit })
    &&& second matches BinRunAction::Compress { solution, .. } && solution == explored
    &&& third == (BinRunAction::Finish { solution: compressed })
    &&& done.stage is Done
}

/// **A run returns a feasible solution with all demand placed**: given that the solution it starts from
/// is one, and that whatever is reported as separated, packed down or consolidated is one, so is the
/// solution that it finishes with.
pub proof fn lemma_run_returns_a_feasible_solution(
    s: BinRun,
    config: BPExplorationConfig,
    start: usize,
    n_bins: usize,
    explored: Seq<ExploreEvent>,
    remaining: Option<u128>,
    pack_down: bool,
    consolidate_remainder: bool,
    compressed: Seq<CompressEvent>,
    feasible: spec_fn(usize) -> bool,
)
    requires
        s.stage is Starting,
        explore::explore_admits(explore::explore_start(config, start, n_bins), explored),
        explored.len() <= usize::MAX,
        feasible(start),
        forall|k: int, solution: usize|
            0 <= k < explored.len() && #[trigger] explore::reports_separated(explored[k], solution)
                ==> feasible(solution),
        forall|k: int, solution: usize|
            0 <= k < compressed.len() && #[trigger] compress::reports_improvement(
                compressed[k],
                solution,
            ) ==> feasible(solution),
    ensures
        ({
            let found = explore::explore_after(
                explore::explore_start(config, start, n_bins),
                explored,
            ).feasible;
            let best = found.last().solution;
            let out = compress::compress_after(
                compress::compress_start(pack_down, consolidate_remainder, best),
                compressed,
            ).best;
            &&& found.len() > 0
            &&& feasible(best)
            &&& bin_run_leads_to(s, best, remaining, out)
            &&& feasible(out)
        }),
{
    explore::lemma_exploration_stays_feasible(config, start, n_bins, explored, feasible);
    let found = explore::explore_after(
        explore::explore_start(config, start, n_bins),
        explored,
    ).feasible;
    let best = found.last().solution;
    assert(feasible(found[found.len() - 1].solution));
    compress::lemma_compression_result(pack_down, consolidate_remainder, best, compressed);
    let out = compress::compress_after(
        compress::compress_start(pack_down, consolidate_remainder, best),
        compressed,
    ).best;
    if out != best {
        let k = choose|k: int|
            0 <= k < compressed.len() && compress::reports_improvement(#[trigger] compressed[k], out);
        assert(compress::reports_improvement(compressed[k], out));
    }
}

/// **A run never ends with more bins than it started with, nor at a higher cost**: it opens none, in
/// neither of its phases.
pub proof fn lemma_run_opens_no_bin(
    config: BPExplorationConfig,
    start: usize,
    n_bins: usize,
    explored: Seq<ExploreEvent>,
    pack_down: bool,
    consolidate_remainder: bool,
    compressed: Seq<CompressEvent>,
    bins: spec_fn(usize) -> Multiset<usize>,
    costs: Seq<u64>,
)
    requires
        explore::follows(explore::explore_start(config, start, n_bins), explored, bins),
        compress::follows(
            compress::compress_start(
                pack_down,
                consolidate_remainder,
                explore::explore_after(
                    explore::explore_start(config, start, n_bins),
                    explored,
                ).feasible.last().solution,
            ),
            compressed,
            bins,
        ),
    ensures
        ({
            let best = explore::explore_after(
                explore::explore_start(config, start, n_bins),
                explored,
            ).feasible.last().solution;
            let out = compress::compress_after(
                compress::compress_start(pack_down, consolidate_remainder, best),
                compressed,
            ).best;
            &&& bins(out).subset_of(bins(start))
            &&& layouts::bins_cost(bins(out), costs, costs.len()) <= layouts::bins_cost(
                bins(start),
                costs,
                costs.len(),
            )
        }),
{
    explore::lemma_exploration_opens_no_bin(config, start, n_bins, explored, bins, costs);
    let best = explore::explore_after(
        explore::explore_start(config, start, n_bins),
        explored,
    ).feasible.last().solution;
    compress::lemma_compression_opens_no_bin(
        compress::compress_start(pack_down, consolidate_remainder, best),
        compressed,
        bins,
        costs,
    );
}

/// **A construction that succeeded is not thrown away**: a failed left-bottom-fill construction fails the
/// start; after one that succeeded, the shelf one is taken only if it succeeded too and is strictly
/// better; and alone it is taken if it succeeded.
pub proof fn lemma_which_start_is_taken(constructive: Constructive, lbf: Built, shelf: Built)
    requires
        (lbf == Built::NotRun) == !lbf_runs(constructive),
        lbf != Built::Failed ==> (shelf == Built::NotRun) == !shelf_runs(constructive),
    ensures
        ({
            let choice = initial_choice(lbf, shelf);
            &&& choice is LbfFailed <==> lbf is Failed
            &&& choice is Lbf ==> lbf is Built
            &&& choice is Shelf ==> shelf is Built
            &&& choice is ShelfFailed <==> lbf is NotRun && !(shelf is Built)
            &&& constructive is Lbf ==> choice is Lbf || choice is LbfFailed
            &&& constructive is Shelf ==> choice is Shelf || choice is ShelfFailed
            &&& lbf is Built && shelf is Built ==> (choice is Shelf <==> shelf::better(
                shelf->Built_0,
                lbf->Built_0,
            ))
        }),
{
}

/// **Which constructions run**: with both asked for, both do, unless the first one failed.
pub proof fn lemma_which_constructions_run()
    ensures
        lbf_runs(Constructive::Best) && shelf_runs(Constructive::Best),
        lbf_runs(Constructive::Lbf) && !shelf_runs(Constructive::Lbf),
        !lbf_runs(Constructive::Shelf) && shelf_runs(Constructive::Shelf),
{
}

/// **Every order of a run is answered by its own report**, and what a report hands over is handed on: what
/// was explored is compressed, what was compressed is returned, and without a start the run fails.
pub proof fn lemma_each_order_awaits_its_report(s: BinRun, event: BinRunEvent, e: BinRunEvent)
    requires
        bin_run_expects(s, event),
    ensures
        ({
            let (t, action) = bin_run_next(s, event);
            &&& t.exploration_limit == s.exploration_limit
            &&& t.compression_limit == s.compression_limit
            &&& bin_run_expects(t, e) == match action {
                BinRunAction::Fail => false,
                BinRunAction::Explore { .. } => e matches BinRunEvent::Explored { remaining, .. } && (
                remaining matches Some(r) ==> s.compression_limit + r <= u128::MAX),
                BinRunAction::Compress { .. } => e is Compressed,
                BinRunAction::Finish { .. } => false,
            }
            &&& match event {
                BinRunEvent::Started { ok: true } => action == (BinRunAction::Explore {
                    budget: s.exploration_limit,
                }),
                BinRunEvent::Started { ok: false } => action is Fail,
                BinRunEvent::Explored { solution, remaining } => action matches
                    BinRunAction::Compress { solution: h, budget } && h == solution && budget
                    >= s.compression_limit && (remaining is None ==> budget == s.compression_limit)
                    && (remaining matches Some(r) ==> budget == s.compression_limit + r),
                BinRunEvent::Compressed { solution } => action == (BinRunAction::Finish { solution }),
            }
        }),
{
}

} // verus!
