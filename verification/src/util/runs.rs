//! What the command line makes of a run, the seeds of several runs of one instance, and which of
//! their solutions is kept.
use crate::config::{
    BPCompressionConfig, BPConfig, BPExplorationConfig, CompressionConfig, ExplorationConfig,
    SheetConfig, SheetPipeline, ShrinkDecayStrategy, SparrowConfig,
};
use crate::optimizer::separator::SeparatorConfig;
use crate::scalar::Scalar;
use vstd::prelude::*;

verus! {

/// The time limit if the command line gives none (s).
pub const DEFAULT_TIME_LIMIT: u64 = 600;

/// The time limits of the two phases (s).
#[derive(Debug, Clone, Copy, PartialEq, Eq, Structural)]
pub enum TimePlan {
    /// Both phases share this, by their default ratios.
    Shared(u64),
    /// The exploration has the first one, the compression the second one.
    Separate(u64, u64),
}

/// The time limits, from those of the command line: one for both phases, one for each of them, or
/// none; `None` for any other combination.
pub fn time_plan(global: Option<u64>, exploration: Option<u64>, compression: Option<u64>) -> (r:
    Option<TimePlan>)
    ensures
        r is None <==> (global is Some && (exploration is Some || compression is Some)) || (
        exploration is Some) != (compression is Some),
        r matches Some(TimePlan::Shared(t)) ==> exploration is None && compression is None && (global
            == Some(t) || global is None && t == DEFAULT_TIME_LIMIT),
        r matches Some(TimePlan::Separate(e, c)) ==> exploration == Some(e) && compression == Some(c),
        r == match (global, exploration, compression) {
            (Some(t), None, None) => Some(TimePlan::Shared(t)),
            (None, Some(e), Some(c)) => Some(TimePlan::Separate(e, c)),
            (None, None, None) => Some(TimePlan::Shared(DEFAULT_TIME_LIMIT)),
            _ => None,
        },
{
    match (global, exploration, compression) {
        (Some(t), None, None) => Some(TimePlan::Shared(t)),
        (None, Some(e), Some(c)) => Some(TimePlan::Separate(e, c)),
        (None, None, None) => Some(TimePlan::Shared(DEFAULT_TIME_LIMIT)),
        _ => None,
    }
}

/// Half of a limit, but at least one.
pub open spec fn halved(n: usize) -> usize {
    if n / 2 >= 1 {
        n / 2
    } else {
        1
    }
}

fn half(n: usize) -> (r: usize)
    ensures
        r == halved(n),
{
    if n / 2 >= 1 {
        n / 2
    } else {
        1
    }
}

/// Makes a run over a strip give up early: the exploration after this many failures in a row, and
/// the compression by failures in place of time.
pub fn terminate_early(config: &mut SparrowConfig, max_conseq_fails: usize, fail_decay: Scalar)
    ensures
        final(config).expl_cfg.max_conseq_failed_attempts == Some(max_conseq_fails),
        final(config).cmpr_cfg.shrink_decay == ShrinkDecayStrategy::FailureBased(fail_decay),
        *final(config) == (SparrowConfig {
            expl_cfg: ExplorationConfig {
                max_conseq_failed_attempts: Some(max_conseq_fails),
                ..old(config).expl_cfg
            },
            cmpr_cfg: CompressionConfig {
                shrink_decay: ShrinkDecayStrategy::FailureBased(fail_decay),
                ..old(config).cmpr_cfg
            },
            ..*old(config)
        }),
{
    config.expl_cfg.max_conseq_failed_attempts = Some(max_conseq_fails);
    config.cmpr_cfg.shrink_decay = ShrinkDecayStrategy::FailureBased(fail_decay);
}

/// Makes a run over bins give up early: the exploration after this many failures in a row, or after
/// half as many without progress, and the moves between bins in half their limits.
pub fn terminate_bpp_early(config: &mut BPConfig, max_conseq_fails: usize)
    ensures
        final(config).expl_cfg.max_conseq_failed_attempts == Some(max_conseq_fails),
        final(config).expl_cfg.stagnation_limit is Some
            == old(config).expl_cfg.stagnation_limit is Some,
        2 * final(config).cmpr_cfg.pack_down_move_time_limit
            <= old(config).cmpr_cfg.pack_down_move_time_limit
            <= 2 * final(config).cmpr_cfg.pack_down_move_time_limit + 1,
        *final(config) == (BPConfig {
            expl_cfg: BPExplorationConfig {
                max_conseq_failed_attempts: Some(max_conseq_fails),
                stagnation_limit: match old(config).expl_cfg.stagnation_limit {
                    Some(n) => Some(halved(n)),
                    None => None,
                },
                ..old(config).expl_cfg
            },
            cmpr_cfg: BPCompressionConfig {
                pack_down_move_time_limit: old(config).cmpr_cfg.pack_down_move_time_limit / 2,
                pack_down_separator_config: SeparatorConfig {
                    iter_no_imprv_limit: halved(
                        old(config).cmpr_cfg.pack_down_separator_config.iter_no_imprv_limit,
                    ),
                    strike_limit: halved(
                        old(config).cmpr_cfg.pack_down_separator_config.strike_limit,
                    ),
                    ..old(config).cmpr_cfg.pack_down_separator_config
                },
                ..old(config).cmpr_cfg
            },
            ..*old(config)
        }),
{
    config.expl_cfg.max_conseq_failed_attempts = Some(max_conseq_fails);
    config.expl_cfg.stagnation_limit = match config.expl_cfg.stagnation_limit {
        Some(n) => Some(half(n)),
        None => None,
    };
    config.cmpr_cfg.pack_down_move_time_limit = config.cmpr_cfg.pack_down_move_time_limit / 2;
    config.cmpr_cfg.pack_down_separator_config.iter_no_imprv_limit =
    half(config.cmpr_cfg.pack_down_separator_config.iter_no_imprv_limit);
    config.cmpr_cfg.pack_down_separator_config.strike_limit =
    half(config.cmpr_cfg.pack_down_separator_config.strike_limit);
}

/// **Giving up early never lets a limit fall to zero**, and never raises one that is positive.
pub proof fn lemma_half_is_positive(n: usize)
    ensures
        halved(n) >= 1,
        n >= 1 ==> halved(n) <= n,
{
}

/// The sheets that the command line asks for.
pub fn sheet_settings(
    width: Scalar,
    gap: Scalar,
    compact_sheets: bool,
    pack_down: bool,
    plain_first: bool,
) -> (r: SheetConfig)
    ensures
        r.width == width,
        r.gap == gap,
        r.compact_sheets == compact_sheets,
        r.pack_down == pack_down,
        r.pipeline == if plain_first {
            SheetPipeline::PlainFirst
        } else {
            SheetPipeline::WalledFromStart
        },
        r.sheet_drop_strikes == crate::config::DEFAULT_SHEET_DROP_STRIKES,
        r.max_reduction_density == (Scalar {
            bits: crate::config::SHEET_MAX_REDUCTION_DENSITY_BITS,
        }),
        r.pack_down_move_time_limit == 2 * crate::config::SECOND,
        r.pack_down_time_ratio == (Scalar {
            bits: crate::config::SHEET_PACK_DOWN_TIME_RATIO_BITS,
        }),
        r.plain_first_ratio == (Scalar { bits: crate::config::PLAIN_FIRST_RATIO_BITS }),
{
    let mut r = SheetConfig::new(width, gap, compact_sheets);
    r.pack_down = pack_down;
    if plain_first {
        r.pipeline = SheetPipeline::PlainFirst;
    }
    r
}

/// The seed of a run: runs count on from the seed of the first one.
pub fn run_seed(seed: u64, run: usize) -> (r: u64)
    requires
        seed + run <= u64::MAX,
    ensures
        r == seed + run,
{
    seed + run as u64
}

/// Whether several runs need more threads than there are processors.
pub fn oversubscribed(n_runs: usize, n_workers: usize, n_cpus: usize) -> (r: bool)
    requires
        n_runs * n_workers <= usize::MAX,
    ensures
        r == (n_runs > 1 && n_runs * n_workers > n_cpus),
{
    n_runs > 1 && n_runs * n_workers > n_cpus
}

/// The result of one run over bins.
#[derive(Debug, Clone, Copy, PartialEq, Eq, Structural)]
pub struct BinResult {
    /// It passed the checks.
    pub verified: bool,
    /// Cost of its bins.
    pub cost: u64,
    /// Density of its least dense bin.
    pub min_density: Scalar,
}

/// The result of one run over a strip.
#[derive(Debug, Clone, Copy, PartialEq, Eq, Structural)]
pub struct StripResult {
    /// It passed the checks.
    pub verified: bool,
    /// Width of its strip.
    pub width: Scalar,
}

/// A later result over bins replaces an earlier one: it costs less or, at the same cost, its least
/// dense bin is less dense.
pub open spec fn bins_replace(later: BinResult, earlier: BinResult) -> bool {
    later.cost < earlier.cost || (later.cost == earlier.cost && later.min_density.less(
        earlier.min_density,
    ))
}

/// The best of the first `m` results over bins, by position.
pub open spec fn best_bins(results: Seq<BinResult>, m: nat) -> Option<int>
    decreases m,
{
    if m == 0 {
        None
    } else {
        let before = best_bins(results, (m - 1) as nat);
        if !results[m - 1].verified {
            before
        } else {
            match before {
                Some(b) => if bins_replace(results[m - 1], results[b]) {
                    Some(m - 1)
                } else {
                    Some(b)
                },
                None => Some(m - 1),
            }
        }
    }
}

/// Keeps the best of the results that passed the checks: the cheapest one or, at the same cost, the
/// one whose least dense bin is least dense; the first one of several.
pub fn select_bins(results: &Vec<BinResult>) -> (r: Option<usize>)
    ensures
        match r {
            Some(b) => b < results@.len() && best_bins(results@, results@.len()) == Some(b as int),
            None => best_bins(results@, results@.len()) is None,
        },
{
    let mut best: Option<usize> = None;
    let mut i: usize = 0;
    while i < results.len()
        invariant
            i <= results@.len(),
            match best {
                Some(b) => b < i && best_bins(results@, i as nat) == Some(b as int),
                None => best_bins(results@, i as nat) is None,
            },
        decreases results@.len() - i,
    {
        if results[i].verified {
            match best {
                Some(b) => {
                    let (x, y) = (results[i], results[b]);
                    if x.cost < y.cost || (x.cost == y.cost && x.min_density.lt(y.min_density)) {
                        best = Some(i);
                    }
                },
                None => {
                    best = Some(i);
                },
            }
        }
        i = i + 1;
    }
    best
}

/// **Only verified results are kept, and there is one if any is verified**; no verified result is
/// cheaper than the one that is kept. Provided that all densities are numbers, no verified result at
/// the same cost has a less dense bin either, and the one that is kept is the first of its kind.
pub proof fn lemma_best_bins(results: Seq<BinResult>, m: nat)
    requires
        m <= results.len(),
    ensures
        best_bins(results, m) is None <==> forall|i: int|
            0 <= i < m ==> !(#[trigger] results[i]).verified,
        best_bins(results, m) matches Some(b) ==> 0 <= b < m && results[b].verified && forall|
            i: int,
        |
            0 <= i < m && (#[trigger] results[i]).verified ==> results[b].cost <= results[i].cost,
        (forall|i: int| 0 <= i < m ==> !(#[trigger] results[i]).min_density.nan()) ==> (best_bins(
            results,
            m,
        ) matches Some(b) ==> forall|i: int|
            0 <= i < m && (#[trigger] results[i]).verified ==> !bins_replace(results[i], results[b])
                && (i < b ==> bins_replace(results[b], results[i]))),
    decreases m,
{
    if m > 0 {
        lemma_best_bins(results, (m - 1) as nat);
        if results[m - 1].verified {
            assert(!(forall|i: int| 0 <= i < m ==> !(#[trigger] results[i]).verified));
        }
    }
}

/// The best of the first `m` results over strips, by position.
pub open spec fn best_strip(results: Seq<StripResult>, m: nat) -> Option<int>
    decreases m,
{
    if m == 0 {
        None
    } else {
        let before = best_strip(results, (m - 1) as nat);
        if !results[m - 1].verified {
            before
        } else {
            match before {
                Some(b) => if results[m - 1].width.less(results[b].width) {
                    Some(m - 1)
                } else {
                    Some(b)
                },
                None => Some(m - 1),
            }
        }
    }
}

/// Keeps the narrowest of the results that passed the checks, the first one of several.
pub fn select_strip(results: &Vec<StripResult>) -> (r: Option<usize>)
    ensures
        match r {
            Some(b) => b < results@.len() && best_strip(results@, results@.len()) == Some(b as int),
            None => best_strip(results@, results@.len()) is None,
        },
{
    let mut best: Option<usize> = None;
    let mut i: usize = 0;
    while i < results.len()
        invariant
            i <= results@.len(),
            match best {
                Some(b) => b < i && best_strip(results@, i as nat) == Some(b as int),
                None => best_strip(results@, i as nat) is None,
            },
        decreases results@.len() - i,
    {
        if results[i].verified {
            match best {
                Some(b) => {
                    if results[i].width.lt(results[b].width) {
                        best = Some(i);
                    }
                },
                None => {
                    best = Some(i);
                },
            }
        }
        i = i + 1;
    }
    best
}

/// **Only verified results are kept, and there is one if any is verified**; no verified result is
/// narrower than the one that is kept, which is the first of its width. A result that was refused
/// never wins, however narrow it is.
pub proof fn lemma_best_strip(results: Seq<StripResult>, m: nat)
    requires
        m <= results.len(),
        forall|i: int| 0 <= i < results.len() ==> !(#[trigger] results[i]).width.nan(),
    ensures
        best_strip(results, m) is None <==> forall|i: int|
            0 <= i < m ==> !(#[trigger] results[i]).verified,
        best_strip(results, m) matches Some(b) ==> 0 <= b < m && results[b].verified && forall|
            i: int,
        |
            0 <= i < m && (#[trigger] results[i]).verified ==> !results[i].width.less(
                results[b].width,
            ) && (i < b ==> results[b].width.less(results[i].width)),
    decreases m,
{
    if m > 0 {
        lemma_best_strip(results, (m - 1) as nat);
        if results[m - 1].verified {
            assert(!(forall|i: int| 0 <= i < m ==> !(#[trigger] results[i]).verified));
        }
    }
}

/// **The cheapest result is kept, and at the same cost the one with the emptiest bin**: of the results that
/// passed the checks none costs less, none of the same cost has a bin that is less dense than the least dense
/// one of the result that is kept, and of several equally good ones the first is kept.
pub proof fn lemma_cheapest_and_sparsest_is_kept(results: Seq<BinResult>, m: nat, i: int)
    requires
        m <= results.len(),
        0 <= i < m,
        results[i].verified,
        forall|k: int| 0 <= k < m ==> !(#[trigger] results[k]).min_density.nan(),
    ensures
        best_bins(results, m) matches Some(b) && 0 <= b < m && results[b].verified && results[b].cost
            <= results[i].cost && (results[b].cost == results[i].cost
            ==> results[b].min_density.less_or_equal(results[i].min_density)) && (results[b].cost
            == results[i].cost && results[b].min_density == results[i].min_density ==> b <= i),
{
    lemma_best_bins(results, m);
    assert(!results[i].min_density.nan());
    if let Some(b) = best_bins(results, m) {
        assert(!results[b].min_density.nan());
    }
}

/// **Half is half**: a limit of two or more is halved, rounded down.
pub proof fn lemma_half_is_half(n: usize)
    ensures
        n >= 2 ==> 2 * halved(n) <= n < 2 * halved(n) + 2,
        n < 2 ==> halved(n) == 1,
{
}

} // verus!
