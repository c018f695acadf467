//! Settings of the optimizer.
use crate::optimizer::bpp::shelf::Constructive;
use crate::optimizer::separator::{SampleConfig, SeparatorConfig};
use crate::scalar::{Scalar, ONE_BITS, ZERO_BITS};
use vstd::prelude::*;

verus! {

/// In which *direction* the pack-down step moves items between bins.
///
/// Both strategies leave the bin count and the total density untouched: they only decide where the
/// slack sits. They are mirror images of each other.
#[derive(Debug, Clone, Copy, PartialEq, Eq, Structural)]
pub enum PackDownStrategy {
    /// Sources are the sparsest bins, destinations the densest ones that still have room, so the
    /// leftover ends up as few, large offcuts.
    Concentrate,
    /// The reverse direction: sources are the densest bins, which evens the leftover out over all
    /// bins.
    Spread,
}

impl Default for PackDownStrategy {
    fn default() -> (s: PackDownStrategy)
        ensures
            s == PackDownStrategy::Concentrate,
    {
        PackDownStrategy::Concentrate
    }
}

impl PackDownStrategy {
    /// Whether an item may go from a bin of density `src` to one of density `dst`.
    pub open spec fn accepts(self, src: Scalar, dst: Scalar) -> bool {
        match self {
            PackDownStrategy::Concentrate => src.less(dst),
            PackDownStrategy::Spread => dst.less(src),
        }
    }

    /// Whether the source bins are visited in ascending density order (`Concentrate`) or in
    /// descending order (`Spread`).
    pub fn source_ascending(self) -> (r: bool)
        ensures
            r == (self == PackDownStrategy::Concentrate),
    {
        match self {
            PackDownStrategy::Concentrate => true,
            PackDownStrategy::Spread => false,
        }
    }

    /// Whether a layout of density `dst_density` is a valid destination for a source of density
    /// `src_density`: strictly denser under `Concentrate`, strictly sparser under `Spread`.
    pub fn accepts_destination(self, src_density: Scalar, dst_density: Scalar) -> (r: bool)
        ensures
            r == self.accepts(src_density, dst_density),
    {
        match self {
            PackDownStrategy::Concentrate => src_density.lt(dst_density),
            PackDownStrategy::Spread => dst_density.lt(src_density),
        }
    }
}

/// Two bins never accept items from each other: a move always goes in one fixed direction of the
/// density, so no item is swapped back and forth.
pub proof fn lemma_no_swap_back(strategy: PackDownStrategy, a: Scalar, b: Scalar)
    ensures
        strategy.accepts(a, b) ==> !strategy.accepts(b, a),
        !strategy.accepts(a, a),
{
}

/// Moves never cycle: a chain of acceptable moves from `a` over `b` to `c` is itself acceptable.
pub proof fn lemma_moves_go_one_way(strategy: PackDownStrategy, a: Scalar, b: Scalar, c: Scalar)
    requires
        strategy.accepts(a, b),
        strategy.accepts(b, c),
    ensures
        strategy.accepts(a, c),
        !strategy.accepts(c, a),
{
}

/// The two strategies are mirror images: one accepts a move exactly when the other accepts the
/// reverse.
pub proof fn lemma_strategies_mirror(a: Scalar, b: Scalar)
    ensures
        PackDownStrategy::Concentrate.accepts(a, b) == PackDownStrategy::Spread.accepts(b, a),
{
}

/// Bits of the default for [`SheetConfig::max_reduction_density`] and
/// [`BPExplorationConfig::max_reduction_density`], `0.9`.
pub const SHEET_MAX_REDUCTION_DENSITY_BITS: u32 = 0x3f66_6666;

/// Bits of the smallest default wall thickness, `20` mm.
pub const MIN_DEFAULT_SHEET_GAP_BITS: u32 = 0x41a0_0000;

/// Bits of the smallest explicit wall thickness, `1` mm.
pub const MIN_SHEET_GAP_BITS: u32 = 0x3f80_0000;

/// Bits of the default for [`SheetConfig::pack_down_time_ratio`], `0.3`.
pub const SHEET_PACK_DOWN_TIME_RATIO_BITS: u32 = 0x3e99_999a;

/// Bits of the default for [`SheetConfig::plain_first_ratio`], `0.5`.
pub const PLAIN_FIRST_RATIO_BITS: u32 = 0x3f00_0000;

/// Bits of the default shrink step of a strip, `0.001`.
pub const SHRINK_STEP_BITS: u32 = 0x3a83_126f;

/// Bits of the default spread of the choice from the solution pool, `0.25`.
pub const POOL_STDDEV_BITS: u32 = 0x3e80_0000;

/// Bits of the default share of the hull area that counts as large, `0.75`.
pub const LARGE_ITEM_PERCENTILE_BITS: u32 = 0x3f40_0000;

/// Bits of the first shrink ratio of the compression, `0.0005`.
pub const SHRINK_RANGE_FROM_BITS: u32 = 0x3a03_126f;

/// Bits of the last shrink ratio of the compression, `0.00001`.
pub const SHRINK_RANGE_TO_BITS: u32 = 0x3727_c5ac;

/// Bits of the default simplification tolerance, `0.001`.
pub const POLY_SIMPL_TOLERANCE_BITS: u32 = 0x3a83_126f;

/// Bits of the default distance and area of a narrow concavity, `0.01`.
pub const NARROW_CONCAVITY_BITS: u32 = 0x3c23_d70a;

/// Bits of the shrink step of a consolidation, `0.005`.
pub const CONSOLIDATION_SHRINK_STEP_BITS: u32 = 0x3ba3_d70a;

/// Bits of the default for [`BPCompressionConfig::pack_down_time_ratio`], `0.6`.
pub const PACK_DOWN_TIME_RATIO_BITS: u32 = 0x3f19_999a;

/// Bits of the relative improvement of the lowest loss that counts as progress, `0.02`.
pub const STAGNATION_MIN_IMPROVEMENT_BITS: u32 = 0x3ca3_d70a;

/// Failed sheet drops that are tolerated per sheet count, by default.
pub const DEFAULT_SHEET_DROP_STRIKES: usize = 3;

/// Nanoseconds of one second.
pub const SECOND: u128 = 1_000_000_000;

/// How a run over walled sheets gets its starting layout.
#[derive(Debug, Clone, Copy, PartialEq, Eq, Structural)]
pub enum SheetPipeline {
    /// The starting layout is built with the walls in place, and the exploration works with them
    /// from its first iteration.
    WalledFromStart,
    /// The exploration runs without walls for a share of its budget. The result is then cut into
    /// sheets, the walls are installed, and the items that end up on a wall are moved off it.
    PlainFirst,
}

impl Default for SheetPipeline {
    fn default() -> (s: SheetPipeline)
        ensures
            s == SheetPipeline::WalledFromStart,
    {
        SheetPipeline::WalledFromStart
    }
}

/// Settings of strip packing over walled sheets.
///
/// A wall stands in the strip at every sheet boundary, so that no item can straddle one.
#[derive(Debug, Clone, Copy, PartialEq, Eq, Structural)]
pub struct SheetConfig {
    /// Usable width of one sheet (mm).
    pub width: Scalar,
    /// Thickness of the wall between two sheets (mm).
    pub gap: Scalar,
    /// Whether every sheet but the last is compacted to the left at the end.
    pub compact_sheets: bool,
    /// Failed sheet drops that are tolerated per sheet count.
    pub sheet_drop_strikes: usize,
    /// No drop is attempted if one sheet fewer would need a higher density than this.
    pub max_reduction_density: Scalar,
    /// Whether the compression cuts the band of the last sheet back in large steps first.
    pub pack_down: bool,
    /// Budget of one such cut (ns).
    pub pack_down_move_time_limit: u128,
    /// Share of the compression's budget that the cuts may use.
    pub pack_down_time_ratio: Scalar,
    /// How the run is started.
    pub pipeline: SheetPipeline,
    /// Share of the exploration's budget that `PlainFirst` spends without walls.
    pub plain_first_ratio: Scalar,
}

/// Why a wall thickness was refused.
#[derive(Debug, Clone, Copy, PartialEq, Eq, Structural)]
pub struct SheetGapError {
    /// The thickness that was asked for.
    pub gap: Scalar,
}

impl SheetGapError {
    /// The message for the user.
    pub fn to_string(&self) -> (s: String)
        ensures
            s@ == "the sheet gap is too thin: a wall below 1 mm cannot be modelled, and items would straddle the sheet boundaries"@,
    {
        "the sheet gap is too thin: a wall below 1 mm cannot be modelled, and items would straddle the sheet boundaries".to_owned()
    }
}

/// Twice the separation, by which a wall must be thicker than what it enforces; `0` without one.
pub open spec fn is_clearance(min_item_separation: Option<Scalar>, c: Scalar) -> bool {
    match min_item_separation {
        Some(s) => {
            &&& s.nan() ==> c.nan()
            &&& s.infinite() ==> c == s
            &&& s.finite() ==> (c.finite() && c.value() == 2 * s.value()) || (c.infinite()
                && s.magnitude() >= crate::scalar::INFINITE_MAGNITUDE
                - crate::scalar::SIGNIFICANDS && (c.bits >= crate::scalar::SIGN_BIT) == (s.bits
                >= crate::scalar::SIGN_BIT))
        },
        None => c == (Scalar { bits: ZERO_BITS }),
    }
}

/// The wall thickness to use, or the refusal of one that is too thin.
pub open spec fn is_resolved_gap(
    cli_gap: Option<Scalar>,
    min_item_separation: Option<Scalar>,
    r: Result<Scalar, SheetGapError>,
) -> bool {
    match cli_gap {
        Some(g) => r == (if (Scalar { bits: MIN_SHEET_GAP_BITS }).less_or_equal(g) {
            Ok::<Scalar, SheetGapError>(g)
        } else {
            Err(SheetGapError { gap: g })
        }),
        None => exists|c: Scalar|
            is_clearance(min_item_separation, c) && r == Ok::<Scalar, SheetGapError>(
                (Scalar { bits: MIN_DEFAULT_SHEET_GAP_BITS }).larger(c),
            ),
    }
}

impl SheetConfig {
    /// Settings for sheets of the given width, with the defaults for everything else.
    pub fn new(width: Scalar, gap: Scalar, compact_sheets: bool) -> (r: SheetConfig)
        ensures
            r == (SheetConfig {
                width,
                gap,
                compact_sheets,
                sheet_drop_strikes: 3,
                max_reduction_density: Scalar { bits: SHEET_MAX_REDUCTION_DENSITY_BITS },
                pack_down: false,
                pack_down_move_time_limit: 2_000_000_000,
                pack_down_time_ratio: Scalar { bits: SHEET_PACK_DOWN_TIME_RATIO_BITS },
                pipeline: SheetPipeline::WalledFromStart,
                plain_first_ratio: Scalar { bits: PLAIN_FIRST_RATIO_BITS },
            }),
    {
        SheetConfig {
            width,
            gap,
            compact_sheets,
            sheet_drop_strikes: DEFAULT_SHEET_DROP_STRIKES,
            max_reduction_density: Scalar { bits: SHEET_MAX_REDUCTION_DENSITY_BITS },
            pack_down: false,
            pack_down_move_time_limit: 2 * SECOND,
            pack_down_time_ratio: Scalar { bits: SHEET_PACK_DOWN_TIME_RATIO_BITS },
            pipeline: SheetPipeline::WalledFromStart,
            plain_first_ratio: Scalar { bits: PLAIN_FIRST_RATIO_BITS },
        }
    }

    /// The wall thickness to use: the explicit one if it is at least 1 mm, otherwise 20 mm or twice
    /// the minimum separation of the items, whichever is larger.
    pub fn resolve_gap(cli_gap: Option<Scalar>, min_item_separation: Option<Scalar>) -> (r: Result<
        Scalar,
        SheetGapError,
    >)
        ensures
            is_resolved_gap(cli_gap, min_item_separation, r),
    {
        match cli_gap {
            Some(g) => {
                let min = Scalar { bits: MIN_SHEET_GAP_BITS };
                if min.le(g) {
                    Ok(g)
                } else {
                    Err(SheetGapError { gap: g })
                }
            },
            None => {
                let clearance = match min_item_separation {
                    Some(s) => s.doubled(),
                    None => Scalar { bits: ZERO_BITS },
                };
                assert(is_clearance(min_item_separation, clearance));
                Ok((Scalar { bits: MIN_DEFAULT_SHEET_GAP_BITS }).max(clearance))
            },
        }
    }
}

/// **A wall always separates**: a thickness that is used is at least 1 mm, whatever was asked for and
/// whatever the separation is.
pub proof fn lemma_gap_is_never_too_thin(
    cli_gap: Option<Scalar>,
    min_item_separation: Option<Scalar>,
    r: Result<Scalar, SheetGapError>,
)
    requires
        is_resolved_gap(cli_gap, min_item_separation, r),
    ensures
        r matches Ok(gap) ==> (Scalar { bits: MIN_SHEET_GAP_BITS }).less_or_equal(gap),
        cli_gap is None ==> r is Ok,
{
    let min = Scalar { bits: MIN_SHEET_GAP_BITS };
    let twenty = Scalar { bits: MIN_DEFAULT_SHEET_GAP_BITS };
    crate::scalar::lemma_rank_is_value_order(min, twenty);
}

/// How the shrink ratio of the compression falls.
#[derive(Debug, Clone, Copy, PartialEq, Eq, Structural)]
pub enum ShrinkDecayStrategy {
    /// Linearly with time.
    TimeBased,
    /// By a fixed ratio with every failure.
    FailureBased(Scalar),
}

/// Settings of the exploration of a strip.
#[derive(Debug, Clone, Copy, PartialEq, Eq, Structural)]
pub struct ExplorationConfig {
    /// Share of the width that is cut off after a success.
    pub shrink_step: Scalar,
    /// Budget (ns).
    pub time_limit: u128,
    /// Pooled failures after which it stops; unlimited if `None`.
    pub max_conseq_failed_attempts: Option<usize>,
    /// Spread of the choice from the pool.
    pub solution_pool_distribution_stddev: Scalar,
    /// Limits of a separation.
    pub separator_config: SeparatorConfig,
    /// Share of the hull area that counts as large.
    pub large_item_ch_area_cutoff_percentile: Scalar,
    /// The sheets, if the strip is walled.
    pub sheet: Option<SheetConfig>,
}

/// Settings of the compression of a strip.
#[derive(Debug, Clone, Copy, PartialEq, Eq, Structural)]
pub struct CompressionConfig {
    /// First shrink ratio.
    pub shrink_from: Scalar,
    /// Shrink ratio below which it stops.
    pub shrink_to: Scalar,
    /// Budget (ns).
    pub time_limit: u128,
    /// How the ratio falls.
    pub shrink_decay: ShrinkDecayStrategy,
    /// Limits of a separation.
    pub separator_config: SeparatorConfig,
    /// The sheets, if the strip is walled.
    pub sheet: Option<SheetConfig>,
}

/// Settings of a strip packing run.
#[derive(Debug, Clone, Copy, PartialEq, Eq)]
pub struct SparrowConfig {
    /// Seed of the generator; a random one if `None`.
    pub rng_seed: Option<usize>,
    /// Exploration phase.
    pub expl_cfg: ExplorationConfig,
    /// Compression phase.
    pub cmpr_cfg: CompressionConfig,
    /// Largest inflation of an item by simplification; disabled if `None`.
    pub poly_simpl_tolerance: Option<Scalar>,
    /// Smallest distance between items; disabled if `None`.
    pub min_item_separation: Option<Scalar>,
    /// Distance and area of a concavity that is closed; disabled if `None`.
    pub narrow_concavity_cutoff_ratio: Option<(Scalar, Scalar)>,
    /// The sheets, if the strip is walled.
    pub sheet: Option<SheetConfig>,
}

/// Sampling settings of the separators.
pub open spec fn default_samples() -> SampleConfig {
    SampleConfig { n_container_samples: 50, n_focussed_samples: 25, n_coord_descents: 3 }
}

/// Separator settings of the exploration.
pub open spec fn exploring_separator() -> SeparatorConfig {
    SeparatorConfig {
        iter_no_imprv_limit: 200,
        strike_limit: 3,
        n_workers: 3,
        sample_config: default_samples(),
    }
}

/// Separator settings of the compression.
pub open spec fn compressing_separator() -> SeparatorConfig {
    SeparatorConfig {
        iter_no_imprv_limit: 100,
        strike_limit: 5,
        n_workers: 3,
        sample_config: default_samples(),
    }
}

fn separator_config(iter_no_imprv_limit: usize, strike_limit: usize) -> (r: SeparatorConfig)
    ensures
        r == (SeparatorConfig {
            iter_no_imprv_limit,
            strike_limit,
            n_workers: 3,
            sample_config: default_samples(),
        }),
{
    SeparatorConfig {
        iter_no_imprv_limit,
        strike_limit,
        n_workers: 3,
        sample_config: SampleConfig {
            n_container_samples: 50,
            n_focussed_samples: 25,
            n_coord_descents: 3,
        },
    }
}

/// The default settings of a strip packing run: nine minutes of exploration, one of compression.
pub open spec fn default_sparrow_config() -> SparrowConfig {
    SparrowConfig {
        rng_seed: None,
        expl_cfg: ExplorationConfig {
            shrink_step: Scalar { bits: SHRINK_STEP_BITS },
            time_limit: 540_000_000_000,
            max_conseq_failed_attempts: None,
            solution_pool_distribution_stddev: Scalar { bits: POOL_STDDEV_BITS },
            separator_config: exploring_separator(),
            large_item_ch_area_cutoff_percentile: Scalar { bits: LARGE_ITEM_PERCENTILE_BITS },
            sheet: None,
        },
        cmpr_cfg: CompressionConfig {
            shrink_from: Scalar { bits: SHRINK_RANGE_FROM_BITS },
            shrink_to: Scalar { bits: SHRINK_RANGE_TO_BITS },
            time_limit: 60_000_000_000,
            shrink_decay: ShrinkDecayStrategy::TimeBased,
            separator_config: compressing_separator(),
            sheet: None,
        },
        poly_simpl_tolerance: Some(Scalar { bits: POLY_SIMPL_TOLERANCE_BITS }),
        min_item_separation: None,
        narrow_concavity_cutoff_ratio: Some(
            (Scalar { bits: NARROW_CONCAVITY_BITS }, Scalar { bits: NARROW_CONCAVITY_BITS }),
        ),
        sheet: None,
    }
}

impl Default for SparrowConfig {
    fn default() -> (c: SparrowConfig)
        ensures
            c == default_sparrow_config(),
    {
        SparrowConfig {
            rng_seed: None,
            expl_cfg: ExplorationConfig {
                shrink_step: Scalar { bits: SHRINK_STEP_BITS },
                time_limit: 540 * SECOND,
                max_conseq_failed_attempts: None,
                solution_pool_distribution_stddev: Scalar { bits: POOL_STDDEV_BITS },
                separator_config: separator_config(200, 3),
                large_item_ch_area_cutoff_percentile: Scalar { bits: LARGE_ITEM_PERCENTILE_BITS },
                sheet: None,
            },
            cmpr_cfg: CompressionConfig {
                shrink_from: Scalar { bits: SHRINK_RANGE_FROM_BITS },
                shrink_to: Scalar { bits: SHRINK_RANGE_TO_BITS },
                time_limit: 60 * SECOND,
                shrink_decay: ShrinkDecayStrategy::TimeBased,
                separator_config: separator_config(100, 5),
                sheet: None,
            },
            poly_simpl_tolerance: Some(Scalar { bits: POLY_SIMPL_TOLERANCE_BITS }),
            min_item_separation: None,
            narrow_concavity_cutoff_ratio: Some(
                (Scalar { bits: NARROW_CONCAVITY_BITS }, Scalar { bits: NARROW_CONCAVITY_BITS }),
            ),
            sheet: None,
        }
    }
}

impl SparrowConfig {
    /// Sets the sheets, for the run and for both of its phases.
    pub fn apply_sheet(&mut self, sheet: Option<SheetConfig>)
        ensures
            final(self).sheet == sheet,
            final(self).expl_cfg.sheet == sheet,
            final(self).cmpr_cfg.sheet == sheet,
            *final(self) == (SparrowConfig {
                sheet,
                expl_cfg: ExplorationConfig { sheet, ..old(self).expl_cfg },
                cmpr_cfg: CompressionConfig { sheet, ..old(self).cmpr_cfg },
                ..*old(self)
            }),
    {
        self.sheet = sheet;
        self.expl_cfg.sheet = sheet;
        self.cmpr_cfg.sheet = sheet;
    }
}

/// Settings of the exploration over bins.
#[derive(Debug, Clone, Copy, PartialEq, Eq, Structural)]
pub struct BPExplorationConfig {
    /// Budget (ns).
    pub time_limit: u128,
    /// Failed attempts in a row after which it stops; unlimited if `None`.
    pub max_conseq_failed_attempts: Option<usize>,
    /// Limits of a separation.
    pub separator_config: SeparatorConfig,
    /// Spread of the choice from the pool.
    pub solution_pool_distribution_stddev: Scalar,
    /// Share of the hull area that counts as large.
    pub large_item_ch_area_cutoff_percentile: Scalar,
    /// How many of the least dense bins take turns as the one to close.
    pub n_scatter_retries: usize,
    /// No bin is closed if one bin fewer would need a higher density than this.
    pub max_reduction_density: Scalar,
    /// Failed attempts in a row without progress, at one bin count, after which it stops; unlimited
    /// if `None`.
    pub stagnation_limit: Option<usize>,
}

/// Settings of the compression over bins.
#[derive(Debug, Clone, Copy, PartialEq, Eq, Structural)]
pub struct BPCompressionConfig {
    /// Budget (ns).
    pub time_limit: u128,
    /// Limits of a separation.
    pub separator_config: SeparatorConfig,
    /// Whether every bin is consolidated as a strip.
    pub consolidate_remainder: bool,
    /// Settings of such a consolidation.
    pub consolidation_expl_cfg: ExplorationConfig,
    /// Whether items move between bins first.
    pub pack_down: bool,
    /// Budget of one such move (ns).
    pub pack_down_move_time_limit: u128,
    /// Share of the budget that these moves may use.
    pub pack_down_time_ratio: Scalar,
    /// Limits of the separation of one such move.
    pub pack_down_separator_config: SeparatorConfig,
    /// The direction of these moves.
    pub pack_down_strategy: PackDownStrategy,
    /// Smallest budget of the consolidation of one bin (ns).
    pub consolidation_min_time_per_bin: u128,
}

/// Settings of a bin packing run.
#[derive(Debug, Clone, Copy, PartialEq, Eq)]
pub struct BPConfig {
    /// Seed of the generator; a random one if `None`.
    pub rng_seed: Option<usize>,
    /// How the starting solution is built.
    pub constructive: Constructive,
    /// Exploration phase.
    pub expl_cfg: BPExplorationConfig,
    /// Compression phase.
    pub cmpr_cfg: BPCompressionConfig,
    /// Largest inflation of an item by simplification; disabled if `None`.
    pub poly_simpl_tolerance: Option<Scalar>,
    /// Smallest distance between items; disabled if `None`.
    pub min_item_separation: Option<Scalar>,
    /// Distance and area of a concavity that is closed; disabled if `None`.
    pub narrow_concavity_cutoff_ratio: Option<(Scalar, Scalar)>,
}

/// The default settings of a bin packing run. `max_conseq_fails` limits the failures in a row of the
/// exploration that consolidates one bin.
pub open spec fn default_bpp_config(max_conseq_fails: usize) -> BPConfig {
    BPConfig {
        rng_seed: None,
        constructive: Constructive::Best,
        expl_cfg: BPExplorationConfig {
            time_limit: 540_000_000_000,
            max_conseq_failed_attempts: None,
            separator_config: exploring_separator(),
            solution_pool_distribution_stddev: Scalar { bits: POOL_STDDEV_BITS },
            large_item_ch_area_cutoff_percentile: Scalar { bits: LARGE_ITEM_PERCENTILE_BITS },
            n_scatter_retries: 3,
            max_reduction_density: Scalar { bits: SHEET_MAX_REDUCTION_DENSITY_BITS },
            stagnation_limit: Some(8),
        },
        cmpr_cfg: BPCompressionConfig {
            time_limit: 60_000_000_000,
            separator_config: compressing_separator(),
            consolidate_remainder: true,
            consolidation_expl_cfg: ExplorationConfig {
                shrink_step: Scalar { bits: CONSOLIDATION_SHRINK_STEP_BITS },
                time_limit: 30_000_000_000,
                max_conseq_failed_attempts: Some(max_conseq_fails),
                solution_pool_distribution_stddev: Scalar { bits: POOL_STDDEV_BITS },
                separator_config: compressing_separator(),
                large_item_ch_area_cutoff_percentile: Scalar { bits: LARGE_ITEM_PERCENTILE_BITS },
                sheet: None,
            },
            pack_down: true,
            pack_down_move_time_limit: 2_000_000_000,
            pack_down_time_ratio: Scalar { bits: PACK_DOWN_TIME_RATIO_BITS },
            pack_down_separator_config: SeparatorConfig {
                iter_no_imprv_limit: 50,
                strike_limit: 2,
                ..compressing_separator()
            },
            pack_down_strategy: PackDownStrategy::Concentrate,
            consolidation_min_time_per_bin: 1_000_000_000,
        },
        poly_simpl_tolerance: Some(Scalar { bits: POLY_SIMPL_TOLERANCE_BITS }),
        min_item_separation: None,
        narrow_concavity_cutoff_ratio: Some(
            (Scalar { bits: NARROW_CONCAVITY_BITS }, Scalar { bits: NARROW_CONCAVITY_BITS }),
        ),
    }
}

impl BPConfig {
    /// The default settings, with the given limit for the consolidation of one bin.
    pub fn new(max_conseq_fails: usize) -> (c: BPConfig)
        ensures
            c == default_bpp_config(max_conseq_fails),
    {
        let strip = SparrowConfig::default();
        BPConfig {
            rng_seed: None,
            constructive: Constructive::Best,
            expl_cfg: BPExplorationConfig {
                time_limit: 540 * SECOND,
                max_conseq_failed_attempts: None,
                separator_config: strip.expl_cfg.separator_config,
                solution_pool_distribution_stddev: Scalar { bits: POOL_STDDEV_BITS },
                large_item_ch_area_cutoff_percentile: Scalar { bits: LARGE_ITEM_PERCENTILE_BITS },
                n_scatter_retries: 3,
                max_reduction_density: Scalar { bits: SHEET_MAX_REDUCTION_DENSITY_BITS },
                stagnation_limit: Some(8),
            },
            cmpr_cfg: BPCompressionConfig {
                time_limit: 60 * SECOND,
                separator_config: strip.cmpr_cfg.separator_config,
                consolidate_remainder: true,
                consolidation_expl_cfg: ExplorationConfig {
                    shrink_step: Scalar { bits: CONSOLIDATION_SHRINK_STEP_BITS },
                    time_limit: 30 * SECOND,
                    max_conseq_failed_attempts: Some(max_conseq_fails),
                    solution_pool_distribution_stddev: Scalar { bits: POOL_STDDEV_BITS },
                    separator_config: strip.cmpr_cfg.separator_config,
                    large_item_ch_area_cutoff_percentile: Scalar {
                        bits: LARGE_ITEM_PERCENTILE_BITS,
                    },
                    sheet: None,
                },
                pack_down: true,
                pack_down_move_time_limit: 2 * SECOND,
                pack_down_time_ratio: Scalar { bits: PACK_DOWN_TIME_RATIO_BITS },
                pack_down_separator_config: separator_config(50, 2),
                pack_down_strategy: PackDownStrategy::Concentrate,
                consolidation_min_time_per_bin: SECOND,
            },
            poly_simpl_tolerance: strip.poly_simpl_tolerance,
            min_item_separation: strip.min_item_separation,
            narrow_concavity_cutoff_ratio: strip.narrow_concavity_cutoff_ratio,
        }
    }
}

/// **A thickness that is asked for is used as it is, unless it is too thin; without one, a wall is at least as
/// thick as the usual one and as twice the separation, and no thicker.**
pub proof fn lemma_which_gap_is_used(
    cli_gap: Option<Scalar>,
    min_item_separation: Option<Scalar>,
    r: Result<Scalar, SheetGapError>,
)
    requires
        is_resolved_gap(cli_gap, min_item_separation, r),
    ensures
        cli_gap matches Some(g) ==> (r is Ok <==> !g.nan() && g.value() >= (Scalar {
            bits: MIN_SHEET_GAP_BITS,
        }).value()) && (r matches Ok(gap) ==> gap == g) && (r matches Err(e) ==> e.gap == g),
        cli_gap is None ==> {
            let usual = Scalar { bits: MIN_DEFAULT_SHEET_GAP_BITS };
            &&& r is Ok
            &&& (r->Ok_0).value() >= usual.value()
            &&& min_item_separation is None ==> r->Ok_0 == usual
            &&& min_item_separation matches Some(s) ==> (s.finite() && (r->Ok_0).finite()
                ==> (r->Ok_0).value() >= 2 * s.value() && (r->Ok_0 == usual || (r->Ok_0).value() == 2
                * s.value()))
        },
{
    let usual = Scalar { bits: MIN_DEFAULT_SHEET_GAP_BITS };
    crate::scalar::lemma_rank_is_value_order(usual, Scalar { bits: ZERO_BITS });
    if cli_gap is None {
        let c = choose|c: Scalar|
            is_clearance(min_item_separation, c) && r == Ok::<Scalar, SheetGapError>(
                usual.larger(c),
            );
        crate::scalar::lemma_rank_is_value_order(usual, c);
        if let Some(s) = min_item_separation {
            if s.finite() && c.infinite() && c.bits >= crate::scalar::SIGN_BIT {
                crate::scalar::lemma_rank_is_value_order(usual, s);
                crate::scalar::lemma_rank_is_value_order(s, Scalar { bits: ZERO_BITS });
            }
        }
    }
}

/// **Items move to the denser bin when concentrating, and to the sparser one when spreading.**
pub proof fn lemma_which_way_items_move(src: Scalar, dst: Scalar)
    requires
        !src.nan(),
        !dst.nan(),
    ensures
        PackDownStrategy::Concentrate.accepts(src, dst) <==> src.value() < dst.value(),
        PackDownStrategy::Spread.accepts(src, dst) <==> dst.value() < src.value(),
{
}

/// **By default a run takes ten minutes, nine of them to explore**, over a strip as over bins, and no phase is
/// cut short by failures.
pub proof fn lemma_default_times(max_conseq_fails: usize)
    ensures
        ({
            let (c, b) = (default_sparrow_config(), default_bpp_config(max_conseq_fails));
            &&& c.expl_cfg.time_limit + c.cmpr_cfg.time_limit == 600 * SECOND
            &&& c.expl_cfg.time_limit == 9 * c.cmpr_cfg.time_limit
            &&& b.expl_cfg.time_limit == c.expl_cfg.time_limit
            &&& b.cmpr_cfg.time_limit == c.cmpr_cfg.time_limit
            &&& c.expl_cfg.max_conseq_failed_attempts is None
            &&& b.expl_cfg.max_conseq_failed_attempts is None
            &&& b.cmpr_cfg.consolidation_expl_cfg.max_conseq_failed_attempts == Some(
                max_conseq_fails,
            )
            &&& c.expl_cfg.sheet == c.sheet && c.cmpr_cfg.sheet == c.sheet && c.sheet is None
        }),
{
}

} // verus!
