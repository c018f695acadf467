//! What the command line accepts, and what it makes of a run.
use sparrow::config::{
    BPConfig, PackDownStrategy, SheetConfig, SheetPipeline, ShrinkDecayStrategy, SparrowConfig, MIN_SHEET_GAP_BITS,
};
use sparrow::scalar::Scalar;
use sparrow::text::{decimal_string, parse_unsigned, position, split, trim};
use sparrow::util::io::{
    parse_finite_f32, parse_non_negative_f32, parse_positive_f32, parse_sheet_gap, resolve_min_item_separation,
    SeparationError, MIN_SEP_ENV_VAR,
};
use sparrow::util::runs::{
    oversubscribed, run_seed, select_bins, select_strip, sheet_settings, terminate_bpp_early, terminate_early,
    time_plan, BinResult, StripResult, TimePlan,
};

fn scalar(v: f32) -> Scalar {
    Scalar { bits: v.to_bits() }
}

fn number(s: Scalar) -> f32 {
    f32::from_bits(s.bits)
}

fn parsed(s: &str) -> Option<Scalar> {
    trim(s).parse::<f32>().ok().map(scalar)
}

fn finite(s: &str) -> Result<f32, String> {
    parse_finite_f32(s, parsed(s)).map(number)
}

fn positive(s: &str) -> Result<f32, String> {
    parse_positive_f32(s, parsed(s)).map(number)
}

fn non_negative(s: &str) -> Result<f32, String> {
    parse_non_negative_f32(s, parsed(s)).map(number)
}

fn gap(s: &str) -> Result<f32, String> {
    parse_sheet_gap(s, parsed(s)).map(number)
}

fn min_sep(cli: Option<f32>, env: Option<&str>, default: Option<f32>) -> Result<Option<f32>, SeparationError> {
    let env_value = env.and_then(parsed);
    resolve_min_item_separation(cli.map(scalar), env, env_value, default.map(scalar)).map(|v| v.map(number))
}

fn resolve_gap(cli: Option<f32>, sep: Option<f32>) -> Result<f32, String> {
    SheetConfig::resolve_gap(cli.map(scalar), sep.map(scalar)).map(number).map_err(|e| e.to_string())
}

#[test]
fn cli_float_parsers_reject_non_finite() {
    for bad in ["NaN", "nan", "inf", "-inf", "Infinity", "-Infinity"] {
        assert!(finite(bad).is_err(), "`{bad}` must not parse as a finite float");
        assert!(positive(bad).is_err(), "`{bad}` must be rejected for --sheet-width");
        assert!(non_negative(bad).is_err(), "`{bad}` must be rejected for --min-sep");
        assert!(gap(bad).is_err(), "`{bad}` must be rejected for --sheet-gap");
    }
}

#[test]
fn cli_float_parsers_enforce_ranges() {
    assert!(positive("0").is_err(), "--sheet-width 0 is meaningless");
    assert!(positive("-1").is_err(), "--sheet-width may not be negative");
    assert_eq!(positive("1995").unwrap(), 1995.0);

    assert!(non_negative("-1").is_err(), "--min-sep may not be negative");
    assert_eq!(non_negative("0").unwrap(), 0.0, "0 is legal: it disables the separation");
    assert_eq!(non_negative("5").unwrap(), 5.0);

    assert!(gap("0").is_err(), "a zero-width wall is not representable");
    assert!(gap("0.5").is_err(), "below the 1 mm minimum");
    assert_eq!(gap("1").unwrap(), f32::from_bits(MIN_SHEET_GAP_BITS));
    assert_eq!(gap("20").unwrap(), 20.0);

    assert!(finite("").is_err());
    assert!(finite("abc").is_err());
}

#[test]
fn refused_numbers_are_quoted() {
    assert_eq!(finite("abc").unwrap_err(), "`abc` is not a number");
    assert_eq!(finite("inf").unwrap_err(), "`inf` is not a finite number");
    assert_eq!(positive("-0").unwrap_err(), "`-0` must be greater than 0");
    assert_eq!(non_negative("-0").unwrap(), 0.0);
    assert_eq!(non_negative("-2").unwrap_err(), "`-2` must not be negative");
    assert!(gap("0").unwrap_err().starts_with("`0` is too thin: a sheet wall must be at least 1 mm wide."));
    assert_eq!(finite(" 2.5 ").unwrap(), 2.5);
}

#[test]
fn resolve_min_item_separation_rejects_non_finite() {
    assert!(min_sep(Some(f32::NAN), None, None).is_err(), "a NaN --min-sep must error, not silently disable");
    assert!(min_sep(Some(f32::INFINITY), None, None).is_err());
    assert_eq!(min_sep(Some(5.0), None, None).unwrap(), Some(5.0));
    assert_eq!(min_sep(Some(0.0), None, Some(3.0)).unwrap(), None, "0 disables it");
    assert_eq!(min_sep(None, None, Some(3.0)).unwrap(), Some(3.0), "the config default applies");
}

#[test]
fn min_sep_resolution_prefers_cli_then_env_then_default() {
    assert_eq!(min_sep(Some(5.0), None, None).unwrap(), Some(5.0));
    assert_eq!(min_sep(Some(0.0), None, Some(3.0)).unwrap(), None, "non-positive CLI value disables the separation");
    assert!(min_sep(Some(f32::NAN), None, Some(3.0)).is_err(), "a NaN must be an error, not a silent opt-out");
    assert_eq!(min_sep(None, None, Some(3.0)).unwrap(), Some(3.0));
    assert_eq!(min_sep(None, None, None).unwrap(), None);
    // The environment comes between the two.
    assert_eq!(min_sep(Some(5.0), Some("7"), Some(3.0)).unwrap(), Some(5.0));
    assert_eq!(min_sep(None, Some(" 7 "), Some(3.0)).unwrap(), Some(7.0));
    assert_eq!(min_sep(None, Some("-7"), Some(3.0)).unwrap(), None);
    assert_eq!(min_sep(None, Some(" \t"), Some(3.0)).unwrap(), Some(3.0));
}

#[test]
fn a_bad_environment_variable_is_an_error() {
    assert_eq!(MIN_SEP_ENV_VAR, "SPARROW_MIN_SEP");
    assert_eq!(min_sep(Some(5.0), Some("many"), None), Err(SeparationError::Environment));
    assert_eq!(min_sep(None, Some("inf"), None), Err(SeparationError::Environment));
    assert_eq!(min_sep(Some(f32::NAN), None, None), Err(SeparationError::Argument));
    assert_eq!(
        SeparationError::Environment.to_string("\"many\""),
        "SPARROW_MIN_SEP=\"many\" is not a finite number"
    );
    assert_eq!(
        SeparationError::Argument.to_string("NaN"),
        "the minimum item separation (NaN) is not a finite number"
    );
}

#[test]
fn sheet_gap_zero_is_rejected() {
    let msg = resolve_gap(Some(0.0), Some(5.0)).expect_err("a zero-width wall cannot be modelled");
    assert!(msg.contains("too thin"), "the error must say why: {msg}");
    assert!(msg.contains("straddle"), "the error must explain the consequence: {msg}");
}

#[test]
fn sheet_gap_below_minimum_is_rejected() {
    for gap in [-20.0f32, -0.001, 0.0, 0.5, 0.999] {
        assert!(resolve_gap(Some(gap), None).is_err(), "--sheet-gap {gap} is below the minimum");
    }
}

#[test]
fn sheet_gap_legal_values_unchanged() {
    assert_eq!(resolve_gap(Some(1.0), None).unwrap(), 1.0, "the minimum itself is legal");
    assert_eq!(resolve_gap(Some(20.0), Some(5.0)).unwrap(), 20.0, "an explicit gap wins");
    assert_eq!(resolve_gap(None, None).unwrap(), 20.0, "the default is max(20, 2*min_sep)");
    assert_eq!(resolve_gap(None, Some(15.0)).unwrap(), 30.0, "and 2*min_sep when that is larger");
}

#[test]
fn zero_sheet_gap_is_rejected() {
    assert!(resolve_gap(Some(0.0), None).is_err(), "--sheet-gap 0 cannot be modelled and must be rejected");
    assert!(resolve_gap(Some(-5.0), None).is_err(), "a negative gap must be an error");
    assert_eq!(resolve_gap(Some(7.5), None).unwrap(), 7.5, "an explicit legal gap is used as given");
    assert!(resolve_gap(None, None).unwrap() > 0.0, "no --sheet-gap still gets the default");
    assert_eq!(
        resolve_gap(None, Some(5.0)).unwrap(),
        20.0_f32.max(10.0),
        "the default still respects 2 * min_item_separation"
    );
}

#[test]
fn time_limits_are_shared_or_separate() {
    assert_eq!(time_plan(Some(30), None, None), Some(TimePlan::Shared(30)));
    assert_eq!(time_plan(None, Some(8), Some(2)), Some(TimePlan::Separate(8, 2)));
    assert_eq!(time_plan(None, None, None), Some(TimePlan::Shared(600)));
    assert_eq!(time_plan(Some(1), Some(8), Some(2)), None);
    assert_eq!(time_plan(None, Some(8), None), None);
    assert_eq!(time_plan(None, None, Some(2)), None);
}

#[test]
fn early_termination_tightens_the_limits() {
    let mut strip = SparrowConfig::default();
    terminate_early(&mut strip, 10, scalar(0.25));
    assert_eq!(strip.expl_cfg.max_conseq_failed_attempts, Some(10));
    assert_eq!(strip.cmpr_cfg.shrink_decay, ShrinkDecayStrategy::FailureBased(scalar(0.25)));
    assert_eq!(strip.cmpr_cfg.time_limit, SparrowConfig::default().cmpr_cfg.time_limit);

    let mut bins = BPConfig::new(10);
    assert_eq!(bins.expl_cfg.stagnation_limit, Some(8));
    terminate_bpp_early(&mut bins, 10);
    assert_eq!(bins.expl_cfg.max_conseq_failed_attempts, Some(10));
    assert_eq!(bins.expl_cfg.stagnation_limit, Some(4));
    assert_eq!(bins.cmpr_cfg.pack_down_move_time_limit, 1_000_000_000);
    assert_eq!(bins.cmpr_cfg.pack_down_separator_config.iter_no_imprv_limit, 25);
    assert_eq!(bins.cmpr_cfg.pack_down_separator_config.strike_limit, 1);
    // No limit falls to zero.
    bins.expl_cfg.stagnation_limit = Some(1);
    terminate_bpp_early(&mut bins, 10);
    assert_eq!(bins.expl_cfg.stagnation_limit, Some(1));
    assert_eq!(bins.cmpr_cfg.pack_down_separator_config.strike_limit, 1);
}

#[test]
fn sheets_reach_both_phases() {
    let sheet = sheet_settings(scalar(2000.0), scalar(20.0), true, true, true);
    assert_eq!(sheet.pipeline, SheetPipeline::PlainFirst);
    assert!(sheet.compact_sheets && sheet.pack_down);
    let plain = sheet_settings(scalar(2000.0), scalar(20.0), false, false, false);
    assert_eq!(plain, SheetConfig::new(scalar(2000.0), scalar(20.0), false));
    assert_eq!(plain.pipeline, SheetPipeline::default());

    let mut config = SparrowConfig::default();
    config.apply_sheet(Some(sheet));
    assert_eq!(config.sheet, Some(sheet));
    assert_eq!(config.expl_cfg.sheet, Some(sheet));
    assert_eq!(config.cmpr_cfg.sheet, Some(sheet));
    config.apply_sheet(None);
    assert_eq!(config, SparrowConfig::default());
}

#[test]
fn default_settings_are_the_documented_ones() {
    let c = SparrowConfig::default();
    assert_eq!(number(c.expl_cfg.shrink_step), 0.001);
    assert_eq!(number(c.expl_cfg.solution_pool_distribution_stddev), 0.25);
    assert_eq!(number(c.expl_cfg.large_item_ch_area_cutoff_percentile), 0.75);
    assert_eq!(number(c.cmpr_cfg.shrink_from), 0.0005);
    assert_eq!(number(c.cmpr_cfg.shrink_to), 0.00001);
    assert_eq!(c.poly_simpl_tolerance.map(number), Some(0.001));
    assert_eq!(c.narrow_concavity_cutoff_ratio.map(|(a, b)| (number(a), number(b))), Some((0.01, 0.01)));
    assert_eq!(c.expl_cfg.time_limit, 540_000_000_000);
    let s = SheetConfig::new(scalar(100.0), scalar(20.0), false);
    assert_eq!(number(s.max_reduction_density), 0.9);
    assert_eq!(number(s.pack_down_time_ratio), 0.3);
    assert_eq!(number(s.plain_first_ratio), 0.5);
    let b = BPConfig::new(10);
    assert_eq!(number(b.cmpr_cfg.pack_down_time_ratio), 0.6);
    assert_eq!(number(b.cmpr_cfg.consolidation_expl_cfg.shrink_step), 0.005);
    assert_eq!(b.cmpr_cfg.consolidation_expl_cfg.max_conseq_failed_attempts, Some(10));
    assert_eq!(b.cmpr_cfg.pack_down_strategy, PackDownStrategy::default());
}

#[test]
fn moves_go_in_one_direction_of_the_density() {
    let (sparse, dense) = (scalar(0.25), scalar(0.75));
    assert!(PackDownStrategy::Concentrate.source_ascending());
    assert!(!PackDownStrategy::Spread.source_ascending());
    assert!(PackDownStrategy::Concentrate.accepts_destination(sparse, dense));
    assert!(!PackDownStrategy::Concentrate.accepts_destination(dense, sparse));
    assert!(PackDownStrategy::Spread.accepts_destination(dense, sparse));
    assert!(!PackDownStrategy::Spread.accepts_destination(sparse, dense));
    assert!(!PackDownStrategy::Spread.accepts_destination(dense, dense));
}

#[test]
fn runs_count_up_from_the_seed() {
    assert_eq!(run_seed(42, 0), 42);
    assert_eq!(run_seed(42, 3), 45);
    assert!(oversubscribed(4, 3, 8));
    assert!(!oversubscribed(4, 2, 8));
    assert!(!oversubscribed(1, 300, 8));
}

#[test]
fn the_best_verified_run_is_kept() {
    let bins = |verified, cost, d: f32| BinResult { verified, cost, min_density: scalar(d) };
    // The cheapest one was refused; of the two at cost 5 the one with the emptier bin wins.
    let results = vec![bins(true, 5, 0.4), bins(false, 3, 0.1), bins(true, 5, 0.2), bins(true, 6, 0.1), bins(true, 5, 0.2)];
    assert_eq!(select_bins(&results), Some(2));
    assert_eq!(select_bins(&vec![bins(false, 1, 0.1)]), None);
    assert_eq!(select_bins(&vec![]), None);

    let strip = |verified, w: f32| StripResult { verified, width: scalar(w) };
    let results = vec![strip(true, 900.0), strip(false, 100.0), strip(true, 850.0), strip(true, 850.0)];
    assert_eq!(select_strip(&results), Some(2));
    assert_eq!(select_strip(&vec![strip(false, 1.0)]), None);
}

#[test]
fn numbers_and_fields_are_read() {
    assert_eq!(decimal_string(0), "0");
    assert_eq!(decimal_string(u64::MAX), "18446744073709551615");
    assert_eq!(parse_unsigned("18446744073709551615", u64::MAX), Some(u64::MAX));
    assert_eq!(parse_unsigned("18446744073709551616", u64::MAX), None);
    assert_eq!(parse_unsigned("+7", 10), Some(7));
    assert_eq!(parse_unsigned("11", 10), None);
    for bad in ["", "+", "-1", "1 ", "x"] {
        assert_eq!(parse_unsigned(bad, 10), None, "{bad:?}");
    }
    for s in ["", " ", "\u{3000}a b\n", "a", "\t7\u{a0}"] {
        assert_eq!(trim(s), s.trim());
    }
    for s in ["", ":", "a", "a:b", ":a::b:", "äö:ü"] {
        assert_eq!(split(s, ':'), s.split(':').collect::<Vec<_>>());
    }
    assert_eq!(position("abc", 'c'), 2);
    assert_eq!(position("abc", 'x'), 3);
}

#[test]
fn scalars_compare_as_floats_do() {
    let values = [
        f32::NEG_INFINITY, -3.5, -f32::MIN_POSITIVE, -1.0e-45, -0.0, 0.0, 1.0e-45, f32::MIN_POSITIVE, 0.5, 1.0, 3.5,
        f32::MAX, f32::INFINITY, f32::NAN,
    ];
    for a in values {
        for b in values {
            assert_eq!(scalar(a).lt(scalar(b)), a < b, "{a} < {b}");
            assert_eq!(scalar(a).le(scalar(b)), a <= b, "{a} <= {b}");
            assert_eq!(
                scalar(a).order_key().cmp(&scalar(b).order_key()),
                ordered_float::OrderedFloat(a).cmp(&ordered_float::OrderedFloat(b)),
                "{a} against {b}"
            );
            let (max, min) = (number(scalar(a).max(scalar(b))), number(scalar(a).min(scalar(b))));
            assert!(max == a.max(b) || (max.is_nan() && a.max(b).is_nan()), "max of {a} and {b}");
            assert!(min == a.min(b) || (min.is_nan() && a.min(b).is_nan()), "min of {a} and {b}");
        }
        assert_eq!(scalar(a).is_nan(), a.is_nan());
        assert_eq!(scalar(a).is_finite(), a.is_finite());
        assert_eq!(scalar(a).is_zero(), a == 0.0);
        assert_eq!(scalar(a).is_positive(), a > 0.0);
        let double = number(scalar(a).doubled());
        assert!(double == a * 2.0 || (double.is_nan() && a.is_nan()), "twice {a}");
    }
}
