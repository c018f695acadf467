//! The decisions of a strip packing run, driven step by step.
use rand::rngs::Xoshiro256PlusPlus;
use rand::SeedableRng;
use sparrow::config::{PackDownStrategy, SheetConfig, SheetPipeline, SparrowConfig};
use sparrow::optimizer::bpp::layouts::PItemKey;
use sparrow::optimizer::compress::{
    compression_phase, earlier, SPCompression, SqueezeAction, SqueezeEvent, SqueezeStage,
};
use sparrow::optimizer::disrupt::{
    choose_flagged, choose_layout, choose_partner, cutoff_position, disrupt_solution, large_items,
    practically_contained_items, DisruptAction, DisruptEvent, DisruptStage, DisruptStop, Disruption,
};
use sparrow::optimizer::explore::{exploration_phase, SPExploration, Strip, StripAction, StripEvent, StripStage};
use sparrow::optimizer::lbf::{construct, place_item, PlaceStep};
use sparrow::optimizer::pool::{insert_sorted, Pooled};
use sparrow::optimizer::run::{
    optimize, plain_first_prepass, repair_walled_warm_start, wall_repair_config, RunAction, RunEvent, StripRun,
    WallRepair, WallRepairAction,
};
use sparrow::optimizer::separator::{
    separate, SampleConfig, Separation, SeparationAction, SeparationEvent, SeparatorConfig,
};
use sparrow::order::order_by;
use sparrow::quantify::tracker::{next_weight, CollisionTracker, Hazard, NextWeight};
use sparrow::random::worker_seeds;
use sparrow::scalar::Scalar;
use sparrow::util::ctrlc_terminator::CtrlCTerminator;

fn scalar(v: f32) -> Scalar {
    Scalar { bits: v.to_bits() }
}

fn value(s: Scalar) -> f32 {
    f32::from_bits(s.bits)
}

fn rng() -> Xoshiro256PlusPlus {
    Xoshiro256PlusPlus::seed_from_u64(42)
}

/// The key of a slot that was filled once.
fn key(slot: u64) -> PItemKey {
    PItemKey { rank: (slot << 32) | 1 }
}

fn separator_config(strike_limit: usize, iter_no_imprv_limit: usize) -> SeparatorConfig {
    SeparatorConfig {
        iter_no_imprv_limit,
        strike_limit,
        n_workers: 2,
        sample_config: SampleConfig { n_container_samples: 1, n_focussed_samples: 1, n_coord_descents: 1 },
    }
}

fn poll(killed: bool, loss: f32) -> SeparationEvent {
    SeparationEvent::Poll { killed, loss: scalar(loss) }
}

fn moved(loss: f32, bar: f32) -> SeparationEvent {
    SeparationEvent::Moved { loss: scalar(loss), bar: scalar(bar) }
}

#[test]
fn separation_saves_what_improves_and_ends_when_nothing_overlaps() {
    let mut run = Separation::new(separator_config(2, 3), scalar(10.0));
    assert_eq!(separate(&mut run, poll(false, 10.0)), SeparationAction::Poll);
    assert_eq!(separate(&mut run, poll(false, 10.0)), SeparationAction::Move);
    assert_eq!(separate(&mut run, moved(12.0, 9.8)), SeparationAction::Reweigh);
    assert_eq!(run.n_no_improvement, 1);
    assert_eq!(separate(&mut run, poll(false, 12.0)), SeparationAction::Move);
    assert_eq!(separate(&mut run, moved(9.9, 9.8)), SeparationAction::SaveAndReweigh);
    assert_eq!(run.n_no_improvement, 1, "a slight improvement does not start the count anew");
    assert_eq!(separate(&mut run, poll(false, 9.9)), SeparationAction::Move);
    assert_eq!(separate(&mut run, moved(5.0, 9.7)), SeparationAction::SaveAndReweigh);
    assert_eq!(run.n_no_improvement, 0);
    assert_eq!(value(run.min_loss), 5.0);
    assert_eq!(separate(&mut run, poll(false, 5.0)), SeparationAction::Move);
    assert_eq!(separate(&mut run, moved(0.0, 4.9)), SeparationAction::SaveAndFinish);
    assert!(run.separated);
}

#[test]
fn separation_gives_up_after_its_strikes() {
    let mut run = Separation::new(separator_config(2, 1), scalar(10.0));
    for strike in 1..=2 {
        assert_eq!(separate(&mut run, poll(false, 10.0)), SeparationAction::Poll);
        assert_eq!(separate(&mut run, poll(false, 10.0)), SeparationAction::Move);
        assert_eq!(separate(&mut run, moved(11.0, 9.8)), SeparationAction::Reweigh);
        assert_eq!(separate(&mut run, poll(false, 11.0)), SeparationAction::Judge);
        assert_eq!(separate(&mut run, SeparationEvent::Judged { bar: scalar(9.8) }), SeparationAction::Rollback);
        assert_eq!(run.n_strikes, strike);
    }
    assert_eq!(separate(&mut run, poll(false, 10.0)), SeparationAction::Finish);
    assert!(!run.separated);
}

#[test]
fn no_move_starts_after_the_deadline() {
    // A patient configuration on a layout that cannot be separated: only the deadline ends it.
    let mut run = Separation::new(separator_config(8, 400), scalar(8000.0));
    assert_eq!(separate(&mut run, poll(false, 8000.0)), SeparationAction::Poll);
    let mut n_moves = 0;
    for now in 0.. {
        let killed = now >= 20;
        match separate(&mut run, poll(killed, 8000.0)) {
            SeparationAction::Move => {
                assert!(!killed, "no move may start after the deadline");
                n_moves += 1;
                separate(&mut run, moved(8000.0, 7000.0));
            }
            action => {
                assert_eq!(action, SeparationAction::Judge);
                break;
            }
        }
    }
    assert_eq!(n_moves, 20);
    separate(&mut run, SeparationEvent::Judged { bar: scalar(7000.0) });
    assert_eq!(separate(&mut run, poll(true, 8000.0)), SeparationAction::Finish);
}

#[test]
fn patience_only_grows() {
    let patient = separator_config(3, 500).patient(8, 400);
    assert_eq!((patient.strike_limit, patient.iter_no_imprv_limit, patient.n_workers), (8, 500, 2));
    let repair = wall_repair_config(separator_config(10, 100));
    assert_eq!((repair.strike_limit, repair.iter_no_imprv_limit), (10, 400));
}

#[test]
fn the_pool_stays_sorted_by_loss() {
    let mut pool = vec![];
    for (solution, loss) in [(0, 3.0), (1, 1.0), (2, 2.0), (3, 2.0)] {
        insert_sorted(&mut pool, Pooled { solution, loss: scalar(loss) });
    }
    let losses: Vec<f32> = pool.iter().map(|p| value(p.loss)).collect();
    assert_eq!(losses, vec![1.0, 2.0, 2.0, 3.0]);
    let mut solutions: Vec<usize> = pool.iter().map(|p| p.solution).collect();
    solutions.sort();
    assert_eq!(solutions, vec![0, 1, 2, 3]);
}

#[test]
fn choices_fall_on_what_is_eligible() {
    let mut rng = rng();
    for _ in 0..50 {
        assert!(matches!(choose_flagged(&vec![false, true, false, true], &mut rng), Some(1) | Some(3)));
        assert_eq!(choose_layout(&vec![1, 0, 5], &mut rng), Some(2));
    }
    assert_eq!(choose_flagged(&vec![false, false], &mut rng), None);
    assert_eq!(choose_layout(&vec![1, 1], &mut rng), None);
    let seen: Vec<usize> = (0..200).filter_map(|_| choose_flagged(&vec![true; 4], &mut rng)).collect();
    assert!((0..4).all(|i| seen.contains(&i)), "every eligible position comes up");
}

#[test]
fn partners_are_large_and_different_where_possible() {
    let mut rng = rng();
    for _ in 0..50 {
        let p = choose_partner(0, &vec![true, true, true, false], &vec![false, false, true, true], &mut rng);
        assert_eq!(p, Some(2));
        let any = choose_partner(1, &vec![true, true, false], &vec![false, false, true], &mut rng);
        assert!(matches!(any, Some(0) | Some(2)), "any other item will do");
        let p = choose_partner(0, &vec![true, true], &vec![true, true], &mut rng);
        assert_eq!(p, Some(1), "an item is never its own partner");
        let p = choose_partner(0, &vec![true, false], &vec![true, false], &mut rng);
        assert_eq!(p, Some(1), "not even if nothing else is large and different");
    }
    assert_eq!(choose_partner(0, &vec![true], &vec![false], &mut rng), None);
}

#[test]
fn large_items_reach_the_cutoff() {
    assert_eq!(large_items(&vec![scalar(3.0), scalar(5.0), scalar(4.0)], scalar(4.0)), vec![false, true, true]);
    let totals = vec![scalar(10.0), scalar(30.0), scalar(60.0)];
    assert_eq!(cutoff_position(&totals, scalar(29.0)), Some(1));
    assert_eq!(cutoff_position(&totals, scalar(30.0)), Some(2));
    assert_eq!(cutoff_position(&totals, scalar(60.0)), None);
}

#[test]
fn a_disruption_swaps_two_items_and_drags_their_contents_along() {
    let mut rng = rng();
    let mut run = Disruption::new();
    let action = disrupt_solution(&mut run, DisruptEvent::Layouts { n_items: vec![1, 3] }, &mut rng);
    assert!(matches!(action, DisruptAction::Measure { layout: 1 }));
    let items = DisruptEvent::Items {
        keys: vec![key(1), key(2), key(3)],
        hull_areas: vec![scalar(9.0), scalar(1.0), scalar(8.0)],
        cutoff: scalar(5.0),
    };
    let first = match disrupt_solution(&mut run, items, &mut rng) {
        DisruptAction::Compare { first } => first,
        other => panic!("unexpected {other:?}"),
    };
    assert!(first == 0 || first == 2, "a small item is not swapped");
    let different: Vec<bool> = (0..3).map(|i| i != first).collect();
    let (one, two) = match disrupt_solution(&mut run, DisruptEvent::Compared { different }, &mut rng) {
        DisruptAction::Swap { one, two } => (one, two),
        other => panic!("unexpected {other:?}"),
    };
    assert_eq!([one.rank.min(two.rank), one.rank.max(two.rank)], [key(1).rank, key(3).rank]);

    let action = disrupt_solution(&mut run, DisruptEvent::Swapped { one: key(4), two: key(5) }, &mut rng);
    assert!(matches!(action, DisruptAction::Collide { item } if item == key(4)));
    let hits = vec![(key(5), true), (key(2), true), (key(4), true), (key(6), false)];
    match disrupt_solution(&mut run, DisruptEvent::Contents { hits }, &mut rng) {
        DisruptAction::Drag { items, next } => {
            assert_eq!((items, next), (vec![key(2)], Some(key(5))), "the swapped items are not dragged");
        }
        other => panic!("unexpected {other:?}"),
    }
    match disrupt_solution(&mut run, DisruptEvent::Contents { hits: vec![] }, &mut rng) {
        DisruptAction::Drag { items, next } => assert_eq!((items, next), (vec![], None)),
        other => panic!("unexpected {other:?}"),
    }
    assert_eq!(run.stage, DisruptStage::Done);
}

#[test]
fn a_disruption_gives_up_where_nothing_can_be_swapped() {
    let mut rng = rng();
    let mut empty = Disruption::new();
    let action = disrupt_solution(&mut empty, DisruptEvent::Layouts { n_items: vec![1] }, &mut rng);
    assert!(matches!(action, DisruptAction::GiveUp(DisruptStop::NoLayout)));
    let mut single = Disruption::within();
    let one = DisruptEvent::Items { keys: vec![key(1)], hull_areas: vec![scalar(9.0)], cutoff: scalar(5.0) };
    assert!(matches!(
        disrupt_solution(&mut single, one, &mut rng),
        DisruptAction::GiveUp(DisruptStop::TooFewItems)
    ));
    let mut small = Disruption::within();
    let two = DisruptEvent::Items {
        keys: vec![key(1), key(2)],
        hull_areas: vec![scalar(1.0), scalar(2.0)],
        cutoff: scalar(5.0),
    };
    assert!(matches!(
        disrupt_solution(&mut small, two, &mut rng),
        DisruptAction::GiveUp(DisruptStop::NoLargeItem)
    ));
}

#[test]
fn contents_exclude_the_swapped_items() {
    let hits = vec![(key(1), true), (key(2), true), (key(3), false), (key(4), true)];
    assert_eq!(practically_contained_items(&hits, key(1), key(4)), vec![key(2)]);
}

fn sheet_config() -> SheetConfig {
    SheetConfig::new(scalar(2000.0), scalar(20.0), true)
}

fn strip_poll(killed: bool) -> StripEvent {
    StripEvent::Poll { killed }
}

fn separated(loss: f32, solution: usize, next_width: f32) -> StripEvent {
    StripEvent::Separated { loss: scalar(loss), solution, next_width: scalar(next_width) }
}

#[test]
fn an_exploration_narrows_the_strip() {
    let config = SparrowConfig::default().expl_cfg;
    let mut run = SPExploration::new(config, scalar(0.0), 0, scalar(100.0));
    assert_eq!(run.feasible, vec![Strip { solution: 0, width: scalar(100.0) }]);
    assert_eq!(exploration_phase(&mut run, strip_poll(false)), StripAction::Separate);
    assert_eq!(
        exploration_phase(&mut run, separated(0.0, 1, 99.0)),
        StripAction::Shrink { improved: false, width: scalar(99.0) },
        "the start is not an improvement on itself"
    );
    assert_eq!(exploration_phase(&mut run, strip_poll(false)), StripAction::Separate);
    assert_eq!(
        exploration_phase(&mut run, separated(0.0, 2, 98.0)),
        StripAction::Shrink { improved: true, width: scalar(98.0) }
    );
    assert_eq!(exploration_phase(&mut run, strip_poll(false)), StripAction::Separate);
    assert_eq!(exploration_phase(&mut run, separated(4.0, 3, 0.0)), StripAction::Reject);
    assert_eq!(
        exploration_phase(&mut run, StripEvent::Sampled { index: 0 }),
        StripAction::Restart { solution: 3 }
    );
    assert_eq!(exploration_phase(&mut run, StripEvent::Restored { width: scalar(98.0) }), StripAction::Poll);
    assert_eq!(exploration_phase(&mut run, strip_poll(true)), StripAction::Finish);
    let widths: Vec<f32> = run.feasible.iter().map(|s| value(s.width)).collect();
    assert_eq!(widths, vec![100.0, 99.0]);
}

#[test]
fn an_exploration_ends_after_too_many_failures() {
    let mut config = SparrowConfig::default().expl_cfg;
    config.max_conseq_failed_attempts = Some(2);
    let mut run = SPExploration::new(config, scalar(0.0), 0, scalar(100.0));
    exploration_phase(&mut run, strip_poll(false));
    assert_eq!(exploration_phase(&mut run, separated(4.0, 1, 0.0)), StripAction::Reject);
    exploration_phase(&mut run, StripEvent::Sampled { index: 0 });
    exploration_phase(&mut run, StripEvent::Restored { width: scalar(100.0) });
    exploration_phase(&mut run, strip_poll(false));
    assert_eq!(exploration_phase(&mut run, separated(3.0, 2, 0.0)), StripAction::RejectAndFinish);
    assert_eq!(run.stage, StripStage::Done);
}

fn walled_exploration() -> SPExploration {
    let mut config = SparrowConfig::default();
    config.apply_sheet(Some(sheet_config()));
    let mut run = SPExploration::new(config.expl_cfg, scalar(0.0), 0, scalar(5000.0));
    exploration_phase(&mut run, strip_poll(false));
    assert_eq!(exploration_phase(&mut run, separated(4.0, 1, 0.0)), StripAction::Reject);
    exploration_phase(&mut run, StripEvent::Sampled { index: 0 });
    exploration_phase(&mut run, StripEvent::Restored { width: scalar(4990.0) });
    exploration_phase(&mut run, strip_poll(false));
    assert_eq!(
        exploration_phase(&mut run, separated(3.0, 2, 0.0)),
        StripAction::PrepareDrop { solution: 0 },
        "two failed shrinks in a row call for the drop of a sheet"
    );
    run
}

#[test]
fn an_exploration_drops_a_sheet_at_once() {
    let mut run = walled_exploration();
    let sheets = StripEvent::Sheets { n: 3, required_density: scalar(0.8) };
    assert_eq!(exploration_phase(&mut run, sheets), StripAction::Drop);
    let dropped = StripEvent::Dropped { loss: scalar(0.0), solution: 3, width: scalar(4020.0), n: 2 };
    assert_eq!(exploration_phase(&mut run, dropped), StripAction::Adopt);
    assert_eq!(run.feasible.last(), Some(&Strip { solution: 3, width: scalar(4020.0) }));
    assert_eq!(value(run.best_width), 4020.0);
}

#[test]
fn an_exploration_undoes_a_failed_drop() {
    let mut run = walled_exploration();
    exploration_phase(&mut run, StripEvent::Sheets { n: 3, required_density: scalar(0.8) });
    let dropped = StripEvent::Dropped { loss: scalar(7.0), solution: 3, width: scalar(4020.0), n: 3 };
    assert_eq!(exploration_phase(&mut run, dropped), StripAction::Undo { solution: 0 });
    assert_eq!((run.drop_strikes, run.feasible.len()), (1, 1));
}

#[test]
fn a_hopeless_drop_is_not_tried() {
    let mut full = walled_exploration();
    assert_eq!(
        exploration_phase(&mut full, StripEvent::Sheets { n: 3, required_density: scalar(0.95) }),
        StripAction::Sample
    );
    let mut single = walled_exploration();
    assert_eq!(
        exploration_phase(&mut single, StripEvent::Sheets { n: 1, required_density: scalar(0.1) }),
        StripAction::Sample
    );
}

#[test]
fn a_compression_adopts_what_still_fits() {
    let config = SparrowConfig::default().cmpr_cfg;
    let mut run = SPCompression::new(config, 0);
    let step = scalar(0.0004);
    assert_eq!(
        compression_phase(&mut run, SqueezeEvent::Poll { killed: false, step }),
        SqueezeAction::Squeeze { step }
    );
    assert_eq!(
        compression_phase(&mut run, SqueezeEvent::Squeezed { loss: scalar(0.0), solution: 1 }),
        SqueezeAction::Adopt
    );
    compression_phase(&mut run, SqueezeEvent::Poll { killed: false, step });
    assert_eq!(
        compression_phase(&mut run, SqueezeEvent::Squeezed { loss: scalar(2.0), solution: 2 }),
        SqueezeAction::Poll
    );
    assert_eq!((run.best, run.n_failed), (1, 1));
    assert_eq!(
        compression_phase(&mut run, SqueezeEvent::Poll { killed: false, step: scalar(0.000001) }),
        SqueezeAction::Finish,
        "a step below the smallest one ends it"
    );
    assert_eq!(run.best, 1);
}

#[test]
fn a_walled_compression_packs_down_and_compacts() {
    let mut config = SparrowConfig::default();
    let mut sheet = sheet_config();
    sheet.pack_down = true;
    config.apply_sheet(Some(sheet));
    let mut run = SPCompression::new(config.cmpr_cfg, 0);
    assert_eq!(run.stage, SqueezeStage::PackingDown);
    assert_eq!(
        compression_phase(&mut run, SqueezeEvent::PackedDown { n_moved: 2, solution: 1 }),
        SqueezeAction::Poll
    );
    assert_eq!(
        compression_phase(&mut run, SqueezeEvent::Poll { killed: true, step: scalar(0.1) }),
        SqueezeAction::Compact
    );
    assert_eq!(
        compression_phase(&mut run, SqueezeEvent::Compacted { n_moved: 3, solution: 2 }),
        SqueezeAction::AdoptAndFinish
    );
    assert_eq!(run.best, 2);
}

#[test]
fn the_earlier_of_two_deadlines_counts() {
    assert_eq!(earlier(Some(5), Some(3)), Some(3));
    assert_eq!(earlier(None, Some(3)), Some(3));
    assert_eq!(earlier(Some(5), None), Some(5));
    assert_eq!(earlier(None, None), None);
}

#[test]
fn a_plain_start_is_cut_wider_before_it_is_given_up() {
    let mut run = WallRepair { max_retries: 0, attempt: 0, outcome: None };
    assert_eq!(plain_first_prepass(&mut run, None), WallRepairAction::Separate);
    for attempt in 1..=3 {
        assert_eq!(plain_first_prepass(&mut run, Some(scalar(5.0))), WallRepairAction::Recut { attempt });
    }
    assert_eq!(plain_first_prepass(&mut run, Some(scalar(5.0))), WallRepairAction::Rebuild);
    plain_first_prepass(&mut run, None);
    plain_first_prepass(&mut run, Some(scalar(5.0)));
    assert_eq!(plain_first_prepass(&mut run, Some(scalar(0.0))), WallRepairAction::Keep);
}

#[test]
fn a_walled_warm_start_is_kept_only_without_a_loss() {
    let mut clear = None;
    assert_eq!(repair_walled_warm_start(&mut clear, scalar(0.0)), WallRepairAction::Keep);
    let mut repaired = None;
    assert_eq!(repair_walled_warm_start(&mut repaired, scalar(9.0)), WallRepairAction::Separate);
    assert_eq!(repair_walled_warm_start(&mut repaired, scalar(0.0)), WallRepairAction::Keep);
    let mut stuck = None;
    assert_eq!(repair_walled_warm_start(&mut stuck, scalar(9.0)), WallRepairAction::Separate);
    assert_eq!(repair_walled_warm_start(&mut stuck, scalar(1.0)), WallRepairAction::Rebuild);
}

#[test]
fn a_run_repairs_before_it_compresses() {
    let (mut run, first) = StripRun::new(Some(sheet_config()), true);
    assert_eq!(first, RunAction::Import);
    assert_eq!(optimize(&mut run, RunEvent::Ready), RunAction::RepairWarmStart);
    assert_eq!(optimize(&mut run, RunEvent::Ready), RunAction::Explore);
    assert_eq!(optimize(&mut run, RunEvent::Explored(None)), RunAction::Repair);
    assert_eq!(optimize(&mut run, RunEvent::Repaired { solution: 4 }), RunAction::Compress { solution: 4 });
    assert_eq!(optimize(&mut run, RunEvent::Compressed { solution: 5 }), RunAction::Finish { solution: 5 });
}

#[test]
fn a_run_starts_as_configured() {
    assert_eq!(StripRun::new(None, false).1, RunAction::Construct);
    let mut plain_first = sheet_config();
    plain_first.pipeline = SheetPipeline::PlainFirst;
    assert_eq!(StripRun::new(Some(plain_first), false).1, RunAction::PlainFirst);
    assert_eq!(StripRun::new(Some(plain_first), true).1, RunAction::Import);
    let (mut run, _) = StripRun::new(None, true);
    assert_eq!(optimize(&mut run, RunEvent::Ready), RunAction::Explore);
    assert_eq!(optimize(&mut run, RunEvent::Explored(Some(2))), RunAction::Compress { solution: 2 });
}

#[test]
fn items_are_constructed_largest_first() {
    let scores = vec![scalar(1.0), scalar(9.0), scalar(4.0)];
    assert_eq!(construct(&scores, &vec![2, 1, 3]), vec![1, 2, 2, 2, 0, 0]);
    assert_eq!(place_item(true, true), PlaceStep::Place);
    assert_eq!(place_item(false, true), PlaceStep::Widen);
    assert_eq!(place_item(false, false), PlaceStep::RunningAway);
}

#[test]
fn a_press_ends_one_phase_only() {
    let mut t = CtrlCTerminator::new(0);
    assert!(!t.kill(1_000_000, 0));
    assert!(t.kill(0, 1));
    t.new_timeout(100, 1, 50);
    assert_eq!(t.timeout_at(), Some(150));
    assert!(!t.kill(150, 1), "the press before the reset does not count");
    assert!(t.kill(151, 1));
    assert!(t.kill(120, 2));
}

#[test]
fn keys_are_ordered_with_their_ties() {
    assert_eq!(order_by(&vec![(5, 1), (2, 9), (5, 0), (2, 3)]), vec![3, 1, 2, 0]);
    assert_eq!(order_by(&vec![]), Vec::<usize>::new());
}

#[test]
fn every_worker_gets_a_seed_of_its_own() {
    let seeds = worker_seeds(3, &mut rng());
    assert_eq!(seeds.len(), 3);
    assert_eq!(seeds, worker_seeds(3, &mut rng()), "the same generator gives the same seeds");
    assert!(seeds[0] != seeds[1] && seeds[1] != seeds[2]);
}

#[test]
fn items_only_ever_move_one_way() {
    let (low, high) = (scalar(0.3), scalar(0.7));
    assert!(PackDownStrategy::Concentrate.accepts_destination(low, high));
    assert!(!PackDownStrategy::Concentrate.accepts_destination(high, low));
    assert!(PackDownStrategy::Spread.accepts_destination(high, low));
    assert!(!PackDownStrategy::Spread.accepts_destination(low, high));
}

fn tracker_for(n: u64) -> CollisionTracker {
    CollisionTracker::new((1..=n).map(key).collect(), 1)
}

#[test]
fn losses_are_the_same_from_either_side() {
    let mut ct = tracker_for(3);
    let hazards = vec![
        Hazard::PlacedItem { key: key(2), loss: scalar(4.0) },
        Hazard::Exterior { loss: scalar(2.0) },
        Hazard::Hole { index: 0, loss: scalar(1.0) },
    ];
    ct.store_losses_for_item(key(1), &hazards);
    assert_eq!(value(ct.get_pair_loss(key(1), key(2))), 4.0);
    assert_eq!(value(ct.get_pair_loss(key(2), key(1))), 4.0);
    assert_eq!(value(ct.get_pair_loss(key(1), key(3))), 0.0);
    assert_eq!(value(ct.get_container_loss(key(1))), 2.0);
    assert_eq!(value(ct.get_hole_loss(key(1), 0)), 1.0);
    assert_eq!(value(ct.max_loss()), 4.0);
    assert_eq!(ct.get_entries(key(1)).iter().map(|e| value(e.loss)).sum::<f32>(), 7.0);
    assert_eq!(value(ct.get_pair_weight(key(1), key(2))), 1.0);
}

#[test]
fn a_move_forgets_the_old_losses_only() {
    let mut ct = tracker_for(3);
    ct.store_losses_for_item(key(1), &vec![Hazard::PlacedItem { key: key(2), loss: scalar(4.0) }]);
    ct.store_losses_for_item(key(2), &vec![Hazard::PlacedItem { key: key(3), loss: scalar(5.0) }]);
    let moved = PItemKey { rank: (1 << 32) | 3 };
    ct.register_item_move(key(1), moved, &vec![Hazard::Exterior { loss: scalar(6.0) }]);
    assert_eq!(ct.find(key(1)), None);
    assert_eq!(ct.find(moved), Some(0));
    assert_eq!(value(ct.get_pair_loss(moved, key(2))), 0.0);
    assert_eq!(value(ct.get_container_loss(moved)), 6.0);
    assert_eq!(value(ct.get_pair_loss(key(2), key(3))), 5.0, "the other items keep theirs");
}

#[test]
fn a_restored_tracker_keeps_its_weights() {
    let mut ct = tracker_for(2);
    ct.store_losses_for_item(key(1), &vec![Hazard::PlacedItem { key: key(2), loss: scalar(4.0) }]);
    let saved = ct.save();
    let weights = vec![NextWeight { grown: scalar(3.0), decayed: scalar(3.0) }; ct.get_all_entries().len()];
    ct.update_weights(&weights, scalar(8.0));
    let moved = PItemKey { rank: (1 << 32) | 3 };
    ct.register_item_move(key(1), moved, &vec![]);
    ct.restore_but_keep_weights(&saved);
    assert_eq!(ct.find(key(1)), Some(0));
    assert_eq!(value(ct.get_pair_loss(key(1), key(2))), 4.0);
    assert_eq!(value(ct.get_pair_weight(key(1), key(2))), 3.0);
    assert_eq!(value(ct.get_container_weight(key(1))), 3.0);
}

#[test]
fn weights_grow_with_a_loss_and_decay_without_one() {
    let next = |grown: f32, decayed: f32| NextWeight { grown: scalar(grown), decayed: scalar(decayed) };
    let weight = |loss: f32, next: NextWeight| value(next_weight(scalar(loss), next, scalar(8.0)));
    assert_eq!(weight(0.5, next(6.0, 2.85)), 6.0);
    assert_eq!(weight(0.0, next(6.0, 2.85)), 2.85);
    assert_eq!(weight(-0.0, next(6.0, 2.85)), 2.85);
    assert_eq!(weight(0.5, next(9.0, 2.0)), 8.0, "never above the maximum");
    assert_eq!(weight(0.0, next(9.0, 0.95)), 1.0, "never below one");
    assert_eq!(weight(0.5, next(f32::INFINITY, 1.0)), 8.0);
}

#[test]
fn a_whole_strip_run_returns_only_what_was_separated() {
    // Handles 0, 2 and 4 stand for feasible solutions, the odd ones for failed attempts.
    let (mut run, _) = StripRun::new(Some(sheet_config()), true);
    assert_eq!(optimize(&mut run, RunEvent::Ready), RunAction::RepairWarmStart);
    let mut repair = None;
    assert_eq!(repair_walled_warm_start(&mut repair, scalar(9.0)), WallRepairAction::Separate);
    assert_eq!(repair_walled_warm_start(&mut repair, scalar(0.0)), WallRepairAction::Keep);
    assert_eq!(optimize(&mut run, RunEvent::Ready), RunAction::Explore);

    let config = SparrowConfig::default();
    let mut exploration = SPExploration::new(config.expl_cfg, scalar(0.0), 0, scalar(100.0));
    exploration_phase(&mut exploration, strip_poll(true));
    assert_eq!(exploration.feasible.last().map(|s| s.solution), Some(0), "a start without loss is a solution");
    let mut exploration = SPExploration::new(config.expl_cfg, scalar(0.0), 0, scalar(100.0));
    exploration_phase(&mut exploration, strip_poll(false));
    exploration_phase(&mut exploration, separated(4.0, 1, 0.0));
    exploration_phase(&mut exploration, StripEvent::Sampled { index: 0 });
    exploration_phase(&mut exploration, StripEvent::Restored { width: scalar(99.0) });
    exploration_phase(&mut exploration, strip_poll(false));
    exploration_phase(&mut exploration, separated(0.0, 2, 98.0));
    exploration_phase(&mut exploration, strip_poll(true));
    let best = exploration.feasible.last().map(|s| s.solution);
    assert_eq!(best, Some(2));
    assert_eq!(optimize(&mut run, RunEvent::Explored(best)), RunAction::Compress { solution: 2 });

    let mut squeeze = SPCompression::new(config.cmpr_cfg, 2);
    let poll = |killed: bool| SqueezeEvent::Poll { killed, step: scalar(0.0004) };
    compression_phase(&mut squeeze, poll(false));
    compression_phase(&mut squeeze, SqueezeEvent::Squeezed { loss: scalar(2.0), solution: 3 });
    compression_phase(&mut squeeze, poll(false));
    compression_phase(&mut squeeze, SqueezeEvent::Squeezed { loss: scalar(0.0), solution: 4 });
    let finished = optimize(&mut run, RunEvent::Compressed { solution: squeeze.best });
    assert_eq!(finished, RunAction::Finish { solution: 4 });
}
