//! The decisions of a bin packing run, driven step by step.
use rand::rngs::Xoshiro256PlusPlus;
use rand::SeedableRng;
use sparrow::config::{BPConfig, PackDownStrategy};
use sparrow::keymap::KeyMap;
use sparrow::optimizer::bpp::compress::{
    compression_phase, fair_share, short_term, solution_is_valid, BPCompression, CompressAction, CompressEvent,
    CompressStage,
};
use sparrow::optimizer::bpp::consolidate::{
    accepts_write_back, build_sp_subproblem, consolidate_layout, narrowed, placement_is_hopeless, widest_gap,
    write_back, Consolidation, WriteTarget,
};
use sparrow::optimizer::bpp::explore::{
    exploration_phase, required_density_for_reduction, BPExploration, ExploreAction, ExploreEvent, ExploreStop, Found,
};
use sparrow::optimizer::bpp::layouts::{
    find_item, find_layout, largest_first, ordered_layouts, LayKey, LayoutState, PItemKey, PlacedItem,
};
use sparrow::optimizer::bpp::lbf::{
    cheapest_bin, find_placement_in_open_layouts, place_item, LbfPlacement, OpenSearch,
};
use sparrow::optimizer::bpp::pack_down::{pack_down, Move, PackDown, PackDownAction, PackDownEvent};
use sparrow::optimizer::bpp::run::{
    build_initial_problem, check_warm_start, compression_budget, optimize_bpp, runs_lbf, runs_shelf, BPWarmStartError,
    BinRun, BinRunAction, BinRunEvent, Built, InitialChoice,
};
use sparrow::optimizer::bpp::separator::{
    best_worker, close_bin_and_scatter, keeps_weights, least_dense_layout, nth_least_dense_layout, rollback,
    transfer_item, Placement, ScatterDecision, Transfer,
};
use sparrow::optimizer::bpp::shelf::{
    choose_orientation, construct, materialise, min_bin_density, pack, place_into_open_bin, strictly_better, BoxItem,
    Constructive, MaterialiseError, Mode, Orientation, PackAction, PackEvent, PackStage, ShelfPacking, ShelfPlacement,
    Slot, StartStats,
};
use sparrow::optimizer::bpp::trackers::{
    follow_move, layout_size, rebuild_trackers, retrack, MoveSync, TakenOver, TrackerSync,
};
use sparrow::optimizer::bpp::worker::{
    clamp_to_container, colliding_items, load, move_item, move_items, Candidate, Range, Reopen,
};
use sparrow::scalar::Scalar;

fn scalar(v: f32) -> Scalar {
    Scalar { bits: v.to_bits() }
}

fn value(s: Scalar) -> f32 {
    f32::from_bits(s.bits)
}

fn rank(slot: u64) -> u64 {
    (slot << 32) | 1
}

fn lay(slot: u64) -> LayKey {
    LayKey { rank: rank(slot) }
}

fn item(slot: u64, item_id: usize, area: f32) -> PlacedItem {
    PlacedItem { key: PItemKey { rank: rank(slot) }, item_id, area: scalar(area) }
}

fn layout(slot: u64, density: f32, items: Vec<PlacedItem>) -> LayoutState {
    LayoutState { key: lay(slot), bin_id: 0, density: scalar(density), free_area: scalar(100.0), items }
}

fn pk(slot: u64) -> PItemKey {
    PItemKey { rank: rank(slot) }
}

/// Three bins: the middle one is the sparsest.
fn three_bins() -> Vec<LayoutState> {
    vec![
        layout(1, 0.8, vec![item(1, 0, 40.0), item(2, 1, 40.0)]),
        layout(2, 0.2, vec![item(1, 2, 5.0), item(2, 3, 15.0), item(3, 4, 10.0)]),
        layout(3, 0.5, vec![item(1, 5, 50.0)]),
    ]
}

#[test]
fn layouts_are_found_and_ordered_by_density() {
    let bins = three_bins();
    assert_eq!(find_layout(&bins, lay(3)), Some(2));
    assert_eq!(find_layout(&bins, lay(9)), None);
    assert_eq!(find_item(&bins[1].items, pk(3)), Some(2));
    assert_eq!(find_item(&bins[2].items, pk(3)), None);
    assert_eq!(ordered_layouts(&bins, true), vec![lay(2), lay(3), lay(1)]);
    assert_eq!(ordered_layouts(&bins, false), vec![lay(1), lay(3), lay(2)]);
    let ids: Vec<usize> = largest_first(&bins[1].items).iter().map(|p| p.item_id).collect();
    assert_eq!(ids, vec![3, 4, 2]);
}

#[test]
fn the_sparsest_bin_is_the_first_candidate() {
    let bins = three_bins();
    assert_eq!(least_dense_layout(&bins), Some(lay(2)));
    assert_eq!(nth_least_dense_layout(&bins, 1), Some(lay(3)));
    assert_eq!(nth_least_dense_layout(&bins, 3), None);
    assert_eq!(least_dense_layout(&vec![]), None);
}

#[test]
fn the_best_worker_has_the_smallest_loss() {
    assert_eq!(best_worker(&vec![scalar(3.0), scalar(1.0), scalar(2.0), scalar(1.0)]), 1);
}

#[test]
fn the_only_bin_is_not_closed() {
    let only = vec![layout(1, 0.8, vec![item(1, 0, 40.0)])];
    assert!(matches!(close_bin_and_scatter(&only, lay(1), &vec![vec![true]]), ScatterDecision::OnlyBin));
}

#[test]
fn a_closed_bin_is_scattered_over_the_others() {
    let bins = three_bins();
    let fits = vec![vec![true]; 6];
    match close_bin_and_scatter(&bins, lay(2), &fits) {
        ScatterDecision::Scatter(s) => {
            assert_eq!(s.removals, vec![pk(2), pk(3), pk(1)]);
            let to = |item_id: usize, slot: u64| Placement { item_id, dst: lay(slot) };
            assert_eq!(s.placements, vec![to(3, 3), to(4, 1), to(2, 3)], "largest first, in turn");
            assert_eq!(s.affected, vec![lay(3), lay(1)]);
        }
        other => panic!("unexpected {other:?}"),
    }
}

#[test]
fn a_bin_whose_items_fit_nowhere_stays() {
    let bins = three_bins();
    let mut fits = vec![vec![true]; 6];
    fits[4] = vec![false];
    match close_bin_and_scatter(&bins, lay(2), &fits) {
        ScatterDecision::DoesNotFit(p) => assert_eq!(p, Placement { item_id: 4, dst: lay(1) }),
        other => panic!("unexpected {other:?}"),
    }
}

#[test]
fn the_last_item_closes_its_bin() {
    let bins = three_bins();
    assert_eq!(transfer_item(&bins, lay(3), pk(1), true), Some(Transfer { item_id: 5, src_closed: true }));
    assert_eq!(transfer_item(&bins, lay(2), pk(3), true), Some(Transfer { item_id: 4, src_closed: false }));
    assert_eq!(transfer_item(&bins, lay(2), pk(3), false), None);
}

#[test]
fn keys_tell_versions_apart() {
    let mut map = KeyMap::new();
    let (old, new) = ((5 << 32) | 1, (5 << 32) | 3);
    map.insert(old, 10);
    map.insert(rank(2), 20);
    assert_eq!((map.get(old), map.get(new), map.get(rank(2))), (Some(10), None, Some(20)));
    let copy = map.copied();
    assert_eq!(map.remove(old), Some(10));
    map.insert(new, 30);
    assert_eq!((map.get(old), map.get(new)), (None, Some(30)), "the slot belongs to the newer key");
    map.insert(new, 31);
    assert_eq!(map.get(new), Some(31), "a key stands for one number");
    assert_eq!(map.remove(new), Some(31));
    assert_eq!(map.remove(new), None);
    assert_eq!(copy.get(old), Some(10), "a copy is a map of its own");
    let mut entries = copy.entries();
    entries.sort();
    assert_eq!(entries, vec![(rank(2), 20), (old, 10)]);
    assert_eq!(map.entries(), vec![(rank(2), 20)]);
}

#[test]
fn trackers_follow_the_open_layouts() {
    let bins = three_bins();
    let mut own = rebuild_trackers(&bins);
    assert_eq!((own.get(rank(1)), own.get(rank(2)), own.get(rank(3))), (Some(2), Some(3), Some(1)));
    assert_eq!(layout_size(&bins, rank(2)), Some(3));
    assert_eq!(layout_size(&bins, rank(7)), None);

    let fewer = vec![
        layout(1, 0.9, vec![item(1, 0, 40.0), item(2, 1, 40.0), item(3, 2, 5.0)]),
        layout(3, 0.5, vec![item(1, 5, 50.0)]),
    ];
    retrack(&mut own, Some(lay(2)), &vec![lay(1)], &fewer);
    assert_eq!((own.get(rank(1)), own.get(rank(2)), own.get(rank(3))), (Some(3), None, Some(1)));
}

#[test]
fn a_rollback_takes_the_saved_trackers_over() {
    let bins = three_bins();
    let saved = rebuild_trackers(&bins);
    let mut own = KeyMap::new();
    own.insert(rank(1), 2);
    own.insert(rank(2), 9);
    own.insert(rank(8), 4);
    match rollback(&mut own, false, Some(&saved), &bins) {
        TrackerSync::PerLayout { dropped, mut taken_over } => {
            assert_eq!(dropped, vec![lay(8)]);
            taken_over.sort_by_key(|t| t.key.rank);
            let taken = |slot: u64, size: usize, present: Option<usize>| TakenOver { key: lay(slot), size, present };
            assert_eq!(taken_over, vec![taken(1, 2, Some(2)), taken(2, 3, Some(9)), taken(3, 1, None)]);
            assert!(keeps_weights(&taken_over[0], &bins));
            assert!(!keeps_weights(&taken_over[1], &bins), "a tracker of another size is replaced");
            assert!(!keeps_weights(&taken_over[2], &bins));
        }
        other => panic!("unexpected {other:?}"),
    }
    assert_eq!((own.get(rank(2)), own.get(rank(3)), own.get(rank(8))), (Some(3), Some(1), None));
}

#[test]
fn changed_keys_call_for_new_trackers() {
    let bins = three_bins();
    let saved = rebuild_trackers(&bins);
    let mut own = KeyMap::new();
    assert!(matches!(rollback(&mut own, true, Some(&saved), &bins), TrackerSync::Rebuild));
    assert_eq!(own.get(rank(2)), Some(3));
    let mut unsaved = KeyMap::new();
    assert!(matches!(rollback(&mut unsaved, false, None, &bins), TrackerSync::Rebuild));
    let mut worker = KeyMap::new();
    assert!(matches!(load(&mut worker, false, &saved, &bins), TrackerSync::PerLayout { .. }));
    assert_eq!(worker.get(rank(1)), Some(2));
}

#[test]
fn exactly_the_colliding_items_are_moved() {
    let bins = three_bins();
    let losses = vec![
        vec![scalar(0.0), scalar(2.0)],
        vec![scalar(1.0), scalar(0.0), scalar(3.0)],
        vec![scalar(0.0)],
    ];
    let candidate = |slot: u64, item: u64| Candidate { layout: lay(slot), item: pk(item) };
    let expected = vec![candidate(1, 2), candidate(2, 1), candidate(2, 3)];
    assert_eq!(colliding_items(&bins, &losses), expected);
    let mut rng = Xoshiro256PlusPlus::seed_from_u64(1);
    let mut orders = vec![];
    for _ in 0..50 {
        let order = move_items(&bins, &losses, &mut rng);
        let mut sorted = order.clone();
        sorted.sort_by_key(|c| (c.layout.rank, c.item.rank));
        assert_eq!(sorted, expected);
        if !orders.contains(&order) {
            orders.push(order);
        }
    }
    assert!(orders.len() > 1, "the order is shuffled");
}

#[test]
fn a_lone_item_reopens_its_bin() {
    let bins = three_bins();
    assert_eq!(move_item(&bins[0]), Reopen::Same(lay(1)));
    assert_eq!(move_item(&bins[2]), Reopen::Fresh { bin_id: 0 });
}

#[test]
fn samples_are_clamped_into_the_container() {
    let xs = Range { low: scalar(0.0), high: scalar(10.0) };
    let ys = Range { low: scalar(2.0), high: scalar(8.0) };
    assert_eq!(clamp_to_container(scalar(5.0), scalar(4.0), xs, ys), (scalar(5.0), scalar(4.0), false));
    assert_eq!(clamp_to_container(scalar(-1.0), scalar(9.0), xs, ys), (scalar(0.0), scalar(8.0), true));
}

fn all_fit(boxes: &Vec<BoxItem>) -> ShelfPacking {
    let mut run = ShelfPacking::new(boxes, vec![2, 1], vec![scalar(2.0), scalar(1.0)]);
    let fits = PackEvent::Fits { bands: vec![], fresh: vec![], hosts: vec![true, true] };
    assert_eq!(pack(&mut run, fits), PackAction::Open { bin_id: 1 }, "the cheapest bin is opened");
    pack(&mut run, PackEvent::Opened { fits: true });
    while run.stage == PackStage::Fits {
        let first = run.placements.len() == 1;
        let fits = PackEvent::Fits { bands: vec![vec![false, !first]], fresh: vec![first], hosts: vec![true, false] };
        pack(&mut run, fits);
    }
    run
}

#[test]
fn a_packing_opens_the_cheapest_bin_and_fills_the_first_band() {
    let one = |item_id: usize, along: f32, cross: f32| BoxItem { item_id, along: scalar(along), cross: scalar(cross) };
    let boxes = vec![one(0, 10.0, 5.0), one(1, 30.0, 5.0), one(2, 10.0, 8.0)];
    let a = all_fit(&boxes);
    let at = |position: usize, slot: Slot| ShelfPlacement { position, bin: 0, slot };
    assert_eq!(a.placements, vec![at(1, Slot::NewBand), at(2, Slot::NewBand), at(0, Slot::Band(1))]);
    assert_eq!(a.stage, PackStage::Done);
    assert_eq!(a.stock, vec![2, 0]);
}

#[test]
fn a_shelf_packing_fails_without_stock_or_room() {
    let boxes = vec![BoxItem { item_id: 0, along: scalar(10.0), cross: scalar(5.0) }];
    let mut empty = ShelfPacking::new(&boxes, vec![0], vec![scalar(1.0)]);
    let fits = PackEvent::Fits { bands: vec![], fresh: vec![], hosts: vec![true] };
    assert_eq!(pack(&mut empty, fits), PackAction::NoStock { position: 0 });
    let mut small = ShelfPacking::new(&boxes, vec![1], vec![scalar(1.0)]);
    pack(&mut small, PackEvent::Fits { bands: vec![], fresh: vec![], hosts: vec![true] });
    assert_eq!(pack(&mut small, PackEvent::Opened { fits: false }), PackAction::DoesNotFit { position: 0 });
    assert_eq!(small.stage, PackStage::Failed);
    assert_eq!(ShelfPacking::new(&vec![], vec![1], vec![scalar(1.0)]).stage, PackStage::Done);
}

#[test]
fn an_item_lies_along_its_longer_side() {
    let o = |fits: bool, along: f32, cross: f32, rotation: f32| Orientation {
        fits,
        along: scalar(along),
        cross: scalar(cross),
        rotation: scalar(rotation),
    };
    assert_eq!(choose_orientation(&vec![o(true, 5.0, 9.0, 0.0), o(true, 9.0, 5.0, 1.5)]), Some(1));
    assert_eq!(choose_orientation(&vec![o(true, 5.0, 9.0, 0.0), o(false, 9.0, 5.0, 1.5)]), Some(0));
    assert_eq!(choose_orientation(&vec![o(true, 9.0, 5.0, 3.1), o(true, 9.0, 5.0, 0.0)]), Some(1));
    assert_eq!(choose_orientation(&vec![o(false, 9.0, 5.0, 0.0)]), None);
}

#[test]
fn the_first_band_with_room_is_taken() {
    assert_eq!(
        place_into_open_bin(&vec![vec![false], vec![false, true]], &vec![false, true]),
        Some((1, Slot::Band(1)))
    );
    assert_eq!(
        place_into_open_bin(&vec![vec![false], vec![true]], &vec![true, true]),
        Some((0, Slot::NewBand))
    );
    assert_eq!(place_into_open_bin(&vec![vec![false]], &vec![false]), None);
}

#[test]
fn fewer_bins_are_better_then_an_emptier_one() {
    let stats = |n_bins: usize, d: f32| StartStats { n_bins, min_density: scalar(d) };
    assert!(strictly_better(stats(3, 0.9), stats(4, 0.1)));
    assert!(strictly_better(stats(3, 0.1), stats(3, 0.2)));
    assert!(!strictly_better(stats(3, 0.2), stats(3, 0.2)));
    assert_eq!(construct(stats(3, 0.2), stats(3, 0.1)), Mode::Shelf);
    assert_eq!(construct(stats(3, 0.2), stats(3, 0.2)), Mode::Column);
    assert_eq!(value(min_bin_density(&vec![scalar(0.5), scalar(0.25), scalar(0.75)])), 0.25);

    let lbf = Built::Built(stats(4, 0.5));
    let shelf = Built::Built(stats(3, 0.5));
    assert_eq!(build_initial_problem(Constructive::Best, lbf, shelf), InitialChoice::Shelf);
    assert_eq!(build_initial_problem(Constructive::Best, lbf, Built::Failed), InitialChoice::Lbf);
    assert_eq!(build_initial_problem(Constructive::Lbf, lbf, Built::NotRun), InitialChoice::Lbf);
    assert_eq!(build_initial_problem(Constructive::Best, Built::Failed, shelf), InitialChoice::LbfFailed);
    assert_eq!(build_initial_problem(Constructive::Shelf, Built::NotRun, shelf), InitialChoice::Shelf);
    assert_eq!(build_initial_problem(Constructive::Shelf, Built::NotRun, Built::Failed), InitialChoice::ShelfFailed);
}

#[test]
fn a_construction_is_complete_and_free_of_collisions() {
    assert_eq!(materialise(&vec![0, 0], &vec![true, true]), Ok(()));
    assert_eq!(materialise(&vec![0, 1], &vec![true, false]), Err(MaterialiseError::MissingDemand));
    assert_eq!(materialise(&vec![0, 0], &vec![true, false]), Err(MaterialiseError::Collides { position: 1 }));
}

#[test]
fn the_cheapest_bin_in_stock_is_opened() {
    let cost = vec![scalar(3.0), scalar(1.0), scalar(2.0), scalar(2.0)];
    assert_eq!(cheapest_bin(&vec![1, 0, 1, 1], &vec![true; 4], &cost), Some(2));
    assert_eq!(cheapest_bin(&vec![1, 1, 1, 1], &vec![true, false, false, false], &cost), Some(0));
    assert_eq!(cheapest_bin(&vec![0; 4], &vec![true; 4], &cost), None);
    assert_eq!(place_item(Some(lay(2)), &vec![0; 4], &cost), LbfPlacement::Open(lay(2)));
    assert_eq!(place_item(None, &vec![1; 4], &cost), LbfPlacement::Closed { bin_id: 1 });
    assert_eq!(place_item(None, &vec![0; 4], &cost), LbfPlacement::NoStock);
}

#[test]
fn warm_starts_are_complete_and_free_of_collisions() {
    assert_eq!(check_warm_start(4, 4, &vec![true, true]), Ok(()));
    assert_eq!(
        check_warm_start(3, 4, &vec![false]),
        Err(BPWarmStartError::ItemCount { placed: 3, demanded: 4 })
    );
    assert_eq!(check_warm_start(4, 4, &vec![true, false]), Err(BPWarmStartError::Collides { position: 1 }));
}

#[test]
fn unspent_exploration_time_goes_to_the_compression() {
    assert_eq!(compression_budget(100, Some(40)), 140);
    assert_eq!(compression_budget(100, None), 100);
    let mut run = BinRun::new(300, 100);
    assert_eq!(optimize_bpp(&mut run, BinRunEvent::Started { ok: true }), BinRunAction::Explore { budget: 300 });
    assert_eq!(
        optimize_bpp(&mut run, BinRunEvent::Explored { solution: 7, remaining: Some(40) }),
        BinRunAction::Compress { solution: 7, budget: 140 }
    );
    assert_eq!(
        optimize_bpp(&mut run, BinRunEvent::Compressed { solution: 8 }),
        BinRunAction::Finish { solution: 8 }
    );
    let mut failed = BinRun::new(300, 100);
    assert_eq!(optimize_bpp(&mut failed, BinRunEvent::Started { ok: false }), BinRunAction::Fail);
}

#[test]
fn area_bound_is_infinite_for_a_single_bin() {
    assert_eq!(required_density_for_reduction(&vec![lay(1)], &vec![scalar(4e8)]), None);
    assert_eq!(
        required_density_for_reduction(&vec![lay(1), lay(2), lay(3)], &vec![scalar(5.0), scalar(9.0), scalar(4.0)]),
        Some(vec![1, 0]),
        "the smallest bin is the one that is given up"
    );
}

fn explore_poll(killed: bool, required: f32, layouts: Vec<LayoutState>) -> ExploreEvent {
    ExploreEvent::Poll { killed, required_density: scalar(required), layouts }
}

#[test]
fn an_exploration_closes_one_bin_after_the_other() {
    let mut run = BPExploration::new(BPConfig::new(10).expl_cfg, 0, 3);
    assert_eq!(
        exploration_phase(&mut run, explore_poll(false, 0.7, three_bins())),
        ExploreAction::Close { target: lay(2) }
    );
    assert_eq!(exploration_phase(&mut run, ExploreEvent::Closed(true)), ExploreAction::Separate);
    let success = ExploreEvent::Separated { loss: scalar(0.0), bar: scalar(0.0), solution: 1 };
    assert_eq!(exploration_phase(&mut run, success), ExploreAction::Accept);
    assert_eq!(run.feasible, vec![Found { solution: 0, n_bins: 3 }, Found { solution: 1, n_bins: 2 }]);
    assert_eq!(
        exploration_phase(&mut run, explore_poll(false, 2.0, three_bins())),
        ExploreAction::Finish,
        "the area bound rules the next reduction out"
    );
    assert_eq!(run.stop, Some(ExploreStop::AreaBound));
}

#[test]
fn area_bound_stops_exploration_quickly() {
    let mut run = BPExploration::new(BPConfig::new(10).expl_cfg, 0, 3);
    assert_eq!(exploration_phase(&mut run, explore_poll(false, 1.01, three_bins())), ExploreAction::Finish);
    assert_eq!(run.feasible.len(), 1, "no reduction should have been attempted");
}

#[test]
fn an_exploration_stops_for_each_of_its_reasons() {
    let mut config = BPConfig::new(10).expl_cfg;
    config.max_conseq_failed_attempts = Some(2);
    let fresh = || BPExploration::new(config, 0, 3);

    let mut late = fresh();
    exploration_phase(&mut late, explore_poll(true, 0.5, three_bins()));
    assert_eq!(late.stop, Some(ExploreStop::TimeLimit));

    let mut single = fresh();
    exploration_phase(&mut single, explore_poll(false, 0.5, vec![layout(1, 0.5, vec![])]));
    assert_eq!(single.stop, Some(ExploreStop::SingleBin));

    let mut stuck = fresh();
    exploration_phase(&mut stuck, explore_poll(false, 0.5, three_bins()));
    assert_eq!(exploration_phase(&mut stuck, ExploreEvent::Closed(false)), ExploreAction::Finish);
    assert_eq!(stuck.stop, Some(ExploreStop::CouldNotClose));

    let mut strikes = fresh();
    exploration_phase(&mut strikes, explore_poll(false, 0.5, three_bins()));
    exploration_phase(&mut strikes, ExploreEvent::Closed(true));
    let failure = |solution: usize| ExploreEvent::Separated { loss: scalar(3.0), bar: scalar(9.0), solution };
    assert_eq!(exploration_phase(&mut strikes, failure(1)), ExploreAction::Reject);
    assert_eq!(
        exploration_phase(&mut strikes, ExploreEvent::Sampled { index: 0 }),
        ExploreAction::Restart { n_disruptions: 1 }
    );
    exploration_phase(&mut strikes, explore_poll(false, 0.5, three_bins()));
    exploration_phase(&mut strikes, ExploreEvent::Closed(true));
    assert_eq!(exploration_phase(&mut strikes, failure(2)), ExploreAction::RejectAndFinish);
    assert_eq!(strikes.stop, Some(ExploreStop::StrikesExhausted));

    let mut config = config;
    config.stagnation_limit = Some(1);
    let mut stagnant = BPExploration::new(config, 0, 3);
    exploration_phase(&mut stagnant, explore_poll(false, 0.5, three_bins()));
    exploration_phase(&mut stagnant, ExploreEvent::Closed(true));
    let same = ExploreEvent::Separated { loss: scalar(3.0), bar: scalar(3.0), solution: 1 };
    assert_eq!(exploration_phase(&mut stagnant, same), ExploreAction::RejectAndFinish);
    assert_eq!(stagnant.stop, Some(ExploreStop::Stagnation));
}

#[test]
fn pack_down_moves_from_the_sparsest_bin_to_the_densest() {
    let mut run = PackDown::new(PackDownStrategy::Concentrate, 3, 0);
    let observed = || PackDownEvent::Observed { killed: false, layouts: three_bins() };
    let to = |item: u64, dst: u64| PackDownAction::Try(Move { src: lay(2), pk: pk(item), dst: lay(dst) });
    assert_eq!(pack_down(&mut run, observed()), to(2, 1), "the largest item goes first");
    let failed = PackDownEvent::Separated { loss: scalar(2.0), valid: false, solution: 1 };
    assert_eq!(pack_down(&mut run, failed), PackDownAction::Reject);
    assert_eq!(pack_down(&mut run, observed()), to(2, 3));
    let success = PackDownEvent::Separated { loss: scalar(0.0), valid: true, solution: 2 };
    assert_eq!(pack_down(&mut run, success), PackDownAction::Accept);
    assert_eq!((run.best, run.stats.n_moved), (2, 1));
    assert_eq!(pack_down(&mut run, PackDownEvent::Observed { killed: true, layouts: three_bins() }), PackDownAction::Finish);
    assert_eq!(run.best, 2);
}

#[test]
fn pack_down_offers_every_bin_as_a_source() {
    let mut run = PackDown::new(PackDownStrategy::Concentrate, 3, 0);
    let mut sources = vec![];
    loop {
        match pack_down(&mut run, PackDownEvent::Observed { killed: false, layouts: three_bins() }) {
            PackDownAction::Try(m) => {
                sources.push(m.src.rank);
                assert!(m.dst != m.src);
                assert_eq!(pack_down(&mut run, PackDownEvent::NotTried), PackDownAction::Skip);
            }
            action => {
                assert_eq!(action, PackDownAction::Finish);
                break;
            }
        }
    }
    assert!(!sources.contains(&rank(1)), "the densest bin has nowhere to move to");
    assert_eq!(run.stats.distinct_sources(), vec![lay(1), lay(2), lay(3)]);
    assert_eq!(run.stats.n_moved, 0);
}

#[test]
fn accepted_moves_cost_no_bin_its_turn() {
    let mut run = PackDown::new(PackDownStrategy::Concentrate, 3, 0);
    let mut bins = three_bins();
    let mut n_moves = 0;
    loop {
        match pack_down(&mut run, PackDownEvent::Observed { killed: false, layouts: bins.clone() }) {
            PackDownAction::Try(m) => {
                let success = n_moves < 2;
                let event = PackDownEvent::Separated { loss: scalar(0.0), valid: success, solution: 1 + n_moves };
                if success {
                    let src = find_layout(&bins, m.src).unwrap();
                    bins[src].items.retain(|p| p.key != m.pk);
                    n_moves += 1;
                    assert_eq!(pack_down(&mut run, event), PackDownAction::Accept);
                } else {
                    assert_eq!(pack_down(&mut run, event), PackDownAction::Reject);
                }
            }
            _ => break,
        }
    }
    assert!(run.finished);
    assert_eq!((run.best, run.stats.n_moved, run.stats.n_passes), (2, 2, 2));
    assert_eq!(run.stats.distinct_sources(), vec![lay(1), lay(2), lay(3)]);
}

#[test]
fn a_pass_that_is_cut_short_does_not_count() {
    let look = |run: &mut PackDown, killed: bool| {
        pack_down(run, PackDownEvent::Observed { killed, layouts: three_bins() })
    };
    let mut run = PackDown::new(PackDownStrategy::Concentrate, 3, 0);
    assert!(matches!(look(&mut run, false), PackDownAction::Try(_)));
    assert_eq!(look(&mut run, true), PackDownAction::Finish);
    assert_eq!(run.stats.n_passes, 0);

    let mut run = PackDown::new(PackDownStrategy::Concentrate, 3, 0);
    while let PackDownAction::Try(_) = look(&mut run, false) {
        assert_eq!(run.stats.n_passes, 0);
        pack_down(&mut run, PackDownEvent::NotTried);
    }
    assert!(run.finished);
    assert_eq!(run.stats.n_passes, 1, "the one pass was a full one");
}

#[test]
fn spread_goes_the_other_way() {
    let mut run = PackDown::new(PackDownStrategy::Spread, 3, 0);
    match pack_down(&mut run, PackDownEvent::Observed { killed: false, layouts: three_bins() }) {
        PackDownAction::Try(m) => assert_eq!((m.src, m.dst), (lay(1), lay(2))),
        other => panic!("unexpected {other:?}"),
    }
}

#[test]
fn a_compression_ends_with_an_idle_round() {
    let mut run = BPCompression::new(true, true, 0);
    let bins = || CompressEvent::Bins { killed: false, layouts: three_bins() };
    let poll = || CompressEvent::Poll { killed: false, n_layouts: 3 };
    assert_eq!(compression_phase(&mut run, poll()), CompressAction::PackDown);
    assert_eq!(
        compression_phase(&mut run, CompressEvent::PackedDown { n_moved: 0, solution: 9 }),
        CompressAction::Restore
    );
    let mut targets = vec![];
    for turn in 0..3 {
        match compression_phase(&mut run, bins()) {
            CompressAction::Consolidate { target, n_remaining } => {
                assert_eq!(n_remaining, 3 - turn);
                targets.push(target);
            }
            other => panic!("unexpected {other:?}"),
        }
        let result = if turn == 1 { Some(5) } else { None };
        let expected = if turn == 1 { CompressAction::Adopt } else { CompressAction::Restore };
        assert_eq!(compression_phase(&mut run, CompressEvent::Consolidated(result)), expected);
    }
    assert_eq!(targets, vec![lay(2), lay(3), lay(1)], "every bin gets its turn");
    assert_eq!(compression_phase(&mut run, bins()), CompressAction::NextRound, "this round made progress");
    compression_phase(&mut run, poll());
    compression_phase(&mut run, CompressEvent::PackedDown { n_moved: 0, solution: 9 });
    for _ in 0..3 {
        compression_phase(&mut run, bins());
        compression_phase(&mut run, CompressEvent::Consolidated(None));
    }
    assert_eq!(compression_phase(&mut run, bins()), CompressAction::Finish);
    assert_eq!((run.best, run.stage), (5, CompressStage::Done));
}

#[test]
fn a_compression_may_have_nothing_to_do() {
    let mut run = BPCompression::new(false, false, 3);
    assert_eq!(
        compression_phase(&mut run, CompressEvent::Poll { killed: false, n_layouts: 2 }),
        CompressAction::Look
    );
    assert_eq!(
        compression_phase(&mut run, CompressEvent::Bins { killed: false, layouts: three_bins() }),
        CompressAction::Finish
    );
    assert_eq!(run.best, 3);
}

#[test]
fn time_is_shared_fairly() {
    assert_eq!(fair_share(Some(90), 7, 3, 10), 30);
    assert_eq!(fair_share(Some(9), 7, 3, 10), 10, "no bin gets less than the minimum");
    assert_eq!(fair_share(None, 60, 3, 10), 20);
    assert_eq!(fair_share(Some(90), 7, 0, 10), 90);
    assert_eq!(short_term(Some(5), 8), 5);
    assert_eq!(short_term(None, 8), 8);
}

#[test]
fn only_complete_layouts_without_overlap_are_valid() {
    assert!(solution_is_valid(scalar(0.0), &vec![true, true], &vec![0, 0]));
    assert!(!solution_is_valid(scalar(0.1), &vec![true, true], &vec![0, 0]));
    assert!(!solution_is_valid(scalar(0.0), &vec![true, false], &vec![0, 0]));
    assert!(!solution_is_valid(scalar(0.0), &vec![true, true], &vec![0, 1]));
}

#[test]
fn a_consolidation_needs_items_room_and_time() {
    let go = |n: usize, used: f32, budget: u128| consolidate_layout(n, scalar(used), scalar(100.0), budget, 50);
    assert_eq!(go(1, 60.0, 30), Consolidation::TooFewItems);
    assert_eq!(go(2, 100.0, 30), Consolidation::FullWidth);
    assert_eq!(go(2, 60.0, 0), Consolidation::NoBudget);
    assert_eq!(go(2, 60.0, 30), Consolidation::Run { budget: 30 });
    assert_eq!(go(2, 60.0, 80), Consolidation::Run { budget: 50 });
    assert!(narrowed(Some(scalar(59.0)), scalar(59.9)));
    assert!(!narrowed(Some(scalar(60.0)), scalar(59.9)));
    assert!(!narrowed(None, scalar(59.9)));
    assert!(accepts_write_back(true, scalar(0.0)));
    assert!(!accepts_write_back(true, scalar(1.0)));
    assert!(!accepts_write_back(false, scalar(0.0)));
}

#[test]
fn a_bin_goes_through_a_strip_and_comes_back_whole() {
    let items = vec![item(1, 7, 5.0), item(2, 3, 5.0), item(3, 7, 5.0)];
    let sub = build_sp_subproblem(&items);
    assert_eq!((sub.global_ids, sub.demands, sub.local_ids), (vec![7, 3], vec![2, 1], vec![0, 1, 0]));
    let back = write_back(&items, 4, &vec![1, 0, 0]).unwrap();
    assert_eq!(back.removals, vec![pk(1), pk(2), pk(3)]);
    assert_eq!(
        back.placements,
        vec![(3, WriteTarget::Closed { bin_id: 4 }), (7, WriteTarget::Open), (7, WriteTarget::Open)]
    );
    assert!(write_back(&items, 4, &vec![1, 0]).is_none());
}

#[test]
fn free_bands_lie_between_the_items() {
    let spans = vec![(scalar(20.0), scalar(30.0)), (scalar(5.0), scalar(10.0)), (scalar(8.0), scalar(12.0))];
    let bands: Vec<(f32, f32)> =
        widest_gap(&spans, scalar(0.0), scalar(60.0)).iter().map(|b| (value(b.0), value(b.1))).collect();
    assert_eq!(bands, vec![(0.0, 5.0), (12.0, 20.0), (30.0, 60.0)]);
}

#[test]
fn a_move_is_hopeless_only_where_nothing_can_fit() {
    let hopeless = |extent: Option<f32>, free: f32| {
        placement_is_hopeless(extent.map(scalar), scalar(10.0), scalar(12.0), scalar(free), scalar(50.0))
    };
    assert!(hopeless(Some(15.0), 40.0));
    assert!(!hopeless(Some(11.0), 40.0), "a band is wide enough");
    assert!(!hopeless(Some(15.0), 60.0), "the free area is large enough");
    assert!(!hopeless(None, 40.0));
}

#[test]
fn the_first_open_layout_with_a_place_is_found() {
    let searched = |room: &[bool]| {
        let (mut last, mut n_searched) = (None, 0);
        loop {
            match find_placement_in_open_layouts(room.len(), last) {
                OpenSearch::Search(p) => {
                    n_searched += 1;
                    last = Some((p, room[p]));
                }
                end => return (end, n_searched),
            }
        }
    };
    assert_eq!(searched(&[]), (OpenSearch::Nowhere, 0));
    assert_eq!(searched(&[false, true, true]), (OpenSearch::Found(1), 2));
    assert_eq!(searched(&[false, false]), (OpenSearch::Nowhere, 2));
}

#[test]
fn constructions_run_as_asked_for() {
    let all = [Constructive::Best, Constructive::Lbf, Constructive::Shelf];
    assert_eq!(all.map(runs_lbf), [true, true, false]);
    assert_eq!(all.map(|c| runs_shelf(c, false)), [true, false, true]);
    assert_eq!(all.map(|c| runs_shelf(c, true)), [false, false, false]);
}

#[test]
fn the_books_follow_a_moved_item() {
    let mut bins = three_bins();
    let mut books = rebuild_trackers(&bins);
    assert_eq!(follow_move(&mut books, lay(2), lay(2), &bins), MoveSync::Register);
    assert_eq!(books.get(lay(3).rank), Some(1));
    // A lone item was taken out, which closed its bin, and put back, which opened another one there.
    let reopened = LayKey { rank: lay(3).rank + 2 };
    bins[2].key = reopened;
    assert_eq!(follow_move(&mut books, lay(3), reopened, &bins), MoveSync::Rebuild);
    assert_eq!((books.get(lay(3).rank), books.get(reopened.rank)), (None, Some(1)));
    assert_eq!(books.get(lay(1).rank), Some(bins[0].items.len()));
}

#[test]
fn a_whole_bin_run_returns_only_what_was_accepted() {
    // Handles 0, 2 and 4 stand for feasible solutions, the odd ones for failed attempts.
    let mut run = BinRun::new(300, 100);
    optimize_bpp(&mut run, BinRunEvent::Started { ok: true });

    let mut exploration = BPExploration::new(BPConfig::new(10).expl_cfg, 0, 3);
    let separated = |loss: f32, solution: usize| ExploreEvent::Separated {
        loss: scalar(loss),
        bar: scalar(1.0),
        solution,
    };
    exploration_phase(&mut exploration, explore_poll(false, 0.5, three_bins()));
    exploration_phase(&mut exploration, ExploreEvent::Closed(true));
    assert_eq!(exploration_phase(&mut exploration, separated(3.0, 1)), ExploreAction::Reject);
    exploration_phase(&mut exploration, ExploreEvent::Sampled { index: 0 });
    exploration_phase(&mut exploration, explore_poll(false, 0.5, three_bins()));
    exploration_phase(&mut exploration, ExploreEvent::Closed(true));
    assert_eq!(exploration_phase(&mut exploration, separated(0.0, 2)), ExploreAction::Accept);
    exploration_phase(&mut exploration, explore_poll(true, 0.5, three_bins()));
    let best = exploration.feasible.last().unwrap().solution;
    assert_eq!(best, 2);
    let explored = BinRunEvent::Explored { solution: best, remaining: None };
    assert_eq!(optimize_bpp(&mut run, explored), BinRunAction::Compress { solution: 2, budget: 100 });

    let mut compression = BPCompression::new(true, true, best);
    let bins = || CompressEvent::Bins { killed: false, layouts: three_bins() };
    compression_phase(&mut compression, CompressEvent::Poll { killed: false, n_layouts: 3 });
    compression_phase(&mut compression, CompressEvent::PackedDown { n_moved: 0, solution: 3 });
    assert_eq!(compression.best, 2, "a pack-down without a move changes nothing");
    compression_phase(&mut compression, bins());
    compression_phase(&mut compression, CompressEvent::Consolidated(None));
    compression_phase(&mut compression, bins());
    compression_phase(&mut compression, CompressEvent::Consolidated(Some(4)));
    let finished = optimize_bpp(&mut run, BinRunEvent::Compressed { solution: compression.best });
    assert_eq!(finished, BinRunAction::Finish { solution: 4 });
}
