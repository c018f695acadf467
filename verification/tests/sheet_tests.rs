//! Strips on real layouts: the walls of sheets, the books on them, the moves over sheets, and deadlines.
use anyhow::Result;
use jagua_rs::collision_detection::hazards::collector::{BasicHazardCollector, HazardCollector};
use jagua_rs::collision_detection::hazards::filter::NoFilter;
use jagua_rs::collision_detection::hazards::HazardEntity;
use jagua_rs::collision_detection::CDEConfig;
use jagua_rs::entities::{Container, InferiorQualityZone, Instance, Layout, PItemKey as PlacedKey};
use jagua_rs::geometry::fail_fast::SPSurrogateConfig;
use jagua_rs::geometry::geo_traits::TransformableFrom;
use jagua_rs::geometry::primitives::{Rect, SPolygon};
use jagua_rs::geometry::shape_modification::ShapeModifyMode;
use jagua_rs::geometry::{DTransformation, OriginalShape};
use jagua_rs::io::ext_repr::{ExtItem as ExtBaseItem, ExtSPolygon, ExtShape};
use jagua_rs::io::import::Importer;
use jagua_rs::probs::spp::entities::{SPInstance, SPPlacement, SPProblem, SPSolution};
use jagua_rs::probs::spp::io::ext_repr::{ExtItem, ExtSPInstance};
use rand::rngs::Xoshiro256PlusPlus;
use rand::{RngExt, SeedableRng};
use slotmap::Key;
use sparrow::config::{SheetConfig, SparrowConfig};
use sparrow::optimizer::bpp::layouts::PItemKey;
use sparrow::optimizer::explore::{exploration_phase, SPExploration, StripAction, StripEvent};
use sparrow::optimizer::run::{repair_walled_warm_start, WallRepairAction};
use sparrow::optimizer::separator::{
    separate, SampleConfig, Separation, SeparationAction, SeparationEvent, SeparatorConfig,
};
use sparrow::optimizer::sheets::{
    compact_sheets_left, has_thickness, pack_down_sheets, scatter_and_shrink, sheet_stats, shrink_bbox_for_item, straddling_items,
    straddling_report, try_shift, used_width, wall_intervals, BandAction, BandEvent, BandPackDown, BandStage, Extent,
    Relocation, SheetItem, SheetStats, Slide, SlideAction, SlideEvent, SlideItem, SlideStage, StripItem, Wall,
};
use sparrow::quantify::tracker::{CollisionTracker, Hazard, NextWeight};
use sparrow::scalar::Scalar;
use sparrow::util::ctrlc_terminator::CtrlCTerminator;
use std::time::{Duration, Instant};

fn scalar(v: f32) -> Scalar {
    Scalar { bits: v.to_bits() }
}

fn value(s: Scalar) -> f32 {
    f32::from_bits(s.bits)
}

/// The key of a placed item, as the library holds it: the slot in the upper half, the version below.
fn key_of(pk: PlacedKey) -> PItemKey {
    PItemKey { rank: pk.data().as_ffi().rotate_left(32) }
}

fn instance(demand: u64) -> Result<SPInstance> {
    squares(900.0, demand, 1000.0)
}

/// Squares of this side length, for a strip of this height.
fn squares(side: f32, demand: u64, strip_height: f32) -> Result<SPInstance> {
    let ext = ExtSPInstance {
        name: "sheets".into(),
        items: vec![ExtItem {
            base: ExtBaseItem {
                id: 0,
                allowed_orientations: Some(vec![0.0]),
                shape: ExtShape::SimplePolygon(ExtSPolygon(vec![
                    (0.0, 0.0),
                    (side, 0.0),
                    (side, side),
                    (0.0, side),
                ])),
                min_quality: None,
            },
            demand,
        }],
        strip_height,
    };
    let cde_config = CDEConfig {
        quadtree_depth: 4,
        cd_threshold: 16,
        item_surrogate_config: SPSurrogateConfig {
            n_pole_limits: [(64, 0.0), (16, 0.8), (8, 0.9)],
            n_ff_poles: 1,
            n_ff_piers: 0,
        },
    };
    let importer = Importer::new(cde_config, Some(0.001), None, Some((0.01, 0.01)));
    jagua_rs::probs::spp::io::import_instance(&importer, &ext)
}

fn sheet(width: f32, gap: f32) -> SheetConfig {
    SheetConfig::new(scalar(width), scalar(gap), false)
}

fn pitch(sc: &SheetConfig) -> f32 {
    value(sc.width) + value(sc.gap)
}

fn n_sheets(width: f32, sc: &SheetConfig) -> usize {
    (width / pitch(sc)).ceil().max(1.0) as usize
}

fn walls(width: f32, sc: &SheetConfig) -> Vec<(f32, f32)> {
    let boundaries = (1..=n_sheets(width, sc))
        .map(|k| {
            let x_max = k as f32 * pitch(sc);
            Wall { x_min: scalar(x_max - value(sc.gap)), x_max: scalar(x_max) }
        })
        .collect();
    wall_intervals(&boundaries, scalar(width)).iter().map(|w| (value(w.x_min), value(w.x_max))).collect()
}

/// A strip of this width with a hole at every wall.
fn walled_strip(instance: &SPInstance, width: f32, sc: &SheetConfig) -> SPProblem {
    let mut prob = SPProblem::new(instance.clone());
    prob.change_strip_width(width);
    let strip = prob.strip;
    let original = |rect: Rect, mode: ShapeModifyMode| OriginalShape {
        shape: SPolygon::from(rect),
        pre_transform: DTransformation::empty(),
        modify_mode: mode,
        modify_config: strip.shape_modify_config,
    };
    let shapes: Vec<OriginalShape> = walls(width, sc)
        .into_iter()
        .filter(|(lo, hi)| has_thickness(Wall { x_min: scalar(*lo), x_max: scalar(*hi) }))
        .map(|(lo, hi)| {
            original(Rect::try_new(lo, -1.0, hi, strip.fixed_height + 1.0).unwrap(), ShapeModifyMode::Inflate)
        })
        .collect();
    let zones = if shapes.is_empty() { vec![] } else { vec![InferiorQualityZone::new(0, shapes).unwrap()] };
    let outer = original(Rect::try_new(0.0, 0.0, width, strip.fixed_height).unwrap(), ShapeModifyMode::Deflate);
    let container = Container::new(width.to_bits() as usize, outer, zones, strip.cde_config).unwrap();
    prob.layout.swap_container(container);
    prob
}

fn n_holes_of(layout: &Layout) -> usize {
    layout.container.quality_zones[0].as_ref().map_or(0, |z| z.shapes_cd.len())
}

fn centred_on(instance: &SPInstance, x: f32) -> SPPlacement {
    SPPlacement {
        item_id: 0,
        d_transf: DTransformation::new(0.0, (x, instance.base_strip.fixed_height / 2.0)),
    }
}

fn overlap(a: &Rect, b: &Rect) -> f32 {
    let w = a.x_max.min(b.x_max) - a.x_min.max(b.x_min);
    let h = a.y_max.min(b.y_max) - a.y_min.max(b.y_min);
    w.max(0.0) * h.max(0.0)
}

/// What a placed item collides with, each with the overlap of the bounding boxes as its loss.
fn hazards_of(layout: &Layout, pk: PlacedKey) -> Vec<Hazard> {
    let pi = &layout.placed_items[pk];
    let mut collector = BasicHazardCollector::new();
    layout.cde().collect_poly_collisions(&pi.shape, &mut collector);
    collector.remove_by_entity(&HazardEntity::from((pk, pi)));
    collector
        .iter()
        .map(|(_, h)| match h {
            HazardEntity::PlacedItem { pk: other, .. } => Hazard::PlacedItem {
                key: key_of(*other),
                loss: scalar(overlap(&pi.shape.bbox, &layout.placed_items[*other].shape.bbox)),
            },
            HazardEntity::Exterior => Hazard::Exterior { loss: scalar(1.0) },
            HazardEntity::Hole { idx } => {
                let zone = layout.container.quality_zones[0].as_ref().unwrap();
                Hazard::Hole { index: *idx, loss: scalar(overlap(&pi.shape.bbox, &zone.shapes_cd[*idx].bbox)) }
            }
            HazardEntity::InferiorQualityZone { .. } => unreachable!("only holes are used"),
        })
        .collect()
}

fn tracker_of(layout: &Layout) -> CollisionTracker {
    let keys: Vec<PlacedKey> = layout.placed_items.keys().collect();
    let mut ct = CollisionTracker::new(keys.iter().map(|k| key_of(*k)).collect(), n_holes_of(layout));
    for pk in keys {
        ct.store_losses_for_item(key_of(pk), &hazards_of(layout, pk));
    }
    ct
}

fn loss_of(ct: &CollisionTracker, key: PItemKey) -> f32 {
    ct.get_entries(key).iter().map(|e| value(e.loss)).sum()
}

fn weighted_loss_of(ct: &CollisionTracker, key: PItemKey) -> f32 {
    ct.get_entries(key).iter().map(|e| value(e.loss) * value(e.weight)).sum()
}

fn total_loss(ct: &CollisionTracker) -> f32 {
    ct.get_all_entries().iter().map(|e| value(e.loss)).sum()
}

/// The largest weight.
const WEIGHT_MAX: f32 = 1e8;

/// Offers every entry its grown weight, by at most 2 and at least 1.2, and its decayed one.
fn reweigh(ct: &mut CollisionTracker) {
    let max_loss = value(ct.max_loss());
    let weights = ct
        .get_all_entries()
        .iter()
        .map(|e| NextWeight {
            grown: scalar(value(e.weight) * (1.2 + (2.0 - 1.2) * (value(e.loss) / max_loss))),
            decayed: scalar(value(e.weight) * 0.95),
        })
        .collect();
    ct.update_weights(&weights, scalar(WEIGHT_MAX));
}

fn stats_of(sol: &SPSolution, sc: &SheetConfig) -> Vec<SheetStats> {
    let n = n_sheets(sol.strip_width(), sc);
    let on = |x: f32| ((x / pitch(sc)).floor().max(0.0) as usize).min(n - 1);
    let items = sol
        .layout_snapshot
        .placed_items
        .values()
        .map(|pi| SheetItem { item_id: pi.item_id, left: on(pi.shape.bbox.x_min), right: on(pi.shape.bbox.x_max) })
        .collect();
    sheet_stats(n, &items)
}

#[test]
fn walls_exist_and_block_placements() -> Result<()> {
    let instance = instance(1)?;
    let sc = sheet(3000.0, 20.0);
    let prob = walled_strip(&instance, 10_000.0, &sc);

    assert_eq!(n_sheets(prob.strip_width(), &sc), 4, "sanity: 10000mm at a 3020mm pitch is 4 sheets");
    let walls = walls(prob.strip_width(), &sc);
    assert_eq!(walls.len(), 3, "only the walls inside the strip are materialised");
    assert_eq!(walls[0], (3000.0, 3020.0));
    assert_eq!(n_holes_of(&prob.layout), walls.len(), "every wall must be a Hole hazard");
    let holes = prob
        .layout
        .cde()
        .hazards_map
        .values()
        .filter(|h| matches!(h.entity, HazardEntity::Hole { .. }))
        .count();
    assert_eq!(holes, walls.len(), "CDE must contain one Hole hazard per wall");

    let item = instance.item(0);
    let (x_min, x_max) = walls[0];
    let mut buff = item.shape_cd.as_ref().clone();
    buff.transform_from(&item.shape_cd, &centred_on(&instance, (x_min + x_max) / 2.0).d_transf.compose());
    assert!(
        prob.layout.cde().detect_poly_collision(&buff, &NoFilter),
        "an item centred on a wall must collide with it"
    );
    buff.transform_from(&item.shape_cd, &centred_on(&instance, x_min / 2.0).d_transf.compose());
    assert!(
        !prob.layout.cde().detect_poly_collision(&buff, &NoFilter),
        "an item in the middle of an empty sheet must not collide"
    );
    Ok(())
}

#[test]
fn tracker_accounts_for_hole_losses() -> Result<()> {
    let instance = instance(1)?;
    let sc = sheet(3000.0, 20.0);
    let mut prob = walled_strip(&instance, 10_000.0, &sc);
    let (x_min, x_max) = walls(prob.strip_width(), &sc)[0];
    let pk = prob.place_item(centred_on(&instance, (x_min + x_max) / 2.0));

    let ct = tracker_of(&prob.layout);
    assert_eq!(ct.n_holes, walls(prob.strip_width(), &sc).len());
    assert!(
        value(ct.get_hole_loss(key_of(pk), 0)) > 0.0,
        "the item straddling wall 0 must have a hole loss"
    );
    assert!(loss_of(&ct, key_of(pk)) > 0.0, "the total loss must include the hole loss");
    assert!(total_loss(&ct) > 0.0);
    assert!(value(ct.get_hole_loss(key_of(pk), 1)) == 0.0);
    assert!(value(ct.get_container_loss(key_of(pk))) == 0.0);
    Ok(())
}

#[test]
fn no_sheet_means_no_holes() -> Result<()> {
    let instance = instance(1)?;
    let mut prob = SPProblem::new(instance.clone());
    prob.place_item(SPPlacement { item_id: 0, d_transf: DTransformation::new(0.0, (500.0, 500.0)) });

    let ct = tracker_of(&prob.layout);
    assert_eq!(n_holes_of(&prob.layout), 0);
    assert_eq!(ct.n_holes, 0);
    assert!(ct.holes.iter().all(|row| row.is_empty()), "no allocation for holes in plain strip mode");
    Ok(())
}

#[test]
fn hole_weights_participate_in_gls() -> Result<()> {
    let instance = instance(1)?;
    let sc = sheet(3000.0, 20.0);
    let mut prob = walled_strip(&instance, 10_000.0, &sc);
    let (x_min, x_max) = walls(prob.strip_width(), &sc)[0];
    let pk = key_of(prob.place_item(centred_on(&instance, (x_min + x_max) / 2.0)));

    let mut ct = tracker_of(&prob.layout);
    let w_before = value(ct.get_hole_weight(pk, 0));
    reweigh(&mut ct);
    let w_after = value(ct.get_hole_weight(pk, 0));
    assert!(w_after > w_before, "a colliding hole entry's weight must grow: {w_before} -> {w_after}");
    assert_eq!(w_after, 2.0, "the worst collision grows by the largest factor");
    assert_eq!(value(ct.get_hole_weight(pk, 1)), 1.0, "an entry without a collision keeps its weight");
    assert!(weighted_loss_of(&ct, pk) >= loss_of(&ct, pk) * w_before);

    for _ in 0..500 {
        reweigh(&mut ct);
    }
    assert!(value(ct.get_hole_weight(pk, 0)).is_finite(), "hole weights must stay clamped/finite");
    assert_eq!(value(ct.get_hole_weight(pk, 0)), WEIGHT_MAX, "and they do reach the maximum");
    assert!(ct.get_all_entries().iter().all(|e| (1.0..=WEIGHT_MAX).contains(&value(e.weight))));
    assert!(weighted_loss_of(&ct, pk).is_finite());
    Ok(())
}

#[test]
fn collector_reports_hole_hazards() -> Result<()> {
    let instance = instance(1)?;
    let sc = sheet(3000.0, 20.0);
    let mut prob = walled_strip(&instance, 10_000.0, &sc);
    let (x_min, x_max) = walls(prob.strip_width(), &sc)[0];
    let pk = prob.place_item(centred_on(&instance, (x_min + x_max) / 2.0));
    assert!(
        hazards_of(&prob.layout, pk).iter().any(|h| matches!(h, Hazard::Hole { index: 0, .. })),
        "the collector must report the wall as a Hole hazard"
    );
    Ok(())
}

#[test]
fn walls_survive_save_restore() -> Result<()> {
    let instance = instance(1)?;
    let sc = sheet(3000.0, 20.0);
    let mut prob = walled_strip(&instance, 10_000.0, &sc);
    let expected = n_holes_of(&prob.layout);
    assert!(expected > 0);

    let snapshot = prob.save();
    assert_eq!(
        snapshot.layout_snapshot.container.quality_zones[0].as_ref().map_or(0, |z| z.shapes_cd.len()),
        expected,
    );
    prob.restore(&snapshot);
    assert_eq!(n_holes_of(&prob.layout), expected, "same-width restore must keep the walls");

    let mut other = walled_strip(&instance, 5000.0, &sc);
    other.restore(&snapshot);
    assert_eq!(n_holes_of(&other.layout), expected, "cross-width restore must keep the walls");
    Ok(())
}

#[test]
fn wall_geometry_matches_the_coordinate_mapping() {
    let sc = sheet(2000.0, 20.0);
    assert_eq!(pitch(&sc), 2020.0);

    assert_eq!(n_sheets(1500.0, &sc), 1);
    assert!(walls(1500.0, &sc).is_empty());

    assert_eq!(n_sheets(2500.0, &sc), 2);
    let w = walls(2500.0, &sc);
    assert_eq!(w.len(), 1);
    assert_eq!(w[0], (2000.0, 2020.0));

    assert_eq!(n_sheets(2000.0, &sc), 1);
    assert!(walls(2000.0, &sc).is_empty());

    for (x, k, x_local) in [(0.0, 0, 0.0), (1999.0, 0, 1999.0), (2020.0, 1, 0.0), (3000.0, 1, 980.0)] {
        assert_eq!((x / pitch(&sc)).floor() as usize, k, "sheet index of x={x}");
        assert!((x - k as f32 * pitch(&sc) - x_local).abs() < 1e-3, "local x of x={x}");
    }
}

#[test]
fn a_wall_without_thickness_is_not_put_up() -> Result<()> {
    let sc = sheet(2000.0, 0.0);
    assert_eq!(walls(5000.0, &sc), vec![(2000.0, 2000.0), (4000.0, 4000.0)]);
    let instance = instance(1)?;
    assert_eq!(n_holes_of(&walled_strip(&instance, 5000.0, &sc).layout), 0);
    assert_eq!(n_holes_of(&walled_strip(&instance, 5000.0, &sheet(2000.0, 20.0)).layout), 2);
    Ok(())
}

#[test]
fn sheet_stats_reports_straddling_items() -> Result<()> {
    let instance = instance(2)?;
    let sc = sheet(3000.0, 20.0);
    let mut prob = walled_strip(&instance, 10_000.0, &sc);
    prob.place_item(centred_on(&instance, 1200.0));
    let (x_min, x_max) = walls(prob.strip_width(), &sc)[0];
    prob.place_item(centred_on(&instance, (x_min + x_max) / 2.0));

    let stats = stats_of(&prob.save(), &sc);
    let n_straddling: usize = stats.iter().map(|s| s.straddling_item_ids.len()).sum();
    assert_eq!(
        n_straddling, 1,
        "the item sitting on wall 0 must be reported as straddling, not clamped into a sheet"
    );
    assert_eq!(stats.iter().map(|s| s.members.len()).sum::<usize>(), 2, "every item is still counted once");
    assert_eq!(straddling_items(&stats), vec![0]);
    assert_eq!(straddling_report(&stats), "0@sheet1");

    let mut clean = walled_strip(&instance, 10_000.0, &sc);
    clean.place_item(centred_on(&instance, 1200.0));
    let clean_stats = stats_of(&clean.save(), &sc);
    assert_eq!(
        clean_stats.iter().map(|s| s.straddling_item_ids.len()).sum::<usize>(),
        0,
        "a wall-clear layout must report no straddling items"
    );
    assert_eq!(straddling_report(&clean_stats), "");
    Ok(())
}

#[test]
fn straddlers_are_listed_sheet_by_sheet() {
    let stats = sheet_stats(
        3,
        &vec![
            SheetItem { item_id: 7, left: 1, right: 2 },
            SheetItem { item_id: 5, left: 0, right: 0 },
            SheetItem { item_id: 4, left: 0, right: 1 },
        ],
    );
    assert_eq!(stats.iter().map(|s| s.members.clone()).collect::<Vec<_>>(), vec![vec![1], vec![2], vec![0]]);
    assert_eq!(straddling_items(&stats), vec![4, 7]);
    assert_eq!(straddling_report(&stats), "4@sheet1, 7@sheet2");
}

#[test]
fn exploration_does_not_seed_an_infeasible_start_as_feasible() -> Result<()> {
    let instance = instance(1)?;
    let sc = sheet(3000.0, 20.0);
    let mut prob = walled_strip(&instance, 10_000.0, &sc);
    let (x_min, x_max) = walls(prob.strip_width(), &sc)[0];
    prob.place_item(centred_on(&instance, (x_min + x_max) / 2.0));
    let loss = total_loss(&tracker_of(&prob.layout));
    assert!(loss > 0.0, "sanity: the start really is infeasible");

    let mut config = SparrowConfig::default();
    config.apply_sheet(Some(sc));
    let mut run = SPExploration::new(config.expl_cfg, scalar(loss), 0, scalar(10_000.0));
    assert!(run.feasible.is_empty());
    assert_eq!(exploration_phase(&mut run, StripEvent::Poll { killed: true }), StripAction::Finish);
    assert!(run.feasible.is_empty(), "the start is not handed out as a feasible solution");
    Ok(())
}

#[test]
fn used_width_is_the_farthest_reach() {
    assert_eq!(value(used_width(&vec![])), 0.0);
    assert_eq!(value(used_width(&vec![scalar(12.0), scalar(-3.0), scalar(40.5), scalar(7.0)])), 40.5);
}

#[test]
fn the_shrink_box_covers_every_rotation() {
    let extent = |a: f32, b: f32, c: f32, d: f32| Extent {
        x_min: scalar(a),
        y_min: scalar(b),
        x_max: scalar(c),
        y_max: scalar(d),
    };
    let b = shrink_bbox_for_item(&vec![extent(-1.0, -4.0, 1.0, 4.0), extent(-4.0, -1.0, 4.0, 1.0)]);
    assert_eq!((value(b.x_min), value(b.y_min), value(b.x_max), value(b.y_max)), (-4.0, -4.0, 4.0, 4.0));
}

fn separator_config() -> SeparatorConfig {
    SeparatorConfig {
        iter_no_imprv_limit: 100,
        strike_limit: 3,
        n_workers: 2,
        sample_config: SampleConfig { n_container_samples: 1, n_focussed_samples: 1, n_coord_descents: 1 },
    }
}

#[test]
fn a_cut_scatters_exactly_what_sticks_out() {
    let item = |rank: u64, area: f32, x_max: f32| StripItem {
        key: PItemKey { rank },
        item_id: rank as usize,
        area: scalar(area),
        x_max: scalar(x_max),
    };
    let items = vec![item(1, 10.0, 5000.0), item(3, 30.0, 1000.0), item(5, 20.0, 4500.0), item(7, 10.0, 4100.0)];
    let cut = scatter_and_shrink(&items, scalar(4000.0), 2, separator_config());
    let moved = |rank: u64, sheet: usize, on_last: bool| Relocation {
        key: PItemKey { rank },
        item_id: rank as usize,
        sheet,
        on_last,
    };
    assert_eq!(cut.relocations, vec![moved(5, 0, false), moved(1, 1, true), moved(7, 0, false)]);
    assert_eq!(cut.separator_config.strike_limit, 8);
    assert_eq!(cut.separator_config.iter_no_imprv_limit, 400);
    assert_eq!(cut.separator_config.n_workers, 2);

    let none = scatter_and_shrink(&items, scalar(5000.0), 2, separator_config());
    assert!(none.relocations.is_empty());
    assert_eq!(none.separator_config, separator_config());
}

#[test]
fn the_pack_down_over_sheets_keeps_its_best_solution() {
    let mut run = BandPackDown::new(0, 3);
    let poll = BandEvent::Poll { killed: false, used: scalar(600.0) };
    assert_eq!(pack_down_sheets(&mut run, poll), BandAction::Cut { halvings: 0 });
    assert_eq!(pack_down_sheets(&mut run, BandEvent::Cut { loss: scalar(0.0), solution: 1 }), BandAction::Adopt);
    assert_eq!(pack_down_sheets(&mut run, poll), BandAction::Cut { halvings: 0 });
    assert_eq!(pack_down_sheets(&mut run, BandEvent::Cut { loss: scalar(3.0), solution: 2 }), BandAction::Restore);
    assert_eq!(pack_down_sheets(&mut run, poll), BandAction::Cut { halvings: 1 });
    assert_eq!(pack_down_sheets(&mut run, BandEvent::Cut { loss: scalar(2.0), solution: 3 }), BandAction::Restore);
    assert_eq!(pack_down_sheets(&mut run, poll), BandAction::Finish);
    assert_eq!((run.best, run.n_accepted, run.stage), (1, 1, BandStage::Done));
}

#[test]
fn the_pack_down_over_sheets_stops_at_a_thin_band() {
    let mut run = BandPackDown::new(4, 2);
    assert_eq!(
        pack_down_sheets(&mut run, BandEvent::Poll { killed: false, used: scalar(1.0) }),
        BandAction::Finish
    );
    assert_eq!(BandPackDown::new(4, 1).stage, BandStage::Done);
    let mut killed = BandPackDown::new(4, 2);
    assert_eq!(
        pack_down_sheets(&mut killed, BandEvent::Poll { killed: true, used: scalar(900.0) }),
        BandAction::Finish
    );
    assert_eq!(killed.best, 4);
}

#[test]
fn compaction_goes_from_the_left_and_spares_the_last_sheet() {
    let item = |rank: u64, sheet: usize, x: f32| SlideItem { key: PItemKey { rank }, sheet, x_min: scalar(x) };
    let items = vec![item(1, 1, 2100.0), item(3, 0, 500.0), item(5, 0, 20.0), item(7, 1, 2050.0)];
    let order: Vec<u64> = compact_sheets_left(&items, 2).iter().map(|k| k.rank).collect();
    assert_eq!(order, vec![5, 3]);
    let order: Vec<u64> = compact_sheets_left(&items, 3).iter().map(|k| k.rank).collect();
    assert_eq!(order, vec![5, 3, 7, 1]);
    assert!(compact_sheets_left(&items, 1).is_empty());
}

/// Slides an item left by bisection: it is free up to a shift of `free`.
fn slide(max_shift: f32, free: f32) -> (Slide, f32) {
    let mut run = Slide::new(scalar(max_shift));
    let (mut lo, mut hi) = (0.0f32, max_shift);
    let mut action = SlideAction::Measure;
    let mut at = 0.0f32;
    loop {
        match action {
            SlideAction::Try { shift } => {
                let ok = value(shift) <= free;
                if ok {
                    lo = lo.max(value(shift));
                    at = value(shift);
                } else {
                    hi = value(shift);
                    at = 0.0;
                }
                action = try_shift(&mut run, SlideEvent::Tried { free: ok });
            }
            SlideAction::Measure => {
                let open = hi - lo > 0.5;
                action = try_shift(&mut run, SlideEvent::Range { open, middle: scalar((lo + hi) / 2.0) });
            }
            SlideAction::Finish => return (run, at),
        }
    }
}

#[test]
fn a_slide_stops_short_of_what_blocks_it() {
    for (max_shift, free) in [(100.0, 63.0), (100.0, 100.0), (80.0, 0.1)] {
        let (run, at) = slide(max_shift, free);
        assert_eq!(run.stage, SlideStage::Done);
        assert!((0.0..=free).contains(&at), "an item may not be shifted further than it is free");
        assert_eq!(run.moved(), at > 0.0, "the count of moved items must be truthful");
        assert_eq!(run.at.map(value).unwrap_or(0.0), at);
        if free > 0.5 {
            assert!(free - at <= 0.5, "the shift must come close to what is free: {at} of {free}");
        }
    }
}

/// Slides a placed item to the left as far as the layout stays feasible. Whether it moved is returned.
fn slide_placed(prob: &mut SPProblem, pk: PlacedKey, max_shift: f32) -> bool {
    let (item_id, dt) = (prob.layout.placed_items[pk].item_id, prob.layout.placed_items[pk].d_transf);
    let (x, y) = dt.translation();
    let mut pk = pk;
    let mut run = Slide::new(scalar(max_shift));
    let mut action = SlideAction::Measure;
    loop {
        let event = match action {
            SlideAction::Measure => {
                let (lo, hi) = (run.best.map_or(0.0, value), value(run.limit));
                SlideEvent::Range { open: hi - lo > 0.5, middle: scalar((lo + hi) / 2.0) }
            }
            SlideAction::Try { shift } => {
                prob.remove_item(pk);
                let d_transf = DTransformation::new(dt.rotation(), (x - value(shift), y));
                pk = prob.place_item(SPPlacement { item_id, d_transf });
                let free = prob.layout.is_feasible();
                if !free {
                    prob.remove_item(pk);
                    pk = prob.place_item(SPPlacement { item_id, d_transf: dt });
                }
                SlideEvent::Tried { free }
            }
            SlideAction::Finish => return run.moved(),
        };
        action = try_shift(&mut run, event);
    }
}

/// The left edges of the placed items, in order.
fn left_edges(prob: &SPProblem) -> Vec<f32> {
    let mut edges: Vec<f32> = prob.layout.placed_items.values().map(|pi| pi.shape.bbox.x_min).collect();
    edges.sort_by(f32::total_cmp);
    edges
}

fn clear_of_walls(prob: &SPProblem, sc: &SheetConfig) -> bool {
    let walls = walls(prob.strip_width(), sc);
    prob.layout
        .placed_items
        .values()
        .all(|pi| walls.iter().all(|(lo, hi)| pi.shape.bbox.x_max <= *lo || pi.shape.bbox.x_min >= *hi))
}

#[test]
fn compact_sheets_completes_and_only_moves_items_left() -> Result<()> {
    let instance = instance(6)?;
    let sc = sheet(3000.0, 20.0);
    let mut prob = walled_strip(&instance, 9000.0, &sc);
    for x in [1000.0, 2300.0, 3480.0, 4600.0, 5560.0, 7500.0] {
        prob.place_item(centred_on(&instance, x));
    }
    assert!(prob.layout.is_feasible(), "sanity: the start is feasible");
    assert!(clear_of_walls(&prob, &sc));
    let n = n_sheets(prob.strip_width(), &sc);
    assert_eq!(n, 3, "sanity: the compaction only does anything with at least 2 sheets");
    let before = left_edges(&prob);

    let sheet_of = |x: f32| ((x / pitch(&sc)).floor() as usize).min(n - 1);
    let items: Vec<SlideItem> = prob
        .layout
        .placed_items
        .iter()
        .map(|(pk, pi)| {
            let x_min = pi.shape.bbox.x_min;
            SlideItem { key: key_of(pk), sheet: sheet_of(x_min), x_min: scalar(x_min) }
        })
        .collect();
    let mut n_moved = 0;
    for key in compact_sheets_left(&items, n) {
        let pk = prob.layout.placed_items.keys().find(|pk| key_of(*pk) == key).unwrap();
        let x_min = prob.layout.placed_items[pk].shape.bbox.x_min;
        let max_shift = x_min - sheet_of(x_min) as f32 * pitch(&sc);
        if max_shift > 0.5 && slide_placed(&mut prob, pk, max_shift) {
            n_moved += 1;
        }
    }

    assert!(prob.layout.is_feasible(), "the compacted layout must be collision-free");
    assert!(clear_of_walls(&prob, &sc), "compaction may not push an item onto a wall");
    let after = left_edges(&prob);
    assert_eq!(after.len(), before.len(), "compaction may not lose or duplicate items");
    assert!(before.iter().zip(&after).all(|(b, a)| *a <= *b + 1e-2), "no item may move right");
    assert!(before.iter().zip(&after).all(|(b, a)| sheet_of(*b) == sheet_of(*a)), "no item may leave its sheet");
    let really_moved = before.iter().zip(&after).filter(|(b, a)| **a < **b - 1e-2).count();
    assert_eq!(n_moved, really_moved, "the count of moved items must be truthful");
    assert_eq!(before[5], after[5], "the last sheet is not compacted");
    assert!(after[0] <= 1.0 && after[1] <= 902.0, "the first sheet is compacted to the left: {after:?}");
    assert!(after[4] <= 3020.0 + 1803.0, "and so is the second: {after:?}");
    Ok(())
}

/// Runs a warm start through the repair. Each separation tries to take the items off the walls if it
/// is able to; a rebuild places them afresh.
fn repaired(instance: &SPInstance, warm_start: SPProblem, sc: &SheetConfig, able: bool) -> (SPProblem, usize) {
    let mut prob = warm_start;
    let mut state = None;
    let mut n_separations = 0;
    loop {
        match repair_walled_warm_start(&mut state, scalar(total_loss(&tracker_of(&prob.layout)))) {
            WallRepairAction::Keep => return (prob, n_separations),
            WallRepairAction::Separate => {
                n_separations += 1;
                let stuck: Vec<PlacedKey> = prob
                    .layout
                    .placed_items
                    .keys()
                    .filter(|pk| able && !hazards_of(&prob.layout, *pk).is_empty())
                    .collect();
                for pk in stuck {
                    prob.remove_item(pk);
                    let free = (0..100).map(|i| 500.0 + 50.0 * i as f32).find(|x| {
                        let pk = prob.place_item(centred_on(instance, *x));
                        let free = hazards_of(&prob.layout, pk).is_empty();
                        prob.remove_item(pk);
                        free
                    });
                    prob.place_item(centred_on(instance, free.unwrap()));
                }
            }
            WallRepairAction::Rebuild => {
                let mut fresh = walled_strip(instance, prob.strip_width(), sc);
                for i in 0..prob.layout.placed_items.len() {
                    fresh.place_item(centred_on(instance, 500.0 + i as f32 * pitch(sc)));
                }
                return (fresh, n_separations);
            }
            action => unreachable!("a warm start is not recut: {action:?}"),
        }
    }
}

#[test]
fn walled_warm_start_never_returns_an_infeasible_layout() -> Result<()> {
    let instance = instance(2)?;
    let sc = sheet(2000.0, 20.0);
    let (x_min, x_max) = walls(6000.0, &sc)[0];
    let warm_start = |xs: [f32; 2]| {
        let mut prob = walled_strip(&instance, 6000.0, &sc);
        xs.iter().for_each(|x| {
            prob.place_item(centred_on(&instance, *x));
        });
        prob
    };
    let on_a_wall = [600.0, (x_min + x_max) / 2.0];
    assert!(!warm_start(on_a_wall).layout.is_feasible(), "sanity: the warm start straddles a wall");
    assert!(!clear_of_walls(&warm_start(on_a_wall), &sc));

    for (xs, able, separations) in [([600.0, 3000.0], true, 0), (on_a_wall, true, 1), (on_a_wall, false, 1)] {
        let (prob, n_separations) = repaired(&instance, warm_start(xs), &sc, able);
        assert_eq!(n_separations, separations);
        assert!(prob.layout.is_feasible(), "a walled warm start must be feasible once it is repaired");
        assert!(clear_of_walls(&prob, &sc), "and clear of every wall");
        assert_eq!(prob.layout.placed_items.len(), 2, "nothing is lost");
        assert_eq!(total_loss(&tracker_of(&prob.layout)), 0.0);
    }
    Ok(())
}

#[test]
fn separator_honours_its_deadline() -> Result<()> {
    // Thirty squares that have more area than the strip: no arrangement is feasible, and with this
    // much patience only the deadline ends the separation.
    let instance = squares(40.0, 30, 200.0)?;
    let mut prob = SPProblem::new(instance.clone());
    prob.change_strip_width(200.0);
    for i in 0..30 {
        let at = (22.0 + (i % 6) as f32 * 25.0, 22.0 + (i / 6) as f32 * 25.0);
        prob.place_item(SPPlacement { item_id: 0, d_transf: DTransformation::new(0.0, at) });
    }
    let config = SeparatorConfig { strike_limit: 8, iter_no_imprv_limit: 400, ..separator_config() };
    let mut rng = Xoshiro256PlusPlus::seed_from_u64(42);

    let start = Instant::now();
    let budget = Duration::from_millis(200);
    let mut term = CtrlCTerminator::new(0);
    term.new_timeout(0, 0, budget.as_nanos());
    let killed = || term.kill(start.elapsed().as_nanos(), 0);

    let mut ct = tracker_of(&prob.layout);
    assert!(total_loss(&ct) > 0.0, "sanity: the start really is infeasible");
    let mut run = Separation::new(config, scalar(total_loss(&ct)));
    let mut best = prob.save();
    let mut n_moves = 0;
    let mut event = SeparationEvent::Poll { killed: killed(), loss: scalar(total_loss(&ct)) };
    loop {
        match separate(&mut run, event) {
            SeparationAction::Poll => {}
            SeparationAction::Move => {
                n_moves += 1;
                let worst = prob
                    .layout
                    .placed_items
                    .keys()
                    .max_by(|a, b| loss_of(&ct, key_of(*a)).total_cmp(&loss_of(&ct, key_of(*b))))
                    .unwrap();
                let spots = (0..20).map(|_| (rng.random_range(21.0..179.0f32), rng.random_range(21.0..179.0f32)));
                let overlap_at = |at: &(f32, f32)| -> f32 {
                    let bbox = Rect::try_new(at.0 - 20.0, at.1 - 20.0, at.0 + 20.0, at.1 + 20.0).unwrap();
                    let others = prob.layout.placed_items.iter().filter(|(pk, _)| *pk != worst);
                    others.map(|(_, pi)| overlap(&bbox, &pi.shape.bbox)).sum()
                };
                let to = spots.min_by(|a, b| overlap_at(a).total_cmp(&overlap_at(b))).unwrap();
                prob.remove_item(worst);
                prob.place_item(SPPlacement { item_id: 0, d_transf: DTransformation::new(0.0, to) });
                ct = tracker_of(&prob.layout);
                let bar = scalar(value(run.min_loss) * 0.98);
                event = SeparationEvent::Moved { loss: scalar(total_loss(&ct)), bar };
                continue;
            }
            SeparationAction::SaveAndReweigh => {
                best = prob.save();
                reweigh(&mut ct);
            }
            SeparationAction::Reweigh => reweigh(&mut ct),
            SeparationAction::Judge => {
                event = SeparationEvent::Judged { bar: scalar(value(run.initial_strike_loss) * 0.98) };
                continue;
            }
            SeparationAction::Rollback => {
                prob.restore(&best);
                ct = tracker_of(&prob.layout);
            }
            SeparationAction::SaveAndFinish => unreachable!("nothing can separate these squares"),
            SeparationAction::Finish => break,
        }
        event = SeparationEvent::Poll { killed: killed(), loss: scalar(total_loss(&ct)) };
    }
    let elapsed = start.elapsed();

    assert!(n_moves > 0, "sanity: it did try");
    assert!(!run.separated);
    assert!(elapsed > budget, "patience outlasts the budget: took {elapsed:?}");
    // One iteration cannot be interrupted, so some overshoot is expected. A whole strike is not.
    let allowance = budget + Duration::from_millis(1200);
    assert!(elapsed <= allowance, "the separation overran its {budget:?} budget by too much: took {elapsed:?}");
    Ok(())
}
