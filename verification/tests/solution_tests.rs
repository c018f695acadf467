//! The checks on solutions: before a run starts from one, and before one is exported.
use anyhow::Result;
use jagua_rs::collision_detection::CDEConfig;
use jagua_rs::entities::{Instance, Item, Layout};
use jagua_rs::geometry::DTransformation;
use jagua_rs::geometry::fail_fast::SPSurrogateConfig;
use jagua_rs::geometry::geo_enums::RotationRange;
use jagua_rs::io::ext_repr::{
    ExtItem as ExtBaseItem, ExtLayout, ExtPlacedItem, ExtSPolygon, ExtShape, ExtTransformation,
};
use jagua_rs::io::import::Importer;
use jagua_rs::probs::spp::entities::{SPInstance, SPPlacement, SPProblem, SPSolution};
use jagua_rs::probs::spp::io::ext_repr::{ExtItem, ExtSPInstance, ExtSPSolution};
use sparrow::optimizer::bpp::layouts::LayKey;
use sparrow::optimizer::sheets::{sheet_stats, straddling_items, SheetItem, SheetStats};
use sparrow::scalar::Scalar;
use sparrow::util::io::{
    declared_item, validate_spp_warm_start, PlacementFault, WarmPlacement, WarmStartError, WarmTexts,
};
use sparrow::util::rotations::{
    allowed_orientations, describe_allowed, describe_orientations, rotation_is_allowed, RotationRange as Range,
    ROTATION_TOL_DEG_BITS,
};
use sparrow::util::verify::{
    bpp_demand, bpp_placed, spp_demand, spp_placed, verify_bpp_solution, verify_spp_solution, BinFacts,
    LayoutFacts, PlacedRotation, Refusal, RefusalReason, StripFacts,
};
use std::f32::consts::PI;

fn scalar(v: f32) -> Scalar {
    Scalar { bits: v.to_bits() }
}

fn tolerance_deg() -> f32 {
    f32::from_bits(ROTATION_TOL_DEG_BITS)
}

fn rect_shape(w: f32, h: f32) -> ExtShape {
    ExtShape::SimplePolygon(ExtSPolygon(vec![(0.0, 0.0), (w, 0.0), (w, h), (0.0, h)]))
}

fn ext_item_rot(id: u64, demand: u64, w: f32, h: f32, orientations: Option<Vec<f32>>) -> ExtItem {
    ExtItem {
        base: ExtBaseItem { id, allowed_orientations: orientations, shape: rect_shape(w, h), min_quality: None },
        demand,
    }
}

fn ext_instance_rot(demand: u64, w: f32, h: f32, strip_height: f32, orientations: Option<Vec<f32>>) -> ExtSPInstance {
    ExtSPInstance {
        name: "solutions".into(),
        items: vec![ext_item_rot(0, demand, w, h, orientations)],
        strip_height,
    }
}

fn ext_instance(demand: u64, w: f32, h: f32, strip_height: f32) -> ExtSPInstance {
    ext_instance_rot(demand, w, h, strip_height, Some(vec![0.0]))
}

fn import(ext: &ExtSPInstance) -> Result<SPInstance> {
    let cde_config = CDEConfig {
        quadtree_depth: 4,
        cd_threshold: 16,
        item_surrogate_config: SPSurrogateConfig {
            n_pole_limits: [(64, 0.0), (16, 0.8), (8, 0.9)],
            n_ff_poles: 1,
            n_ff_piers: 0,
        },
    };
    let importer = Importer::new(cde_config, Some(0.001), None, Some((0.01, 0.01)));
    jagua_rs::probs::spp::io::import_instance(&importer, ext)
}

/// Places items at `(item_id, rotation in radians, x, y)`, without any check.
fn solution_of(instance: &SPInstance, width: f32, placements: &[(usize, f32, f32, f32)]) -> SPSolution {
    let mut prob = SPProblem::new(instance.clone());
    prob.change_strip_width(width);
    for &(item_id, rot, x, y) in placements {
        let ext = DTransformation::new(rot, (x, y));
        let d_transf = jagua_rs::io::import::ext_to_int_transformation(
            &ext,
            &instance.item(item_id).shape_orig.pre_transform,
        );
        prob.place_item(SPPlacement { item_id, d_transf });
    }
    prob.save()
}

fn ext_solution(strip_width: f32, placed: Vec<ExtPlacedItem>) -> ExtSPSolution {
    ExtSPSolution {
        strip_width,
        layout: ExtLayout { container_id: 0, placed_items: placed, density: 0.0 },
        density: 0.0,
        run_time_sec: 0,
    }
}

fn placement_rot(item_id: u64, rotation_deg: f32, x: f32, y: f32) -> ExtPlacedItem {
    ExtPlacedItem {
        item_id,
        transformation: ExtTransformation { rotation: rotation_deg, translation: (x, y) },
    }
}

fn placement(item_id: u64, x: f32, y: f32) -> ExtPlacedItem {
    placement_rot(item_id, 0.0, x, y)
}

fn angle_delta(a: f32, b: f32, turn: f32) -> f32 {
    let d = (a - b).rem_euclid(turn);
    d.min(turn - d)
}

/// The rotation of a placed item, against what the item allows.
fn item_rotation_ok(item: &Item, rotation: f32) -> bool {
    let deltas = match &item.allowed_rotation {
        RotationRange::Continuous => None,
        RotationRange::None => Some(vec![scalar(angle_delta(rotation, 0.0, 2.0 * PI))]),
        RotationRange::Discrete(list) => {
            Some(list.iter().map(|a| scalar(angle_delta(rotation, *a, 2.0 * PI))).collect())
        }
    };
    rotation_is_allowed(rotation.is_finite(), &deltas, scalar(tolerance_deg().to_radians()))
}

fn orientation_deltas(rotation: f32, allowed: Option<&[f32]>) -> Option<Vec<Scalar>> {
    let declared: Option<Vec<Scalar>> = allowed.map(|l| l.iter().map(|a| scalar(*a)).collect());
    allowed_orientations(&declared).map(|list| {
        list.iter().map(|a| scalar(angle_delta(rotation, f32::from_bits(a.bits), 360.0))).collect()
    })
}

fn ext_orientation_ok(rotation: f32, allowed: Option<&[f32]>) -> bool {
    rotation_is_allowed(rotation.is_finite(), &orientation_deltas(rotation, allowed), scalar(tolerance_deg()))
}

fn stats_of(sol: &SPSolution, sheet: (f32, f32)) -> Vec<SheetStats> {
    let pitch = sheet.0 + sheet.1;
    let n = (sol.strip_width() / pitch).ceil().max(1.0) as usize;
    let sheet_of = |x: f32| (x / pitch).floor().max(0.0) as usize;
    let items: Vec<SheetItem> = sol
        .layout_snapshot
        .placed_items
        .values()
        .map(|pi| SheetItem {
            item_id: pi.item_id,
            left: sheet_of(pi.shape.bbox.x_min),
            right: sheet_of(pi.shape.bbox.x_max),
        })
        .collect();
    sheet_stats(n, &items)
}

fn placed_ids(sol: &SPSolution) -> Vec<usize> {
    sol.layout_snapshot.placed_items.values().map(|pi| pi.item_id).collect()
}

fn verify(sol: &SPSolution, instance: &SPInstance, sheet: Option<(f32, f32)>, what: &str) -> Result<(), Refusal> {
    let rotations = sol
        .layout_snapshot
        .placed_items
        .values()
        .map(|pi| PlacedRotation {
            item_id: pi.item_id,
            allowed: item_rotation_ok(instance.item(pi.item_id), pi.d_transf.rotation()),
            degrees: format!("{:.3}", pi.d_transf.rotation().to_degrees()),
        })
        .collect();
    let facts = StripFacts {
        placed: spp_placed(&placed_ids(sol)),
        rotations,
        feasible: Layout::from_snapshot(&sol.layout_snapshot).is_feasible(),
        sheets: sheet.map(|s| stats_of(sol, s)),
        sheet_width: sheet.map_or(String::new(), |s| s.0.to_string()),
    };
    let demand: Vec<(usize, usize)> = instance.items.iter().map(|(item, qty)| (item.id, *qty)).collect();
    verify_spp_solution(&facts, &spp_demand(&demand), what)
}

fn validate(ext: &ExtSPInstance, sol: &ExtSPSolution) -> Result<(), String> {
    let items: Vec<(usize, usize)> = ext.items.iter().map(|it| (it.base.id as usize, it.demand as usize)).collect();
    let orientations_of = |id: usize| -> Option<Vec<f32>> {
        declared_item(&items, id).and_then(|i| ext.items[i].base.allowed_orientations.clone())
    };
    let placements: Vec<WarmPlacement> = sol
        .layout
        .placed_items
        .iter()
        .map(|p| {
            let t = &p.transformation;
            let allowed = orientations_of(p.item_id as usize);
            WarmPlacement {
                item_id: p.item_id as usize,
                rotation: scalar(t.rotation),
                x: scalar(t.translation.0),
                y: scalar(t.translation.1),
                deltas: orientation_deltas(t.rotation, allowed.as_deref()),
            }
        })
        .collect();
    validate_spp_warm_start(scalar(sol.strip_width), &items, &placements, scalar(tolerance_deg())).map_err(|e| {
        let (mut rotation, mut allowed) = (String::new(), String::new());
        if let WarmStartError::Placement { index, item_id, .. } = e {
            rotation = placements[index].rotation_text();
            let texts = orientations_of(item_id).map(|l| l.iter().map(|a| a.to_string()).collect());
            allowed = describe_orientations(&texts);
        }
        let known = format!("{:?}", items.iter().map(|it| it.0).collect::<Vec<_>>());
        e.to_string(&WarmTexts { width: sol.strip_width.to_string(), rotation, allowed, known })
    })
}

trait RotationText {
    fn rotation_text(&self) -> String;
}

impl RotationText for WarmPlacement {
    fn rotation_text(&self) -> String {
        f32::from_bits(self.rotation.bits).to_string()
    }
}

#[test]
fn export_gate_rejects_a_disallowed_rotation() -> Result<()> {
    let instance = import(&ext_instance_rot(1, 10.0, 5.0, 100.0, Some(vec![0.0])))?;
    let sol = solution_of(&instance, 50.0, &[(0, PI / 4.0, 20.0, 20.0)]);
    assert!(Layout::from_snapshot(&sol.layout_snapshot).is_feasible(), "the layout itself is fine");
    let err = verify(&sol, &instance, None, "the final solution")
        .expect_err("a 45 degree placement of an item that is fixed at 0 must be refused");
    assert_eq!(err.reason, RefusalReason::Rotation(0));
    let msg = err.to_string();
    assert!(msg.contains("rotation"), "the error must name the problem: {msg}");
    assert!(msg.contains("45"), "the error must name the offending angle: {msg}");
    Ok(())
}

#[test]
fn export_gate_accepts_an_allowed_rotation() -> Result<()> {
    let instance = import(&ext_instance_rot(1, 10.0, 5.0, 100.0, Some(vec![0.0, 90.0])))?;
    for rot in [0.0, PI / 2.0] {
        let sol = solution_of(&instance, 50.0, &[(0, rot, 20.0, 20.0)]);
        if let Err(e) = verify(&sol, &instance, None, "the final solution") {
            panic!("{} degrees are declared allowed and must pass: {}", rot.to_degrees(), e.to_string());
        }
    }
    Ok(())
}

#[test]
fn rotation_gate_is_modulo_360() -> Result<()> {
    let instance = import(&ext_instance_rot(1, 10.0, 5.0, 100.0, Some(vec![0.0, 180.0])))?;
    let item = &instance.items[0].0;
    for rot_deg in [-180.0f32, 180.0, 360.0, -360.0, 540.0] {
        assert!(item_rotation_ok(item, rot_deg.to_radians()), "{rot_deg} is 0 or 180 modulo 360");
    }
    for rot_deg in [45.0f32, 90.0, -90.0, 179.0] {
        assert!(!item_rotation_ok(item, rot_deg.to_radians()), "{rot_deg} is neither 0 nor 180 modulo 360");
    }
    Ok(())
}

#[test]
fn rotation_gate_lets_continuous_items_through() -> Result<()> {
    let instance = import(&ext_instance_rot(1, 10.0, 5.0, 100.0, None))?;
    let item = &instance.items[0].0;
    assert!(matches!(item.allowed_rotation, RotationRange::Continuous));
    for rot_deg in [0.0f32, 13.7, 45.0, 123.456, -77.0, 359.99] {
        assert!(item_rotation_ok(item, rot_deg.to_radians()), "{rot_deg} must be accepted");
    }
    assert!(!item_rotation_ok(item, f32::NAN));
    Ok(())
}

#[test]
fn rotation_gate_tolerance_is_tight_but_not_brittle() -> Result<()> {
    let instance = import(&ext_instance_rot(1, 10.0, 5.0, 100.0, Some(vec![0.0])))?;
    let item = &instance.items[0].0;
    assert!(item_rotation_ok(item, (0.0009f32).to_radians()), "noise below the tolerance must pass");
    assert!(!item_rotation_ok(item, (0.5f32).to_radians()), "half a degree is a real rotation");
    Ok(())
}

#[test]
fn spp_warm_start_with_a_disallowed_rotation_is_rejected() {
    let ext = ext_instance_rot(1, 10.0, 5.0, 100.0, Some(vec![0.0]));
    let sol = ext_solution(50.0, vec![placement_rot(0, 45.0, 20.0, 20.0)]);
    let msg = validate(&ext, &sol).expect_err("a 45 degree placement must be refused");
    assert!(msg.contains("45"), "the error must name the angle: {msg}");
    assert!(msg.contains("allowed_orientations"), "the error must name the field: {msg}");
    assert_eq!(
        msg,
        "the warm start solution places item 0 (placement #0) at 45°, which is not one of its \
         allowed_orientations (0°); a warm start is restored as-is, so this rotation would be carried straight \
         through to the exported solution"
    );
}

#[test]
fn spp_warm_start_with_an_allowed_rotation_is_accepted() {
    let ext = ext_instance_rot(2, 10.0, 5.0, 100.0, Some(vec![0.0, 90.0]));
    let sol = ext_solution(50.0, vec![placement_rot(0, 0.0, 1.0, 1.0), placement_rot(0, -270.0, 20.0, 20.0)]);
    validate(&ext, &sol).expect("0 and -270 degrees are both declared allowed");
}

#[test]
fn empty_orientation_list_means_fixed_zero() -> Result<()> {
    let empty = import(&ext_instance_rot(1, 10.0, 5.0, 100.0, Some(vec![])))?;
    let zero = import(&ext_instance_rot(1, 10.0, 5.0, 100.0, Some(vec![0.0])))?;
    for inst in [&empty, &zero] {
        assert!(matches!(inst.items[0].0.allowed_rotation, RotationRange::None));
    }
    for inst in [&empty, &zero] {
        let item = &inst.items[0].0;
        assert!(item_rotation_ok(item, 0.0));
        assert!(item_rotation_ok(item, (360.0f32).to_radians()));
        assert!(!item_rotation_ok(item, (45.0f32).to_radians()));
    }
    Ok(())
}

#[test]
fn ext_orientation_table_matches_jagua() {
    for rot in [0.0f32, 45.0, -123.4] {
        assert!(ext_orientation_ok(rot, None), "{rot} must pass for a continuous item");
    }
    for (rot, expected) in [(0.0f32, true), (360.0, true), (-0.0005, true), (45.0, false), (90.0, false)] {
        assert_eq!(ext_orientation_ok(rot, Some(&[])), expected, "{rot} against the empty list");
        assert_eq!(ext_orientation_ok(rot, Some(&[0.0])), expected, "{rot} against [0.0]");
    }
    assert!(ext_orientation_ok(-180.0, Some(&[0.0, 180.0])));
    assert!(!ext_orientation_ok(90.0, Some(&[0.0, 180.0])));
    assert!(!ext_orientation_ok(f32::NAN, None));
    assert!(!ext_orientation_ok(f32::INFINITY, Some(&[0.0])));
}

#[test]
fn warm_start_accepts_zero_for_an_empty_orientation_list() {
    let ext = ext_instance_rot(1, 10.0, 5.0, 100.0, Some(vec![]));
    let sol = ext_solution(50.0, vec![placement_rot(0, 0.0, 20.0, 20.0)]);
    validate(&ext, &sol).expect("an empty list means a fixed orientation");
    let bad = ext_solution(50.0, vec![placement_rot(0, 45.0, 20.0, 20.0)]);
    validate(&ext, &bad).expect_err("45 degrees must still be refused");
}

#[test]
fn export_gate_rejects_straddling_items() -> Result<()> {
    let instance = import(&ext_instance(2, 60.0, 45.0, 100.0))?;
    let sheet = (100.0, 20.0);
    let straddling = solution_of(&instance, 240.0, &[(0, 0.0, 80.0, 1.0), (0, 0.0, 130.0, 50.0)]);
    assert!(!straddling_items(&stats_of(&straddling, sheet)).is_empty(), "the fixture must straddle a wall");
    let err = verify(&straddling, &instance, Some(sheet), "the solution")
        .expect_err("a straddling layout must never be exported");
    assert!(err.to_string().contains("straddling"), "{}", err.to_string());
    assert_eq!(err.reason, RefusalReason::Straddling);
    assert_eq!(
        err.to_string(),
        "the solution has 1 item(s) straddling a sheet wall (item id(s): 0), so the strip cannot be cut into 100 mm sheets"
    );

    let clean = solution_of(&instance, 240.0, &[(0, 0.0, 10.0, 1.0), (0, 0.0, 130.0, 1.0)]);
    assert!(straddling_items(&stats_of(&clean, sheet)).is_empty());
    assert!(verify(&clean, &instance, Some(sheet), "the solution").is_ok());
    Ok(())
}

#[test]
fn warm_start_with_missing_placement_is_rejected() {
    let ext = ext_instance(2, 40.0, 40.0, 100.0);
    let sol = ext_solution(100.0, vec![placement(0, 0.0, 0.0)]);
    let msg = validate(&ext, &sol).expect_err("an incomplete warm start must be rejected");
    assert!(msg.contains("placed 1"), "the error must name the mismatch: {msg}");
    assert!(msg.contains("demanded 2"), "{msg}");
}

#[test]
fn warm_start_with_extra_placement_is_rejected() {
    let ext = ext_instance(2, 40.0, 40.0, 100.0);
    let sol = ext_solution(200.0, vec![placement(0, 0.0, 0.0), placement(0, 0.0, 50.0), placement(0, 60.0, 0.0)]);
    let msg = validate(&ext, &sol).expect_err("an over-complete warm start must be rejected");
    assert!(msg.contains("placed 3"), "{msg}");
}

#[test]
fn warm_start_demand_is_checked_per_item_id() {
    let ext = ExtSPInstance {
        name: "two".into(),
        items: vec![
            ext_item_rot(0, 1, 40.0, 40.0, Some(vec![0.0])),
            ext_item_rot(1, 1, 30.0, 30.0, Some(vec![0.0])),
        ],
        strip_height: 100.0,
    };
    let sol = ext_solution(200.0, vec![placement(0, 0.0, 0.0), placement(0, 60.0, 0.0)]);
    let msg = validate(&ext, &sol).expect_err("the right total with the wrong split must still be rejected");
    assert!(msg.contains("item 0: placed 2, demanded 1"), "{msg}");
    assert!(msg.contains("item 1: placed 0, demanded 1"), "{msg}");
    assert!(msg.contains("item 0: placed 2, demanded 1; item 1: placed 0, demanded 1"), "{msg}");
}

#[test]
fn warm_start_with_exact_demand_is_accepted() {
    let ext = ext_instance(2, 40.0, 40.0, 100.0);
    let sol = ext_solution(100.0, vec![placement(0, 0.0, 0.0), placement(0, 50.0, 0.0)]);
    validate(&ext, &sol).expect("an exact warm start must be accepted");
}

#[test]
fn export_gate_rejects_incomplete_solution() -> Result<()> {
    let instance = import(&ext_instance(2, 40.0, 40.0, 100.0))?;
    let incomplete = solution_of(&instance, 100.0, &[(0, 0.0, 1.0, 1.0)]);
    assert_eq!(spp_placed(&placed_ids(&incomplete)).get(&0).copied(), Some(1));
    let err = verify(&incomplete, &instance, None, "the solution")
        .expect_err("a solution missing an item must never be exported");
    assert!(err.to_string().contains("demand"), "{}", err.to_string());

    let empty = solution_of(&instance, 100.0, &[]);
    assert!(verify(&empty, &instance, None, "the solution").is_err());

    let complete = solution_of(&instance, 100.0, &[(0, 0.0, 1.0, 1.0), (0, 0.0, 50.0, 1.0)]);
    assert!(verify(&complete, &instance, None, "the solution").is_ok());
    Ok(())
}

#[test]
fn export_gate_rejects_overlapping_solution() -> Result<()> {
    let instance = import(&ext_instance(2, 40.0, 40.0, 100.0))?;
    let overlapping = solution_of(&instance, 45.0, &[(0, 0.0, 1.0, 1.0), (0, 0.0, 2.0, 2.0)]);
    assert_eq!(spp_placed(&placed_ids(&overlapping)).get(&0).copied(), Some(2));
    let err = verify(&overlapping, &instance, None, "the solution").expect_err("the items overlap");
    assert!(err.to_string().contains("collision-free"), "{}", err.to_string());
    assert_eq!(err.reason, RefusalReason::Collision(0));
    Ok(())
}

#[test]
fn warm_start_with_unknown_item_id_is_rejected() {
    let ext = ext_instance(2, 40.0, 40.0, 100.0);
    let sol = ext_solution(100.0, vec![placement(999, 0.0, 0.0), placement(0, 0.0, 50.0)]);
    let msg = validate(&ext, &sol).expect_err("an unknown item id must be a clean error");
    assert!(msg.contains("unknown item id 999"), "{msg}");
}

#[test]
fn warm_start_with_negative_strip_width_is_rejected() {
    let ext = ext_instance(2, 40.0, 40.0, 100.0);
    for width in [-5.0f32, 0.0, f32::NAN, f32::INFINITY] {
        let sol = ext_solution(width, vec![placement(0, 0.0, 0.0), placement(0, 50.0, 0.0)]);
        assert!(validate(&ext, &sol).is_err(), "a strip width of {width} must be rejected");
    }
}

#[test]
fn warm_start_negative_width_message() {
    let ext = ext_instance(2, 40.0, 40.0, 100.0);
    let sol = ext_solution(-5.0, vec![placement(0, 0.0, 0.0), placement(0, 50.0, 0.0)]);
    let msg = validate(&ext, &sol).expect_err("a negative strip width must be rejected");
    assert!(msg.contains("invalid strip width"), "{msg}");
    assert_eq!(msg, "the warm start solution has an invalid strip width (-5); it must be finite and > 0");
}

#[test]
fn warm_start_with_non_finite_transformation_is_rejected() {
    let ext = ext_instance(1, 40.0, 40.0, 100.0);
    let mut sol = ext_solution(100.0, vec![placement(0, 0.0, 0.0)]);
    sol.layout.placed_items[0].transformation.translation.0 = f32::NAN;
    let msg = validate(&ext, &sol).expect_err("a NaN translation must be rejected");
    assert!(msg.contains("non-finite"), "{msg}");
}

#[test]
fn the_last_declaration_of_an_item_counts() {
    let items = vec![(3, 1), (5, 2), (3, 4)];
    assert_eq!(declared_item(&items, 3), Some(2));
    assert_eq!(declared_item(&items, 5), Some(1));
    assert_eq!(declared_item(&items, 4), None);
}

#[test]
fn the_first_fault_is_the_one_that_is_reported() {
    let good = |id: usize| WarmPlacement { item_id: id, rotation: scalar(0.0), x: scalar(1.0), y: scalar(1.0), deltas: None };
    let mut not_finite = good(0);
    not_finite.y = scalar(f32::INFINITY);
    let r = validate_spp_warm_start(scalar(5.0), &vec![(0, 1)], &vec![good(0), not_finite, good(7)], scalar(0.001));
    assert!(matches!(
        r,
        Err(WarmStartError::Placement { index: 1, item_id: 0, fault: PlacementFault::NotFinite })
    ));
}

fn bin_facts(ids: Vec<Vec<usize>>, layouts: Vec<LayoutFacts>) -> BinFacts {
    let rotations = ids
        .iter()
        .flatten()
        .map(|id| PlacedRotation { item_id: *id, allowed: true, degrees: "0.000".into() })
        .collect();
    BinFacts { placed: bpp_placed(&ids), rotations, layouts }
}

fn layout(rank: u64, bin_id: usize, feasible: bool) -> LayoutFacts {
    LayoutFacts { key: LayKey { rank }, bin_id, feasible }
}

#[test]
fn bin_gate_checks_demand_rotation_collisions_and_stock() {
    let demand = bpp_demand(&vec![(0, 2), (1, 1)]);
    let bins = vec![(0, 1), (4, 2)];
    let good = bin_facts(vec![vec![0, 1], vec![0]], vec![layout(0x1_0000_0001, 0, true), layout(0x2_0000_0001, 4, true)]);
    assert!(verify_bpp_solution(&good, &demand, &bins, "the solution").is_ok());

    let short = bin_facts(vec![vec![0, 1]], vec![layout(0x1_0000_0001, 0, true)]);
    let e = verify_bpp_solution(&short, &demand, &bins, "the solution").unwrap_err();
    assert_eq!(e.reason, RefusalReason::Demand);
    assert_eq!(
        e.to_string(),
        "the solution does not cover the instance demand exactly (item 0: placed 1, demanded 2)"
    );

    let mut turned = bin_facts(vec![vec![0, 1, 0]], vec![layout(0x1_0000_0001, 0, true)]);
    turned.rotations[2].allowed = false;
    assert_eq!(
        verify_bpp_solution(&turned, &demand, &bins, "the solution").unwrap_err().reason,
        RefusalReason::Rotation(2)
    );

    let colliding = bin_facts(vec![vec![0, 1, 0], vec![]], vec![layout(0x1_0000_0001, 0, true), layout(0x3_0000_0005, 4, false)]);
    let e = verify_bpp_solution(&colliding, &demand, &bins, "the solution").unwrap_err();
    assert_eq!(e.reason, RefusalReason::Collision(1));
    assert_eq!(e.to_string(), "the solution: layout LayKey(3v5) is not collision-free");

    let greedy = bin_facts(vec![vec![0, 1], vec![0]], vec![layout(0x1_0000_0001, 0, true), layout(0x2_0000_0001, 0, true)]);
    let e = verify_bpp_solution(&greedy, &demand, &bins, "the solution").unwrap_err();
    assert_eq!(e.reason, RefusalReason::Stock(0));
    assert_eq!(e.to_string(), "the solution uses 2 copies of bin type 0, but only 1 are in stock");

    let foreign = bin_facts(vec![vec![0, 1, 0]], vec![layout(0x1_0000_0001, 9, true)]);
    let e = verify_bpp_solution(&foreign, &demand, &bins, "the solution").unwrap_err();
    assert_eq!(e.reason, RefusalReason::UnknownBin(9));
    assert_eq!(e.to_string(), "the solution uses an unknown bin type 9");
}

#[test]
fn allowed_rotations_are_described() {
    let angles = vec!["0.000".to_string(), "90.000".to_string()];
    assert_eq!(describe_allowed(&Range::Continuous, &vec![]), "any (continuous rotation)");
    assert_eq!(describe_allowed(&Range::Fixed, &vec![]), "0° only");
    assert_eq!(describe_allowed(&Range::Discrete(vec![]), &angles), "0.000°, 90.000°");
    assert_eq!(describe_orientations(&None), "any (continuous rotation)");
    assert_eq!(describe_orientations(&Some(vec![])), "0° only (an empty list means a fixed orientation)");
    assert_eq!(describe_orientations(&Some(vec!["7".to_string()])), "7°");
}

#[test]
fn an_item_that_is_not_demanded_need_not_be_placed() {
    let mut ext = ext_instance(1, 10.0, 5.0, 100.0);
    ext.items.push(ext_item_rot(1, 0, 10.0, 5.0, Some(vec![0.0])));
    assert_eq!(validate(&ext, &ext_solution(50.0, vec![placement(0, 1.0, 1.0)])), Ok(()));
    let msg = validate(&ext, &ext_solution(50.0, vec![placement(0, 1.0, 1.0), placement(1, 20.0, 1.0)]))
        .expect_err("an item that is not demanded may not be placed either");
    assert!(msg.contains('1'), "{msg}");

    let facts = |placed: Vec<usize>| StripFacts {
        placed: spp_placed(&placed),
        rotations: vec![],
        feasible: true,
        sheets: None,
        sheet_width: String::new(),
    };
    let demand = spp_demand(&vec![(0, 1), (1, 0)]);
    assert!(verify_spp_solution(&facts(vec![0]), &demand, "the solution").is_ok());
    let e = verify_spp_solution(&facts(vec![0, 1]), &demand, "the solution").unwrap_err();
    assert_eq!(e.reason, RefusalReason::Demand);

    let demand = bpp_demand(&vec![(0, 1), (1, 0)]);
    let bins = vec![(0, 1)];
    let one = |ids: Vec<usize>| bin_facts(vec![ids], vec![layout(0x1_0000_0001, 0, true)]);
    assert!(verify_bpp_solution(&one(vec![0]), &demand, &bins, "the solution").is_ok());
    let e = verify_bpp_solution(&one(vec![0, 1]), &demand, &bins, "the solution").unwrap_err();
    assert_eq!(e.reason, RefusalReason::Demand);
}
