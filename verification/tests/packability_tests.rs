//! Instances that cannot be packed are refused, and no others.
use anyhow::Result;
use jagua_rs::collision_detection::CDEConfig;
use jagua_rs::entities::Item;
use jagua_rs::geometry::fail_fast::SPSurrogateConfig;
use jagua_rs::geometry::geo_enums::RotationRange;
use jagua_rs::geometry::geo_traits::TransformableFrom;
use jagua_rs::geometry::Transformation;
use jagua_rs::io::ext_repr::{ExtItem as ExtBaseItem, ExtSPolygon, ExtShape};
use jagua_rs::io::import::Importer;
use jagua_rs::probs::spp::entities::{SPInstance, SPProblem};
use jagua_rs::probs::spp::io::ext_repr::{ExtItem, ExtSPInstance};
use sparrow::scalar::Scalar;
use sparrow::util::packability::{
    check_spp_packability, items_too_tall_for_strip, items_too_wide_for_sheet, least_extent,
    min_viable_strip_width, separation_message, too_tall_message, too_wide_message, MeasuredItem, PackabilityError,
    Separation,
};
use sparrow::util::rotations::{
    candidate_rotations, fits_when_continuous, is_continuous, CandidateRotation, RotationRange as Range, ROT_N_SAMPLES,
};
use std::f32::consts::PI;

fn scalar(v: f32) -> Scalar {
    Scalar { bits: v.to_bits() }
}

fn number(s: Scalar) -> f32 {
    f32::from_bits(s.bits)
}

fn rect_shape(w: f32, h: f32) -> ExtShape {
    ExtShape::SimplePolygon(ExtSPolygon(vec![(0.0, 0.0), (w, 0.0), (w, h), (0.0, h)]))
}

fn ext_item(id: u64, demand: u64, w: f32, h: f32, orientations: Option<Vec<f32>>) -> ExtItem {
    ExtItem {
        base: ExtBaseItem { id, allowed_orientations: orientations, shape: rect_shape(w, h), min_quality: None },
        demand,
    }
}

fn ext_instance(demand: u64, w: f32, h: f32, strip_height: f32, orientations: Option<Vec<f32>>) -> ExtSPInstance {
    ExtSPInstance { name: "packability".into(), items: vec![ext_item(0, demand, w, h, orientations)], strip_height }
}

fn fixed(demand: u64, w: f32, h: f32, strip_height: f32) -> ExtSPInstance {
    ext_instance(demand, w, h, strip_height, Some(vec![0.0]))
}

fn import(ext: &ExtSPInstance, min_sep: Option<f32>) -> Result<SPInstance> {
    let cde_config = CDEConfig {
        quadtree_depth: 4,
        cd_threshold: 16,
        item_surrogate_config: SPSurrogateConfig {
            n_pole_limits: [(64, 0.0), (16, 0.8), (8, 0.9)],
            n_ff_poles: 1,
            n_ff_piers: 0,
        },
    };
    let importer = Importer::new(cde_config, Some(0.001), min_sep, Some((0.01, 0.01)));
    jagua_rs::probs::spp::io::import_instance(&importer, ext)
}

fn range_of(item: &Item) -> Range {
    match &item.allowed_rotation {
        RotationRange::None => Range::Fixed,
        RotationRange::Continuous => Range::Continuous,
        RotationRange::Discrete(list) => Range::Discrete(list.iter().map(|a| scalar(*a)).collect()),
    }
}

fn rotations_of(item: &Item) -> Vec<f32> {
    candidate_rotations(&range_of(item))
        .iter()
        .map(|c| match c {
            CandidateRotation::Zero => 0.0,
            CandidateRotation::Angle(a) => number(*a),
            CandidateRotation::Step(i) => *i as f32 * (2.0 * PI) / ROT_N_SAMPLES as f32,
        })
        .collect()
}

fn measured(instance: &SPInstance, widths: bool) -> Vec<MeasuredItem> {
    instance
        .items
        .iter()
        .map(|(item, _)| {
            let mut buffer = item.shape_cd.as_ref().clone();
            let extents = rotations_of(item)
                .iter()
                .map(|r| {
                    let bbox =
                        buffer.transform_from(item.shape_cd.as_ref(), &Transformation::from_rotation(*r)).bbox;
                    scalar(if widths { bbox.width() } else { bbox.height() })
                })
                .collect();
            MeasuredItem { item_id: item.id, continuous: is_continuous(&range_of(item)), extents }
        })
        .collect()
}

fn too_tall(instance: &SPInstance) -> Vec<(usize, Scalar)> {
    items_too_tall_for_strip(&measured(instance, false), scalar(instance.base_strip.fixed_height))
}

fn too_wide(instance: &SPInstance, sheet_width: f32) -> Vec<(usize, Scalar)> {
    items_too_wide_for_sheet(&measured(instance, true), scalar(sheet_width))
}

fn check(instance: &SPInstance, min_sep: Option<f32>) -> Result<Option<f32>, String> {
    let height = instance.base_strip.fixed_height;
    let separation = min_sep.map(|s| Separation { distance: scalar(s), viable_width: scalar(s * 1.5) });
    let width = scalar(instance.base_strip.width);
    check_spp_packability(&measured(instance, false), scalar(height), width, separation)
        .map(|w| w.map(number))
        .map_err(|e| match e {
            PackabilityError::TooTall(list) => {
                let entries = list.iter().map(|(id, h)| (*id, format!("{:.1}", number(*h)))).collect();
                let note = match min_sep {
                    Some(s) if s > 0.0 => format!(
                        " (heights include the {:.1} mm inflation --min-sep {s} applies to every item)",
                        s / 2.0
                    ),
                    _ => String::new(),
                };
                too_tall_message(&format!("{height:.1}"), &entries, &note)
            }
            PackabilityError::SeparationTooLarge => {
                let s = min_sep.unwrap();
                separation_message(&s.to_string(), &format!("{height:.1}"), &format!("{:.1}", s / 2.0))
            }
        })
}

#[test]
fn the_rotated_rectangle_of_the_audit_is_not_rejected() -> Result<()> {
    let ext = ExtSPInstance {
        name: "rotation_grid".into(),
        items: vec![ExtItem {
            base: ExtBaseItem {
                id: 0,
                allowed_orientations: None,
                shape: ExtShape::SimplePolygon(ExtSPolygon(vec![
                    (0.0, 0.0),
                    (92.387953, 38.268343),
                    (88.561119, 47.507138),
                    (-3.826834, 9.238795),
                ])),
                min_quality: None,
            },
            demand: 1,
        }],
        strip_height: 10.2,
    };
    let instance = import(&ext, None)?;
    assert!(too_tall(&instance).is_empty(), "it fits the strip at one of the sampled rotations");
    let least = least_extent(&measured(&instance, false)[0].extents);
    assert!(number(least) <= 10.2, "and the grid holds that rotation: {}", number(least));
    check(&instance, None).expect("this instance is solvable");
    Ok(())
}

#[test]
fn the_continuous_grid_is_the_samplers_grid() -> Result<()> {
    let instance = import(&ext_instance(1, 10.0, 5.0, 100.0, None), None)?;
    let rots = rotations_of(&instance.items[0].0);
    assert_eq!(rots.len(), ROT_N_SAMPLES, "the continuous grid must have exactly ROT_N_SAMPLES steps");
    assert_eq!(ROT_N_SAMPLES, 16);
    let step = (2.0 * PI) / ROT_N_SAMPLES as f32;
    assert!(rots.iter().any(|r| (r - step).abs() < 1e-5), "one step must be a sample");
    Ok(())
}

#[test]
fn the_grid_honours_declared_orientations() -> Result<()> {
    let discrete = import(&ext_instance(1, 10.0, 5.0, 100.0, Some(vec![0.0, 90.0, 270.0])), None)?;
    let rots = rotations_of(&discrete.items[0].0);
    assert_eq!(rots.len(), 3, "a discrete set is used as declared: {rots:?}");
    let fixed = import(&fixed(1, 10.0, 5.0, 100.0), None)?;
    assert_eq!(rotations_of(&fixed.items[0].0), vec![0.0]);
    Ok(())
}

#[test]
fn a_genuinely_too_tall_item_is_still_rejected() -> Result<()> {
    let instance = import(&fixed(1, 20.0, 200.0, 50.0), None)?;
    assert_eq!(too_tall(&instance).len(), 1, "a 200 mm part in a 50 mm strip is unpackable");
    check(&instance, None).expect_err("a truly impossible instance must be refused");
    Ok(())
}

#[test]
fn a_genuinely_too_wide_item_is_still_rejected_for_sheets() -> Result<()> {
    let instance = import(&fixed(1, 300.0, 20.0, 100.0), None)?;
    assert_eq!(too_wide(&instance, 100.0).len(), 1, "a 300 mm part cannot fit a 100 mm sheet");
    Ok(())
}

#[test]
fn item_taller_than_strip_is_a_clean_error() -> Result<()> {
    let instance = import(&fixed(1, 20.0, 80.0, 50.0), None)?;
    let list = too_tall(&instance);
    assert_eq!(list.len(), 1, "the 80 mm item does not fit a 50 mm strip");
    assert_eq!(list[0].0, 0);
    let msg = check(&instance, None).expect_err("an unpackable instance must be an error");
    assert!(msg.contains("50.0 mm high"), "the message must name the strip height: {msg}");
    assert!(msg.contains("item 0"), "and the offending item: {msg}");
    assert_eq!(
        msg,
        "the strip is only 50.0 mm high, but item 0 (80.0 mm) do(es) not fit inside it in any allowed rotation, so \
         no solution can exist"
    );
    Ok(())
}

#[test]
fn item_that_fits_when_rotated_is_accepted() -> Result<()> {
    let instance = import(&ext_instance(1, 20.0, 80.0, 100.0, Some(vec![0.0, 90.0])), None)?;
    assert!(too_tall(&instance).is_empty(), "it fits at 0 degrees already");
    assert!(check(&instance, None).is_ok());
    // In a lower strip only the other orientation fits, and that is enough.
    let lower = import(&ext_instance(1, 20.0, 80.0, 50.0, Some(vec![0.0, 90.0])), None)?;
    assert!(too_tall(&lower).is_empty());
    Ok(())
}

#[test]
fn large_min_sep_widens_the_strip_instead_of_aborting() -> Result<()> {
    let instance = import(&fixed(2, 10.0, 10.0, 100.0), Some(20.0))?;
    assert!(instance.base_strip.width <= 20.0, "the start at full density is tiny here");
    let widen = check(&instance, Some(20.0)).unwrap().expect("a wider start is required");
    assert!(widen > 20.0, "the new width must exceed what the deflation eats: got {widen}");
    assert_eq!(widen, 30.0);
    let mut widened = instance.clone();
    widened.base_strip.set_width(widen);
    let _prob = SPProblem::new(widened);
    Ok(())
}

#[test]
fn min_sep_larger_than_strip_height_is_an_error() -> Result<()> {
    let instance = import(&fixed(2, 10.0, 10.0, 20.0), Some(30.0))?;
    let msg = check(&instance, Some(30.0)).expect_err("nothing is left to pack into");
    assert!(
        msg.contains("strip") && (msg.contains("min-sep") || msg.contains("inflation")),
        "the message must blame the separation or the strip: {msg}"
    );
    Ok(())
}

#[test]
fn packability_gate_is_a_no_op_for_a_normal_instance() -> Result<()> {
    let instance = import(&fixed(10, 10.0, 10.0, 100.0), Some(2.0))?;
    assert_eq!(check(&instance, Some(2.0)), Ok(None), "nothing to fix here");
    assert_eq!(check(&instance, None), Ok(None));
    Ok(())
}

#[test]
fn items_too_wide_for_a_sheet_are_detected() -> Result<()> {
    // Parts of up to 1940 x 1577.
    let ext = ExtSPInstance {
        name: "wide".into(),
        items: vec![
            ext_item(0, 1, 1940.0, 1577.0, Some(vec![0.0, 180.0])),
            ext_item(1, 1, 600.0, 900.0, Some(vec![0.0, 90.0])),
        ],
        strip_height: 5752.0,
    };
    let instance = import(&ext, None)?;
    let narrow = too_wide(&instance, 700.0);
    assert!(!narrow.is_empty(), "700 mm sheets must be reported as too narrow");
    for (_, w) in &narrow {
        assert!(number(*w) > 700.0, "a reported item must genuinely exceed the sheet width");
    }
    assert_eq!(narrow.iter().map(|e| e.0).collect::<Vec<_>>(), vec![0]);
    assert!(too_wide(&instance, 2500.0).is_empty(), "at 2500 mm every part fits a sheet");
    Ok(())
}

#[test]
fn an_item_that_rotates_freely_is_never_refused() {
    let item = |continuous| MeasuredItem { item_id: 4, continuous, extents: vec![scalar(30.0), scalar(20.0), scalar(25.0)] };
    assert_eq!(items_too_tall_for_strip(&vec![item(false)], scalar(10.0)), vec![(4, scalar(20.0))]);
    assert!(items_too_tall_for_strip(&vec![item(false)], scalar(20.0)).is_empty());
    assert!(items_too_tall_for_strip(&vec![item(true)], scalar(10.0)).is_empty());
    assert_eq!(least_extent(&vec![]), scalar(f32::INFINITY));
}

#[test]
fn a_separation_that_is_not_positive_changes_nothing() {
    let sep = |d: f32| Some(Separation { distance: scalar(d), viable_width: scalar(d * 1.5) });
    assert_eq!(min_viable_strip_width(None), None);
    assert_eq!(min_viable_strip_width(sep(0.0)), None);
    assert_eq!(min_viable_strip_width(sep(-1.0)), None);
    assert_eq!(min_viable_strip_width(sep(2.0)), Some(scalar(3.0)));
    assert!(matches!(
        check_spp_packability(&vec![], scalar(2.0), scalar(1.0), sep(2.0)),
        Err(PackabilityError::SeparationTooLarge)
    ));
    assert!(matches!(check_spp_packability(&vec![], scalar(2.5), scalar(1.0), sep(2.0)), Ok(Some(w)) if w == scalar(3.0)));
    assert!(matches!(check_spp_packability(&vec![], scalar(2.5), scalar(3.0), sep(2.0)), Ok(None)));
}

#[test]
fn refusals_name_the_numbers() {
    let entries = vec![(0, "700.5".to_string()), (3, "800.0".to_string())];
    assert_eq!(
        too_wide_message("700", &entries),
        "--sheet-width 700 mm is too narrow for this instance: item 0 (700.5 mm), item 3 (800.0 mm) do(es) not fit \
         inside a single sheet in any allowed rotation, so no walled solution can exist"
    );
    assert_eq!(
        separation_message("30", "20.0", "15.0"),
        "--min-sep 30 is at least as large as the 20.0 mm strip height: deflating the container by 15.0 mm on each \
         side leaves nothing to pack into. Use a smaller separation or a taller strip"
    );
}

#[test]
fn only_free_rotation_outlives_the_grid() {
    assert!(fits_when_continuous(&Range::Continuous));
    assert!(!fits_when_continuous(&Range::Fixed));
    assert!(!fits_when_continuous(&Range::Discrete(vec![scalar(0.0)])));
}
