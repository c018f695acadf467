//! The shelf construction on a real instance: rectangles that are packed into bins as boxes.
use anyhow::Result;
use jagua_rs::collision_detection::CDEConfig;
use jagua_rs::entities::{Instance, Item, PItemKey as PlacedKey};
use jagua_rs::geometry::fail_fast::SPSurrogateConfig;
use jagua_rs::geometry::geo_enums::RotationRange;
use jagua_rs::geometry::geo_traits::Transformable;
use jagua_rs::geometry::primitives::Rect;
use jagua_rs::geometry::{DTransformation, Transformation};
use jagua_rs::io::ext_repr::{ExtContainer, ExtItem as ExtBaseItem, ExtSPolygon, ExtShape};
use jagua_rs::io::import::Importer;
use jagua_rs::probs::bpp::entities::{BPInstance, BPLayoutType, BPPlacement, BPProblem, LayKey as OpenKey};
use jagua_rs::probs::bpp::io::ext_repr::{ExtBPInstance, ExtBin, ExtItem};
use slotmap::{Key, KeyData};
use sparrow::optimizer::bpp::layouts::{LayKey, LayoutState, PItemKey, PlacedItem};
use sparrow::optimizer::bpp::separator::{close_bin_and_scatter, ScatterDecision};
use sparrow::optimizer::bpp::shelf::{
    choose_orientation, construct, materialise, min_bin_density, pack, BoxItem, Mode, Orientation, PackAction,
    PackEvent, PackStage, ShelfPacking, ShelfPlacement, Slot, StartStats,
};
use sparrow::scalar::Scalar;

/// Seven rectangles of one width and these heights, each demanded this often.
const O90_HEIGHTS: [f32; 7] = [992.0, 540.0, 102.0, 96.0, 102.0, 892.0, 508.0];
const O90_WIDTH: f32 = 600.0;
const O90_DEMAND: usize = 7;
const O90_BIN_W: f32 = 1990.0;
const O90_BIN_H: f32 = 995.0;
const O90_MIN_SEP: f32 = 5.0;

const FIT_EPS: f32 = 1e-4;
const GAP: f32 = 1e-3;

fn scalar(v: f32) -> Scalar {
    Scalar { bits: v.to_bits() }
}

fn rectangle(id: u64, width: f32, height: f32, demand: usize) -> ExtItem {
    ExtItem {
        base: ExtBaseItem {
            id,
            allowed_orientations: Some(vec![0.0, 90.0, 180.0, 270.0]),
            shape: ExtShape::SimplePolygon(ExtSPolygon(vec![
                (0.0, 0.0),
                (width, 0.0),
                (width, height),
                (0.0, height),
            ])),
            min_quality: None,
        },
        demand: demand as u64,
    }
}

fn bin(id: u64, width: f32, height: f32, stock: usize) -> ExtBin {
    ExtBin {
        base: ExtContainer {
            id,
            shape: ExtShape::Rectangle { x_min: 0.0, y_min: 0.0, width, height },
            zones: vec![],
        },
        stock,
        cost: 1,
    }
}

fn import(items: Vec<ExtItem>, bins: Vec<ExtBin>, min_sep: Option<f32>) -> Result<BPInstance> {
    let cde_config = CDEConfig {
        quadtree_depth: 4,
        cd_threshold: 16,
        item_surrogate_config: SPSurrogateConfig {
            n_pole_limits: [(64, 0.0), (16, 0.8), (8, 0.9)],
            n_ff_poles: 1,
            n_ff_piers: 0,
        },
    };
    let importer = Importer::new(cde_config, Some(0.001), min_sep, Some((0.01, 0.01)));
    jagua_rs::probs::bpp::io::import_instance(&importer, &ExtBPInstance { name: "boxes".into(), items, bins })
}

fn o90_instance(stock: usize) -> Result<BPInstance> {
    let items = O90_HEIGHTS.iter().enumerate().map(|(id, h)| rectangle(id as u64, O90_WIDTH, *h, O90_DEMAND)).collect();
    import(items, vec![bin(0, O90_BIN_W, O90_BIN_H, stock)], Some(O90_MIN_SEP))
}

/// An item's bounding box in the rotation it is packed in.
#[derive(Clone, Copy)]
struct Boxed {
    item_id: usize,
    rotation: f32,
    bbox: Rect,
}

/// A column or a shelf: where it starts across, how wide it is, and how far it is filled.
struct Band {
    start: f32,
    extent: f32,
    filled: f32,
}

struct Bin {
    bin_id: usize,
    room: Rect,
    bands: Vec<Band>,
    used: f32,
    placements: Vec<(usize, DTransformation)>,
    area: f32,
}

fn along_cross(w: f32, h: f32, mode: Mode) -> (f32, f32) {
    match mode {
        Mode::Column => (h, w),
        Mode::Shelf => (w, h),
    }
}

fn fits(b: &Rect, room: &Rect) -> bool {
    b.width() + GAP <= room.width() + FIT_EPS && b.height() + GAP <= room.height() + FIT_EPS
}

impl Bin {
    fn needs(b: &Boxed, mode: Mode) -> (f32, f32) {
        along_cross(b.bbox.width() + GAP, b.bbox.height() + GAP, mode)
    }

    fn room(&self, mode: Mode) -> (f32, f32) {
        along_cross(self.room.width() - GAP, self.room.height() - GAP, mode)
    }

    fn in_bands(&self, b: &Boxed, mode: Mode) -> Vec<bool> {
        let ((along, cross), room) = (Bin::needs(b, mode), self.room(mode));
        self.bands
            .iter()
            .map(|band| cross <= band.extent + FIT_EPS && band.filled + along <= room.0 + FIT_EPS)
            .collect()
    }

    fn in_new_band(&self, b: &Boxed, mode: Mode) -> bool {
        let ((along, cross), room) = (Bin::needs(b, mode), self.room(mode));
        self.used + cross <= room.1 + FIT_EPS && along <= room.0 + FIT_EPS
    }

    fn put(&mut self, b: &Boxed, slot: Slot, mode: Mode) {
        let (along, cross) = Bin::needs(b, mode);
        let i = match slot {
            Slot::Band(i) => i,
            Slot::NewBand => {
                self.bands.push(Band { start: self.used, extent: cross, filled: 0.0 });
                self.used += cross;
                self.bands.len() - 1
            }
        };
        let (x, y) = match mode {
            Mode::Column => (self.bands[i].start, self.bands[i].filled),
            Mode::Shelf => (self.bands[i].filled, self.bands[i].start),
        };
        self.bands[i].filled += along;
        let target = (self.room.x_min + x + GAP, self.room.y_min + y + GAP);
        let shift = (target.0 - b.bbox.x_min, target.1 - b.bbox.y_min);
        self.placements.push((b.item_id, DTransformation::new(b.rotation, shift)));
        self.area += b.bbox.area();
    }
}

fn oriented(item: &Item, instance: &BPInstance, mode: Mode) -> Option<Boxed> {
    let mut rotations = match &item.allowed_rotation {
        RotationRange::Discrete(list) => list.clone(),
        _ => vec![0.0],
    };
    rotations.sort_by(f32::total_cmp);
    let boxes: Vec<Boxed> = rotations
        .into_iter()
        .map(|rotation| {
            let mut shape = item.shape_cd.as_ref().clone();
            shape.transform(&Transformation::from_rotation(rotation));
            Boxed { item_id: item.id, rotation, bbox: shape.bbox }
        })
        .collect();
    let candidates = boxes
        .iter()
        .map(|b| {
            let (along, cross) = along_cross(b.bbox.width(), b.bbox.height(), mode);
            Orientation {
                fits: instance.bins.iter().any(|bin| fits(&b.bbox, &bin.container.outer_cd.bbox)),
                along: scalar(along),
                cross: scalar(cross),
                rotation: scalar(b.rotation),
            }
        })
        .collect();
    choose_orientation(&candidates).map(|i| boxes[i])
}

/// Packs the boxes; `None` if the packing fails.
fn packed(instance: &BPInstance, mode: Mode) -> Option<Vec<Bin>> {
    let mut boxes: Vec<Boxed> = vec![];
    for (item, qty) in &instance.items {
        let b = oriented(item, instance, mode)?;
        boxes.extend(std::iter::repeat_n(b, *qty));
    }
    let keys = boxes
        .iter()
        .map(|b| {
            let (along, cross) = along_cross(b.bbox.width(), b.bbox.height(), mode);
            BoxItem { item_id: b.item_id, along: scalar(along), cross: scalar(cross) }
        })
        .collect();
    let room_of = |bin_id: usize| instance.bins[bin_id].container.outer_cd.bbox;
    let stock: Vec<usize> = instance.bins.iter().map(|b| b.stock).collect();
    let costs = instance.bins.iter().map(|b| scalar(b.cost as f32 / b.container.area())).collect();
    let mut run = ShelfPacking::new(&keys, stock.clone(), costs);
    let mut bins: Vec<Bin> = vec![];
    while run.stage == PackStage::Fits || run.stage == PackStage::Opening {
        let b = boxes[run.order[run.placements.len()]];
        let event = if run.stage == PackStage::Opening {
            PackEvent::Opened { fits: bins.last().is_some_and(|bin| bin.in_new_band(&b, mode)) }
        } else {
            PackEvent::Fits {
                bands: bins.iter().map(|bin| bin.in_bands(&b, mode)).collect(),
                fresh: bins.iter().map(|bin| bin.in_new_band(&b, mode)).collect(),
                hosts: (0..instance.bins.len()).map(|i| fits(&b.bbox, &room_of(i))).collect(),
            }
        };
        match pack(&mut run, event) {
            PackAction::Place(ShelfPlacement { bin, slot, .. }) => bins[bin].put(&b, slot, mode),
            PackAction::Open { bin_id } => bins.push(Bin {
                bin_id,
                room: room_of(bin_id),
                bands: vec![],
                used: 0.0,
                placements: vec![],
                area: 0.0,
            }),
            PackAction::NoStock { .. } | PackAction::DoesNotFit { .. } => return None,
        }
    }
    assert_eq!(run.bins, bins.iter().map(|b| b.bin_id).collect::<Vec<_>>());
    for (bin_id, available) in stock.iter().enumerate() {
        let opened = run.bins.iter().filter(|b| **b == bin_id).count();
        assert_eq!(opened + run.stock[bin_id], *available, "the stock must add up");
    }
    Some(bins)
}

fn stats(bins: &[Bin]) -> StartStats {
    let densities = bins.iter().map(|b| scalar(b.area / b.room.area())).collect();
    StartStats { n_bins: bins.len(), min_density: min_bin_density(&densities) }
}

/// The better one of the two packings, laid out.
fn shelves(instance: &BPInstance) -> BPProblem {
    let (column, shelf) = (packed(instance, Mode::Column).unwrap(), packed(instance, Mode::Shelf).unwrap());
    let bins = match construct(stats(&column), stats(&shelf)) {
        Mode::Column => column,
        Mode::Shelf => shelf,
    };
    let mut prob = BPProblem::new(instance.clone());
    for bin in bins {
        let mut layout_id = BPLayoutType::Closed { bin_id: bin.bin_id };
        for (item_id, d_transf) in bin.placements {
            let (lkey, _) = prob.place_item(BPPlacement { layout_id, item_id, d_transf });
            layout_id = BPLayoutType::Open(lkey);
        }
    }
    let feasible = prob.layouts.values().map(|l| l.is_feasible()).collect();
    assert_eq!(materialise(&prob.item_demand_qtys, &feasible), Ok(()));
    prob
}

#[test]
fn shelf_packs_o90_within_the_lower_bound() -> Result<()> {
    let instance = o90_instance(100)?;
    let prob = shelves(&instance);
    assert!(
        prob.item_demand_qtys.iter().all(|&d| d == 0),
        "not all demand was placed: {:?}",
        prob.item_demand_qtys
    );
    assert_eq!(prob.n_placed_items(), instance.total_item_qty());
    assert!(prob.layouts.values().all(|l| l.is_feasible()), "the bbox packing must be collision-free");
    assert!(
        prob.layouts.len() <= 12,
        "expected at most 12 bins (the proven lower bound for the inflated geometry), got {}",
        prob.layouts.len()
    );
    Ok(())
}

#[test]
fn shelf_is_deterministic() -> Result<()> {
    let instance = o90_instance(100)?;
    let (a, b) = (shelves(&instance), shelves(&instance));
    assert_eq!(a.layouts.len(), b.layouts.len(), "bin count must match");
    let placements = |p: &BPProblem| {
        p.layouts
            .values()
            .map(|l| l.placed_items.values().map(|pi| (pi.item_id, pi.d_transf)).collect::<Vec<_>>())
            .collect::<Vec<_>>()
    };
    assert_eq!(placements(&a), placements(&b), "two shelf builds must produce identical placements");
    Ok(())
}

#[test]
fn a_shelf_packing_keeps_to_the_stock() -> Result<()> {
    assert!(packed(&o90_instance(12)?, Mode::Column).is_some() || packed(&o90_instance(12)?, Mode::Shelf).is_some());
    assert!(packed(&o90_instance(11)?, Mode::Column).is_none());
    assert!(packed(&o90_instance(11)?, Mode::Shelf).is_none());
    Ok(())
}

#[test]
fn an_item_has_to_fit_into_one_bin() -> Result<()> {
    // One bin is wide enough for the item upright, the other one tall enough: it has to lie.
    let instance = import(vec![rectangle(0, 20.0, 50.0, 1)], vec![bin(0, 100.0, 30.0, 1), bin(1, 15.0, 100.0, 1)], None)?;
    for mode in [Mode::Column, Mode::Shelf] {
        let b = oriented(&instance.items[0].0, &instance, mode).unwrap();
        assert!(b.bbox.width() > b.bbox.height(), "it fits into no bin upright");
        assert_eq!(packed(&instance, mode).unwrap()[0].bin_id, 0);
    }
    Ok(())
}

fn lay_key(lkey: OpenKey) -> LayKey {
    LayKey { rank: lkey.data().as_ffi().rotate_left(32) }
}

fn open_key(key: LayKey) -> OpenKey {
    OpenKey::from(KeyData::from_ffi(key.rank.rotate_left(32)))
}

fn layout_states(prob: &BPProblem) -> Vec<LayoutState> {
    prob.layouts
        .iter()
        .map(|(lkey, layout)| {
            let area: f32 = layout.placed_items.values().map(|pi| prob.instance.item(pi.item_id).area()).sum();
            LayoutState {
                key: lay_key(lkey),
                bin_id: layout.container.id,
                density: scalar(area / layout.container.area()),
                free_area: scalar(layout.container.area() - area),
                items: layout
                    .placed_items
                    .iter()
                    .map(|(pk, pi)| PlacedItem {
                        key: PItemKey { rank: pk.data().as_ffi().rotate_left(32) },
                        item_id: pi.item_id,
                        area: scalar(prob.instance.item(pi.item_id).area()),
                    })
                    .collect(),
            }
        })
        .collect()
}

/// Closes a bin and scatters its items over the others, at the middle of each. Whether it was closed is
/// returned.
fn close_bin(prob: &mut BPProblem, target: OpenKey) -> bool {
    let fits = prob.instance.items.iter().map(|_| vec![true; prob.instance.bins.len()]).collect();
    let scatter = match close_bin_and_scatter(&layout_states(prob), lay_key(target), &fits) {
        ScatterDecision::Scatter(s) => s,
        ScatterDecision::OnlyBin | ScatterDecision::DoesNotFit(_) => return false,
    };
    for key in scatter.removals {
        prob.remove_item(target, PlacedKey::from(KeyData::from_ffi(key.rank.rotate_left(32))));
    }
    for p in scatter.placements {
        let lkey = open_key(p.dst);
        let room = prob.layouts[lkey].container.outer_cd.bbox;
        let middle = ((room.x_min + room.x_max) / 2.0, (room.y_min + room.y_max) / 2.0);
        let layout_id = BPLayoutType::Open(lkey);
        prob.place_item(BPPlacement { layout_id, item_id: p.item_id, d_transf: DTransformation::new(0.0, middle) });
    }
    true
}

#[test]
fn bpp_close_bin_is_noop_with_single_layout() -> Result<()> {
    let mut prob = shelves(&o90_instance(100)?);
    while prob.layouts.len() > 1 {
        let lkey = prob.layouts.keys().next().unwrap();
        prob.remove_layout(lkey);
    }
    let lkey = prob.layouts.keys().next().unwrap();
    let n_items = prob.n_placed_items();
    assert!(!close_bin(&mut prob, lkey), "closing the only bin must be a no-op");
    assert_eq!(prob.layouts.len(), 1);
    assert_eq!(prob.n_placed_items(), n_items);
    Ok(())
}

#[test]
fn a_closed_bin_leaves_its_items_to_the_others() -> Result<()> {
    let instance = import(vec![rectangle(0, 40.0, 40.0, 9)], vec![bin(0, 100.0, 100.0, 5)], None)?;
    let mut prob = shelves(&instance);
    let n_bins = prob.layouts.len();
    assert!(n_bins >= 3);
    let lkey = prob.layouts.keys().next().unwrap();
    assert!(close_bin(&mut prob, lkey));
    assert_eq!(prob.layouts.len(), n_bins - 1);
    assert_eq!(prob.n_placed_items(), 9, "no item is lost");
    Ok(())
}
