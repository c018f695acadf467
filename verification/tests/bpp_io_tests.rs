//! Bin declarations, solutions to start from, and what a report draws.
use anyhow::Result;
use jagua_rs::collision_detection::CDEConfig;
use jagua_rs::entities::{Instance, Layout};
use jagua_rs::geometry::fail_fast::SPSurrogateConfig;
use jagua_rs::geometry::DTransformation;
use jagua_rs::io::ext_repr::{ExtContainer, ExtItem as ExtBaseItem, ExtSPolygon, ExtShape};
use jagua_rs::io::import::Importer;
use jagua_rs::probs::bpp::entities::{BPInstance, BPLayoutType, BPPlacement, BPProblem, BPSolution};
use jagua_rs::probs::bpp::io::ext_repr::{ExtBPInstance, ExtBPSolution, ExtBin, ExtItem};
use jagua_rs::probs::spp::io::ext_repr::{ExtItem as ExtStripItem, ExtSPInstance};
use sparrow::scalar::Scalar;
use sparrow::text::trim;
use sparrow::util::bpp_io::{
    bp_instance_from_sp, import_bp_solution, read_bpp_input, strip_input, summarize, BPSolutionListener, BPSvgExporter,
    BinInput, BinSpec, DummyBPSolListener, ImportError, ImportLayout, RectBin, SvgTarget, DEFAULT_BIN_COST,
    DEFAULT_BIN_STOCK,
};
use sparrow::util::io::{read_spp_input, InputError};
use sparrow::util::listener::ReportType;

fn scalar(v: f32) -> Scalar {
    Scalar { bits: v.to_bits() }
}

fn bin_spec(s: &str) -> Result<BinSpec, String> {
    let number = |t: &str| trim(t).parse::<f32>().ok().map(scalar);
    let (width, height) = match BinSpec::dimensions(s) {
        Some((w, h)) => (number(w), number(h)),
        None => (None, None),
    };
    BinSpec::from_str(s, width, height)
}

fn spec(width: f32, height: f32, stock: usize, cost: u64) -> BinSpec {
    BinSpec { width: scalar(width), height: scalar(height), stock, cost }
}

#[test]
fn bin_spec_parsing() {
    assert_eq!(bin_spec("100x200").unwrap(), spec(100.0, 200.0, DEFAULT_BIN_STOCK, DEFAULT_BIN_COST));
    assert_eq!(bin_spec("100x200:7").unwrap(), spec(100.0, 200.0, 7, DEFAULT_BIN_COST));
    assert_eq!(bin_spec("100x200:7:3").unwrap(), spec(100.0, 200.0, 7, 3));
    assert_eq!(bin_spec("3200.5X1000.25:2:5").unwrap(), spec(3200.5, 1000.25, 2, 5));

    for bad in ["", "100", "100x", "x200", "axb", "100x200:", "100x200:0", "100x200:1:2:3", "-1x200", "0x200"] {
        assert!(bin_spec(bad).is_err(), "'{bad}' should not parse as a BinSpec");
    }

    let specs = ["10x10", "20x20:5", "30x30:5:2"].map(|s| bin_spec(s).unwrap());
    for (id, spec) in specs.iter().enumerate() {
        assert_eq!(spec.to_ext_bin(id).id, id);
    }
}

#[test]
fn bad_bin_specs_are_explained() {
    let err = |s: &str| bin_spec(s).unwrap_err();
    assert_eq!(err("100"), "invalid bin spec '100': expected WxH[:stock[:cost]]");
    assert_eq!(err("ax2:1"), "invalid bin width 'a' in 'ax2:1'");
    assert_eq!(err("2x:1"), "invalid bin height '' in '2x:1'");
    assert_eq!(err("infx2"), "bin dimensions must be finite and positive: 'infx2'");
    assert_eq!(err("1x2:y"), "invalid bin stock 'y' in '1x2:y'");
    assert_eq!(err("1x2:0"), "bin stock must be > 0: '1x2:0'");
    assert_eq!(err("1x2:3:z"), "invalid bin cost 'z' in '1x2:3:z'");
    assert_eq!(
        err("1x2:3:4:5"),
        "too many ':' separated fields in bin spec '1x2:3:4:5': expected WxH[:stock[:cost]]"
    );
    assert_eq!(bin_spec(" 1 x 2 : 3 : 4 ").unwrap(), spec(1.0, 2.0, 3, 4));
}

#[test]
fn a_bin_spec_reads_back() {
    let s = spec(3200.5, 1000.25, 2, 5);
    let text = s.to_string("3200.5", "1000.25");
    assert_eq!(text, "3200.5x1000.25:2:5");
    assert_eq!(bin_spec(&text).unwrap(), s);
}

fn strip_item(id: u64, side: f32, demand: u64) -> ExtStripItem {
    let square = vec![(0.0, 0.0), (side, 0.0), (side, side), (0.0, side)];
    ExtStripItem {
        base: ExtBaseItem {
            id,
            allowed_orientations: Some(vec![0.0, 90.0]),
            shape: ExtShape::SimplePolygon(ExtSPolygon(square)),
            min_quality: None,
        },
        demand,
    }
}

/// A strip packing instance, as text.
fn strip_text() -> String {
    let items = vec![strip_item(0, 900.0, 12), strip_item(1, 400.0, 3)];
    serde_json::to_string(&ExtSPInstance { name: "squares".into(), items, strip_height: 1000.0 }).unwrap()
}

/// A bin packing instance, as text.
fn bin_text() -> String {
    serde_json::to_string(&ext_bp_instance(&vec![spec(2000.0, 2000.0, 100, 1)])).unwrap()
}

#[test]
fn sp_instance_without_bins_errors() {
    let res = read_bpp_input(&strip_text(), false, 0);
    assert!(matches!(res, Err(InputError::NoBins)), "an SPP instance without --bin should be rejected");
}

#[test]
fn inputs_are_taken_as_the_first_form_that_fits() {
    assert!(matches!(read_bpp_input(&bin_text(), true, 0), Ok(BinInput::Solved)));
    match read_bpp_input(&bin_text(), false, 3) {
        Ok(BinInput::Instance(i)) => {
            assert_eq!(i.items, vec![(0, 12)]);
            assert_eq!((i.outside.name.as_str(), i.outside.bins.len()), ("squares", 1));
        }
        _ => panic!("bins in the file win over those of the command line"),
    }
    match read_bpp_input(&strip_text(), false, 1) {
        Ok(BinInput::Strip(i)) => assert_eq!(i.items, vec![(0, 12), (1, 3)]),
        _ => panic!("a strip packing instance gets the bins of the command line"),
    }
    match read_bpp_input("{", false, 1) {
        Err(InputError::Unreadable { reason }) => assert!(reason.contains("EOF"), "{reason}"),
        _ => panic!("half an object is no instance"),
    }
}

#[test]
fn strip_inputs_are_read() {
    assert!(matches!(read_spp_input(&strip_text(), true), Ok(None)));
    match read_spp_input(&strip_text(), false) {
        Ok(Some(i)) => {
            assert_eq!(i.items, vec![(0, 12), (1, 3)]);
            assert_eq!((i.outside.name.as_str(), i.outside.strip_height), ("squares", 1000.0));
        }
        _ => panic!("an instance without a solution is read as one"),
    }
    match read_spp_input(&bin_text(), false) {
        Err(InputError::Unreadable { reason }) => assert!(reason.contains("strip_height"), "{reason}"),
        _ => panic!("bins make no strip"),
    }
}

#[test]
fn a_strip_needs_bins_from_the_command_line() {
    let strip = || Ok(read_spp_input(&strip_text(), false).unwrap().unwrap());
    assert!(matches!(strip_input(strip(), 0), Err(InputError::NoBins)));
    assert!(matches!(strip_input(strip(), 2), Ok(BinInput::Strip(i)) if i.items.len() == 2));
    let refused = strip_input(Err("no strip".to_string()), 2);
    assert!(matches!(refused, Err(InputError::Unreadable { reason }) if reason == "no strip"));
}

#[test]
fn bins_from_the_command_line_are_numbered() {
    let bins = vec![spec(1.0, 2.0, 3, 4), spec(5.0, 6.0, 7, 8)];
    let expected: Vec<RectBin> = bins.iter().enumerate().map(|(id, b)| b.to_ext_bin(id)).collect();
    assert_eq!(bp_instance_from_sp(&bins), expected);
    assert_eq!(expected[1], RectBin { id: 1, width: scalar(5.0), height: scalar(6.0), stock: 7, cost: 8 });
}

fn importer() -> Importer {
    let cde_config = CDEConfig {
        quadtree_depth: 4,
        cd_threshold: 16,
        item_surrogate_config: SPSurrogateConfig {
            n_pole_limits: [(64, 0.0), (16, 0.8), (8, 0.9)],
            n_ff_poles: 1,
            n_ff_piers: 0,
        },
    };
    Importer::new(cde_config, Some(0.001), None, Some((0.01, 0.01)))
}

/// Twelve 900 x 900 squares, to be packed into the given bins.
fn ext_bp_instance(bins: &Vec<BinSpec>) -> ExtBPInstance {
    ExtBPInstance {
        name: "squares".into(),
        items: vec![ExtItem {
            base: ExtBaseItem {
                id: 0,
                allowed_orientations: Some(vec![0.0]),
                shape: ExtShape::SimplePolygon(ExtSPolygon(vec![
                    (0.0, 0.0),
                    (900.0, 0.0),
                    (900.0, 900.0),
                    (0.0, 900.0),
                ])),
                min_quality: None,
            },
            demand: 12,
        }],
        bins: bp_instance_from_sp(bins)
            .iter()
            .map(|b| ExtBin {
                base: ExtContainer {
                    id: b.id as u64,
                    shape: ExtShape::Rectangle {
                        x_min: 0.0,
                        y_min: 0.0,
                        width: f32::from_bits(b.width.bits),
                        height: f32::from_bits(b.height.bits),
                    },
                    zones: vec![],
                },
                stock: b.stock,
                cost: b.cost,
            })
            .collect(),
    }
}

#[test]
fn sp_instance_plus_bins_imports() -> Result<()> {
    let sp_instance = read_spp_input(&strip_text(), false).unwrap().unwrap();
    let bins = vec![bin_spec("3200x3200:100:1").unwrap()];
    let Ok(BinInput::Strip(strip)) = read_bpp_input(&strip_text(), false, bins.len()) else {
        panic!("a strip packing instance gets the bins of the command line");
    };
    assert_eq!(strip.items, sp_instance.items);
    let ext_instance = ExtBPInstance {
        name: strip.outside.name,
        items: strip.outside.items.into_iter().map(|it| ExtItem { base: it.base, demand: it.demand }).collect(),
        bins: ext_bp_instance(&bins).bins,
    };

    assert_eq!(ext_instance.name, sp_instance.outside.name);
    assert_eq!(ext_instance.items.len(), sp_instance.outside.items.len());
    assert_eq!(ext_instance.bins.len(), 1);
    assert_eq!(ext_instance.bins[0].stock, 100);
    assert_eq!(ext_instance.bins[0].cost, 1);

    let instance = jagua_rs::probs::bpp::io::import_instance(&importer(), &ext_instance)?;
    assert_eq!(instance.bins.len(), 1);
    assert_eq!(
        instance.total_item_qty(),
        sp_instance.outside.items.iter().map(|i| i.demand as usize).sum::<usize>()
    );
    Ok(())
}

/// Carries out the placements that rebuild a solution.
fn rebuild(instance: &BPInstance, ext: &ExtBPSolution) -> Result<BPSolution, String> {
    let layouts: Vec<ImportLayout> = ext
        .layouts
        .iter()
        .map(|l| ImportLayout {
            bin_id: l.container_id as usize,
            items: l.placed_items.iter().map(|p| p.item_id as usize).collect(),
        })
        .collect();
    let stock: Vec<usize> = instance.bins.iter().map(|b| b.stock).collect();
    let demand: Vec<usize> = instance.items.iter().map(|(_, qty)| *qty).collect();
    let plan = import_bp_solution(&layouts, &stock, &demand).map_err(|e| e.to_string(stock.len(), demand[0]))?;
    let mut prob = BPProblem::new(instance.clone());
    let mut last = None;
    for p in plan {
        let ext_t = DTransformation::from(ext.layouts[p.layout].placed_items[p.index].transformation.clone());
        let d_transf = jagua_rs::io::import::ext_to_int_transformation(
            &ext_t,
            &instance.item(p.item_id).shape_orig.pre_transform,
        );
        let layout_id = match p.opens {
            Some(bin_id) => BPLayoutType::Closed { bin_id },
            None => BPLayoutType::Open(last.unwrap()),
        };
        let (key, _) = prob.place_item(BPPlacement { layout_id, item_id: p.item_id, d_transf });
        last = Some(key);
    }
    Ok(prob.save())
}

#[test]
fn solution_round_trip() -> Result<()> {
    let bins = vec![bin_spec("2000x2000:100:1").unwrap()];
    let instance = jagua_rs::probs::bpp::io::import_instance(&importer(), &ext_bp_instance(&bins))?;
    let mut prob = BPProblem::new(instance.clone());
    for i in 0..12 {
        let corner = DTransformation::new(0.0, (10.0 + (i % 2) as f32 * 950.0, 10.0 + (i / 2 % 2) as f32 * 950.0));
        let d_transf = jagua_rs::io::import::ext_to_int_transformation(
            &corner,
            &instance.item(0).shape_orig.pre_transform,
        );
        let layout_id = match (i % 4, prob.layouts.keys().last()) {
            (0, _) | (_, None) => BPLayoutType::Closed { bin_id: 0 },
            (_, Some(key)) => BPLayoutType::Open(key),
        };
        prob.place_item(BPPlacement { layout_id, item_id: 0, d_transf });
    }
    let original = prob.save();
    assert!(original.layout_snapshots.len() >= 3, "expected >= 3 bins");

    let ext_solution = jagua_rs::probs::bpp::io::export(&instance, &original, jagua_rs::Instant::now());
    let rebuilt = rebuild(&instance, &ext_solution).unwrap();
    assert_eq!(rebuilt.cost(&instance), original.cost(&instance), "cost changed over the round trip");
    assert_eq!(rebuilt.layout_snapshots.len(), original.layout_snapshots.len(), "number of layouts changed");
    let dens_diff = (rebuilt.density(&instance) - original.density(&instance)).abs();
    assert!(dens_diff < 1e-4, "density changed by {dens_diff} over the round trip");
    let counts = |s: &BPSolution| s.layout_snapshots.values().map(|l| l.placed_items.len()).collect::<Vec<_>>();
    assert_eq!(counts(&rebuilt), counts(&original), "per-layout item counts changed over the round trip");
    for snapshot in rebuilt.layout_snapshots.values() {
        assert!(Layout::from_snapshot(snapshot).is_feasible(), "a rebuilt layout is not feasible");
    }
    let ids = |s: &BPSolution| s.layout_snapshots.values().map(|l| l.container.id).collect::<Vec<_>>();
    assert_eq!(ids(&rebuilt), ids(&original), "bin ids changed over the round trip");
    Ok(())
}

fn layout(bin_id: usize, items: &[usize]) -> ImportLayout {
    ImportLayout { bin_id, items: items.to_vec() }
}

#[test]
fn imports_keep_to_the_stock_and_the_demand() {
    let (stock, demand) = (vec![2, 1], vec![2, 3]);
    let plan = import_bp_solution(&vec![layout(0, &[0, 1]), layout(1, &[]), layout(1, &[1])], &stock, &demand).unwrap();
    let steps: Vec<_> = plan.iter().map(|p| (p.layout, p.index, p.item_id, p.opens)).collect();
    assert_eq!(steps, vec![(0, 0, 0, Some(0)), (0, 1, 1, None), (2, 0, 1, Some(1))]);

    let fails = |layouts: Vec<ImportLayout>| import_bp_solution(&layouts, &stock, &demand).unwrap_err();
    let e = fails(vec![layout(2, &[])]);
    assert_eq!(e, ImportError::UnknownBin { layout: 0, bin_id: 2 });
    assert_eq!(e.to_string(2, 0), "layout 0 references unknown bin id 2 (instance has 2 bin types)");
    let e = fails(vec![layout(1, &[0]), layout(1, &[1])]);
    assert_eq!(e, ImportError::NoStock { layout: 1, bin_id: 1 });
    assert_eq!(e.to_string(2, 0), "layout 1: no stock left for bin type 1");
    let e = fails(vec![layout(0, &[1, 2])]);
    assert_eq!(e, ImportError::UnknownItem { layout: 0, item_id: 2 });
    assert_eq!(e.to_string(2, 0), "layout 0 references unknown item id 2");
    let e = fails(vec![layout(0, &[0, 0]), layout(0, &[1, 0])]);
    assert_eq!(e, ImportError::TooMany { layout: 1, item_id: 0 });
    assert_eq!(e.to_string(2, 2), "layout 1 places more copies of item 0 than the instance demands (2)");
}

#[test]
fn an_import_gives_the_layouts_back() {
    let layouts = vec![layout(1, &[0, 1, 0]), layout(0, &[1]), layout(1, &[1, 0])];
    let plan = import_bp_solution(&layouts, &vec![1, 2], &vec![3, 3]).unwrap();
    let mut bins: Vec<(usize, Vec<usize>)> = vec![];
    for p in &plan {
        match p.opens {
            Some(bin_id) => bins.push((bin_id, vec![p.item_id])),
            None => bins.last_mut().unwrap().1.push(p.item_id),
        }
    }
    assert_eq!(bins, layouts.iter().map(|l| (l.bin_id, l.items.clone())).collect::<Vec<_>>());
}

#[test]
fn solutions_are_summarized() {
    let per_bin = vec!["80.0%".to_string(), "75.5%".to_string()];
    assert_eq!(
        summarize(7, "77.750", &per_bin),
        "cost: 7, #bins: 2, density: 77.750%, per-bin: [80.0%, 75.5%]"
    );
    assert_eq!(summarize(0, "0.000", &vec![]), "cost: 0, #bins: 0, density: 0.000%, per-bin: []");
}

#[test]
fn reports_draw_one_file_per_bin() {
    let target = SvgTarget { dir: "output".into(), stem: "final_x".into() };
    let mut exporter = BPSvgExporter::new(Some(target), Some("sols".into()), Some("live".into()));
    let mut names = |report, cost| -> Vec<(String, String, bool)> {
        exporter.report(report, cost, 2).into_iter().map(|f| (f.dir, f.name, f.announced)).collect()
    };
    let file = |dir: &str, name: &str, announced| (dir.to_string(), name.to_string(), announced);
    let live = [file("live", ".live_solution_bin0", false), file("live", ".live_solution_bin1", false)];

    let mut expected = live.to_vec();
    expected.extend([file("sols", "0_9_expl_f_bin0", false), file("sols", "0_9_expl_f_bin1", false)]);
    assert_eq!(names(ReportType::ExplFeas, 9), expected);
    // An improvement is drawn live only, and does not count.
    assert_eq!(names(ReportType::ExplImproving, 9), live.to_vec());
    assert_eq!(names(ReportType::ExplInfeas, 8)[2].1, "1_8_expl_nf_bin0");
    assert_eq!(names(ReportType::CmprFeas, 8)[2].1, "2_8_cmpr_bin0");
    let last = names(ReportType::Final, 8);
    assert_eq!(last[2].1, "3_8_final_bin0");
    assert_eq!(last[4..], [file("output", "final_x_bin0", true), file("output", "final_x_bin1", true)]);

    let mut quiet = BPSvgExporter::new(None, None, None);
    assert!(quiet.report(ReportType::Final, 1, 5).is_empty());
    assert_eq!(quiet.svg_counter, 0);
    assert!(DummyBPSolListener.report(ReportType::Final, 1, 5).is_empty());
}
