use fla::bbox::BoundingBox;
use fla::coord::Coord;
use fla::edge::{Edge, EdgeDefinition};
use fla::render::{resolve_edge, DomSymbolRenderError, PathOp, UnsupportedFeature, STROKE_WIDTH};
use fla::shape::{
    DomShape, Edges, Fill, FillStyle, Fills, SolidColor, SolidStroke, StrokeStyle, Strokes,
};
use fla::timeline::{
    keyframe_index, DomFrame, DomLayer, DomSymbol, DomTimeline, Elements, Frames, Layers,
    Timeline,
};

fn edge(def: &str, fill: Option<u64>, stroke: Option<u64>) -> Edge {
    Edge {
        fill_style_1: fill,
        stroke_style: stroke,
        edges: Some(EdgeDefinition::try_from(def).unwrap()),
    }
}

fn color(c: Option<&str>) -> SolidColor {
    SolidColor { color: c.map(|s| s.to_string()) }
}

fn fill_style(index: u64, c: Option<&str>) -> FillStyle {
    FillStyle { index: Some(index), solid_color: Some(color(c)) }
}

fn stroke_style(index: u64, c: Option<&str>) -> StrokeStyle {
    StrokeStyle {
        index: Some(index),
        solid_stroke: SolidStroke { fill: Fill { solid_color: c.map(|s| color(Some(s))) } },
    }
}

fn shape(edges: Vec<Edge>, fills: Vec<FillStyle>, strokes: Vec<StrokeStyle>) -> DomShape {
    DomShape {
        selected: None,
        is_floating: None,
        fills: Some(Fills { fill_styles: fills }),
        strokes: Some(Strokes { stroke_styles: strokes }),
        edges: Edges { edges },
    }
}

fn frame(index: u64, shapes: Vec<DomShape>) -> DomFrame {
    DomFrame { index, key_mode: 0, elements: Elements { dom_shapes: shapes } }
}

fn layer(frames: Vec<DomFrame>) -> DomLayer {
    DomLayer {
        name: "Layer".to_string(),
        color: "#000000".to_string(),
        current: None,
        is_selected: None,
        auto_named: None,
        frames: Frames { dom_frames: frames },
    }
}

fn symbol(layers: Vec<DomLayer>) -> DomSymbol {
    DomSymbol {
        name: "Symbol".to_string(),
        item_id: "id".to_string(),
        linkage_export_for_as: None,
        linkage_class_name: None,
        last_modified: "0".to_string(),
        timeline: Timeline {
            dom_timeline: DomTimeline {
                name: "Symbol".to_string(),
                guides: None,
                layers: Layers { dom_layers: layers },
            },
        },
    }
}

fn stroked_triangle() -> DomShape {
    shape(
        vec![edge("!0 0|10 0|10 10S4", None, Some(1))],
        vec![],
        vec![stroke_style(1, Some("#336699"))],
    )
}

fn value(c: &Coord) -> (i128, usize) {
    let mut n: i128 = 0;
    for limb in c.magnitude().limbs().iter().rev() {
        n = n * (1i128 << 32) + *limb as i128;
    }
    (if c.is_negative() { -n } else { n }, c.den())
}

fn bbox_values(b: &BoundingBox) -> [(i128, usize); 4] {
    [value(&b.min_x), value(&b.min_y), value(&b.max_x), value(&b.max_y)]
}

#[test]
fn stroke_only_edge_draws_one_stroked_path_and_no_fill() {
    let sym = symbol(vec![layer(vec![frame(0, vec![stroked_triangle()])])]);
    let plan = sym.render_plan().unwrap();
    assert_eq!(plan.frames.len(), 1);
    let paints = &plan.frames[0].paints;
    assert_eq!(paints.len(), 1);
    assert_eq!(paints.iter().filter(|p| p.stroke.is_some()).count(), 1);
    assert_eq!(paints.iter().filter(|p| p.fill.is_some()).count(), 0);
    assert_eq!(paints[0].stroke, Some((0x33, 0x66, 0x99)));
    assert_eq!(paints[0].path.len(), 4);
    assert!(matches!(paints[0].path[0], PathOp::MoveTo(_, _)));
    assert!(matches!(paints[0].path[3], PathOp::Close));
    assert_eq!(bbox_values(&plan.bounding_box), [(0, 1), (0, 1), (10, 1), (10, 1)]);
}

#[test]
fn compositor_wraps_short_layers() {
    let short = layer((0..3).map(|i| frame(i, vec![stroked_triangle()])).collect());
    let long = layer((0..5).map(|i| frame(10 + i, vec![])).collect());
    let sym = symbol(vec![short, long]);
    assert_eq!(sym.num_frames(), 5);
    let picked: Vec<usize> = (0..5).map(|i| keyframe_index(i, 3)).collect();
    assert_eq!(picked, vec![0, 1, 2, 0, 1]);
    let shown: Vec<u64> = (0..5)
        .map(|i| sym.get_layers()[0].keyframe_at(i).unwrap().index)
        .collect();
    assert_eq!(shown, vec![0, 1, 2, 0, 1]);
    let plan = sym.render_plan().unwrap();
    assert_eq!(plan.frames.len(), 5);
    for f in plan.frames.iter() {
        assert_eq!(f.paints.len(), 1);
    }
}

#[test]
fn layer_without_keyframes_draws_nothing() {
    let sym = symbol(vec![layer(vec![]), layer(vec![frame(0, vec![stroked_triangle()])])]);
    assert_eq!(sym.num_frames(), 1);
    assert!(sym.get_layers()[0].keyframe_at(0).is_none());
    let plan = sym.render_plan().unwrap();
    assert_eq!(plan.frames[0].paints.len(), 1);
}

#[test]
fn symbol_without_edges_has_no_bounding_box() {
    let empty_shape = shape(vec![], vec![], vec![]);
    let sym = symbol(vec![layer(vec![frame(0, vec![empty_shape]), frame(1, vec![])])]);
    assert!(sym.calc_bounding_box().is_none());
    assert_eq!(sym.render_plan().err(), Some(DomSymbolRenderError::NoBoundingBox));
    assert_eq!(symbol(vec![]).render_plan().err(), Some(DomSymbolRenderError::NoBoundingBox));
}

#[test]
fn second_selection_is_unsupported() {
    for def in ["!0 0S4|1 1S2", "!0 0S4|1 1S4", "S0!1 1S0", "S1!0 0S2"] {
        let s = shape(vec![edge(def, Some(1), Some(1))], vec![fill_style(1, None)], vec![
            stroke_style(1, None),
        ]);
        assert_eq!(
            resolve_edge(&s, &s.get_edges()[0]).err(),
            Some(DomSymbolRenderError::Unsupported(UnsupportedFeature::SelectionMaskOverwrite))
        );
        let sym = symbol(vec![layer(vec![frame(0, vec![s])])]);
        assert_eq!(
            sym.render_plan().err(),
            Some(DomSymbolRenderError::Unsupported(UnsupportedFeature::SelectionMaskOverwrite))
        );
    }
}

#[test]
fn move_after_selection_draws_a_line() {
    let s = shape(vec![edge("!0 0S2!5 5|6 6", Some(3), None)], vec![fill_style(3, Some("#FF0000"))], vec![]);
    let paint = resolve_edge(&s, &s.get_edges()[0]).unwrap().unwrap();
    assert_eq!(paint.fill, Some((255, 0, 0)));
    assert_eq!(paint.stroke, None);
    assert!(matches!(paint.path[0], PathOp::MoveTo(_, _)));
    assert!(matches!(paint.path[1], PathOp::LineTo(_, _)));
    assert!(matches!(paint.path[2], PathOp::LineTo(_, _)));
    assert!(matches!(paint.path[3], PathOp::Close));
    assert_eq!(paint.path.len(), 4);
}

#[test]
fn fill_and_stroke_both_apply() {
    let s = shape(
        vec![edge("!0 0|4 0|4 4S6", Some(1), Some(2))],
        vec![fill_style(1, Some("#010203"))],
        vec![stroke_style(2, None)],
    );
    let paint = resolve_edge(&s, &s.get_edges()[0]).unwrap().unwrap();
    assert_eq!(paint.fill, Some((1, 2, 3)));
    assert_eq!(paint.stroke, Some((0, 0, 0)));
}

#[test]
fn edge_without_selection_draws_nothing() {
    let s = shape(vec![edge("!0 0|4 0", None, None), edge("!0 0|1 1S0", None, None)], vec![], vec![]);
    assert!(resolve_edge(&s, &s.get_edges()[0]).unwrap().is_none());
    assert!(resolve_edge(&s, &s.get_edges()[1]).unwrap().is_none());
    let sym = symbol(vec![layer(vec![frame(0, vec![s])])]);
    let plan = sym.render_plan().unwrap();
    assert_eq!(plan.frames.len(), 1);
    assert_eq!(plan.frames[0].paints.len(), 0);
}

#[test]
fn each_render_error_kind() {
    let cases: Vec<(Edge, Vec<FillStyle>, Vec<StrokeStyle>, DomSymbolRenderError)> = vec![
        (edge("!0 0S1", Some(1), None), vec![fill_style(1, None)], vec![],
            DomSymbolRenderError::Unsupported(UnsupportedFeature::FillStyle0)),
        (edge("!0 0S2", None, None), vec![fill_style(1, None)], vec![],
            DomSymbolRenderError::MissingFillStyleIndex(1)),
        (edge("!0 0S2", Some(7), None), vec![fill_style(1, None)], vec![],
            DomSymbolRenderError::MissingFillStyle(7)),
        (edge("!0 0S2", Some(1), None), vec![FillStyle { index: Some(1), solid_color: None }], vec![],
            DomSymbolRenderError::MissingColor),
        (edge("!0 0S2", Some(1), None), vec![fill_style(1, Some("#GG0000"))], vec![],
            DomSymbolRenderError::InvalidRbg),
        (edge("!0 0S4", None, None), vec![], vec![stroke_style(1, None)],
            DomSymbolRenderError::MissingStrokeStyleIndex),
        (edge("!0 0S4", None, Some(2)), vec![], vec![stroke_style(1, None)],
            DomSymbolRenderError::MissingStrokeStyle(2)),
        (edge("!0 0S4", None, Some(1)), vec![], vec![stroke_style(1, Some("#12"))],
            DomSymbolRenderError::InvalidRbg),
    ];
    for (e, fills, strokes, expected) in cases {
        let s = shape(vec![e], fills, strokes);
        assert_eq!(resolve_edge(&s, &s.get_edges()[0]).err(), Some(expected));
    }
}

#[test]
fn error_in_a_later_frame_fails_the_whole_render() {
    let good = frame(0, vec![stroked_triangle()]);
    let bad = frame(1, vec![shape(vec![edge("!0 0S4", None, Some(9))], vec![], vec![])]);
    let sym = symbol(vec![layer(vec![good, bad])]);
    assert_eq!(sym.render_plan().err(), Some(DomSymbolRenderError::MissingStrokeStyle(9)));
    assert!(sym.render_frame(0).is_ok());
}

#[test]
fn first_style_with_an_index_wins() {
    let s = shape(
        vec![],
        vec![fill_style(1, Some("#000001")), fill_style(1, Some("#000002"))],
        vec![stroke_style(4, Some("#0000AA")), stroke_style(4, None)],
    );
    let f = s.get_fill_style(1).unwrap();
    assert_eq!(f.solid_color.as_ref().unwrap().get_rgb(), Some((0, 0, 1)));
    assert!(s.get_fill_style(2).is_none());
    assert!(s.get_stroke_style(4).unwrap().solid_stroke.fill.solid_color.is_some());
    let bare = DomShape { selected: None, is_floating: None, fills: None, strokes: None, edges: Edges { edges: vec![] } };
    assert!(bare.get_fill_style(1).is_none());
    assert!(bare.get_stroke_style(1).is_none());
}

#[test]
fn colors_read_two_hex_digits_per_channel() {
    assert_eq!(color(Some("#FF8800")).get_rgb(), Some((255, 136, 0)));
    assert_eq!(color(Some("#ff8800ff")).get_rgb(), Some((255, 136, 0)));
    assert_eq!(color(None).get_rgb(), Some((0, 0, 0)));
    assert_eq!(color(Some("#FF88")).get_rgb(), None);
    assert_eq!(color(Some("#+F0000")).get_rgb(), Some((15, 0, 0)));
    assert_eq!(color(Some("#-F0000")).get_rgb(), None);
    assert_eq!(color(Some("é12345678")).get_rgb(), None);
}

#[test]
fn bounding_box_uses_curve_end_points_only() {
    let s = shape(vec![edge("!0 0[100 -50 10 10", None, None)], vec![], vec![]);
    let b = s.calc_bounding_box().unwrap();
    assert_eq!(bbox_values(&b), [(0, 1), (0, 1), (10, 1), (10, 1)]);
}

#[test]
fn bounding_boxes_grow_over_shapes_frames_and_layers() {
    let a = shape(vec![edge("!-5 1|2 3", None, None)], vec![], vec![]);
    let b = shape(vec![edge("!0 -7", None, None)], vec![], vec![]);
    let c = shape(vec![edge("!#10.80 0", None, None)], vec![], vec![]);
    let f0 = frame(0, vec![a, b]);
    assert_eq!(bbox_values(&f0.calc_bounding_box().unwrap()), [(-5, 1), (-7, 1), (2, 1), (3, 1)]);
    let l0 = layer(vec![f0, frame(1, vec![c])]);
    let lb = l0.calc_bounding_box().unwrap();
    assert_eq!(bbox_values(&lb)[2], (16 * 256 + 128, 256));
    let d = shape(vec![edge("!1 100", None, None)], vec![], vec![]);
    let sym = symbol(vec![l0, layer(vec![frame(0, vec![d])])]);
    assert_eq!(
        bbox_values(&sym.calc_bounding_box().unwrap()),
        [(-5, 1), (-7, 1), (16 * 256 + 128, 256), (100, 1)]
    );
}

#[test]
fn stroke_width_is_twenty_units() {
    assert_eq!(STROKE_WIDTH, 20);
}

#[test]
fn symbol_layer_lookup() {
    let sym = symbol(vec![layer(vec![frame(3, vec![])])]);
    assert!(sym.get_layer(0).is_some());
    assert!(sym.get_layer(1).is_none());
    assert_eq!(sym.get_layer(0).unwrap().num_frames(), 1);
    assert_eq!(sym.get_layer(0).unwrap().get_frames()[0].get_shapes().len(), 0);
}
