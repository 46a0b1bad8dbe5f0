//! Path and style resolution: what each edge of each output frame draws.
//!
//! The result is a plan in the symbol's own exact coordinates. Turning it
//! into pixels, with the scale, the padding and the stroke width, is left to
//! the drawing backend.

use crate::bbox::{bounds, BoundingBox};
use crate::coord::Coord;
use crate::edge::{command_views, CommandView, Edge, EdgeDefinitionCommand, SelectionMask};
use crate::shape::DomShape;
use crate::timeline::{
    has_no_geometry, lemma_no_geometry_no_points, max_keyframes, DomLayer, DomSymbol,
};
use vstd::prelude::*;

verus! {

/// Stroke width, in units of the render scale.
pub const STROKE_WIDTH: u32 = 20;

/// A color as red, green and blue.
pub type Rgb = (u8, u8, u8);

/// A feature of the format that rendering does not support.
#[derive(Clone, Copy, Debug, PartialEq, Eq, Structural)]
pub enum UnsupportedFeature {
    /// A second selection within one edge.
    SelectionMaskOverwrite,
    /// The fill on the left of an edge.
    FillStyle0,
}

/// Why a symbol could not be rendered.
#[derive(Clone, Copy, Debug, PartialEq, Eq, Structural)]
pub enum DomSymbolRenderError {
    /// The symbol has no point at all.
    NoBoundingBox,
    /// An edge fills without naming a fill style; holds the fill's number.
    MissingFillStyleIndex(usize),
    /// An edge names a fill style that the shape does not have.
    MissingFillStyle(u64),
    /// An edge strokes without naming a stroke style.
    MissingStrokeStyleIndex,
    /// An edge names a stroke style that the shape does not have.
    MissingStrokeStyle(u64),
    /// A fill style without a solid color.
    MissingColor,
    /// A color whose text is no color.
    InvalidRbg,
    Unsupported(UnsupportedFeature),
}

/// One step of a drawable path.
#[derive(Debug)]
pub enum PathOp {
    MoveTo(Coord, Coord),
    LineTo(Coord, Coord),
    /// A quadratic curve: control point, then end point.
    QuadTo(Coord, Coord, Coord, Coord),
    Close,
}

/// What a path step denotes, with each coordinate as a rational
/// (numerator, denominator).
pub enum PathOpView {
    MoveTo((int, int), (int, int)),
    LineTo((int, int), (int, int)),
    QuadTo((int, int), (int, int), (int, int), (int, int)),
    Close,
}

impl View for PathOp {
    type V = PathOpView;

    open spec fn view(&self) -> PathOpView {
        match self {
            PathOp::MoveTo(x, y) => PathOpView::MoveTo(x@, y@),
            PathOp::LineTo(x, y) => PathOpView::LineTo(x@, y@),
            PathOp::QuadTo(cx, cy, ex, ey) => PathOpView::QuadTo(cx@, cy@, ex@, ey@),
            PathOp::Close => PathOpView::Close,
        }
    }
}

/// The views of a path.
pub open spec fn path_views(ops: Seq<PathOp>) -> Seq<PathOpView> {
    ops.map_values(|o: PathOp| o@)
}

/// What one edge draws: a closed path, filled, stroked, or both.
pub struct EdgePaint {
    pub path: Vec<PathOp>,
    pub fill: Option<Rgb>,
    pub stroke: Option<Rgb>,
}

/// The view of an [`EdgePaint`].
pub struct EdgePaintView {
    pub path: Seq<PathOpView>,
    pub fill: Option<Rgb>,
    pub stroke: Option<Rgb>,
}

impl View for EdgePaint {
    type V = EdgePaintView;

    open spec fn view(&self) -> EdgePaintView {
        EdgePaintView { path: path_views(self.path@), fill: self.fill, stroke: self.stroke }
    }
}

/// The views of a list of edge paints.
pub open spec fn paints_view(v: Seq<EdgePaint>) -> Seq<EdgePaintView> {
    v.map_values(|p: EdgePaint| p@)
}

/// The draw calls of one output frame, in order.
pub struct FramePlan {
    pub paints: Vec<EdgePaint>,
}

/// A rendered symbol: the box that sizes and anchors every frame, and the
/// draw calls of each output frame.
pub struct RenderPlan {
    pub bounding_box: BoundingBox,
    pub frames: Vec<FramePlan>,
}

/// The path of a command list and its selection. A move before the
/// selection lifts the pen; one after it draws a line. A second selection
/// is an error.
pub open spec fn spec_path(cs: Seq<CommandView>) -> Result<
    (Seq<PathOpView>, Option<SelectionMask>),
    DomSymbolRenderError,
>
    decreases cs.len(),
{
    if cs.len() == 0 {
        Ok((Seq::empty(), None))
    } else {
        match spec_path(cs.drop_last()) {
            Err(e) => Err(e),
            Ok((ops, mask)) => match cs.last() {
                CommandView::MoveTo(x, y) => Ok(
                    (
                        ops.push(
                            if mask is None {
                                PathOpView::MoveTo(x, y)
                            } else {
                                PathOpView::LineTo(x, y)
                            },
                        ),
                        mask,
                    ),
                ),
                CommandView::LineTo(x, y) => Ok((ops.push(PathOpView::LineTo(x, y)), mask)),
                CommandView::CurveTo(cx, cy, ex, ey) => Ok(
                    (ops.push(PathOpView::QuadTo(cx, cy, ex, ey)), mask),
                ),
                CommandView::Selection(m) => if mask is Some {
                    Err(DomSymbolRenderError::Unsupported(UnsupportedFeature::SelectionMaskOverwrite))
                } else {
                    Ok((ops, Some(m)))
                },
            },
        }
    }
}

/// The color that an edge fills with.
pub open spec fn spec_fill_color(shape: DomShape, edge: Edge) -> Result<Rgb, DomSymbolRenderError> {
    match edge.fill_style_1 {
        None => Err(DomSymbolRenderError::MissingFillStyleIndex(1)),
        Some(i) => match shape.spec_fill_style(i) {
            None => Err(DomSymbolRenderError::MissingFillStyle(i)),
            Some(f) => match f.solid_color {
                None => Err(DomSymbolRenderError::MissingColor),
                Some(c) => match c.spec_rgb() {
                    None => Err(DomSymbolRenderError::InvalidRbg),
                    Some(rgb) => Ok(rgb),
                },
            },
        },
    }
}

/// The color that an edge strokes with; black where the stroke names none.
pub open spec fn spec_stroke_color(shape: DomShape, edge: Edge) -> Result<Rgb, DomSymbolRenderError> {
    match edge.stroke_style {
        None => Err(DomSymbolRenderError::MissingStrokeStyleIndex),
        Some(i) => match shape.spec_stroke_style(i) {
            None => Err(DomSymbolRenderError::MissingStrokeStyle(i)),
            Some(s) => match s.solid_stroke.fill.solid_color {
                None => Ok((0u8, 0u8, 0u8)),
                Some(c) => match c.spec_rgb() {
                    None => Err(DomSymbolRenderError::InvalidRbg),
                    Some(rgb) => Ok(rgb),
                },
            },
        },
    }
}

/// What an edge of `shape` draws: nothing where it selects neither fill nor
/// stroke, else its closed path with the fill and stroke colors it selects.
pub open spec fn spec_edge_paint(shape: DomShape, edge: Edge) -> Result<
    Option<EdgePaintView>,
    DomSymbolRenderError,
> {
    match spec_path(edge.commands()) {
        Err(e) => Err(e),
        Ok((_, None)) => Ok(None),
        Ok((ops, Some(m))) => if m.fill_style_0 {
            Err(DomSymbolRenderError::Unsupported(UnsupportedFeature::FillStyle0))
        } else if m.fill_style_1 && spec_fill_color(shape, edge) is Err {
            Err(spec_fill_color(shape, edge)->Err_0)
        } else if m.stroke && spec_stroke_color(shape, edge) is Err {
            Err(spec_stroke_color(shape, edge)->Err_0)
        } else if !m.fill_style_1 && !m.stroke {
            Ok(None)
        } else {
            Ok(
                Some(
                    EdgePaintView {
                        path: ops.push(PathOpView::Close),
                        fill: if m.fill_style_1 {
                            Some(spec_fill_color(shape, edge)->Ok_0)
                        } else {
                            None
                        },
                        stroke: if m.stroke {
                            Some(spec_stroke_color(shape, edge)->Ok_0)
                        } else {
                            None
                        },
                    },
                ),
            )
        },
    }
}

/// The results of `f` on `items`, one after another, or the first error.
pub open spec fn fold_paints<A>(
    items: Seq<A>,
    f: spec_fn(A) -> Result<Seq<EdgePaintView>, DomSymbolRenderError>,
) -> Result<Seq<EdgePaintView>, DomSymbolRenderError>
    decreases items.len(),
{
    if items.len() == 0 {
        Ok(Seq::empty())
    } else {
        match fold_paints(items.drop_last(), f) {
            Err(e) => Err(e),
            Ok(ps) => match f(items.last()) {
                Err(e) => Err(e),
                Ok(qs) => Ok(ps + qs),
            },
        }
    }
}

/// What an edge of `shape` draws, as a list of none or one paint.
pub open spec fn edge_step(shape: DomShape) -> spec_fn(Edge) -> Result<
    Seq<EdgePaintView>,
    DomSymbolRenderError,
> {
    |e: Edge|
        match spec_edge_paint(shape, e) {
            Err(err) => Err(err),
            Ok(None) => Ok(Seq::empty()),
            Ok(Some(p)) => Ok(seq![p]),
        }
}

/// What a shape draws: the paints of its edges, in order.
pub open spec fn spec_shape_paints(shape: DomShape) -> Result<Seq<EdgePaintView>, DomSymbolRenderError> {
    fold_paints(shape.edges.edges@, edge_step(shape))
}

pub open spec fn shape_step() -> spec_fn(DomShape) -> Result<
    Seq<EdgePaintView>,
    DomSymbolRenderError,
> {
    |s: DomShape| spec_shape_paints(s)
}

/// What a layer draws at output frame `i`: the shapes of the keyframe it
/// shows there, or nothing for a layer without keyframes.
pub open spec fn spec_layer_paints(layer: DomLayer, i: int) -> Result<
    Seq<EdgePaintView>,
    DomSymbolRenderError,
> {
    match layer.spec_keyframe_at(i) {
        None => Ok(Seq::empty()),
        Some(f) => fold_paints(f.elements.dom_shapes@, shape_step()),
    }
}

pub open spec fn layer_step(i: int) -> spec_fn(DomLayer) -> Result<
    Seq<EdgePaintView>,
    DomSymbolRenderError,
> {
    |l: DomLayer| spec_layer_paints(l, i)
}

/// What output frame `i` draws: every layer in order.
pub open spec fn spec_frame_paints(layers: Seq<DomLayer>, i: int) -> Result<
    Seq<EdgePaintView>,
    DomSymbolRenderError,
> {
    fold_paints(layers, layer_step(i))
}

/// The paints of output frames `0..n`, or the first error.
pub open spec fn spec_frames(layers: Seq<DomLayer>, n: nat) -> Result<
    Seq<Seq<EdgePaintView>>,
    DomSymbolRenderError,
>
    decreases n,
{
    if n == 0 {
        Ok(Seq::empty())
    } else {
        match spec_frames(layers, (n - 1) as nat) {
            Err(e) => Err(e),
            Ok(fs) => match spec_frame_paints(layers, n - 1) {
                Err(e) => Err(e),
                Ok(f) => Ok(fs.push(f)),
            },
        }
    }
}

/// `r` is the render of `sym`: `NoBoundingBox` where the symbol has no
/// point; else the first error of any output frame; else the symbol's
/// bounding box and, for each of the `max_keyframes` output frames in order,
/// what it draws.
pub open spec fn renders(sym: DomSymbol, r: Result<RenderPlan, DomSymbolRenderError>) -> bool {
    if sym.points().len() == 0 {
        r == Err::<RenderPlan, DomSymbolRenderError>(DomSymbolRenderError::NoBoundingBox)
    } else {
        match spec_frames(sym.layers(), max_keyframes(sym.layers())) {
            Err(e) => r matches Err(e2) && e2 == e,
            Ok(fs) => r matches Ok(plan) && bounds(Some(plan.bounding_box), sym.points())
                && plan.frames@.len() == fs.len() && forall|i: int|
                0 <= i < fs.len() ==> paints_view(#[trigger] plan.frames@[i].paints@) == fs[i],
        }
    }
}

/// A symbol in which nothing draws to a point (no edge at all, or edges of
/// selections only) renders to the `NoBoundingBox` error, not to a list of
/// empty frames.
pub proof fn lemma_no_geometry_render(sym: DomSymbol, r: Result<RenderPlan, DomSymbolRenderError>)
    requires
        has_no_geometry(sym.layers()),
        renders(sym, r),
    ensures
        r == Err::<RenderPlan, DomSymbolRenderError>(DomSymbolRenderError::NoBoundingBox),
{
    lemma_no_geometry_no_points(sym.layers());
}

proof fn lemma_path_err_is_overwrite(cs: Seq<CommandView>)
    ensures
        spec_path(cs) is Err ==> spec_path(cs) == Err::<
            (Seq<PathOpView>, Option<SelectionMask>),
            DomSymbolRenderError,
        >(DomSymbolRenderError::Unsupported(UnsupportedFeature::SelectionMaskOverwrite)),
    decreases cs.len(),
{
    if cs.len() > 0 {
        lemma_path_err_is_overwrite(cs.drop_last());
    }
}

proof fn lemma_path_mask_after_selection(cs: Seq<CommandView>, i: int)
    requires
        0 <= i < cs.len(),
        cs[i] is Selection,
        spec_path(cs) is Ok,
    ensures
        spec_path(cs)->Ok_0.1 is Some,
    decreases cs.len(),
{
    if i < cs.len() - 1 {
        let rest = cs.drop_last();
        assert(rest[i] == cs[i]);
        lemma_path_mask_after_selection(rest, i);
    }
}

/// A second selection within one edge always makes the edge, whatever the
/// two masks, the `Unsupported` error.
pub proof fn lemma_second_selection(shape: DomShape, edge: Edge, i: int, j: int)
    requires
        0 <= i < j < edge.commands().len(),
        edge.commands()[i] is Selection,
        edge.commands()[j] is Selection,
    ensures
        spec_edge_paint(shape, edge) == Err::<Option<EdgePaintView>, DomSymbolRenderError>(
            DomSymbolRenderError::Unsupported(UnsupportedFeature::SelectionMaskOverwrite),
        ),
{
    let cs = edge.commands();
    let pre = cs.take(j);
    assert(cs.take(j + 1).drop_last() =~= pre);
    assert(cs.take(j + 1).last() == cs[j]);
    lemma_path_err_is_overwrite(pre);
    if spec_path(pre) is Ok {
        assert(pre[i] == cs[i]);
        lemma_path_mask_after_selection(pre, i);
    }
    lemma_path_prefix_err(cs, j + 1);
}

proof fn lemma_fold_first_err<A>(
    items: Seq<A>,
    f: spec_fn(A) -> Result<Seq<EdgePaintView>, DomSymbolRenderError>,
    k: int,
)
    requires
        0 <= k < items.len(),
        fold_paints(items.take(k), f) is Ok,
        f(items[k]) is Err,
    ensures
        fold_paints(items, f) == Err::<Seq<EdgePaintView>, DomSymbolRenderError>(
            f(items[k])->Err_0,
        ),
{
    assert(items.take(k + 1).drop_last() =~= items.take(k));
    assert(items.take(k + 1).last() == items[k]);
    lemma_fold_prefix_err(items, f, k + 1);
}

proof fn lemma_frames_ok(layers: Seq<DomLayer>, n: nat)
    requires
        spec_frames(layers, n) is Ok,
    ensures
        spec_frames(layers, n)->Ok_0.len() == n,
        forall|i: int|
            0 <= i < n ==> (#[trigger] spec_frame_paints(layers, i)) == Ok::<
                Seq<EdgePaintView>,
                DomSymbolRenderError,
            >(spec_frames(layers, n)->Ok_0[i]),
    decreases n,
{
    if n > 0 {
        lemma_frames_ok(layers, (n - 1) as nat);
    }
}

/// A render that succeeds has one frame per output frame, as many as the
/// largest keyframe count, and frame `i` draws what the layers show at `i`:
/// each layer's keyframe `i mod n`, layer after layer.
pub proof fn lemma_render_frames(sym: DomSymbol, plan: RenderPlan)
    requires
        renders(sym, Ok(plan)),
    ensures
        plan.frames@.len() == max_keyframes(sym.layers()),
        forall|i: int|
            0 <= i < plan.frames@.len() ==> spec_frame_paints(sym.layers(), i) == Ok::<
                Seq<EdgePaintView>,
                DomSymbolRenderError,
            >(paints_view(#[trigger] plan.frames@[i].paints@)),
{
    lemma_frames_ok(sym.layers(), max_keyframes(sym.layers()));
}

/// A second selection within an edge fails the whole render, whatever the
/// two masks: where the symbol has a point, and everything that output
/// frame `j` draws before that edge resolves (the frames before `j`, the
/// layers before `l`, the shapes before `s` of the keyframe that layer `l`
/// shows at `j`, and the edges before `e`), the render is the `Unsupported`
/// error and returns no frame.
pub proof fn lemma_second_selection_render(
    sym: DomSymbol,
    r: Result<RenderPlan, DomSymbolRenderError>,
    j: nat,
    l: int,
    s: int,
    e: int,
    first: int,
    second: int,
)
    requires
        renders(sym, r),
        sym.points().len() > 0,
        j < max_keyframes(sym.layers()),
        spec_frames(sym.layers(), j) is Ok,
        0 <= l < sym.layers().len(),
        fold_paints(sym.layers().take(l), layer_step(j as int)) is Ok,
        sym.layers()[l].frames.dom_frames@.len() > 0,
        ({
            let frame = sym.layers()[l].spec_keyframe_at(j as int)->Some_0;
            let shapes = frame.elements.dom_shapes@;
            &&& 0 <= s < shapes.len()
            &&& fold_paints(shapes.take(s), shape_step()) is Ok
            &&& 0 <= e < shapes[s].edges.edges@.len()
            &&& fold_paints(shapes[s].edges.edges@.take(e), edge_step(shapes[s])) is Ok
            &&& 0 <= first < second < shapes[s].edges.edges@[e].commands().len()
            &&& shapes[s].edges.edges@[e].commands()[first] is Selection
            &&& shapes[s].edges.edges@[e].commands()[second] is Selection
        }),
    ensures
        r == Err::<RenderPlan, DomSymbolRenderError>(
            DomSymbolRenderError::Unsupported(UnsupportedFeature::SelectionMaskOverwrite),
        ),
{
    let err = DomSymbolRenderError::Unsupported(UnsupportedFeature::SelectionMaskOverwrite);
    let layers = sym.layers();
    let frame = layers[l].spec_keyframe_at(j as int)->Some_0;
    let shapes = frame.elements.dom_shapes@;
    let shape = shapes[s];
    let edges = shape.edges.edges@;
    lemma_second_selection(shape, edges[e], first, second);
    lemma_fold_first_err(edges, edge_step(shape), e);
    assert(spec_shape_paints(shape) == Err::<Seq<EdgePaintView>, DomSymbolRenderError>(err));
    lemma_fold_first_err(shapes, shape_step(), s);
    assert(spec_layer_paints(layers[l], j as int) == Err::<Seq<EdgePaintView>, DomSymbolRenderError>(err));
    lemma_fold_first_err(layers, layer_step(j as int), l);
    assert(spec_frame_paints(layers, j as int) == Err::<Seq<EdgePaintView>, DomSymbolRenderError>(err));
    assert(spec_frames(layers, j + 1) == Err::<Seq<Seq<EdgePaintView>>, DomSymbolRenderError>(err));
    lemma_frames_prefix_err(layers, j + 1, max_keyframes(layers));
}

proof fn lemma_fold_prefix_err<A>(
    items: Seq<A>,
    f: spec_fn(A) -> Result<Seq<EdgePaintView>, DomSymbolRenderError>,
    i: int,
)
    requires
        0 <= i <= items.len(),
        fold_paints(items.take(i), f) is Err,
    ensures
        fold_paints(items, f) == fold_paints(items.take(i), f),
    decreases items.len() - i,
{
    if i == items.len() {
        assert(items.take(i) =~= items);
    } else {
        assert(items.take(i + 1).drop_last() =~= items.take(i));
        lemma_fold_prefix_err(items, f, i + 1);
    }
}

proof fn lemma_path_prefix_err(cs: Seq<CommandView>, i: int)
    requires
        0 <= i <= cs.len(),
        spec_path(cs.take(i)) is Err,
    ensures
        spec_path(cs) == spec_path(cs.take(i)),
    decreases cs.len() - i,
{
    if i == cs.len() {
        assert(cs.take(i) =~= cs);
    } else {
        assert(cs.take(i + 1).drop_last() =~= cs.take(i));
        lemma_path_prefix_err(cs, i + 1);
    }
}

proof fn lemma_frames_prefix_err(layers: Seq<DomLayer>, i: nat, n: nat)
    requires
        i <= n,
        spec_frames(layers, i) is Err,
    ensures
        spec_frames(layers, n) == spec_frames(layers, i),
    decreases n - i,
{
    if i < n {
        lemma_frames_prefix_err(layers, i + 1, n);
    }
}

/// The path of a command list and its selection.
pub fn build_path(cmds: &[EdgeDefinitionCommand]) -> (r: Result<
    (Vec<PathOp>, Option<SelectionMask>),
    DomSymbolRenderError,
>)
    ensures
        match spec_path(command_views(cmds@)) {
            Err(e) => r == Err::<(Vec<PathOp>, Option<SelectionMask>), DomSymbolRenderError>(e),
            Ok((ops, mask)) => r matches Ok((v, m)) && path_views(v@) == ops && m == mask,
        },
{
    let ghost views = command_views(cmds@);
    let mut ops: Vec<PathOp> = Vec::new();
    let mut mask: Option<SelectionMask> = None;
    let mut i: usize = 0;
    assert(views.take(0) =~= Seq::<CommandView>::empty());
    assert(path_views(ops@) =~= Seq::<PathOpView>::empty());
    while i < cmds.len()
        invariant
            0 <= i <= cmds@.len(),
            views == command_views(cmds@),
            spec_path(views.take(i as int)) == Ok::<
                (Seq<PathOpView>, Option<SelectionMask>),
                DomSymbolRenderError,
            >((path_views(ops@), mask)),
        decreases cmds@.len() - i,
    {
        assert(views.take(i as int + 1).drop_last() =~= views.take(i as int));
        assert(views.take(i as int + 1).last() == cmds@[i as int]@);
        let ghost before = ops@;
        match &cmds[i] {
            EdgeDefinitionCommand::MoveTo(x, y) => {
                if mask.is_none() {
                    ops.push(PathOp::MoveTo(x.copy(), y.copy()));
                } else {
                    ops.push(PathOp::LineTo(x.copy(), y.copy()));
                }
                assert(path_views(ops@) =~= path_views(before).push(ops@.last()@));
            },
            EdgeDefinitionCommand::LineTo(x, y) => {
                ops.push(PathOp::LineTo(x.copy(), y.copy()));
                assert(path_views(ops@) =~= path_views(before).push(ops@.last()@));
            },
            EdgeDefinitionCommand::CurveTo(cx, cy, ex, ey) => {
                ops.push(PathOp::QuadTo(cx.copy(), cy.copy(), ex.copy(), ey.copy()));
                assert(path_views(ops@) =~= path_views(before).push(ops@.last()@));
            },
            EdgeDefinitionCommand::Selection(m) => {
                if mask.is_some() {
                    proof {
                        lemma_path_prefix_err(views, i as int + 1);
                    }
                    return Err(
                        DomSymbolRenderError::Unsupported(
                            UnsupportedFeature::SelectionMaskOverwrite,
                        ),
                    );
                }
                mask = Some(*m);
            },
        }
        i = i + 1;
    }
    assert(views.take(i as int) =~= views);
    Ok((ops, mask))
}

/// The color that `edge` fills with.
pub fn fill_color(shape: &DomShape, edge: &Edge) -> (r: Result<Rgb, DomSymbolRenderError>)
    ensures
        r == spec_fill_color(*shape, *edge),
{
    let index = match edge.fill_style_1 {
        Some(i) => i,
        None => return Err(DomSymbolRenderError::MissingFillStyleIndex(1)),
    };
    let style = match shape.get_fill_style(index) {
        Some(f) => f,
        None => return Err(DomSymbolRenderError::MissingFillStyle(index)),
    };
    let color = match &style.solid_color {
        Some(c) => c,
        None => return Err(DomSymbolRenderError::MissingColor),
    };
    match color.get_rgb() {
        Some(rgb) => Ok(rgb),
        None => Err(DomSymbolRenderError::InvalidRbg),
    }
}

/// The color that `edge` strokes with.
pub fn stroke_color(shape: &DomShape, edge: &Edge) -> (r: Result<Rgb, DomSymbolRenderError>)
    ensures
        r == spec_stroke_color(*shape, *edge),
{
    let index = match edge.stroke_style {
        Some(i) => i,
        None => return Err(DomSymbolRenderError::MissingStrokeStyleIndex),
    };
    let style = match shape.get_stroke_style(index) {
        Some(s) => s,
        None => return Err(DomSymbolRenderError::MissingStrokeStyle(index)),
    };
    match &style.solid_stroke.fill.solid_color {
        None => Ok((0, 0, 0)),
        Some(c) => match c.get_rgb() {
            Some(rgb) => Ok(rgb),
            None => Err(DomSymbolRenderError::InvalidRbg),
        },
    }
}

/// What `edge` of `shape` draws.
pub fn resolve_edge(shape: &DomShape, edge: &Edge) -> (r: Result<Option<EdgePaint>, DomSymbolRenderError>)
    ensures
        match spec_edge_paint(*shape, *edge) {
            Err(e) => r == Err::<Option<EdgePaint>, DomSymbolRenderError>(e),
            Ok(None) => r matches Ok(None),
            Ok(Some(p)) => r matches Ok(Some(q)) && q@ == p,
        },
{
    let empty: Vec<EdgeDefinitionCommand> = Vec::new();
    let cmds = match edge.get_edge_definition_commands() {
        Some(cmds) => cmds,
        None => empty.as_slice(),
    };
    let (mut path, mask) = match build_path(cmds) {
        Err(e) => return Err(e),
        Ok(v) => v,
    };
    let mask = match mask {
        None => return Ok(None),
        Some(m) => m,
    };
    if mask.fill_style_0 {
        return Err(DomSymbolRenderError::Unsupported(UnsupportedFeature::FillStyle0));
    }
    let fill = if mask.fill_style_1 {
        match fill_color(shape, edge) {
            Err(e) => return Err(e),
            Ok(c) => Some(c),
        }
    } else {
        None
    };
    let stroke = if mask.stroke {
        match stroke_color(shape, edge) {
            Err(e) => return Err(e),
            Ok(c) => Some(c),
        }
    } else {
        None
    };
    if fill.is_none() && stroke.is_none() {
        return Ok(None);
    }
    let ghost before = path@;
    path.push(PathOp::Close);
    assert(path_views(path@) =~= path_views(before).push(PathOpView::Close));
    Ok(Some(EdgePaint { path, fill, stroke }))
}

/// Appends what `shape` draws to `out`.
fn paint_shape(shape: &DomShape, out: &mut Vec<EdgePaint>) -> (r: Result<(), DomSymbolRenderError>)
    ensures
        match spec_shape_paints(*shape) {
            Err(e) => r == Err::<(), DomSymbolRenderError>(e),
            Ok(ps) => r is Ok && paints_view(final(out)@) == paints_view(old(out)@) + ps,
        },
{
    let edges = shape.get_edges();
    let ghost f = edge_step(*shape);
    let mut i: usize = 0;
    assert(edges@.take(0) =~= Seq::<Edge>::empty());
    assert(paints_view(out@) + Seq::<EdgePaintView>::empty() =~= paints_view(out@));
    while i < edges.len()
        invariant
            0 <= i <= edges@.len(),
            edges@ == shape.edges.edges@,
            f == edge_step(*shape),
            fold_paints(edges@.take(i as int), f) is Ok,
            paints_view(out@) == paints_view(old(out)@) + fold_paints(edges@.take(i as int), f)->Ok_0,
        decreases edges@.len() - i,
    {
        assert(edges@.take(i as int + 1).drop_last() =~= edges@.take(i as int));
        let ghost before = fold_paints(edges@.take(i as int), f)->Ok_0;
        match resolve_edge(shape, &edges[i]) {
            Err(e) => {
                proof {
                    lemma_fold_prefix_err(edges@, f, i as int + 1);
                }
                return Err(e);
            },
            Ok(None) => {
                assert(before + Seq::<EdgePaintView>::empty() =~= before);
            },
            Ok(Some(p)) => {
                let ghost pv = p@;
                let ghost prev_out = out@;
                out.push(p);
                assert(paints_view(out@) =~= paints_view(prev_out).push(pv));
                assert(paints_view(out@) =~= paints_view(old(out)@) + (before + seq![pv]));
            },
        }
        i = i + 1;
    }
    assert(edges@.take(i as int) =~= edges@);
    Ok(())
}

/// Appends what `layer` draws at output frame `index` to `out`.
fn paint_layer(layer: &DomLayer, index: usize, out: &mut Vec<EdgePaint>) -> (r: Result<
    (),
    DomSymbolRenderError,
>)
    ensures
        match spec_layer_paints(*layer, index as int) {
            Err(e) => r == Err::<(), DomSymbolRenderError>(e),
            Ok(ps) => r is Ok && paints_view(final(out)@) == paints_view(old(out)@) + ps,
        },
{
    let frame = match layer.keyframe_at(index) {
        None => {
            assert(paints_view(out@) + Seq::<EdgePaintView>::empty() =~= paints_view(out@));
            return Ok(());
        },
        Some(f) => f,
    };
    let shapes = frame.get_shapes();
    let ghost f = shape_step();
    let mut i: usize = 0;
    assert(shapes@.take(0) =~= Seq::<DomShape>::empty());
    assert(paints_view(out@) + Seq::<EdgePaintView>::empty() =~= paints_view(out@));
    while i < shapes.len()
        invariant
            0 <= i <= shapes@.len(),
            shapes@ == frame.elements.dom_shapes@,
            layer.spec_keyframe_at(index as int) == Some(*frame),
            f == shape_step(),
            fold_paints(shapes@.take(i as int), f) is Ok,
            paints_view(out@) == paints_view(old(out)@) + fold_paints(shapes@.take(i as int), f)->Ok_0,
        decreases shapes@.len() - i,
    {
        assert(shapes@.take(i as int + 1).drop_last() =~= shapes@.take(i as int));
        let ghost before = fold_paints(shapes@.take(i as int), f)->Ok_0;
        match paint_shape(&shapes[i], out) {
            Err(e) => {
                proof {
                    lemma_fold_prefix_err(shapes@, f, i as int + 1);
                }
                return Err(e);
            },
            Ok(()) => {
                assert(paints_view(out@) =~= paints_view(old(out)@) + (before + spec_shape_paints(
                    shapes@[i as int],
                )->Ok_0));
            },
        }
        i = i + 1;
    }
    assert(shapes@.take(i as int) =~= shapes@);
    Ok(())
}

impl DomSymbol {
    /// What output frame `index` draws: each layer's keyframe at that index,
    /// layer after layer, shape after shape, edge after edge.
    pub fn render_frame(&self, index: usize) -> (r: Result<FramePlan, DomSymbolRenderError>)
        ensures
            match spec_frame_paints(self.layers(), index as int) {
                Err(e) => r matches Err(e2) && e2 == e,
                Ok(ps) => r matches Ok(fp) && paints_view(fp.paints@) == ps,
            },
    {
        let layers = self.get_layers();
        let ghost f = layer_step(index as int);
        let mut out: Vec<EdgePaint> = Vec::new();
        let mut i: usize = 0;
        assert(layers@.take(0) =~= Seq::<DomLayer>::empty());
        assert(paints_view(out@) =~= Seq::<EdgePaintView>::empty());
        while i < layers.len()
            invariant
                0 <= i <= layers@.len(),
                layers@ == self.layers(),
                f == layer_step(index as int),
                fold_paints(layers@.take(i as int), f) is Ok,
                paints_view(out@) == fold_paints(layers@.take(i as int), f)->Ok_0,
            decreases layers@.len() - i,
        {
            assert(layers@.take(i as int + 1).drop_last() =~= layers@.take(i as int));
            let ghost before = paints_view(out@);
            match paint_layer(&layers[i], index, &mut out) {
                Err(e) => {
                    proof {
                        lemma_fold_prefix_err(layers@, f, i as int + 1);
                    }
                    return Err(e);
                },
                Ok(()) => {},
            }
            i = i + 1;
        }
        assert(layers@.take(i as int) =~= layers@);
        Ok(FramePlan { paints: out })
    }

    /// The whole render, all of it or the first error: the symbol's box
    /// (`NoBoundingBox` where it has no point), then one frame plan per
    /// output frame, in order.
    pub fn render_plan(&self) -> (r: Result<RenderPlan, DomSymbolRenderError>)
        ensures
            renders(*self, r),
    {
        let bounding_box = match self.calc_bounding_box() {
            Some(b) => b,
            None => return Err(DomSymbolRenderError::NoBoundingBox),
        };
        let num_frames = self.num_frames();
        let mut frames: Vec<FramePlan> = Vec::new();
        let mut i: usize = 0;
        while i < num_frames
            invariant
                0 <= i <= num_frames,
                num_frames == max_keyframes(self.layers()),
                self.points().len() > 0,
                bounds(Some(bounding_box), self.points()),
                spec_frames(self.layers(), i as nat) is Ok,
                spec_frames(self.layers(), i as nat)->Ok_0.len() == i,
                frames@.len() == i,
                forall|k: int|
                    0 <= k < i ==> paints_view(#[trigger] frames@[k].paints@) == spec_frames(
                        self.layers(),
                        i as nat,
                    )->Ok_0[k],
            decreases num_frames - i,
        {
            match self.render_frame(i) {
                Err(e) => {
                    proof {
                        lemma_frames_prefix_err(self.layers(), i as nat + 1, num_frames as nat);
                    }
                    return Err(e);
                },
                Ok(fp) => {
                    let ghost prev = spec_frames(self.layers(), i as nat)->Ok_0;
                    assert(spec_frames(self.layers(), i as nat + 1) == Ok::<
                        Seq<Seq<EdgePaintView>>,
                        DomSymbolRenderError,
                    >(prev.push(paints_view(fp.paints@))));
                    frames.push(fp);
                    assert(frames@[i as int] == fp);
                },
            }
            i = i + 1;
        }
        Ok(RenderPlan { bounding_box, frames })
    }
}

} // verus!
