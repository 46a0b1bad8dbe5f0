//! Keyframes, layers and symbols, and the compositor that picks, for each
//! output frame, one keyframe of every layer.

use crate::bbox::{bounds, commands_points, union, BoundingBox, PointView};
use crate::edge::{CommandView, Edge};
use crate::shape::{edges_points, DomShape};
use vstd::prelude::*;

verus! {

/// The shapes of a keyframe.
pub struct Elements {
    pub dom_shapes: Vec<DomShape>,
}

/// One authored keyframe of a layer.
pub struct DomFrame {
    pub index: u64,
    pub key_mode: u64,
    pub elements: Elements,
}

/// The keyframes of a layer.
pub struct Frames {
    pub dom_frames: Vec<DomFrame>,
}

/// An animation track: a sequence of keyframes.
pub struct DomLayer {
    pub name: String,
    pub color: String,
    pub current: Option<bool>,
    pub is_selected: Option<bool>,
    pub auto_named: Option<bool>,
    pub frames: Frames,
}

/// The layers of a timeline.
pub struct Layers {
    pub dom_layers: Vec<DomLayer>,
}

/// A sequence of layers, drawn over one another.
pub struct DomTimeline {
    pub name: String,
    pub guides: Option<String>,
    pub layers: Layers,
}

/// The timeline of a symbol.
pub struct Timeline {
    pub dom_timeline: DomTimeline,
}

/// A named, independently renderable animation.
pub struct DomSymbol {
    pub name: String,
    pub item_id: String,
    pub linkage_export_for_as: Option<bool>,
    pub linkage_class_name: Option<String>,
    pub last_modified: String,
    pub timeline: Timeline,
}

/// The points of a list of shapes, in order.
pub open spec fn shapes_points(s: Seq<DomShape>) -> Seq<PointView>
    decreases s.len(),
{
    if s.len() == 0 {
        Seq::empty()
    } else {
        shapes_points(s.drop_last()) + s.last().points()
    }
}

/// The points of a list of keyframes, in order.
pub open spec fn frames_points(f: Seq<DomFrame>) -> Seq<PointView>
    decreases f.len(),
{
    if f.len() == 0 {
        Seq::empty()
    } else {
        frames_points(f.drop_last()) + f.last().points()
    }
}

/// The points of a list of layers, in order.
pub open spec fn layers_points(l: Seq<DomLayer>) -> Seq<PointView>
    decreases l.len(),
{
    if l.len() == 0 {
        Seq::empty()
    } else {
        layers_points(l.drop_last()) + l.last().points()
    }
}

/// The largest keyframe count of a list of layers; zero where there is none.
pub open spec fn max_keyframes(l: Seq<DomLayer>) -> nat
    decreases l.len(),
{
    if l.len() == 0 {
        0
    } else {
        let rest = max_keyframes(l.drop_last());
        let n = l.last().frames.dom_frames@.len();
        if n > rest {
            n
        } else {
            rest
        }
    }
}

/// The keyframe that a layer of `count` keyframes shows at output frame `i`:
/// short layers start over from their first keyframe.
pub open spec fn spec_keyframe_index(i: int, count: int) -> int {
    i % count
}

/// The keyframe that a layer of `keyframe_count` keyframes shows at output
/// frame `output_index`.
pub fn keyframe_index(output_index: usize, keyframe_count: usize) -> (r: usize)
    requires
        keyframe_count > 0,
    ensures
        r as int == spec_keyframe_index(output_index as int, keyframe_count as int),
        r < keyframe_count,
{
    output_index % keyframe_count
}

impl DomFrame {
    /// The points of all shapes of the keyframe.
    pub open spec fn points(self) -> Seq<PointView> {
        shapes_points(self.elements.dom_shapes@)
    }

    pub fn get_shapes(&self) -> (r: &[DomShape])
        ensures
            r@ == self.elements.dom_shapes@,
    {
        self.elements.dom_shapes.as_slice()
    }

    /// The bounding box of the keyframe's points; `None` where it has none.
    pub fn calc_bounding_box(&self) -> (r: Option<BoundingBox>)
        ensures
            bounds(r, self.points()),
    {
        let shapes = self.get_shapes();
        let mut r: Option<BoundingBox> = None;
        let mut i: usize = 0;
        assert(shapes@.take(0) =~= Seq::<DomShape>::empty());
        while i < shapes.len()
            invariant
                0 <= i <= shapes@.len(),
                shapes@ == self.elements.dom_shapes@,
                bounds(r, shapes_points(shapes@.take(i as int))),
            decreases shapes@.len() - i,
        {
            assert(shapes@.take(i as int + 1).drop_last() =~= shapes@.take(i as int));
            let b = shapes[i].calc_bounding_box();
            r = union(r, b, Ghost(shapes_points(shapes@.take(i as int))), Ghost(shapes@[i as int].points()));
            i = i + 1;
        }
        assert(shapes@.take(i as int) =~= shapes@);
        r
    }
}

impl DomLayer {
    /// The points of all keyframes of the layer: its full animated extent.
    pub open spec fn points(self) -> Seq<PointView> {
        frames_points(self.frames.dom_frames@)
    }

    /// The keyframe that the layer shows at output frame `i`; none for a
    /// layer without keyframes.
    pub open spec fn spec_keyframe_at(self, i: int) -> Option<DomFrame> {
        let n = self.frames.dom_frames@.len();
        if n == 0 {
            None
        } else {
            Some(self.frames.dom_frames@[spec_keyframe_index(i, n as int)])
        }
    }

    pub fn get_frames(&self) -> (r: &[DomFrame])
        ensures
            r@ == self.frames.dom_frames@,
    {
        self.frames.dom_frames.as_slice()
    }

    pub fn num_frames(&self) -> (r: usize)
        ensures
            r == self.frames.dom_frames@.len(),
    {
        self.frames.dom_frames.len()
    }

    /// The keyframe that the layer shows at output frame `i`.
    pub fn keyframe_at(&self, i: usize) -> (r: Option<&DomFrame>)
        ensures
            r matches Some(f) ==> self.spec_keyframe_at(i as int) == Some(*f),
            r is None ==> self.spec_keyframe_at(i as int) is None,
    {
        let n = self.num_frames();
        if n == 0 {
            None
        } else {
            Some(&self.frames.dom_frames[keyframe_index(i, n)])
        }
    }

    /// The bounding box of all keyframes of the layer; `None` where they
    /// have no point.
    pub fn calc_bounding_box(&self) -> (r: Option<BoundingBox>)
        ensures
            bounds(r, self.points()),
    {
        let frames = self.get_frames();
        let mut r: Option<BoundingBox> = None;
        let mut i: usize = 0;
        assert(frames@.take(0) =~= Seq::<DomFrame>::empty());
        while i < frames.len()
            invariant
                0 <= i <= frames@.len(),
                frames@ == self.frames.dom_frames@,
                bounds(r, frames_points(frames@.take(i as int))),
            decreases frames@.len() - i,
        {
            assert(frames@.take(i as int + 1).drop_last() =~= frames@.take(i as int));
            let b = frames[i].calc_bounding_box();
            r = union(r, b, Ghost(frames_points(frames@.take(i as int))), Ghost(frames@[i as int].points()));
            i = i + 1;
        }
        assert(frames@.take(i as int) =~= frames@);
        r
    }
}

impl DomTimeline {
    pub fn get_layers(&self) -> (r: &[DomLayer])
        ensures
            r@ == self.layers.dom_layers@,
    {
        self.layers.dom_layers.as_slice()
    }

    pub fn get_layer(&self, index: usize) -> (r: Option<&DomLayer>)
        ensures
            index < self.layers.dom_layers@.len() ==> r == Some(&self.layers.dom_layers@[index as int]),
            index >= self.layers.dom_layers@.len() ==> r is None,
    {
        if index < self.layers.dom_layers.len() {
            Some(&self.layers.dom_layers[index])
        } else {
            None
        }
    }
}

impl DomSymbol {
    /// The symbol's layers.
    pub open spec fn layers(self) -> Seq<DomLayer> {
        self.timeline.dom_timeline.layers.dom_layers@
    }

    /// The points of all layers of the symbol.
    pub open spec fn points(self) -> Seq<PointView> {
        layers_points(self.layers())
    }

    pub fn get_layers(&self) -> (r: &[DomLayer])
        ensures
            r@ == self.layers(),
    {
        self.timeline.dom_timeline.get_layers()
    }

    pub fn get_layer(&self, index: usize) -> (r: Option<&DomLayer>)
        ensures
            index < self.layers().len() ==> r == Some(&self.layers()[index as int]),
            index >= self.layers().len() ==> r is None,
    {
        self.timeline.dom_timeline.get_layer(index)
    }

    /// The bounding box of every keyframe of every layer; `None` where the
    /// symbol has no point at all.
    pub fn calc_bounding_box(&self) -> (r: Option<BoundingBox>)
        ensures
            bounds(r, self.points()),
    {
        let layers = self.get_layers();
        let mut r: Option<BoundingBox> = None;
        let mut i: usize = 0;
        assert(layers@.take(0) =~= Seq::<DomLayer>::empty());
        while i < layers.len()
            invariant
                0 <= i <= layers@.len(),
                layers@ == self.layers(),
                bounds(r, layers_points(layers@.take(i as int))),
            decreases layers@.len() - i,
        {
            assert(layers@.take(i as int + 1).drop_last() =~= layers@.take(i as int));
            let b = layers[i].calc_bounding_box();
            r = union(r, b, Ghost(layers_points(layers@.take(i as int))), Ghost(layers@[i as int].points()));
            i = i + 1;
        }
        assert(layers@.take(i as int) =~= layers@);
        r
    }

    /// The number of output frames: the largest keyframe count of a layer.
    pub fn num_frames(&self) -> (r: usize)
        ensures
            r == max_keyframes(self.layers()),
    {
        let layers = self.get_layers();
        let mut num_frames: usize = 0;
        let mut i: usize = 0;
        assert(layers@.take(0) =~= Seq::<DomLayer>::empty());
        while i < layers.len()
            invariant
                0 <= i <= layers@.len(),
                layers@ == self.layers(),
                num_frames == max_keyframes(layers@.take(i as int)),
            decreases layers@.len() - i,
        {
            assert(layers@.take(i as int + 1).drop_last() =~= layers@.take(i as int));
            let n = layers[i].num_frames();
            if n > num_frames {
                num_frames = n;
            }
            i = i + 1;
        }
        assert(layers@.take(i as int) =~= layers@);
        num_frames
    }
}

/// The number of output frames is the largest keyframe count: no layer has
/// more keyframes, and unless there is no keyframe at all, some layer has
/// exactly that many.
pub proof fn lemma_frame_count(layers: Seq<DomLayer>)
    ensures
        forall|i: int|
            0 <= i < layers.len() ==> (#[trigger] layers[i]).frames.dom_frames@.len()
                <= max_keyframes(layers),
        max_keyframes(layers) == 0 || exists|i: int|
            0 <= i < layers.len() && (#[trigger] layers[i]).frames.dom_frames@.len()
                == max_keyframes(layers),
    decreases layers.len(),
{
    if layers.len() > 0 {
        let rest = layers.drop_last();
        lemma_frame_count(rest);
        assert forall|i: int| 0 <= i < layers.len() implies (#[trigger] layers[i]).frames.dom_frames@.len()
            <= max_keyframes(layers) by {
            if i < rest.len() {
                assert(layers[i] == rest[i]);
            }
        }
        if max_keyframes(layers) != layers.last().frames.dom_frames@.len() && max_keyframes(layers) != 0 {
            let i = choose|i: int|
                0 <= i < rest.len() && (#[trigger] rest[i]).frames.dom_frames@.len() == max_keyframes(rest);
            assert(layers[i] == rest[i]);
        }
    }
}

/// A layer with `n` keyframes shows keyframe `i` at output frame `i` for
/// `i < n`, and then starts over: output frame `i + n` shows what output
/// frame `i` showed.
pub proof fn lemma_keyframe_wraps(layer: DomLayer, i: int)
    requires
        i >= 0,
        layer.frames.dom_frames@.len() > 0,
    ensures
        layer.spec_keyframe_at(i + layer.frames.dom_frames@.len()) == layer.spec_keyframe_at(i),
        i < layer.frames.dom_frames@.len() ==> layer.spec_keyframe_at(i) == Some(
            layer.frames.dom_frames@[i],
        ),
{
    let n = layer.frames.dom_frames@.len() as int;
    assert((i + n) % n == i % n) by (nonlinear_arith)
        requires
            n > 0,
            i >= 0,
    ;
    if i < n {
        assert(i % n == i) by (nonlinear_arith)
            requires
                0 <= i < n,
        ;
    }
}

/// No command of the edge draws to a point: each one is a selection.
pub open spec fn edge_has_no_geometry(e: Edge) -> bool {
    forall|k: int| 0 <= k < e.commands().len() ==> (#[trigger] e.commands()[k]) is Selection
}

/// No edge of the shape draws to a point.
pub open spec fn shape_has_no_geometry(s: DomShape) -> bool {
    forall|i: int| 0 <= i < s.edges.edges@.len() ==> edge_has_no_geometry(#[trigger] s.edges.edges@[i])
}

/// No shape of the keyframe draws to a point.
pub open spec fn frame_has_no_geometry(f: DomFrame) -> bool {
    forall|i: int|
        0 <= i < f.elements.dom_shapes@.len() ==> shape_has_no_geometry(
            #[trigger] f.elements.dom_shapes@[i],
        )
}

/// No keyframe of the layer draws to a point.
pub open spec fn layer_has_no_geometry(l: DomLayer) -> bool {
    forall|i: int|
        0 <= i < l.frames.dom_frames@.len() ==> frame_has_no_geometry(#[trigger] l.frames.dom_frames@[i])
}

/// Nothing in any layer draws to a point: no move, line or curve anywhere.
/// This holds in particular where there are no layers, keyframes, shapes or
/// edges at all.
pub open spec fn has_no_geometry(layers: Seq<DomLayer>) -> bool {
    forall|i: int| 0 <= i < layers.len() ==> layer_has_no_geometry(#[trigger] layers[i])
}

proof fn lemma_no_geometry_commands(cs: Seq<CommandView>)
    requires
        forall|k: int| 0 <= k < cs.len() ==> (#[trigger] cs[k]) is Selection,
    ensures
        commands_points(cs).len() == 0,
    decreases cs.len(),
{
    if cs.len() > 0 {
        let rest = cs.drop_last();
        assert forall|k: int| 0 <= k < rest.len() implies (#[trigger] rest[k]) is Selection by {
            assert(rest[k] == cs[k]);
        }
        lemma_no_geometry_commands(rest);
        assert(cs.last() == cs[cs.len() - 1]);
    }
}

proof fn lemma_no_geometry_edges(es: Seq<Edge>)
    requires
        forall|i: int| 0 <= i < es.len() ==> edge_has_no_geometry(#[trigger] es[i]),
    ensures
        edges_points(es).len() == 0,
    decreases es.len(),
{
    if es.len() > 0 {
        let rest = es.drop_last();
        assert forall|i: int| 0 <= i < rest.len() implies edge_has_no_geometry(#[trigger] rest[i]) by {
            assert(rest[i] == es[i]);
        }
        lemma_no_geometry_edges(rest);
        assert(es.last() == es[es.len() - 1]);
        lemma_no_geometry_commands(es.last().commands());
    }
}

proof fn lemma_no_geometry_shapes(ss: Seq<DomShape>)
    requires
        forall|i: int| 0 <= i < ss.len() ==> shape_has_no_geometry(#[trigger] ss[i]),
    ensures
        shapes_points(ss).len() == 0,
    decreases ss.len(),
{
    if ss.len() > 0 {
        let rest = ss.drop_last();
        assert forall|i: int| 0 <= i < rest.len() implies shape_has_no_geometry(#[trigger] rest[i]) by {
            assert(rest[i] == ss[i]);
        }
        lemma_no_geometry_shapes(rest);
        assert(ss.last() == ss[ss.len() - 1]);
        lemma_no_geometry_edges(ss.last().edges.edges@);
    }
}

proof fn lemma_no_geometry_frames(fs: Seq<DomFrame>)
    requires
        forall|i: int| 0 <= i < fs.len() ==> frame_has_no_geometry(#[trigger] fs[i]),
    ensures
        frames_points(fs).len() == 0,
    decreases fs.len(),
{
    if fs.len() > 0 {
        let rest = fs.drop_last();
        assert forall|i: int| 0 <= i < rest.len() implies frame_has_no_geometry(#[trigger] rest[i]) by {
            assert(rest[i] == fs[i]);
        }
        lemma_no_geometry_frames(rest);
        assert(fs.last() == fs[fs.len() - 1]);
        lemma_no_geometry_shapes(fs.last().elements.dom_shapes@);
    }
}

/// A symbol in which nothing draws to a point has no point, so no bounding
/// box.
pub proof fn lemma_no_geometry_no_points(layers: Seq<DomLayer>)
    requires
        has_no_geometry(layers),
    ensures
        layers_points(layers).len() == 0,
    decreases layers.len(),
{
    if layers.len() > 0 {
        let rest = layers.drop_last();
        assert forall|i: int| 0 <= i < rest.len() implies layer_has_no_geometry(#[trigger] rest[i]) by {
            assert(rest[i] == layers[i]);
        }
        lemma_no_geometry_no_points(rest);
        assert(layers.last() == layers[layers.len() - 1]);
        lemma_no_geometry_frames(layers.last().frames.dom_frames@);
    }
}

} // verus!
