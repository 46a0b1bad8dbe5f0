//! Axis-aligned bounding boxes over the end points of edge commands.

use crate::coord::{lemma_den_positive, lemma_ratio_le_trans, ratio_le, Coord};
use crate::edge::{command_views, CommandView, EdgeDefinitionCommand};
use vstd::prelude::*;

verus! {

broadcast use lemma_den_positive;

/// A point as two rationals (numerator, denominator).
pub type PointView = ((int, int), (int, int));

/// A box given by its least and greatest coordinates on each axis.
#[derive(Debug)]
pub struct BoundingBox {
    pub min_x: Coord,
    pub min_y: Coord,
    pub max_x: Coord,
    pub max_y: Coord,
}

/// The point that a command draws to: the end point of a move, a line or a
/// curve (never a curve's control point); none for a selection.
pub open spec fn command_points(c: CommandView) -> Seq<PointView> {
    match c {
        CommandView::MoveTo(x, y) => seq![(x, y)],
        CommandView::LineTo(x, y) => seq![(x, y)],
        CommandView::CurveTo(_, _, ex, ey) => seq![(ex, ey)],
        CommandView::Selection(_) => Seq::empty(),
    }
}

/// The points of a command list, in order.
pub open spec fn commands_points(cs: Seq<CommandView>) -> Seq<PointView>
    decreases cs.len(),
{
    if cs.len() == 0 {
        Seq::empty()
    } else {
        commands_points(cs.drop_last()) + command_points(cs.last())
    }
}

/// `b` is the bounding box of `pts`: every point lies in it, and each of its
/// four sides is a coordinate of some point. Every coordinate of a point has a
/// positive denominator, as those of a [`Coord`] do.
pub open spec fn is_bounding_box(b: BoundingBox, pts: Seq<PointView>) -> bool {
    &&& forall|i: int|
        0 <= i < pts.len() ==> {
            &&& (#[trigger] pts[i]).0.1 > 0
            &&& pts[i].1.1 > 0
            &&& ratio_le(b.min_x@, pts[i].0)
            &&& ratio_le(pts[i].0, b.max_x@)
            &&& ratio_le(b.min_y@, pts[i].1)
            &&& ratio_le(pts[i].1, b.max_y@)
        }
    &&& exists|i: int| 0 <= i < pts.len() && (#[trigger] pts[i]).0 == b.min_x@
    &&& exists|i: int| 0 <= i < pts.len() && (#[trigger] pts[i]).0 == b.max_x@
    &&& exists|i: int| 0 <= i < pts.len() && (#[trigger] pts[i]).1 == b.min_y@
    &&& exists|i: int| 0 <= i < pts.len() && (#[trigger] pts[i]).1 == b.max_y@
}

/// `r` is the bounding box of `pts`, or `None` exactly where there is no point.
pub open spec fn bounds(r: Option<BoundingBox>, pts: Seq<PointView>) -> bool {
    match r {
        None => pts.len() == 0,
        Some(b) => is_bounding_box(b, pts),
    }
}

proof fn lemma_union(b1: BoundingBox, left: Seq<PointView>, b2: BoundingBox, right: Seq<PointView>, b: BoundingBox)
    requires
        is_bounding_box(b1, left),
        is_bounding_box(b2, right),
        b.min_x@ == b1.min_x@ || b.min_x@ == b2.min_x@,
        b.max_x@ == b1.max_x@ || b.max_x@ == b2.max_x@,
        b.min_y@ == b1.min_y@ || b.min_y@ == b2.min_y@,
        b.max_y@ == b1.max_y@ || b.max_y@ == b2.max_y@,
        ratio_le(b.min_x@, b1.min_x@) && ratio_le(b.min_x@, b2.min_x@),
        ratio_le(b1.max_x@, b.max_x@) && ratio_le(b2.max_x@, b.max_x@),
        ratio_le(b.min_y@, b1.min_y@) && ratio_le(b.min_y@, b2.min_y@),
        ratio_le(b1.max_y@, b.max_y@) && ratio_le(b2.max_y@, b.max_y@),
    ensures
        is_bounding_box(b, left + right),
{
    let p = left + right;
    assert forall|i: int| 0 <= i < p.len() implies {
        &&& (#[trigger] p[i]).0.1 > 0
        &&& p[i].1.1 > 0
        &&& ratio_le(b.min_x@, p[i].0)
        &&& ratio_le(p[i].0, b.max_x@)
        &&& ratio_le(b.min_y@, p[i].1)
        &&& ratio_le(p[i].1, b.max_y@)
    } by {
        let bi = if i < left.len() { b1 } else { b2 };
        if i < left.len() {
            assert(p[i] == left[i]);
        } else {
            assert(p[i] == right[i - left.len()]);
        }
        lemma_ratio_le_trans(b.min_x@, bi.min_x@, p[i].0);
        lemma_ratio_le_trans(p[i].0, bi.max_x@, b.max_x@);
        lemma_ratio_le_trans(b.min_y@, bi.min_y@, p[i].1);
        lemma_ratio_le_trans(p[i].1, bi.max_y@, b.max_y@);
    }
    if b.min_x@ == b1.min_x@ {
        let i = choose|i: int| 0 <= i < left.len() && (#[trigger] left[i]).0 == b1.min_x@;
        assert(p[i] == left[i]);
    } else {
        let i = choose|i: int| 0 <= i < right.len() && (#[trigger] right[i]).0 == b2.min_x@;
        assert(p[left.len() + i] == right[i]);
    }
    if b.max_x@ == b1.max_x@ {
        let i = choose|i: int| 0 <= i < left.len() && (#[trigger] left[i]).0 == b1.max_x@;
        assert(p[i] == left[i]);
    } else {
        let i = choose|i: int| 0 <= i < right.len() && (#[trigger] right[i]).0 == b2.max_x@;
        assert(p[left.len() + i] == right[i]);
    }
    if b.min_y@ == b1.min_y@ {
        let i = choose|i: int| 0 <= i < left.len() && (#[trigger] left[i]).1 == b1.min_y@;
        assert(p[i] == left[i]);
    } else {
        let i = choose|i: int| 0 <= i < right.len() && (#[trigger] right[i]).1 == b2.min_y@;
        assert(p[left.len() + i] == right[i]);
    }
    if b.max_y@ == b1.max_y@ {
        let i = choose|i: int| 0 <= i < left.len() && (#[trigger] left[i]).1 == b1.max_y@;
        assert(p[i] == left[i]);
    } else {
        let i = choose|i: int| 0 <= i < right.len() && (#[trigger] right[i]).1 == b2.max_y@;
        assert(p[left.len() + i] == right[i]);
    }
}

/// The smaller of two coordinates.
fn coord_min(a: &Coord, b: &Coord) -> (r: Coord)
    ensures
        r@ == a@ || r@ == b@,
        ratio_le(r@, a@) && ratio_le(r@, b@),
{
    if b.le(a) {
        b.copy()
    } else {
        a.copy()
    }
}

/// The larger of two coordinates.
fn coord_max(a: &Coord, b: &Coord) -> (r: Coord)
    ensures
        r@ == a@ || r@ == b@,
        ratio_le(a@, r@) && ratio_le(b@, r@),
{
    if a.le(b) {
        b.copy()
    } else {
        a.copy()
    }
}

/// The box that holds both boxes: the bounding box of `left + right`.
pub(crate) fn union(
    r1: Option<BoundingBox>,
    r2: Option<BoundingBox>,
    Ghost(left): Ghost<Seq<PointView>>,
    Ghost(right): Ghost<Seq<PointView>>,
) -> (r: Option<BoundingBox>)
    requires
        bounds(r1, left),
        bounds(r2, right),
    ensures
        bounds(r, left + right),
{
    match (r1, r2) {
        (None, None) => None,
        (Some(b1), None) => {
            assert(left + right =~= left);
            Some(b1)
        },
        (None, Some(b2)) => {
            assert(left + right =~= right);
            Some(b2)
        },
        (Some(b1), Some(b2)) => {
            let b = BoundingBox {
                min_x: coord_min(&b1.min_x, &b2.min_x),
                min_y: coord_min(&b1.min_y, &b2.min_y),
                max_x: coord_max(&b1.max_x, &b2.max_x),
                max_y: coord_max(&b1.max_y, &b2.max_y),
            };
            proof {
                lemma_union(b1, left, b2, right, b);
            }
            Some(b)
        },
    }
}

/// The bounding box of `pts` followed by the points of `cmds`.
pub(crate) fn extend_with_commands(
    r: Option<BoundingBox>,
    cmds: &[EdgeDefinitionCommand],
    Ghost(pts): Ghost<Seq<PointView>>,
) -> (out: Option<BoundingBox>)
    requires
        bounds(r, pts),
    ensures
        bounds(out, pts + commands_points(command_views(cmds@))),
{
    let mut out = r;
    let mut i: usize = 0;
    assert(command_views(cmds@).take(0) =~= Seq::<CommandView>::empty());
    assert(pts + Seq::<PointView>::empty() =~= pts);
    while i < cmds.len()
        invariant
            0 <= i <= cmds@.len(),
            bounds(out, pts + commands_points(command_views(cmds@).take(i as int))),
        decreases cmds@.len() - i,
    {
        let ghost views = command_views(cmds@);
        let ghost before = pts + commands_points(views.take(i as int));
        assert(views.take(i as int + 1).drop_last() =~= views.take(i as int));
        assert(views.take(i as int + 1).last() == cmds@[i as int]@);
        assert(before + command_points(cmds@[i as int]@) =~= pts + commands_points(
            views.take(i as int + 1),
        ));
        match &cmds[i] {
            EdgeDefinitionCommand::MoveTo(x, y) | EdgeDefinitionCommand::LineTo(x, y)
            | EdgeDefinitionCommand::CurveTo(_, _, x, y) => {
                let one = BoundingBox { min_x: x.copy(), min_y: y.copy(), max_x: x.copy(), max_y: y.copy() };
                let ghost single = seq![(x@, y@)];
                assert(single[0] == (x@, y@));
                out = union(out, Some(one), Ghost(before), Ghost(single));
            },
            EdgeDefinitionCommand::Selection(_) => {
                assert(before + Seq::<PointView>::empty() =~= before);
            },
        }
        i = i + 1;
    }
    assert(command_views(cmds@).take(i as int) =~= command_views(cmds@));
    out
}

} // verus!
