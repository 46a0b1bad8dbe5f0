//! Shapes: edges with tables of fill and stroke styles.

use crate::bbox::{bounds, commands_points, extend_with_commands, BoundingBox, PointView};
use crate::edge::{digit_value, is_digit, char_digit_value, Edge};
use vstd::prelude::*;

verus! {

/// A color attribute such as `#FF8800`.
pub struct SolidColor {
    pub color: Option<String>,
}

/// The byte that two characters give in base 16, where the first may be a
/// `+` sign in place of a digit.
pub open spec fn hex_pair(a: char, b: char) -> Option<u8> {
    if a == '+' {
        if is_digit(b, 16) {
            Some(digit_value(b) as u8)
        } else {
            None
        }
    } else if is_digit(a, 16) && is_digit(b, 16) {
        Some((digit_value(a) * 16 + digit_value(b)) as u8)
    } else {
        None
    }
}

/// The red, green and blue bytes of a color written `#RRGGBB...`: the bytes
/// 1..3, 3..5 and 5..7 of the text read in base 16. Where the first character
/// takes more than one byte, byte 1 starts no character and there is no color.
pub open spec fn rgb_of(s: Seq<char>) -> Option<(u8, u8, u8)> {
    if s.len() >= 7 && (s[0] as u32) < 128 {
        match (hex_pair(s[1], s[2]), hex_pair(s[3], s[4]), hex_pair(s[5], s[6])) {
            (Some(r), Some(g), Some(b)) => Some((r, g, b)),
            _ => None,
        }
    } else {
        None
    }
}

fn read_hex_pair(a: char, b: char) -> (r: Option<u8>)
    ensures
        r == hex_pair(a, b),
{
    let vb = char_digit_value(b);
    if vb >= 16 {
        return None;
    }
    if a == '+' {
        Some(vb as u8)
    } else {
        let va = char_digit_value(a);
        if va >= 16 {
            None
        } else {
            Some((va * 16 + vb) as u8)
        }
    }
}

impl SolidColor {
    /// The color as red, green and blue; black where no color is given,
    /// `None` where the text is no color.
    pub open spec fn spec_rgb(self) -> Option<(u8, u8, u8)> {
        match self.color {
            None => Some((0u8, 0u8, 0u8)),
            Some(s) => rgb_of(s@),
        }
    }

    pub fn get_rgb(&self) -> (r: Option<(u8, u8, u8)>)
        ensures
            r == self.spec_rgb(),
    {
        let color_str = match &self.color {
            Some(color_str) => color_str.as_str(),
            None => return Some((0, 0, 0)),
        };
        if color_str.unicode_len() < 7 {
            return None;
        }
        if color_str.get_char(0) as u32 >= 128 {
            return None;
        }
        let r = match read_hex_pair(color_str.get_char(1), color_str.get_char(2)) {
            Some(v) => v,
            None => return None,
        };
        let g = match read_hex_pair(color_str.get_char(3), color_str.get_char(4)) {
            Some(v) => v,
            None => return None,
        };
        let b = match read_hex_pair(color_str.get_char(5), color_str.get_char(6)) {
            Some(v) => v,
            None => return None,
        };
        Some((r, g, b))
    }
}

/// A fill style of a shape's table.
pub struct FillStyle {
    pub index: Option<u64>,
    pub solid_color: Option<SolidColor>,
}

/// The fill of a stroke.
pub struct Fill {
    pub solid_color: Option<SolidColor>,
}

/// A solid stroke.
pub struct SolidStroke {
    pub fill: Fill,
}

/// A stroke style of a shape's table.
pub struct StrokeStyle {
    pub index: Option<u64>,
    pub solid_stroke: SolidStroke,
}

/// A shape's table of fill styles.
pub struct Fills {
    pub fill_styles: Vec<FillStyle>,
}

/// A shape's table of stroke styles.
pub struct Strokes {
    pub stroke_styles: Vec<StrokeStyle>,
}

/// A shape's edges.
pub struct Edges {
    pub edges: Vec<Edge>,
}

/// A vector shape: edges, and the styles that they refer to by index.
pub struct DomShape {
    pub selected: Option<bool>,
    pub is_floating: Option<bool>,
    pub fills: Option<Fills>,
    pub strokes: Option<Strokes>,
    pub edges: Edges,
}

/// The first fill style of `styles` with index `index`.
pub open spec fn first_fill_style(styles: Seq<FillStyle>, index: u64) -> Option<FillStyle>
    decreases styles.len(),
{
    if styles.len() == 0 {
        None
    } else if styles[0].index == Some(index) {
        Some(styles[0])
    } else {
        first_fill_style(styles.drop_first(), index)
    }
}

/// The first stroke style of `styles` with index `index`.
pub open spec fn first_stroke_style(styles: Seq<StrokeStyle>, index: u64) -> Option<StrokeStyle>
    decreases styles.len(),
{
    if styles.len() == 0 {
        None
    } else if styles[0].index == Some(index) {
        Some(styles[0])
    } else {
        first_stroke_style(styles.drop_first(), index)
    }
}

/// The points of a list of edges, in order.
pub open spec fn edges_points(es: Seq<Edge>) -> Seq<PointView>
    decreases es.len(),
{
    if es.len() == 0 {
        Seq::empty()
    } else {
        edges_points(es.drop_last()) + commands_points(es.last().commands())
    }
}

impl DomShape {
    /// The fill style that index `index` names: the first with that index.
    pub open spec fn spec_fill_style(self, index: u64) -> Option<FillStyle> {
        match self.fills {
            None => None,
            Some(f) => first_fill_style(f.fill_styles@, index),
        }
    }

    /// The stroke style that index `index` names: the first with that index.
    pub open spec fn spec_stroke_style(self, index: u64) -> Option<StrokeStyle> {
        match self.strokes {
            None => None,
            Some(s) => first_stroke_style(s.stroke_styles@, index),
        }
    }

    /// The end points of all commands of all edges.
    pub open spec fn points(self) -> Seq<PointView> {
        edges_points(self.edges.edges@)
    }

    pub fn get_fill_style(&self, index: u64) -> (r: Option<&FillStyle>)
        ensures
            r matches Some(f) ==> self.spec_fill_style(index) == Some(*f),
            r is None ==> self.spec_fill_style(index) is None,
    {
        let styles = match &self.fills {
            Some(f) => &f.fill_styles,
            None => return None,
        };
        let mut i: usize = 0;
        assert(styles@.subrange(0, styles@.len() as int) =~= styles@);
        while i < styles.len()
            invariant
                0 <= i <= styles@.len(),
                self.spec_fill_style(index) == first_fill_style(
                    styles@.subrange(i as int, styles@.len() as int),
                    index,
                ),
            decreases styles@.len() - i,
        {
            assert(styles@.subrange(i as int, styles@.len() as int).drop_first() =~= styles@.subrange(
                i as int + 1,
                styles@.len() as int,
            ));
            if styles[i].index == Some(index) {
                return Some(&styles[i]);
            }
            i = i + 1;
        }
        None
    }

    pub fn get_stroke_style(&self, index: u64) -> (r: Option<&StrokeStyle>)
        ensures
            r matches Some(s) ==> self.spec_stroke_style(index) == Some(*s),
            r is None ==> self.spec_stroke_style(index) is None,
    {
        let styles = match &self.strokes {
            Some(s) => &s.stroke_styles,
            None => return None,
        };
        let mut i: usize = 0;
        assert(styles@.subrange(0, styles@.len() as int) =~= styles@);
        while i < styles.len()
            invariant
                0 <= i <= styles@.len(),
                self.spec_stroke_style(index) == first_stroke_style(
                    styles@.subrange(i as int, styles@.len() as int),
                    index,
                ),
            decreases styles@.len() - i,
        {
            assert(styles@.subrange(i as int, styles@.len() as int).drop_first()
                =~= styles@.subrange(i as int + 1, styles@.len() as int));
            if styles[i].index == Some(index) {
                return Some(&styles[i]);
            }
            i = i + 1;
        }
        None
    }

    pub fn get_edges(&self) -> (r: &[Edge])
        ensures
            r@ == self.edges.edges@,
    {
        self.edges.edges.as_slice()
    }

    /// The bounding box of the shape's points; `None` where it has none.
    pub fn calc_bounding_box(&self) -> (r: Option<BoundingBox>)
        ensures
            bounds(r, self.points()),
    {
        let edges = self.get_edges();
        let mut r: Option<BoundingBox> = None;
        let mut i: usize = 0;
        assert(edges@.take(0) =~= Seq::<Edge>::empty());
        while i < edges.len()
            invariant
                0 <= i <= edges@.len(),
                edges@ == self.edges.edges@,
                bounds(r, edges_points(edges@.take(i as int))),
            decreases edges@.len() - i,
        {
            assert(edges@.take(i as int + 1).drop_last() =~= edges@.take(i as int));
            let edge = &edges[i];
            match edge.get_edge_definition_commands() {
                Some(cmds) => {
                    r = extend_with_commands(r, cmds, Ghost(edges_points(edges@.take(i as int))));
                },
                None => {
                    assert(commands_points(edge.commands()) =~= Seq::<PointView>::empty());
                    assert(edges_points(edges@.take(i as int)) + Seq::<PointView>::empty()
                        =~= edges_points(edges@.take(i as int)));
                },
            }
            i = i + 1;
        }
        assert(edges@.take(i as int) =~= edges@);
        r
    }
}

} // verus!
