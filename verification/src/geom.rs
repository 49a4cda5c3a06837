use vstd::prelude::*;

verus! {

/// A point in integer layout units. The y axis grows downward.
#[derive(Clone, Copy, PartialEq, Eq, Structural, Debug)]
pub struct Point {
    pub x: i64,
    pub y: i64,
}

impl Point {
    pub fn xy(x: i64, y: i64) -> (p: Point)
        ensures
            p.x == x,
            p.y == y,
    {
        Point { x, y }
    }
}

/// An axis-aligned box in integer layout units.
#[derive(Clone, Copy, PartialEq, Eq, Structural, Debug)]
pub struct Rect {
    pub x: i64,
    pub y: i64,
    pub w: i64,
    pub h: i64,
}

impl Rect {
    pub fn xywh(x: i64, y: i64, w: i64, h: i64) -> (r: Rect)
        ensures
            r.x == x,
            r.y == y,
            r.w == w,
            r.h == h,
    {
        Rect { x, y, w, h }
    }
}

/// The mathematical value of a bounding box, unbounded so that the layout
/// formulas can be stated without regard to machine integer widths.
pub struct Extent {
    pub x: int,
    pub y: int,
    pub w: int,
    pub h: int,
}

impl Rect {
    /// The box a `Rect` stands for.
    pub open spec fn extent(self) -> Extent {
        Extent { x: self.x as int, y: self.y as int, w: self.w as int, h: self.h as int }
    }
}

/// A drawing primitive issued by the placement pass: either a run of text
/// anchored at a point, or a straight line segment.
#[derive(Clone, PartialEq, Eq, Debug)]
pub enum DrawOp {
    /// Draw `body` at font size `size`, with its top-left corner at `(x, y)`.
    Text { x: i64, y: i64, size: u32, body: String },
    /// Draw a line segment from `(x1, y1)` to `(x2, y2)`.
    Line { x1: i64, y1: i64, x2: i64, y2: i64 },
}

/// The mathematical value of a drawing primitive.
pub enum OpModel {
    Text { x: int, y: int, size: int, body: Seq<char> },
    Line { x1: int, y1: int, x2: int, y2: int },
}

impl DrawOp {
    /// The primitive a `DrawOp` stands for.
    pub open spec fn model(&self) -> OpModel {
        match self {
            DrawOp::Text { x, y, size, body } => OpModel::Text {
                x: *x as int,
                y: *y as int,
                size: *size as int,
                body: body@,
            },
            DrawOp::Line { x1, y1, x2, y2 } => OpModel::Line {
                x1: *x1 as int,
                y1: *y1 as int,
                x2: *x2 as int,
                y2: *y2 as int,
            },
        }
    }
}

/// The sequence of primitives a vector of draw operations stands for.
pub open spec fn ops_model(ops: Seq<DrawOp>) -> Seq<OpModel> {
    ops.map_values(|op: DrawOp| op.model())
}

} // verus!
