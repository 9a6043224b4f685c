//! Axis-aligned rectangle geometry on integer coordinates.
//!
//! A rectangle is held as a center point and two non-negative half-extents.
//! The coordinate system has its origin at the top left, with y growing
//! downward, so the north edge is the one with the smaller y coordinate.
//! All corners are kept within `COORD_LIMIT`, which leaves enough headroom
//! for every midpoint computation to stay inside `i64`.

use vstd::prelude::*;

verus! {

/// Largest magnitude a rectangle corner coordinate may take.
pub const COORD_LIMIT: i64 = 0x2000_0000_0000_0000;

/// A point in the plane, with the y axis growing downward.
#[derive(Clone, Copy, Debug, PartialEq, Eq, Structural)]
pub struct Point {
    pub x: i64,
    pub y: i64,
}

/// The four compass corners of a rectangle, in the fixed order in which
/// quadrants are probed.
#[derive(Clone, Copy, Debug, PartialEq, Eq, Structural)]
pub enum Corner {
    NE,
    NW,
    SW,
    SE,
}

/// An axis-aligned rectangle held as a center point and half-extents.
#[derive(Clone, Copy, Debug, PartialEq, Eq, Structural)]
pub struct Rect {
    pub center: Point,
    pub w_half: i64,
    pub h_half: i64,
}

impl Point {
    pub fn new(x: i64, y: i64) -> (p: Point)
        ensures
            p == (Point { x, y }),
    {
        Point { x, y }
    }
}

impl Rect {
    /// A rectangle is well formed when its half-extents are non-negative and
    /// all four corners lie within `COORD_LIMIT` of the origin.
    pub open spec fn wf(self) -> bool {
        &&& 0 <= self.w_half
        &&& 0 <= self.h_half
        &&& -COORD_LIMIT <= self.center.x - self.w_half
        &&& self.center.x + self.w_half <= COORD_LIMIT
        &&& -COORD_LIMIT <= self.center.y - self.h_half
        &&& self.center.y + self.h_half <= COORD_LIMIT
    }

    /// The corner of the rectangle named by `which`.
    pub open spec fn corner_spec(self, which: Corner) -> Point {
        match which {
            Corner::NE => (Point {
                x: (self.center.x + self.w_half) as i64,
                y: (self.center.y - self.h_half) as i64,
            }),
            Corner::NW => (Point {
                x: (self.center.x - self.w_half) as i64,
                y: (self.center.y - self.h_half) as i64,
            }),
            Corner::SW => (Point {
                x: (self.center.x - self.w_half) as i64,
                y: (self.center.y + self.h_half) as i64,
            }),
            Corner::SE => (Point {
                x: (self.center.x + self.w_half) as i64,
                y: (self.center.y + self.h_half) as i64,
            }),
        }
    }

    /// A point is contained when it lies between the west and east edges and
    /// between the north and south edges; all edges are inclusive.
    pub open spec fn contains_point_spec(self, p: Point) -> bool {
        &&& self.center.x - self.w_half <= p.x <= self.center.x + self.w_half
        &&& self.center.y - self.h_half <= p.y <= self.center.y + self.h_half
    }

    /// A rectangle is contained when all four of its corners are; partial
    /// overlap is not containment.
    pub open spec fn contains_rect_spec(self, other: Rect) -> bool {
        &&& self.contains_point_spec(other.corner_spec(Corner::NE))
        &&& self.contains_point_spec(other.corner_spec(Corner::NW))
        &&& self.contains_point_spec(other.corner_spec(Corner::SW))
        &&& self.contains_point_spec(other.corner_spec(Corner::SE))
    }

    /// The quadrant of this rectangle toward the corner named by `which`:
    /// its center is the midpoint of the center and that corner, and its
    /// half-extents are half of this rectangle's, rounded toward zero.
    pub open spec fn quadrant_spec(self, which: Corner) -> Rect {
        let qw = self.w_half / 2;
        let qh = self.h_half / 2;
        match which {
            Corner::NE => (Rect {
                center: Point {
                    x: (self.center.x + qw) as i64,
                    y: (self.center.y - qh) as i64,
                },
                w_half: qw as i64,
                h_half: qh as i64,
            }),
            Corner::NW => (Rect {
                center: Point {
                    x: (self.center.x - qw) as i64,
                    y: (self.center.y - qh) as i64,
                },
                w_half: qw as i64,
                h_half: qh as i64,
            }),
            Corner::SW => (Rect {
                center: Point {
                    x: (self.center.x - qw) as i64,
                    y: (self.center.y + qh) as i64,
                },
                w_half: qw as i64,
                h_half: qh as i64,
            }),
            Corner::SE => (Rect {
                center: Point {
                    x: (self.center.x + qw) as i64,
                    y: (self.center.y + qh) as i64,
                },
                w_half: qw as i64,
                h_half: qh as i64,
            }),
        }
    }

    /// Builds a rectangle from its top-left corner and its dimensions.
    pub fn new(x: i64, y: i64, w: i64, h: i64) -> (r: Rect)
        requires
            0 <= w,
            0 <= h,
            -COORD_LIMIT <= x,
            x + w <= COORD_LIMIT,
            -COORD_LIMIT <= y,
            y + h <= COORD_LIMIT,
        ensures
            r == (Rect {
                center: Point { x: (x + w / 2) as i64, y: (y + h / 2) as i64 },
                w_half: (w / 2) as i64,
                h_half: (h / 2) as i64,
            }),
            r.wf(),
    {
        Rect {
            center: Point { x: x + w / 2, y: y + h / 2 },
            w_half: w / 2,
            h_half: h / 2,
        }
    }

    /// The corner of this rectangle named by `which`.
    pub fn corner(&self, which: Corner) -> (p: Point)
        requires
            self.wf(),
        ensures
            p == self.corner_spec(which),
    {
        match which {
            Corner::NE => Point {
                x: self.center.x + self.w_half,
                y: self.center.y - self.h_half,
            },
            Corner::NW => Point {
                x: self.center.x - self.w_half,
                y: self.center.y - self.h_half,
            },
            Corner::SW => Point {
                x: self.center.x - self.w_half,
                y: self.center.y + self.h_half,
            },
            Corner::SE => Point {
                x: self.center.x + self.w_half,
                y: self.center.y + self.h_half,
            },
        }
    }

    /// Whether `point` lies within this rectangle, edges included.
    pub fn contains_point(&self, point: &Point) -> (r: bool)
        requires
            self.wf(),
        ensures
            r == self.contains_point_spec(*point),
    {
        self.center.x - self.w_half <= point.x && point.x <= self.center.x + self.w_half
            && self.center.y - self.h_half <= point.y && point.y <= self.center.y + self.h_half
    }

    /// Whether `other` lies entirely within this rectangle.
    pub fn contains_rect(&self, other: &Rect) -> (r: bool)
        requires
            self.wf(),
            other.wf(),
        ensures
            r == self.contains_rect_spec(*other),
    {
        self.contains_point(&other.corner(Corner::NE))
            && self.contains_point(&other.corner(Corner::NW))
            && self.contains_point(&other.corner(Corner::SW))
            && self.contains_point(&other.corner(Corner::SE))
    }

    /// The quadrant of this rectangle toward the corner named by `which`.
    pub fn quadrant(&self, which: Corner) -> (q: Rect)
        requires
            self.wf(),
        ensures
            q == self.quadrant_spec(which),
    {
        let qw = self.w_half / 2;
        let qh = self.h_half / 2;
        match which {
            Corner::NE => Rect {
                center: Point { x: self.center.x + qw, y: self.center.y - qh },
                w_half: qw,
                h_half: qh,
            },
            Corner::NW => Rect {
                center: Point { x: self.center.x - qw, y: self.center.y - qh },
                w_half: qw,
                h_half: qh,
            },
            Corner::SW => Rect {
                center: Point { x: self.center.x - qw, y: self.center.y + qh },
                w_half: qw,
                h_half: qh,
            },
            Corner::SE => Rect {
                center: Point { x: self.center.x + qw, y: self.center.y + qh },
                w_half: qw,
                h_half: qh,
            },
        }
    }
}

/// Every well-formed rectangle contains itself, and contains each of its own
/// four corners.
pub proof fn lemma_rect_contains_itself(r: Rect)
    requires
        r.wf(),
    ensures
        r.contains_rect_spec(r),
        forall|c: Corner| r.contains_point_spec(#[trigger] r.corner_spec(c)),
{
    assert forall|c: Corner| r.contains_point_spec(#[trigger] r.corner_spec(c)) by {
        match c {
            Corner::NE => {},
            Corner::NW => {},
            Corner::SW => {},
            Corner::SE => {},
        }
    }
}

/// A rectangle of the same size whose center is shifted by any nonzero
/// offset is never contained in the original: containment requires full
/// enclosure, and equal sizes leave no room to move.
pub proof fn lemma_equal_size_shift_not_contained(a: Rect, b: Rect)
    requires
        a.wf(),
        b.wf(),
        b.w_half == a.w_half,
        b.h_half == a.h_half,
        b.center != a.center,
    ensures
        !a.contains_rect_spec(b),
{
}

/// Each quadrant of a well-formed rectangle is itself well formed.
pub proof fn lemma_quadrant_wf(b: Rect, c: Corner)
    requires
        b.wf(),
    ensures
        b.quadrant_spec(c).wf(),
{
    assert(0 <= b.w_half / 2 && 2 * (b.w_half / 2) <= b.w_half);
    assert(0 <= b.h_half / 2 && 2 * (b.h_half / 2) <= b.h_half);
}

/// Each quadrant of a well-formed rectangle is contained in it.
pub proof fn lemma_quadrant_within(b: Rect, c: Corner)
    requires
        b.wf(),
    ensures
        b.contains_rect_spec(b.quadrant_spec(c)),
{
    assert(0 <= b.w_half / 2 && 2 * (b.w_half / 2) <= b.w_half);
    assert(0 <= b.h_half / 2 && 2 * (b.h_half / 2) <= b.h_half);
}

/// With even half-extents the four quadrants tile the rectangle exactly:
/// every contained point lies in at least one quadrant. (With an odd
/// half-extent the integer halving leaves the outermost strip uncovered.)
pub proof fn lemma_quadrants_tile(b: Rect, p: Point)
    requires
        b.wf(),
        b.w_half % 2 == 0,
        b.h_half % 2 == 0,
        b.contains_point_spec(p),
    ensures
        exists|c: Corner| b.quadrant_spec(c).contains_point_spec(p),
{
    assert(2 * (b.w_half / 2) == b.w_half);
    assert(2 * (b.h_half / 2) == b.h_half);
    if p.x >= b.center.x {
        if p.y <= b.center.y {
            assert(b.quadrant_spec(Corner::NE).contains_point_spec(p));
        } else {
            assert(b.quadrant_spec(Corner::SE).contains_point_spec(p));
        }
    } else {
        if p.y <= b.center.y {
            assert(b.quadrant_spec(Corner::NW).contains_point_spec(p));
        } else {
            assert(b.quadrant_spec(Corner::SW).contains_point_spec(p));
        }
    }
}

/// A point of a contained rectangle is a point of the container.
pub proof fn lemma_contained_rect_point(outer: Rect, inner: Rect, p: Point)
    requires
        inner.wf(),
        outer.contains_rect_spec(inner),
        inner.contains_point_spec(p),
    ensures
        outer.contains_point_spec(p),
{
}

/// Rectangle containment is transitive.
pub proof fn lemma_contains_rect_trans(a: Rect, b: Rect, c: Rect)
    requires
        b.wf(),
        c.wf(),
        a.contains_rect_spec(b),
        b.contains_rect_spec(c),
    ensures
        a.contains_rect_spec(c),
{
}

} // verus!
