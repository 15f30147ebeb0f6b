//! Axis-aligned rectangles with integer coordinates, and the spec-level
//! geometry the rest of the crate is stated in: closed-interval containment,
//! open (interior) intersection, and exact integer areas.

use vstd::prelude::*;

verus! {

/// An axis-aligned rectangle, given by its low and high corner on each axis.
/// A box is well formed when `x_lo <= x_hi` and `y_lo <= y_hi`; it is
/// non-degenerate when both extents are strictly positive.
#[derive(Clone, Copy, Debug, PartialEq, Eq, Structural)]
pub struct AxisAlignedBox {
    pub x_lo: i32,
    pub y_lo: i32,
    pub x_hi: i32,
    pub y_hi: i32,
}

impl AxisAlignedBox {
    /// Both axes have `lo <= hi`.
    pub open spec fn valid(self) -> bool {
        self.x_lo <= self.x_hi && self.y_lo <= self.y_hi
    }

    /// Strictly positive width and height.
    pub open spec fn nondegenerate(self) -> bool {
        self.x_lo < self.x_hi && self.y_lo < self.y_hi
    }

    /// Exact area, as a mathematical integer.
    pub open spec fn area(self) -> int {
        (self.x_hi - self.x_lo) * (self.y_hi - self.y_lo)
    }

    /// Closed-interval point containment on both axes.
    pub open spec fn contains_point(self, x: int, y: int) -> bool {
        self.x_lo <= x <= self.x_hi && self.y_lo <= y <= self.y_hi
    }

    /// `other` lies within `self` (closed intervals; touching counts).
    pub open spec fn contains_box(self, other: AxisAlignedBox) -> bool {
        self.x_lo <= other.x_lo && other.x_hi <= self.x_hi
            && self.y_lo <= other.y_lo && other.y_hi <= self.y_hi
    }

    pub fn new(x_lo: i32, y_lo: i32, x_hi: i32, y_hi: i32) -> (r: AxisAlignedBox)
        ensures
            r == (AxisAlignedBox { x_lo, y_lo, x_hi, y_hi }),
    {
        AxisAlignedBox { x_lo, y_lo, x_hi, y_hi }
    }
}

/// The interiors of `a` and `b` intersect (equivalently: the boxes overlap in
/// a region of positive extent on both axes).
pub open spec fn open_intersect(a: AxisAlignedBox, b: AxisAlignedBox) -> bool {
    a.x_lo < b.x_hi && b.x_lo < a.x_hi && a.y_lo < b.y_hi && b.y_lo < a.y_hi
}

/// `a` and `b` share at most boundary: their interiors are disjoint.
pub open spec fn interior_disjoint(a: AxisAlignedBox, b: AxisAlignedBox) -> bool {
    !open_intersect(a, b)
}

/// The (closed) intersection box of `a` and `b`; well formed whenever the two
/// boxes open-intersect.
pub open spec fn intersection(a: AxisAlignedBox, b: AxisAlignedBox) -> AxisAlignedBox {
    AxisAlignedBox {
        x_lo: if a.x_lo >= b.x_lo { a.x_lo } else { b.x_lo },
        y_lo: if a.y_lo >= b.y_lo { a.y_lo } else { b.y_lo },
        x_hi: if a.x_hi <= b.x_hi { a.x_hi } else { b.x_hi },
        y_hi: if a.y_hi <= b.y_hi { a.y_hi } else { b.y_hi },
    }
}

/// Area of `a ∩ b`: zero unless the interiors intersect.
pub open spec fn overlap_area(a: AxisAlignedBox, b: AxisAlignedBox) -> int {
    if open_intersect(a, b) {
        intersection(a, b).area()
    } else {
        0
    }
}

/// Sum of the areas of a sequence of boxes.
pub open spec fn area_sum(s: Seq<AxisAlignedBox>) -> int
    decreases s.len(),
{
    if s.len() == 0 {
        0
    } else {
        area_sum(s.drop_last()) + s.last().area()
    }
}

/// Runtime test for interior intersection.
pub fn boxes_overlap(a: &AxisAlignedBox, b: &AxisAlignedBox) -> (r: bool)
    ensures
        r == open_intersect(*a, *b),
{
    a.x_lo < b.x_hi && b.x_lo < a.x_hi && a.y_lo < b.y_hi && b.y_lo < a.y_hi
}

} // verus!
