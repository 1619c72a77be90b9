//! Points and rectangles in screen or text coordinates.

use vstd::prelude::*;

verus! {

/// Either a position in 2d space w.r.t. (0,0), or a movement quantity.
#[derive(Debug, Clone, Copy, PartialEq, Eq, Structural)]
pub struct Pos {
    pub x: i32,
    pub y: i32,
}

/// A rectangle: `min` is inclusive, `max` is exclusive.
#[derive(Debug, Clone, Copy, PartialEq, Eq, Structural)]
pub struct Rec {
    pub min: Pos,
    pub max: Pos,
}

pub open spec fn spec_pos(x: int, y: int) -> Pos {
    Pos { x: x as i32, y: y as i32 }
}

pub fn pos(x: i32, y: i32) -> (p: Pos)
    ensures
        p.x == x,
        p.y == y,
{
    Pos { x, y }
}

fn ordered(v1: i32, v2: i32) -> (r: (i32, i32))
    ensures
        r.0 <= r.1,
        (r.0 == v1 && r.1 == v2) || (r.0 == v2 && r.1 == v1),
{
    if v1 < v2 {
        return (v1, v2);
    }
    (v2, v1)
}

/// Builds the rectangle spanned by two corners, in any order.
pub fn rec(x0: i32, y0: i32, x1: i32, y1: i32) -> (r: Rec)
    ensures
        r.min.x == if x0 <= x1 { x0 } else { x1 },
        r.max.x == if x0 <= x1 { x1 } else { x0 },
        r.min.y == if y0 <= y1 { y0 } else { y1 },
        r.max.y == if y0 <= y1 { y1 } else { y0 },
{
    let (a0, a1) = ordered(x0, x1);
    let (b0, b1) = ordered(y0, y1);
    Rec { min: pos(a0, b0), max: pos(a1, b1) }
}


/// Whether an integer is representable as an `i32`.
pub open spec fn fits_i32(v: int) -> bool {
    i32::MIN <= v <= i32::MAX
}

impl Rec {
    pub open spec fn spec_w(self) -> int {
        self.max.x - self.min.x
    }

    pub open spec fn spec_h(self) -> int {
        self.max.y - self.min.y
    }

    /// Inclusive containment on both corners.
    pub open spec fn spec_contains(self, v: Pos) -> bool {
        self.min.x <= v.x && self.min.y <= v.y && v.x <= self.max.x && v.y <= self.max.y
    }

    /// Containment with the far corner excluded: the cells the rectangle covers.
    pub open spec fn covers(self, v: Pos) -> bool {
        self.min.x <= v.x < self.max.x && self.min.y <= v.y < self.max.y
    }

    pub fn x0(self) -> (r: i32)
        ensures
            r == self.min.x,
    {
        self.min.x
    }

    pub fn y0(self) -> (r: i32)
        ensures
            r == self.min.y,
    {
        self.min.y
    }

    pub fn x1(self) -> (r: i32)
        ensures
            r == self.max.x,
    {
        self.max.x
    }

    pub fn y1(self) -> (r: i32)
        ensures
            r == self.max.y,
    {
        self.max.y
    }

    pub fn w(self) -> (r: i32)
        requires
            fits_i32(self.spec_w()),
        ensures
            r == self.spec_w(),
    {
        self.max.x - self.min.x
    }

    pub fn h(self) -> (r: i32)
        requires
            fits_i32(self.spec_h()),
        ensures
            r == self.spec_h(),
    {
        self.max.y - self.min.y
    }

    pub fn area(self) -> (r: i32)
        requires
            fits_i32(self.spec_w()),
            fits_i32(self.spec_h()),
            fits_i32(self.spec_w() * self.spec_h()),
        ensures
            r == self.spec_w() * self.spec_h(),
    {
        self.w() * self.h()
    }

    pub fn size(self) -> (r: Pos)
        requires
            fits_i32(self.spec_w()),
            fits_i32(self.spec_h()),
        ensures
            r.x == self.spec_w(),
            r.y == self.spec_h(),
    {
        pos(self.w(), self.h())
    }

    /// The one-row-high band of this rectangle at row `y`.
    pub fn row(self, y: i32) -> (r: Rec)
        requires
            self.min.x <= self.max.x,
            self.min.y <= y <= self.max.y,
            y < i32::MAX,
        ensures
            r == (Rec { min: Pos { x: self.min.x, y }, max: Pos { x: self.max.x, y: (y + 1) as i32 } }),
    {
        rec(self.min.x, y, self.max.x, y + 1)
    }

    /// The one-column-wide band of this rectangle at column `x`.
    pub fn column(self, x: i32) -> (r: Rec)
        requires
            self.min.y <= self.max.y,
            self.min.x <= x <= self.max.x,
            x < i32::MAX,
        ensures
            r == (Rec { min: Pos { x, y: self.min.y }, max: Pos { x: (x + 1) as i32, y: self.max.y } }),
    {
        rec(x, self.min.y, x + 1, self.max.y)
    }

    /// Splits into the part left of column `x` and the part from `x` on.
    pub fn hsplit(self, x: i32) -> (r: (Rec, Rec))
        requires
            self.min.y <= self.max.y,
            self.min.x <= x < self.max.x,
        ensures
            r.0 == (Rec { min: self.min, max: Pos { x, y: self.max.y } }),
            r.1 == (Rec { min: Pos { x, y: self.min.y }, max: self.max }),
    {
        let left = rec(self.min.x, self.min.y, x, self.max.y);
        let right = rec(x, self.min.y, self.max.x, self.max.y);
        (left, right)
    }

    /// Splits into the part above row `y` and the part from `y` down.
    pub fn vsplit(self, y: i32) -> (r: (Rec, Rec))
        requires
            self.min.x <= self.max.x,
            self.min.y <= y < self.max.y,
        ensures
            r.0 == (Rec { min: self.min, max: Pos { x: self.max.x, y } }),
            r.1 == (Rec { min: Pos { x: self.min.x, y }, max: self.max }),
    {
        let up = rec(self.min.x, self.min.y, self.max.x, y);
        let down = rec(self.min.x, y, self.max.x, self.max.y);
        (up, down)
    }

    pub fn contains(self, v: Pos) -> (r: bool)
        ensures
            r == self.spec_contains(v),
    {
        self.min.x <= v.x && self.min.y <= v.y && v.x <= self.max.x && v.y <= self.max.y
    }

    /// This rectangle moved by `v`.
    pub fn add(self, v: Pos) -> (r: Rec)
        requires
            fits_i32(self.min.x + v.x),
            fits_i32(self.min.y + v.y),
            fits_i32(self.max.x + v.x),
            fits_i32(self.max.y + v.y),
        ensures
            r.min.x == self.min.x + v.x,
            r.min.y == self.min.y + v.y,
            r.max.x == self.max.x + v.x,
            r.max.y == self.max.y + v.y,
    {
        Rec { min: self.min.add(v), max: self.max.add(v) }
    }

    /// This rectangle moved by `-v`.
    pub fn sub(self, v: Pos) -> (r: Rec)
        requires
            fits_i32(self.min.x - v.x),
            fits_i32(self.min.y - v.y),
            fits_i32(self.max.x - v.x),
            fits_i32(self.max.y - v.y),
        ensures
            r.min.x == self.min.x - v.x,
            r.min.y == self.min.y - v.y,
            r.max.x == self.max.x - v.x,
            r.max.y == self.max.y - v.y,
    {
        Rec { min: self.min.sub(v), max: self.max.sub(v) }
    }
}

impl Pos {
    /// The rectangle from the origin to this point.
    pub fn rec(self) -> (r: Rec)
        ensures
            r == (Rec { min: Pos { x: 0, y: 0 }, max: self }),
    {
        Rec { min: pos(0, 0), max: self }
    }

    /// The rectangle from this point spanning `diag`.
    pub fn extrude(self, diag: Pos) -> (r: Rec)
        requires
            fits_i32(self.x + diag.x),
            fits_i32(self.y + diag.y),
        ensures
            r.min == self,
            r.max.x == self.x + diag.x,
            r.max.y == self.y + diag.y,
    {
        Rec { min: self, max: self.add(diag) }
    }

    pub fn usize(self) -> (r: (usize, usize))
        requires
            self.x >= 0,
            self.y >= 0,
        ensures
            r.0 == self.x,
            r.1 == self.y,
    {
        (self.x as usize, self.y as usize)
    }

    pub fn add(self, v: Pos) -> (r: Pos)
        requires
            fits_i32(self.x + v.x),
            fits_i32(self.y + v.y),
        ensures
            r.x == self.x + v.x,
            r.y == self.y + v.y,
    {
        pos(self.x + v.x, self.y + v.y)
    }

    pub fn add_assign(&mut self, v: Pos)
        requires
            fits_i32(old(self).x + v.x),
            fits_i32(old(self).y + v.y),
        ensures
            final(self).x == old(self).x + v.x,
            final(self).y == old(self).y + v.y,
    {
        self.x = self.x + v.x;
        self.y = self.y + v.y;
    }

    pub fn sub(self, v: Pos) -> (r: Pos)
        requires
            fits_i32(self.x - v.x),
            fits_i32(self.y - v.y),
        ensures
            r.x == self.x - v.x,
            r.y == self.y - v.y,
    {
        pos(self.x - v.x, self.y - v.y)
    }

    pub fn neg(self) -> (r: Pos)
        requires
            self.x > i32::MIN,
            self.y > i32::MIN,
        ensures
            r.x == -self.x,
            r.y == -self.y,
    {
        pos(-self.x, -self.y)
    }
}

/// `v` brought into `[lo, hi]` (`lo <= hi`).
pub open spec fn clamp_int(v: int, lo: int, hi: int) -> int {
    if v < lo {
        lo
    } else if v > hi {
        hi
    } else {
        v
    }
}

} // verus!
