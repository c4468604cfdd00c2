//! Grid coordinates.

use vstd::prelude::*;

verus! {

/// A grid coordinate: `x` grows to the right, `y` grows downwards.
#[derive(Clone, Copy, PartialEq, Eq, Structural, Debug)]
pub struct Point {
    pub x: usize,
    pub y: usize,
}

/// Squared straight-line distance between two coordinates, as a mathematical
/// integer: `(ax - bx)^2 + (ay - by)^2`. Comparing squared distances orders
/// points exactly as comparing the true distances would.
pub open spec fn dist_sq(ax: int, ay: int, bx: int, by: int) -> int {
    (ax - bx) * (ax - bx) + (ay - by) * (ay - by)
}

/// For two points inside one grid whose cell count fits the machine, the
/// squared distance between them fits in `u128`.
pub proof fn lemma_dist_sq_fits(ax: int, ay: int, bx: int, by: int, w: int, h: int)
    requires
        0 <= ax < w,
        0 <= bx < w,
        0 <= ay < h,
        0 <= by < h,
        w * h <= 0x1_0000_0000_0000_0000,
    ensures
        0 <= dist_sq(ax, ay, bx, by) <= u128::MAX,
{
    let dx = if ax >= bx { ax - bx } else { bx - ax };
    let dy = if ay >= by { ay - by } else { by - ay };
    assert(dist_sq(ax, ay, bx, by) == dx * dx + dy * dy) by (nonlinear_arith)
        requires dx == ax - bx || dx == bx - ax, dy == ay - by || dy == by - ay;
    assert(dx * dx + dy * dy <= (dx + dy) * (dx + dy)) by (nonlinear_arith)
        requires dx >= 0 && dy >= 0;
    assert(w + h - 2 <= w * h - 1) by (nonlinear_arith)
        requires w >= 1 && h >= 1;
    assert((dx + dy) * (dx + dy) <= (w * h - 1) * (w * h - 1)) by (nonlinear_arith)
        requires 0 <= dx + dy <= w * h - 1;
    assert((w * h - 1) * (w * h - 1) <= u128::MAX) by (nonlinear_arith)
        requires 0 < w * h <= 0x1_0000_0000_0000_0000;
}

impl Point {
    pub fn new(x: usize, y: usize) -> (p: Point)
        ensures
            p.x == x,
            p.y == y,
    {
        Point { x, y }
    }

    /// Squared straight-line distance to another point, computed in `u128`.
    /// The precondition is the machine limit alone; `lemma_dist_sq_fits`
    /// discharges it for any two points of one grid.
    pub fn distance_sq_to(&self, other: &Point) -> (d: u128)
        requires
            dist_sq(self.x as int, self.y as int, other.x as int, other.y as int) <= u128::MAX,
        ensures
            d == dist_sq(self.x as int, self.y as int, other.x as int, other.y as int),
    {
        let dx: u128 = if self.x >= other.x {
            (self.x - other.x) as u128
        } else {
            (other.x - self.x) as u128
        };
        let dy: u128 = if self.y >= other.y {
            (self.y - other.y) as u128
        } else {
            (other.y - self.y) as u128
        };
        proof {
            let ax = self.x as int;
            let ay = self.y as int;
            let bx = other.x as int;
            let by = other.y as int;
            assert(dx * dx + dy * dy == dist_sq(ax, ay, bx, by)) by (nonlinear_arith)
                requires dx == ax - bx || dx == bx - ax, dy == ay - by || dy == by - ay;
        }
        dx * dx + dy * dy
    }
}

} // verus!
