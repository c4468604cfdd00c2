//! Set the starting point to the walkable cell nearest to an anchor.
//!
//! The anchor is one of nine positions computed from the map's dimensions.
//! Among the floor cells nearest to it by straight-line distance, the
//! earliest in row-major order is chosen; the map is otherwise unchanged.
//! A map without any floor cell keeps its previous starting point.

use vstd::prelude::*;
use crate::filter::MapFilter;
use crate::geometry::{dist_sq, lemma_dist_sq_fits, Point};
use crate::map::{lemma_idx_bounds, row_major_idx, TileMap};
use crate::random::RngSource;

verus! {

/// Horizontal anchor choice.
#[derive(Clone, Copy, PartialEq, Eq, Structural, Debug)]
pub enum XStart {
    LEFT,
    CENTER,
    RIGHT,
}

/// Vertical anchor choice.
#[derive(Clone, Copy, PartialEq, Eq, Structural, Debug)]
pub enum YStart {
    TOP,
    CENTER,
    BOTTOM,
}

pub open spec fn anchor_x(xs: XStart, w: int) -> int {
    match xs {
        XStart::LEFT => 0,
        XStart::CENTER => w / 2,
        XStart::RIGHT => w - 1,
    }
}

pub open spec fn anchor_y(ys: YStart, h: int) -> int {
    match ys {
        YStart::TOP => 0,
        YStart::CENTER => h / 2,
        YStart::BOTTOM => h - 1,
    }
}

/// `p` is a floor cell nearest to the anchor `(ax, ay)`, the earliest such
/// cell in row-major order.
pub open spec fn start_point_ok<D>(map: TileMap<D>, ax: int, ay: int, p: Point) -> bool {
    &&& map.walkable_at(p.x as int, p.y as int)
    &&& forall|x: int, y: int|
        #[trigger] map.walkable_at(x, y) ==> dist_sq(ax, ay, p.x as int, p.y as int) <= dist_sq(
            ax,
            ay,
            x,
            y,
        )
    &&& forall|x: int, y: int|
        #[trigger] map.walkable_at(x, y) && dist_sq(ax, ay, x, y) == dist_sq(
            ax,
            ay,
            p.x as int,
            p.y as int,
        ) ==> row_major_idx(p.x as int, p.y as int, map.width as int) <= row_major_idx(
            x,
            y,
            map.width as int,
        )
}

/// Sets the starting point to the floor cell nearest to a dimension-derived
/// anchor.
pub struct AreaStartingPosition {
    pub x_start: XStart,
    pub y_start: YStart,
}

impl AreaStartingPosition {
    pub fn new(x_start: XStart, y_start: YStart) -> (f: Box<AreaStartingPosition>)
        ensures
            f.x_start == x_start,
            f.y_start == y_start,
    {
        Box::new(AreaStartingPosition { x_start, y_start })
    }

    /// The whole transformation: only the starting point changes, and only
    /// when the map has a floor cell at all.
    #[verifier::loop_isolation(false)]
    #[verifier::rlimit(60)]
    pub fn build<D: Copy>(&self, map: &TileMap<D>) -> (out: TileMap<D>)
        requires
            map.inv(),
        ensures
            out.inv(),
            out.width == map.width,
            out.height == map.height,
            out.tiles@ == map.tiles@,
            out.exit_point == map.exit_point,
            out.data == map.data,
            (exists|x: int, y: int| #[trigger] map.walkable_at(x, y)) ==> out.starting_point
                is Some && start_point_ok(
                *map,
                anchor_x(self.x_start, map.width as int),
                anchor_y(self.y_start, map.height as int),
                out.starting_point->Some_0,
            ),
            !(exists|x: int, y: int| #[trigger] map.walkable_at(x, y)) ==> out.starting_point
                == map.starting_point,
    {
        let ghost wi = map.width as int;
        let ghost hi = map.height as int;
        let ax = match self.x_start {
            XStart::LEFT => 0,
            XStart::CENTER => map.width / 2,
            XStart::RIGHT => map.width - 1,
        };
        let ay = match self.y_start {
            YStart::TOP => 0,
            YStart::CENTER => map.height / 2,
            YStart::BOTTOM => map.height - 1,
        };
        proof {
            assert(ax as int == anchor_x(self.x_start, wi));
            assert(ay as int == anchor_y(self.y_start, hi));
            assert(ax < map.width && ay < map.height);
        }
        let anchor = Point { x: ax, y: ay };
        let mut found = false;
        let mut best_x: usize = 0;
        let mut best_y: usize = 0;
        let mut best_d: u128 = 0;
        let mut y: usize = 0;
        while y < map.height
            invariant
                y <= map.height,
                found ==> map.walkable_at(best_x as int, best_y as int),
                found ==> best_d == dist_sq(ax as int, ay as int, best_x as int, best_y as int),
                found ==> (best_y as int) < y as int,
                !found ==> forall|a: int, b: int|
                    0 <= b < y && 0 <= a < wi ==> !(#[trigger] map.walkable_at(a, b)),
                found ==> forall|a: int, b: int|
                    0 <= b < y && 0 <= a < wi && #[trigger] map.walkable_at(a, b) ==> best_d
                        <= dist_sq(ax as int, ay as int, a, b),
                found ==> forall|a: int, b: int|
                    0 <= b < y && 0 <= a < wi && #[trigger] map.walkable_at(a, b) && dist_sq(
                        ax as int,
                        ay as int,
                        a,
                        b,
                    ) == best_d ==> row_major_idx(best_x as int, best_y as int, wi)
                        <= row_major_idx(a, b, wi),
            decreases map.height - y,
        {
            let mut x: usize = 0;
            while x < map.width
                invariant
                    y < map.height,
                    x <= map.width,
                    found ==> map.walkable_at(best_x as int, best_y as int),
                    found ==> best_d == dist_sq(
                        ax as int,
                        ay as int,
                        best_x as int,
                        best_y as int,
                    ),
                    found ==> (best_y as int) < y as int || (best_y as int == y as int
                        && best_x <= x),
                    !found ==> forall|a: int, b: int|
                        0 <= a < wi && (0 <= b < y || (b == y && 0 <= a < x)) ==> !(
                        #[trigger] map.walkable_at(a, b)),
                    found ==> forall|a: int, b: int|
                        0 <= a < wi && (0 <= b < y || (b == y && 0 <= a < x))
                            && #[trigger] map.walkable_at(a, b) ==> best_d <= dist_sq(
                            ax as int,
                            ay as int,
                            a,
                            b,
                        ),
                    found ==> forall|a: int, b: int|
                        0 <= a < wi && (0 <= b < y || (b == y && 0 <= a < x))
                            && #[trigger] map.walkable_at(a, b) && dist_sq(
                            ax as int,
                            ay as int,
                            a,
                            b,
                        ) == best_d ==> row_major_idx(best_x as int, best_y as int, wi)
                            <= row_major_idx(a, b, wi),
                decreases map.width - x,
            {
                if map.is_walkable(x, y) {
                    proof {
                        lemma_dist_sq_fits(ax as int, ay as int, x as int, y as int, wi, hi);
                        lemma_idx_bounds(x as int, y as int, wi, hi);
                    }
                    let d = anchor.distance_sq_to(&Point { x, y });
                    if !found || d < best_d {
                        found = true;
                        best_x = x;
                        best_y = y;
                        best_d = d;
                    }
                    proof {
                        assert(row_major_idx(best_x as int, best_y as int, wi) <= row_major_idx(
                            x as int,
                            y as int,
                            wi,
                        )) by (nonlinear_arith)
                            requires
                                0 <= (best_x as int) && (best_x as int) < wi,
                                0 <= (x as int) && (x as int) < wi,
                                0 <= (best_y as int) && (best_y as int) <= (y as int),
                                (best_y as int) == (y as int) ==> best_x <= x;
                    }
                }
                x = x + 1;
            }
            y = y + 1;
        }
        let mut out = map.clone_map();
        if found {
            out.starting_point = Some(Point { x: best_x, y: best_y });
            proof {
                assert(map.walkable_at(best_x as int, best_y as int));
            }
        } else {
            proof {
                assert forall|a: int, b: int| !(#[trigger] map.walkable_at(a, b)) by {}
            }
        }
        out
    }
}

impl<D: Copy> MapFilter<D> for AreaStartingPosition {
    fn modify_map(&self, rng: &mut RngSource, map: &TileMap<D>) -> (out: TileMap<D>)
        ensures
            out.tiles@ == map.tiles@,
            out.exit_point == map.exit_point,
            out.data == map.data,
            (exists|x: int, y: int| #[trigger] map.walkable_at(x, y)) ==> out.starting_point
                is Some && start_point_ok(
                *map,
                anchor_x(self.x_start, map.width as int),
                anchor_y(self.y_start, map.height as int),
                out.starting_point->Some_0,
            ),
            !(exists|x: int, y: int| #[trigger] map.walkable_at(x, y)) ==> out.starting_point
                == map.starting_point,
            *final(rng) == *old(rng),
    {
        self.build(map)
    }
}

} // verus!
