//! Smooth noise into cave-like blobs by local majority voting.
//!
//! Each pass reads one snapshot and writes the next: for every interior cell
//! the walls among its eight neighbors are counted in the snapshot; above
//! the upper threshold the cell becomes wall, below the lower threshold it
//! becomes floor, otherwise it keeps its tile. The outer ring is never
//! touched, so an enclosed boundary survives every pass.

use vstd::prelude::*;
use crate::filter::MapFilter;
use crate::map::{lemma_idx_bounds, lemma_idx_injective, row_major_idx, Tile, TileMap};
use crate::random::RngSource;

verus! {

/// One if the cell holds a wall, else zero.
pub open spec fn wall_one(tiles: Seq<Tile>, w: int, x: int, y: int) -> int {
    if tiles[row_major_idx(x, y, w)] == Tile::Wall {
        1
    } else {
        0
    }
}

/// Walls among the eight neighbors of an interior cell.
pub open spec fn wall_neighbors(tiles: Seq<Tile>, w: int, x: int, y: int) -> int {
    wall_one(tiles, w, x - 1, y - 1) + wall_one(tiles, w, x, y - 1) + wall_one(
        tiles,
        w,
        x + 1,
        y - 1,
    ) + wall_one(tiles, w, x - 1, y) + wall_one(tiles, w, x + 1, y) + wall_one(
        tiles,
        w,
        x - 1,
        y + 1,
    ) + wall_one(tiles, w, x, y + 1) + wall_one(tiles, w, x + 1, y + 1)
}

/// What one pass writes at `(x, y)`, reading the snapshot `tiles`.
pub open spec fn ca_tile(
    tiles: Seq<Tile>,
    w: int,
    h: int,
    lower: int,
    upper: int,
    x: int,
    y: int,
) -> Tile {
    if 1 <= x < w - 1 && 1 <= y < h - 1 {
        if wall_neighbors(tiles, w, x, y) > upper {
            Tile::Wall
        } else if wall_neighbors(tiles, w, x, y) < lower {
            Tile::Floor
        } else {
            tiles[row_major_idx(x, y, w)]
        }
    } else {
        tiles[row_major_idx(x, y, w)]
    }
}

/// One whole pass over the grid.
pub open spec fn ca_step(tiles: Seq<Tile>, w: int, h: int, lower: int, upper: int) -> Seq<Tile> {
    Seq::new(tiles.len(), |i: int| ca_tile(tiles, w, h, lower, upper, i % w, i / w))
}

/// The grid after `k` passes.
pub open spec fn ca_iter(
    tiles: Seq<Tile>,
    w: int,
    h: int,
    lower: int,
    upper: int,
    k: nat,
) -> Seq<Tile>
    decreases k,
{
    if k == 0 {
        tiles
    } else {
        ca_step(ca_iter(tiles, w, h, lower, upper, (k - 1) as nat), w, h, lower, upper)
    }
}

/// Iterative local-majority smoothing over interior cells.
pub struct CellularAutomata {
    pub num_iterations: usize,
    /// A cell with strictly fewer wall neighbors becomes floor.
    pub lower: usize,
    /// A cell with strictly more wall neighbors becomes wall.
    pub upper: usize,
}

impl CellularAutomata {
    /// One smoothing pass with the classic thresholds: more than four wall
    /// neighbors close the cell, fewer than four open it.
    pub fn new() -> (f: Box<CellularAutomata>)
        ensures
            f.num_iterations == 1,
            f.lower == 4,
            f.upper == 4,
    {
        Box::new(CellularAutomata { num_iterations: 1, lower: 4, upper: 4 })
    }

    /// One pass: the output grid is exactly `ca_step` of the input grid.
    #[verifier::loop_isolation(false)]
    #[verifier::rlimit(100)]
    pub fn apply_step<D: Copy>(map: &TileMap<D>, lower: usize, upper: usize) -> (out: TileMap<D>)
        requires
            map.inv(),
        ensures
            out.inv(),
            out.width == map.width,
            out.height == map.height,
            out.starting_point == map.starting_point,
            out.exit_point == map.exit_point,
            out.data == map.data,
            out.tiles@ == ca_step(
                map.tiles@,
                map.width as int,
                map.height as int,
                lower as int,
                upper as int,
            ),
    {
        let w = map.width;
        let h = map.height;
        let ghost wi = w as int;
        let ghost hi = h as int;
        let ghost li = lower as int;
        let ghost ui = upper as int;
        let mut out = map.clone_map();
        let mut y: usize = 1;
        while y < h - 1
            invariant
                1 <= y <= h,
                out.width == map.width,
                out.height == map.height,
                out.tiles@.len() == map.tiles@.len(),
                out.starting_point == map.starting_point,
                out.exit_point == map.exit_point,
                out.data == map.data,
                forall|a: int, b: int|
                    map.in_bounds(a, b) && b < y ==> #[trigger] out.tile_at(a, b) == ca_tile(
                        map.tiles@,
                        wi,
                        hi,
                        li,
                        ui,
                        a,
                        b,
                    ),
                forall|a: int, b: int|
                    map.in_bounds(a, b) && b >= y ==> #[trigger] out.tile_at(a, b) == map.tile_at(
                        a,
                        b,
                    ),
            decreases h - y,
        {
            let mut x: usize = 1;
            while x < w - 1
                invariant
                    1 <= y,
                    (y as int) < hi - 1,
                    1 <= x <= w,
                    out.width == map.width,
                    out.height == map.height,
                    out.tiles@.len() == map.tiles@.len(),
                    out.starting_point == map.starting_point,
                    out.exit_point == map.exit_point,
                    out.data == map.data,
                    forall|a: int, b: int|
                        map.in_bounds(a, b) && (b < y || (b == y && a < x)) ==> #[trigger] out.tile_at(
                            a,
                            b,
                        ) == ca_tile(map.tiles@, wi, hi, li, ui, a, b),
                    forall|a: int, b: int|
                        map.in_bounds(a, b) && (b > y || (b == y && a >= x)) ==> #[trigger] out.tile_at(
                            a,
                            b,
                        ) == map.tile_at(a, b),
                decreases w - x,
            {
                let mut walls: usize = 0;
                if map.get_tile(x - 1, y - 1).is_walkable() == false {
                    walls = walls + 1;
                }
                if map.get_tile(x, y - 1).is_walkable() == false {
                    walls = walls + 1;
                }
                if map.get_tile(x + 1, y - 1).is_walkable() == false {
                    walls = walls + 1;
                }
                if map.get_tile(x - 1, y).is_walkable() == false {
                    walls = walls + 1;
                }
                if map.get_tile(x + 1, y).is_walkable() == false {
                    walls = walls + 1;
                }
                if map.get_tile(x - 1, y + 1).is_walkable() == false {
                    walls = walls + 1;
                }
                if map.get_tile(x, y + 1).is_walkable() == false {
                    walls = walls + 1;
                }
                if map.get_tile(x + 1, y + 1).is_walkable() == false {
                    walls = walls + 1;
                }
                proof {
                    lemma_idx_bounds(x as int - 1, y as int - 1, wi, hi);
                    lemma_idx_bounds(x as int, y as int - 1, wi, hi);
                    lemma_idx_bounds(x as int + 1, y as int - 1, wi, hi);
                    lemma_idx_bounds(x as int - 1, y as int, wi, hi);
                    lemma_idx_bounds(x as int + 1, y as int, wi, hi);
                    lemma_idx_bounds(x as int - 1, y as int + 1, wi, hi);
                    lemma_idx_bounds(x as int, y as int + 1, wi, hi);
                    lemma_idx_bounds(x as int + 1, y as int + 1, wi, hi);
                    assert(walls as int == wall_neighbors(map.tiles@, wi, x as int, y as int));
                }
                let ghost out_prev = out;
                if walls > upper {
                    out.set_tile(x, y, Tile::Wall);
                } else if walls < lower {
                    out.set_tile(x, y, Tile::Floor);
                } else {
                    let t = map.get_tile(x, y);
                    out.set_tile(x, y, t);
                }
                proof {
                    assert(out.tile_at(x as int, y as int) == ca_tile(
                        map.tiles@,
                        wi,
                        hi,
                        li,
                        ui,
                        x as int,
                        y as int,
                    ));
                    assert forall|a: int, b: int|
                        map.in_bounds(a, b) && !(a == x as int && b == y as int)
                        implies #[trigger] out.tile_at(a, b) == out_prev.tile_at(a, b) by {
                        lemma_idx_bounds(a, b, wi, hi);
                        if row_major_idx(a, b, wi) == row_major_idx(x as int, y as int, wi) {
                            lemma_idx_injective(a, b, x as int, y as int, wi, hi);
                        }
                    }
                }
                x = x + 1;
            }
            y = y + 1;
        }
        proof {
            let step = ca_step(map.tiles@, wi, hi, li, ui);
            assert forall|i: int| 0 <= i < out.tiles@.len() implies out.tiles@[i] == step[i] by {
                vstd::arithmetic::div_mod::lemma_fundamental_div_mod(i, wi);
                vstd::arithmetic::div_mod::lemma_mod_bound(i, wi);
                let a = i % wi;
                let b = i / wi;
                assert(b < hi && 0 <= b) by (nonlinear_arith)
                    requires wi >= 1 && hi >= 1 && 0 <= i < wi * hi && i == wi * b + a && 0 <= a
                        < wi;
                assert(row_major_idx(a, b, wi) == i) by (nonlinear_arith)
                    requires i == wi * b + a;
                assert(out.tile_at(a, b) == ca_tile(map.tiles@, wi, hi, li, ui, a, b));
            }
            assert(out.tiles@ =~= step);
        }
        out
    }

    /// The whole transformation: the configured number of passes, each
    /// reading only the previous pass's snapshot.
    #[verifier::loop_isolation(false)]
    pub fn build<D: Copy>(&self, map: &TileMap<D>) -> (out: TileMap<D>)
        requires
            map.inv(),
        ensures
            out.inv(),
            out.width == map.width,
            out.height == map.height,
            out.starting_point == map.starting_point,
            out.exit_point == map.exit_point,
            out.data == map.data,
            out.tiles@ == ca_iter(
                map.tiles@,
                map.width as int,
                map.height as int,
                self.lower as int,
                self.upper as int,
                self.num_iterations as nat,
            ),
    {
        let ghost wi = map.width as int;
        let ghost hi = map.height as int;
        let mut out = map.clone_map();
        let mut it: usize = 0;
        proof {
            assert(out.tiles@ =~= ca_iter(map.tiles@, wi, hi, self.lower as int, self.upper as int, 0nat));
        }
        while it < self.num_iterations
            invariant
                it <= self.num_iterations,
                out.inv(),
                out.width == map.width,
                out.height == map.height,
                out.starting_point == map.starting_point,
                out.exit_point == map.exit_point,
                out.data == map.data,
                out.tiles@ == ca_iter(
                    map.tiles@,
                    wi,
                    hi,
                    self.lower as int,
                    self.upper as int,
                    it as nat,
                ),
            decreases self.num_iterations - it,
        {
            out = Self::apply_step(&out, self.lower, self.upper);
            it = it + 1;
        }
        out
    }
}

impl<D: Copy> MapFilter<D> for CellularAutomata {
    fn modify_map(&self, rng: &mut RngSource, map: &TileMap<D>) -> (out: TileMap<D>)
        ensures
            out.starting_point == map.starting_point,
            out.exit_point == map.exit_point,
            out.data == map.data,
            out.tiles@ == ca_iter(
                map.tiles@,
                map.width as int,
                map.height as int,
                self.lower as int,
                self.upper as int,
                self.num_iterations as nat,
            ),
            *final(rng) == *old(rng),
    {
        self.build(map)
    }
}

} // verus!
