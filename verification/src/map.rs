//! The map data model: tiles and the rectangular grid.

use vstd::prelude::*;
use crate::geometry::Point;

verus! {

/// A cell's terrain kind. `Floor` is the only walkable kind.
#[derive(Clone, Copy, PartialEq, Eq, Structural, Debug)]
pub enum Tile {
    Wall,
    Floor,
}

impl Tile {
    pub fn wall() -> (t: Tile)
        ensures t == Tile::Wall,
    {
        Tile::Wall
    }

    pub fn floor() -> (t: Tile)
        ensures t == Tile::Floor,
    {
        Tile::Floor
    }

    /// Whether this tile can be stepped on.
    pub fn is_walkable(&self) -> (r: bool)
        ensures r == (*self == Tile::Floor),
    {
        matches!(*self, Tile::Floor)
    }
}

/// An empty payload for maps that carry no host-specific bookkeeping.
#[derive(Clone, Copy, PartialEq, Eq, Structural, Debug)]
pub struct NoData {
}

impl Default for NoData {
    fn default() -> (r: NoData)
        ensures r == (NoData {  }),
    {
        NoData {  }
    }
}

/// Row-major index of the cell at `(x, y)` in a grid `w` cells wide.
pub open spec fn row_major_idx(x: int, y: int, w: int) -> int {
    y * w + x
}

/// In-range coordinates index inside the grid's cell count.
pub proof fn lemma_idx_bounds(x: int, y: int, w: int, h: int)
    requires
        0 <= x < w,
        0 <= y < h,
    ensures
        0 <= row_major_idx(x, y, w) < w * h,
    {
    assert(0 <= y * w + x < w * h) by (nonlinear_arith)
        requires 0 <= x < w && 0 <= y < h;
}

/// Distinct in-range coordinates have distinct row-major indices.
pub proof fn lemma_idx_injective(x1: int, y1: int, x2: int, y2: int, w: int, h: int)
    requires
        0 <= x1 < w,
        0 <= y1 < h,
        0 <= x2 < w,
        0 <= y2 < h,
        row_major_idx(x1, y1, w) == row_major_idx(x2, y2, w),
    ensures
        x1 == x2 && y1 == y2,
{
    assert(x1 == x2 && y1 == y2) by (nonlinear_arith)
        requires
            0 <= x1 < w && 0 <= y1 < h && 0 <= x2 < w && 0 <= y2 < h,
            y1 * w + x1 == y2 * w + x2;
}

/// The central grid entity. `tiles` is a flat row-major sequence of length
/// exactly `width * height`; `data` is an opaque payload carried through the
/// pipeline untouched by the engine itself.
pub struct TileMap<D> {
    pub width: usize,
    pub height: usize,
    pub tiles: Vec<Tile>,
    pub starting_point: Option<Point>,
    pub exit_point: Option<Point>,
    pub data: D,
}

impl<D> TileMap<D> {
    /// Well-formedness: positive dimensions fixed at creation, a tile for
    /// every cell, and any designated points inside the grid.
    pub open spec fn inv(self) -> bool {
        &&& self.width >= 1
        &&& self.height >= 1
        &&& (self.width as int) * (self.height as int) <= usize::MAX as int
        &&& self.tiles@.len() == (self.width as int) * (self.height as int)
        &&& match self.starting_point {
            Some(p) => p.x < self.width && p.y < self.height,
            None => true,
        }
        &&& match self.exit_point {
            Some(p) => p.x < self.width && p.y < self.height,
            None => true,
        }
    }

    pub open spec fn in_bounds(self, x: int, y: int) -> bool {
        0 <= x < self.width && 0 <= y < self.height
    }

    /// The tile stored for in-bounds coordinates `(x, y)`.
    pub open spec fn tile_at(self, x: int, y: int) -> Tile {
        self.tiles@[row_major_idx(x, y, self.width as int)]
    }

    /// A cell one can step on: in bounds and holding `Floor`.
    pub open spec fn walkable_at(self, x: int, y: int) -> bool {
        self.in_bounds(x, y) && self.tile_at(x, y) == Tile::Floor
    }

    /// Two maps cover the same grid.
    pub open spec fn same_dims(self, other: TileMap<D>) -> bool {
        self.width == other.width && self.height == other.height
    }
}

impl<D: Copy + Default> TileMap<D> {
    /// A blank canvas: every tile `Wall` (the enclosed-by-default choice),
    /// no starting or exit point, the payload at its default value.
    pub fn new(width: usize, height: usize) -> (map: TileMap<D>)
        requires
            width >= 1,
            height >= 1,
            (width as int) * (height as int) <= usize::MAX as int,
        ensures
            map.inv(),
            map.width == width,
            map.height == height,
            forall|i: int| 0 <= i < map.tiles@.len() ==> map.tiles@[i] == Tile::Wall,
            map.starting_point is None,
            map.exit_point is None,
    {
        let n = width * height;
        let mut tiles: Vec<Tile> = Vec::new();
        let mut i: usize = 0;
        while i < n
            invariant
                i <= n,
                tiles@.len() == i,
                forall|k: int| 0 <= k < i ==> tiles@[k] == Tile::Wall,
            decreases n - i,
        {
            tiles.push(Tile::Wall);
            i = i + 1;
        }
        TileMap {
            width,
            height,
            tiles,
            starting_point: None,
            exit_point: None,
            data: D::default(),
        }
    }
}

impl<D: Copy> TileMap<D> {
    /// An identical copy of the map: filters never mutate their input, they
    /// derive a fresh value from it.
    pub fn clone_map(&self) -> (m: TileMap<D>)
        ensures
            m.width == self.width,
            m.height == self.height,
            m.tiles@ == self.tiles@,
            m.starting_point == self.starting_point,
            m.exit_point == self.exit_point,
            m.data == self.data,
    {
        let mut tiles: Vec<Tile> = Vec::new();
        let mut i: usize = 0;
        while i < self.tiles.len()
            invariant
                i <= self.tiles@.len(),
                tiles@.len() == i,
                forall|k: int| 0 <= k < i ==> tiles@[k] == self.tiles@[k],
            decreases self.tiles@.len() - i,
        {
            tiles.push(self.tiles[i]);
            i = i + 1;
        }
        proof {
            assert(tiles@ =~= self.tiles@);
        }
        TileMap {
            width: self.width,
            height: self.height,
            tiles,
            starting_point: self.starting_point,
            exit_point: self.exit_point,
            data: self.data,
        }
    }
}

impl<D> TileMap<D> {
    /// Row-major index of in-bounds coordinates.
    pub fn xy_idx(&self, x: usize, y: usize) -> (i: usize)
        requires
            self.inv(),
            x < self.width,
            y < self.height,
        ensures
            i == row_major_idx(x as int, y as int, self.width as int),
            i < self.tiles@.len(),
    {
        proof {
            lemma_idx_bounds(x as int, y as int, self.width as int, self.height as int);
        }
        y * self.width + x
    }

    /// The tile at in-bounds coordinates.
    pub fn get_tile(&self, x: usize, y: usize) -> (t: Tile)
        requires
            self.inv(),
            x < self.width,
            y < self.height,
        ensures
            t == self.tile_at(x as int, y as int),
    {
        let i = self.xy_idx(x, y);
        self.tiles[i]
    }

    /// Replace the tile at in-bounds coordinates; everything else is kept.
    pub fn set_tile(&mut self, x: usize, y: usize, tile: Tile)
        requires
            old(self).inv(),
            x < old(self).width,
            y < old(self).height,
        ensures
            final(self).inv(),
            final(self).width == old(self).width,
            final(self).height == old(self).height,
            final(self).starting_point == old(self).starting_point,
            final(self).exit_point == old(self).exit_point,
            final(self).tiles@ == old(self).tiles@.update(
                row_major_idx(x as int, y as int, old(self).width as int),
                tile,
            ),
            final(self).data == old(self).data,
    {
        proof {
            lemma_idx_bounds(x as int, y as int, self.width as int, self.height as int);
        }
        let i = y * self.width + x;
        self.tiles[i] = tile;
    }

    /// Whether `(x, y)` is inside the grid and walkable.
    pub fn is_walkable(&self, x: usize, y: usize) -> (r: bool)
        requires
            self.inv(),
        ensures
            r == self.walkable_at(x as int, y as int),
    {
        if x < self.width && y < self.height {
            let t = self.get_tile(x, y);
            t.is_walkable()
        } else {
            false
        }
    }
}

} // verus!
