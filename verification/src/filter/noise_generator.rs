//! Seed a map with uncorrelated white noise.
//!
//! For every cell one uniform percentile is drawn; the cell becomes floor
//! when the draw falls below the configured floor percentage. The result is
//! a seed for smoothing, not a usable map on its own.

use vstd::prelude::*;
use crate::filter::MapFilter;
use crate::map::{Tile, TileMap};
use crate::random::RngSource;

verus! {

/// Sets every tile independently at random.
pub struct NoiseGenerator {
    /// Percentage of cells that become floor, out of 100.
    pub prob: usize,
}

impl NoiseGenerator {
    /// An even 50/50 split between floor and wall.
    pub fn uniform() -> (f: Box<NoiseGenerator>)
        ensures
            f.prob == 50,
    {
        Box::new(NoiseGenerator { prob: 50 })
    }

    /// A split with the given floor percentage.
    pub fn new(prob: usize) -> (f: Box<NoiseGenerator>)
        requires
            prob <= 100,
        ensures
            f.prob == prob,
    {
        Box::new(NoiseGenerator { prob })
    }

    /// The whole transformation: one percentile in `[0, 99]` is drawn per
    /// cell in row-major order, and each tile is exactly determined by its
    /// cell's draw — the output is a function of the input and the consumed
    /// draws alone.
    #[verifier::loop_isolation(false)]
    pub fn build<D: Copy>(&self, rng: &mut RngSource, map: &TileMap<D>) -> (out: TileMap<D>)
        requires
            map.inv(),
        ensures
            out.inv(),
            out.width == map.width,
            out.height == map.height,
            out.starting_point == map.starting_point,
            out.exit_point == map.exit_point,
            out.data == map.data,
            final(rng).draws().len() == old(rng).draws().len() + (map.width as int) * (
            map.height as int),
            forall|j: int|
                0 <= j < old(rng).draws().len() ==> final(rng).draws()[j] == old(rng).draws()[j],
            forall|i: int|
                0 <= i < (map.width as int) * (map.height as int) ==> #[trigger] out.tiles@[i]
                    == (if final(rng).draws()[old(rng).draws().len() + i] < self.prob {
                    Tile::Floor
                } else {
                    Tile::Wall
                }),
    {
        let n = map.width * map.height;
        let ghost base = old(rng).draws().len() as int;
        let mut tiles: Vec<Tile> = Vec::new();
        let mut i: usize = 0;
        while i < n
            invariant
                i <= n,
                tiles@.len() == i,
                rng.draws().len() == base + i,
                forall|j: int| 0 <= j < base ==> rng.draws()[j] == old(rng).draws()[j],
                forall|k: int|
                    0 <= k < i ==> #[trigger] tiles@[k] == (if rng.draws()[base + k] < self.prob {
                        Tile::Floor
                    } else {
                        Tile::Wall
                    }),
            decreases n - i,
        {
            let p = rng.rand_range(0, 99);
            if p < self.prob {
                tiles.push(Tile::Floor);
            } else {
                tiles.push(Tile::Wall);
            }
            i = i + 1;
        }
        TileMap {
            width: map.width,
            height: map.height,
            tiles,
            starting_point: map.starting_point,
            exit_point: map.exit_point,
            data: map.data,
        }
    }
}

impl<D: Copy> MapFilter<D> for NoiseGenerator {
    fn modify_map(&self, rng: &mut RngSource, map: &TileMap<D>) -> (out: TileMap<D>)
        ensures
            out.starting_point == map.starting_point,
            out.exit_point == map.exit_point,
            out.data == map.data,
            final(rng).draws().len() == old(rng).draws().len() + (map.width as int) * (
            map.height as int),
            forall|j: int|
                0 <= j < old(rng).draws().len() ==> final(rng).draws()[j] == old(rng).draws()[j],
            forall|i: int|
                0 <= i < (map.width as int) * (map.height as int) ==> #[trigger] out.tiles@[i]
                    == (if final(rng).draws()[old(rng).draws().len() + i] < self.prob {
                    Tile::Floor
                } else {
                    Tile::Wall
                }),
    {
        self.build(rng, map)
    }
}

} // verus!
