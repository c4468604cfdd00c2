//! Procedural generation of 2-D tile maps.
//!
//! A map is a rectangular grid of wall/floor tiles together with optional
//! starting and exit points. Generation algorithms ("filters") are pure
//! transformations from one map to the next, threaded through an explicitly
//! seeded random source so that a whole pipeline is reproducible. The
//! builder folds an ordered sequence of filters over a blank all-wall
//! canvas.

use vstd::prelude::*;

pub mod dijkstra;
pub mod filter;
pub mod geometry;
pub mod map;
pub mod random;
pub mod text;

pub use filter::MapFilter;
pub use geometry::Point;
pub use map::{NoData, Tile, TileMap};
pub use random::RngSource;

verus! {

/// Holds target dimensions and an ordered sequence of filters; `build` folds
/// them over an initial blank map.
#[verifier::reject_recursive_types(D)]
pub struct MapBuilder<D> {
    pub width: usize,
    pub height: usize,
    pub filters: Vec<Box<dyn MapFilter<D>>>,
}

impl<D: Copy + Default> MapBuilder<D> {
    pub fn new(width: usize, height: usize) -> (b: MapBuilder<D>)
        requires
            width >= 1,
            height >= 1,
            (width as int) * (height as int) <= usize::MAX as int,
        ensures
            b.width == width,
            b.height == height,
            b.filters@.len() == 0,
    {
        MapBuilder { width, height, filters: Vec::new() }
    }

    /// Append one filter; it runs after every filter registered before it.
    pub fn with(self, filter: Box<dyn MapFilter<D>>) -> (b: MapBuilder<D>)
        ensures
            b.width == self.width,
            b.height == self.height,
            b.filters@ == self.filters@.push(filter),
    {
        let MapBuilder { width, height, mut filters } = self;
        filters.push(filter);
        MapBuilder { width, height, filters }
    }

    /// Fold the registered filters, in registration order, over a blank
    /// all-wall canvas of the target dimensions. Every filter's contract
    /// keeps the map well-formed and the dimensions fixed.
    pub fn build(&self, rng: &mut RngSource) -> (map: TileMap<D>)
        requires
            self.width >= 1,
            self.height >= 1,
            (self.width as int) * (self.height as int) <= usize::MAX as int,
        ensures
            map.inv(),
            map.width == self.width,
            map.height == self.height,
            self.filters@.len() == 0 ==> map.starting_point is None && map.exit_point is None
                && (forall|i: int| 0 <= i < map.tiles@.len() ==> map.tiles@[i] == Tile::Wall),
    {
        let mut map: TileMap<D> = TileMap::new(self.width, self.height);
        let mut i: usize = 0;
        while i < self.filters.len()
            invariant
                map.inv(),
                map.width == self.width,
                map.height == self.height,
                self.filters@.len() == 0 ==> map.starting_point is None && map.exit_point is None
                    && (forall|k: int| 0 <= k < map.tiles@.len() ==> map.tiles@[k] == Tile::Wall),
            decreases self.filters@.len() - i,
        {
            map = self.filters[i].modify_map(rng, &map);
            i = i + 1;
        }
        map
    }
}

} // verus!
