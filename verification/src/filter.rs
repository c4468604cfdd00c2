//! The filter contract: every generation step is a pure transformation from
//! one map to the next, drawing entropy only from the explicit random source.

use vstd::prelude::*;
use crate::map::TileMap;
use crate::random::RngSource;

pub mod bsp_interior;
pub mod cellular_automata;
pub mod cull_unreachable;
pub mod distant_exit;
pub mod noise_generator;
pub mod starting_point;
pub mod voronoi;

pub use bsp_interior::BspInterior;
pub use cellular_automata::CellularAutomata;
pub use cull_unreachable::CullUnreachable;
pub use distant_exit::DistantExit;
pub use noise_generator::NoiseGenerator;
pub use starting_point::{AreaStartingPosition, XStart, YStart};
pub use voronoi::VoronoiHive;

verus! {

/// A generation step. Every implementation returns a well-formed map of the
/// same dimensions as its input and leaves the input untouched; it may only
/// consume entropy from `rng` and build the returned map.
pub trait MapFilter<D> {
    fn modify_map(&self, rng: &mut RngSource, map: &TileMap<D>) -> (out: TileMap<D>)
        requires
            map.inv(),
        ensures
            out.inv(),
            out.width == map.width,
            out.height == map.height,
    ;
}

} // verus!
