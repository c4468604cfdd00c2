//! Turn every floor cell the starting point cannot reach into a wall.
//!
//! The starting point has to be set before this modifier runs; without one
//! the distance field is all-unreached, so every floor cell is culled.

use vstd::prelude::*;
use crate::dijkstra::{dist_entry_ok, dval, is_walk, reaches, DijkstraMap};
use crate::filter::MapFilter;
use crate::geometry::Point;
use crate::map::{lemma_idx_bounds, Tile, TileMap};
use crate::random::RngSource;

verus! {

/// Some walk from the starting point ends at `(x, y)`.
pub open spec fn cell_reachable<D>(map: TileMap<D>, x: int, y: int) -> bool {
    match map.starting_point {
        None => false,
        Some(src) => exists|n: int| #[trigger] reaches(map, src, x, y, n),
    }
}

/// What culling leaves at `(x, y)`: floors the starting point cannot reach
/// become walls, everything else is kept.
pub open spec fn culled_tile<D>(map: TileMap<D>, x: int, y: int) -> Tile {
    if map.tile_at(x, y) == Tile::Floor && !cell_reachable(map, x, y) {
        Tile::Wall
    } else {
        map.tile_at(x, y)
    }
}

/// Removes floor cells that cannot be reached from the starting point.
pub struct CullUnreachable {
}

impl CullUnreachable {
    pub fn new() -> (f: Box<CullUnreachable>)
        ensures
            *f == (CullUnreachable {  }),
    {
        Box::new(CullUnreachable {  })
    }

    /// The whole transformation: every cell holds its culled tile; nothing
    /// else changes.
    #[verifier::loop_isolation(false)]
    #[verifier::rlimit(60)]
    pub fn build<D: Copy>(&self, map: &TileMap<D>) -> (out: TileMap<D>)
        requires
            map.inv(),
        ensures
            out.inv(),
            out.width == map.width,
            out.height == map.height,
            out.starting_point == map.starting_point,
            out.exit_point == map.exit_point,
            out.data == map.data,
            forall|x: int, y: int|
                map.in_bounds(x, y) ==> #[trigger] out.tile_at(x, y) == culled_tile(*map, x, y),
    {
        let ghost wi = map.width as int;
        let ghost hi = map.height as int;
        let dmap = DijkstraMap::new(map);
        let mut out = map.clone_map();
        let mut y: usize = 0;
        while y < map.height
            invariant
                y <= map.height,
                out.width == map.width,
                out.height == map.height,
                out.tiles@.len() == map.tiles@.len(),
                out.starting_point == map.starting_point,
                out.exit_point == map.exit_point,
                out.data == map.data,
                forall|a: int, b: int|
                    map.in_bounds(a, b) && b < y ==> #[trigger] out.tile_at(a, b) == culled_tile(
                        *map,
                        a,
                        b,
                    ),
                forall|a: int, b: int|
                    map.in_bounds(a, b) && b >= y ==> #[trigger] out.tile_at(a, b) == map.tile_at(
                        a,
                        b,
                    ),
            decreases map.height - y,
        {
            let mut x: usize = 0;
            while x < map.width
                invariant
                    y < map.height,
                    x <= map.width,
                    out.width == map.width,
                    out.height == map.height,
                    out.tiles@.len() == map.tiles@.len(),
                    out.starting_point == map.starting_point,
                    out.exit_point == map.exit_point,
                    out.data == map.data,
                    forall|a: int, b: int|
                        map.in_bounds(a, b) && (b < y || (b == y && a < x)) ==> #[trigger] out.tile_at(
                            a,
                            b,
                        ) == culled_tile(*map, a, b),
                    forall|a: int, b: int|
                        map.in_bounds(a, b) && (b > y || (b == y && a >= x)) ==> #[trigger] out.tile_at(
                            a,
                            b,
                        ) == map.tile_at(a, b),
                decreases map.width - x,
            {
                proof {
                    lemma_idx_bounds(x as int, y as int, wi, hi);
                    assert(dist_entry_ok(
                        *map,
                        map.starting_point->Some_0,
                        x as int,
                        y as int,
                        dval(dmap.tiles@, wi, x as int, y as int),
                    ) || map.starting_point is None);
                }
                let i = map.xy_idx(x, y);
                let ghost out_prev = out;
                if dmap.tiles[i].is_none() {
                    let t = out.get_tile(x, y);
                    if t.is_walkable() {
                        out.set_tile(x, y, Tile::Wall);
                    }
                }
                proof {
                    // the treated cell now holds its culled tile
                    assert(out.tile_at(x as int, y as int) == culled_tile(*map, x as int, y as int))
                        by {
                        match map.starting_point {
                            None => {},
                            Some(src) => {
                                match dval(dmap.tiles@, wi, x as int, y as int) {
                                    Some(n) => {
                                        assert(reaches(*map, src, x as int, y as int, n as int));
                                    },
                                    None => {
                                        if cell_reachable(*map, x as int, y as int) {
                                            let n = choose|n: int|
                                                #[trigger] reaches(*map, src, x as int, y as int, n);
                                            assert(false);
                                        }
                                    },
                                }
                            },
                        }
                    }
                    // other cells kept their previous tile
                    assert forall|a: int, b: int|
                        map.in_bounds(a, b) && !(a == x as int && b == y as int)
                        implies #[trigger] out.tile_at(a, b) == out_prev.tile_at(a, b) by {
                        lemma_idx_bounds(a, b, wi, hi);
                        if crate::map::row_major_idx(a, b, wi) == crate::map::row_major_idx(
                            x as int,
                            y as int,
                            wi,
                        ) {
                            crate::map::lemma_idx_injective(a, b, x as int, y as int, wi, hi);
                        }
                    }
                }
                x = x + 1;
            }
            y = y + 1;
        }
        out
    }
}

impl<D: Copy> MapFilter<D> for CullUnreachable {
    fn modify_map(&self, rng: &mut RngSource, map: &TileMap<D>) -> (out: TileMap<D>)
        ensures
            out.starting_point == map.starting_point,
            out.exit_point == map.exit_point,
            out.data == map.data,
            forall|x: int, y: int|
                map.in_bounds(x, y) ==> #[trigger] out.tile_at(x, y) == culled_tile(*map, x, y),
            *final(rng) == *old(rng),
    {
        self.build(map)
    }
}

/// Any in-bounds prefix of a walk is itself a walk, so every cell a walk
/// crosses is reachable.
proof fn lemma_walk_prefix<D>(map: TileMap<D>, src: Point, p: Seq<(int, int)>, k: int)
    requires
        is_walk(map, src, p),
        0 <= k < p.len(),
    ensures
        reaches(map, src, p[k].0, p[k].1, k),
{
    let q = p.take(k + 1);
    assert(is_walk(map, src, q)) by {
        assert forall|j: int| 1 <= j < q.len() implies crate::dijkstra::adj(q[j - 1], #[trigger] q[j])
            && map.walkable_at(q[j].0, q[j].1) by {
            assert(q[j] == p[j]);
            assert(q[j - 1] == p[j - 1]);
        }
    }
    assert(q.len() == k + 1 && q.last() == p[k]);
}

/// After culling, every floor cell of the result can be walked to from the
/// starting point inside the result itself: culling never severs what it
/// keeps.
pub proof fn lemma_cull_keeps_reachability<D>(
    map: TileMap<D>,
    out: TileMap<D>,
    x: int,
    y: int,
)
    requires
        map.inv(),
        out.width == map.width,
        out.height == map.height,
        out.starting_point == map.starting_point,
        out.tiles@.len() == map.tiles@.len(),
        forall|a: int, b: int|
            map.in_bounds(a, b) ==> #[trigger] out.tile_at(a, b) == culled_tile(map, a, b),
        map.starting_point is Some,
        out.walkable_at(x, y),
    ensures
        exists|n: int| #[trigger] reaches(out, map.starting_point->Some_0, x, y, n),
{
    let src = map.starting_point->Some_0;
    assert(out.tile_at(x, y) == culled_tile(map, x, y));
    assert(map.tile_at(x, y) == Tile::Floor && cell_reachable(map, x, y));
    let n = choose|n: int| #[trigger] reaches(map, src, x, y, n);
    let p = choose|p: Seq<(int, int)>|
        #[trigger] is_walk(map, src, p) && p.len() == n + 1 && p.last() == (x, y);
    assert(is_walk(out, src, p)) by {
        assert forall|k: int| 1 <= k < p.len() implies crate::dijkstra::adj(p[k - 1], #[trigger] p[k])
            && out.walkable_at(p[k].0, p[k].1) by {
            lemma_walk_prefix(map, src, p, k);
            assert(cell_reachable(map, p[k].0, p[k].1));
            assert(out.tile_at(p[k].0, p[k].1) == culled_tile(map, p[k].0, p[k].1));
        }
    }
    assert(reaches(out, src, x, y, n));
}

} // verus!
