//! Place the exit point as far as possible from the starting point.
//!
//! The distance field from the starting point is scanned in row-major order
//! with a strict greater-than comparison against finite distances only, so
//! the earliest cell attaining the maximum distance wins. The starting
//! point has to be set before this modifier runs; without one the defensive
//! answer puts the exit at the origin cell.

use vstd::prelude::*;
use crate::dijkstra::{dist_entry_ok, dval, reaches, DijkstraMap};
use crate::filter::MapFilter;
use crate::geometry::Point;
use crate::map::{lemma_idx_bounds, row_major_idx, TileMap};
use crate::random::RngSource;

verus! {

/// The shortest walk from `src` to `(x, y)` takes exactly `n` steps.
pub open spec fn min_dist_is<D>(map: TileMap<D>, src: Point, x: int, y: int, n: int) -> bool {
    reaches(map, src, x, y, n) && (forall|m: int|
        #[trigger] reaches(map, src, x, y, m) ==> n <= m)
}

/// Some cell lies at a positive shortest distance from `src`.
pub open spec fn has_distant_cell<D>(map: TileMap<D>, src: Point) -> bool {
    exists|x: int, y: int, n: int|
        map.in_bounds(x, y) && #[trigger] min_dist_is(map, src, x, y, n) && n > 0
}

/// Where the exit lands: on the earliest cell, in row-major order, whose
/// shortest distance from the starting point is the positive maximum; at the
/// origin when no cell is at a positive distance or no starting point is
/// set.
pub open spec fn exit_point_ok<D>(map: TileMap<D>, e: Point) -> bool {
    match map.starting_point {
        None => e == (Point { x: 0usize, y: 0usize }),
        Some(src) => if has_distant_cell(map, src) {
            exists|n: int|
                {
                    &&& map.in_bounds(e.x as int, e.y as int)
                    &&& #[trigger] min_dist_is(map, src, e.x as int, e.y as int, n)
                    &&& n > 0
                    &&& forall|x: int, y: int, m: int|
                        map.in_bounds(x, y) && #[trigger] min_dist_is(map, src, x, y, m) ==> m
                            <= n
                    &&& forall|x: int, y: int|
                        map.in_bounds(x, y) && #[trigger] min_dist_is(map, src, x, y, n)
                            ==> row_major_idx(e.x as int, e.y as int, map.width as int)
                            <= row_major_idx(x, y, map.width as int)
                }
        } else {
            e == (Point { x: 0usize, y: 0usize })
        },
    }
}

/// Adds an exit position to the map, as far from the starting point as the
/// walkable area allows.
pub struct DistantExit {
}

impl DistantExit {
    pub fn new() -> (f: Box<DistantExit>)
        ensures
            *f == (DistantExit {  }),
    {
        Box::new(DistantExit {  })
    }

    /// The whole transformation: everything of the input is kept except the
    /// exit point, which lands where `exit_point_ok` says.
    #[verifier::rlimit(60)]
    #[verifier::loop_isolation(false)]
    pub fn build<D: Copy>(&self, map: &TileMap<D>) -> (out: TileMap<D>)
        requires
            map.inv(),
        ensures
            out.inv(),
            out.width == map.width,
            out.height == map.height,
            out.tiles@ == map.tiles@,
            out.starting_point == map.starting_point,
            out.data == map.data,
            out.exit_point is Some,
            exit_point_ok(*map, out.exit_point->Some_0),
    {
        let ghost wi = map.width as int;
        let ghost hi = map.height as int;
        let dmap = DijkstraMap::new(map);
        let n = dmap.tiles.len();
        let mut best_idx: usize = 0;
        let mut best_value: usize = 0;
        let mut i: usize = 0;
        while i < n
            invariant
                i <= n,
                best_value == 0 ==> best_idx == 0,
                best_value > 0 ==> best_idx < i && dmap.tiles@[best_idx as int] == Some(
                    best_value,
                ),
                forall|j: int|
                    0 <= j < i && #[trigger] dmap.tiles@[j] is Some ==> dmap.tiles@[j]->Some_0
                        <= best_value,
                forall|j: int|
                    0 <= j < best_idx && #[trigger] dmap.tiles@[j] is Some ==> dmap.tiles@[
                        j
                    ]->Some_0 < best_value,
            decreases n - i,
        {
            match dmap.tiles[i] {
                Some(v) => {
                    if v > best_value {
                        best_value = v;
                        best_idx = i;
                    }
                },
                None => {},
            }
            i = i + 1;
        }
        let x = best_idx % map.width;
        let y = best_idx / map.width;
        proof {
            let bi = best_idx as int;
            vstd::arithmetic::div_mod::lemma_fundamental_div_mod(bi, wi);
            vstd::arithmetic::div_mod::lemma_mod_bound(bi, wi);
            assert(x as int == bi % wi && y as int == bi / wi);
            assert((bi / wi) * wi == wi * (bi / wi)) by (nonlinear_arith);
            assert(row_major_idx(x as int, y as int, wi) == bi);
            assert(bi < wi * hi ==> bi / wi < hi) by (nonlinear_arith)
                requires wi >= 1 && hi >= 1 && bi >= 0 && bi == wi * (bi / wi) + (bi % wi) && 0
                    <= bi % wi < wi;
            assert(bi == 0 ==> bi / wi == 0 && bi % wi == 0) by (nonlinear_arith)
                requires wi >= 1 && bi == wi * (bi / wi) + (bi % wi) && 0 <= bi % wi < wi && bi
                    >= 0;
        }
        let mut out = map.clone_map();
        out.exit_point = Some(Point { x, y });
        proof {
            let e = Point { x, y };
            match map.starting_point {
                None => {
                    assert(best_value == 0 && best_idx == 0);
                    assert(e == (Point { x: 0usize, y: 0usize }));
                },
                Some(src) => {
                    assert forall|a: int, b: int, m: int|
                        map.in_bounds(a, b) && #[trigger] min_dist_is(*map, src, a, b, m)
                        implies dval(dmap.tiles@, wi, a, b) == Some(m as usize) && 0 <= m
                            <= best_value by {
                        lemma_idx_bounds(a, b, wi, hi);
                        assert(dist_entry_ok(*map, src, a, b, dval(dmap.tiles@, wi, a, b)));
                        match dval(dmap.tiles@, wi, a, b) {
                            Some(v) => {
                                assert(reaches(*map, src, a, b, v as int));
                                assert(reaches(*map, src, a, b, m));
                                assert(m == v as int);
                            },
                            None => {
                                assert(reaches(*map, src, a, b, m));
                                assert(false);
                            },
                        }
                    }
                    if best_value > 0 {
                        assert(dist_entry_ok(
                            *map,
                            src,
                            x as int,
                            y as int,
                            dval(dmap.tiles@, wi, x as int, y as int),
                        ));
                        assert(dval(dmap.tiles@, wi, x as int, y as int) == Some(best_value));
                        assert(min_dist_is(*map, src, x as int, y as int, best_value as int));
                        assert(has_distant_cell(*map, src));
                        assert forall|a: int, b: int|
                            map.in_bounds(a, b) && #[trigger] min_dist_is(
                                *map,
                                src,
                                a,
                                b,
                                best_value as int,
                            ) implies row_major_idx(x as int, y as int, wi) <= row_major_idx(
                            a,
                            b,
                            wi,
                        ) by {
                            lemma_idx_bounds(a, b, wi, hi);
                            assert(dval(dmap.tiles@, wi, a, b) == Some(best_value));
                        }
                        let nn = best_value as int;
                        assert(map.in_bounds(e.x as int, e.y as int));
                        assert(min_dist_is(*map, src, e.x as int, e.y as int, nn));
                        assert(forall|a: int, b: int, m: int|
                            map.in_bounds(a, b) && #[trigger] min_dist_is(*map, src, a, b, m)
                                ==> m <= nn);
                        assert(forall|a: int, b: int|
                            map.in_bounds(a, b) && #[trigger] min_dist_is(*map, src, a, b, nn)
                                ==> row_major_idx(e.x as int, e.y as int, map.width as int)
                                <= row_major_idx(a, b, map.width as int));
                        assert(exit_point_ok(*map, e));
                    } else {
                        assert(!has_distant_cell(*map, src)) by {
                            if has_distant_cell(*map, src) {
                                let (a, b, m) = choose|a: int, b: int, m: int|
                                    map.in_bounds(a, b) && #[trigger] min_dist_is(
                                        *map,
                                        src,
                                        a,
                                        b,
                                        m,
                                    ) && m > 0;
                                assert(dval(dmap.tiles@, wi, a, b) == Some(m as usize));
                                assert(false);
                            }
                        }
                        assert(e == (Point { x: 0usize, y: 0usize }));
                    }
                },
            }
        }
        out
    }
}

impl<D: Copy> MapFilter<D> for DistantExit {
    fn modify_map(&self, rng: &mut RngSource, map: &TileMap<D>) -> (out: TileMap<D>)
        ensures
            out.tiles@ == map.tiles@,
            out.starting_point == map.starting_point,
            out.data == map.data,
            out.exit_point is Some,
            exit_point_ok(*map, out.exit_point->Some_0),
            *final(rng) == *old(rng),
    {
        self.build(map)
    }
}

} // verus!
