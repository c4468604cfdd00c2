//! Carve chamber-like rooms out of the Voronoi partition of random sites.
//!
//! Random distinct sites are chosen, every cell is assigned to its nearest
//! site by straight-line distance (ties to the earliest site), and every
//! interior cell adjacent to fewer than two foreign regions is opened into
//! floor. Walls survive only where two or more other regions meet.

use vstd::prelude::*;
use crate::filter::MapFilter;
use crate::geometry::{dist_sq, lemma_dist_sq_fits, Point};
use crate::map::{lemma_idx_bounds, lemma_idx_injective, row_major_idx, Tile, TileMap};
use crate::random::RngSource;

verus! {

/// Index of the site nearest to `(x, y)` among the first `k` sites; a tie
/// goes to the earliest site.
pub open spec fn nearest_seed_rec(seeds: Seq<Point>, x: int, y: int, k: int) -> int
    decreases k,
{
    if k <= 1 {
        0
    } else {
        let best = nearest_seed_rec(seeds, x, y, k - 1);
        if dist_sq(seeds[k - 1].x as int, seeds[k - 1].y as int, x, y) < dist_sq(
            seeds[best].x as int,
            seeds[best].y as int,
            x,
            y,
        ) {
            k - 1
        } else {
            best
        }
    }
}

/// The cell's Voronoi membership: the site nearest to it.
pub open spec fn nearest_seed(seeds: Seq<Point>, x: int, y: int) -> int {
    nearest_seed_rec(seeds, x, y, seeds.len() as int)
}

/// How many of the four orthogonal neighbors belong to another site.
pub open spec fn foreign_neighbors(seeds: Seq<Point>, x: int, y: int) -> int {
    let mine = nearest_seed(seeds, x, y);
    (if nearest_seed(seeds, x - 1, y) != mine {
        1int
    } else {
        0int
    }) + (if nearest_seed(seeds, x + 1, y) != mine {
        1int
    } else {
        0int
    }) + (if nearest_seed(seeds, x, y - 1) != mine {
        1int
    } else {
        0int
    }) + (if nearest_seed(seeds, x, y + 1) != mine {
        1int
    } else {
        0int
    })
}

/// What the carve leaves at `(x, y)`: an interior cell bordering fewer than
/// two foreign regions opens into floor, everything else is kept.
pub open spec fn voronoi_tile<D>(map: TileMap<D>, seeds: Seq<Point>, x: int, y: int) -> Tile {
    if 1 <= x < map.width - 1 && 1 <= y < map.height - 1 && foreign_neighbors(seeds, x, y) < 2 {
        Tile::Floor
    } else {
        map.tile_at(x, y)
    }
}

/// Distinct sites strictly inside the grid's outer ring.
pub open spec fn seeds_wf(seeds: Seq<Point>, w: int, h: int) -> bool {
    &&& forall|k: int|
        0 <= k < seeds.len() ==> 1 <= (#[trigger] seeds[k]).x < w && 1 <= seeds[k].y < h
    &&& forall|k1: int, k2: int| 0 <= k1 < k2 < seeds.len() ==> seeds[k1] != seeds[k2]
}

/// The sites produced by a sequence of draws, taken as coordinate pairs in
/// order with duplicates rejected.
pub open spec fn sites_from(draws: Seq<usize>) -> Seq<Point>
    decreases draws.len(),
{
    if draws.len() < 2 {
        Seq::empty()
    } else {
        let prev = sites_from(draws.drop_last().drop_last());
        let p = Point { x: draws[draws.len() - 2], y: draws[draws.len() - 1] };
        if prev.contains(p) {
            prev
        } else {
            prev.push(p)
        }
    }
}

/// The deterministic top-up after the random draws: sweep the interior in
/// row-major order from `(x, y)` on, adding every absent cell until `n`
/// sites are held.
pub open spec fn fill_sites(seeds: Seq<Point>, w: int, h: int, n: int, x: int, y: int) -> Seq<
    Point,
>
    decreases h - y, w + 1 - x,
{
    if y < 1 || y >= h || x < 1 {
        seeds
    } else if x >= w {
        fill_sites(seeds, w, h, n, 1, y + 1)
    } else {
        let p = Point { x: x as usize, y: y as usize };
        let next = if seeds.len() < n && !seeds.contains(p) {
            seeds.push(p)
        } else {
            seeds
        };
        fill_sites(next, w, h, n, x + 1, y)
    }
}

/// The whole site family as a function of the consumed draws alone: random
/// sites first, then the deterministic top-up.
pub open spec fn seeds_of_draws(draws: Seq<usize>, w: int, h: int, n: int) -> Seq<Point> {
    fill_sites(sites_from(draws), w, h, n, 1, 1)
}

/// A family of sites that holds every interior cell of the grid has at
/// least as many members as the interior has cells.
proof fn lemma_interior_cover_count(seeds: Seq<Point>, w: int, h: int)
    requires
        w >= 2,
        h >= 2,
        w <= usize::MAX as int,
        h <= usize::MAX as int,
        forall|x: usize, y: usize|
            1 <= x < w && 1 <= y < h ==> #[trigger] seeds.contains(Point { x, y }),
    ensures
        seeds.len() >= (w - 1) * (h - 1),
{
    broadcast use vstd::seq_lib::seq_to_set_is_finite;

    let f = |p: Point| (p.x as int - 1) + (p.y as int - 1) * (w - 1);
    let m = seeds.map_values(f);
    let n = (w - 1) * (h - 1);
    let rng_set = vstd::set_lib::set_int_range(0, n);
    assert forall|v: int| rng_set.contains(v) implies m.to_set().contains(v) by {
        vstd::arithmetic::div_mod::lemma_fundamental_div_mod(v, w - 1);
        vstd::arithmetic::div_mod::lemma_mod_bound(v, w - 1);
        let a = v % (w - 1) + 1;
        let b = v / (w - 1) + 1;
        assert(v / (w - 1) < h - 1) by (nonlinear_arith)
            requires
                w >= 2 && h >= 2 && 0 <= v < (w - 1) * (h - 1) && v == (w - 1) * (v / (w - 1)) + v
                    % (w - 1) && 0 <= v % (w - 1) < w - 1;
        assert(1 <= a < w && 1 <= b < h);
        let p = Point { x: a as usize, y: b as usize };
        assert(seeds.contains(p));
        let i = choose|i: int| 0 <= i < seeds.len() && seeds[i] == p;
        assert(m[i] == f(p));
        assert(f(p) == v) by (nonlinear_arith)
            requires
                f(p) == (a - 1) + (b - 1) * (w - 1) && a == v % (w - 1) + 1 && b == v / (w - 1)
                    + 1 && v == (w - 1) * (v / (w - 1)) + v % (w - 1);
        assert(m.contains(v));
    }
    vstd::set_lib::lemma_int_range(0, n);
    vstd::set_lib::lemma_len_subset(rng_set, m.to_set());
    m.lemma_cardinality_of_set();
}

/// Generates interconnected chamber-like rooms separated by thin walls.
pub struct VoronoiHive {
    pub n_seeds: usize,
}

/// A configuration the carve cannot work on: a grid without an interior or
/// a degenerate site count. Such a map passes through unchanged.
pub open spec fn voronoi_degenerate<D>(f: VoronoiHive, map: TileMap<D>) -> bool {
    map.width < 2 || map.height < 2 || f.n_seeds < 1 || f.n_seeds > usize::MAX / 64
}

impl VoronoiHive {
    pub fn new() -> (f: Box<VoronoiHive>)
        ensures
            f.n_seeds == 64,
    {
        Box::new(VoronoiHive { n_seeds: 64 })
    }

    fn contains_point(seeds: &Vec<Point>, p: Point) -> (r: bool)
        ensures
            r == exists|k: int| 0 <= k < seeds@.len() && seeds@[k] == p,
    {
        let mut k: usize = 0;
        while k < seeds.len()
            invariant
                k <= seeds@.len(),
                forall|j: int| 0 <= j < k ==> seeds@[j] != p,
            decreases seeds@.len() - k,
        {
            if seeds[k].x == p.x && seeds[k].y == p.y {
                proof {
                    assert(seeds@[k as int] == p);
                }
                return true;
            }
            k = k + 1;
        }
        false
    }

    /// Draw random sites, rejecting duplicates, until the wanted count is
    /// reached or a generous draw bound runs out; a deterministic sweep then
    /// tops the family up from untried interior cells. The sites are pinned
    /// as a function of the consumed draws alone, and the full count is
    /// reached whenever the interior offers enough distinct cells.
    #[verifier::loop_isolation(false)]
    #[verifier::rlimit(100)]
    pub fn generate_seeds(&self, rng: &mut RngSource, width: usize, height: usize) -> (seeds: Vec<
        Point,
    >)
        requires
            width >= 2,
            height >= 2,
            self.n_seeds >= 1,
            (self.n_seeds as int) * 64 <= usize::MAX as int,
        ensures
            seeds_wf(seeds@, width as int, height as int),
            1 <= seeds@.len() <= self.n_seeds,
            old(rng).draws().len() <= final(rng).draws().len(),
            forall|j: int|
                0 <= j < old(rng).draws().len() ==> final(rng).draws()[j] == old(rng).draws()[j],
            seeds@ == seeds_of_draws(
                final(rng).draws().skip(old(rng).draws().len() as int),
                width as int,
                height as int,
                self.n_seeds as int,
            ),
            (self.n_seeds as int) <= (width as int - 1) * (height as int - 1) ==> seeds@.len()
                == self.n_seeds,
    {
        let ghost base = rng.draws().len() as int;
        let ghost wi = width as int;
        let ghost hi = height as int;
        let ghost ni = self.n_seeds as int;
        let mut seeds: Vec<Point> = Vec::new();
        let max_attempts = self.n_seeds * 64;
        let mut attempts: usize = 0;
        while seeds.len() < self.n_seeds && attempts < max_attempts
            invariant
                seeds_wf(seeds@, wi, hi),
                seeds@.len() <= self.n_seeds,
                attempts <= max_attempts,
                attempts >= 1 ==> seeds@.len() >= 1,
                base <= rng.draws().len(),
                forall|j: int| 0 <= j < base ==> rng.draws()[j] == old(rng).draws()[j],
                seeds@ == sites_from(rng.draws().skip(base)),
            decreases max_attempts - attempts,
        {
            let ghost pre = rng.draws();
            let vx = rng.rand_range(1, width - 1);
            let vy = rng.rand_range(1, height - 1);
            let candidate = Point { x: vx, y: vy };
            proof {
                assert(rng.draws().skip(base) =~= pre.skip(base).push(vx).push(vy));
                assert(rng.draws().skip(base).drop_last().drop_last() =~= pre.skip(base));
            }
            if !Self::contains_point(&seeds, candidate) {
                seeds.push(candidate);
            }
            proof {
                assert(seeds@ == sites_from(rng.draws().skip(base)));
            }
            attempts = attempts + 1;
        }
        let ghost s_rand = seeds@;
        let ghost goal = fill_sites(s_rand, wi, hi, ni, 1, 1);
        let mut y: usize = 1;
        while y < height
            invariant
                1 <= y <= height,
                seeds_wf(seeds@, wi, hi),
                1 <= seeds@.len() <= self.n_seeds,
                fill_sites(seeds@, wi, hi, ni, 1, y as int) == goal,
                seeds@.len() == self.n_seeds || (forall|a: usize, b: usize|
                    1 <= a < width && 1 <= b < y ==> #[trigger] seeds@.contains(
                        Point { x: a, y: b },
                    )),
            decreases height - y,
        {
            let mut x: usize = 1;
            while x < width
                invariant
                    1 <= y < height,
                    1 <= x <= width,
                    seeds_wf(seeds@, wi, hi),
                    1 <= seeds@.len() <= self.n_seeds,
                    fill_sites(seeds@, wi, hi, ni, x as int, y as int) == goal,
                    seeds@.len() == self.n_seeds || (forall|a: usize, b: usize|
                        ((1 <= a < width && 1 <= b < y) || (b == y && 1 <= a < x))
                            ==> #[trigger] seeds@.contains(Point { x: a, y: b })),
                decreases width - x,
            {
                let ghost before = seeds@;
                let p = Point { x, y };
                if seeds.len() < self.n_seeds && !Self::contains_point(&seeds, p) {
                    seeds.push(p);
                }
                proof {
                    assert(fill_sites(before, wi, hi, ni, x as int, y as int) == fill_sites(
                        seeds@,
                        wi,
                        hi,
                        ni,
                        x as int + 1,
                        y as int,
                    ));
                    if seeds@.len() != self.n_seeds {
                        assert forall|a: usize, b: usize|
                            (1 <= a < width && 1 <= b < y) || (b == y && 1 <= a < x + 1)
                            implies #[trigger] seeds@.contains(Point { x: a, y: b }) by {
                            if a == x && b == y && !before.contains(Point { x: a, y: b }) {
                                assert(seeds@[seeds@.len() - 1] == Point { x: a, y: b });
                            } else {
                                assert(before.contains(Point { x: a, y: b }));
                                let i = choose|i: int|
                                    0 <= i < before.len() && before[i] == Point { x: a, y: b };
                                assert(seeds@[i] == Point { x: a, y: b });
                            }
                        }
                    }
                }
                x = x + 1;
            }
            y = y + 1;
        }
        proof {
            assert(fill_sites(seeds@, wi, hi, ni, 1, hi) == seeds@);
            if ni <= (wi - 1) * (hi - 1) && seeds@.len() < self.n_seeds {
                lemma_interior_cover_count(seeds@, wi, hi);
                assert(false);
            }
        }
        seeds
    }

    /// The cell's membership, by brute-force comparison against all sites.
    #[verifier::loop_isolation(false)]
    fn nearest_site(seeds: &Vec<Point>, x: usize, y: usize, w: usize, h: usize) -> (s: usize)
        requires
            seeds@.len() >= 1,
            x < w,
            y < h,
            (w as int) * (h as int) <= usize::MAX as int,
            forall|k: int|
                0 <= k < seeds@.len() ==> (#[trigger] seeds@[k]).x < w && seeds@[k].y < h,
        ensures
            s as int == nearest_seed(seeds@, x as int, y as int),
            s < seeds@.len(),
    {
        let p = Point { x, y };
        proof {
            lemma_dist_sq_fits(
                seeds@[0].x as int,
                seeds@[0].y as int,
                x as int,
                y as int,
                w as int,
                h as int,
            );
        }
        let mut best: usize = 0;
        let mut bd: u128 = seeds[0].distance_sq_to(&p);
        let mut k: usize = 1;
        while k < seeds.len()
            invariant
                1 <= k <= seeds@.len(),
                best < k,
                bd == dist_sq(seeds@[best as int].x as int, seeds@[best as int].y as int, x as int, y as int),
                best as int == nearest_seed_rec(seeds@, x as int, y as int, k as int),
            decreases seeds@.len() - k,
        {
            proof {
                lemma_dist_sq_fits(
                    seeds@[k as int].x as int,
                    seeds@[k as int].y as int,
                    x as int,
                    y as int,
                    w as int,
                    h as int,
                );
            }
            let d = seeds[k].distance_sq_to(&p);
            if d < bd {
                best = k;
                bd = d;
            }
            k = k + 1;
        }
        best
    }

    /// The carve itself, for any given sites: every cell of the result is
    /// exactly `voronoi_tile` of the input and the sites.
    #[verifier::loop_isolation(false)]
    #[verifier::rlimit(60)]
    pub fn build_from_seeds<D: Copy>(&self, map: &TileMap<D>, seeds: &Vec<Point>) -> (out: TileMap<
        D,
    >)
        requires
            map.inv(),
            seeds@.len() >= 1,
            forall|k: int|
                0 <= k < seeds@.len() ==> (#[trigger] seeds@[k]).x < map.width && seeds@[k].y
                    < map.height,
        ensures
            out.inv(),
            out.width == map.width,
            out.height == map.height,
            out.starting_point == map.starting_point,
            out.exit_point == map.exit_point,
            out.data == map.data,
            forall|x: int, y: int|
                map.in_bounds(x, y) ==> #[trigger] out.tile_at(x, y) == voronoi_tile(
                    *map,
                    seeds@,
                    x,
                    y,
                ),
    {
        let w = map.width;
        let h = map.height;
        let ghost wi = w as int;
        let ghost hi = h as int;
        // membership of every cell, row-major
        let mut membership: Vec<usize> = Vec::new();
        let mut y: usize = 0;
        while y < h
            invariant
                y <= h,
                membership@.len() == y * w,
                forall|a: int, b: int|
                    0 <= a < wi && 0 <= b < y ==> membership@[row_major_idx(a, b, wi)] as int
                        == nearest_seed(seeds@, a, b),
            decreases h - y,
        {
            let mut x: usize = 0;
            while x < w
                invariant
                    y < h,
                    x <= w,
                    membership@.len() == y * w + x,
                    forall|a: int, b: int|
                        0 <= a < wi && 0 <= b < y ==> membership@[row_major_idx(a, b, wi)] as int
                            == nearest_seed(seeds@, a, b),
                    forall|a: int|
                        0 <= a < x ==> membership@[row_major_idx(a, y as int, wi)] as int
                            == nearest_seed(seeds@, a, y as int),
                decreases w - x,
            {
                proof {
                    lemma_idx_bounds(x as int, y as int, wi, hi);
                }
                let s = Self::nearest_site(seeds, x, y, w, h);
                membership.push(s);
                proof {
                    assert forall|a: int, b: int| 0 <= a < wi && 0 <= b < y implies membership@[
                        row_major_idx(a, b, wi)
                    ] as int == nearest_seed(seeds@, a, b) by {
                        lemma_idx_bounds(a, b, wi, hi);
                        assert(row_major_idx(a, b, wi) < y * wi) by (nonlinear_arith)
                            requires 0 <= a < wi && 0 <= b < y;
                    }
                    assert forall|a: int| 0 <= a < x + 1 implies membership@[
                        row_major_idx(a, y as int, wi)
                    ] as int == nearest_seed(seeds@, a, y as int) by {
                    }
                }
                x = x + 1;
            }
            proof {
                assert((y as int + 1) * wi == y as int * wi + wi) by (nonlinear_arith);
            }
            y = y + 1;
        }
        proof {
            assert(membership@.len() == wi * hi) by (nonlinear_arith)
                requires membership@.len() == hi * wi;
        }
        // carve interior cells bordering fewer than two foreign regions
        let mut out = map.clone_map();
        let mut cy: usize = 1;
        while cy < h - 1
            invariant
                1 <= cy,
                hi >= 2 ==> cy as int <= hi - 1,
                out.width == map.width,
                out.height == map.height,
                out.tiles@.len() == map.tiles@.len(),
                out.starting_point == map.starting_point,
                out.exit_point == map.exit_point,
                out.data == map.data,
                forall|a: int, b: int|
                    map.in_bounds(a, b) && b < cy ==> #[trigger] out.tile_at(a, b) == voronoi_tile(
                        *map,
                        seeds@,
                        a,
                        b,
                    ),
                forall|a: int, b: int|
                    map.in_bounds(a, b) && b >= cy ==> #[trigger] out.tile_at(a, b) == map.tile_at(
                        a,
                        b,
                    ),
            decreases h - cy,
        {
            let mut cx: usize = 1;
            while cx < w - 1
                invariant
                    1 <= cy,
                    (cy as int) < hi - 1,
                    1 <= cx,
                    wi >= 2 ==> cx as int <= wi - 1,
                    out.width == map.width,
                    out.height == map.height,
                    out.tiles@.len() == map.tiles@.len(),
                    out.starting_point == map.starting_point,
                    out.exit_point == map.exit_point,
                    out.data == map.data,
                    forall|a: int, b: int|
                        map.in_bounds(a, b) && (b < cy || (b == cy && a < cx)) ==> #[trigger] out.tile_at(
                            a,
                            b,
                        ) == voronoi_tile(*map, seeds@, a, b),
                    forall|a: int, b: int|
                        map.in_bounds(a, b) && (b > cy || (b == cy && a >= cx)) ==> #[trigger] out.tile_at(
                            a,
                            b,
                        ) == map.tile_at(a, b),
                decreases w - cx,
            {
                let my_idx = map.xy_idx(cx, cy);
                let my_seed = membership[my_idx];
                let mut neighbors: usize = 0;
                proof {
                    lemma_idx_bounds(cx as int - 1, cy as int, wi, hi);
                    lemma_idx_bounds(cx as int + 1, cy as int, wi, hi);
                    lemma_idx_bounds(cx as int, cy as int - 1, wi, hi);
                    lemma_idx_bounds(cx as int, cy as int + 1, wi, hi);
                }
                if membership[map.xy_idx(cx - 1, cy)] != my_seed {
                    neighbors = neighbors + 1;
                }
                if membership[map.xy_idx(cx + 1, cy)] != my_seed {
                    neighbors = neighbors + 1;
                }
                if membership[map.xy_idx(cx, cy - 1)] != my_seed {
                    neighbors = neighbors + 1;
                }
                if membership[map.xy_idx(cx, cy + 1)] != my_seed {
                    neighbors = neighbors + 1;
                }
                proof {
                    assert(neighbors as int == foreign_neighbors(seeds@, cx as int, cy as int));
                }
                let ghost out_prev = out;
                if neighbors < 2 {
                    out.set_tile(cx, cy, Tile::floor());
                }
                proof {
                    assert(out.tile_at(cx as int, cy as int) == voronoi_tile(
                        *map,
                        seeds@,
                        cx as int,
                        cy as int,
                    ));
                    assert forall|a: int, b: int|
                        map.in_bounds(a, b) && !(a == cx as int && b == cy as int)
                        implies #[trigger] out.tile_at(a, b) == out_prev.tile_at(a, b) by {
                        lemma_idx_bounds(a, b, wi, hi);
                        if row_major_idx(a, b, wi) == row_major_idx(cx as int, cy as int, wi) {
                            lemma_idx_injective(a, b, cx as int, cy as int, wi, hi);
                        }
                    }
                }
                cx = cx + 1;
            }
            cy = cy + 1;
        }
        out
    }

    /// Choose sites, then carve. The sites are a function of the consumed
    /// draws alone, and every cell of the output is pinned to them: two runs
    /// that consume equal draws on equal maps build equal maps.
    pub fn build<D: Copy>(&self, rng: &mut RngSource, map: &TileMap<D>) -> (out: TileMap<D>)
        requires
            map.inv(),
            map.width >= 2,
            map.height >= 2,
            self.n_seeds >= 1,
            (self.n_seeds as int) * 64 <= usize::MAX as int,
        ensures
            out.inv(),
            out.width == map.width,
            out.height == map.height,
            out.starting_point == map.starting_point,
            out.exit_point == map.exit_point,
            out.data == map.data,
            old(rng).draws().len() <= final(rng).draws().len(),
            forall|j: int|
                0 <= j < old(rng).draws().len() ==> final(rng).draws()[j] == old(rng).draws()[j],
            ({
                let seeds = seeds_of_draws(
                    final(rng).draws().skip(old(rng).draws().len() as int),
                    map.width as int,
                    map.height as int,
                    self.n_seeds as int,
                );
                &&& seeds_wf(seeds, map.width as int, map.height as int)
                &&& 1 <= seeds.len() <= self.n_seeds
                &&& ((self.n_seeds as int) <= (map.width as int - 1) * (map.height as int - 1)
                    ==> seeds.len() == self.n_seeds)
                &&& forall|x: int, y: int|
                    map.in_bounds(x, y) ==> #[trigger] out.tile_at(x, y) == voronoi_tile(
                        *map,
                        seeds,
                        x,
                        y,
                    )
            }),
    {
        let seeds = self.generate_seeds(rng, map.width, map.height);
        let out = self.build_from_seeds(map, &seeds);
        out
    }
}

impl<D: Copy> MapFilter<D> for VoronoiHive {
    fn modify_map(&self, rng: &mut RngSource, map: &TileMap<D>) -> (out: TileMap<D>)
        ensures
            out.starting_point == map.starting_point,
            out.exit_point == map.exit_point,
            out.data == map.data,
            voronoi_degenerate(*self, *map) ==> out.tiles@ == map.tiles@ && *final(rng)
                == *old(rng),
            !voronoi_degenerate(*self, *map) ==> old(rng).draws().len()
                <= final(rng).draws().len() && (forall|j: int|
                0 <= j < old(rng).draws().len() ==> final(rng).draws()[j] == old(rng).draws()[j])
                && ({
                let seeds = seeds_of_draws(
                    final(rng).draws().skip(old(rng).draws().len() as int),
                    map.width as int,
                    map.height as int,
                    self.n_seeds as int,
                );
                &&& seeds_wf(seeds, map.width as int, map.height as int)
                &&& 1 <= seeds.len() <= self.n_seeds
                &&& ((self.n_seeds as int) <= (map.width as int - 1) * (map.height as int - 1)
                    ==> seeds.len() == self.n_seeds)
                &&& forall|x: int, y: int|
                    map.in_bounds(x, y) ==> #[trigger] out.tile_at(x, y) == voronoi_tile(
                        *map,
                        seeds,
                        x,
                        y,
                    )
            }),
    {
        // a grid without an interior, or a degenerate site count, is left as
        // it is: there is nothing to carve
        if map.width < 2 || map.height < 2 || self.n_seeds < 1 || self.n_seeds > usize::MAX / 64 {
            map.clone_map()
        } else {
            proof {
                assert(64 * (self.n_seeds as int) <= 64 * (usize::MAX as int / 64))
                    by (nonlinear_arith)
                    requires (self.n_seeds as int) <= usize::MAX as int / 64;
                assert(64 * (usize::MAX as int / 64) <= usize::MAX as int) by (nonlinear_arith);
            }
            self.build(rng, map)
        }
    }
}

} // verus!
