//! Flood-fill distance field: the minimum walkable-step count from a single
//! source cell to every cell it can reach.

use vstd::prelude::*;
use crate::geometry::Point;
use crate::map::{lemma_idx_bounds, lemma_idx_injective, row_major_idx, TileMap};

verus! {

/// One orthogonal step between two coordinates.
pub open spec fn adj(a: (int, int), b: (int, int)) -> bool {
    ||| (a.0 == b.0 && (b.1 == a.1 + 1 || b.1 == a.1 - 1))
    ||| (a.1 == b.1 && (b.0 == a.0 + 1 || b.0 == a.0 - 1))
}

/// A walk from `src`: every cell after the first is walkable and one
/// orthogonal step from its predecessor. The source itself need not be
/// walkable, so a field can be computed from a source standing on a wall.
pub open spec fn is_walk<D>(map: TileMap<D>, src: Point, p: Seq<(int, int)>) -> bool {
    &&& p.len() >= 1
    &&& p[0] == (src.x as int, src.y as int)
    &&& forall|k: int|
        1 <= k < p.len() ==> adj(p[k - 1], #[trigger] p[k]) && map.walkable_at(p[k].0, p[k].1)
}

/// `(x, y)` can be reached from `src` in exactly `n` walkable steps.
pub open spec fn reaches<D>(map: TileMap<D>, src: Point, x: int, y: int, n: int) -> bool {
    exists|p: Seq<(int, int)>|
        #[trigger] is_walk(map, src, p) && p.len() == n + 1 && p.last() == (x, y)
}

/// What one entry of a finished distance field says of its cell: a finite
/// entry is an achievable step count that no walk undercuts; an absent entry
/// means the cell cannot be reached at all.
pub open spec fn dist_entry_ok<D>(
    map: TileMap<D>,
    src: Point,
    x: int,
    y: int,
    e: Option<usize>,
) -> bool {
    match e {
        Some(n) => reaches(map, src, x, y, n as int) && (forall|m: int|
            #[trigger] reaches(map, src, x, y, m) ==> n as int <= m),
        None => forall|m: int| !(#[trigger] reaches(map, src, x, y, m)),
    }
}

/// The entry of a working field at `(x, y)`.
pub open spec fn dval(dist: Seq<Option<usize>>, w: int, x: int, y: int) -> Option<usize> {
    dist[row_major_idx(x, y, w)]
}

pub open spec fn finite_at(dist: Seq<Option<usize>>, w: int, x: int, y: int) -> bool {
    dval(dist, w, x, y) is Some
}

pub open spec fn val_at(dist: Seq<Option<usize>>, w: int, x: int, y: int) -> int {
    dval(dist, w, x, y)->Some_0 as int
}

/// Number of finite entries of a working field.
pub open spec fn count_some(s: Seq<Option<usize>>) -> nat
    decreases s.len(),
{
    if s.len() == 0 {
        0
    } else {
        count_some(s.drop_last()) + (if s.last() is Some {
            1nat
        } else {
            0nat
        })
    }
}

proof fn lemma_count_some_le_len(s: Seq<Option<usize>>)
    ensures
        count_some(s) <= s.len(),
    decreases s.len(),
{
    if s.len() > 0 {
        lemma_count_some_le_len(s.drop_last());
    }
}

proof fn lemma_count_all_none(s: Seq<Option<usize>>)
    requires
        forall|k: int| 0 <= k < s.len() ==> s[k] is None,
    ensures
        count_some(s) == 0,
    decreases s.len(),
{
    if s.len() > 0 {
        lemma_count_all_none(s.drop_last());
    }
}

proof fn lemma_count_some_update(s: Seq<Option<usize>>, i: int, v: usize)
    requires
        0 <= i < s.len(),
        s[i] is None,
    ensures
        count_some(s.update(i, Some(v))) == count_some(s) + 1,
    decreases s.len(),
{
    let t = s.update(i, Some(v));
    if i == s.len() - 1 {
        assert(t.drop_last() =~= s.drop_last());
    } else {
        assert(t.drop_last() =~= s.drop_last().update(i, Some(v)));
        lemma_count_some_update(s.drop_last(), i, v);
    }
}

/// Every finite entry is below the number of finite entries; this keeps
/// `n + 1` within `usize` when a neighbor is labelled.
pub open spec fn vals_bounded(dist: Seq<Option<usize>>) -> bool {
    forall|i: int|
        0 <= i < dist.len() && #[trigger] dist[i] is Some ==> (dist[i]->Some_0 as int)
            < count_some(dist)
}

/// Every finite entry is an achievable step count.
pub open spec fn sound_ok<D>(map: TileMap<D>, src: Point, dist: Seq<Option<usize>>) -> bool {
    forall|x: int, y: int|
        map.in_bounds(x, y) && #[trigger] finite_at(dist, map.width as int, x, y) ==> reaches(
            map,
            src,
            x,
            y,
            val_at(dist, map.width as int, x, y),
        )
}

/// If `(nx, ny)` is a walkable neighbor of `(x, y)`, it carries a finite
/// entry at most one above the entry of `(x, y)`.
pub open spec fn nbr_ok<D>(
    map: TileMap<D>,
    dist: Seq<Option<usize>>,
    x: int,
    y: int,
    nx: int,
    ny: int,
) -> bool {
    map.walkable_at(nx, ny) ==> finite_at(dist, map.width as int, nx, ny) && val_at(
        dist,
        map.width as int,
        nx,
        ny,
    ) <= val_at(dist, map.width as int, x, y) + 1
}

/// A fully expanded cell: all four neighbors relaxed.
pub open spec fn expanded_ok<D>(
    map: TileMap<D>,
    dist: Seq<Option<usize>>,
    x: int,
    y: int,
) -> bool {
    &&& nbr_ok(map, dist, x, y, x - 1, y)
    &&& nbr_ok(map, dist, x, y, x + 1, y)
    &&& nbr_ok(map, dist, x, y, x, y - 1)
    &&& nbr_ok(map, dist, x, y, x, y + 1)
}

/// `(x, y)` still waits in the frontier at or after `head`.
pub open spec fn in_frontier(q: Seq<Point>, head: int, x: int, y: int) -> bool {
    exists|k: int| head <= k < q.len() && (#[trigger] q[k]).x == x && q[k].y == y
}

/// The pending frontier: in-bounds finite cells whose entries all lie in
/// `[lo, lo + 1]` and never decrease along the queue.
pub open spec fn band_wf<D>(
    map: TileMap<D>,
    dist: Seq<Option<usize>>,
    q: Seq<Point>,
    head: int,
    lo: int,
) -> bool {
    let w = map.width as int;
    &&& forall|k: int|
        head <= k < q.len() ==> map.in_bounds((#[trigger] q[k]).x as int, q[k].y as int)
            && finite_at(dist, w, q[k].x as int, q[k].y as int)
    &&& forall|k: int|
        head <= k < q.len() ==> lo <= val_at(dist, w, (#[trigger] q[k]).x as int, q[k].y as int)
            <= lo + 1
    &&& forall|k1: int, k2: int|
        head <= k1 <= k2 < q.len() ==> val_at(
            dist,
            map.width as int,
            (#[trigger] q[k1]).x as int,
            q[k1].y as int,
        ) <= val_at(dist, map.width as int, (#[trigger] q[k2]).x as int, q[k2].y as int)
}

/// Every finite cell off the frontier is fully expanded with an entry at
/// most `lo`, except at most the one cell `(ux, uy)` being expanded now.
pub open spec fn settled_except<D>(
    map: TileMap<D>,
    dist: Seq<Option<usize>>,
    q: Seq<Point>,
    head: int,
    lo: int,
    ux: int,
    uy: int,
) -> bool {
    forall|x: int, y: int|
        map.in_bounds(x, y) && #[trigger] finite_at(dist, map.width as int, x, y) && !in_frontier(
            q,
            head,
            x,
            y,
        ) && !(x == ux && y == uy) ==> expanded_ok(map, dist, x, y) && val_at(
            dist,
            map.width as int,
            x,
            y,
        ) <= lo
}

/// The lowest entry still pending, or the field size once the frontier is
/// drained.
pub open spec fn frontier_lo<D>(
    map: TileMap<D>,
    dist: Seq<Option<usize>>,
    q: Seq<Point>,
    head: int,
) -> int {
    if head < q.len() {
        val_at(dist, map.width as int, q[head].x as int, q[head].y as int)
    } else {
        dist.len() as int
    }
}

/// Appending one walkable step to a walk reaches the neighbor.
proof fn lemma_walk_extend<D>(
    map: TileMap<D>,
    src: Point,
    x: int,
    y: int,
    n: int,
    nx: int,
    ny: int,
)
    requires
        reaches(map, src, x, y, n),
        map.walkable_at(nx, ny),
        adj((x, y), (nx, ny)),
    ensures
        reaches(map, src, nx, ny, n + 1),
{
    let p = choose|p: Seq<(int, int)>|
        #[trigger] is_walk(map, src, p) && p.len() == n + 1 && p.last() == (x, y);
    let p2 = p.push((nx, ny));
    assert(is_walk(map, src, p2)) by {
        assert forall|k: int| 1 <= k < p2.len() implies adj(p2[k - 1], #[trigger] p2[k])
            && map.walkable_at(p2[k].0, p2[k].1) by {
            if k < p.len() {
                assert(p2[k] == p[k]);
                assert(p2[k - 1] == p[k - 1]);
            } else {
                assert(p2[k] == (nx, ny));
                assert(p2[k - 1] == p.last());
            }
        }
    }
    assert(p2.len() == n + 2 && p2.last() == (nx, ny));
}

/// In a drained field (source at zero, every finite cell expanded), the end
/// of any walk carries a finite entry no larger than the walk's step count.
proof fn lemma_walk_bound<D>(
    map: TileMap<D>,
    src: Point,
    dist: Seq<Option<usize>>,
    p: Seq<(int, int)>,
)
    requires
        map.inv(),
        dist.len() == (map.width as int) * (map.height as int),
        map.in_bounds(src.x as int, src.y as int),
        dval(dist, map.width as int, src.x as int, src.y as int) == Some(0usize),
        forall|x: int, y: int|
            map.in_bounds(x, y) && #[trigger] finite_at(dist, map.width as int, x, y)
                ==> expanded_ok(map, dist, x, y),
        is_walk(map, src, p),
    ensures
        map.in_bounds(p.last().0, p.last().1),
        finite_at(dist, map.width as int, p.last().0, p.last().1),
        val_at(dist, map.width as int, p.last().0, p.last().1) <= p.len() - 1,
    decreases p.len(),
{
    if p.len() == 1 {
        assert(p.last() == (src.x as int, src.y as int));
    } else {
        let q = p.drop_last();
        assert(is_walk(map, src, q)) by {
            assert forall|k: int| 1 <= k < q.len() implies adj(q[k - 1], #[trigger] q[k])
                && map.walkable_at(q[k].0, q[k].1) by {
                assert(q[k] == p[k]);
                assert(q[k - 1] == p[k - 1]);
            }
        }
        lemma_walk_bound(map, src, dist, q);
        let a = q.last();
        let b = p.last();
        assert(adj(a, b) && map.walkable_at(b.0, b.1)) by {
            assert(q.last() == p[p.len() - 2]);
            assert(p.last() == p[p.len() - 1]);
        }
        assert(expanded_ok(map, dist, a.0, a.1));
    }
}

/// A distance field: one entry per grid cell, parallel to the map's tiles.
/// `Some(n)` is the minimum number of walkable steps from the source to the
/// cell; `None` marks a cell the source cannot reach.
pub struct DijkstraMap {
    pub width: usize,
    pub height: usize,
    pub tiles: Vec<Option<usize>>,
}

/// Entries only ever appear: every cell finite before stays finite with the
/// same value, and a cell fully expanded before stays fully expanded.
proof fn lemma_preserve_facts<D>(
    map: TileMap<D>,
    dist_old: Seq<Option<usize>>,
    dist_new: Seq<Option<usize>>,
)
    requires
        map.inv(),
        dist_old.len() == (map.width as int) * (map.height as int),
        dist_new.len() == dist_old.len(),
        forall|i: int|
            0 <= i < dist_old.len() && dist_old[i] is Some ==> dist_new[i] == dist_old[i],
    ensures
        forall|x: int, y: int|
            map.in_bounds(x, y) && #[trigger] finite_at(dist_old, map.width as int, x, y)
                ==> finite_at(dist_new, map.width as int, x, y) && val_at(
                dist_new,
                map.width as int,
                x,
                y,
            ) == val_at(dist_old, map.width as int, x, y),
        forall|x: int, y: int|
            map.in_bounds(x, y) && #[trigger] expanded_ok(map, dist_old, x, y) && finite_at(
                dist_old,
                map.width as int,
                x,
                y,
            ) ==> expanded_ok(map, dist_new, x, y),
{
    let wi = map.width as int;
    let hi = map.height as int;
    assert forall|x: int, y: int|
        map.in_bounds(x, y) && #[trigger] finite_at(dist_old, wi, x, y) implies finite_at(
        dist_new,
        wi,
        x,
        y,
    ) && val_at(dist_new, wi, x, y) == val_at(dist_old, wi, x, y) by {
        lemma_idx_bounds(x, y, wi, hi);
    }
    assert forall|x: int, y: int|
        map.in_bounds(x, y) && #[trigger] expanded_ok(map, dist_old, x, y) && finite_at(
            dist_old,
            wi,
            x,
            y,
        ) implies expanded_ok(map, dist_new, x, y) by {
        lemma_idx_bounds(x, y, wi, hi);
        if map.walkable_at(x - 1, y) {
            lemma_idx_bounds(x - 1, y, wi, hi);
        }
        if map.walkable_at(x + 1, y) {
            lemma_idx_bounds(x + 1, y, wi, hi);
        }
        if map.walkable_at(x, y - 1) {
            lemma_idx_bounds(x, y - 1, wi, hi);
        }
        if map.walkable_at(x, y + 1) {
            lemma_idx_bounds(x, y + 1, wi, hi);
        }
    }
}

/// Label one neighbor of the cell being expanded, pushing it on the
/// frontier if it was unlabelled, and preserve all in-flight facts.
#[verifier::rlimit(60)]
fn relax<D>(
    map: &TileMap<D>,
    dist: &mut Vec<Option<usize>>,
    queue: &mut Vec<Point>,
    nx: usize,
    ny: usize,
    du: usize,
    Ghost(src): Ghost<Point>,
    Ghost(head): Ghost<int>,
    Ghost(ux): Ghost<int>,
    Ghost(uy): Ghost<int>,
)
    requires
        map.inv(),
        old(dist)@.len() == (map.width as int) * (map.height as int),
        map.in_bounds(src.x as int, src.y as int),
        map.in_bounds(ux, uy),
        finite_at(old(dist)@, map.width as int, ux, uy),
        val_at(old(dist)@, map.width as int, ux, uy) == du,
        (du as int) < count_some(old(dist)@),
        adj((ux, uy), (nx as int, ny as int)),
        vals_bounded(old(dist)@),
        sound_ok(*map, src, old(dist)@),
        0 <= head <= old(queue)@.len(),
        band_wf(*map, old(dist)@, old(queue)@, head, du as int),
        settled_except(*map, old(dist)@, old(queue)@, head, du as int, ux, uy),
    ensures
        final(dist)@.len() == old(dist)@.len(),
        vals_bounded(final(dist)@),
        sound_ok(*map, src, final(dist)@),
        band_wf(*map, final(dist)@, final(queue)@, head, du as int),
        settled_except(*map, final(dist)@, final(queue)@, head, du as int, ux, uy),
        nbr_ok(*map, final(dist)@, ux, uy, nx as int, ny as int),
        finite_at(final(dist)@, map.width as int, ux, uy),
        val_at(final(dist)@, map.width as int, ux, uy) == du,
        forall|a: int, b: int|
            #[trigger] nbr_ok(*map, old(dist)@, ux, uy, a, b) ==> nbr_ok(
                *map,
                final(dist)@,
                ux,
                uy,
                a,
                b,
            ),
        forall|i: int|
            0 <= i < old(dist)@.len() && old(dist)@[i] is Some ==> final(dist)@[i] == old(
                dist,
            )@[i],
        old(queue)@.len() <= final(queue)@.len(),
        forall|k: int| 0 <= k < old(queue)@.len() ==> final(queue)@[k] == old(queue)@[k],
        (final(dist)@ == old(dist)@ && final(queue)@ == old(queue)@) || (count_some(final(dist)@)
            == count_some(old(dist)@) + 1 && final(queue)@.len() == old(queue)@.len() + 1),
{
    let ghost wi = map.width as int;
    let ghost hi = map.height as int;
    proof {
        lemma_idx_bounds(ux, uy, wi, hi);
    }
    if map.is_walkable(nx, ny) {
        let i = map.xy_idx(nx, ny);
        proof {
            lemma_count_some_le_len(dist@);
        }
        if dist[i].is_none() {
            dist[i] = Some(du + 1);
            queue.push(Point { x: nx, y: ny });
            proof {
                lemma_count_some_update(old(dist)@, i as int, (du + 1) as usize);
                lemma_walk_extend(*map, src, ux, uy, du as int, nx as int, ny as int);
                lemma_preserve_facts(*map, old(dist)@, dist@);
                assert(in_frontier(queue@, head, nx as int, ny as int)) by {
                    assert(queue@[queue@.len() - 1] == (Point { x: nx, y: ny }));
                }
                assert(val_at(dist@, wi, nx as int, ny as int) == du + 1);
                // only the treated neighbor is newly finite
                assert forall|x: int, y: int|
                    map.in_bounds(x, y) && #[trigger] finite_at(dist@, wi, x, y) && !finite_at(
                        old(dist)@,
                        wi,
                        x,
                        y,
                    ) implies x == nx as int && y == ny as int by {
                    lemma_idx_bounds(x, y, wi, hi);
                    lemma_idx_injective(x, y, nx as int, ny as int, wi, hi);
                }
                // the frontier only grew
                assert forall|x: int, y: int|
                    #[trigger] in_frontier(old(queue)@, head, x, y) implies in_frontier(
                    queue@,
                    head,
                    x,
                    y,
                ) by {
                    let k = choose|k: int|
                        head <= k < old(queue)@.len() && (#[trigger] old(queue)@[k]).x == x && old(
                            queue,
                        )@[k].y == y;
                    assert(queue@[k] == old(queue)@[k]);
                }
                assert(sound_ok(*map, src, dist@)) by {
                    assert forall|x: int, y: int|
                        map.in_bounds(x, y) && #[trigger] finite_at(dist@, wi, x, y)
                        implies reaches(*map, src, x, y, val_at(dist@, wi, x, y)) by {
                        if finite_at(old(dist)@, wi, x, y) {
                        } else {
                            lemma_idx_bounds(x, y, wi, hi);
                            lemma_idx_injective(x, y, nx as int, ny as int, wi, hi);
                        }
                    }
                }
                assert(settled_except(*map, dist@, queue@, head, du as int, ux, uy)) by {
                    assert forall|x: int, y: int|
                        map.in_bounds(x, y) && #[trigger] finite_at(dist@, wi, x, y)
                            && !in_frontier(queue@, head, x, y) && !(x == ux && y == uy)
                        implies expanded_ok(*map, dist@, x, y) && val_at(dist@, wi, x, y)
                            <= du as int by {
                        if finite_at(old(dist)@, wi, x, y) {
                            assert(!in_frontier(old(queue)@, head, x, y));
                            assert(expanded_ok(*map, old(dist)@, x, y));
                        } else {
                            lemma_idx_bounds(x, y, wi, hi);
                            lemma_idx_injective(x, y, nx as int, ny as int, wi, hi);
                            assert(false);
                        }
                    }
                }
                assert(band_wf(*map, dist@, queue@, head, du as int)) by {
                    assert forall|k: int| head <= k < queue@.len() implies map.in_bounds(
                        (#[trigger] queue@[k]).x as int,
                        queue@[k].y as int,
                    ) && finite_at(dist@, wi, queue@[k].x as int, queue@[k].y as int) && du as int
                        <= val_at(dist@, wi, queue@[k].x as int, queue@[k].y as int) <= du as int
                        + 1 by {
                        if k < old(queue)@.len() {
                            assert(queue@[k] == old(queue)@[k]);
                        } else {
                            assert(queue@[k] == (Point { x: nx, y: ny }));
                        }
                    }
                }
            }
        } else {
            proof {
                // already labelled: off the frontier it is settled at most
                // `du`; on the frontier the band bounds it by `du + 1`.
                if !in_frontier(queue@, head, nx as int, ny as int) {
                    assert(finite_at(dist@, wi, nx as int, ny as int));
                    assert(!(nx as int == ux && ny as int == uy));
                    assert(val_at(dist@, wi, nx as int, ny as int) <= du as int);
                }
            }
        }
    }
}

impl DijkstraMap {
    /// The field covers its grid.
    pub open spec fn inv(self) -> bool {
        self.tiles@.len() == (self.width as int) * (self.height as int)
    }

    /// Compute the distance field of `map` from its starting point by
    /// first-in-first-out breadth-first expansion. Without a starting point
    /// the defensive answer is an all-unreached field.
    #[verifier::rlimit(60)]
    #[verifier::loop_isolation(false)]
    pub fn new<D>(map: &TileMap<D>) -> (d: DijkstraMap)
        requires
            map.inv(),
        ensures
            d.inv(),
            d.width == map.width,
            d.height == map.height,
            d.tiles@.len() == map.tiles@.len(),
            match map.starting_point {
                None => forall|i: int| 0 <= i < d.tiles@.len() ==> d.tiles@[i] is None,
                Some(src) => forall|x: int, y: int|
                    map.in_bounds(x, y) ==> dist_entry_ok(
                        *map,
                        src,
                        x,
                        y,
                        #[trigger] dval(d.tiles@, map.width as int, x, y),
                    ),
            },
    {
        let w = map.width;
        let h = map.height;
        let ghost wi = w as int;
        let ghost hi = h as int;
        let n = w * h;
        let mut dist: Vec<Option<usize>> = Vec::new();
        let mut i: usize = 0;
        while i < n
            invariant
                i <= n,
                dist@.len() == i,
                forall|k: int| 0 <= k < i ==> dist@[k] is None,
            decreases n - i,
        {
            dist.push(None);
            i = i + 1;
        }
        let src = match map.starting_point {
            None => {
                return DijkstraMap { width: w, height: h, tiles: dist };
            },
            Some(p) => p,
        };
        let si = map.xy_idx(src.x, src.y);
        proof {
            lemma_count_all_none(dist@);
        }
        let ghost dist0 = dist@;
        dist[si] = Some(0usize);
        proof {
            lemma_count_some_update(dist0, si as int, 0);
        }
        let mut queue: Vec<Point> = Vec::new();
        queue.push(src);
        let mut head: usize = 0;
        proof {
            let p0: Seq<(int, int)> = seq![(src.x as int, src.y as int)];
            assert(is_walk(*map, src, p0));
            assert(p0.len() == 1 && p0.last() == (src.x as int, src.y as int));
            assert(reaches(*map, src, src.x as int, src.y as int, 0));
            assert forall|x: int, y: int|
                map.in_bounds(x, y) && #[trigger] finite_at(dist@, wi, x, y) implies x
                == src.x as int && y == src.y as int && val_at(dist@, wi, x, y) == 0 by {
                lemma_idx_bounds(x, y, wi, hi);
                lemma_idx_injective(x, y, src.x as int, src.y as int, wi, hi);
            }
            assert(in_frontier(queue@, 0, src.x as int, src.y as int)) by {
                assert(queue@[0] == src);
            }
        }
        while head < queue.len()
            invariant
                map.inv(),
                map.in_bounds(src.x as int, src.y as int),
                dist@.len() == wi * hi,
                dval(dist@, wi, src.x as int, src.y as int) == Some(0usize),
                head <= queue@.len(),
                count_some(dist@) <= dist@.len(),
                vals_bounded(dist@),
                sound_ok(*map, src, dist@),
                band_wf(
                    *map,
                    dist@,
                    queue@,
                    head as int,
                    frontier_lo(*map, dist@, queue@, head as int),
                ),
                settled_except(
                    *map,
                    dist@,
                    queue@,
                    head as int,
                    frontier_lo(*map, dist@, queue@, head as int),
                    -1,
                    -1,
                ),
            decreases dist@.len() - count_some(dist@), queue@.len() - head,
        {
            let ghost head0 = head as int;
            let u = queue[head];
            head = head + 1;
            let ghost ux = u.x as int;
            let ghost uy = u.y as int;
            proof {
                assert(queue@[head0] == u);
                assert(finite_at(dist@, wi, ux, uy));
                lemma_idx_bounds(ux, uy, wi, hi);
            }
            let ui = map.xy_idx(u.x, u.y);
            let du = dist[ui].unwrap();
            proof {
                lemma_count_some_le_len(dist@);
                assert(du as int == frontier_lo(*map, dist@, queue@, head0));
                assert(band_wf(*map, dist@, queue@, head as int, du as int));
                assert(settled_except(*map, dist@, queue@, head as int, du as int, ux, uy)) by {
                    assert forall|x: int, y: int|
                        map.in_bounds(x, y) && #[trigger] finite_at(dist@, wi, x, y)
                            && !in_frontier(queue@, head as int, x, y) && !(x == ux && y == uy)
                        implies expanded_ok(*map, dist@, x, y) && val_at(dist@, wi, x, y)
                            <= du as int by {
                        if in_frontier(queue@, head0, x, y) {
                            let k = choose|k: int|
                                head0 <= k < queue@.len() && (#[trigger] queue@[k]).x == x
                                    && queue@[k].y == y;
                            assert(k == head0);
                            assert(false);
                        }
                    }
                }
            }
            if u.x >= 1 {
                relax(
                    map,
                    &mut dist,
                    &mut queue,
                    u.x - 1,
                    u.y,
                    du,
                    Ghost(src),
                    Ghost(head as int),
                    Ghost(ux),
                    Ghost(uy),
                );
            }
            proof {
                assert(wi <= wi * hi && hi <= wi * hi) by (nonlinear_arith)
                    requires wi >= 1 && hi >= 1;
            }
            relax(
                map,
                &mut dist,
                &mut queue,
                u.x + 1,
                u.y,
                du,
                Ghost(src),
                Ghost(head as int),
                Ghost(ux),
                Ghost(uy),
            );
            if u.y >= 1 {
                relax(
                    map,
                    &mut dist,
                    &mut queue,
                    u.x,
                    u.y - 1,
                    du,
                    Ghost(src),
                    Ghost(head as int),
                    Ghost(ux),
                    Ghost(uy),
                );
            }
            relax(
                map,
                &mut dist,
                &mut queue,
                u.x,
                u.y + 1,
                du,
                Ghost(src),
                Ghost(head as int),
                Ghost(ux),
                Ghost(uy),
            );
            proof {
                lemma_count_some_le_len(dist@);
                assert(expanded_ok(*map, dist@, ux, uy));
                let lo2 = frontier_lo(*map, dist@, queue@, head as int);
                if head < queue@.len() {
                    assert(du as int <= lo2 <= du as int + 1);
                } else {
                    assert(val_at(dist@, wi, ux, uy) < count_some(dist@));
                    assert((du as int) < lo2);
                }
                assert(band_wf(*map, dist@, queue@, head as int, lo2));
                assert(settled_except(*map, dist@, queue@, head as int, lo2, -1, -1)) by {
                    assert forall|x: int, y: int|
                        map.in_bounds(x, y) && #[trigger] finite_at(dist@, wi, x, y)
                            && !in_frontier(queue@, head as int, x, y) && !(x == -1 && y == -1)
                        implies expanded_ok(*map, dist@, x, y) && val_at(dist@, wi, x, y)
                            <= lo2 by {
                        lemma_idx_bounds(x, y, wi, hi);
                        if x == ux && y == uy {
                        } else {
                            assert(expanded_ok(*map, dist@, x, y) && val_at(dist@, wi, x, y)
                                <= du as int);
                        }
                    }
                }
            }
        }
        proof {
            assert forall|a: int, b: int|
                map.in_bounds(a, b) && #[trigger] finite_at(dist@, wi, a, b)
                implies expanded_ok(*map, dist@, a, b) by {
                assert(!in_frontier(queue@, head as int, a, b));
            }
            assert forall|x: int, y: int| map.in_bounds(x, y) implies dist_entry_ok(
                *map,
                src,
                x,
                y,
                #[trigger] dval(dist@, wi, x, y),
            ) by {
                lemma_idx_bounds(x, y, wi, hi);
                if finite_at(dist@, wi, x, y) {
                    let nv = val_at(dist@, wi, x, y);
                    assert(reaches(*map, src, x, y, nv));
                    assert forall|m: int| #[trigger] reaches(*map, src, x, y, m) implies nv
                        <= m by {
                        let p = choose|p: Seq<(int, int)>|
                            #[trigger] is_walk(*map, src, p) && p.len() == m + 1 && p.last() == (
                            x,
                            y,
                            );
                        lemma_walk_bound(*map, src, dist@, p);
                    }
                } else {
                    assert forall|m: int| !(#[trigger] reaches(*map, src, x, y, m)) by {
                        if reaches(*map, src, x, y, m) {
                            let p = choose|p: Seq<(int, int)>|
                                #[trigger] is_walk(*map, src, p) && p.len() == m + 1 && p.last()
                                    == (x, y);
                            lemma_walk_bound(*map, src, dist@, p);
                        }
                    }
                }
            }
        }
        DijkstraMap { width: w, height: h, tiles: dist }
    }
}

} // verus!
