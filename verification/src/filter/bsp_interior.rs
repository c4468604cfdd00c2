//! Carve rooms from a recursive binary partition of the map's area.
//!
//! The area is split along its longer axis at a random position until the
//! pieces fall below twice the minimum leaf size. Inside every leaf a floor
//! room is carved one cell in from the leaf's bounds, so rooms keep a wall
//! margin on every side and — the leaves being disjoint — never overlap.
//! Rooms are not connected; connectivity is a downstream concern.

use vstd::prelude::*;
use crate::filter::MapFilter;
use crate::map::{lemma_idx_bounds, lemma_idx_injective, row_major_idx, Tile, TileMap};
use crate::random::RngSource;

verus! {

/// A half-open rectangle of grid cells: `x1 <= x < x2`, `y1 <= y < y2`.
#[derive(Clone, Copy, PartialEq, Eq, Structural, Debug)]
pub struct Rect {
    pub x1: usize,
    pub y1: usize,
    pub x2: usize,
    pub y2: usize,
}

pub open spec fn rect_wf(r: Rect) -> bool {
    r.x1 < r.x2 && r.y1 < r.y2
}

/// `a` lies inside `b`.
pub open spec fn rect_inside(a: Rect, b: Rect) -> bool {
    b.x1 <= a.x1 && a.x2 <= b.x2 && b.y1 <= a.y1 && a.y2 <= b.y2
}

/// `a` and `b` share no cell.
pub open spec fn rect_disjoint(a: Rect, b: Rect) -> bool {
    a.x2 <= b.x1 || b.x2 <= a.x1 || a.y2 <= b.y1 || b.y2 <= a.y1
}

pub open spec fn in_rect(x: int, y: int, r: Rect) -> bool {
    r.x1 <= x < r.x2 && r.y1 <= y < r.y2
}

/// The cell lies in the room of leaf `r`: the leaf shrunk by one cell on
/// every side.
pub open spec fn in_room(x: int, y: int, r: Rect) -> bool {
    r.x1 + 1 <= x < r.x2 - 1 && r.y1 + 1 <= y < r.y2 - 1
}

/// The cell lies in some leaf's room.
pub open spec fn in_some_room(leaves: Seq<Rect>, x: int, y: int) -> bool {
    exists|k: int| 0 <= k < leaves.len() && in_room(x, y, #[trigger] leaves[k])
}

/// What the carve leaves at `(x, y)`: room cells open into floor, everything
/// else is kept.
pub open spec fn bsp_tile<D>(map: TileMap<D>, leaves: Seq<Rect>, x: int, y: int) -> Tile {
    if in_some_room(leaves, x, y) {
        Tile::Floor
    } else {
        map.tile_at(x, y)
    }
}

/// A well-formed family of leaves for a map: each leaf lies inside the
/// grid with sides at least `min` and below `2 * min` (fully split), the
/// leaves are pairwise disjoint, and together they cover every cell of the
/// grid.
pub open spec fn leaves_wf<D>(map: TileMap<D>, min: int, leaves: Seq<Rect>) -> bool {
    &&& forall|k: int|
        0 <= k < leaves.len() ==> rect_wf(#[trigger] leaves[k]) && rect_inside(
            leaves[k],
            Rect { x1: 0, y1: 0, x2: map.width, y2: map.height },
        ) && min <= leaves[k].x2 - leaves[k].x1 < 2 * min && min <= leaves[k].y2 - leaves[k].y1
            < 2 * min
    &&& forall|k1: int, k2: int|
        0 <= k1 < k2 < leaves.len() ==> rect_disjoint(
            #[trigger] leaves[k1],
            #[trigger] leaves[k2],
        )
    &&& forall|x: int, y: int|
        map.in_bounds(x, y) ==> exists|k: int|
            0 <= k < leaves.len() && in_rect(x, y, #[trigger] leaves[k])
}

/// The output opens exactly the rooms of the leaves into floor.
pub open spec fn carved_as<D>(map: TileMap<D>, out: TileMap<D>, leaves: Seq<Rect>) -> bool {
    forall|x: int, y: int|
        map.in_bounds(x, y) ==> #[trigger] out.tile_at(x, y) == bsp_tile(map, leaves, x, y)
}

/// Rooms lie strictly inside their leaf with a one-cell margin on every
/// side, and rooms of disjoint leaves never share a cell.
pub proof fn lemma_rooms_inside_and_disjoint(a: Rect, b: Rect, x: int, y: int)
    requires
        in_room(x, y, a),
    ensures
        in_rect(x, y, a),
        a.x1 < x < a.x2 - 1 && a.y1 < y < a.y2 - 1,
        rect_disjoint(a, b) ==> !in_room(x, y, b),
{
}

/// For any well-formed family of leaves, the rooms of two distinct leaves
/// never share a cell: carved rooms do not overlap.
pub proof fn lemma_no_two_rooms_overlap<D>(
    map: TileMap<D>,
    min: int,
    leaves: Seq<Rect>,
    k1: int,
    k2: int,
    x: int,
    y: int,
)
    requires
        leaves_wf(map, min, leaves),
        0 <= k1 < leaves.len(),
        0 <= k2 < leaves.len(),
        k1 != k2,
        in_room(x, y, leaves[k1]),
    ensures
        !in_room(x, y, leaves[k2]),
{
    if k1 < k2 {
        assert(rect_disjoint(leaves[k1], leaves[k2]));
    } else {
        assert(rect_disjoint(leaves[k2], leaves[k1]));
    }
    lemma_rooms_inside_and_disjoint(leaves[k1], leaves[k2], x, y);
    if in_room(x, y, leaves[k2]) {
        lemma_rooms_inside_and_disjoint(leaves[k2], leaves[k1], x, y);
    }
}

/// Recursively partitions the map and carves a room in every leaf.
pub struct BspInterior {
    /// No leaf side ever falls below this size.
    pub min_leaf: usize,
}

/// A configuration the partition cannot work on: a degenerate minimum, or a
/// map smaller than a single leaf. Such a map passes through unchanged.
pub open spec fn bsp_degenerate<D>(f: BspInterior, map: TileMap<D>) -> bool {
    f.min_leaf < 2 || f.min_leaf > usize::MAX / 2 || map.width < f.min_leaf || map.height
        < f.min_leaf
}

/// Partition `rect` into leaves, splitting along the longer axis at a random
/// position until both sides are below twice the minimum. The new leaves all
/// lie inside `rect`, have sides of at least `min` and below `2 * min`, are
/// pairwise disjoint, and together cover every cell of `rect`; earlier
/// entries of `leaves` are untouched.
#[verifier::loop_isolation(false)]
#[verifier::rlimit(60)]
fn split_rects(rng: &mut RngSource, min: usize, rect: Rect, leaves: &mut Vec<Rect>)
    requires
        min >= 2,
        (min as int) * 2 <= usize::MAX as int,
        rect_wf(rect),
        rect.x2 - rect.x1 >= min,
        rect.y2 - rect.y1 >= min,
    ensures
        old(rng).draws().len() <= final(rng).draws().len(),
        forall|j: int|
            0 <= j < old(rng).draws().len() ==> final(rng).draws()[j] == old(rng).draws()[j],
        old(leaves)@.len() <= final(leaves)@.len(),
        forall|k: int| 0 <= k < old(leaves)@.len() ==> final(leaves)@[k] == old(leaves)@[k],
        forall|k: int|
            old(leaves)@.len() <= k < final(leaves)@.len() ==> rect_wf(
                #[trigger] final(leaves)@[k],
            ) && rect_inside(final(leaves)@[k], rect) && min <= final(leaves)@[k].x2
                - final(leaves)@[k].x1 < 2 * min && min <= final(leaves)@[k].y2
                - final(leaves)@[k].y1 < 2 * min,
        forall|k1: int, k2: int|
            old(leaves)@.len() <= k1 < k2 < final(leaves)@.len() ==> rect_disjoint(
                #[trigger] final(leaves)@[k1],
                #[trigger] final(leaves)@[k2],
            ),
        forall|x: int, y: int|
            in_rect(x, y, rect) ==> exists|k: int|
                old(leaves)@.len() <= k < final(leaves)@.len() && in_rect(
                    x,
                    y,
                    #[trigger] final(leaves)@[k],
                ),
    decreases (rect.x2 - rect.x1) + (rect.y2 - rect.y1),
{
    let w = rect.x2 - rect.x1;
    let h = rect.y2 - rect.y1;
    if w < 2 * min && h < 2 * min {
        leaves.push(rect);
        proof {
            assert(leaves@[leaves@.len() - 1] == rect);
            assert forall|x: int, y: int| in_rect(x, y, rect) implies exists|k: int|
                old(leaves)@.len() <= k < leaves@.len() && in_rect(x, y, #[trigger] leaves@[k]) by {
                assert(in_rect(x, y, leaves@[leaves@.len() - 1]));
            }
        }
        return ;
    }
    if w >= h {
        let s = rng.rand_range(rect.x1 + min, rect.x2 - min);
        let r1 = Rect { x1: rect.x1, y1: rect.y1, x2: s, y2: rect.y2 };
        let r2 = Rect { x1: s, y1: rect.y1, x2: rect.x2, y2: rect.y2 };
        split_rects(rng, min, r1, leaves);
        let ghost mid = leaves@.len() as int;
        let ghost leaves1 = leaves@;
        split_rects(rng, min, r2, leaves);
        proof {
            assert forall|k1: int, k2: int|
                old(leaves)@.len() <= k1 < k2 < leaves@.len() implies rect_disjoint(
                #[trigger] leaves@[k1],
                #[trigger] leaves@[k2],
            ) by {
                if k1 < mid && k2 >= mid {
                    assert(rect_inside(leaves@[k1], r1));
                    assert(rect_inside(leaves@[k2], r2));
                }
            }
            assert forall|x: int, y: int| in_rect(x, y, rect) implies exists|k: int|
                old(leaves)@.len() <= k < leaves@.len() && in_rect(x, y, #[trigger] leaves@[k]) by {
                if in_rect(x, y, r1) {
                    let k = choose|k: int|
                        old(leaves)@.len() <= k < mid && in_rect(x, y, #[trigger] leaves1[k]);
                    assert(leaves@[k] == leaves1[k]);
                    assert(in_rect(x, y, leaves@[k]));
                } else {
                    assert(in_rect(x, y, r2));
                }
            }
        }
    } else {
        let s = rng.rand_range(rect.y1 + min, rect.y2 - min);
        let r1 = Rect { x1: rect.x1, y1: rect.y1, x2: rect.x2, y2: s };
        let r2 = Rect { x1: rect.x1, y1: s, x2: rect.x2, y2: rect.y2 };
        split_rects(rng, min, r1, leaves);
        let ghost mid = leaves@.len() as int;
        let ghost leaves1 = leaves@;
        split_rects(rng, min, r2, leaves);
        proof {
            assert forall|k1: int, k2: int|
                old(leaves)@.len() <= k1 < k2 < leaves@.len() implies rect_disjoint(
                #[trigger] leaves@[k1],
                #[trigger] leaves@[k2],
            ) by {
                if k1 < mid && k2 >= mid {
                    assert(rect_inside(leaves@[k1], r1));
                    assert(rect_inside(leaves@[k2], r2));
                }
            }
            assert forall|x: int, y: int| in_rect(x, y, rect) implies exists|k: int|
                old(leaves)@.len() <= k < leaves@.len() && in_rect(x, y, #[trigger] leaves@[k]) by {
                if in_rect(x, y, r1) {
                    let k = choose|k: int|
                        old(leaves)@.len() <= k < mid && in_rect(x, y, #[trigger] leaves1[k]);
                    assert(leaves@[k] == leaves1[k]);
                    assert(in_rect(x, y, leaves@[k]));
                } else {
                    assert(in_rect(x, y, r2));
                }
            }
        }
    }
}

impl BspInterior {
    /// The customary minimum leaf size of eight cells.
    pub fn new() -> (f: Box<BspInterior>)
        ensures
            f.min_leaf == 8,
    {
        Box::new(BspInterior { min_leaf: 8 })
    }

    /// The whole transformation: the output equals the input with the rooms
    /// of some disjoint family of leaves, all inside the map and no side
    /// below the minimum, opened into floor.
    #[verifier::loop_isolation(false)]
    #[verifier::rlimit(100)]
    pub fn build<D: Copy>(&self, rng: &mut RngSource, map: &TileMap<D>) -> (out: TileMap<D>)
        requires
            map.inv(),
            self.min_leaf >= 2,
            (self.min_leaf as int) * 2 <= usize::MAX as int,
            map.width >= self.min_leaf,
            map.height >= self.min_leaf,
        ensures
            out.inv(),
            out.width == map.width,
            out.height == map.height,
            out.starting_point == map.starting_point,
            out.exit_point == map.exit_point,
            out.data == map.data,
            old(rng).draws().len() <= final(rng).draws().len(),
            forall|j: int|
                0 <= j < old(rng).draws().len() ==> final(rng).draws()[j] == old(rng).draws()[j],
            exists|leaves: Seq<Rect>|
                #[trigger] leaves_wf(*map, self.min_leaf as int, leaves) && carved_as(
                    *map,
                    out,
                    leaves,
                ),
    {
        let ghost wi = map.width as int;
        let ghost hi = map.height as int;
        let whole = Rect { x1: 0, y1: 0, x2: map.width, y2: map.height };
        let mut leaves: Vec<Rect> = Vec::new();
        split_rects(rng, self.min_leaf, whole, &mut leaves);
        let mut out = map.clone_map();
        let mut k: usize = 0;
        while k < leaves.len()
            invariant
                k <= leaves@.len(),
                out.width == map.width,
                out.height == map.height,
                out.tiles@.len() == map.tiles@.len(),
                out.starting_point == map.starting_point,
                out.exit_point == map.exit_point,
                out.data == map.data,
                forall|x: int, y: int|
                    map.in_bounds(x, y) ==> #[trigger] out.tile_at(x, y) == bsp_tile(
                        *map,
                        leaves@.take(k as int),
                        x,
                        y,
                    ),
            decreases leaves@.len() - k,
        {
            let r = leaves[k];
            proof {
                assert(rect_wf(r) && rect_inside(r, whole));
            }
            let ghost taken = leaves@.take(k as int);
            let ghost taken1 = leaves@.take(k as int + 1);
            let mut y = r.y1 + 1;
            while y < r.y2 - 1
                invariant
                    r.y1 + 1 <= y,
                    y <= r.y2,
                    rect_wf(r),
                    rect_inside(r, whole),
                    out.width == map.width,
                    out.height == map.height,
                    out.tiles@.len() == map.tiles@.len(),
                    out.starting_point == map.starting_point,
                    out.exit_point == map.exit_point,
                    out.data == map.data,
                    forall|a: int, b: int|
                        map.in_bounds(a, b) && !(in_room(a, b, r) && b < y)
                            ==> #[trigger] out.tile_at(a, b) == bsp_tile(*map, taken, a, b),
                    forall|a: int, b: int|
                        map.in_bounds(a, b) && in_room(a, b, r) && b < y
                            ==> #[trigger] out.tile_at(a, b) == Tile::Floor,
                decreases r.y2 - y,
            {
                let mut x = r.x1 + 1;
                while x < r.x2 - 1
                    invariant
                        r.y1 + 1 <= y,
                        (y as int) + 1 < r.y2 as int,
                        r.x1 + 1 <= x,
                        x <= r.x2,
                        rect_wf(r),
                        rect_inside(r, whole),
                        out.width == map.width,
                        out.height == map.height,
                        out.tiles@.len() == map.tiles@.len(),
                        out.starting_point == map.starting_point,
                        out.exit_point == map.exit_point,
                        out.data == map.data,
                        forall|a: int, b: int|
                            map.in_bounds(a, b) && !(in_room(a, b, r) && (b < y || (b == y && a
                                < x))) ==> #[trigger] out.tile_at(a, b) == bsp_tile(
                                *map,
                                taken,
                                a,
                                b,
                            ),
                        forall|a: int, b: int|
                            map.in_bounds(a, b) && in_room(a, b, r) && (b < y || (b == y && a < x))
                                ==> #[trigger] out.tile_at(a, b) == Tile::Floor,
                    decreases r.x2 - x,
                {
                    let ghost out_prev = out;
                    out.set_tile(x, y, Tile::Floor);
                    proof {
                        lemma_idx_bounds(x as int, y as int, wi, hi);
                        assert forall|a: int, b: int|
                            map.in_bounds(a, b) && !(a == x as int && b == y as int)
                            implies #[trigger] out.tile_at(a, b) == out_prev.tile_at(a, b) by {
                            lemma_idx_bounds(a, b, wi, hi);
                            if row_major_idx(a, b, wi) == row_major_idx(x as int, y as int, wi) {
                                lemma_idx_injective(a, b, x as int, y as int, wi, hi);
                            }
                        }
                    }
                    x = x + 1;
                }
                y = y + 1;
            }
            proof {
                assert(taken1 =~= taken.push(r));
                assert forall|a: int, b: int| map.in_bounds(a, b) implies #[trigger] out.tile_at(
                    a,
                    b,
                ) == bsp_tile(*map, taken1, a, b) by {
                    if in_some_room(taken1, a, b) {
                        let j = choose|j: int|
                            0 <= j < taken1.len() && in_room(a, b, #[trigger] taken1[j]);
                        if j < taken.len() {
                            assert(in_some_room(taken, a, b));
                        } else {
                            assert(in_room(a, b, r));
                        }
                    } else {
                        assert(!in_some_room(taken, a, b)) by {
                            if in_some_room(taken, a, b) {
                                let j = choose|j: int|
                                    0 <= j < taken.len() && in_room(a, b, #[trigger] taken[j]);
                                assert(in_room(a, b, taken1[j]));
                            }
                        }
                        assert(!in_room(a, b, r)) by {
                            if in_room(a, b, r) {
                                assert(in_room(a, b, taken1[taken1.len() - 1]));
                            }
                        }
                    }
                }
            }
            k = k + 1;
        }
        proof {
            assert(leaves@.take(leaves@.len() as int) =~= leaves@);
            assert forall|x: int, y: int| map.in_bounds(x, y) implies exists|k: int|
                0 <= k < leaves@.len() && in_rect(x, y, #[trigger] leaves@[k]) by {
                assert(in_rect(x, y, whole));
            }
            assert(leaves_wf(*map, self.min_leaf as int, leaves@));
            assert(carved_as(*map, out, leaves@));
        }
        out
    }
}

impl<D: Copy> MapFilter<D> for BspInterior {
    fn modify_map(&self, rng: &mut RngSource, map: &TileMap<D>) -> (out: TileMap<D>)
        ensures
            out.starting_point == map.starting_point,
            out.exit_point == map.exit_point,
            out.data == map.data,
            bsp_degenerate(*self, *map) ==> out.tiles@ == map.tiles@ && *final(rng) == *old(rng),
            !bsp_degenerate(*self, *map) ==> old(rng).draws().len()
                <= final(rng).draws().len() && (forall|j: int|
                0 <= j < old(rng).draws().len() ==> final(rng).draws()[j] == old(rng).draws()[j])
                && exists|leaves: Seq<Rect>|
                #[trigger] leaves_wf(*map, self.min_leaf as int, leaves) && carved_as(
                    *map,
                    out,
                    leaves,
                ),
    {
        // a map smaller than one leaf has no interior to partition
        if self.min_leaf < 2 || self.min_leaf > usize::MAX / 2 || map.width < self.min_leaf
            || map.height < self.min_leaf {
            map.clone_map()
        } else {
            self.build(rng, map)
        }
    }
}

} // verus!
