//! Textual fixtures and rendering: an input-only convenience for building
//! maps in tests, and an output-only printable form.
//!
//! A fixture is a multi-line string; blank lines are dropped, the common
//! leading indentation of the remaining lines is stripped, and each `#`
//! becomes a wall while any other character becomes floor. The first content
//! line fixes the width; shorter lines are padded with floor. Degenerate
//! input (no content at all, or a grid too large for the machine) falls back
//! to a single-cell wall map.

use vstd::prelude::*;
use crate::map::{row_major_idx, Tile, TileMap};

verus! {

/// The glyph a tile is rendered as.
pub open spec fn glyph(t: Tile) -> char {
    if t == Tile::Wall {
        '#'
    } else {
        '.'
    }
}

/// A line of nothing but spaces.
pub open spec fn is_blank(l: Seq<char>) -> bool {
    forall|i: int| 0 <= i < l.len() ==> l[i] == ' '
}

/// The lines of `s`, split at newlines; always at least one (possibly
/// empty) line.
pub open spec fn split_lines(s: Seq<char>) -> Seq<Seq<char>>
    decreases s.len(),
{
    if s.len() == 0 {
        seq![Seq::<char>::empty()]
    } else {
        let rest = split_lines(s.drop_last());
        if s.last() == '\n' {
            rest.push(Seq::empty())
        } else {
            rest.update(rest.len() - 1, rest.last().push(s.last()))
        }
    }
}

/// The lines that carry content, in order: blank lines are dropped.
pub open spec fn content_lines(ls: Seq<Seq<char>>) -> Seq<Seq<char>>
    decreases ls.len(),
{
    if ls.len() == 0 {
        Seq::empty()
    } else {
        let rest = content_lines(ls.drop_last());
        if is_blank(ls.last()) {
            rest
        } else {
            rest.push(ls.last())
        }
    }
}

/// The content lines of a fixture string.
pub open spec fn fixture_lines(s: Seq<char>) -> Seq<Seq<char>> {
    content_lines(split_lines(s))
}

/// The number of spaces a line starts with.
pub open spec fn leading_spaces(l: Seq<char>) -> int
    decreases l.len(),
{
    if l.len() == 0 || l[0] != ' ' {
        0
    } else {
        1 + leading_spaces(l.drop_first())
    }
}

/// The common leading indentation of a family of lines.
pub open spec fn min_indent(ls: Seq<Seq<char>>) -> int
    decreases ls.len(),
{
    if ls.len() == 0 {
        0
    } else if ls.len() == 1 {
        leading_spaces(ls[0])
    } else {
        let rest = min_indent(ls.drop_last());
        let last = leading_spaces(ls.last());
        if last < rest {
            last
        } else {
            rest
        }
    }
}

/// A fixture that yields a usable grid: some content line, something on the
/// first line past the indentation, and a cell count the machine can hold.
pub open spec fn fixture_ok(s: Seq<char>) -> bool {
    let ls = fixture_lines(s);
    &&& ls.len() >= 1
    &&& min_indent(ls) < ls[0].len()
    &&& ls[0].len() - min_indent(ls) <= (usize::MAX as int) / (ls.len() as int)
}

/// The tile a fixture line yields at column `x` after stripping `indent`
/// characters: `#` is a wall, anything else — including a missing character
/// on a short line — is floor.
pub open spec fn fixture_tile(l: Seq<char>, indent: int, x: int) -> Tile {
    if indent + x < l.len() && l[indent + x] == '#' {
        Tile::Wall
    } else {
        Tile::Floor
    }
}

/// A forward scan that stops at the first non-space counts the leading
/// spaces.
proof fn lemma_leading_spaces(l: Seq<char>, n: int)
    requires
        0 <= n <= l.len(),
        forall|i: int| 0 <= i < n ==> l[i] == ' ',
        n < l.len() ==> l[n] != ' ',
    ensures
        leading_spaces(l) == n,
    decreases l.len(),
{
    if l.len() == 0 || l[0] != ' ' {
    } else {
        assert(n >= 1);
        lemma_leading_spaces(l.drop_first(), n - 1);
    }
}

fn count_leading_spaces(l: &Vec<char>) -> (n: usize)
    ensures
        n <= l@.len(),
        forall|i: int| 0 <= i < n ==> l@[i] == ' ',
        n < l@.len() ==> l@[n as int] != ' ',
{
    let mut n: usize = 0;
    while n < l.len()
        invariant
            n <= l@.len(),
            forall|i: int| 0 <= i < n ==> l@[i] == ' ',
        decreases l@.len() - n,
    {
        if l[n] != ' ' {
            return n;
        }
        n = n + 1;
    }
    n
}

impl<D: Copy + Default> TileMap<D> {
    /// Parse a textual fixture: blank lines dropped, the common indentation
    /// of the content lines stripped, `#` a wall and any other character a
    /// floor; the first content line fixes the width and short lines pad
    /// with floor. The layout is pinned cell by cell; degenerate input falls
    /// back to a single-cell wall map.
    #[verifier::loop_isolation(false)]
    #[verifier::rlimit(100)]
    pub fn from_string(s: &str) -> (map: TileMap<D>)
        ensures
            map.inv(),
            map.starting_point is None,
            map.exit_point is None,
            !fixture_ok(s@) ==> map.width == 1 && map.height == 1 && map.tiles@.len() == 1
                && map.tiles@[0] == Tile::Wall,
            fixture_ok(s@) ==> map.width as int == fixture_lines(s@)[0].len() - min_indent(
                fixture_lines(s@),
            ) && map.height == fixture_lines(s@).len() && (forall|x: int, y: int|
                map.in_bounds(x, y) ==> #[trigger] map.tile_at(x, y) == fixture_tile(
                    fixture_lines(s@)[y],
                    min_indent(fixture_lines(s@)),
                    x,
                )),
    {
        // split into lines, keeping only those with a non-space character
        let mut kept: Vec<Vec<char>> = Vec::new();
        let mut cur: Vec<char> = Vec::new();
        let mut has_content = false;
        let n = s.unicode_len();
        let mut i: usize = 0;
        while i < n
            invariant
                i <= n,
                n == s@.len(),
                split_lines(s@.take(i as int)).len() >= 1,
                cur@ == split_lines(s@.take(i as int)).last(),
                has_content == !is_blank(cur@),
                kept@.len() == content_lines(split_lines(s@.take(i as int)).drop_last()).len(),
                forall|j: int|
                    0 <= j < kept@.len() ==> #[trigger] kept@[j]@ == content_lines(
                        split_lines(s@.take(i as int)).drop_last(),
                    )[j],
            decreases n - i,
        {
            let ghost pre = s@.take(i as int);
            let ghost all = split_lines(pre);
            let c = s.get_char(i);
            proof {
                assert(s@.take(i as int + 1) =~= pre.push(c));
                assert(pre.push(c).drop_last() =~= pre);
            }
            if c == '\n' {
                if has_content {
                    kept.push(cur);
                }
                cur = Vec::new();
                has_content = false;
                proof {
                    assert(split_lines(s@.take(i as int + 1)) =~= all.push(Seq::empty()));
                    assert(all.push(Seq::empty()).drop_last() =~= all);
                    assert(all.drop_last().push(all.last()) =~= all);
                    assert(is_blank(Seq::<char>::empty()));
                }
            } else {
                let ghost cur0 = cur@;
                if c != ' ' {
                    has_content = true;
                }
                cur.push(c);
                proof {
                    let all2 = split_lines(s@.take(i as int + 1));
                    assert(all2 =~= all.update(all.len() - 1, all.last().push(c)));
                    assert(all2.drop_last() =~= all.drop_last());
                    assert(all2.last() == cur0.push(c));
                    if c != ' ' {
                        assert(cur@[cur@.len() - 1] != ' ');
                        assert(!is_blank(cur@));
                    } else {
                        assert(is_blank(cur@) == is_blank(cur0)) by {
                            if is_blank(cur0) {
                                assert forall|j: int| 0 <= j < cur@.len() implies cur@[j]
                                    == ' ' by {
                                    if j < cur0.len() {
                                        assert(cur@[j] == cur0[j]);
                                    }
                                }
                            } else {
                                let j = choose|j: int| 0 <= j < cur0.len() && cur0[j] != ' ';
                                assert(cur@[j] != ' ');
                            }
                        }
                    }
                }
            }
            i = i + 1;
        }
        proof {
            assert(s@.take(n as int) =~= s@);
        }
        let ghost all = split_lines(s@);
        if has_content {
            kept.push(cur);
        }
        proof {
            assert(all.drop_last().push(all.last()) =~= all);
            assert(kept@.len() == fixture_lines(s@).len());
            assert(forall|j: int|
                0 <= j < kept@.len() ==> #[trigger] kept@[j]@ == fixture_lines(s@)[j]);
        }
        let ghost content = fixture_lines(s@);
        if kept.len() == 0 {
            return TileMap::new(1, 1);
        }
        // common leading indentation over the content lines
        let first = count_leading_spaces(&kept[0]);
        proof {
            lemma_leading_spaces(kept@[0]@, first as int);
            assert(content.take(1) =~= seq![content[0]]);
        }
        let mut indent = first;
        let mut k: usize = 1;
        while k < kept.len()
            invariant
                1 <= k <= kept@.len(),
                indent as int == min_indent(content.take(k as int)),
                indent <= kept@[0].len(),
            decreases kept@.len() - k,
        {
            let li = count_leading_spaces(&kept[k]);
            proof {
                lemma_leading_spaces(kept@[k as int]@, li as int);
                assert(content.take(k as int + 1).drop_last() =~= content.take(k as int));
                assert(content.take(k as int + 1).last() == content[k as int]);
            }
            if li < indent {
                indent = li;
            }
            k = k + 1;
        }
        proof {
            assert(content.take(content.len() as int) =~= content);
        }
        let first_len = kept[0].len();
        if indent >= first_len {
            // the first content line holds nothing past the indentation
            return TileMap::new(1, 1);
        }
        let width = first_len - indent;
        let height = kept.len();
        if width > usize::MAX / height {
            return TileMap::new(1, 1);
        }
        let ghost wi = width as int;
        let ghost hi = height as int;
        let mut tiles: Vec<Tile> = Vec::new();
        let mut y: usize = 0;
        while y < height
            invariant
                y <= height,
                height == kept@.len(),
                tiles@.len() == y * width,
                width >= 1,
                forall|a: int, b: int|
                    0 <= a < wi && 0 <= b < y ==> tiles@[row_major_idx(a, b, wi)]
                        == fixture_tile(content[b], indent as int, a),
            decreases height - y,
        {
            let mut x: usize = 0;
            while x < width
                invariant
                    y < height,
                    height == kept@.len(),
                    x <= width,
                    tiles@.len() == y * width + x,
                    forall|a: int, b: int|
                        0 <= a < wi && 0 <= b < y ==> tiles@[row_major_idx(a, b, wi)]
                            == fixture_tile(content[b], indent as int, a),
                    forall|a: int|
                        0 <= a < x ==> tiles@[row_major_idx(a, y as int, wi)] == fixture_tile(
                            content[y as int],
                            indent as int,
                            a,
                        ),
                decreases width - x,
            {
                let line = &kept[y];
                let mut t = Tile::Floor;
                if indent <= usize::MAX - x {
                    let pos = indent + x;
                    if pos < line.len() {
                        if line[pos] == '#' {
                            t = Tile::Wall;
                        }
                    }
                }
                tiles.push(t);
                proof {
                    assert(t == fixture_tile(content[y as int], indent as int, x as int));
                    assert forall|a: int, b: int| 0 <= a < wi && 0 <= b < y implies tiles@[
                        row_major_idx(a, b, wi)
                    ] == fixture_tile(content[b], indent as int, a) by {
                        crate::map::lemma_idx_bounds(a, b, wi, y as int);
                        assert(row_major_idx(a, b, wi) < y * wi) by (nonlinear_arith)
                            requires 0 <= a < wi && 0 <= b < y;
                    }
                }
                x = x + 1;
            }
            proof {
                assert((y + 1) * width == y * width + width) by (nonlinear_arith);
            }
            y = y + 1;
        }
        proof {
            assert((height as int) * (width as int) == (width as int) * (height as int))
                by (nonlinear_arith);
            assert((width as int) * (height as int) <= usize::MAX as int) by (nonlinear_arith)
                requires
                    width as int <= (usize::MAX as int) / (height as int),
                    height >= 1,
                    width >= 1;
        }
        let out = TileMap {
            width,
            height,
            tiles,
            starting_point: None,
            exit_point: None,
            data: D::default(),
        };
        proof {
            assert(fixture_ok(s@));
            assert forall|x: int, y: int| out.in_bounds(x, y) implies #[trigger] out.tile_at(x, y)
                == fixture_tile(content[y], indent as int, x) by {
                crate::map::lemma_idx_bounds(x, y, wi, hi);
            }
        }
        out
    }
}

impl<D> TileMap<D> {
    /// Render the map for printing: one glyph per cell, `#` for wall and `.`
    /// for floor, each row closed by a newline. The whole string is pinned,
    /// character by character.
    #[verifier::loop_isolation(false)]
    pub fn render(&self) -> (r: String)
        requires
            self.inv(),
            (self.width as int + 1) * (self.height as int) <= usize::MAX as int,
        ensures
            r@.len() == (self.width as int + 1) * (self.height as int),
            forall|x: int, y: int|
                self.in_bounds(x, y) ==> r@[y * (self.width as int + 1) + x] == glyph(
                    #[trigger] self.tile_at(x, y),
                ),
            forall|y: int| #![trigger y * (self.width as int + 1)]
                0 <= y < self.height ==> r@[y * (self.width as int + 1) + self.width as int]
                    == '\n',
    {
        let w = self.width;
        let h = self.height;
        let ghost wi = w as int;
        let ghost hi = h as int;
        proof {
            reveal_strlit("#");
            reveal_strlit(".");
            reveal_strlit("\n");
        }
        let mut r = String::new();
        let mut y: usize = 0;
        while y < h
            invariant
                y <= h,
                r@.len() == y * (wi + 1),
                forall|a: int, b: int|
                    self.in_bounds(a, b) && b < y ==> r@[b * (wi + 1) + a] == glyph(
                        #[trigger] self.tile_at(a, b),
                    ),
                forall|b: int| #![trigger b * (wi + 1)]
                    0 <= b < y ==> r@[b * (wi + 1) + wi] == '\n',
            decreases h - y,
        {
            let mut x: usize = 0;
            while x < w
                invariant
                    y < h,
                    x <= w,
                    r@.len() == y * (wi + 1) + x,
                    forall|a: int, b: int|
                        self.in_bounds(a, b) && b < y ==> r@[b * (wi + 1) + a] == glyph(
                            #[trigger] self.tile_at(a, b),
                        ),
                    forall|b: int| #![trigger b * (wi + 1)]
                        0 <= b < y ==> r@[b * (wi + 1) + wi] == '\n',
                    forall|a: int|
                        0 <= a < x ==> r@[y * (wi + 1) + a] == glyph(
                            #[trigger] self.tile_at(a, y as int),
                        ),
                decreases w - x,
            {
                let t = self.get_tile(x, y);
                if t.is_walkable() {
                    r.append(".");
                } else {
                    r.append("#");
                }
                proof {
                    assert forall|a: int, b: int|
                        self.in_bounds(a, b) && b < y as int implies r@[b * (wi + 1) + a] == glyph(
                        #[trigger] self.tile_at(a, b),
                    ) by {
                        crate::map::lemma_idx_bounds(a, b, wi + 1, y as int);
                    }
                    assert forall|b: int| #![trigger b * (wi + 1)]
                        0 <= b < y as int implies r@[b * (wi + 1) + wi] == '\n' by {
                        crate::map::lemma_idx_bounds(wi, b, wi + 1, y as int);
                    }
                }
                x = x + 1;
            }
            r.append("\n");
            proof {
                assert((y as int + 1) * (wi + 1) == y as int * (wi + 1) + wi + 1)
                    by (nonlinear_arith);
                assert forall|a: int, b: int|
                    self.in_bounds(a, b) && b < y as int + 1 implies r@[b * (wi + 1) + a] == glyph(
                    #[trigger] self.tile_at(a, b),
                ) by {
                    crate::map::lemma_idx_bounds(a, b, wi + 1, y as int + 1);
                    if b == y as int {
                        assert(r@[y as int * (wi + 1) + a] == glyph(self.tile_at(a, y as int)));
                    } else {
                        assert(b < y as int);
                        crate::map::lemma_idx_bounds(a, b, wi + 1, y as int);
                        assert(b * (wi + 1) + a < y as int * (wi + 1));
                        assert(r@[b * (wi + 1) + a] == glyph(self.tile_at(a, b)));
                    }
                }
                assert forall|b: int| #![trigger b * (wi + 1)]
                    0 <= b < y as int + 1 implies r@[b * (wi + 1) + wi] == '\n' by {
                    crate::map::lemma_idx_bounds(wi, b, wi + 1, y as int + 1);
                }
            }
            y = y + 1;
        }
        proof {
            assert(r@.len() == (wi + 1) * hi) by (nonlinear_arith)
                requires r@.len() == hi * (wi + 1);
        }
        r
    }
}

} // verus!
