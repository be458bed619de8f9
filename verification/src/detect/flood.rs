use vstd::prelude::*;
use crate::raster::{raster_index, lemma_raster_index_bounds, lemma_raster_index_inverse};

verus! {

/// Which pixels of a `w` by `h` raster a flood fill may enter, row-major.
#[derive(Debug, Clone)]
pub struct PixelMask {
    pub w: u32,
    pub h: u32,
    pub cells: Vec<bool>,
}

/// A grid position as mathematical integers.
pub open spec fn cell(q: (i32, i32)) -> (int, int) {
    (q.0 as int, q.1 as int)
}

/// Two positions that share a side (4-neighbourhood).
pub open spec fn adjacent(a: (int, int), b: (int, int)) -> bool {
    ||| a.0 == b.0 && a.1 == b.1 + 1
    ||| a.0 == b.0 && a.1 + 1 == b.1
    ||| a.1 == b.1 && a.0 == b.0 + 1
    ||| a.1 == b.1 && a.0 + 1 == b.0
}

/// `(x, y)` appears in the list of positions `s`.
pub open spec fn listed(s: Seq<(i32, i32)>, x: int, y: int) -> bool {
    exists|k: int| 0 <= k < s.len() && #[trigger] cell(s[k]) == (x, y)
}

/// Some position of `s` is adjacent to `(x, y)`.
pub open spec fn touches(s: Seq<(i32, i32)>, x: int, y: int) -> bool {
    exists|k: int| 0 <= k < s.len() && adjacent(#[trigger] cell(s[k]), (x, y))
}

/// No position occurs twice in `s`.
pub open spec fn distinct_cells(s: Seq<(i32, i32)>) -> bool {
    forall|i: int, j: int| 0 <= i < j < s.len() ==> s[i] != s[j]
}

impl PixelMask {
    /// The buffer holds `w * h` cells and both sides fit signed 32-bit coordinates.
    pub open spec fn wf(&self) -> bool {
        &&& self.cells@.len() == self.w * self.h
        &&& self.w <= i32::MAX
        &&& self.h <= i32::MAX
    }

    /// `(x, y)` lies in the raster, is accepted, and is not marked in `seen`.
    pub open spec fn open_cell(&self, seen: Seq<bool>, x: int, y: int) -> bool {
        &&& 0 <= x < self.w
        &&& 0 <= y < self.h
        &&& self.cells@[raster_index(self.w as int, x, y)]
        &&& !seen[raster_index(self.w as int, x, y)]
    }

    /// `p` is a walk of side-by-side steps through open cells.
    pub open spec fn open_path(&self, seen: Seq<bool>, p: Seq<(int, int)>) -> bool {
        &&& p.len() >= 1
        &&& forall|i: int| 0 <= i < p.len() ==> #[trigger] self.open_cell(seen, p[i].0, p[i].1)
        &&& forall|i: int| 0 <= i < p.len() - 1 ==> adjacent(#[trigger] p[i], p[i + 1])
    }

    /// `(x, y)` belongs to the 4-connected region of open cells that contains
    /// `(sx, sy)`.
    pub open spec fn connected(&self, seen: Seq<bool>, sx: int, sy: int, x: int, y: int) -> bool {
        exists|p: Seq<(int, int)>| #[trigger] self.open_path(seen, p) && p[0] == (sx, sy) && p.last() == (x, y)
    }

    /// Every open neighbour of a listed position is listed in `done` or in `todo`.
    pub open spec fn frontier_covered(&self, seen: Seq<bool>, done: Seq<(i32, i32)>, todo: Seq<(i32, i32)>) -> bool {
        forall|j: int, x: int, y: int|
            0 <= j < done.len() && adjacent(#[trigger] cell(done[j]), (x, y)) && #[trigger] self.open_cell(seen, x, y)
                ==> listed(done, x, y) || listed(todo, x, y)
    }
}

/// A path that reaches an open neighbour of its end still is a path.
pub proof fn lemma_connected_step(mask: PixelMask, seen: Seq<bool>, sx: int, sy: int, a: (int, int), b: (int, int))
    requires
        mask.connected(seen, sx, sy, a.0, a.1),
        adjacent(a, b),
        mask.open_cell(seen, b.0, b.1),
    ensures
        mask.connected(seen, sx, sy, b.0, b.1),
{
    let p = choose|p: Seq<(int, int)>| #[trigger] mask.open_path(seen, p) && p[0] == (sx, sy) && p.last() == (a.0, a.1);
    let q = p.push(b);
    assert forall|i: int| 0 <= i < q.len() implies #[trigger] mask.open_cell(seen, q[i].0, q[i].1) by {
        if i < p.len() {
            assert(q[i] == p[i]);
        }
    }
    assert forall|i: int| 0 <= i < q.len() - 1 implies adjacent(#[trigger] q[i], q[i + 1]) by {
        if i < p.len() - 1 {
            assert(q[i] == p[i] && q[i + 1] == p[i + 1]);
        } else {
            assert(q[i] == a && q[i + 1] == b);
        }
    }
    assert(mask.open_path(seen, q));
    assert(q[0] == (sx, sy));
}

/// Once the frontier is empty, the listed cells contain every cell that a
/// path from the start reaches.
proof fn lemma_path_listed(mask: PixelMask, seen: Seq<bool>, done: Seq<(i32, i32)>, p: Seq<(int, int)>, i: int)
    requires
        mask.frontier_covered(seen, done, Seq::empty()),
        mask.open_path(seen, p),
        listed(done, p[0].0, p[0].1),
        0 <= i < p.len(),
    ensures
        listed(done, p[i].0, p[i].1),
    decreases i,
{
    if i > 0 {
        lemma_path_listed(mask, seen, done, p, i - 1);
        let k = choose|k: int| 0 <= k < done.len() && #[trigger] cell(done[k]) == (p[i - 1].0, p[i - 1].1);
        assert(adjacent(p[i - 1], p[i]));
        assert(mask.open_cell(seen, p[i].0, p[i].1));
        assert(adjacent(cell(done[k]), (p[i].0, p[i].1)));
        assert(!listed(Seq::<(i32, i32)>::empty(), p[i].0, p[i].1));
    }
}

/// Distinct positions inside a `w` by `h` raster number at most `w * h`.
proof fn lemma_distinct_cells_fit(w: int, h: int, s: Seq<(i32, i32)>)
    requires
        0 < w,
        0 <= h,
        distinct_cells(s),
        forall|k: int| 0 <= k < s.len() ==> 0 <= #[trigger] s[k].0 < w && 0 <= s[k].1 < h,
    ensures
        s.len() <= w * h,
{
    let idx = s.map_values(|q: (i32, i32)| raster_index(w, q.0 as int, q.1 as int));
    assert forall|i: int, j: int| 0 <= i < j < idx.len() implies idx[i] != idx[j] by {
        lemma_raster_index_inverse(w, s[i].0 as int, s[i].1 as int);
        lemma_raster_index_inverse(w, s[j].0 as int, s[j].1 as int);
        assert(s[i] != s[j]);
    }
    assert(idx.no_duplicates());
    idx.unique_seq_to_set();
    let range = vstd::set_lib::set_int_range(0, w * h);
    assert forall|v: int| idx.to_set().contains(v) implies range.contains(v) by {
        let k = choose|k: int| 0 <= k < idx.len() && idx[k] == v;
        lemma_raster_index_bounds(w, h, s[k].0 as int, s[k].1 as int);
    }
    vstd::set_lib::lemma_int_range(0, w * h);
    vstd::set_lib::lemma_len_subset(idx.to_set(), range);
}

/// Flood fill from `(start_x, start_y)` over the open cells of `mask` (those
/// accepted and not yet marked in `visited`), moving between side-by-side
/// cells. Returns the cells it entered, each once, and marks them visited.
pub fn flood_component(mask: &PixelMask, visited: &mut Vec<bool>, start_x: i32, start_y: i32) -> (pixels: Vec<(i32, i32)>)
    requires
        mask.wf(),
        old(visited)@.len() == mask.cells@.len(),
    ensures
        final(visited)@.len() == old(visited)@.len(),
        distinct_cells(pixels@),
        pixels@.len() > 0 ==> cell(pixels@[0]) == (start_x as int, start_y as int),
        forall|x: int, y: int|
            #[trigger] listed(pixels@, x, y) <==> (mask.open_cell(old(visited)@, x, y)
                && mask.connected(old(visited)@, start_x as int, start_y as int, x, y)),
        forall|x: int, y: int| 0 <= x < mask.w && 0 <= y < mask.h ==>
            #[trigger] final(visited)@[raster_index(mask.w as int, x, y)]
                == (old(visited)@[raster_index(mask.w as int, x, y)] || listed(pixels@, x, y)),
{
    let ghost seen = visited@;
    let ghost sx = start_x as int;
    let ghost sy = start_y as int;
    let ghost area = (mask.w * mask.h) as int;
    let mut pixels: Vec<(i32, i32)> = Vec::new();
    let mut stack: Vec<(i32, i32)> = Vec::new();
    stack.push((start_x, start_y));
    proof {
        assert(cell(stack@[0]) == (sx, sy));
        assert(mask.frontier_covered(seen, pixels@, stack@));
    }
    while stack.len() > 0
        invariant
            mask.wf(),
            area == mask.w * mask.h,
            seen.len() == mask.cells@.len(),
            visited@.len() == seen.len(),
            forall|x: int, y: int| 0 <= x < mask.w && 0 <= y < mask.h ==>
                #[trigger] visited@[raster_index(mask.w as int, x, y)]
                    == (seen[raster_index(mask.w as int, x, y)] || listed(pixels@, x, y)),
            distinct_cells(pixels@),
            forall|k: int| 0 <= k < pixels@.len() ==>
                #[trigger] mask.open_cell(seen, pixels@[k].0 as int, pixels@[k].1 as int)
                    && mask.connected(seen, sx, sy, pixels@[k].0 as int, pixels@[k].1 as int),
            forall|k: int| 0 <= k < stack@.len() ==>
                #[trigger] cell(stack@[k]) == (sx, sy) || touches(pixels@, stack@[k].0 as int, stack@[k].1 as int),
            mask.frontier_covered(seen, pixels@, stack@),
            mask.open_cell(seen, sx, sy) ==> listed(pixels@, sx, sy) || listed(stack@, sx, sy),
            pixels@.len() <= area,
            pixels@.len() > 0 ==> cell(pixels@[0]) == (sx, sy),
            pixels@.len() == 0 ==> stack@.len() <= 1 && (stack@.len() == 1 ==> cell(stack@[0]) == (sx, sy)),
        decreases 4 * (area - pixels@.len()) + stack@.len(),
    {
        let ghost old_stack = stack@;
        let ghost old_pixels = pixels@;
        let ghost old_visited = visited@;
        let top = stack.pop();
        let (x, y) = match top {
            Some(q) => q,
            None => (0, 0),
        };
        proof {
            assert(stack@ == old_stack.drop_last());
            assert(old_stack.last() == (x, y));
            assert(cell(old_stack[old_stack.len() - 1]) == (x as int, y as int));
            // Every position still waiting, except the one taken, stays waiting.
            assert forall|a: int, b: int| #[trigger] listed(old_stack, a, b) && (a, b) != (x as int, y as int)
                implies listed(stack@, a, b) by {
                let k = choose|k: int| 0 <= k < old_stack.len() && #[trigger] cell(old_stack[k]) == (a, b);
                assert(k < old_stack.len() - 1);
                assert(cell(stack@[k]) == (a, b));
            }
        }
        if x < 0 || y < 0 || x >= mask.w as i32 || y >= mask.h as i32 {
            proof {
                assert(!mask.open_cell(seen, x as int, y as int));
                assert forall|j: int, a: int, b: int|
                    0 <= j < pixels@.len() && adjacent(#[trigger] cell(pixels@[j]), (a, b)) && #[trigger] mask.open_cell(seen, a, b)
                    implies listed(pixels@, a, b) || listed(stack@, a, b) by {
                    assert(listed(pixels@, a, b) || listed(old_stack, a, b));
                }
                assert forall|k: int| 0 <= k < stack@.len() implies
                    #[trigger] cell(stack@[k]) == (sx, sy) || touches(pixels@, stack@[k].0 as int, stack@[k].1 as int) by {
                    assert(stack@[k] == old_stack[k]);
                }
            }
            continue;
        }
        let w = mask.w as usize;
        let cell_count = mask.cells.len();
        proof {
            lemma_raster_index_bounds(mask.w as int, mask.h as int, x as int, y as int);
            assert(cell_count == mask.w * mask.h);
        }
        let idx: usize = (y as usize) * w + (x as usize);
        assert(idx == raster_index(mask.w as int, x as int, y as int));
        if visited[idx] || !mask.cells[idx] {
            proof {
                assert(!mask.open_cell(seen, x as int, y as int) || listed(pixels@, x as int, y as int));
                assert forall|j: int, a: int, b: int|
                    0 <= j < pixels@.len() && adjacent(#[trigger] cell(pixels@[j]), (a, b)) && #[trigger] mask.open_cell(seen, a, b)
                    implies listed(pixels@, a, b) || listed(stack@, a, b) by {
                    assert(listed(pixels@, a, b) || listed(old_stack, a, b));
                }
                assert forall|k: int| 0 <= k < stack@.len() implies
                    #[trigger] cell(stack@[k]) == (sx, sy) || touches(pixels@, stack@[k].0 as int, stack@[k].1 as int) by {
                    assert(stack@[k] == old_stack[k]);
                }
            }
            continue;
        }
        proof {
            assert(mask.open_cell(seen, x as int, y as int));
            assert(!listed(pixels@, x as int, y as int));
            // The cell is reached from the start: either it is the start or
            // it touches a cell already reached.
            let k0 = old_stack.len() - 1;
            assert(cell(old_stack[k0]) == (sx, sy) || touches(old_pixels, x as int, y as int));
            if cell(old_stack[k0]) == (sx, sy) {
                let p = seq![(sx, sy)];
                assert(mask.open_path(seen, p));
                assert(mask.connected(seen, sx, sy, x as int, y as int));
            } else {
                let j = choose|j: int| 0 <= j < old_pixels.len() && adjacent(#[trigger] cell(old_pixels[j]), (x as int, y as int));
                assert(mask.open_cell(seen, old_pixels[j].0 as int, old_pixels[j].1 as int));
                lemma_connected_step(*mask, seen, sx, sy, cell(old_pixels[j]), (x as int, y as int));
            }
        }
        visited.set(idx, true);
        pixels.push((x, y));
        stack.push((x - 1, y));
        stack.push((x + 1, y));
        stack.push((x, y - 1));
        stack.push((x, y + 1));
        proof {
            let n = old_pixels.len();
            let m = old_stack.len() - 1;
            assert(pixels@ == old_pixels.push((x, y)));
            if n == 0 {
                assert(cell(old_stack[0]) == (sx, sy));
                assert(cell(pixels@[0]) == (sx, sy));
            } else {
                assert(pixels@[0] == old_pixels[0]);
            }
            assert(cell(pixels@[n as int]) == (x as int, y as int));
            assert(listed(pixels@, x as int, y as int));
            assert forall|a: int, b: int| #[trigger] listed(old_pixels, a, b) implies listed(pixels@, a, b) by {
                let k = choose|k: int| 0 <= k < old_pixels.len() && #[trigger] cell(old_pixels[k]) == (a, b);
                assert(cell(pixels@[k]) == (a, b));
            }
            assert forall|a: int, b: int| #[trigger] listed(pixels@, a, b) implies
                listed(old_pixels, a, b) || (a, b) == (x as int, y as int) by {
                let k = choose|k: int| 0 <= k < pixels@.len() && #[trigger] cell(pixels@[k]) == (a, b);
                if k < n {
                    assert(cell(old_pixels[k]) == (a, b));
                }
            }
            assert(cell(stack@[m]) == (x as int - 1, y as int));
            assert(cell(stack@[m + 1]) == (x as int + 1, y as int));
            assert(cell(stack@[m + 2]) == (x as int, y as int - 1));
            assert(cell(stack@[m + 3]) == (x as int, y as int + 1));
            assert forall|a: int, b: int| #[trigger] listed(old_stack, a, b) && (a, b) != (x as int, y as int)
                implies listed(stack@, a, b) by {
                let k = choose|k: int| 0 <= k < old_stack.len() && #[trigger] cell(old_stack[k]) == (a, b);
                assert(k < m);
                assert(cell(stack@[k]) == (a, b));
            }
            // The visited marks follow the new list.
            assert forall|a: int, b: int| 0 <= a < mask.w && 0 <= b < mask.h implies
                #[trigger] visited@[raster_index(mask.w as int, a, b)]
                    == (seen[raster_index(mask.w as int, a, b)] || listed(pixels@, a, b)) by {
                lemma_raster_index_inverse(mask.w as int, a, b);
                lemma_raster_index_inverse(mask.w as int, x as int, y as int);
                lemma_raster_index_bounds(mask.w as int, mask.h as int, a, b);
                assert(old_visited[raster_index(mask.w as int, a, b)]
                    == (seen[raster_index(mask.w as int, a, b)] || listed(old_pixels, a, b)));
                if (a, b) != (x as int, y as int) {
                    assert(raster_index(mask.w as int, a, b) != raster_index(mask.w as int, x as int, y as int));
                    assert(visited@[raster_index(mask.w as int, a, b)] == old_visited[raster_index(mask.w as int, a, b)]);
                }
            }
            assert forall|i: int, j: int| 0 <= i < j < pixels@.len() implies pixels@[i] != pixels@[j] by {
                if j == n {
                    assert(cell(old_pixels[i]) != (x as int, y as int) || !listed(old_pixels, x as int, y as int));
                    if pixels@[i] == pixels@[j] {
                        assert(cell(old_pixels[i]) == (x as int, y as int));
                    }
                }
            }
            assert forall|k: int| 0 <= k < pixels@.len() implies
                #[trigger] mask.open_cell(seen, pixels@[k].0 as int, pixels@[k].1 as int)
                    && mask.connected(seen, sx, sy, pixels@[k].0 as int, pixels@[k].1 as int) by {
                if k < n {
                    assert(pixels@[k] == old_pixels[k]);
                }
            }
            assert forall|k: int| 0 <= k < stack@.len() implies
                #[trigger] cell(stack@[k]) == (sx, sy) || touches(pixels@, stack@[k].0 as int, stack@[k].1 as int) by {
                if k < m {
                    assert(stack@[k] == old_stack[k]);
                    if touches(old_pixels, stack@[k].0 as int, stack@[k].1 as int) {
                        let j = choose|j: int| 0 <= j < old_pixels.len() && adjacent(#[trigger] cell(old_pixels[j]), (stack@[k].0 as int, stack@[k].1 as int));
                        assert(cell(pixels@[j]) == cell(old_pixels[j]));
                    }
                } else {
                    assert(adjacent(cell(pixels@[n as int]), cell(stack@[k])));
                }
            }
            assert forall|j: int, a: int, b: int|
                0 <= j < pixels@.len() && adjacent(#[trigger] cell(pixels@[j]), (a, b)) && #[trigger] mask.open_cell(seen, a, b)
                implies listed(pixels@, a, b) || listed(stack@, a, b) by {
                if j < n {
                    assert(cell(old_pixels[j]) == cell(pixels@[j]));
                    assert(listed(old_pixels, a, b) || listed(old_stack, a, b));
                } else {
                    assert(cell(pixels@[j]) == (x as int, y as int));
                    if a == x as int - 1 {
                        assert(cell(stack@[m]) == (a, b));
                    } else if a == x as int + 1 {
                        assert(cell(stack@[m + 1]) == (a, b));
                    } else if b == y as int - 1 {
                        assert(cell(stack@[m + 2]) == (a, b));
                    } else {
                        assert(cell(stack@[m + 3]) == (a, b));
                    }
                }
            }
            assert forall|k: int| 0 <= k < pixels@.len() implies
                0 <= #[trigger] pixels@[k].0 < mask.w && 0 <= pixels@[k].1 < mask.h by {
                assert(mask.open_cell(seen, pixels@[k].0 as int, pixels@[k].1 as int));
            }
            lemma_distinct_cells_fit(mask.w as int, mask.h as int, pixels@);
            assert(area == mask.w * mask.h);
        }
    }
    proof {
        assert(stack@ =~= Seq::<(i32, i32)>::empty());
        assert forall|x: int, y: int| #[trigger] listed(pixels@, x, y) <==> (mask.open_cell(seen, x, y)
            && mask.connected(seen, sx, sy, x, y)) by {
            if listed(pixels@, x, y) {
                let k = choose|k: int| 0 <= k < pixels@.len() && #[trigger] cell(pixels@[k]) == (x, y);
                assert(mask.open_cell(seen, pixels@[k].0 as int, pixels@[k].1 as int));
            }
            if mask.open_cell(seen, x, y) && mask.connected(seen, sx, sy, x, y) {
                let p = choose|p: Seq<(int, int)>| #[trigger] mask.open_path(seen, p) && p[0] == (sx, sy) && p.last() == (x, y);
                assert(mask.open_cell(seen, p[0].0, p[0].1));
                assert(!listed(Seq::<(i32, i32)>::empty(), sx, sy));
                lemma_path_listed(*mask, seen, pixels@, p, p.len() - 1);
            }
        }
    }
    pixels
}

/// Size, coordinate sums and bounding box of a set of pixels.
#[derive(Debug, Clone, Copy, PartialEq, Eq)]
pub struct ComponentStats {
    pub area: u32,
    pub sum_x: u64,
    pub sum_y: u64,
    pub min_x: i32,
    pub max_x: i32,
    pub min_y: i32,
    pub max_y: i32,
}

/// Sum of the first coordinates of `s`.
pub open spec fn sum_x(s: Seq<(i32, i32)>) -> int
    decreases s.len(),
{
    if s.len() == 0 { 0 } else { sum_x(s.drop_last()) + s.last().0 }
}

/// Sum of the second coordinates of `s`.
pub open spec fn sum_y(s: Seq<(i32, i32)>) -> int
    decreases s.len(),
{
    if s.len() == 0 { 0 } else { sum_y(s.drop_last()) + s.last().1 }
}

/// Smallest first coordinate of a non-empty `s`.
pub open spec fn min_x(s: Seq<(i32, i32)>) -> i32
    decreases s.len(),
{
    if s.len() <= 1 { s[0].0 } else if s.last().0 < min_x(s.drop_last()) { s.last().0 } else { min_x(s.drop_last()) }
}

/// Largest first coordinate of a non-empty `s`.
pub open spec fn max_x(s: Seq<(i32, i32)>) -> i32
    decreases s.len(),
{
    if s.len() <= 1 { s[0].0 } else if s.last().0 > max_x(s.drop_last()) { s.last().0 } else { max_x(s.drop_last()) }
}

/// Smallest second coordinate of a non-empty `s`.
pub open spec fn min_y(s: Seq<(i32, i32)>) -> i32
    decreases s.len(),
{
    if s.len() <= 1 { s[0].1 } else if s.last().1 < min_y(s.drop_last()) { s.last().1 } else { min_y(s.drop_last()) }
}

/// Largest second coordinate of a non-empty `s`.
pub open spec fn max_y(s: Seq<(i32, i32)>) -> i32
    decreases s.len(),
{
    if s.len() <= 1 { s[0].1 } else if s.last().1 > max_y(s.drop_last()) { s.last().1 } else { max_y(s.drop_last()) }
}

/// Coordinate sums of positions inside the first quadrant grow by at most
/// `i32::MAX` per position.
proof fn lemma_sums_bounded(s: Seq<(i32, i32)>)
    requires
        forall|k: int| 0 <= k < s.len() ==> 0 <= #[trigger] s[k].0 && 0 <= s[k].1,
    ensures
        0 <= sum_x(s) <= s.len() * 0x7fff_ffff,
        0 <= sum_y(s) <= s.len() * 0x7fff_ffff,
    decreases s.len(),
{
    if s.len() > 0 {
        let t = s.drop_last();
        assert forall|k: int| 0 <= k < t.len() implies 0 <= #[trigger] t[k].0 && 0 <= t[k].1 by {
            assert(t[k] == s[k]);
        }
        lemma_sums_bounded(t);
        assert(0 <= s[s.len() - 1].0);
    }
}

/// Area, coordinate sums and bounding box of a component's pixels, or `None`
/// for an empty one.
pub fn component_stats(pixels: &Vec<(i32, i32)>) -> (r: Option<ComponentStats>)
    requires
        pixels@.len() <= u32::MAX,
        forall|k: int| 0 <= k < pixels@.len() ==> 0 <= #[trigger] pixels@[k].0 && 0 <= pixels@[k].1,
    ensures
        pixels@.len() == 0 ==> r is None,
        pixels@.len() > 0 ==> r == Some(ComponentStats {
            area: pixels@.len() as u32,
            sum_x: sum_x(pixels@) as u64,
            sum_y: sum_y(pixels@) as u64,
            min_x: min_x(pixels@),
            max_x: max_x(pixels@),
            min_y: min_y(pixels@),
            max_y: max_y(pixels@),
        }),
{
    let n = pixels.len();
    if n == 0 {
        return None;
    }
    let first = pixels[0];
    let mut stats = ComponentStats {
        area: 1, sum_x: first.0 as u64, sum_y: first.1 as u64,
        min_x: first.0, max_x: first.0, min_y: first.1, max_y: first.1,
    };
    proof {
        let one = pixels@.subrange(0, 1);
        assert(one.drop_last() =~= Seq::<(i32, i32)>::empty());
        assert(one.last() == first);
        assert(sum_x(one.drop_last()) == 0);
        assert(sum_y(one.drop_last()) == 0);
        assert(sum_x(one) == first.0);
        assert(sum_y(one) == first.1);
    }
    let mut i: usize = 1;
    while i < n
        invariant
            n == pixels@.len(),
            n <= u32::MAX,
            forall|k: int| 0 <= k < pixels@.len() ==> 0 <= #[trigger] pixels@[k].0 && 0 <= pixels@[k].1,
            1 <= i <= n,
            stats.area == i,
            stats.sum_x == sum_x(pixels@.subrange(0, i as int)),
            stats.sum_y == sum_y(pixels@.subrange(0, i as int)),
            stats.min_x == min_x(pixels@.subrange(0, i as int)),
            stats.max_x == max_x(pixels@.subrange(0, i as int)),
            stats.min_y == min_y(pixels@.subrange(0, i as int)),
            stats.max_y == max_y(pixels@.subrange(0, i as int)),
        decreases n - i,
    {
        let q = pixels[i];
        let ghost pre = pixels@.subrange(0, i as int);
        let ghost next = pixels@.subrange(0, i as int + 1);
        proof {
            assert(next.drop_last() =~= pre);
            assert(next.last() == q);
            assert forall|k: int| 0 <= k < next.len() implies 0 <= #[trigger] next[k].0 && 0 <= next[k].1 by {
                assert(next[k] == pixels@[k]);
            }
            lemma_sums_bounded(next);
            assert(next.len() * 0x7fff_ffff <= 0xffff_ffff * 0x7fff_ffff) by (nonlinear_arith)
                requires next.len() <= 0xffff_ffff;
        }
        stats.area = stats.area + 1;
        stats.sum_x = stats.sum_x + q.0 as u64;
        stats.sum_y = stats.sum_y + q.1 as u64;
        if q.0 < stats.min_x { stats.min_x = q.0; }
        if q.0 > stats.max_x { stats.max_x = q.0; }
        if q.1 < stats.min_y { stats.min_y = q.1; }
        if q.1 > stats.max_y { stats.max_y = q.1; }
        i = i + 1;
    }
    assert(pixels@.subrange(0, n as int) =~= pixels@);
    Some(stats)
}

} // verus!
