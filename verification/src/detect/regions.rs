use vstd::prelude::*;
use crate::raster::{raster_index, lemma_raster_index_bounds, lemma_raster_index_inverse, lemma_next_row};
use crate::pipeline::preprocess::BinaryImage;
use crate::detect::flood::{PixelMask, cell, adjacent, listed, distinct_cells, flood_component, lemma_connected_step};

verus! {

/// No cell marked: the state before any component has been taken.
pub open spec fn unmarked(n: int) -> Seq<bool> {
    Seq::new(n as nat, |i: int| false)
}

impl PixelMask {
    /// `(x, y)` is accepted and lies in the 4-connected region of accepted
    /// cells that contains `s`.
    pub open spec fn region(&self, s: (int, int), x: int, y: int) -> bool {
        &&& self.open_cell(unmarked(self.cells@.len() as int), x, y)
        &&& self.connected(unmarked(self.cells@.len() as int), s.0, s.1, x, y)
    }
}

/// `(x, y)` is listed in one of the components `comps`.
pub open spec fn covered(comps: Seq<Seq<(i32, i32)>>, x: int, y: int) -> bool {
    exists|c: int| 0 <= c < comps.len() && #[trigger] listed(comps[c], x, y)
}

/// The position `comps[c]` grew from: its first cell.
pub open spec fn seed(comps: Seq<Seq<(i32, i32)>>, c: int) -> (int, int) {
    cell(comps[c][0])
}

/// Each component is non-empty, lists its cells once, and lists exactly the
/// region of its seed.
pub open spec fn components_are_regions(mask: PixelMask, comps: Seq<Seq<(i32, i32)>>) -> bool {
    forall|c: int| 0 <= c < comps.len() ==> {
        &&& (#[trigger] comps[c]).len() > 0
        &&& distinct_cells(comps[c])
        &&& forall|x: int, y: int| #[trigger] listed(comps[c], x, y) <==> mask.region(seed(comps, c), x, y)
    }
}

/// No cell is listed by two different components.
pub open spec fn pairwise_disjoint(comps: Seq<Seq<(i32, i32)>>) -> bool {
    forall|c: int, d: int, x: int, y: int| 0 <= c < d < comps.len()
        ==> !(#[trigger] listed(comps[c], x, y) && #[trigger] listed(comps[d], x, y))
}

/// Each component's seed comes first in raster order among its cells.
pub open spec fn seeds_first(w: int, comps: Seq<Seq<(i32, i32)>>) -> bool {
    forall|c: int, x: int, y: int| 0 <= c < comps.len() && #[trigger] listed(comps[c], x, y)
        ==> raster_index(w, seed(comps, c).0, seed(comps, c).1) <= raster_index(w, x, y)
}

/// Raster order compares rows first, then columns.
proof fn lemma_raster_order(w: int, a: int, b: int, x: int, y: int)
    requires
        0 <= a < w,
        0 <= x < w,
        0 <= b,
        0 <= y,
        raster_index(w, a, b) < raster_index(w, x, y),
    ensures
        b < y || (b == y && a < x),
{
    lemma_raster_index_inverse(w, a, b);
    lemma_raster_index_inverse(w, x, y);
    vstd::arithmetic::div_mod::lemma_div_is_ordered(raster_index(w, a, b), raster_index(w, x, y), w);
}

/// The view of a list of components.
pub open spec fn components_view(v: Seq<Vec<(i32, i32)>>) -> Seq<Seq<(i32, i32)>> {
    Seq::new(v.len(), |c: int| v[c]@)
}

/// The mask of the black pixels of a binary image.
pub fn binary_black_mask(bin: &BinaryImage) -> (mask: PixelMask)
    requires
        bin.wf(),
    ensures
        mask.wf(),
        mask.w == bin.w,
        mask.h == bin.h,
        forall|i: int| 0 <= i < mask.cells@.len() ==> #[trigger] mask.cells@[i] == (bin.data@[i] < 128),
{
    let n = bin.data.len();
    let mut cells: Vec<bool> = Vec::new();
    let mut i: usize = 0;
    while i < n
        invariant
            n == bin.data@.len(),
            i <= n,
            cells@.len() == i,
            forall|k: int| 0 <= k < i ==> #[trigger] cells@[k] == (bin.data@[k] < 128),
        decreases n - i,
    {
        cells.push(bin.data[i] < 128);
        i = i + 1;
    }
    PixelMask { w: bin.w, h: bin.h, cells }
}

/// A path through open cells stays open when fewer cells are marked.
proof fn lemma_path_unmarked(mask: PixelMask, seen: Seq<bool>, p: Seq<(int, int)>)
    requires
        mask.wf(),
        seen.len() == mask.cells@.len(),
        mask.open_path(seen, p),
    ensures
        mask.open_path(unmarked(mask.cells@.len() as int), p),
{
    let none = unmarked(mask.cells@.len() as int);
    assert forall|i: int| 0 <= i < p.len() implies #[trigger] mask.open_cell(none, p[i].0, p[i].1) by {
        assert(mask.open_cell(seen, p[i].0, p[i].1));
        lemma_raster_index_bounds(mask.w as int, mask.h as int, p[i].0, p[i].1);
    }
}

/// A region walk that starts outside every component never enters one:
/// components are closed under stepping to an accepted neighbour.
proof fn lemma_walk_uncovered(mask: PixelMask, comps: Seq<Seq<(i32, i32)>>, p: Seq<(int, int)>, i: int)
    requires
        mask.wf(),
        components_are_regions(mask, comps),
        mask.open_path(unmarked(mask.cells@.len() as int), p),
        !covered(comps, p[0].0, p[0].1),
        0 <= i < p.len(),
    ensures
        !covered(comps, p[i].0, p[i].1),
    decreases i,
{
    if i > 0 {
        lemma_walk_uncovered(mask, comps, p, i - 1);
        if covered(comps, p[i].0, p[i].1) {
            let none = unmarked(mask.cells@.len() as int);
            let c = choose|c: int| 0 <= c < comps.len() && #[trigger] listed(comps[c], p[i].0, p[i].1);
            assert(mask.region(seed(comps, c), p[i].0, p[i].1));
            assert(adjacent(p[i - 1], p[i]));
            assert(adjacent(p[i], p[i - 1]));
            assert(mask.open_cell(none, p[i - 1].0, p[i - 1].1));
            lemma_connected_step(mask, none, seed(comps, c).0, seed(comps, c).1, p[i], p[i - 1]);
            assert(listed(comps[c], p[i - 1].0, p[i - 1].1));
        }
    }
}

/// Splits the accepted cells of `mask` into 4-connected regions, listed in
/// the raster order (row by row, left to right) of their first cell; each
/// region lists its first cell first.
pub fn label_components(mask: &PixelMask) -> (comps: Vec<Vec<(i32, i32)>>)
    requires
        mask.wf(),
    ensures
        components_are_regions(*mask, components_view(comps@)),
        forall|x: int, y: int| #[trigger] mask.open_cell(unmarked(mask.cells@.len() as int), x, y)
            ==> covered(components_view(comps@), x, y),
        forall|x: int, y: int| #[trigger] covered(components_view(comps@), x, y)
            ==> mask.open_cell(unmarked(mask.cells@.len() as int), x, y),
        forall|c: int, d: int| 0 <= c < d < comps@.len() ==>
            raster_index(mask.w as int, seed(components_view(comps@), c).0, seed(components_view(comps@), c).1)
                < raster_index(mask.w as int, seed(components_view(comps@), d).0, seed(components_view(comps@), d).1),
        pairwise_disjoint(components_view(comps@)),
        seeds_first(mask.w as int, components_view(comps@)),
{
    let n = mask.cells.len();
    let ghost none = unmarked(n as int);
    let mut visited: Vec<bool> = Vec::new();
    let mut k: usize = 0;
    while k < n
        invariant
            k <= n,
            visited@.len() == k,
            forall|j: int| 0 <= j < k ==> !#[trigger] visited@[j],
        decreases n - k,
    {
        visited.push(false);
        k = k + 1;
    }
    assert(visited@ =~= none);
    let mut comps: Vec<Vec<(i32, i32)>> = Vec::new();
    proof {
        let cs = components_view(comps@);
        assert forall|a: int, b: int| 0 <= a < mask.w && 0 <= b < mask.h implies
            #[trigger] visited@[raster_index(mask.w as int, a, b)] == covered(cs, a, b) by {
            lemma_raster_index_bounds(mask.w as int, mask.h as int, a, b);
        }
    }
    let mut y: u32 = 0;
    while y < mask.h
        invariant
            mask.wf(),
            n == mask.cells@.len(),
            none == unmarked(n as int),
            visited@.len() == n,
            y <= mask.h,
            forall|a: int, b: int| 0 <= a < mask.w && 0 <= b < mask.h ==>
                #[trigger] visited@[raster_index(mask.w as int, a, b)] == covered(components_view(comps@), a, b),
            components_are_regions(*mask, components_view(comps@)),
            forall|a: int, b: int| #[trigger] covered(components_view(comps@), a, b) ==> mask.open_cell(none, a, b),
            forall|a: int, b: int| 0 <= a < mask.w && 0 <= b < y && #[trigger] mask.open_cell(none, a, b)
                ==> covered(components_view(comps@), a, b),
            forall|c: int| 0 <= c < comps@.len() ==>
                raster_index(mask.w as int, #[trigger] seed(components_view(comps@), c).0, seed(components_view(comps@), c).1)
                    < raster_index(mask.w as int, 0, y as int),
            forall|c: int, d: int| 0 <= c < d < comps@.len() ==>
                raster_index(mask.w as int, seed(components_view(comps@), c).0, seed(components_view(comps@), c).1)
                    < raster_index(mask.w as int, seed(components_view(comps@), d).0, seed(components_view(comps@), d).1),
            pairwise_disjoint(components_view(comps@)),
            seeds_first(mask.w as int, components_view(comps@)),
        decreases mask.h - y,
    {
        let mut x: u32 = 0;
        while x < mask.w
            invariant
                mask.wf(),
                n == mask.cells@.len(),
                none == unmarked(n as int),
                visited@.len() == n,
                y < mask.h,
                x <= mask.w,
                forall|a: int, b: int| 0 <= a < mask.w && 0 <= b < mask.h ==>
                    #[trigger] visited@[raster_index(mask.w as int, a, b)] == covered(components_view(comps@), a, b),
                components_are_regions(*mask, components_view(comps@)),
                forall|a: int, b: int| #[trigger] covered(components_view(comps@), a, b) ==> mask.open_cell(none, a, b),
                forall|a: int, b: int| 0 <= a < mask.w && 0 <= b < y && #[trigger] mask.open_cell(none, a, b)
                    ==> covered(components_view(comps@), a, b),
                forall|a: int| 0 <= a < x && #[trigger] mask.open_cell(none, a, y as int)
                    ==> covered(components_view(comps@), a, y as int),
                forall|c: int| 0 <= c < comps@.len() ==>
                    raster_index(mask.w as int, #[trigger] seed(components_view(comps@), c).0, seed(components_view(comps@), c).1)
                        < raster_index(mask.w as int, x as int, y as int),
                forall|c: int, d: int| 0 <= c < d < comps@.len() ==>
                    raster_index(mask.w as int, seed(components_view(comps@), c).0, seed(components_view(comps@), c).1)
                        < raster_index(mask.w as int, seed(components_view(comps@), d).0, seed(components_view(comps@), d).1),
                pairwise_disjoint(components_view(comps@)),
                seeds_first(mask.w as int, components_view(comps@)),
            decreases mask.w - x,
        {
            proof {
                lemma_raster_index_bounds(mask.w as int, mask.h as int, x as int, y as int);
            }
            let idx: usize = (y as usize) * (mask.w as usize) + (x as usize);
            let ghost before = components_view(comps@);
            assert(idx == raster_index(mask.w as int, x as int, y as int));
            if !visited[idx] && mask.cells[idx] {
                let ghost seen = visited@;
                let comp = flood_component(mask, &mut visited, x as i32, y as i32);
                proof {
                    let s = (x as int, y as int);
                    assert(mask.open_cell(none, x as int, y as int));
                    assert(!covered(before, x as int, y as int));
                    // Under the current marks, the flood reaches exactly the region.
                    assert forall|a: int, b: int| #[trigger] listed(comp@, a, b) <==> mask.region(s, a, b) by {
                        if listed(comp@, a, b) {
                            assert(mask.open_cell(seen, a, b) && mask.connected(seen, s.0, s.1, a, b));
                            let p = choose|p: Seq<(int, int)>| #[trigger] mask.open_path(seen, p) && p[0] == s && p.last() == (a, b);
                            lemma_path_unmarked(*mask, seen, p);
                            lemma_raster_index_bounds(mask.w as int, mask.h as int, a, b);
                        }
                        if mask.region(s, a, b) {
                            let p = choose|p: Seq<(int, int)>| #[trigger] mask.open_path(none, p) && p[0] == s && p.last() == (a, b);
                            assert forall|i: int| 0 <= i < p.len() implies #[trigger] mask.open_cell(seen, p[i].0, p[i].1) by {
                                lemma_walk_uncovered(*mask, before, p, i);
                                assert(mask.open_cell(none, p[i].0, p[i].1));
                                assert(seen[raster_index(mask.w as int, p[i].0, p[i].1)] == covered(before, p[i].0, p[i].1));
                            }
                            assert(mask.open_path(seen, p));
                            assert(mask.connected(seen, s.0, s.1, a, b));
                            assert(mask.open_cell(seen, p.last().0, p.last().1));
                        }
                    }
                    // The flood starts at the seed.
                    let p0 = seq![s];
                    assert(mask.open_path(none, p0));
                    assert(mask.region(s, x as int, y as int));
                    assert(listed(comp@, x as int, y as int));
                }
                let ghost comp_cells = comp@;
                comps.push(comp);
                proof {
                    let after = components_view(comps@);
                    let c_new = before.len();
                    assert(after =~= before.push(comp_cells));
                    assert forall|a: int, b: int| #[trigger] covered(after, a, b) <==> covered(before, a, b) || listed(comp_cells, a, b) by {
                        if covered(after, a, b) {
                            let c = choose|c: int| 0 <= c < after.len() && #[trigger] listed(after[c], a, b);
                            if c < c_new {
                                assert(listed(before[c], a, b));
                            }
                        }
                        if covered(before, a, b) {
                            let c = choose|c: int| 0 <= c < before.len() && #[trigger] listed(before[c], a, b);
                            assert(listed(after[c], a, b));
                        }
                        if listed(comp_cells, a, b) {
                            assert(listed(after[c_new as int], a, b));
                        }
                    }
                    // The first cell of the new list is its seed.
                    assert(seed(after, c_new as int) == (x as int, y as int));
                    assert forall|c: int| 0 <= c < after.len() implies {
                        &&& (#[trigger] after[c]).len() > 0
                        &&& distinct_cells(after[c])
                        &&& forall|a: int, b: int| #[trigger] listed(after[c], a, b) <==> mask.region(seed(after, c), a, b)
                    } by {
                        if c < c_new {
                            assert(after[c] == before[c]);
                            assert(seed(after, c) == seed(before, c));
                        }
                    }
                    assert forall|a: int, b: int| 0 <= a < mask.w && 0 <= b < mask.h implies
                        #[trigger] visited@[raster_index(mask.w as int, a, b)] == covered(after, a, b) by {
                        assert(visited@[raster_index(mask.w as int, a, b)] == (seen[raster_index(mask.w as int, a, b)] || listed(comp_cells, a, b)));
                        assert(seen[raster_index(mask.w as int, a, b)] == covered(before, a, b));
                    }
                    assert forall|a: int, b: int| #[trigger] covered(after, a, b) implies mask.open_cell(none, a, b) by {
                        if listed(comp_cells, a, b) {
                            assert(mask.region((x as int, y as int), a, b));
                        } else {
                            assert(covered(before, a, b));
                        }
                    }
                    assert forall|a: int, b: int| 0 <= a < mask.w && 0 <= b < y && #[trigger] mask.open_cell(none, a, b)
                        implies covered(after, a, b) by {
                        assert(covered(before, a, b));
                    }
                    assert forall|a: int| 0 <= a < x + 1 && #[trigger] mask.open_cell(none, a, y as int)
                        implies covered(after, a, y as int) by {
                        if a < x {
                            assert(covered(before, a, y as int));
                        }
                    }
                    assert forall|c: int| 0 <= c < after.len() implies
                        raster_index(mask.w as int, #[trigger] seed(after, c).0, seed(after, c).1)
                            < raster_index(mask.w as int, x as int + 1, y as int) by {
                        if c < c_new {
                            assert(seed(after, c) == seed(before, c));
                        }
                    }
                    assert forall|a: int, b: int| #[trigger] listed(comp_cells, a, b) implies
                        !covered(before, a, b) && raster_index(mask.w as int, x as int, y as int) <= raster_index(mask.w as int, a, b) by {
                        assert(mask.open_cell(seen, a, b));
                        assert(seen[raster_index(mask.w as int, a, b)] == covered(before, a, b));
                        assert(mask.region((x as int, y as int), a, b));
                        if raster_index(mask.w as int, a, b) < raster_index(mask.w as int, x as int, y as int) {
                            lemma_raster_order(mask.w as int, a, b, x as int, y as int);
                            assert(mask.open_cell(none, a, b));
                        }
                    }
                    assert forall|c: int, d: int, a: int, b: int| 0 <= c < d < after.len()
                        implies !(#[trigger] listed(after[c], a, b) && #[trigger] listed(after[d], a, b)) by {
                        assert(after[c] == before[c]);
                        if d < c_new {
                            assert(after[d] == before[d]);
                        } else if listed(after[c], a, b) && listed(after[d], a, b) {
                            assert(listed(before[c], a, b));
                            assert(covered(before, a, b));
                        }
                    }
                    assert forall|c: int, a: int, b: int| 0 <= c < after.len() && #[trigger] listed(after[c], a, b)
                        implies raster_index(mask.w as int, seed(after, c).0, seed(after, c).1) <= raster_index(mask.w as int, a, b) by {
                        if c < c_new {
                            assert(after[c] == before[c]);
                            assert(seed(after, c) == seed(before, c));
                        }
                    }
                    assert forall|c: int, d: int| 0 <= c < d < after.len() implies
                        raster_index(mask.w as int, seed(after, c).0, seed(after, c).1)
                            < raster_index(mask.w as int, seed(after, d).0, seed(after, d).1) by {
                        assert(seed(after, c) == seed(before, c));
                        if d < c_new {
                            assert(seed(after, d) == seed(before, d));
                        }
                    }
                }
            } else {
                proof {
                    assert(visited@[raster_index(mask.w as int, x as int, y as int)] == covered(before, x as int, y as int));
                    assert forall|a: int| 0 <= a < x + 1 && #[trigger] mask.open_cell(none, a, y as int)
                        implies covered(before, a, y as int) by {
                        if a == x {
                            lemma_raster_index_bounds(mask.w as int, mask.h as int, a, y as int);
                            assert(mask.cells@[idx as int] == mask.cells@[raster_index(mask.w as int, a, y as int)]);
                        }
                    }
                }
            }
            x = x + 1;
        }
        proof {
            lemma_next_row(mask.w as int, y as int);
            let cs = components_view(comps@);
            assert forall|a: int, b: int| 0 <= a < mask.w && 0 <= b < y + 1 && #[trigger] mask.open_cell(none, a, b)
                implies covered(cs, a, b) by {
                if b == y {
                    assert(mask.open_cell(none, a, y as int));
                }
            }
        }
        y = y + 1;
    }
    comps
}

} // verus!
