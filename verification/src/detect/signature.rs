use vstd::prelude::*;
use crate::pipeline::preprocess::BinaryImage;
use crate::raster::lemma_raster_index_inverse;

verus! {

/// The smallest rectangle holding every black pixel.
#[derive(Debug, Clone, Copy, PartialEq, Eq)]
pub struct ForegroundBbox {
    pub min_x: i32,
    pub max_x: i32,
    pub min_y: i32,
    pub max_y: i32,
}

/// `(x, y)` is a black pixel inside the image.
pub open spec fn foreground(bin: BinaryImage, x: int, y: int) -> bool {
    0 <= x < bin.w && 0 <= y < bin.h && bin.dark(x, y)
}

/// `b` is the bounding box of the black pixels of `bin`: it holds them all
/// and each of its sides touches one.
pub open spec fn is_foreground_bbox(bin: BinaryImage, b: ForegroundBbox) -> bool {
    &&& forall|x: int, y: int| #[trigger] foreground(bin, x, y) ==> b.min_x <= x <= b.max_x && b.min_y <= y <= b.max_y
    &&& exists|y: int| #[trigger] foreground(bin, b.min_x as int, y)
    &&& exists|y: int| #[trigger] foreground(bin, b.max_x as int, y)
    &&& exists|x: int| #[trigger] foreground(bin, x, b.min_y as int)
    &&& exists|x: int| #[trigger] foreground(bin, x, b.max_y as int)
}

/// The bounding box of the black pixels, or `None` when there are none.
pub fn foreground_bbox(bin: &BinaryImage) -> (r: Option<ForegroundBbox>)
    requires
        bin.wf(),
    ensures
        r is None <==> forall|x: int, y: int| !#[trigger] foreground(*bin, x, y),
        r matches Some(b) ==> is_foreground_bbox(*bin, b),
{
    let mut bbox = ForegroundBbox { min_x: bin.w as i32, max_x: -1, min_y: bin.h as i32, max_y: -1 };
    let ghost mut lo_x: (int, int) = (0, 0);
    let ghost mut hi_x: (int, int) = (0, 0);
    let ghost mut lo_y: (int, int) = (0, 0);
    let ghost mut hi_y: (int, int) = (0, 0);
    let h = bin.h as i32;
    let w = bin.w as i32;
    let mut y: i32 = 0;
    while y < h
        invariant
            bin.wf(),
            h == bin.h,
            w == bin.w,
            0 <= y <= h,
            bbox.max_x < 0 ==> bbox.min_x == w && bbox.min_y == h && bbox.max_y < 0,
            bbox.max_x < 0 ==> forall|a: int, b: int| b < y ==> !#[trigger] foreground(*bin, a, b),
            bbox.max_x >= 0 ==> {
                &&& forall|a: int, b: int| b < y && #[trigger] foreground(*bin, a, b)
                    ==> bbox.min_x <= a <= bbox.max_x && bbox.min_y <= b <= bbox.max_y
                &&& foreground(*bin, lo_x.0, lo_x.1) && lo_x.0 == bbox.min_x
                &&& foreground(*bin, hi_x.0, hi_x.1) && hi_x.0 == bbox.max_x
                &&& foreground(*bin, lo_y.0, lo_y.1) && lo_y.1 == bbox.min_y
                &&& foreground(*bin, hi_y.0, hi_y.1) && hi_y.1 == bbox.max_y
            },
        decreases h - y,
    {
        let mut x: i32 = 0;
        while x < w
            invariant
                bin.wf(),
                h == bin.h,
                w == bin.w,
                0 <= y < h,
                0 <= x <= w,
                bbox.max_x < 0 ==> bbox.min_x == w && bbox.min_y == h && bbox.max_y < 0,
                bbox.max_x < 0 ==> forall|a: int, b: int| (b < y || (b == y && a < x)) ==> !#[trigger] foreground(*bin, a, b),
                bbox.max_x >= 0 ==> {
                    &&& forall|a: int, b: int| (b < y || (b == y && a < x)) && #[trigger] foreground(*bin, a, b)
                        ==> bbox.min_x <= a <= bbox.max_x && bbox.min_y <= b <= bbox.max_y
                    &&& foreground(*bin, lo_x.0, lo_x.1) && lo_x.0 == bbox.min_x
                    &&& foreground(*bin, hi_x.0, hi_x.1) && hi_x.0 == bbox.max_x
                    &&& foreground(*bin, lo_y.0, lo_y.1) && lo_y.1 == bbox.min_y
                    &&& foreground(*bin, hi_y.0, hi_y.1) && hi_y.1 == bbox.max_y
                },
            decreases w - x,
        {
            if bin.is_black(x, y) {
                let first = bbox.max_x < 0;
                if first || x < bbox.min_x {
                    bbox.min_x = x;
                    proof { lo_x = (x as int, y as int); }
                }
                if first || x > bbox.max_x {
                    bbox.max_x = x;
                    proof { hi_x = (x as int, y as int); }
                }
                if first || y < bbox.min_y {
                    bbox.min_y = y;
                    proof { lo_y = (x as int, y as int); }
                }
                if first || y > bbox.max_y {
                    bbox.max_y = y;
                    proof { hi_y = (x as int, y as int); }
                }
                assert(foreground(*bin, x as int, y as int));
            }
            x = x + 1;
        }
        y = y + 1;
    }
    if bbox.max_x >= 0 {
        proof {
            assert(foreground(*bin, lo_x.0, lo_x.1));
            assert(foreground(*bin, hi_x.0, hi_x.1));
            assert(foreground(*bin, lo_y.0, lo_y.1));
            assert(foreground(*bin, hi_y.0, hi_y.1));
            assert(exists|y: int| #[trigger] foreground(*bin, bbox.min_x as int, y));
            assert(exists|y: int| #[trigger] foreground(*bin, bbox.max_x as int, y));
            assert(exists|x: int| #[trigger] foreground(*bin, x, bbox.min_y as int));
            assert(exists|x: int| #[trigger] foreground(*bin, x, bbox.max_y as int));
            assert forall|a: int, b: int| #[trigger] foreground(*bin, a, b)
                implies bbox.min_x <= a <= bbox.max_x && bbox.min_y <= b <= bbox.max_y by {
                assert(b < h);
            }
        }
        Some(bbox)
    } else {
        proof {
            assert forall|a: int, b: int| !#[trigger] foreground(*bin, a, b) by {
                if foreground(*bin, a, b) {
                    assert(b < h);
                }
            }
        }
        None
    }
}

/// The cell after `i` along its ring of `tb` cells, wrapping at the end.
pub open spec fn ring_next(tb: int, i: int) -> int {
    if i % tb == tb - 1 { i + 1 - tb } else { i + 1 }
}

/// Counts over the first `n` cells of a polar grid of rings of `tb` cells
/// (`total` cells in all): black cells, black cells whose next cell along
/// the ring is black, black cells whose cell on the next ring is black.
pub open spec fn polar_counts_spec(polar: Seq<bool>, tb: int, total: int, n: int) -> (int, int, int)
    decreases n,
{
    if n <= 0 {
        (0, 0, 0)
    } else {
        let prev = polar_counts_spec(polar, tb, total, n - 1);
        let i = n - 1;
        if polar[i] {
            (
                prev.0 + 1,
                prev.1 + if polar[ring_next(tb, i)] { 1int } else { 0 },
                prev.2 + if i + tb < total && polar[i + tb] { 1int } else { 0 },
            )
        } else {
            prev
        }
    }
}

/// For a polar grid of `rings` rings of `cells` cells each (ring by ring):
/// the number of black cells and of black cells with a black tangential and
/// a black radial neighbour: `(black, tangential, radial)`.
pub fn polar_neighbor_counts(polar: &Vec<bool>, rings: usize, cells: usize) -> (r: (usize, usize, usize))
    requires
        cells > 0,
        polar@.len() == rings * cells,
    ensures
        (r.0 as int, r.1 as int, r.2 as int) == polar_counts_spec(polar@, cells as int, polar@.len() as int, polar@.len() as int),
{
    let n = polar.len();
    let mut black: usize = 0;
    let mut tangential: usize = 0;
    let mut radial: usize = 0;
    let mut i: usize = 0;
    let mut t: usize = 0;
    let ghost mut ring: int = 0;
    while i < n
        invariant
            cells > 0,
            n == polar@.len(),
            n == rings * cells,
            i <= n,
            t < cells,
            0 <= ring,
            i == ring * cells + t,
            (black as int, tangential as int, radial as int) == polar_counts_spec(polar@, cells as int, n as int, i as int),
            black <= i,
            tangential <= i,
            radial <= i,
        decreases n - i,
    {
        proof {
            lemma_raster_index_inverse(cells as int, t as int, ring);
        }
        if polar[i] {
            black = black + 1;
            let next: usize = if t == cells - 1 { i + 1 - cells } else { i + 1 };
            proof {
                if t != cells - 1 {
                    assert(ring * cells + t + 1 < n) by (nonlinear_arith)
                        requires i == ring * cells + t, i < n, n == rings * cells, t + 1 < cells, ring >= 0, cells > 0;
                }
            }
            if polar[next] {
                tangential = tangential + 1;
            }
            if cells < n - i && polar[i + cells] {
                radial = radial + 1;
            }
        }
        i = i + 1;
        if t + 1 == cells {
            t = 0;
            proof {
                assert((ring + 1) * cells == ring * cells + cells) by (nonlinear_arith);
                ring = ring + 1;
            }
        } else {
            t = t + 1;
        }
    }
    (black, tangential, radial)
}

} // verus!
