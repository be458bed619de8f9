use vstd::prelude::*;
use crate::pipeline::preprocess::GrayImage;
use crate::raster::lemma_raster_index_bounds;

verus! {

/// `(x, y)` lies inside the image.
pub open spec fn inside(g: GrayImage, x: int, y: int) -> bool {
    0 <= x < g.w && 0 <= y < g.h
}

/// The grey value at an inside position.
pub open spec fn gray_at(g: GrayImage, x: int, y: int) -> u8 {
    g.data@[y * g.w + x]
}

/// Scanning the first `n` pixels of row `y` from column `x0`, skipping
/// positions outside the image: (dark pixels, pixels, length of the dark
/// stretch ending at the last pixel seen, longest dark stretch).
pub open spec fn row_scan(g: GrayImage, y: int, x0: int, n: int, t: u8) -> (int, int, int, int)
    decreases n,
{
    if n <= 0 {
        (0, 0, 0, 0)
    } else {
        let p = row_scan(g, y, x0, n - 1, t);
        let x = x0 + n - 1;
        if !inside(g, x, y) {
            p
        } else if gray_at(g, x, y) < t {
            (p.0 + 1, p.1 + 1, p.2 + 1, if p.2 + 1 > p.3 { p.2 + 1 } else { p.3 })
        } else {
            (p.0, p.1 + 1, 0, p.3)
        }
    }
}

/// Scanning the first `rows` rows of the `side`-wide square at `(x0, y0)`:
/// (dark pixels, pixels inside the image, longest dark stretch in a row).
pub open spec fn square_scan(g: GrayImage, x0: int, y0: int, side: int, t: u8, rows: int) -> (int, int, int)
    decreases rows,
{
    if rows <= 0 {
        (0, 0, 0)
    } else {
        let p = square_scan(g, x0, y0, side, t, rows - 1);
        let r = row_scan(g, y0 + rows - 1, x0, side, t);
        (p.0 + r.0, p.1 + r.1, if r.3 > p.2 { r.3 } else { p.2 })
    }
}

/// The grey value at an inside position.
fn gray_value(gray: &GrayImage, x: i32, y: i32) -> (v: u8)
    requires
        gray.wf(),
        inside(*gray, x as int, y as int),
    ensures
        v == gray_at(*gray, x as int, y as int),
{
    let len = gray.data.len();
    proof {
        lemma_raster_index_bounds(gray.w as int, gray.h as int, x as int, y as int);
        assert(len == gray.w * gray.h);
    }
    gray.data[(y as usize) * (gray.w as usize) + (x as usize)]
}

proof fn lemma_row_scan_bounds(g: GrayImage, y: int, x0: int, n: int, t: u8)
    requires
        n >= 0,
    ensures
        0 <= row_scan(g, y, x0, n, t).0 <= row_scan(g, y, x0, n, t).1 <= n,
        0 <= row_scan(g, y, x0, n, t).2 <= row_scan(g, y, x0, n, t).3 <= n,
    decreases n,
{
    if n > 0 {
        lemma_row_scan_bounds(g, y, x0, n - 1, t);
    }
}

proof fn lemma_square_scan_bounds(g: GrayImage, x0: int, y0: int, side: int, t: u8, rows: int)
    requires
        rows >= 0,
        side >= 0,
    ensures
        0 <= square_scan(g, x0, y0, side, t, rows).0 <= square_scan(g, x0, y0, side, t, rows).1 <= rows * side,
        0 <= square_scan(g, x0, y0, side, t, rows).2 <= side,
    decreases rows,
{
    if rows > 0 {
        lemma_square_scan_bounds(g, x0, y0, side, t, rows - 1);
        lemma_row_scan_bounds(g, y0 + rows - 1, x0, side, t);
        assert((rows - 1) * side + side == rows * side) by (nonlinear_arith);
    }
}

/// Dark pixels (below `threshold`), pixels inside the image, and the
/// longest horizontal dark stretch, over the `side`-wide square whose top
/// left corner is `(x0, y0)`; positions outside the image are skipped.
pub fn square_dark_stats(gray: &GrayImage, x0: i32, y0: i32, side: i32, threshold: u8) -> (r: (u32, u32, i32))
    requires
        gray.wf(),
        x0 + side <= i32::MAX,
        y0 + side <= i32::MAX,
        side * side <= u32::MAX,
    ensures
        side <= 0 ==> r == (0u32, 0u32, 0i32),
        side > 0 ==> (r.0 as int, r.1 as int, r.2 as int) == square_scan(*gray, x0 as int, y0 as int, side as int, threshold, side as int),
{
    let mut dark: u32 = 0;
    let mut total: u32 = 0;
    let mut longest_run: i32 = 0;
    if side <= 0 {
        return (0, 0, 0);
    }
    let width = gray.w as i32;
    let height = gray.h as i32;
    let mut y: i32 = y0;
    while y < y0 + side
        invariant
            gray.wf(),
            width == gray.w,
            height == gray.h,
            side > 0,
            x0 + side <= i32::MAX,
            y0 + side <= i32::MAX,
            side * side <= u32::MAX,
            y0 <= y <= y0 + side,
            (dark as int, total as int, longest_run as int) == square_scan(*gray, x0 as int, y0 as int, side as int, threshold, (y - y0) as int),
        decreases y0 + side - y,
    {
        proof {
            lemma_square_scan_bounds(*gray, x0 as int, y0 as int, side as int, threshold, (y - y0) as int);
            assert((y - y0) * side + side <= side * side) by (nonlinear_arith)
                requires 0 <= y - y0 < side;
        }
        let ghost row_start = (dark as int, total as int);
        let mut run: i32 = 0;
        let mut row_dark: u32 = 0;
        let mut row_total: u32 = 0;
        let mut row_longest: i32 = 0;
        let mut x: i32 = x0;
        while x < x0 + side
            invariant
                gray.wf(),
                width == gray.w,
                height == gray.h,
                side > 0,
                x0 + side <= i32::MAX,
                x0 <= x <= x0 + side,
                (row_dark as int, row_total as int, run as int, row_longest as int)
                    == row_scan(*gray, y as int, x0 as int, (x - x0) as int, threshold),
            decreases x0 + side - x,
        {
            proof {
                lemma_row_scan_bounds(*gray, y as int, x0 as int, (x - x0) as int, threshold);
            }
            if x >= 0 && y >= 0 && x < width && y < height {
                let v = gray_value(gray, x, y);
                row_total = row_total + 1;
                if v < threshold {
                    row_dark = row_dark + 1;
                    run = run + 1;
                    if run > row_longest {
                        row_longest = run;
                    }
                } else {
                    run = 0;
                }
            }
            x = x + 1;
        }
        proof {
            lemma_row_scan_bounds(*gray, y as int, x0 as int, side as int, threshold);
            lemma_square_scan_bounds(*gray, x0 as int, y0 as int, side as int, threshold, (y - y0) as int + 1);
        }
        dark = dark + row_dark;
        total = total + row_total;
        if row_longest > longest_run {
            longest_run = row_longest;
        }
        y = y + 1;
    }
    (dark, total, longest_run)
}

/// Over the first `n` pixels of row `y` from column `x0`, skipping the
/// inner square `[ix0, ix1) x [iy0, iy1)` and positions outside the image:
/// (light pixels above `t`, pixels counted).
pub open spec fn ring_row_scan(g: GrayImage, y: int, x0: int, n: int, ix0: int, ix1: int, iy0: int, iy1: int, t: u8) -> (int, int)
    decreases n,
{
    if n <= 0 {
        (0, 0)
    } else {
        let p = ring_row_scan(g, y, x0, n - 1, ix0, ix1, iy0, iy1, t);
        let x = x0 + n - 1;
        if (ix0 <= x < ix1 && iy0 <= y < iy1) || !inside(g, x, y) {
            p
        } else {
            (p.0 + if gray_at(g, x, y) > t { 1int } else { 0 }, p.1 + 1)
        }
    }
}

/// The same over the first `rows` rows of the outer square at `(x0, y0)`.
pub open spec fn ring_scan(g: GrayImage, x0: int, y0: int, side: int, ix0: int, ix1: int, iy0: int, iy1: int, t: u8, rows: int) -> (int, int)
    decreases rows,
{
    if rows <= 0 {
        (0, 0)
    } else {
        let p = ring_scan(g, x0, y0, side, ix0, ix1, iy0, iy1, t, rows - 1);
        let r = ring_row_scan(g, y0 + rows - 1, x0, side, ix0, ix1, iy0, iy1, t);
        (p.0 + r.0, p.1 + r.1)
    }
}

proof fn lemma_ring_row_bounds(g: GrayImage, y: int, x0: int, n: int, ix0: int, ix1: int, iy0: int, iy1: int, t: u8)
    requires
        n >= 0,
    ensures
        0 <= ring_row_scan(g, y, x0, n, ix0, ix1, iy0, iy1, t).0 <= ring_row_scan(g, y, x0, n, ix0, ix1, iy0, iy1, t).1 <= n,
    decreases n,
{
    if n > 0 {
        lemma_ring_row_bounds(g, y, x0, n - 1, ix0, ix1, iy0, iy1, t);
    }
}

proof fn lemma_ring_bounds(g: GrayImage, x0: int, y0: int, side: int, ix0: int, ix1: int, iy0: int, iy1: int, t: u8, rows: int)
    requires
        rows >= 0,
        side >= 0,
    ensures
        0 <= ring_scan(g, x0, y0, side, ix0, ix1, iy0, iy1, t, rows).0 <= ring_scan(g, x0, y0, side, ix0, ix1, iy0, iy1, t, rows).1 <= rows * side,
    decreases rows,
{
    if rows > 0 {
        lemma_ring_bounds(g, x0, y0, side, ix0, ix1, iy0, iy1, t, rows - 1);
        lemma_ring_row_bounds(g, y0 + rows - 1, x0, side, ix0, ix1, iy0, iy1, t);
        assert((rows - 1) * side + side == rows * side) by (nonlinear_arith);
    }
}

/// Light pixels (above `threshold`) and pixels inside the image over the
/// `outer_side`-wide square at `(outer_x0, outer_y0)` minus the
/// `inner_side`-wide square at `(inner_x0, inner_y0)`.
pub fn square_ring_light_stats(
    gray: &GrayImage,
    outer_x0: i32,
    outer_y0: i32,
    outer_side: i32,
    inner_x0: i32,
    inner_y0: i32,
    inner_side: i32,
    threshold: u8,
) -> (r: (u32, u32))
    requires
        gray.wf(),
        outer_x0 + outer_side <= i32::MAX,
        outer_y0 + outer_side <= i32::MAX,
        i32::MIN <= inner_x0 + inner_side <= i32::MAX,
        i32::MIN <= inner_y0 + inner_side <= i32::MAX,
        outer_side * outer_side <= u32::MAX,
    ensures
        outer_side <= 0 ==> r == (0u32, 0u32),
        outer_side > 0 ==> (r.0 as int, r.1 as int) == ring_scan(*gray, outer_x0 as int, outer_y0 as int, outer_side as int,
            inner_x0 as int, inner_x0 + inner_side, inner_y0 as int, inner_y0 + inner_side, threshold, outer_side as int),
{
    if outer_side <= 0 {
        return (0, 0);
    }
    let width = gray.w as i32;
    let height = gray.h as i32;
    let inner_x1 = inner_x0 + inner_side;
    let inner_y1 = inner_y0 + inner_side;
    let mut light: u32 = 0;
    let mut total: u32 = 0;
    let mut y: i32 = outer_y0;
    while y < outer_y0 + outer_side
        invariant
            gray.wf(),
            width == gray.w,
            height == gray.h,
            outer_side > 0,
            outer_x0 + outer_side <= i32::MAX,
            outer_y0 + outer_side <= i32::MAX,
            outer_side * outer_side <= u32::MAX,
            inner_x1 == inner_x0 + inner_side,
            inner_y1 == inner_y0 + inner_side,
            outer_y0 <= y <= outer_y0 + outer_side,
            (light as int, total as int) == ring_scan(*gray, outer_x0 as int, outer_y0 as int, outer_side as int,
                inner_x0 as int, inner_x1 as int, inner_y0 as int, inner_y1 as int, threshold, (y - outer_y0) as int),
        decreases outer_y0 + outer_side - y,
    {
        proof {
            lemma_ring_bounds(*gray, outer_x0 as int, outer_y0 as int, outer_side as int,
                inner_x0 as int, inner_x1 as int, inner_y0 as int, inner_y1 as int, threshold, (y - outer_y0) as int);
            assert((y - outer_y0) * outer_side + outer_side <= outer_side * outer_side) by (nonlinear_arith)
                requires 0 <= y - outer_y0 < outer_side;
        }
        let mut row_light: u32 = 0;
        let mut row_total: u32 = 0;
        let mut x: i32 = outer_x0;
        while x < outer_x0 + outer_side
            invariant
                gray.wf(),
                width == gray.w,
                height == gray.h,
                outer_side > 0,
                outer_x0 + outer_side <= i32::MAX,
                outer_x0 <= x <= outer_x0 + outer_side,
                (row_light as int, row_total as int) == ring_row_scan(*gray, y as int, outer_x0 as int, (x - outer_x0) as int,
                    inner_x0 as int, inner_x1 as int, inner_y0 as int, inner_y1 as int, threshold),
            decreases outer_x0 + outer_side - x,
        {
            proof {
                lemma_ring_row_bounds(*gray, y as int, outer_x0 as int, (x - outer_x0) as int,
                    inner_x0 as int, inner_x1 as int, inner_y0 as int, inner_y1 as int, threshold);
            }
            let in_inner = x >= inner_x0 && x < inner_x1 && y >= inner_y0 && y < inner_y1;
            if !in_inner && x >= 0 && y >= 0 && x < width && y < height {
                let v = gray_value(gray, x, y);
                row_total = row_total + 1;
                if v > threshold {
                    row_light = row_light + 1;
                }
            }
            x = x + 1;
        }
        proof {
            lemma_ring_row_bounds(*gray, y as int, outer_x0 as int, outer_side as int,
                inner_x0 as int, inner_x1 as int, inner_y0 as int, inner_y1 as int, threshold);
        }
        light = light + row_light;
        total = total + row_total;
        y = y + 1;
    }
    (light, total)
}

} // verus!
