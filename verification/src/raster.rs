use vstd::prelude::*;

verus! {

/// Row-major layout: the pixel `(x, y)` of a `w`-wide raster sits at `y * w + x`.
pub open spec fn raster_index(w: int, x: int, y: int) -> int {
    y * w + x
}

/// Positions inside a `w` by `h` raster map to indices below `w * h`.
pub proof fn lemma_raster_index_bounds(w: int, h: int, x: int, y: int)
    requires
        0 <= x < w,
        0 <= y < h,
    ensures
        0 <= y * w + x < w * h,
        y * w + x < (y + 1) * w,
        y * w <= y * w + x,
{
    assert(0 <= y * w + x < w * h) by (nonlinear_arith)
        requires 0 <= x < w, 0 <= y < h;
    assert(y * w + x < (y + 1) * w) by (nonlinear_arith)
        requires 0 <= x < w, 0 <= y < h;
    assert(0 <= y * w) by (nonlinear_arith)
        requires 0 <= x < w, 0 <= y < h;
}

/// The index `y * w + x` gives back its column and row.
pub proof fn lemma_raster_index_inverse(w: int, x: int, y: int)
    requires
        0 <= x < w,
        0 <= y,
    ensures
        (y * w + x) % w == x,
        (y * w + x) / w == y,
{
    vstd::arithmetic::div_mod::lemma_fundamental_div_mod_converse(y * w + x, w, y, x);
}

/// `(y + 1) * w == y * w + w`.
pub proof fn lemma_next_row(w: int, y: int)
    ensures
        (y + 1) * w == y * w + w,
{
    assert((y + 1) * w == y * w + w) by (nonlinear_arith);
}

} // verus!
