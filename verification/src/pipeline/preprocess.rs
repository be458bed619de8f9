use vstd::prelude::*;
use crate::raster::{lemma_raster_index_bounds, lemma_raster_index_inverse, lemma_next_row};

verus! {

/// The value at `(x, y)` of a `w` by `h` row-major 8-bit raster; every
/// position outside the raster reads as white (255).
pub open spec fn raster_pixel(w: u32, h: u32, data: Seq<u8>, x: int, y: int) -> u8 {
    if 0 <= x < w && 0 <= y < h {
        data[y * w + x]
    } else {
        255
    }
}

/// A pixel counts as dark (black foreground) below 128.
pub open spec fn raster_dark(w: u32, h: u32, data: Seq<u8>, x: int, y: int) -> bool {
    raster_pixel(w, h, data, x, y) < 128
}

/// Every pixel of the 3x3 block centred on `(x, y)` is dark.
pub open spec fn block_all_dark(w: u32, h: u32, d: Seq<u8>, x: int, y: int) -> bool {
    &&& raster_dark(w, h, d, x - 1, y - 1)
    &&& raster_dark(w, h, d, x, y - 1)
    &&& raster_dark(w, h, d, x + 1, y - 1)
    &&& raster_dark(w, h, d, x - 1, y)
    &&& raster_dark(w, h, d, x, y)
    &&& raster_dark(w, h, d, x + 1, y)
    &&& raster_dark(w, h, d, x - 1, y + 1)
    &&& raster_dark(w, h, d, x, y + 1)
    &&& raster_dark(w, h, d, x + 1, y + 1)
}

/// Some pixel of the 3x3 block centred on `(x, y)` is dark.
pub open spec fn block_any_dark(w: u32, h: u32, d: Seq<u8>, x: int, y: int) -> bool {
    ||| raster_dark(w, h, d, x - 1, y - 1)
    ||| raster_dark(w, h, d, x, y - 1)
    ||| raster_dark(w, h, d, x + 1, y - 1)
    ||| raster_dark(w, h, d, x - 1, y)
    ||| raster_dark(w, h, d, x, y)
    ||| raster_dark(w, h, d, x + 1, y)
    ||| raster_dark(w, h, d, x - 1, y + 1)
    ||| raster_dark(w, h, d, x, y + 1)
    ||| raster_dark(w, h, d, x + 1, y + 1)
}

/// Erosion of the black foreground with a 3x3 square: a pixel stays black
/// only when its whole neighbourhood is black.
pub open spec fn erode_seq(w: u32, h: u32, d: Seq<u8>) -> Seq<u8> {
    Seq::new((w * h) as nat, |i: int| if block_all_dark(w, h, d, i % (w as int), i / (w as int)) { 0u8 } else { 255u8 })
}

/// Dilation of the black foreground with a 3x3 square: a pixel becomes black
/// when any pixel of its neighbourhood is black.
pub open spec fn dilate_seq(w: u32, h: u32, d: Seq<u8>) -> Seq<u8> {
    Seq::new((w * h) as nat, |i: int| if block_any_dark(w, h, d, i % (w as int), i / (w as int)) { 0u8 } else { 255u8 })
}

/// Global thresholding: values up to `t` become black (0), the rest white (255).
pub open spec fn threshold_seq(d: Seq<u8>, t: u8) -> Seq<u8> {
    Seq::new(d.len(), |i: int| if d[i] <= t { 0u8 } else { 255u8 })
}

/// Morphological opening of the black foreground.
pub open spec fn open_seq(w: u32, h: u32, d: Seq<u8>) -> Seq<u8> {
    dilate_seq(w, h, erode_seq(w, h, d))
}

/// Morphological closing of the black foreground.
pub open spec fn close_seq(w: u32, h: u32, d: Seq<u8>) -> Seq<u8> {
    erode_seq(w, h, dilate_seq(w, h, d))
}

/// Largest image (in pixels) whose Otsu histogram sums fit the threshold
/// routine's 32-bit accumulators.
pub open spec fn otsu_pixel_limit() -> int {
    16843009
}

/// Binary image used by the detection and geometry pipeline.
///
/// Pixels are stored as 0 for black foreground and 255 for white background.
#[derive(Debug, Clone, PartialEq, Eq)]
pub struct BinaryImage {
    pub w: u32,
    pub h: u32,
    pub data: Vec<u8>,
}

/// An 8-bit grayscale raster in row-major order.
#[derive(Debug, Clone, PartialEq, Eq)]
pub struct GrayImage {
    pub w: u32,
    pub h: u32,
    pub data: Vec<u8>,
}

impl BinaryImage {
    /// The buffer holds exactly `w * h` pixels and both sides fit the signed
    /// 32-bit coordinates that pixel lookups take.
    pub open spec fn wf(&self) -> bool {
        &&& self.data@.len() == self.w * self.h
        &&& self.w <= i32::MAX
        &&& self.h <= i32::MAX
    }

    /// The pixel at `(x, y)`, white outside the image.
    pub open spec fn pixel(&self, x: int, y: int) -> u8 {
        raster_pixel(self.w, self.h, self.data@, x, y)
    }

    /// Whether the pixel at `(x, y)` is black.
    pub open spec fn dark(&self, x: int, y: int) -> bool {
        self.pixel(x, y) < 128
    }

    /// Creates a binary image from raw 0/255 bytes.
    pub fn new(w: u32, h: u32, data: Vec<u8>) -> (img: Self)
        requires
            data@.len() == w * h,
        ensures
            img.w == w,
            img.h == h,
            img.data@ == data@,
    {
        BinaryImage { w, h, data }
    }

    /// Returns the pixel at `(x, y)`, or white for out-of-bounds coordinates.
    pub fn get(&self, x: i32, y: i32) -> (v: u8)
        requires
            self.wf(),
        ensures
            v == self.pixel(x as int, y as int),
    {
        if x < 0 || y < 0 || x >= self.w as i32 || y >= self.h as i32 {
            return 255;
        }
        let n = self.data.len();
        proof {
            lemma_raster_index_bounds(self.w as int, self.h as int, x as int, y as int);
        }
        self.data[y as usize * self.w as usize + x as usize]
    }

    /// Returns true when the pixel at `(x, y)` is black.
    pub fn is_black(&self, x: i32, y: i32) -> (b: bool)
        requires
            self.wf(),
        ensures
            b == self.dark(x as int, y as int),
    {
        self.get(x, y) < 128
    }
}

impl GrayImage {
    /// The buffer holds exactly `w * h` pixels and both sides fit `i32`.
    pub open spec fn wf(&self) -> bool {
        &&& self.data@.len() == self.w * self.h
        &&& self.w <= i32::MAX
        &&& self.h <= i32::MAX
    }
}

/// The Otsu threshold level that imageproc computes for a `w` by `h`
/// grayscale raster.
pub uninterp spec fn otsu_level_of(w: u32, h: u32, pixels: Seq<u8>) -> u8;

/// Calls `imageproc::contrast::otsu_level`. Claimed: the level is the named
/// function of the raster's size and pixels, and it is below 255 (the routine
/// only keeps thresholds that leave some pixel above them). Images above
/// `otsu_pixel_limit()` pixels are left out because the routine's 32-bit
/// histogram sums overflow there.
#[verifier::external_body]
fn otsu_level(gray: &GrayImage) -> (t: u8)
    requires
        gray.wf(),
        gray.w * gray.h <= otsu_pixel_limit(),
    ensures
        t == otsu_level_of(gray.w, gray.h, gray.data@),
        t < 255,
{
    let image = image::GrayImage::from_raw(gray.w, gray.h, gray.data.clone()).unwrap();
    imageproc::contrast::otsu_level(&image)
}

/// Applies a fixed threshold: values up to `level` become black (0), the
/// others white (255).
pub fn apply_threshold(gray: &GrayImage, level: u8) -> (out: GrayImage)
    requires
        gray.wf(),
    ensures
        out.wf(),
        out.w == gray.w,
        out.h == gray.h,
        out.data@ == threshold_seq(gray.data@, level),
{
    let mut data: Vec<u8> = Vec::new();
    let n = gray.data.len();
    let mut i: usize = 0;
    while i < n
        invariant
            n == gray.data@.len(),
            i <= n,
            data@.len() == i,
            forall|k: int| 0 <= k < i ==> data@[k] == (if gray.data@[k] <= level { 0u8 } else { 255u8 }),
        decreases n - i,
    {
        let value: u8 = if gray.data[i] <= level { 0 } else { 255 };
        data.push(value);
        i = i + 1;
    }
    assert(data@ =~= threshold_seq(gray.data@, level));
    GrayImage { w: gray.w, h: gray.h, data }
}

/// Applies only Otsu binarization and keeps black as 0, white as 255.
pub fn otsu_binarize(gray: &GrayImage) -> (out: GrayImage)
    requires
        gray.wf(),
        gray.w * gray.h <= otsu_pixel_limit(),
    ensures
        out.wf(),
        out.w == gray.w,
        out.h == gray.h,
        out.data@ == threshold_seq(gray.data@, otsu_level_of(gray.w, gray.h, gray.data@)),
        otsu_level_of(gray.w, gray.h, gray.data@) < 255,
{
    let threshold = otsu_level(gray);
    apply_threshold(gray, threshold)
}

/// Reads a pixel of a grayscale raster, white outside it.
fn sample_gray(src: &GrayImage, x: i32, y: i32) -> (v: u8)
    requires
        src.wf(),
    ensures
        v == raster_pixel(src.w, src.h, src.data@, x as int, y as int),
{
    if x < 0 || y < 0 || x >= src.w as i32 || y >= src.h as i32 {
        return 255;
    }
    let n = src.data.len();
    proof {
        lemma_raster_index_bounds(src.w as int, src.h as int, x as int, y as int);
    }
    src.data[y as usize * src.w as usize + x as usize]
}

fn is_dark_at(src: &GrayImage, x: i32, y: i32) -> (b: bool)
    requires
        src.wf(),
    ensures
        b == raster_dark(src.w, src.h, src.data@, x as int, y as int),
{
    sample_gray(src, x, y) < 128
}

/// Whether the whole 3x3 block around `(x, y)` is black.
fn all_black_around(src: &GrayImage, x: i32, y: i32) -> (b: bool)
    requires
        src.wf(),
        0 <= x < src.w,
        0 <= y < src.h,
    ensures
        b == block_all_dark(src.w, src.h, src.data@, x as int, y as int),
{
    is_dark_at(src, x - 1, y - 1) && is_dark_at(src, x, y - 1) && is_dark_at(src, x + 1, y - 1)
        && is_dark_at(src, x - 1, y) && is_dark_at(src, x, y) && is_dark_at(src, x + 1, y)
        && is_dark_at(src, x - 1, y + 1) && is_dark_at(src, x, y + 1) && is_dark_at(src, x + 1, y + 1)
}

/// Whether some pixel of the 3x3 block around `(x, y)` is black.
fn any_black_around(src: &GrayImage, x: i32, y: i32) -> (b: bool)
    requires
        src.wf(),
        0 <= x < src.w,
        0 <= y < src.h,
    ensures
        b == block_any_dark(src.w, src.h, src.data@, x as int, y as int),
{
    is_dark_at(src, x - 1, y - 1) || is_dark_at(src, x, y - 1) || is_dark_at(src, x + 1, y - 1)
        || is_dark_at(src, x - 1, y) || is_dark_at(src, x, y) || is_dark_at(src, x + 1, y)
        || is_dark_at(src, x - 1, y + 1) || is_dark_at(src, x, y + 1) || is_dark_at(src, x + 1, y + 1)
}

/// 3x3 erosion of the black foreground (black survives only inside a fully
/// black neighbourhood).
pub fn erode_black(src: &GrayImage) -> (out: GrayImage)
    requires
        src.wf(),
    ensures
        out.wf(),
        out.w == src.w,
        out.h == src.h,
        out.data@ == erode_seq(src.w, src.h, src.data@),
{
    morph_pass(src, true)
}

/// 3x3 dilation of the black foreground (a pixel turns black when anything
/// black touches it).
pub fn dilate_black(src: &GrayImage) -> (out: GrayImage)
    requires
        src.wf(),
    ensures
        out.wf(),
        out.w == src.w,
        out.h == src.h,
        out.data@ == dilate_seq(src.w, src.h, src.data@),
{
    morph_pass(src, false)
}

/// The pixel at index `i` after one erosion (`erode`) or dilation pass.
pub open spec fn morph_value(w: u32, h: u32, d: Seq<u8>, erode: bool, i: int) -> u8 {
    if erode {
        if block_all_dark(w, h, d, i % (w as int), i / (w as int)) { 0u8 } else { 255u8 }
    } else {
        if block_any_dark(w, h, d, i % (w as int), i / (w as int)) { 0u8 } else { 255u8 }
    }
}

/// One raster pass computing the erosion (`erode == true`) or the dilation.
fn morph_pass(src: &GrayImage, erode: bool) -> (out: GrayImage)
    requires
        src.wf(),
    ensures
        out.wf(),
        out.w == src.w,
        out.h == src.h,
        erode ==> out.data@ == erode_seq(src.w, src.h, src.data@),
        !erode ==> out.data@ == dilate_seq(src.w, src.h, src.data@),
{
    let w = src.w;
    let h = src.h;
    let ghost d = src.data@;
    let mut data: Vec<u8> = Vec::new();
    let mut y: u32 = 0;
    while y < h
        invariant
            src.wf(),
            w == src.w,
            h == src.h,
            d == src.data@,
            y <= h,
            data@.len() == y * w,
            forall|k: int| 0 <= k < data@.len() ==> data@[k] == morph_value(w, h, d, erode, k),
        decreases h - y,
    {
        let mut x: u32 = 0;
        while x < w
            invariant
                src.wf(),
                w == src.w,
                h == src.h,
                d == src.data@,
                y < h,
                x <= w,
                data@.len() == y * w + x,
                forall|k: int| 0 <= k < data@.len() ==> data@[k] == morph_value(w, h, d, erode, k),
            decreases w - x,
        {
            let black = if erode {
                all_black_around(src, x as i32, y as i32)
            } else {
                any_black_around(src, x as i32, y as i32)
            };
            let value: u8 = if black { 0 } else { 255 };
            let ghost k = y * w + x;
            proof {
                lemma_raster_index_inverse(w as int, x as int, y as int);
                lemma_raster_index_bounds(w as int, h as int, x as int, y as int);
                assert(value == morph_value(w, h, d, erode, k));
            }
            data.push(value);
            assert(data@[k] == morph_value(w, h, d, erode, k));
            x = x + 1;
        }
        proof {
            lemma_next_row(w as int, y as int);
        }
        y = y + 1;
    }
    proof {
        assert((h as int) * (w as int) == (w as int) * (h as int)) by (nonlinear_arith);
        if erode {
            assert(data@ =~= erode_seq(w, h, d));
        } else {
            assert(data@ =~= dilate_seq(w, h, d));
        }
    }
    GrayImage { w, h, data }
}

/// Opening (erosion then dilation): drops black specks smaller than 3x3.
pub fn morph_open_black(src: &GrayImage) -> (out: GrayImage)
    requires
        src.wf(),
    ensures
        out.wf(),
        out.w == src.w,
        out.h == src.h,
        out.data@ == open_seq(src.w, src.h, src.data@),
{
    dilate_black(&erode_black(src))
}

/// Closing (dilation then erosion): fills white specks smaller than 3x3.
pub fn morph_close_black(src: &GrayImage) -> (out: GrayImage)
    requires
        src.wf(),
    ensures
        out.wf(),
        out.w == src.w,
        out.h == src.h,
        out.data@ == close_seq(src.w, src.h, src.data@),
{
    erode_black(&dilate_black(src))
}

/// What the preprocessing pass produces from a grayscale raster: the Otsu
/// threshold, then an opening, then a closing.
pub open spec fn preprocess_seq(w: u32, h: u32, gray: Seq<u8>) -> Seq<u8> {
    close_seq(w, h, open_seq(w, h, threshold_seq(gray, otsu_level_of(w, h, gray))))
}

/// Thresholds a grayscale raster with Otsu, and removes one-pixel binary
/// speckles with a 3x3 open/close pass.
pub fn preprocess(gray: &GrayImage) -> (bin: BinaryImage)
    requires
        gray.wf(),
        gray.w * gray.h <= otsu_pixel_limit(),
    ensures
        bin.wf(),
        bin.w == gray.w,
        bin.h == gray.h,
        bin.data@ == preprocess_seq(gray.w, gray.h, gray.data@),
{
    let binary = otsu_binarize(gray);
    let opened = morph_open_black(&binary);
    let cleaned = morph_close_black(&opened);
    BinaryImage::new(cleaned.w, cleaned.h, cleaned.data)
}

/// Reading the eroded raster at an in-bounds pixel gives the erosion rule.
proof fn lemma_erode_pixel(w: u32, h: u32, d: Seq<u8>, x: int, y: int)
    requires
        0 <= x < w,
        0 <= y < h,
    ensures
        raster_dark(w, h, erode_seq(w, h, d), x, y) == block_all_dark(w, h, d, x, y),
{
    lemma_raster_index_bounds(w as int, h as int, x, y);
    lemma_raster_index_inverse(w as int, x, y);
}

/// Reading the dilated raster at an in-bounds pixel gives the dilation rule.
proof fn lemma_dilate_pixel(w: u32, h: u32, d: Seq<u8>, x: int, y: int)
    requires
        0 <= x < w,
        0 <= y < h,
    ensures
        raster_dark(w, h, dilate_seq(w, h, d), x, y) == block_any_dark(w, h, d, x, y),
{
    lemma_raster_index_bounds(w as int, h as int, x, y);
    lemma_raster_index_inverse(w as int, x, y);
}

/// The raster produced by a morphology pass reads dark exactly where the
/// pass rule holds, for each of the nine neighbours of `(x, y)`.
proof fn lemma_erode_block(w: u32, h: u32, d: Seq<u8>, x: int, y: int)
    ensures
        forall|dx: int, dy: int| -1 <= dx <= 1 && -1 <= dy <= 1 && 0 <= x + dx < w && 0 <= y + dy < h
            ==> (#[trigger] raster_dark(w, h, erode_seq(w, h, d), x + dx, y + dy)
                == block_all_dark(w, h, d, x + dx, y + dy)),
{
    assert forall|dx: int, dy: int| -1 <= dx <= 1 && -1 <= dy <= 1 && 0 <= x + dx < w && 0 <= y + dy < h
        implies (#[trigger] raster_dark(w, h, erode_seq(w, h, d), x + dx, y + dy)
            == block_all_dark(w, h, d, x + dx, y + dy)) by {
        lemma_erode_pixel(w, h, d, x + dx, y + dy);
    }
}

proof fn lemma_dilate_block(w: u32, h: u32, d: Seq<u8>, x: int, y: int)
    ensures
        forall|dx: int, dy: int| -1 <= dx <= 1 && -1 <= dy <= 1 && 0 <= x + dx < w && 0 <= y + dy < h
            ==> (#[trigger] raster_dark(w, h, dilate_seq(w, h, d), x + dx, y + dy)
                == block_any_dark(w, h, d, x + dx, y + dy)),
{
    assert forall|dx: int, dy: int| -1 <= dx <= 1 && -1 <= dy <= 1 && 0 <= x + dx < w && 0 <= y + dy < h
        implies (#[trigger] raster_dark(w, h, dilate_seq(w, h, d), x + dx, y + dy)
            == block_any_dark(w, h, d, x + dx, y + dy)) by {
        lemma_dilate_pixel(w, h, d, x + dx, y + dy);
    }
}

/// Opening never adds foreground: a pixel that is black after the opening
/// was black before it.
pub proof fn law_opening_is_anti_extensive(w: u32, h: u32, d: Seq<u8>, x: int, y: int)
    requires
        0 <= x < w,
        0 <= y < h,
    ensures
        raster_dark(w, h, open_seq(w, h, d), x, y) ==> raster_dark(w, h, d, x, y),
{
    lemma_dilate_pixel(w, h, erode_seq(w, h, d), x, y);
    lemma_erode_block(w, h, d, x, y);
    assert(raster_dark(w, h, erode_seq(w, h, d), x - 1, y - 1) ==> raster_dark(w, h, erode_seq(w, h, d), x + (-1), y + (-1)));
    assert(raster_dark(w, h, erode_seq(w, h, d), x, y - 1) ==> raster_dark(w, h, erode_seq(w, h, d), x + 0, y + (-1)));
    assert(raster_dark(w, h, erode_seq(w, h, d), x + 1, y - 1) ==> raster_dark(w, h, erode_seq(w, h, d), x + 1, y + (-1)));
    assert(raster_dark(w, h, erode_seq(w, h, d), x - 1, y) ==> raster_dark(w, h, erode_seq(w, h, d), x + (-1), y + 0));
    assert(raster_dark(w, h, erode_seq(w, h, d), x, y) ==> raster_dark(w, h, erode_seq(w, h, d), x + 0, y + 0));
    assert(raster_dark(w, h, erode_seq(w, h, d), x + 1, y) ==> raster_dark(w, h, erode_seq(w, h, d), x + 1, y + 0));
    assert(raster_dark(w, h, erode_seq(w, h, d), x - 1, y + 1) ==> raster_dark(w, h, erode_seq(w, h, d), x + (-1), y + 1));
    assert(raster_dark(w, h, erode_seq(w, h, d), x, y + 1) ==> raster_dark(w, h, erode_seq(w, h, d), x + 0, y + 1));
    assert(raster_dark(w, h, erode_seq(w, h, d), x + 1, y + 1) ==> raster_dark(w, h, erode_seq(w, h, d), x + 1, y + 1));
}

/// Opening removes specks: a pixel stays black only when it lies inside a
/// fully black 3x3 square of the input.
pub proof fn law_opening_keeps_only_full_blocks(w: u32, h: u32, d: Seq<u8>, x: int, y: int)
    requires
        0 <= x < w,
        0 <= y < h,
        raster_dark(w, h, open_seq(w, h, d), x, y),
    ensures
        exists|cx: int, cy: int| x - 1 <= cx <= x + 1 && y - 1 <= cy <= y + 1 && #[trigger] block_all_dark(w, h, d, cx, cy),
{
    lemma_dilate_pixel(w, h, erode_seq(w, h, d), x, y);
    lemma_erode_block(w, h, d, x, y);
    if raster_dark(w, h, erode_seq(w, h, d), x - 1, y - 1) {
        assert(raster_dark(w, h, erode_seq(w, h, d), x + (-1), y + (-1)));
        assert(block_all_dark(w, h, d, x - 1, y - 1));
    } else if raster_dark(w, h, erode_seq(w, h, d), x, y - 1) {
        assert(raster_dark(w, h, erode_seq(w, h, d), x + 0, y + (-1)));
        assert(block_all_dark(w, h, d, x, y - 1));
    } else if raster_dark(w, h, erode_seq(w, h, d), x + 1, y - 1) {
        assert(raster_dark(w, h, erode_seq(w, h, d), x + 1, y + (-1)));
        assert(block_all_dark(w, h, d, x + 1, y - 1));
    } else if raster_dark(w, h, erode_seq(w, h, d), x - 1, y) {
        assert(raster_dark(w, h, erode_seq(w, h, d), x + (-1), y + 0));
        assert(block_all_dark(w, h, d, x - 1, y));
    } else if raster_dark(w, h, erode_seq(w, h, d), x, y) {
        assert(raster_dark(w, h, erode_seq(w, h, d), x + 0, y + 0));
        assert(block_all_dark(w, h, d, x, y));
    } else if raster_dark(w, h, erode_seq(w, h, d), x + 1, y) {
        assert(raster_dark(w, h, erode_seq(w, h, d), x + 1, y + 0));
        assert(block_all_dark(w, h, d, x + 1, y));
    } else if raster_dark(w, h, erode_seq(w, h, d), x - 1, y + 1) {
        assert(raster_dark(w, h, erode_seq(w, h, d), x + (-1), y + 1));
        assert(block_all_dark(w, h, d, x - 1, y + 1));
    } else if raster_dark(w, h, erode_seq(w, h, d), x, y + 1) {
        assert(raster_dark(w, h, erode_seq(w, h, d), x + 0, y + 1));
        assert(block_all_dark(w, h, d, x, y + 1));
    } else {
        assert(raster_dark(w, h, erode_seq(w, h, d), x + 1, y + 1));
        assert(block_all_dark(w, h, d, x + 1, y + 1));
    }
}

/// Closing never removes foreground away from the border: a black pixel
/// whose whole 3x3 neighbourhood lies inside the image stays black.
pub proof fn law_closing_is_extensive_inside(w: u32, h: u32, d: Seq<u8>, x: int, y: int)
    requires
        1 <= x < w - 1,
        1 <= y < h - 1,
        raster_dark(w, h, d, x, y),
    ensures
        raster_dark(w, h, close_seq(w, h, d), x, y),
{
    lemma_erode_pixel(w, h, dilate_seq(w, h, d), x, y);
    lemma_dilate_block(w, h, d, x, y);
    assert(raster_dark(w, h, dilate_seq(w, h, d), x + (-1), y + (-1)));
    assert(raster_dark(w, h, dilate_seq(w, h, d), x + 0, y + (-1)));
    assert(raster_dark(w, h, dilate_seq(w, h, d), x + 1, y + (-1)));
    assert(raster_dark(w, h, dilate_seq(w, h, d), x + (-1), y + 0));
    assert(raster_dark(w, h, dilate_seq(w, h, d), x + 0, y + 0));
    assert(raster_dark(w, h, dilate_seq(w, h, d), x + 1, y + 0));
    assert(raster_dark(w, h, dilate_seq(w, h, d), x + (-1), y + 1));
    assert(raster_dark(w, h, dilate_seq(w, h, d), x + 0, y + 1));
    assert(raster_dark(w, h, dilate_seq(w, h, d), x + 1, y + 1));
}

} // verus!
