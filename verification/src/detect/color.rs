use vstd::prelude::*;
use crate::detect::flood::PixelMask;

verus! {

/// An 8-bit RGBA raster, four bytes per pixel in row-major order.
#[derive(Debug, Clone)]
pub struct RgbaImage {
    pub w: u32,
    pub h: u32,
    pub data: Vec<u8>,
}

impl RgbaImage {
    /// The buffer holds exactly four bytes for each of the `w * h` pixels.
    pub open spec fn wf(&self) -> bool {
        &&& self.data@.len() == 4 * (self.w * self.h)
        &&& self.w <= i32::MAX
        &&& self.h <= i32::MAX
    }

    /// The four channels of pixel number `i`.
    pub open spec fn pixel(&self, i: int) -> [u8; 4] {
        [self.data@[4 * i], self.data@[4 * i + 1], self.data@[4 * i + 2], self.data@[4 * i + 3]]
    }
}

/// The saturated green of the mini-program badge.
pub open spec fn wx_green(r: u8, g: u8, b: u8, a: u8) -> bool {
    a > 128 && g > 105 && g - r > 35 && g - b > 20 && r < 150 && b < 170
}

/// The red half of the two-colour short-video logo.
pub open spec fn logo_red(r: u8, g: u8, b: u8) -> bool {
    r > 150 && g < 120 && r - g > 45 && r - b > 15
}

/// The cyan half of the two-colour short-video logo.
pub open spec fn logo_cyan(r: u8, g: u8, b: u8) -> bool {
    &&& b > 130
    &&& g > 115
    &&& r < 105
    &&& b - r > 45
    &&& g - r > 30
    &&& -85 < b - g < 85
}

/// Whether an RGBA pixel has the badge green.
pub fn is_wx_green_pixel(pixel: [u8; 4]) -> (b: bool)
    ensures
        b == wx_green(pixel[0], pixel[1], pixel[2], pixel[3]),
{
    let r = pixel[0] as i16;
    let g = pixel[1] as i16;
    let b = pixel[2] as i16;
    pixel[3] > 128 && g > 105 && g - r > 35 && g - b > 20 && r < 150 && b < 170
}

/// The mask of the badge-green pixels.
pub fn wx_green_mask(image: &RgbaImage) -> (mask: PixelMask)
    requires
        image.wf(),
    ensures
        mask.wf(),
        mask.w == image.w,
        mask.h == image.h,
        forall|i: int| 0 <= i < mask.cells@.len() ==>
            #[trigger] mask.cells@[i] == wx_green(image.pixel(i)[0], image.pixel(i)[1], image.pixel(i)[2], image.pixel(i)[3]),
{
    let len = image.data.len();
    let n = len / 4;
    let mut cells: Vec<bool> = Vec::new();
    let mut i: usize = 0;
    while i < n
        invariant
            image.wf(),
            n == image.w * image.h,
            image.data@.len() == 4 * n,
            len == image.data@.len(),
            i <= n,
            cells@.len() == i,
            forall|k: int| 0 <= k < i ==>
                #[trigger] cells@[k] == wx_green(image.pixel(k)[0], image.pixel(k)[1], image.pixel(k)[2], image.pixel(k)[3]),
        decreases n - i,
    {
        let pixel = [image.data[4 * i], image.data[4 * i + 1], image.data[4 * i + 2], image.data[4 * i + 3]];
        cells.push(is_wx_green_pixel(pixel));
        i = i + 1;
    }
    PixelMask { w: image.w, h: image.h, cells }
}

/// Number of opaque pixels among the first `n` that satisfy the red logo test.
pub open spec fn red_logo_count(image: RgbaImage, n: int) -> int
    decreases n,
{
    if n <= 0 {
        0
    } else {
        let p = image.pixel(n - 1);
        red_logo_count(image, n - 1) + if p[3] >= 128 && logo_red(p[0], p[1], p[2]) { 1int } else { 0 }
    }
}

/// Number of opaque pixels among the first `n` that satisfy the cyan logo test.
pub open spec fn cyan_logo_count(image: RgbaImage, n: int) -> int
    decreases n,
{
    if n <= 0 {
        0
    } else {
        let p = image.pixel(n - 1);
        cyan_logo_count(image, n - 1) + if p[3] >= 128 && logo_cyan(p[0], p[1], p[2]) { 1int } else { 0 }
    }
}

/// Counts the opaque pixels in the red and in the cyan colour of the
/// short-video logo: `(red, cyan)`.
pub fn logo_color_counts(image: &RgbaImage) -> (r: (usize, usize))
    requires
        image.wf(),
    ensures
        r.0 == red_logo_count(*image, image.w * image.h),
        r.1 == cyan_logo_count(*image, image.w * image.h),
{
    let len = image.data.len();
    let n = len / 4;
    let mut red: usize = 0;
    let mut cyan: usize = 0;
    let mut i: usize = 0;
    while i < n
        invariant
            image.wf(),
            n == image.w * image.h,
            image.data@.len() == 4 * n,
            len == image.data@.len(),
            i <= n,
            red == red_logo_count(*image, i as int),
            cyan == cyan_logo_count(*image, i as int),
            red <= i,
            cyan <= i,
        decreases n - i,
    {
        let r = image.data[4 * i] as i16;
        let g = image.data[4 * i + 1] as i16;
        let b = image.data[4 * i + 2] as i16;
        let a = image.data[4 * i + 3];
        if a >= 128 {
            if r > 150 && g < 120 && r - g > 45 && r - b > 15 {
                red = red + 1;
            }
            let d = b - g;
            if b > 130 && g > 115 && r < 105 && b - r > 45 && g - r > 30 && -85 < d && d < 85 {
                cyan = cyan + 1;
            }
        }
        i = i + 1;
    }
    (red, cyan)
}

} // verus!
