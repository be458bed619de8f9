use vstd::prelude::*;
use crate::pipeline::preprocess::{BinaryImage, GrayImage};
use crate::error::QRacerError;
use crate::text::{message_with_number, decimal, single_non_white_char, non_white, is_white_space, trim, trim_start, trim_end};
use crate::raster::{lemma_raster_index_bounds, lemma_raster_index_inverse, lemma_next_row};
use rxing::{BinaryBitmap, DecodeHints, Luma8LuminanceSource, MultiFormatReader, Reader};
use rxing::BarcodeFormat::QR_CODE;
use rxing::RXingResultMetadataType::ERROR_CORRECTION_LEVEL;
use rxing::RXingResultMetadataValue::ErrorCorrectionLevel;
use std::collections::HashSet;
use rxing::common::HybridBinarizer;
use qrcodegen::{Mask, QrCode, QrCodeEcc, QrSegment, Version};
use crate::codec::qr_format::{FormatCandidate, decode_format_code, decode_format_spec, pow2_32};
use crate::codec::qr_checks::{Check, base_checks, base_pattern_checks, hit_weight, total_weight, lemma_hit_weight_bounds, lemma_total_weight_bound};

verus! {

/// QR error-correction levels.
#[derive(Clone, Copy, Debug, PartialEq, Eq, Structural)]
pub enum QrEcc {
    L,
    M,
    Q,
    H,
}

/// The one-letter label of each error-correction level.
pub open spec fn ecc_label(ecc: QrEcc) -> Seq<char> {
    match ecc {
        QrEcc::L => "L"@,
        QrEcc::M => "M"@,
        QrEcc::Q => "Q"@,
        QrEcc::H => "H"@,
    }
}

impl QrEcc {
    /// The one-letter label of the level.
    pub fn label(self) -> (s: &'static str)
        ensures
            s@ == ecc_label(self),
    {
        match self {
            QrEcc::L => "L",
            QrEcc::M => "M",
            QrEcc::Q => "Q",
            QrEcc::H => "H",
        }
    }

    /// The level named by the two error-correction bits of QR format
    /// information (`0 = M, 1 = L, 2 = H, 3 = Q`).
    pub fn from_format_bits(bits: u8) -> (r: Option<QrEcc>)
        ensures
            bits < 4 ==> r == Some(crate::codec::qr_format::ecc_of_format_bits(bits as u32)),
            bits >= 4 ==> r is None,
    {
        match bits {
            0 => Some(QrEcc::M),
            1 => Some(QrEcc::L),
            2 => Some(QrEcc::H),
            3 => Some(QrEcc::Q),
            _ => None,
        }
    }
}

/// `num / den` rounded to the nearest integer, halves upward (for
/// `num >= 0`, `den > 0` this is how `f64::round` rounds the exact ratio).
pub open spec fn round_ratio(num: int, den: int) -> int {
    (2 * num + den) / (2 * den)
}

/// Pixel coordinate, along an axis of `len` pixels split into `modules`
/// cells, of the sample at `offset` quarters (1, 2 or 3) across cell `idx`,
/// clamped to the last pixel.
pub open spec fn sample_coord(len: u32, modules: int, idx: int, offset: int) -> int {
    let r = round_ratio((4 * idx + offset) * len, 4 * modules);
    let hi: int = if len == 0 { 0 } else { len - 1 };
    if r > hi { hi } else { r }
}

/// 1 when the sample at quarter offsets `(ox, oy)` of module `(x, y)` is black.
pub open spec fn module_vote(img: BinaryImage, modules: int, x: int, y: int, ox: int, oy: int) -> int {
    if img.dark(sample_coord(img.w, modules, x, ox), sample_coord(img.h, modules, y, oy)) { 1 } else { 0 }
}

/// Black samples among the 3x3 samples (at 1/4, 1/2 and 3/4 of the cell on
/// each axis) of module `(x, y)`.
pub open spec fn module_votes(img: BinaryImage, modules: int, x: int, y: int) -> int {
    module_vote(img, modules, x, y, 1, 1) + module_vote(img, modules, x, y, 2, 1) + module_vote(img, modules, x, y, 3, 1)
        + module_vote(img, modules, x, y, 1, 2) + module_vote(img, modules, x, y, 2, 2) + module_vote(img, modules, x, y, 3, 2)
        + module_vote(img, modules, x, y, 1, 3) + module_vote(img, modules, x, y, 2, 3) + module_vote(img, modules, x, y, 3, 3)
}

/// A module of a `modules`-wide grid laid over the whole image reads dark
/// when at least half of its nine samples are black.
pub open spec fn module_black(img: BinaryImage, modules: int, x: int, y: int) -> bool {
    modules > 0 && 2 * module_votes(img, modules, x, y) >= 9
}

/// On an axis of `m` cells of `s >= 3` pixels each, every sample of cell
/// `idx` falls inside that cell's pixels.
proof fn lemma_sample_inside_cell(m: int, s: int, idx: int, o: int)
    requires
        m >= 1,
        s >= 3,
        0 <= idx < m,
        1 <= o <= 3,
        m * s <= u32::MAX,
    ensures
        idx * s <= sample_coord((m * s) as u32, m, idx, o) < (idx + 1) * s,
        sample_coord((m * s) as u32, m, idx, o) / s == idx,
{
    let len = m * s;
    let num = (4 * idx + o) * len;
    let n2 = 2 * num + 4 * m;
    let d = 8 * m;
    let r = n2 / d;
    vstd::arithmetic::div_mod::lemma_fundamental_div_mod(n2, d);
    assert(r * d <= n2 < (r + 1) * d) by (nonlinear_arith)
        requires n2 == d * r + n2 % d, 0 <= n2 % d < d, d > 0;
    assert(n2 == 8 * m * idx * s + 2 * o * m * s + 4 * m) by (nonlinear_arith)
        requires n2 == 2 * ((4 * idx + o) * (m * s)) + 4 * m;
    assert(r >= idx * s) by (nonlinear_arith)
        requires r * (8 * m) <= n2, n2 < (r + 1) * (8 * m), n2 == 8 * m * idx * s + 2 * o * m * s + 4 * m, m >= 1, o >= 1, s >= 3;
    assert(r < (idx + 1) * s) by (nonlinear_arith)
        requires r * (8 * m) <= n2, n2 == 8 * m * idx * s + 2 * o * m * s + 4 * m, m >= 1, o <= 3, s >= 3;
    assert((idx + 1) * s <= m * s) by (nonlinear_arith)
        requires idx + 1 <= m, s >= 3;
    assert(round_ratio(num, 4 * m) == r);
    assert((idx + 1) * s == idx * s + s) by (nonlinear_arith);
    vstd::arithmetic::div_mod::lemma_fundamental_div_mod_converse(r, s, idx, r - idx * s);
}

/// Sampling reads a clean rendering back exactly: when the image is `m`
/// cells of `s >= 3` pixels a side and every pixel has its cell's colour,
/// module `(x, y)` reads dark exactly when its cell is dark.
pub proof fn law_sampling_reads_clean_renders(img: BinaryImage, m: int, s: int, cells: spec_fn(int, int) -> bool, x: int, y: int)
    requires
        img.wf(),
        m >= 1,
        s >= 3,
        img.w == m * s,
        img.h == m * s,
        forall|px: int, py: int| 0 <= px < img.w && 0 <= py < img.h ==> #[trigger] img.dark(px, py) == cells(px / s, py / s),
        0 <= x < m,
        0 <= y < m,
    ensures
        module_black(img, m, x, y) == cells(x, y),
{
    let len = m * s;
    lemma_sample_inside_cell(m, s, x, 1);
    lemma_sample_inside_cell(m, s, x, 2);
    lemma_sample_inside_cell(m, s, x, 3);
    lemma_sample_inside_cell(m, s, y, 1);
    lemma_sample_inside_cell(m, s, y, 2);
    lemma_sample_inside_cell(m, s, y, 3);
    assert((x + 1) * s <= m * s && (y + 1) * s <= m * s) by (nonlinear_arith)
        requires x + 1 <= m, y + 1 <= m, s >= 3;
    let c = cells(x, y);
    assert forall|ox: int, oy: int| 1 <= ox <= 3 && 1 <= oy <= 3 implies
        #[trigger] module_vote(img, m, x, y, ox, oy) == if c { 1int } else { 0int } by {
        let px = sample_coord(img.w, m, x, ox);
        let py = sample_coord(img.h, m, y, oy);
        assert(img.dark(px, py) == cells(px / s, py / s));
    }
    assert(module_vote(img, m, x, y, 1, 1) == if c { 1int } else { 0int });
    assert(module_vote(img, m, x, y, 2, 1) == if c { 1int } else { 0int });
    assert(module_vote(img, m, x, y, 3, 1) == if c { 1int } else { 0int });
    assert(module_vote(img, m, x, y, 1, 2) == if c { 1int } else { 0int });
    assert(module_vote(img, m, x, y, 2, 2) == if c { 1int } else { 0int });
    assert(module_vote(img, m, x, y, 3, 2) == if c { 1int } else { 0int });
    assert(module_vote(img, m, x, y, 1, 3) == if c { 1int } else { 0int });
    assert(module_vote(img, m, x, y, 2, 3) == if c { 1int } else { 0int });
    assert(module_vote(img, m, x, y, 3, 3) == if c { 1int } else { 0int });
}

/// Pixel coordinate of one sample; see `sample_coord`.
fn sample_position(len: u32, modules: usize, idx: usize, offset: u32) -> (c: i32)
    requires
        modules > 0,
        1 <= offset <= 3,
        len <= i32::MAX,
    ensures
        c == sample_coord(len, modules as int, idx as int, offset as int),
{
    let a: u128 = 4 * (idx as u128) + (offset as u128);
    proof {
        assert(a * (len as int) <= 0x4_0000_0000_0000_0000u128 * 0x1_0000_0000u128) by (nonlinear_arith)
            requires a <= 0x4_0000_0000_0000_0000u128, len <= 0x1_0000_0000u128;
    }
    let num: u128 = a * (len as u128);
    let den: u128 = 4 * (modules as u128);
    let r: u128 = (2 * num + den) / (2 * den);
    let hi: u128 = len.saturating_sub(1) as u128;
    let c = if r > hi { hi } else { r };
    c as i32
}

/// Samples one module of a `modules`-wide grid spread evenly over the image:
/// nine samples at quarter offsets inside the cell, dark when at least half
/// of them are black. The sample positions are the exact rational cell
/// positions, rounded half upward.
pub fn sample_qr_module(warped: &BinaryImage, modules: usize, x: usize, y: usize) -> (b: bool)
    requires
        warped.wf(),
    ensures
        b == module_black(*warped, modules as int, x as int, y as int),
{
    if modules == 0 {
        return false;
    }
    let x1 = sample_position(warped.w, modules, x, 1);
    let x2 = sample_position(warped.w, modules, x, 2);
    let x3 = sample_position(warped.w, modules, x, 3);
    let y1 = sample_position(warped.h, modules, y, 1);
    let y2 = sample_position(warped.h, modules, y, 2);
    let y3 = sample_position(warped.h, modules, y, 3);
    let mut black: u32 = 0;
    if warped.is_black(x1, y1) { black += 1; }
    if warped.is_black(x2, y1) { black += 1; }
    if warped.is_black(x3, y1) { black += 1; }
    if warped.is_black(x1, y2) { black += 1; }
    if warped.is_black(x2, y2) { black += 1; }
    if warped.is_black(x3, y2) { black += 1; }
    if warped.is_black(x1, y3) { black += 1; }
    if warped.is_black(x2, y3) { black += 1; }
    if warped.is_black(x3, y3) { black += 1; }
    let total: u32 = 9;
    black * 2 >= total
}

/// Bits `0..n` of `bits` packed into a word, bit `i` worth `2^i`.
pub open spec fn pack_bits(bits: spec_fn(int) -> bool, n: int) -> int
    decreases n,
{
    if n <= 0 {
        0
    } else {
        pack_bits(bits, n - 1) + if bits(n - 1) { pow2_32(n - 1) } else { 0 }
    }
}

proof fn lemma_pack_bits_bound(bits: spec_fn(int) -> bool, n: int)
    requires
        0 <= n,
    ensures
        0 <= pack_bits(bits, n) < pow2_32(n),
    decreases n,
{
    if n > 0 {
        lemma_pack_bits_bound(bits, n - 1);
        assert(pow2_32(n) == 2 * pow2_32(n - 1));
    }
}

proof fn lemma_pow2_15()
    ensures
        pow2_32(15) == 0x8000,
{
    reveal_with_fuel(pow2_32, 16);
}

/// Module holding bit `i` of the first format-information copy (around the
/// top-left finder).
pub open spec fn format_position_a(i: int) -> (int, int) {
    if i < 6 {
        (8, i)
    } else if i == 6 {
        (8, 7)
    } else if i == 7 {
        (8, 8)
    } else if i == 8 {
        (7, 8)
    } else {
        (14 - i, 8)
    }
}

/// Module holding bit `i` of the second format-information copy (split
/// between the top-right and bottom-left finders).
pub open spec fn format_position_b(modules: int, i: int) -> (int, int) {
    if i < 8 {
        (modules - 1 - i, 8)
    } else {
        (8, modules - 15 + i)
    }
}

/// The first sampled format word.
pub open spec fn format_word_a(img: BinaryImage, modules: int) -> int {
    pack_bits(|i: int| module_black(img, modules, format_position_a(i).0, format_position_a(i).1), 15)
}

/// The second sampled format word.
pub open spec fn format_word_b(img: BinaryImage, modules: int) -> int {
    pack_bits(|i: int| module_black(img, modules, format_position_b(modules, i).0, format_position_b(modules, i).1), 15)
}

/// Reads one of the two 15-bit format copies (`second` selects which).
fn read_format_copy(warped: &BinaryImage, modules: usize, second: bool) -> (bits: u32)
    requires
        warped.wf(),
        modules >= 15,
    ensures
        !second ==> bits == format_word_a(*warped, modules as int),
        second ==> bits == format_word_b(*warped, modules as int),
        bits < 0x8000,
{
    let ghost f = if second {
        |i: int| module_black(*warped, modules as int, format_position_b(modules as int, i).0, format_position_b(modules as int, i).1)
    } else {
        |i: int| module_black(*warped, modules as int, format_position_a(i).0, format_position_a(i).1)
    };
    let mut bits: u32 = 0;
    let mut weight: u32 = 1;
    let mut i: usize = 0;
    while i < 15
        invariant
            warped.wf(),
            modules >= 15,
            i <= 15,
            weight == pow2_32(i as int),
            bits == pack_bits(f, i as int),
            f == (if second {
                |i: int| module_black(*warped, modules as int, format_position_b(modules as int, i).0, format_position_b(modules as int, i).1)
            } else {
                |i: int| module_black(*warped, modules as int, format_position_a(i).0, format_position_a(i).1)
            }),
        decreases 15 - i,
    {
        proof {
            lemma_pack_bits_bound(f, i as int);
            lemma_pow2_15();
            assert(pow2_32(15) == 2 * pow2_32(14));
            lemma_pow2_32_mono(i as int, 14);
            assert(pow2_32(i as int + 1) == 2 * pow2_32(i as int));
        }
        let (px, py): (usize, usize) = if second {
            if i < 8 { (modules - 1 - i, 8) } else { (8, modules - 15 + i) }
        } else {
            if i < 6 { (8, i) } else if i == 6 { (8, 7) } else if i == 7 { (8, 8) } else if i == 8 { (7, 8) } else { (14 - i, 8) }
        };
        let value = sample_qr_module(warped, modules, px, py);
        assert(value == f(i as int));
        if value {
            bits = bits + weight;
        }
        weight = weight * 2;
        i = i + 1;
    }
    proof {
        lemma_pack_bits_bound(f, 15);
        lemma_pow2_15();
    }
    bits
}

proof fn lemma_pow2_32_mono(i: int, j: int)
    requires
        0 <= i <= j,
    ensures
        pow2_32(i) <= pow2_32(j),
    decreases j - i,
{
    if i < j {
        lemma_pow2_32_mono(i, j - 1);
        lemma_pow2_32_pos(j - 1);
        assert(pow2_32(j) == 2 * pow2_32(j - 1));
    }
}

proof fn lemma_pow2_32_pos(i: int)
    ensures
        pow2_32(i) >= 1,
    decreases i,
{
    if i > 0 {
        lemma_pow2_32_pos(i - 1);
    }
}

/// The format information read from both copies: the better decodable copy
/// (the first on equal distance), or the only decodable one.
pub open spec fn format_info_spec(img: BinaryImage, modules: int) -> Option<FormatCandidate> {
    let first = decode_format_spec(format_word_a(img, modules) as u32);
    let second = decode_format_spec(format_word_b(img, modules) as u32);
    match (first, second) {
        (Some(a), Some(b)) => Some(if a.distance <= b.distance { a } else { b }),
        (Some(a), None) => Some(a),
        (None, Some(b)) => Some(b),
        (None, None) => None,
    }
}

/// Reads and decodes the format information of a corrected QR image.
pub fn read_format_info_with_modules(warped: &BinaryImage, modules: usize) -> (res: Option<FormatCandidate>)
    requires
        warped.wf(),
        modules >= 15,
    ensures
        res == format_info_spec(*warped, modules as int),
{
    let first = decode_format_code(read_format_copy(warped, modules, false));
    let second = decode_format_code(read_format_copy(warped, modules, true));
    match (first, second) {
        (Some(a), Some(b)) => Some(if a.distance <= b.distance { a } else { b }),
        (Some(candidate), None) => Some(candidate),
        (None, Some(candidate)) => Some(candidate),
        (None, None) => None,
    }
}

/// The checks scored when estimating the grid size: the three finders
/// (weight 4), the separators (2), the timing patterns (3) and the dark module
/// next to the bottom-left finder (1).
pub open spec fn module_count_checks(modules: int) -> Seq<Check> {
    base_checks(modules, 4).push(Check { x: 8, y: (modules - 8) as usize, expected: true, weight: 1 })
}

/// The sampler that reads modules of a `modules`-wide grid spread evenly over
/// the image.
pub open spec fn even_sampler(img: BinaryImage, modules: int) -> spec_fn(int, int) -> bool {
    |x: int, y: int| module_black(img, modules, x, y)
}

/// Number of modules of a QR symbol of version `v`.
pub open spec fn modules_for_version_spec(v: int) -> int {
    (v - 1) * 4 + 21
}

/// The weighted agreement of the version-`v` grid with the function patterns.
pub open spec fn pattern_hits(img: BinaryImage, v: int) -> int {
    hit_weight(module_count_checks(modules_for_version_spec(v)), even_sampler(img, modules_for_version_spec(v)))
}

/// The total weight of the version-`v` checks.
pub open spec fn pattern_total(img: BinaryImage, v: int) -> int {
    total_weight(module_count_checks(modules_for_version_spec(v)))
}

/// Version `v`'s score as a fraction `score_num / score_den`: the share of
/// agreeing check weight, plus 0.12 when format information decodes at that
/// grid size.
pub open spec fn score_num(img: BinaryImage, v: int) -> int {
    100 * pattern_hits(img, v) + if format_info_spec(img, modules_for_version_spec(v)) is Some {
        12 * pattern_total(img, v)
    } else {
        0
    }
}

pub open spec fn score_den(img: BinaryImage, v: int) -> int {
    100 * pattern_total(img, v)
}

/// Version `a` scores strictly higher than version `b`.
pub open spec fn scores_higher(img: BinaryImage, a: int, b: int) -> bool {
    score_num(img, a) * score_den(img, b) > score_num(img, b) * score_den(img, a)
}

/// The best-scoring version among `1..=n` (the smallest on ties).
pub open spec fn best_version(img: BinaryImage, n: int) -> int
    decreases n,
{
    if n <= 1 {
        1
    } else {
        let b = best_version(img, n - 1);
        if scores_higher(img, n, b) { n } else { b }
    }
}

/// The grid size estimate: the best version's module count when its score
/// reaches 0.72.
pub open spec fn estimate_module_count_spec(img: BinaryImage) -> Option<usize> {
    let v = best_version(img, 40);
    if 100 * score_num(img, v) >= 72 * score_den(img, v) {
        Some(modules_for_version_spec(v) as usize)
    } else {
        None
    }
}

proof fn lemma_module_count_checks_shape(modules: int)
    requires
        21 <= modules <= 177,
    ensures
        module_count_checks(modules).len() <= 600,
        forall|i: int| 0 <= i < module_count_checks(modules).len() ==> (#[trigger] module_count_checks(modules)[i]).weight <= 4,
        total_weight(module_count_checks(modules)) >= 1,
        total_weight(module_count_checks(modules)) <= 2400,
{
    let checks = module_count_checks(modules);
    let base = base_checks(modules, 4);
    assert forall|i: int| 0 <= i < checks.len() implies (#[trigger] checks[i]).weight <= 4 by {
        if i < base.len() {
            let f = crate::codec::qr_checks::finder_checks(0, 0, 4)
                + crate::codec::qr_checks::finder_checks(modules - 7, 0, 4)
                + crate::codec::qr_checks::finder_checks(0, modules - 7, 4);
            let fs = f + crate::codec::qr_checks::separator_checks(modules);
            if i < f.len() {
                if i < 98 {
                    if i < 49 {
                        assert(f[i] == crate::codec::qr_checks::finder_checks(0, 0, 4)[i]);
                    } else {
                        assert(f[i] == crate::codec::qr_checks::finder_checks(modules - 7, 0, 4)[i - 49]);
                    }
                } else {
                    assert(f[i] == crate::codec::qr_checks::finder_checks(0, modules - 7, 4)[i - 98]);
                }
            } else if i < fs.len() {
                assert(fs[i] == crate::codec::qr_checks::separator_checks(modules)[i - f.len()]);
            } else {
                assert(base[i] == crate::codec::qr_checks::timing_checks(modules)[i - fs.len()]);
            }
        }
    }
    lemma_total_weight_bound(checks, 4);
    assert(checks.drop_last() == base);
    lemma_total_weight_bound(base, 4);
}

/// Scores how well a `modules`-wide grid laid over the image matches the
/// fixed QR patterns: returns (agreeing weight, total weight).
fn score_module_count(warped: &BinaryImage, modules: usize) -> (r: (u32, u32))
    requires
        warped.wf(),
        21 <= modules <= 177,
    ensures
        r.0 == hit_weight(module_count_checks(modules as int), even_sampler(*warped, modules as int)),
        r.1 == total_weight(module_count_checks(modules as int)),
{
    let mut checks = base_pattern_checks(modules, 4);
    checks.push(Check { x: 8, y: modules - 8, expected: true, weight: 1 });
    let ghost all = module_count_checks(modules as int);
    let ghost sampler = even_sampler(*warped, modules as int);
    assert(checks@ =~= all);
    proof {
        lemma_module_count_checks_shape(modules as int);
    }
    let mut correct: u32 = 0;
    let mut total: u32 = 0;
    let mut i: usize = 0;
    while i < checks.len()
        invariant
            warped.wf(),
            checks@ == all,
            sampler == even_sampler(*warped, modules as int),
            21 <= modules <= 177,
            all.len() <= 600,
            forall|k: int| 0 <= k < all.len() ==> (#[trigger] all[k]).weight <= 4,
            i <= checks.len(),
            correct == hit_weight(all.subrange(0, i as int), sampler),
            total == total_weight(all.subrange(0, i as int)),
        decreases checks.len() - i,
    {
        let c = checks[i];
        proof {
            let pre = all.subrange(0, i as int);
            let next = all.subrange(0, i as int + 1);
            assert(next.drop_last() =~= pre);
            assert(next.last() == c);
            lemma_total_weight_bound(pre, 4);
            lemma_hit_weight_bounds(pre, sampler);
            assert forall|k: int| 0 <= k < pre.len() implies (#[trigger] pre[k]).weight <= 4 by {
                assert(pre[k] == all[k]);
            }
            assert(pre.len() * 4 <= 2400) by (nonlinear_arith) requires pre.len() <= 600;
        }
        let value = sample_qr_module(warped, modules, c.x, c.y);
        if value == c.expected {
            correct = correct + c.weight;
        }
        total = total + c.weight;
        i = i + 1;
    }
    assert(all.subrange(0, all.len() as int) =~= all);
    (correct, total)
}

/// Estimates the module count of a perspective-corrected QR image: every
/// version's grid is scored against the finder, separator and timing
/// patterns (plus 0.12 when format information decodes), and the best grid
/// is kept when it scores at least 0.72. Scores are compared exactly.
pub fn estimate_module_count(warped: &BinaryImage) -> (res: Option<usize>)
    requires
        warped.wf(),
    ensures
        res == estimate_module_count_spec(*warped),
{
    let mut best_num: u64 = 0;
    let mut best_den: u64 = 1;
    let mut best_v: u8 = 0;
    let mut version: u8 = 1;
    while version <= 40
        invariant
            warped.wf(),
            1 <= version <= 41,
            version == 1 ==> best_v == 0,
            version > 1 ==> best_v == best_version(*warped, version as int - 1),
            version > 1 ==> best_num == score_num(*warped, best_v as int),
            version > 1 ==> best_den == score_den(*warped, best_v as int),
            version > 1 ==> 1 <= best_v <= 40,
            best_num <= 300000,
            best_den <= 300000,
        decreases 41 - version,
    {
        let modules: usize = (version as usize - 1) * 4 + 21;
        let (correct, total) = score_module_count(warped, modules);
        proof {
            lemma_module_count_checks_shape(modules as int);
            lemma_hit_weight_bounds(module_count_checks(modules as int), even_sampler(*warped, modules as int));
        }
        let has_format = read_format_info_with_modules(warped, modules).is_some();
        let num: u64 = 100 * (correct as u64) + if has_format { 12 * (total as u64) } else { 0 };
        let den: u64 = 100 * (total as u64);
        proof {
            assert(num * best_den <= 300000 * 300000) by (nonlinear_arith) requires num <= 300000, best_den <= 300000;
            assert(best_num * den <= 300000 * 300000) by (nonlinear_arith) requires best_num <= 300000, den <= 300000;
        }
        if version == 1 || num * best_den > best_num * den {
            best_num = num;
            best_den = den;
            best_v = version;
        }
        version = version + 1;
    }
    proof {
        assert(100 * best_num <= 100 * 300000);
    }
    if 100 * best_num >= 72 * best_den {
        Some((best_v as usize - 1) * 4 + 21)
    } else {
        None
    }
}

/// A QR matrix: rows of modules, `true` for dark.
pub type QrMatrix = Vec<Vec<bool>>;

/// The rows of a matrix as sequences.
pub open spec fn matrix_view(m: &Vec<Vec<bool>>) -> Seq<Seq<bool>> {
    m@.map_values(|row: Vec<bool>| row@)
}

/// What was read from a QR image.
#[derive(Clone, Debug, PartialEq, Eq)]
pub struct QrDecoded {
    pub text: String,
    pub version: u8,
    pub ecc: QrEcc,
    pub original_mask: Option<u8>,
}

/// Version, and format information when readable, inferred from the
/// corrected image itself.
#[derive(Clone, Copy, Debug, PartialEq, Eq)]
pub struct QrImageMetadata {
    pub version: u8,
    pub ecc: Option<QrEcc>,
    pub mask: Option<u8>,
}

/// The error-correction level a label names once surrounding white space is
/// trimmed.
pub open spec fn ecc_from_label_spec(label: Seq<char>) -> Option<QrEcc> {
    let t = non_white(label);
    if t == seq!['L'] {
        Some(QrEcc::L)
    } else if t == seq!['M'] {
        Some(QrEcc::M)
    } else if t == seq!['Q'] {
        Some(QrEcc::Q)
    } else if t == seq!['H'] {
        Some(QrEcc::H)
    } else {
        None
    }
}

impl QrEcc {
    /// Parses a level label such as `" M "`.
    pub fn from_label(value: &str) -> (r: Option<QrEcc>)
        ensures
            r == ecc_from_label_spec(value@),
            r == level_of_letter(trim(value@)),
    {
        proof {
            law_ecc_label_is_read_trimmed(value@);
        }
        let c = single_non_white_char(value);
        proof {
            let t = non_white(value@);
            if t == seq!['L'] { assert(t[0] == 'L'); }
            if t == seq!['M'] { assert(t[0] == 'M'); }
            if t == seq!['Q'] { assert(t[0] == 'Q'); }
            if t == seq!['H'] { assert(t[0] == 'H'); }
            if c is Some {
                assert(t[0] == c->0);
            }
        }
        match c {
            Some('L') => Some(QrEcc::L),
            Some('M') => Some(QrEcc::M),
            Some('Q') => Some(QrEcc::Q),
            Some('H') => Some(QrEcc::H),
            _ => None,
        }
    }
}

proof fn lemma_non_white_concat(s: Seq<char>, t: Seq<char>)
    ensures
        non_white(s + t) == non_white(s) + non_white(t),
    decreases t.len(),
{
    if t.len() == 0 {
        assert(s + t =~= s);
        assert(non_white(s) + non_white(t) =~= non_white(s));
    } else {
        lemma_non_white_concat(s, t.drop_last());
        assert((s + t).drop_last() =~= s + t.drop_last());
        assert((s + t).last() == t.last());
        if !is_white_space(t.last()) {
            assert(non_white(s) + non_white(t) =~= (non_white(s) + non_white(t.drop_last())).push(t.last()));
        }
    }
}

proof fn lemma_non_white_of_white(p: Seq<char>)
    requires
        forall|i: int| 0 <= i < p.len() ==> is_white_space(#[trigger] p[i]),
    ensures
        non_white(p) == Seq::<char>::empty(),
    decreases p.len(),
{
    if p.len() > 0 {
        lemma_non_white_of_white(p.drop_last());
        assert(is_white_space(p[p.len() - 1]));
    }
}

proof fn lemma_trim_start_split(s: Seq<char>)
    ensures
        trim_start(s).len() <= s.len(),
        trim_start(s) == s.subrange(s.len() - trim_start(s).len(), s.len() as int),
        forall|i: int| 0 <= i < s.len() - trim_start(s).len() ==> is_white_space(#[trigger] s[i]),
        trim_start(s).len() > 0 ==> !is_white_space(trim_start(s)[0]),
    decreases s.len(),
{
    if s.len() > 0 && is_white_space(s[0]) {
        let s1 = s.drop_first();
        lemma_trim_start_split(s1);
        assert(trim_start(s) == trim_start(s1));
        assert(s1.subrange(s1.len() - trim_start(s1).len(), s1.len() as int)
            =~= s.subrange(s.len() - trim_start(s).len(), s.len() as int));
        assert forall|i: int| 0 <= i < s.len() - trim_start(s).len() implies is_white_space(#[trigger] s[i]) by {
            if i > 0 { assert(s[i] == s1[i - 1]); }
        }
    } else {
        assert(s.subrange(0, s.len() as int) =~= s);
    }
}

proof fn lemma_trim_end_split(s: Seq<char>)
    ensures
        trim_end(s).len() <= s.len(),
        trim_end(s) == s.subrange(0, trim_end(s).len() as int),
        forall|i: int| trim_end(s).len() <= i < s.len() ==> is_white_space(#[trigger] s[i]),
        trim_end(s).len() > 0 ==> !is_white_space(trim_end(s).last()),
    decreases s.len(),
{
    if s.len() > 0 && is_white_space(s.last()) {
        let s1 = s.drop_last();
        lemma_trim_end_split(s1);
        assert(trim_end(s) == trim_end(s1));
        assert(s1.subrange(0, trim_end(s1).len() as int) =~= s.subrange(0, trim_end(s).len() as int));
        assert forall|i: int| trim_end(s).len() <= i < s.len() implies is_white_space(#[trigger] s[i]) by {
            if i < s.len() - 1 { assert(s[i] == s1[i]); }
        }
    } else {
        assert(s.subrange(0, s.len() as int) =~= s);
    }
}

proof fn lemma_non_white_nonempty(t: Seq<char>, k: int)
    requires
        0 <= k < t.len(),
        !is_white_space(t[k]),
    ensures
        non_white(t).len() >= 1,
    decreases t.len(),
{
    if k < t.len() - 1 {
        lemma_non_white_nonempty(t.drop_last(), k);
    }
}

/// The level whose letter is `t`, if any.
pub open spec fn level_of_letter(t: Seq<char>) -> Option<QrEcc> {
    if t == "L"@ {
        Some(QrEcc::L)
    } else if t == "M"@ {
        Some(QrEcc::M)
    } else if t == "Q"@ {
        Some(QrEcc::Q)
    } else if t == "H"@ {
        Some(QrEcc::H)
    } else {
        None
    }
}

/// A label parses to the level whose letter is the label with its leading
/// and trailing white space trimmed, and to nothing when the trimmed label
/// is not one of `L`, `M`, `Q`, `H`.
pub proof fn law_ecc_label_is_read_trimmed(s: Seq<char>)
    ensures
        ecc_from_label_spec(s) == level_of_letter(trim(s)),
{
    reveal_strlit("L");
    reveal_strlit("M");
    reveal_strlit("Q");
    reveal_strlit("H");
    let u = trim_start(s);
    let t = trim(s);
    lemma_trim_start_split(s);
    lemma_trim_end_split(u);
    let p = s.subrange(0, s.len() - u.len());
    let q = u.subrange(t.len() as int, u.len() as int);
    assert(s =~= p + u);
    assert(u =~= t + q);
    assert forall|i: int| 0 <= i < p.len() implies is_white_space(#[trigger] p[i]) by { assert(p[i] == s[i]); }
    assert forall|i: int| 0 <= i < q.len() implies is_white_space(#[trigger] q[i]) by { assert(q[i] == u[i + t.len()]); }
    lemma_non_white_concat(p, u);
    lemma_non_white_concat(t, q);
    lemma_non_white_of_white(p);
    lemma_non_white_of_white(q);
    assert(non_white(s) =~= non_white(t));
    if t.len() > 0 {
        assert(t[0] == u[0]);
        assert(!is_white_space(t[0]));
        assert(!is_white_space(t.last()));
    }
    if t.len() == 1 {
        assert(non_white(t.drop_last()) =~= Seq::<char>::empty());
        assert(non_white(t) =~= t);
    }
    if t.len() >= 2 {
        lemma_non_white_nonempty(t.drop_last(), 0);
        assert(non_white(t).len() >= 2);
    }
    if t.len() == 0 {
        assert(non_white(t) =~= Seq::<char>::empty());
    }
    assert("L"@ =~= seq!['L']);
    assert("M"@ =~= seq!['M']);
    assert("Q"@ =~= seq!['Q']);
    assert("H"@ =~= seq!['H']);
}

/// Labels round-trip: every level's label parses back to that level, white
/// space around a label does not change what it parses to, and a label
/// parses exactly when its non-white characters are one of `L`, `M`, `Q`,
/// `H`.
pub proof fn law_ecc_label_round_trip(e: QrEcc, s: Seq<char>, before: Seq<char>, after: Seq<char>)
    requires
        forall|i: int| 0 <= i < before.len() ==> is_white_space(#[trigger] before[i]),
        forall|i: int| 0 <= i < after.len() ==> is_white_space(#[trigger] after[i]),
    ensures
        ecc_from_label_spec(ecc_label(e)) == Some(e),
        ecc_from_label_spec(before + s + after) == ecc_from_label_spec(s),
        ecc_from_label_spec(s) is Some <==> (non_white(s) == "L"@ || non_white(s) == "M"@
            || non_white(s) == "Q"@ || non_white(s) == "H"@),
{
    reveal_strlit("L");
    reveal_strlit("M");
    reveal_strlit("Q");
    reveal_strlit("H");
    let l = ecc_label(e);
    assert(non_white(l.drop_last()) =~= Seq::<char>::empty());
    assert(non_white(l) =~= l);
    lemma_non_white_concat(before, s);
    lemma_non_white_concat(before + s, after);
    lemma_non_white_of_white(before);
    lemma_non_white_of_white(after);
    assert(non_white(before + s + after) =~= non_white(s));
    assert("L"@ =~= seq!['L']);
    assert("M"@ =~= seq!['M']);
    assert("Q"@ =~= seq!['Q']);
    assert("H"@ =~= seq!['H']);
}

/// Number of modules per side of a version `version` symbol.
pub fn qr_modules_for_version(version: u8) -> (m: usize)
    requires
        1 <= version,
    ensures
        m == modules_for_version_spec(version as int),
{
    (version as usize - 1) * 4 + 21
}

/// The version whose symbol has `modules` modules per side.
pub open spec fn version_for_modules_spec(modules: int) -> Option<u8> {
    if 21 <= modules <= 177 && (modules - 21) % 4 == 0 {
        Some(((modules - 21) / 4 + 1) as u8)
    } else {
        None
    }
}

/// Versions and side lengths correspond one to one: each version 1..=40
/// gives a side length that maps back to it, and each side length that
/// names a version is that version's side length.
pub proof fn law_version_modules_round_trip(v: int, modules: int)
    ensures
        1 <= v <= 40 ==> version_for_modules_spec(modules_for_version_spec(v)) == Some(v as u8),
        version_for_modules_spec(modules) matches Some(w) ==> modules_for_version_spec(w as int) == modules && 1 <= w <= 40,
{
}

/// The version whose symbol has `modules` modules per side, if any.
pub fn version_for_modules(modules: usize) -> (v: Option<u8>)
    ensures
        v == version_for_modules_spec(modules as int),
{
    if modules < 21 || modules > 177 || (modules - 21) % 4 != 0 {
        return None;
    }
    Some(((modules - 21) / 4 + 1) as u8)
}

/// The `k`-th version offset tried around an estimate: 0, -1, 1, -2, 2.
pub open spec fn version_offset(k: int) -> int {
    if k == 0 { 0 } else if k == 1 { -1 } else if k == 2 { 1 } else if k == 3 { -2 } else { 2 }
}

/// Module counts of the first `k` offsets tried around version index `v`
/// (0-based), keeping the valid indices 0..=39.
pub open spec fn module_count_candidates_upto(v: int, k: int) -> Seq<usize>
    decreases k,
{
    if k <= 0 {
        Seq::empty()
    } else {
        let prev = module_count_candidates_upto(v, k - 1);
        let w = v + version_offset(k - 1);
        if 0 <= w <= 39 { prev.push((21 + 4 * w) as usize) } else { prev }
    }
}

/// The module counts of the versions nearest an estimated version index:
/// the estimate, then one and two versions below and above it.
pub fn module_count_candidates(nearest_version: i32) -> (counts: Vec<usize>)
    requires
        0 <= nearest_version <= 39,
    ensures
        counts@ == module_count_candidates_upto(nearest_version as int, 5),
{
    let mut counts: Vec<usize> = Vec::new();
    let offsets: [i32; 5] = [0, -1, 1, -2, 2];
    let mut i: usize = 0;
    while i < 5
        invariant
            0 <= nearest_version <= 39,
            i <= 5,
            offsets@ == seq![0i32, -1i32, 1i32, -2i32, 2i32],
            counts@ == module_count_candidates_upto(nearest_version as int, i as int),
        decreases 5 - i,
    {
        let version = nearest_version + offsets[i];
        assert(version == nearest_version + version_offset(i as int));
        if 0 <= version && version <= 39 {
            counts.push((21 + version * 4) as usize);
        }
        i = i + 1;
    }
    counts
}

/// The metadata read from a corrected image.
pub open spec fn image_metadata_spec(img: BinaryImage) -> Option<QrImageMetadata> {
    match estimate_module_count_spec(img) {
        None => None,
        Some(modules) => match version_for_modules_spec(modules as int) {
            None => None,
            Some(version) => {
                let format = format_info_spec(img, modules as int);
                Some(QrImageMetadata {
                    version,
                    ecc: match format { Some(c) => Some(c.ecc), None => None },
                    mask: match format { Some(c) => Some(c.mask), None => None },
                })
            },
        },
    }
}

/// An estimated side length is one of the QR sizes, 21 to 177 modules.
pub proof fn lemma_estimate_range(img: BinaryImage)
    ensures
        estimate_module_count_spec(img) matches Some(m) ==> 21 <= m <= 177,
{
    lemma_best_version_range(img, 40);
}

proof fn lemma_best_version_range(img: BinaryImage, n: int)
    requires
        n >= 1,
    ensures
        1 <= best_version(img, n) <= n,
    decreases n,
{
    if n > 1 {
        lemma_best_version_range(img, n - 1);
    }
}

proof fn lemma_score_den_positive(img: BinaryImage, v: int)
    ensures
        score_den(img, v) > 0,
{
    let base = base_checks(modules_for_version_spec(v), 4);
    let all = module_count_checks(modules_for_version_spec(v));
    lemma_total_weight_bound(base, u32::MAX as int);
    assert(all.drop_last() =~= base);
}

proof fn lemma_scores_higher_transitive(img: BinaryImage, a: int, b: int, c: int)
    requires
        scores_higher(img, a, b),
        scores_higher(img, b, c),
    ensures
        scores_higher(img, a, c),
{
    lemma_score_den_positive(img, a);
    lemma_score_den_positive(img, b);
    lemma_score_den_positive(img, c);
    let (na, da) = (score_num(img, a), score_den(img, a));
    let (nb, db) = (score_num(img, b), score_den(img, b));
    let (nc, dc) = (score_num(img, c), score_den(img, c));
    assert(na * dc > nc * da) by (nonlinear_arith)
        requires na * db > nb * da, nb * dc > nc * db, da > 0, db > 0, dc > 0;
}

#[verifier::spinoff_prover]
#[verifier::rlimit(40)]
proof fn lemma_best_version_optimal(img: BinaryImage, n: int)
    requires
        n >= 1,
    ensures
        forall|v: int| 1 <= v <= n ==> !scores_higher(img, v, #[trigger] best_version(img, n)),
        forall|v: int| 1 <= v < best_version(img, n) ==> scores_higher(img, best_version(img, n), v),
    decreases n,
{
    lemma_best_version_range(img, n);
    if n > 1 {
        lemma_best_version_optimal(img, n - 1);
        lemma_best_version_range(img, n - 1);
        let b = best_version(img, n - 1);
        if scores_higher(img, n, b) {
            assert forall|v: int| 1 <= v <= n implies !scores_higher(img, v, #[trigger] best_version(img, n)) by {
                if v < n && scores_higher(img, v, n) {
                    lemma_scores_higher_transitive(img, v, n, b);
                }
                if v == n {
                    lemma_score_den_positive(img, n);
                }
            }
            assert forall|v: int| 1 <= v < best_version(img, n) implies scores_higher(img, best_version(img, n), v) by {
                if v != b && !scores_higher(img, n, v) {
                    // v is no better than b, so n beats it through b
                    assert(!scores_higher(img, v, b));
                    lemma_score_den_positive(img, n);
                    lemma_score_den_positive(img, v);
                    lemma_score_den_positive(img, b);
                    let (nn, dn) = (score_num(img, n), score_den(img, n));
                    let (nv, dv) = (score_num(img, v), score_den(img, v));
                    let (nb, db) = (score_num(img, b), score_den(img, b));
                    assert(nn * dv > nv * dn) by (nonlinear_arith)
                        requires nn * db > nb * dn, nv * db <= nb * dv, dn > 0, db > 0, dv > 0;
                }
            }
        }
    }
}

/// The version the grid-size estimate picks scores at least as high as every
/// version 1 to 40 and strictly higher than every smaller version: it is the
/// smallest best-scoring version.
pub proof fn law_best_version_is_the_first_best(img: BinaryImage)
    ensures
        1 <= best_version(img, 40) <= 40,
        forall|v: int| 1 <= v <= 40 ==> !scores_higher(img, v, #[trigger] best_version(img, 40)),
        forall|v: int| 1 <= v < best_version(img, 40) ==> scores_higher(img, best_version(img, 40), v),
{
    lemma_best_version_range(img, 40);
    lemma_best_version_optimal(img, 40);
}

/// Infers the version (and the format information when it decodes) from the
/// corrected image alone.
pub fn infer_qr_image_metadata(warped: &BinaryImage) -> (r: Option<QrImageMetadata>)
    requires
        warped.wf(),
    ensures
        r == image_metadata_spec(*warped),
{
    proof {
        lemma_estimate_range(*warped);
    }
    let modules = match estimate_module_count(warped) {
        Some(m) => m,
        None => return None,
    };
    let version = match version_for_modules(modules) {
        Some(v) => v,
        None => return None,
    };
    let format = read_format_info_with_modules(warped, modules);
    Some(QrImageMetadata {
        version,
        ecc: match format { Some(c) => Some(c.ecc), None => None },
        mask: match format { Some(c) => Some(c.mask), None => None },
    })
}

#[verifier::external_type_specification]
#[verifier::external_body]
pub struct ExQrCode(QrCode);

/// The modules of a qrcodegen symbol, row by row (`true` = dark).
pub uninterp spec fn qr_code_modules(code: QrCode) -> Seq<Seq<bool>>;

/// The version of a qrcodegen symbol.
pub uninterp spec fn qr_code_version(code: QrCode) -> u8;

/// What qrcodegen encodes `text` into at level `ecc`, searching versions
/// `min_version..=max_version` and using `mask` (or its own choice of mask
/// when `None`): the version and the modules, or the message of its
/// "data too long" error.
pub uninterp spec fn qr_encoding(text: Seq<char>, ecc: QrEcc, min_version: u8, max_version: u8, mask: Option<u8>) -> Result<(u8, Seq<Seq<bool>>), Seq<char>>;

/// Calls `qrcodegen::QrSegment::make_segments` and
/// `qrcodegen::QrCode::encode_segments_advanced` (without boosting the
/// level). Claimed: the outcome is the named encoding of the arguments; on
/// success the symbol's version lies in the searched range and it has
/// `4 * version + 17` rows of as many modules (as `encode_codewords` builds
/// it). Version and mask arguments out of range are left out: `Version::new`
/// and `Mask::new` panic on them.
#[verifier::external_body]
fn encode_qr(text: &str, ecc: QrEcc, min_version: u8, max_version: u8, mask: Option<u8>) -> (r: Result<QrCode, String>)
    requires
        1 <= min_version <= max_version <= 40,
        mask matches Some(m) ==> m <= 7,
    ensures
        match (r, qr_encoding(text@, ecc, min_version, max_version, mask)) {
            (Ok(code), Ok((v, modules))) => {
                &&& qr_code_modules(code) == modules
                &&& qr_code_version(code) == v
                &&& min_version <= v <= max_version
                &&& modules.len() == 4 * v + 17
                &&& forall|y: int| 0 <= y < modules.len() ==> (#[trigger] modules[y]).len() == modules.len()
            },
            (Err(e), Err(msg)) => e@ == msg,
            _ => false,
        },
{
    let level = match ecc {
        QrEcc::L => QrCodeEcc::Low,
        QrEcc::M => QrCodeEcc::Medium,
        QrEcc::Q => QrCodeEcc::Quartile,
        QrEcc::H => QrCodeEcc::High,
    };
    let segments = QrSegment::make_segments(text);
    QrCode::encode_segments_advanced(&segments, level, Version::new(min_version), Version::new(max_version), mask.map(Mask::new), false)
        .map_err(|error| error.to_string())
}

/// Calls `qrcodegen::QrCode::size`. Claimed: the number of rows of the
/// symbol's modules, each row that long, between 21 and 177.
#[verifier::external_body]
fn qr_code_size(code: &QrCode) -> (s: i32)
    ensures
        s == qr_code_modules(*code).len(),
        21 <= s <= 177,
        forall|y: int| 0 <= y < s ==> (#[trigger] qr_code_modules(*code)[y]).len() == s,
{
    code.size()
}

/// Calls `qrcodegen::QrCode::get_module`. Claimed: the module at `(x, y)`,
/// light outside the symbol.
#[verifier::external_body]
fn qr_code_get_module(code: &QrCode, x: i32, y: i32) -> (b: bool)
    ensures
        b == (0 <= x < qr_code_modules(*code).len() && 0 <= y < qr_code_modules(*code).len()
            && qr_code_modules(*code)[y as int][x as int]),
{
    code.get_module(x, y)
}

/// Calls `qrcodegen::QrCode::version` (and `Version::value`). Claimed: the
/// symbol's version.
#[verifier::external_body]
fn qr_code_version_value(code: &QrCode) -> (v: u8)
    ensures
        v == qr_code_version(*code),
{
    code.version().value()
}

/// Copies the modules of a generated symbol into a matrix.
pub fn matrix_from_qrcode(qr: &QrCode) -> (matrix: QrMatrix)
    ensures
        matrix_view(&matrix) == qr_code_modules(*qr),
{
    let size = qr_code_size(qr);
    let n = size as usize;
    let ghost modules = qr_code_modules(*qr);
    let mut matrix: Vec<Vec<bool>> = Vec::new();
    let mut y: usize = 0;
    while y < n
        invariant
            n == modules.len(),
            modules == qr_code_modules(*qr),
            n <= 177,
            forall|k: int| 0 <= k < n ==> (#[trigger] modules[k]).len() == n,
            y <= n,
            matrix@.len() == y,
            forall|k: int| 0 <= k < y ==> (#[trigger] matrix@[k])@ == modules[k],
        decreases n - y,
    {
        let mut row: Vec<bool> = Vec::new();
        let mut x: usize = 0;
        while x < n
            invariant
                n == modules.len(),
                modules == qr_code_modules(*qr),
                n <= 177,
                forall|k: int| 0 <= k < n ==> (#[trigger] modules[k]).len() == n,
                y < n,
                x <= n,
                row@ == modules[y as int].subrange(0, x as int),
            decreases n - x,
        {
            let value = qr_code_get_module(qr, x as i32, y as i32);
            row.push(value);
            x = x + 1;
            assert(row@ =~= modules[y as int].subrange(0, x as int));
        }
        assert(row@ =~= modules[y as int]);
        matrix.push(row);
        y = y + 1;
    }
    assert(matrix_view(&matrix) =~= modules);
    matrix
}

/// The matrix qrcodegen produces for the decoded text at its version, level
/// and the given mask, if the arguments are valid and the text fits.
pub open spec fn regenerate_spec(decoded: QrDecoded, mask: u8) -> Result<Seq<Seq<bool>>, Seq<char>> {
    if !(1 <= decoded.version <= 40) {
        Err("invalid QR version: "@ + decimal(decoded.version as nat))
    } else if mask > 7 {
        Err("invalid QR mask: "@ + decimal(mask as nat))
    } else {
        match qr_encoding(decoded.text@, decoded.ecc, decoded.version, decoded.version, Some(mask)) {
            Ok((_, modules)) => Ok(modules),
            Err(msg) => Err(msg),
        }
    }
}

/// Regenerates the canonical QR matrix of the decoded content with a chosen
/// mask.
pub fn regenerate_qr(decoded: &QrDecoded, mask: u8) -> (r: Result<QrMatrix, QRacerError>)
    ensures
        match (r, regenerate_spec(*decoded, mask)) {
            (Ok(m), Ok(modules)) => matrix_view(&m) == modules,
            (Err(QRacerError::QrDecode(msg)), Err(expected)) => msg@ == expected,
            _ => false,
        },
        r matches Ok(m) ==> {
            &&& m@.len() == modules_for_version_spec(decoded.version as int)
            &&& forall|y: int| 0 <= y < m@.len() ==> (#[trigger] m@[y])@.len() == m@.len()
        },
{
    if decoded.version < 1 || decoded.version > 40 {
        return Err(QRacerError::QrDecode(message_with_number("invalid QR version: ", decoded.version as u64)));
    }
    if mask > 7 {
        return Err(QRacerError::QrDecode(message_with_number("invalid QR mask: ", mask as u64)));
    }
    match encode_qr(decoded.text.as_str(), decoded.ecc, decoded.version, decoded.version, Some(mask)) {
        Ok(qr) => {
            let matrix = matrix_from_qrcode(&qr);
            proof {
                assert forall|y: int| 0 <= y < matrix@.len() implies (#[trigger] matrix@[y])@.len() == matrix@.len() by {
                    assert(matrix_view(&matrix)[y] == matrix@[y]@);
                }
            }
            Ok(matrix)
        },
        Err(message) => Err(QRacerError::QrDecode(message)),
    }
}

/// What the barcode reader returned: the text, whether the symbol was a QR
/// code, and the error-correction label it reported, if any.
#[derive(Clone, Debug)]
pub struct QrReadout {
    pub text: String,
    pub is_qr: bool,
    pub ecc_label: Option<String>,
}

/// The readout as plain values.
pub open spec fn readout_view(r: Result<QrReadout, String>) -> Result<(Seq<char>, bool, Option<Seq<char>>), Seq<char>> {
    match r {
        Ok(o) => Ok((o.text@, o.is_qr, match o.ecc_label { Some(l) => Some(l@), None => None })),
        Err(e) => Err(e@),
    }
}

/// What rxing's QR reader (hybrid binarizer, "try harder", inverted images
/// allowed) reports for a `w` by `h` grayscale raster.
pub uninterp spec fn qr_reader_result(w: u32, h: u32, pixels: Seq<u8>) -> Result<(Seq<char>, bool, Option<Seq<char>>), Seq<char>>;

/// Calls rxing's `MultiFormatReader::decode_with_hints` on the raster
/// (through `Luma8LuminanceSource`, `HybridBinarizer` and `BinaryBitmap`)
/// restricted to QR codes, trying harder and inverted images. Claimed: the
/// readout is the named result of the raster; nothing is claimed of what the
/// reader finds. The raster must not be empty: rxing cannot build a bit
/// matrix of zero width or height and panics.
#[verifier::external_body]
fn read_qr_symbol(image: &GrayImage) -> (r: Result<QrReadout, String>)
    requires
        image.wf(),
        image.w > 0,
        image.h > 0,
    ensures
        readout_view(r) == qr_reader_result(image.w, image.h, image.data@),
{
    let mut bitmap = BinaryBitmap::new(HybridBinarizer::new(Luma8LuminanceSource::new(image.data.clone(), image.w, image.h)));
    let hints = DecodeHints { PossibleFormats: Some(HashSet::from([QR_CODE])), TryHarder: Some(true), AlsoInverted: Some(true), ..Default::default() };
    let result = MultiFormatReader::default().decode_with_hints(&mut bitmap, &hints).map_err(|error| error.to_string())?;
    let ecc_label = match result.getRXingResultMetadata().get(&ERROR_CORRECTION_LEVEL) {
        Some(ErrorCorrectionLevel(level)) => Some(level.clone()),
        _ => None,
    };
    Ok(QrReadout { text: result.getText().to_owned(), is_qr: result.getBarcodeFormat() == &QR_CODE, ecc_label })
}

/// Width of the white margin put around a corrected image before decoding.
pub open spec fn pad_border(w: u32, h: u32) -> int {
    let m: int = if w <= h { w as int } else { h as int };
    if m / 8 >= 16 { m / 8 } else { 16 }
}

/// The padded image fits the raster limits.
pub open spec fn padded_fits(w: u32, h: u32) -> bool {
    &&& w + 2 * pad_border(w, h) <= i32::MAX
    &&& h + 2 * pad_border(w, h) <= i32::MAX
    &&& (w + 2 * pad_border(w, h)) * (h + 2 * pad_border(w, h)) <= usize::MAX
}

/// The pixel at index `i` of the padded image: the corrected image shifted by
/// the border, white around it.
pub open spec fn padded_value(img: BinaryImage, i: int) -> u8 {
    let b = pad_border(img.w, img.h);
    let pw = img.w + 2 * b;
    img.pixel(i % pw - b, i / pw - b)
}

/// The corrected image with a white border, as a grayscale raster.
pub open spec fn padded_pixels(img: BinaryImage) -> Seq<u8> {
    let b = pad_border(img.w, img.h);
    Seq::new(((img.w + 2 * b) * (img.h + 2 * b)) as nat, |i: int| padded_value(img, i))
}

/// Surrounds the corrected binary image with a white quiet zone of
/// `max(min(w, h) / 8, 16)` pixels.
pub fn padded_warped_image(warped: &BinaryImage) -> (out: GrayImage)
    requires
        warped.wf(),
        padded_fits(warped.w, warped.h),
    ensures
        out.wf(),
        out.w == warped.w + 2 * pad_border(warped.w, warped.h),
        out.h == warped.h + 2 * pad_border(warped.w, warped.h),
        out.data@ == padded_pixels(*warped),
{
    let side = if warped.w <= warped.h { warped.w } else { warped.h };
    let border: u32 = if side / 8 >= 16 { side / 8 } else { 16 };
    let width: u32 = warped.w + border * 2;
    let height: u32 = warped.h + border * 2;
    let ghost b = border as int;
    let mut data: Vec<u8> = Vec::new();
    let mut y: u32 = 0;
    while y < height
        invariant
            warped.wf(),
            b == pad_border(warped.w, warped.h),
            border == b,
            width == warped.w + 2 * b,
            height == warped.h + 2 * b,
            padded_fits(warped.w, warped.h),
            y <= height,
            data@.len() == y * width,
            forall|k: int| 0 <= k < data@.len() ==> data@[k] == padded_value(*warped, k),
        decreases height - y,
    {
        let mut x: u32 = 0;
        while x < width
            invariant
                warped.wf(),
                b == pad_border(warped.w, warped.h),
                border == b,
                width == warped.w + 2 * b,
                height == warped.h + 2 * b,
                padded_fits(warped.w, warped.h),
                y < height,
                x <= width,
                data@.len() == y * width + x,
                forall|k: int| 0 <= k < data@.len() ==> data@[k] == padded_value(*warped, k),
            decreases width - x,
        {
            let value: u8 = if x >= border && y >= border && x - border < warped.w && y - border < warped.h {
                warped.get((x - border) as i32, (y - border) as i32)
            } else {
                255
            };
            proof {
                lemma_raster_index_inverse(width as int, x as int, y as int);
                lemma_raster_index_bounds(width as int, height as int, x as int, y as int);
                assert(value == padded_value(*warped, (y * width + x) as int));
            }
            data.push(value);
            x = x + 1;
        }
        proof {
            lemma_next_row(width as int, y as int);
        }
        y = y + 1;
    }
    proof {
        assert((height as int) * (width as int) == (width as int) * (height as int)) by (nonlinear_arith);
        assert(data@ =~= padded_pixels(*warped));
    }
    GrayImage { w: width, h: height, data }
}

/// The smallest version that holds `text` at level `ecc` (40 when nothing
/// does).
pub open spec fn minimal_version_spec(text: Seq<char>, ecc: QrEcc) -> u8 {
    match qr_encoding(text, ecc, 1, 40, None) {
        Ok((v, _)) => v,
        Err(_) => 40,
    }
}

/// The smallest version that holds the text at the level.
pub fn minimal_version_for_text(text: &str, ecc: QrEcc) -> (v: u8)
    ensures
        v == minimal_version_spec(text@, ecc),
        1 <= v <= 40,
{
    match encode_qr(text, ecc, 1, 40, None) {
        Ok(qr) => qr_code_version_value(&qr),
        Err(_) => 40,
    }
}

/// The readout of the original image, or else (when a corrected image is
/// given) that of the padded corrected image, keeping the first error when
/// both fail.
pub open spec fn readout_spec(img: GrayImage, warped: Option<BinaryImage>) -> Result<(Seq<char>, bool, Option<Seq<char>>), Seq<char>> {
    match qr_reader_result(img.w, img.h, img.data@) {
        Ok(r) => Ok(r),
        Err(first) => match warped {
            None => Err(first),
            Some(wp) => {
                let b = pad_border(wp.w, wp.h);
                match qr_reader_result((wp.w + 2 * b) as u32, (wp.h + 2 * b) as u32, padded_pixels(wp)) {
                    Ok(r) => Ok(r),
                    Err(_) => Err(first),
                }
            },
        },
    }
}

/// What a readout decodes to: text, version, level and original mask, or an
/// error message. The level comes from the reader's label, else from the
/// corrected image's format information; the version and mask come from the
/// corrected image, else the version is the smallest that holds the text.
pub open spec fn readout_decode_spec(readout: (Seq<char>, bool, Option<Seq<char>>), warped: Option<BinaryImage>) -> Result<(Seq<char>, u8, QrEcc, Option<u8>), Seq<char>> {
    let (text, is_qr, label) = readout;
    if !is_qr {
        Err("decoded format is not QR"@)
    } else {
        let meta = match warped { Some(wp) => image_metadata_spec(wp), None => None };
        let from_reader = match label { Some(l) => ecc_from_label_spec(l), None => None };
        let ecc = match from_reader {
            Some(e) => Some(e),
            None => match meta { Some(m) => m.ecc, None => None },
        };
        match ecc {
            None => Err("missing QR error correction metadata"@),
            Some(e) => Ok((
                text,
                match meta { Some(m) => m.version, None => minimal_version_spec(text, e) },
                e,
                match meta { Some(m) => m.mask, None => None },
            )),
        }
    }
}

/// The outcome of `decode_qr`: text, version, level and original mask, or an
/// error message.
pub open spec fn decode_qr_spec(img: GrayImage, warped: Option<BinaryImage>) -> Result<(Seq<char>, u8, QrEcc, Option<u8>), Seq<char>> {
    match readout_spec(img, warped) {
        Err(e) => Err(e),
        Ok(r) => readout_decode_spec(r, warped),
    }
}

/// Whether a decode result matches its specified outcome.
pub open spec fn decode_matches(r: Result<QrDecoded, QRacerError>, expected: Result<(Seq<char>, u8, QrEcc, Option<u8>), Seq<char>>) -> bool {
    match (r, expected) {
        (Ok(d), Ok((text, version, ecc, mask))) => d.text@ == text && d.version == version && d.ecc == ecc && d.original_mask == mask,
        (Err(QRacerError::QrDecode(msg)), Err(e)) => msg@ == e,
        _ => false,
    }
}

/// Completes what the reader returned into decoded content, reading the
/// version, level and mask from the corrected image where it has them.
pub fn decode_readout(readout: QrReadout, warped: Option<&BinaryImage>) -> (r: Result<QrDecoded, QRacerError>)
    requires
        warped matches Some(wp) ==> wp.wf(),
    ensures
        decode_matches(r, readout_decode_spec(
            (readout.text@, readout.is_qr, match readout.ecc_label { Some(l) => Some(l@), None => None }),
            match warped { Some(wp) => Some(*wp), None => None })),
{
    if !readout.is_qr {
        return Err(QRacerError::QrDecode("decoded format is not QR".to_owned()));
    }
    let image_metadata = match warped {
        Some(wp) => infer_qr_image_metadata(wp),
        None => None,
    };
    let from_reader = match &readout.ecc_label {
        Some(label) => QrEcc::from_label(label.as_str()),
        None => None,
    };
    let ecc = match from_reader {
        Some(e) => e,
        None => match image_metadata {
            Some(meta) => match meta.ecc {
                Some(e) => e,
                None => return Err(QRacerError::QrDecode("missing QR error correction metadata".to_owned())),
            },
            None => return Err(QRacerError::QrDecode("missing QR error correction metadata".to_owned())),
        },
    };
    let version = match image_metadata {
        Some(meta) => meta.version,
        None => minimal_version_for_text(readout.text.as_str(), ecc),
    };
    Ok(QrDecoded {
        text: readout.text,
        version,
        ecc,
        original_mask: match image_metadata { Some(meta) => meta.mask, None => None },
    })
}

/// Decodes a QR code from the source image, falling back to the padded
/// corrected image, and completes the version, level and mask from the
/// corrected image's own patterns.
pub fn decode_qr(img: &GrayImage, warped: Option<&BinaryImage>) -> (r: Result<QrDecoded, QRacerError>)
    requires
        img.wf(),
        img.w > 0,
        img.h > 0,
        warped matches Some(wp) ==> wp.wf() && padded_fits(wp.w, wp.h),
    ensures
        decode_matches(r, decode_qr_spec(*img, match warped { Some(wp) => Some(*wp), None => None })),
{
    let readout = match read_qr_symbol(img) {
        Ok(readout) => readout,
        Err(first_error) => match warped {
            None => return Err(QRacerError::QrDecode(first_error)),
            Some(wp) => {
                let padded = padded_warped_image(wp);
                match read_qr_symbol(&padded) {
                    Ok(readout) => readout,
                    Err(_) => return Err(QRacerError::QrDecode(first_error)),
                }
            },
        },
    };
    decode_readout(readout, warped)
}

} // verus!
