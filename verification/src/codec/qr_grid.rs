use vstd::prelude::*;
use crate::pipeline::preprocess::BinaryImage;
use crate::error::QRacerError;
use crate::text::{message_with_number, decimal};
use crate::codec::qr::{round_ratio, QrMatrix, matrix_view, estimate_module_count, estimate_module_count_spec,
    version_for_modules, version_for_modules_spec, modules_for_version_spec};
use crate::codec::qr_checks::{Check, base_checks, base_pattern_checks};

verus! {

/// Number of alignment-pattern coordinates per axis of version `v`.
pub open spec fn alignment_count(v: int) -> int {
    v / 7 + 2
}

/// Distance between neighbouring alignment coordinates of version `v`.
pub open spec fn alignment_step(v: int) -> int {
    if v == 32 {
        26
    } else {
        ((v * 4 + alignment_count(v) * 2 + 1) / (alignment_count(v) * 2 - 2)) * 2
    }
}

/// The alignment-pattern centre coordinates of version `v` (`modules` per
/// side): 6, then coordinates spaced by the step that end at `modules - 7`
/// (never below 0).
pub open spec fn alignment_positions_spec(v: int, modules: int) -> Seq<int> {
    if v <= 1 {
        Seq::empty()
    } else {
        Seq::new(alignment_count(v) as nat, |i: int| if i == 0 {
            6
        } else {
            let p = modules - 7 - (alignment_count(v) - 1 - i) * alignment_step(v);
            if p >= 0 { p } else { 0 }
        })
    }
}

/// For every version, the second alignment coordinate is still at least 6.
proof fn lemma_alignment_second_position(v: int)
    requires
        2 <= v <= 40,
    ensures
        alignment_step(v) > 0,
        modules_for_version_spec(v) - 7 - (alignment_count(v) - 2) * alignment_step(v) >= 6,
{
    if v == 2 {
        assert(13int / 2int == 6) by (nonlinear_arith);
        assert(alignment_step(2) == 12);
    } else if v == 3 {
        assert(17int / 2int == 8) by (nonlinear_arith);
        assert(alignment_step(3) == 16);
    } else if v == 4 {
        assert(21int / 2int == 10) by (nonlinear_arith);
        assert(alignment_step(4) == 20);
    } else if v == 5 {
        assert(25int / 2int == 12) by (nonlinear_arith);
        assert(alignment_step(5) == 24);
    } else if v == 6 {
        assert(29int / 2int == 14) by (nonlinear_arith);
        assert(alignment_step(6) == 28);
    } else if v == 7 {
        assert(35int / 4int == 8) by (nonlinear_arith);
        assert(alignment_step(7) == 16);
    } else if v == 8 {
        assert(39int / 4int == 9) by (nonlinear_arith);
        assert(alignment_step(8) == 18);
    } else if v == 9 {
        assert(43int / 4int == 10) by (nonlinear_arith);
        assert(alignment_step(9) == 20);
    } else if v == 10 {
        assert(47int / 4int == 11) by (nonlinear_arith);
        assert(alignment_step(10) == 22);
    } else if v == 11 {
        assert(51int / 4int == 12) by (nonlinear_arith);
        assert(alignment_step(11) == 24);
    } else if v == 12 {
        assert(55int / 4int == 13) by (nonlinear_arith);
        assert(alignment_step(12) == 26);
    } else if v == 13 {
        assert(59int / 4int == 14) by (nonlinear_arith);
        assert(alignment_step(13) == 28);
    } else if v == 14 {
        assert(65int / 6int == 10) by (nonlinear_arith);
        assert(alignment_step(14) == 20);
    } else if v == 15 {
        assert(69int / 6int == 11) by (nonlinear_arith);
        assert(alignment_step(15) == 22);
    } else if v == 16 {
        assert(73int / 6int == 12) by (nonlinear_arith);
        assert(alignment_step(16) == 24);
    } else if v == 17 {
        assert(77int / 6int == 12) by (nonlinear_arith);
        assert(alignment_step(17) == 24);
    } else if v == 18 {
        assert(81int / 6int == 13) by (nonlinear_arith);
        assert(alignment_step(18) == 26);
    } else if v == 19 {
        assert(85int / 6int == 14) by (nonlinear_arith);
        assert(alignment_step(19) == 28);
    } else if v == 20 {
        assert(89int / 6int == 14) by (nonlinear_arith);
        assert(alignment_step(20) == 28);
    } else if v == 21 {
        assert(95int / 8int == 11) by (nonlinear_arith);
        assert(alignment_step(21) == 22);
    } else if v == 22 {
        assert(99int / 8int == 12) by (nonlinear_arith);
        assert(alignment_step(22) == 24);
    } else if v == 23 {
        assert(103int / 8int == 12) by (nonlinear_arith);
        assert(alignment_step(23) == 24);
    } else if v == 24 {
        assert(107int / 8int == 13) by (nonlinear_arith);
        assert(alignment_step(24) == 26);
    } else if v == 25 {
        assert(111int / 8int == 13) by (nonlinear_arith);
        assert(alignment_step(25) == 26);
    } else if v == 26 {
        assert(115int / 8int == 14) by (nonlinear_arith);
        assert(alignment_step(26) == 28);
    } else if v == 27 {
        assert(119int / 8int == 14) by (nonlinear_arith);
        assert(alignment_step(27) == 28);
    } else if v == 28 {
        assert(125int / 10int == 12) by (nonlinear_arith);
        assert(alignment_step(28) == 24);
    } else if v == 29 {
        assert(129int / 10int == 12) by (nonlinear_arith);
        assert(alignment_step(29) == 24);
    } else if v == 30 {
        assert(133int / 10int == 13) by (nonlinear_arith);
        assert(alignment_step(30) == 26);
    } else if v == 31 {
        assert(137int / 10int == 13) by (nonlinear_arith);
        assert(alignment_step(31) == 26);
    } else if v == 32 {
        assert(alignment_step(32) == 26);
    } else if v == 33 {
        assert(145int / 10int == 14) by (nonlinear_arith);
        assert(alignment_step(33) == 28);
    } else if v == 34 {
        assert(149int / 10int == 14) by (nonlinear_arith);
        assert(alignment_step(34) == 28);
    } else if v == 35 {
        assert(155int / 12int == 12) by (nonlinear_arith);
        assert(alignment_step(35) == 24);
    } else if v == 36 {
        assert(159int / 12int == 13) by (nonlinear_arith);
        assert(alignment_step(36) == 26);
    } else if v == 37 {
        assert(163int / 12int == 13) by (nonlinear_arith);
        assert(alignment_step(37) == 26);
    } else if v == 38 {
        assert(167int / 12int == 13) by (nonlinear_arith);
        assert(alignment_step(38) == 26);
    } else if v == 39 {
        assert(171int / 12int == 14) by (nonlinear_arith);
        assert(alignment_step(39) == 28);
    } else if v == 40 {
        assert(175int / 12int == 14) by (nonlinear_arith);
        assert(alignment_step(40) == 28);
    }
}

proof fn lemma_alignment_positions_range(v: int, modules: int, i: int)
    requires
        2 <= v <= 40,
        modules == modules_for_version_spec(v),
        0 <= i < alignment_count(v),
    ensures
        6 <= alignment_positions_spec(v, modules)[i] <= modules - 7,
{
    lemma_alignment_second_position(v);
    if i > 0 {
        let c = alignment_count(v);
        let s = alignment_step(v);
        assert((c - 1 - i) * s <= (c - 2) * s) by (nonlinear_arith)
            requires 1 <= i, s > 0;
        assert((c - 1 - i) * s >= 0) by (nonlinear_arith)
            requires i < c, s > 0;
    }
}

/// The alignment-pattern centre coordinates of a version.
pub(crate) fn alignment_pattern_positions(version: u8, modules: usize) -> (p: Vec<usize>)
    requires
        1 <= version <= 40,
        modules == modules_for_version_spec(version as int),
    ensures
        p@.len() == alignment_positions_spec(version as int, modules as int).len(),
        forall|i: int| 0 <= i < p@.len() ==> p@[i] == alignment_positions_spec(version as int, modules as int)[i],
        forall|i: int| 0 <= i < p@.len() ==> 6 <= #[trigger] p@[i] <= modules - 7,
{
    if version <= 1 {
        return Vec::new();
    }
    let count: usize = version as usize / 7 + 2;
    let step: usize = if version == 32 {
        26
    } else {
        ((version as usize * 4 + count * 2 + 1) / (count * 2 - 2)) * 2
    };
    let ghost spec_p = alignment_positions_spec(version as int, modules as int);
    proof {
        lemma_alignment_second_position(version as int);
    }
    let mut positions: Vec<usize> = Vec::new();
    let mut i: usize = 0;
    while i < count
        invariant
            i <= count,
            positions@.len() == i,
            forall|k: int| 0 <= k < i ==> positions@[k] == 6,
        decreases count - i,
    {
        positions.push(6);
        i = i + 1;
    }
    let mut pos: usize = modules - 7;
    let mut index: usize = count - 1;
    assert(count - 1 - index == 0);
    assert((count - 1 - index) * step == 0) by (nonlinear_arith) requires count - 1 - index == 0;
    while index >= 1
        invariant
            2 <= version <= 40,
            modules == modules_for_version_spec(version as int),
            count == alignment_count(version as int),
            step == alignment_step(version as int),
            spec_p == alignment_positions_spec(version as int, modules as int),
            positions@.len() == count,
            index < count,
            positions@[0] == 6,
            forall|k: int| index < k < count ==> positions@[k] == spec_p[k],
            pos as int == (if modules - 7 - (count - 1 - index) * step >= 0 { modules - 7 - (count - 1 - index) * step } else { 0 }),
        decreases index,
    {
        positions.set(index, pos);
        proof {
            assert((count - 1 - (index - 1)) * step == (count - 1 - index) * step + step) by (nonlinear_arith);
        }
        pos = pos.saturating_sub(step);
        index = index - 1;
    }
    proof {
        assert forall|k: int| 0 <= k < positions@.len() implies 6 <= #[trigger] positions@[k] <= modules - 7 by {
            lemma_alignment_positions_range(version as int, modules as int, k);
        }
    }
    positions
}

/// Whether an alignment centre coincides with a finder corner.
pub open spec fn alignment_overlaps_finder_spec(cx: int, cy: int, modules: int) -> bool {
    (cx == 6 && (cy == 6 || cy == modules - 7)) || (cy == 6 && cx == modules - 7)
}

pub(crate) fn alignment_overlaps_finder(cx: usize, cy: usize, modules: usize) -> (b: bool)
    requires
        modules >= 7,
    ensures
        b == alignment_overlaps_finder_spec(cx as int, cy as int, modules as int),
{
    (cx == 6 && (cy == 6 || cy == modules - 7)) || (cy == 6 && cx == modules - 7)
}

/// The 5x5 alignment pattern: dark border and centre.
pub open spec fn alignment_expected(dx: int, dy: int) -> bool {
    dx == 0 || dx == 4 || dy == 0 || dy == 4 || (dx == 2 && dy == 2)
}

/// The 25 checks of the alignment pattern centred on `(cx, cy)`, or none
/// when it would overlap a finder.
pub open spec fn alignment_block(cx: int, cy: int, modules: int) -> Seq<Check> {
    if alignment_overlaps_finder_spec(cx, cy, modules) {
        Seq::empty()
    } else {
        Seq::new(25, |k: int| Check {
            x: (cx + k % 5 - 2) as usize,
            y: (cy + k / 5 - 2) as usize,
            expected: alignment_expected(k % 5, k / 5),
            weight: 4,
        })
    }
}

/// The alignment checks of the first `p` centre pairs (row-major over the
/// coordinate list).
pub open spec fn alignment_checks_upto(v: int, modules: int, p: int) -> Seq<Check>
    decreases p,
{
    if p <= 0 {
        Seq::empty()
    } else {
        let pos = alignment_positions_spec(v, modules);
        let n = pos.len() as int;
        alignment_checks_upto(v, modules, p - 1) + alignment_block(pos[(p - 1) % n], pos[(p - 1) / n], modules)
    }
}

/// All alignment checks of version `v`.
pub open spec fn alignment_checks(v: int, modules: int) -> Seq<Check> {
    let n = alignment_positions_spec(v, modules).len() as int;
    alignment_checks_upto(v, modules, n * n)
}

/// The checks scored for a sampling grid: finders (weight 5), separators,
/// timing patterns and alignment patterns.
pub open spec fn grid_checks(v: int, modules: int) -> Seq<Check> {
    base_checks(modules, 5) + alignment_checks(v, modules)
}

/// Appends the alignment checks of the centre `(cx, cy)`.
fn push_alignment_block(checks: &mut Vec<Check>, cx: usize, cy: usize, modules: usize)
    requires
        2 <= cx,
        2 <= cy,
        cx + 3 <= modules,
        cy + 3 <= modules,
        7 <= modules <= 177,
    ensures
        final(checks)@ == old(checks)@ + alignment_block(cx as int, cy as int, modules as int),
{
    if alignment_overlaps_finder(cx, cy, modules) {
        assert(checks@ =~= old(checks)@ + alignment_block(cx as int, cy as int, modules as int));
        return;
    }
    let ghost start = checks@;
    let ghost block = alignment_block(cx as int, cy as int, modules as int);
    let mut dy: usize = 0;
    while dy < 5
        invariant
            dy <= 5,
            2 <= cx,
            2 <= cy,
            cx + 3 <= modules,
            cy + 3 <= modules,
            modules <= 177,
            !alignment_overlaps_finder_spec(cx as int, cy as int, modules as int),
            block == alignment_block(cx as int, cy as int, modules as int),
            checks@ == start + block.subrange(0, (dy * 5) as int),
        decreases 5 - dy,
    {
        let mut dx: usize = 0;
        while dx < 5
            invariant
                dx <= 5,
                dy < 5,
                2 <= cx,
                2 <= cy,
                cx + 3 <= modules,
                cy + 3 <= modules,
                modules <= 177,
                !alignment_overlaps_finder_spec(cx as int, cy as int, modules as int),
                block == alignment_block(cx as int, cy as int, modules as int),
                checks@ == start + block.subrange(0, (dy * 5 + dx) as int),
            decreases 5 - dx,
        {
            let expected = dx == 0 || dx == 4 || dy == 0 || dy == 4 || (dx == 2 && dy == 2);
            proof {
                crate::raster::lemma_raster_index_inverse(5, dx as int, dy as int);
            }
            checks.push(Check { x: cx + dx - 2, y: cy + dy - 2, expected, weight: 4 });
            assert(checks@ =~= start + block.subrange(0, (dy * 5 + dx + 1) as int));
            dx = dx + 1;
        }
        dy = dy + 1;
    }
    assert(block.subrange(0, 25) =~= block);
}

/// Builds all checks scored for a sampling grid of a version.
fn grid_pattern_checks(version: u8, modules: usize) -> (checks: Vec<Check>)
    requires
        1 <= version <= 40,
        modules == modules_for_version_spec(version as int),
    ensures
        checks@ == grid_checks(version as int, modules as int),
{
    let mut checks = base_pattern_checks(modules, 5);
    let positions = alignment_pattern_positions(version, modules);
    let n = positions.len();
    let ghost base = checks@;
    let ghost pos = alignment_positions_spec(version as int, modules as int);
    assert(n <= 7);
    assert(n * n <= 49) by (nonlinear_arith) requires n <= 7;
    let mut p: usize = 0;
    while p < n * n
        invariant
            1 <= version <= 40,
            modules == modules_for_version_spec(version as int),
            n == positions@.len(),
            n <= 7,
            n * n <= 49,
            pos == alignment_positions_spec(version as int, modules as int),
            pos.len() == n,
            forall|i: int| 0 <= i < n ==> positions@[i] == pos[i],
            forall|i: int| 0 <= i < n ==> 6 <= #[trigger] positions@[i] <= modules - 7,
            p <= n * n,
            checks@ == base + alignment_checks_upto(version as int, modules as int, p as int),
        decreases n * n - p,
    {
        proof {
            assert(n > 0);
            vstd::arithmetic::div_mod::lemma_mod_pos_bound(p as int, n as int);
            vstd::arithmetic::div_mod::lemma_div_pos_is_pos(p as int, n as int);
            vstd::arithmetic::div_mod::lemma_multiply_divide_lt(p as int, n as int, n as int);
        }
        let cx = positions[p % n];
        let cy = positions[p / n];
        push_alignment_block(&mut checks, cx, cy, modules);
        proof {
            assert(alignment_checks_upto(version as int, modules as int, p as int + 1)
                == alignment_checks_upto(version as int, modules as int, p as int) + alignment_block(pos[(p as int) % (n as int)], pos[(p as int) / (n as int)], modules as int));
            assert(checks@ =~= base + alignment_checks_upto(version as int, modules as int, p as int + 1));
        }
        p = p + 1;
    }
    assert(checks@ =~= grid_checks(version as int, modules as int));
    checks
}

/// A sampling grid: the module grid shifted by `shift_x`, `shift_y` steps of
/// 0.08 module (from -3 to 3) and scaled by `scale_x`, `scale_y` thousandths
/// about the image centre.
#[derive(Clone, Copy, Debug, PartialEq, Eq)]
pub struct SamplingGrid {
    pub shift_x: i32,
    pub shift_y: i32,
    pub scale_x: u32,
    pub scale_y: u32,
}

/// The seven scales tried, in thousandths.
pub open spec fn scale_table(i: int) -> u32 {
    if i == 0 { 965 } else if i == 1 { 980 } else if i == 2 { 995 } else if i == 3 { 1000 }
    else if i == 4 { 1005 } else if i == 5 { 1020 } else { 1035 }
}

fn scale_at(i: usize) -> (s: u32)
    requires
        i < 7,
    ensures
        s == scale_table(i as int),
{
    if i == 0 { 965 } else if i == 1 { 980 } else if i == 2 { 995 } else if i == 3 { 1000 }
    else if i == 4 { 1005 } else if i == 5 { 1020 } else { 1035 }
}

/// Grid number `g` of the 2401 tried, in the search order: vertical shift,
/// horizontal shift, vertical scale, horizontal scale (outermost first).
pub open spec fn grid_of_index(g: int) -> SamplingGrid {
    SamplingGrid {
        shift_y: (g / 343 - 3) as i32,
        shift_x: ((g / 49) % 7 - 3) as i32,
        scale_y: scale_table((g / 7) % 7),
        scale_x: scale_table(g % 7),
    }
}

/// Pixel coordinate, along an axis of `len` pixels, of sample `j` (-1, 0, 1
/// for -0.18, 0, +0.18 module) of cell `idx` on a grid of `modules` cells
/// shifted by `k` steps and scaled by `scale` thousandths about the centre,
/// rounded half up and clamped to the image.
pub open spec fn grid_coord(len: u32, modules: int, idx: int, k: int, scale: int, j: int) -> int {
    let t = 50 * idx + 25 - 25 * modules + 4 * k + 9 * j;
    let num = len * (25000 * modules + t * scale);
    let den = 50000 * modules;
    let r = if num < 0 { 0 } else { round_ratio(num, den) };
    let hi: int = if len == 0 { 0 } else { len - 1 };
    if r > hi { hi } else { r }
}

/// 1 when sample `(jx, jy)` of module `(x, y)` under grid `g` is black.
pub open spec fn grid_vote(img: BinaryImage, modules: int, x: int, y: int, g: SamplingGrid, jx: int, jy: int) -> int {
    if img.dark(grid_coord(img.w, modules, x, g.shift_x as int, g.scale_x as int, jx),
        grid_coord(img.h, modules, y, g.shift_y as int, g.scale_y as int, jy)) { 1 } else { 0 }
}

/// Black samples among the nine samples of module `(x, y)` under grid `g`.
pub open spec fn grid_votes(img: BinaryImage, modules: int, x: int, y: int, g: SamplingGrid) -> int {
    grid_vote(img, modules, x, y, g, -1, -1) + grid_vote(img, modules, x, y, g, 0, -1) + grid_vote(img, modules, x, y, g, 1, -1)
        + grid_vote(img, modules, x, y, g, -1, 0) + grid_vote(img, modules, x, y, g, 0, 0) + grid_vote(img, modules, x, y, g, 1, 0)
        + grid_vote(img, modules, x, y, g, -1, 1) + grid_vote(img, modules, x, y, g, 0, 1) + grid_vote(img, modules, x, y, g, 1, 1)
}

/// A module reads dark under a grid when at least four of its nine samples
/// are black.
pub open spec fn grid_black(img: BinaryImage, modules: int, x: int, y: int, g: SamplingGrid) -> bool {
    2 * grid_votes(img, modules, x, y, g) + 1 >= 9
}

fn grid_position(len: u32, modules: usize, idx: usize, k: i32, scale: u32, j: i32) -> (c: i32)
    requires
        1 <= modules <= 177,
        idx < 177,
        -3 <= k <= 3,
        965 <= scale <= 1035,
        -1 <= j <= 1,
        len <= i32::MAX,
    ensures
        c == grid_coord(len, modules as int, idx as int, k as int, scale as int, j as int),
{
    let t: i128 = 50 * (idx as i128) + 25 - 25 * (modules as i128) + 4 * (k as i128) + 9 * (j as i128);
    proof {
        assert(-20_000_000 <= t * (scale as int) <= 20_000_000) by (nonlinear_arith)
            requires -10000 <= t <= 10000, 965 <= scale <= 1035;
    }
    let inner: i128 = 25000 * (modules as i128) + t * (scale as i128);
    proof {
        assert(-100_000_000 * 0x1_0000_0000 <= (len as int) * inner <= 100_000_000 * 0x1_0000_0000) by (nonlinear_arith)
            requires -100_000_000 <= inner <= 100_000_000, 0 <= len <= 0x1_0000_0000;
    }
    let num: i128 = (len as i128) * inner;
    let den: i128 = 50000 * (modules as i128);
    let r: i128 = if num < 0 { 0 } else { (2 * num + den) / (2 * den) };
    let hi: i128 = len.saturating_sub(1) as i128;
    proof {
        if num >= 0 {
            assert(0 <= (2 * num + den) / (2 * den));
        }
    }
    let c = if r > hi { hi } else { r };
    c as i32
}

/// The nine-sample vote of module `(x, y)` under a grid: the number of
/// black samples.
fn qr_module_vote(warped: &BinaryImage, modules: usize, x: usize, y: usize, grid: SamplingGrid) -> (black: u32)
    requires
        warped.wf(),
        1 <= modules <= 177,
        x < 177,
        y < 177,
        -3 <= grid.shift_x <= 3,
        -3 <= grid.shift_y <= 3,
        965 <= grid.scale_x <= 1035,
        965 <= grid.scale_y <= 1035,
    ensures
        black == grid_votes(*warped, modules as int, x as int, y as int, grid),
        black <= 9,
{
    let x0 = grid_position(warped.w, modules, x, grid.shift_x, grid.scale_x, -1);
    let x1 = grid_position(warped.w, modules, x, grid.shift_x, grid.scale_x, 0);
    let x2 = grid_position(warped.w, modules, x, grid.shift_x, grid.scale_x, 1);
    let y0 = grid_position(warped.h, modules, y, grid.shift_y, grid.scale_y, -1);
    let y1 = grid_position(warped.h, modules, y, grid.shift_y, grid.scale_y, 0);
    let y2 = grid_position(warped.h, modules, y, grid.shift_y, grid.scale_y, 1);
    let mut black: u32 = 0;
    if warped.is_black(x0, y0) { black += 1; }
    if warped.is_black(x1, y0) { black += 1; }
    if warped.is_black(x2, y0) { black += 1; }
    if warped.is_black(x0, y1) { black += 1; }
    if warped.is_black(x1, y1) { black += 1; }
    if warped.is_black(x2, y1) { black += 1; }
    if warped.is_black(x0, y2) { black += 1; }
    if warped.is_black(x1, y2) { black += 1; }
    if warped.is_black(x2, y2) { black += 1; }
    black
}

/// Samples one module under a grid: dark when at least four of the nine
/// samples are black.
fn sample_qr_module_with_grid(warped: &BinaryImage, modules: usize, x: usize, y: usize, grid: SamplingGrid) -> (b: bool)
    requires
        warped.wf(),
        1 <= modules <= 177,
        x < 177,
        y < 177,
        -3 <= grid.shift_x <= 3,
        -3 <= grid.shift_y <= 3,
        965 <= grid.scale_x <= 1035,
        965 <= grid.scale_y <= 1035,
    ensures
        b == grid_black(*warped, modules as int, x as int, y as int, grid),
{
    let black = qr_module_vote(warped, modules, x, y, grid);
    black * 2 + 1 >= 9
}

/// Weight of the in-range checks that grid `g` agrees with (checks outside
/// the `modules` square are skipped).
pub open spec fn ranged_hits(checks: Seq<Check>, img: BinaryImage, modules: int, g: SamplingGrid) -> int
    decreases checks.len(),
{
    if checks.len() == 0 {
        0
    } else {
        let c = checks.last();
        ranged_hits(checks.drop_last(), img, modules, g) + if c.x < modules && c.y < modules
            && grid_black(img, modules, c.x as int, c.y as int, g) == c.expected {
            c.weight as int
        } else {
            0
        }
    }
}

/// Weight of the in-range checks.
pub open spec fn ranged_total(checks: Seq<Check>, modules: int) -> int
    decreases checks.len(),
{
    if checks.len() == 0 {
        0
    } else {
        let c = checks.last();
        ranged_total(checks.drop_last(), modules) + if c.x < modules && c.y < modules { c.weight as int } else { 0 }
    }
}

proof fn lemma_ranged_bounds(checks: Seq<Check>, img: BinaryImage, modules: int, g: SamplingGrid)
    requires
        forall|i: int| 0 <= i < checks.len() ==> (#[trigger] checks[i]).weight <= 5,
    ensures
        0 <= ranged_hits(checks, img, modules, g) <= ranged_total(checks, modules) <= 5 * checks.len(),
    decreases checks.len(),
{
    if checks.len() > 0 {
        assert forall|i: int| 0 <= i < checks.drop_last().len() implies (#[trigger] checks.drop_last()[i]).weight <= 5 by {
            assert(checks.drop_last()[i] == checks[i]);
        }
        lemma_ranged_bounds(checks.drop_last(), img, modules, g);
        assert(checks[checks.len() - 1].weight <= 5);
    }
}

proof fn lemma_alignment_checks_shape(v: int, modules: int, p: int)
    requires
        0 <= p,
    ensures
        alignment_checks_upto(v, modules, p).len() <= 25 * p,
        forall|i: int| 0 <= i < alignment_checks_upto(v, modules, p).len() ==> (#[trigger] alignment_checks_upto(v, modules, p)[i]).weight == 4,
    decreases p,
{
    if p > 0 {
        lemma_alignment_checks_shape(v, modules, p - 1);
        let pos = alignment_positions_spec(v, modules);
        let n = pos.len() as int;
        let prev = alignment_checks_upto(v, modules, p - 1);
        let blk = alignment_block(pos[(p - 1) % n], pos[(p - 1) / n], modules);
        assert forall|i: int| 0 <= i < (prev + blk).len() implies (#[trigger] (prev + blk)[i]).weight == 4 by {
            if i >= prev.len() {
                assert((prev + blk)[i] == blk[i - prev.len()]);
            }
        }
    }
}

proof fn lemma_grid_checks_shape(v: int, modules: int)
    requires
        1 <= v <= 40,
        modules == modules_for_version_spec(v),
    ensures
        grid_checks(v, modules).len() <= 2000,
        forall|i: int| 0 <= i < grid_checks(v, modules).len() ==> (#[trigger] grid_checks(v, modules)[i]).weight <= 5,
{
    let base = base_checks(modules, 5);
    let n = alignment_positions_spec(v, modules).len() as int;
    assert(n <= 7);
    assert(n * n <= 49) by (nonlinear_arith) requires 0 <= n <= 7;
    lemma_alignment_checks_shape(v, modules, n * n);
    let al = alignment_checks(v, modules);
    let all = grid_checks(v, modules);
    assert forall|i: int| 0 <= i < all.len() implies (#[trigger] all[i]).weight <= 5 by {
        if i < base.len() {
            assert(all[i] == base[i]);
            let f = crate::codec::qr_checks::finder_checks(0, 0, 5)
                + crate::codec::qr_checks::finder_checks(modules - 7, 0, 5)
                + crate::codec::qr_checks::finder_checks(0, modules - 7, 5);
            let fs = f + crate::codec::qr_checks::separator_checks(modules);
            if i < f.len() {
                if i < 98 {
                    if i < 49 {
                        assert(f[i] == crate::codec::qr_checks::finder_checks(0, 0, 5)[i]);
                    } else {
                        assert(f[i] == crate::codec::qr_checks::finder_checks(modules - 7, 0, 5)[i - 49]);
                    }
                } else {
                    assert(f[i] == crate::codec::qr_checks::finder_checks(0, modules - 7, 5)[i - 98]);
                }
            } else if i < fs.len() {
                assert(fs[i] == crate::codec::qr_checks::separator_checks(modules)[i - f.len()]);
            } else {
                assert(base[i] == crate::codec::qr_checks::timing_checks(modules)[i - fs.len()]);
            }
        } else {
            assert(all[i] == al[i - base.len()]);
        }
    }
}

/// Sampling step of the contrast survey: every module up to 81 modules,
/// otherwise every `modules / 41`-th.
pub open spec fn contrast_step(modules: int) -> int {
    if modules / 41 >= 1 { modules / 41 } else { 1 }
}

/// Number of surveyed coordinates per axis.
pub open spec fn contrast_side(modules: int) -> int {
    (modules + contrast_step(modules) - 1) / contrast_step(modules)
}

/// How decided the `q`-th surveyed module is: the larger of its black and
/// white sample counts (out of 9).
pub open spec fn contrast_term(img: BinaryImage, modules: int, g: SamplingGrid, q: int) -> int {
    let n = contrast_side(modules);
    let s = contrast_step(modules);
    let v = grid_votes(img, modules, (q % n) * s, (q / n) * s, g);
    if v >= 9 - v { v } else { 9 - v }
}

/// Sum of the first `q` contrast terms.
pub open spec fn contrast_sum(img: BinaryImage, modules: int, g: SamplingGrid, q: int) -> int
    decreases q,
{
    if q <= 0 {
        0
    } else {
        contrast_sum(img, modules, g, q - 1) + contrast_term(img, modules, g, q - 1)
    }
}

/// Weight-agreement, contrast and penalty combined into one integer so that
/// grids compare exactly: the score `0.86 * hits / total + 0.14 * contrast /
/// (9 * surveyed) - 0.015 * (|shift_x| + |shift_y|) - 0.45 * (|scale_x - 1| +
/// |scale_y - 1|)` times the positive constant `100000 * total * 9 *
/// surveyed`, which is the same for every grid of one image and version.
pub open spec fn grid_score(img: BinaryImage, v: int, g: SamplingGrid) -> int {
    let modules = modules_for_version_spec(v);
    let checks = grid_checks(v, modules);
    let a = ranged_hits(checks, img, modules, g);
    let t0 = ranged_total(checks, modules);
    let t = if t0 >= 1 { t0 } else { 1 };
    let side = contrast_side(modules);
    let n = 9 * side * side;
    let b = contrast_sum(img, modules, g, side * side);
    let shifts = (if g.shift_x >= 0 { g.shift_x as int } else { -g.shift_x }) + (if g.shift_y >= 0 { g.shift_y as int } else { -g.shift_y });
    let scales = (if g.scale_x >= 1000 { g.scale_x - 1000 } else { 1000 - g.scale_x }) + (if g.scale_y >= 1000 { g.scale_y - 1000 } else { 1000 - g.scale_y });
    86000 * a * n + 14000 * b * t - 120 * shifts * t * n - 45 * scales * t * n
}

/// The best of the first `n` grids (the earliest on ties).
pub open spec fn best_grid_index(img: BinaryImage, v: int, n: int) -> int
    decreases n,
{
    if n <= 1 {
        0
    } else {
        let b = best_grid_index(img, v, n - 1);
        if grid_score(img, v, grid_of_index(n - 1)) > grid_score(img, v, grid_of_index(b)) { n - 1 } else { b }
    }
}

proof fn lemma_best_grid_index_range(img: BinaryImage, v: int, n: int)
    requires
        n >= 1,
    ensures
        0 <= best_grid_index(img, v, n) < n,
    decreases n,
{
    if n > 1 {
        lemma_best_grid_index_range(img, v, n - 1);
    }
}

proof fn lemma_contrast_sum_bounds(img: BinaryImage, modules: int, g: SamplingGrid, q: int)
    requires
        0 <= q,
    ensures
        0 <= contrast_sum(img, modules, g, q) <= 9 * q,
    decreases q,
{
    if q > 0 {
        lemma_contrast_sum_bounds(img, modules, g, q - 1);
        let v = grid_votes(img, modules, ((q - 1) % contrast_side(modules)) * contrast_step(modules), ((q - 1) / contrast_side(modules)) * contrast_step(modules), g);
        assert(0 <= v <= 9);
    }
}

proof fn lemma_contrast_side(modules: int)
    requires
        21 <= modules <= 177,
    ensures
        1 <= contrast_step(modules) <= 4,
        1 <= contrast_side(modules) <= 81,
        contrast_side(modules) * contrast_step(modules) >= modules,
        (contrast_side(modules) - 1) * contrast_step(modules) < modules,
{
    let s = contrast_step(modules);
    let n = contrast_side(modules);
    vstd::arithmetic::div_mod::lemma_fundamental_div_mod(modules, 41);
    vstd::arithmetic::div_mod::lemma_mod_pos_bound(modules, 41);
    assert(modules / 41 <= 4);
    assert(modules < 41 * s + 41);
    vstd::arithmetic::div_mod::lemma_fundamental_div_mod(modules + s - 1, s);
    vstd::arithmetic::div_mod::lemma_mod_pos_bound(modules + s - 1, s);
    let r = (modules + s - 1) % s;
    assert(modules + s - 1 == s * n + r);
    vstd::arithmetic::mul::lemma_mul_is_commutative(s, n);
    assert((n - 1) * s == n * s - s) by (nonlinear_arith);
    assert(n * s >= modules);
    assert(n >= 1) by (nonlinear_arith) requires n * s >= modules, modules >= 21, s >= 1;
    assert(n <= 81) by (nonlinear_arith) requires n * s <= modules + s - 1, modules < 41 * s + 41, s >= 1;
}

/// The survey term sum of one grid: `sum over surveyed modules of max(black,
/// white)`.
fn score_sampling_contrast(warped: &BinaryImage, modules: usize, grid: SamplingGrid) -> (sum: u64)
    requires
        warped.wf(),
        21 <= modules <= 177,
        -3 <= grid.shift_x <= 3,
        -3 <= grid.shift_y <= 3,
        965 <= grid.scale_x <= 1035,
        965 <= grid.scale_y <= 1035,
    ensures
        sum == contrast_sum(*warped, modules as int, grid, contrast_side(modules as int) * contrast_side(modules as int)),
{
    let step: usize = if modules / 41 >= 1 { modules / 41 } else { 1 };
    let side: usize = (modules + step - 1) / step;
    proof {
        lemma_contrast_side(modules as int);
    }
    let mut total: u64 = 0;
    let mut iy: usize = 0;
    while iy < side
        invariant
            warped.wf(),
            21 <= modules <= 177,
            -3 <= grid.shift_x <= 3,
            -3 <= grid.shift_y <= 3,
            965 <= grid.scale_x <= 1035,
            965 <= grid.scale_y <= 1035,
            step == contrast_step(modules as int),
            side == contrast_side(modules as int),
            1 <= side <= 81,
            (side - 1) * step < modules,
            iy <= side,
            total == contrast_sum(*warped, modules as int, grid, (iy * side) as int),
            total <= 9 * (iy * side),
        decreases side - iy,
    {
        let mut ix: usize = 0;
        while ix < side
            invariant
                warped.wf(),
                21 <= modules <= 177,
                -3 <= grid.shift_x <= 3,
                -3 <= grid.shift_y <= 3,
                965 <= grid.scale_x <= 1035,
                965 <= grid.scale_y <= 1035,
                step == contrast_step(modules as int),
                side == contrast_side(modules as int),
                1 <= side <= 81,
                (side - 1) * step < modules,
                iy < side,
                ix <= side,
                total == contrast_sum(*warped, modules as int, grid, (iy * side + ix) as int),
                total <= 9 * (iy * side + ix),
            decreases side - ix,
        {
            proof {
                assert(ix * step <= (side - 1) * step) by (nonlinear_arith) requires ix <= side - 1, step >= 1;
                assert(iy * step <= (side - 1) * step) by (nonlinear_arith) requires iy <= side - 1, step >= 1;
                crate::raster::lemma_raster_index_inverse(side as int, ix as int, iy as int);
                assert(iy * side + ix < 81 * 81) by (nonlinear_arith) requires iy < side, ix < side, side <= 81;
            }
            let black = qr_module_vote(warped, modules, ix * step, iy * step, grid);
            let white = 9 - black;
            let decided: u64 = if black >= white { black as u64 } else { white as u64 };
            total = total + decided;
            ix = ix + 1;
        }
        proof {
            crate::raster::lemma_next_row(side as int, iy as int);
            assert((iy + 1) * side == iy * side + side);
        }
        iy = iy + 1;
    }
    total
}

/// Weighted agreement of a grid with the in-range checks: (hits, total).
fn score_grid_checks(warped: &BinaryImage, modules: usize, checks: &Vec<Check>, grid: SamplingGrid) -> (r: (u64, u64))
    requires
        warped.wf(),
        21 <= modules <= 177,
        checks@.len() <= 2000,
        forall|i: int| 0 <= i < checks@.len() ==> (#[trigger] checks@[i]).weight <= 5,
        -3 <= grid.shift_x <= 3,
        -3 <= grid.shift_y <= 3,
        965 <= grid.scale_x <= 1035,
        965 <= grid.scale_y <= 1035,
    ensures
        r.0 == ranged_hits(checks@, *warped, modules as int, grid),
        r.1 == ranged_total(checks@, modules as int),
{
    let mut correct: u64 = 0;
    let mut total: u64 = 0;
    let mut i: usize = 0;
    while i < checks.len()
        invariant
            warped.wf(),
            21 <= modules <= 177,
            checks@.len() <= 2000,
            forall|k: int| 0 <= k < checks@.len() ==> (#[trigger] checks@[k]).weight <= 5,
            -3 <= grid.shift_x <= 3,
            -3 <= grid.shift_y <= 3,
            965 <= grid.scale_x <= 1035,
            965 <= grid.scale_y <= 1035,
            i <= checks@.len(),
            correct == ranged_hits(checks@.subrange(0, i as int), *warped, modules as int, grid),
            total == ranged_total(checks@.subrange(0, i as int), modules as int),
            correct <= total <= 5 * i,
        decreases checks@.len() - i,
    {
        let c = checks[i];
        proof {
            let next = checks@.subrange(0, i as int + 1);
            assert(next.drop_last() =~= checks@.subrange(0, i as int));
            assert(next.last() == c);
        }
        if c.x < modules && c.y < modules {
            if sample_qr_module_with_grid(warped, modules, c.x, c.y, grid) == c.expected {
                correct = correct + c.weight as u64;
            }
            total = total + c.weight as u64;
        }
        i = i + 1;
    }
    assert(checks@.subrange(0, checks@.len() as int) =~= checks@);
    (correct, total)
}

/// The combined integer score of a grid; see `grid_score`.
fn score_sampling_grid(warped: &BinaryImage, version: u8, modules: usize, checks: &Vec<Check>, grid: SamplingGrid) -> (score: i128)
    requires
        warped.wf(),
        1 <= version <= 40,
        modules == modules_for_version_spec(version as int),
        checks@ == grid_checks(version as int, modules as int),
        -3 <= grid.shift_x <= 3,
        -3 <= grid.shift_y <= 3,
        965 <= grid.scale_x <= 1035,
        965 <= grid.scale_y <= 1035,
    ensures
        score == grid_score(*warped, version as int, grid),
{
    proof {
        lemma_grid_checks_shape(version as int, modules as int);
        lemma_ranged_bounds(checks@, *warped, modules as int, grid);
        lemma_contrast_side(modules as int);
    }
    let (a, t0) = score_grid_checks(warped, modules, checks, grid);
    let t: u64 = if t0 >= 1 { t0 } else { 1 };
    let step: usize = if modules / 41 >= 1 { modules / 41 } else { 1 };
    let side: usize = (modules + step - 1) / step;
    let b = score_sampling_contrast(warped, modules, grid);
    proof {
        lemma_contrast_sum_bounds(*warped, modules as int, grid, (side * side) as int);
        assert(side * side <= 6561) by (nonlinear_arith) requires 1 <= side <= 81;
        assert(9 * side * side <= 59049) by (nonlinear_arith) requires 1 <= side <= 81;
        assert(side == contrast_side(modules as int));
    }
    let n: i128 = 9 * (side as i128) * (side as i128);
    let sx: i128 = if grid.shift_x >= 0 { grid.shift_x as i128 } else { -(grid.shift_x as i128) };
    let sy: i128 = if grid.shift_y >= 0 { grid.shift_y as i128 } else { -(grid.shift_y as i128) };
    let cx: i128 = if grid.scale_x >= 1000 { (grid.scale_x - 1000) as i128 } else { (1000 - grid.scale_x) as i128 };
    let cy: i128 = if grid.scale_y >= 1000 { (grid.scale_y - 1000) as i128 } else { (1000 - grid.scale_y) as i128 };
    let ai = a as i128;
    let bi = b as i128;
    let ti = t as i128;
    proof {
        assert(0 <= ai <= 10000);
        assert(1 <= ti <= 10000);
        assert(0 <= bi <= 60000);
        assert(0 <= n <= 60000);
        assert(0 <= 86000 * ai * n <= 86000 * 10000 * 60000) by (nonlinear_arith) requires 0 <= ai <= 10000, 0 <= n <= 60000;
        assert(0 <= 14000 * bi * ti <= 14000 * 60000 * 10000) by (nonlinear_arith) requires 0 <= bi <= 60000, 1 <= ti <= 10000;
        assert(0 <= 120 * (sx + sy) * ti <= 120 * 6 * 10000) by (nonlinear_arith) requires 0 <= sx + sy <= 6, 1 <= ti <= 10000;
        assert(0 <= 45 * (cx + cy) * ti <= 45 * 70 * 10000) by (nonlinear_arith) requires 0 <= cx + cy <= 70, 1 <= ti <= 10000;
        assert(0 <= 120 * (sx + sy) * ti * n <= 120 * 6 * 10000 * 60000) by (nonlinear_arith) requires 0 <= sx + sy <= 6, 1 <= ti <= 10000, 0 <= n <= 60000;
        assert(0 <= 45 * (cx + cy) * ti * n <= 45 * 70 * 10000 * 60000) by (nonlinear_arith) requires 0 <= cx + cy <= 70, 1 <= ti <= 10000, 0 <= n <= 60000;
    }
    86000 * ai * n + 14000 * bi * ti - 120 * (sx + sy) * ti * n - 45 * (cx + cy) * ti * n
}

/// Grid number `g` of the search order, built from its index.
fn grid_at(g: usize) -> (grid: SamplingGrid)
    requires
        g < 2401,
    ensures
        grid == grid_of_index(g as int),
        -3 <= grid.shift_x <= 3,
        -3 <= grid.shift_y <= 3,
        965 <= grid.scale_x <= 1035,
        965 <= grid.scale_y <= 1035,
{
    SamplingGrid {
        shift_y: (g / 343) as i32 - 3,
        shift_x: ((g / 49) % 7) as i32 - 3,
        scale_y: scale_at((g / 7) % 7),
        scale_x: scale_at(g % 7),
    }
}

/// Finds the best-scoring of the 2401 sampling grids.
fn best_sampling_grid(warped: &BinaryImage, version: u8, modules: usize, checks: &Vec<Check>) -> (grid: SamplingGrid)
    requires
        warped.wf(),
        1 <= version <= 40,
        modules == modules_for_version_spec(version as int),
        checks@ == grid_checks(version as int, modules as int),
    ensures
        grid == grid_of_index(best_grid_index(*warped, version as int, 2401)),
        -3 <= grid.shift_x <= 3,
        -3 <= grid.shift_y <= 3,
        965 <= grid.scale_x <= 1035,
        965 <= grid.scale_y <= 1035,
{
    let mut best_score: i128 = 0;
    let mut best_grid = SamplingGrid { shift_x: 0, shift_y: 0, scale_x: 1000, scale_y: 1000 };
    let mut g: usize = 0;
    while g < 2401
        invariant
            warped.wf(),
            1 <= version <= 40,
            modules == modules_for_version_spec(version as int),
            checks@ == grid_checks(version as int, modules as int),
            g <= 2401,
            g > 0 ==> best_grid == grid_of_index(best_grid_index(*warped, version as int, g as int)),
            g > 0 ==> best_score == grid_score(*warped, version as int, best_grid),
            -3 <= best_grid.shift_x <= 3,
            -3 <= best_grid.shift_y <= 3,
            965 <= best_grid.scale_x <= 1035,
            965 <= best_grid.scale_y <= 1035,
        decreases 2401 - g,
    {
        let grid = grid_at(g);
        let score = score_sampling_grid(warped, version, modules, checks, grid);
        if g == 0 || score > best_score {
            best_score = score;
            best_grid = grid;
        }
        g = g + 1;
    }
    best_grid
}

/// The `modules` x `modules` matrix sampled with grid `g`: module `(x, y)` at row `y`.
pub open spec fn grid_matrix(img: BinaryImage, modules: int, g: SamplingGrid) -> Seq<Seq<bool>> {
    Seq::new(modules as nat, |y: int| Seq::new(modules as nat, |x: int| grid_black(img, modules, x, y, g)))
}

/// Samples every module of a `modules`-wide matrix with one grid.
fn sample_matrix_with_grid(warped: &BinaryImage, modules: usize, grid: SamplingGrid) -> (matrix: QrMatrix)
    requires
        warped.wf(),
        1 <= modules <= 177,
        -3 <= grid.shift_x <= 3,
        -3 <= grid.shift_y <= 3,
        965 <= grid.scale_x <= 1035,
        965 <= grid.scale_y <= 1035,
    ensures
        matrix_view(&matrix) == grid_matrix(*warped, modules as int, grid),
{
    let ghost expected = grid_matrix(*warped, modules as int, grid);
    let mut matrix: Vec<Vec<bool>> = Vec::new();
    let mut y: usize = 0;
    while y < modules
        invariant
            warped.wf(),
            1 <= modules <= 177,
            -3 <= grid.shift_x <= 3,
            -3 <= grid.shift_y <= 3,
            965 <= grid.scale_x <= 1035,
            965 <= grid.scale_y <= 1035,
            expected == grid_matrix(*warped, modules as int, grid),
            y <= modules,
            matrix@.len() == y,
            forall|k: int| 0 <= k < y ==> (#[trigger] matrix@[k])@ == expected[k],
        decreases modules - y,
    {
        let mut row: Vec<bool> = Vec::new();
        let mut x: usize = 0;
        while x < modules
            invariant
                warped.wf(),
                1 <= modules <= 177,
                -3 <= grid.shift_x <= 3,
                -3 <= grid.shift_y <= 3,
                965 <= grid.scale_x <= 1035,
                965 <= grid.scale_y <= 1035,
                expected == grid_matrix(*warped, modules as int, grid),
                y < modules,
                x <= modules,
                row@ == expected[y as int].subrange(0, x as int),
            decreases modules - x,
        {
            let value = sample_qr_module_with_grid(warped, modules, x, y, grid);
            row.push(value);
            x = x + 1;
            assert(row@ =~= expected[y as int].subrange(0, x as int));
        }
        assert(row@ =~= expected[y as int]);
        matrix.push(row);
        y = y + 1;
    }
    assert(matrix_view(&matrix) =~= expected);
    matrix
}

/// The matrix sampled with the best grid: module `(x, y)` at row `y`.
pub open spec fn sampled_grid_matrix(img: BinaryImage, v: int) -> Seq<Seq<bool>> {
    let modules = modules_for_version_spec(v);
    let g = grid_of_index(best_grid_index(img, v, 2401));
    Seq::new(modules as nat, |y: int| Seq::new(modules as nat, |x: int| grid_black(img, modules, x, y, g)))
}

/// Samples the QR matrix of a known version from a corrected image, first
/// searching the shift and scale that best fit the function patterns.
pub fn sample_qr_grid(warped: &BinaryImage, version: u8) -> (r: Result<QrMatrix, QRacerError>)
    requires
        warped.wf(),
    ensures
        1 <= version <= 40 ==> (r matches Ok(m) && matrix_view(&m) == sampled_grid_matrix(*warped, version as int)),
        !(1 <= version <= 40) ==> (r matches Err(QRacerError::QrDecode(msg)) && msg@ == "invalid QR version: "@ + decimal(version as nat)),
{
    if version < 1 || version > 40 {
        return Err(QRacerError::QrDecode(message_with_number("invalid QR version: ", version as u64)));
    }
    let modules: usize = (version as usize - 1) * 4 + 21;
    let checks = grid_pattern_checks(version, modules);
    let grid = best_sampling_grid(warped, version, modules, &checks);
    let matrix = sample_matrix_with_grid(warped, modules, grid);
    assert(grid_matrix(*warped, modules as int, grid) =~= sampled_grid_matrix(*warped, version as int));
    Ok(matrix)
}

/// Infers the QR version of a corrected image from its estimated grid size.
pub fn infer_qr_version(warped: &BinaryImage) -> (r: Result<u8, QRacerError>)
    requires
        warped.wf(),
    ensures
        match estimate_module_count_spec(*warped) {
            None => r matches Err(QRacerError::QrDecode(msg)) && msg@ == "unable to infer QR grid size"@,
            Some(modules) => match version_for_modules_spec(modules as int) {
                Some(v) => r == Ok::<u8, QRacerError>(v),
                None => r matches Err(QRacerError::QrDecode(msg)) && msg@ == "invalid QR grid size: "@ + decimal(modules as nat),
            },
        },
{
    let modules = match estimate_module_count(warped) {
        Some(m) => m,
        None => return Err(QRacerError::QrDecode("unable to infer QR grid size".to_owned())),
    };
    match version_for_modules(modules) {
        Some(v) => Ok(v),
        None => Err(QRacerError::QrDecode(message_with_number("invalid QR grid size: ", modules as u64))),
    }
}

} // verus!
