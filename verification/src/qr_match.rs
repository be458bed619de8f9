use vstd::prelude::*;
use crate::codec::qr::{QrDecoded, QrEcc, QrMatrix, matrix_view, regenerate_qr, regenerate_spec,
    version_for_modules, version_for_modules_spec, modules_for_version_spec};
use crate::codec::qr_grid::{alignment_pattern_positions, alignment_positions_spec, alignment_overlaps_finder,
    alignment_overlaps_finder_spec};
use crate::text::{message_with_number, decimal};
use crate::codec::qr::ecc_label;
use crate::codec::qr_grid::{sample_qr_grid, sampled_grid_matrix};
use crate::pipeline::preprocess::BinaryImage;
use vstd::string::StringExecFns;

verus! {

/// How the generated QR preview is produced: regenerated with a mask, or
/// copied from the sampled grid.
#[derive(Debug, Clone, Copy, PartialEq, Eq, Structural)]
pub enum MaskChoice {
    Mask(u8),
    GridFallback,
}

/// Modules inside the three finder patterns or their separators (the 8x8
/// corners of the symbol).
pub open spec fn finder_or_separator_spec(modules: int, x: int, y: int) -> bool {
    if modules < 8 {
        false
    } else {
        let near_left = x <= 7;
        let near_top = y <= 7;
        let near_right = x + 8 >= modules;
        let near_bottom = y + 8 >= modules;
        (near_left && near_top) || (near_right && near_top) || (near_left && near_bottom)
    }
}

/// Whether a module belongs to a finder pattern or its separator.
pub fn is_qr_finder_or_separator_module(modules: usize, x: usize, y: usize) -> (b: bool)
    ensures
        b == finder_or_separator_spec(modules as int, x as int, y as int),
{
    if modules < 8 {
        return false;
    }
    let near_left = x <= 7;
    let near_top = y <= 7;
    let near_right = x >= modules - 8;
    let near_bottom = y >= modules - 8;
    (near_left && near_top) || (near_right && near_top) || (near_left && near_bottom)
}

/// Side of the centred square where a logo may cover modules: a third of
/// the symbol, at least 9 modules, at most the whole symbol.
pub open spec fn logo_side(modules: int) -> int {
    let s = if modules / 3 >= 9 { modules / 3 } else { 9 };
    if s <= modules { s } else { modules }
}

/// Modules of the centred logo square.
pub open spec fn center_logo_spec(modules: int, x: int, y: int) -> bool {
    if modules == 0 {
        false
    } else {
        let start = (modules - logo_side(modules)) / 2;
        let end = start + logo_side(modules);
        start <= x < end && start <= y < end
    }
}

/// Whether a module lies in the centred square a logo may cover.
pub fn is_qr_center_logo_module(modules: usize, x: usize, y: usize) -> (b: bool)
    ensures
        b == center_logo_spec(modules as int, x as int, y as int),
{
    if modules == 0 {
        return false;
    }
    let third = modules / 3;
    let at_least = if third >= 9 { third } else { 9 };
    let side = if at_least <= modules { at_least } else { modules };
    let start = (modules - side) / 2;
    let end = start + side;
    x >= start && x < end && y >= start && y < end
}

/// The logo square of a `modules`-wide symbol is the centred square of side
/// a third of the symbol (rounded down) from 27 modules on, 9 modules for
/// smaller symbols of at least 9 modules, and the whole symbol below that.
pub proof fn law_logo_square_is_the_centred_third(modules: int, x: int, y: int)
    requires
        modules >= 1,
    ensures
        modules >= 27 ==> (center_logo_spec(modules, x, y) <==> {
            let side = modules / 3;
            let start = (modules - side) / 2;
            start <= x < start + side && start <= y < start + side
        }),
        9 <= modules < 27 ==> (center_logo_spec(modules, x, y) <==>
            (modules - 9) / 2 <= x < (modules - 9) / 2 + 9 && (modules - 9) / 2 <= y < (modules - 9) / 2 + 9),
        modules < 9 ==> (center_logo_spec(modules, x, y) <==> 0 <= x < modules && 0 <= y < modules),
{
}

/// Modules whose differences do not count against a mask: the finder
/// corners and the logo square.
pub open spec fn ignored_diff_spec(modules: int, x: int, y: int) -> bool {
    center_logo_spec(modules, x, y) || finder_or_separator_spec(modules, x, y)
}

/// Whether a differing module is ignored when matching masks.
pub fn is_ignored_qr_diff_module(modules: usize, x: usize, y: usize) -> (b: bool)
    ensures
        b == ignored_diff_spec(modules as int, x as int, y as int),
{
    is_qr_center_logo_module(modules, x, y) || is_qr_finder_or_separator_module(modules, x, y)
}

/// The colour of module `(x, y)` within the first alignment pattern (in
/// row-major order of centre pairs, skipping those on finders) among the
/// first `p` pairs that covers it.
pub open spec fn alignment_module_upto(v: int, modules: int, x: int, y: int, p: int) -> Option<bool>
    decreases p,
{
    if p <= 0 {
        None
    } else {
        match alignment_module_upto(v, modules, x, y, p - 1) {
            Some(b) => Some(b),
            None => {
                let pos = alignment_positions_spec(v, modules);
                let n = pos.len() as int;
                let cx = pos[(p - 1) % n];
                let cy = pos[(p - 1) / n];
                let dx = if x >= cx { x - cx } else { cx - x };
                let dy = if y >= cy { y - cy } else { cy - y };
                if !alignment_overlaps_finder_spec(cx, cy, modules) && dx <= 2 && dy <= 2 {
                    let ring = if dx >= dy { dx } else { dy };
                    Some(ring == 2 || ring == 0)
                } else {
                    None
                }
            },
        }
    }
}

proof fn lemma_alignment_module_stable(v: int, modules: int, x: int, y: int, p: int, q: int)
    requires
        0 <= p <= q,
        alignment_module_upto(v, modules, x, y, p) is Some,
    ensures
        alignment_module_upto(v, modules, x, y, q) == alignment_module_upto(v, modules, x, y, p),
    decreases q - p,
{
    if p < q {
        lemma_alignment_module_stable(v, modules, x, y, p, q - 1);
    }
}

/// The expected colour of module `(x, y)` when it belongs to an alignment
/// pattern of the symbol with `modules` modules per side.
pub open spec fn alignment_module_spec(modules: int, x: int, y: int) -> Option<bool> {
    match version_for_modules_spec(modules) {
        None => None,
        Some(v) => if v == 1 {
            None
        } else {
            let n = alignment_positions_spec(v as int, modules).len() as int;
            alignment_module_upto(v as int, modules, x, y, n * n)
        },
    }
}

/// Whether module `(x, y)` lies in an alignment pattern, and if so whether
/// it is dark there.
pub fn qr_alignment_pattern_module(modules: usize, x: usize, y: usize) -> (r: Option<bool>)
    ensures
        r == alignment_module_spec(modules as int, x as int, y as int),
{
    let version = match version_for_modules(modules) {
        Some(v) => v,
        None => return None,
    };
    if version == 1 {
        return None;
    }
    assert(modules == modules_for_version_spec(version as int));
    let centers = alignment_pattern_positions(version, modules);
    let n = centers.len();
    let ghost pos = alignment_positions_spec(version as int, modules as int);
    assert(n <= 7);
    assert(n * n <= 49) by (nonlinear_arith) requires n <= 7;
    let mut p: usize = 0;
    while p < n * n
        invariant
            2 <= version <= 40,
            modules == modules_for_version_spec(version as int),
            n == centers@.len(),
            n <= 7,
            n * n <= 49,
            pos == alignment_positions_spec(version as int, modules as int),
            pos.len() == n,
            forall|i: int| 0 <= i < n ==> centers@[i] == pos[i],
            p <= n * n,
            alignment_module_upto(version as int, modules as int, x as int, y as int, p as int) is None,
        decreases n * n - p,
    {
        proof {
            vstd::arithmetic::div_mod::lemma_mod_pos_bound(p as int, n as int);
            vstd::arithmetic::div_mod::lemma_div_pos_is_pos(p as int, n as int);
            vstd::arithmetic::div_mod::lemma_multiply_divide_lt(p as int, n as int, n as int);
        }
        let cx = centers[p % n];
        let cy = centers[p / n];
        if !alignment_overlaps_finder(cx, cy, modules) {
            let dx = if x >= cx { x - cx } else { cx - x };
            let dy = if y >= cy { y - cy } else { cy - y };
            if dx <= 2 && dy <= 2 {
                let ring = if dx >= dy { dx } else { dy };
                proof {
                    lemma_alignment_module_stable(version as int, modules as int, x as int, y as int, p as int + 1, (n * n) as int);
                }
                return Some(ring == 2 || ring == 0);
            }
        }
        p = p + 1;
    }
    None
}

/// Modules left out when telling compact enterprise-WeChat codes apart:
/// finder corners, the logo square and alignment patterns.
pub open spec fn enterprise_ignored_spec(modules: int, x: int, y: int) -> bool {
    finder_or_separator_spec(modules, x, y) || center_logo_spec(modules, x, y)
        || alignment_module_spec(modules, x, y) is Some
}

/// Whether a module is skipped by the compact-module survey.
pub fn is_enterprise_wechat_detection_ignored_module(modules: usize, x: usize, y: usize) -> (b: bool)
    ensures
        b == enterprise_ignored_spec(modules as int, x as int, y as int),
{
    is_qr_finder_or_separator_module(modules, x, y) || is_qr_center_logo_module(modules, x, y)
        || qr_alignment_pattern_module(modules, x, y).is_some()
}

/// Two matrices have the same number of rows and equally long rows.
pub open spec fn same_shape(a: Seq<Seq<bool>>, b: Seq<Seq<bool>>) -> bool {
    a.len() == b.len() && forall|i: int| 0 <= i < a.len() ==> (#[trigger] a[i]).len() == b[i].len()
}

/// The differing positions `(x, y)` among the first `n` modules of row `y`.
pub open spec fn row_diffs(ra: Seq<bool>, rb: Seq<bool>, y: int, n: int) -> Seq<(int, int)>
    decreases n,
{
    if n <= 0 {
        Seq::empty()
    } else {
        row_diffs(ra, rb, y, n - 1) + if ra[n - 1] != rb[n - 1] { seq![(n - 1, y)] } else { Seq::empty() }
    }
}

/// The differing positions of the first `k` rows, row by row.
pub open spec fn diff_rows(a: Seq<Seq<bool>>, b: Seq<Seq<bool>>, k: int) -> Seq<(int, int)>
    decreases k,
{
    if k <= 0 {
        Seq::empty()
    } else {
        diff_rows(a, b, k - 1) + row_diffs(a[k - 1], b[k - 1], k - 1, a[k - 1].len() as int)
    }
}

/// All positions where two equally shaped matrices differ, in row-major order.
pub open spec fn diff_positions(a: Seq<Seq<bool>>, b: Seq<Seq<bool>>) -> Seq<(int, int)> {
    diff_rows(a, b, a.len() as int)
}

proof fn lemma_row_diffs_member(ra: Seq<bool>, rb: Seq<bool>, y: int, n: int, p: (int, int))
    requires
        0 <= n <= ra.len(),
        ra.len() == rb.len(),
    ensures
        row_diffs(ra, rb, y, n).contains(p) <==> (p.1 == y && 0 <= p.0 < n && ra[p.0] != rb[p.0]),
    decreases n,
{
    if n > 0 {
        lemma_row_diffs_member(ra, rb, y, n - 1, p);
        let prev = row_diffs(ra, rb, y, n - 1);
        let tail: Seq<(int, int)> = if ra[n - 1] != rb[n - 1] { seq![(n - 1, y)] } else { Seq::empty() };
        assert(row_diffs(ra, rb, y, n) == prev + tail);
        if (prev + tail).contains(p) {
            let k = choose|k: int| 0 <= k < (prev + tail).len() && (prev + tail)[k] == p;
            if k < prev.len() {
                assert(prev[k] == p);
            } else {
                assert(tail[k - prev.len()] == p);
            }
        }
        if p.1 == y && 0 <= p.0 < n && ra[p.0] != rb[p.0] {
            if p.0 < n - 1 {
                let k = choose|k: int| 0 <= k < prev.len() && prev[k] == p;
                assert((prev + tail)[k] == p);
            } else {
                assert((prev + tail)[prev.len() as int] == p);
            }
        }
    }
}

proof fn lemma_diff_rows_member(a: Seq<Seq<bool>>, b: Seq<Seq<bool>>, k: int, p: (int, int))
    requires
        same_shape(a, b),
        0 <= k <= a.len(),
    ensures
        diff_rows(a, b, k).contains(p) <==> (0 <= p.1 < k && 0 <= p.0 < a[p.1].len() && a[p.1][p.0] != b[p.1][p.0]),
    decreases k,
{
    if k > 0 {
        lemma_diff_rows_member(a, b, k - 1, p);
        let prev = diff_rows(a, b, k - 1);
        let row = row_diffs(a[k - 1], b[k - 1], k - 1, a[k - 1].len() as int);
        assert(a[k - 1].len() == b[k - 1].len());
        lemma_row_diffs_member(a[k - 1], b[k - 1], k - 1, a[k - 1].len() as int, p);
        if (prev + row).contains(p) {
            let j = choose|j: int| 0 <= j < (prev + row).len() && (prev + row)[j] == p;
            if j < prev.len() {
                assert(prev[j] == p);
            } else {
                assert(row[j - prev.len()] == p);
            }
        }
        if prev.contains(p) {
            let j = choose|j: int| 0 <= j < prev.len() && prev[j] == p;
            assert((prev + row)[j] == p);
        }
        if row.contains(p) {
            let j = choose|j: int| 0 <= j < row.len() && row[j] == p;
            assert((prev + row)[prev.len() + j] == p);
        }
    }
}

/// The difference list holds a position exactly when both matrices have a
/// module there and the two modules differ.
pub proof fn law_diff_lists_exactly_the_differences(a: Seq<Seq<bool>>, b: Seq<Seq<bool>>, x: int, y: int)
    requires
        same_shape(a, b),
    ensures
        diff_positions(a, b).contains((x, y)) <==> (0 <= y < a.len() && 0 <= x < a[y].len() && a[y][x] != b[y][x]),
{
    lemma_diff_rows_member(a, b, a.len() as int, (x, y));
}

/// Two equally shaped matrices have an empty difference list exactly when
/// they are equal.
pub proof fn law_no_diff_iff_equal(a: Seq<Seq<bool>>, b: Seq<Seq<bool>>)
    requires
        same_shape(a, b),
    ensures
        diff_positions(a, b).len() == 0 <==> a == b,
{
    if diff_positions(a, b).len() == 0 {
        assert forall|y: int| 0 <= y < a.len() implies a[y] == b[y] by {
            assert forall|x: int| 0 <= x < a[y].len() implies a[y][x] == b[y][x] by {
                lemma_diff_rows_member(a, b, a.len() as int, (x, y));
            }
            assert(a[y] =~= b[y]);
        }
        assert(a =~= b);
    } else {
        let p = diff_positions(a, b)[0];
        assert(diff_positions(a, b).contains(p));
        lemma_diff_rows_member(a, b, a.len() as int, p);
    }
}

/// Matrices small enough that module counts and coordinates fit 32 bits.
pub open spec fn matrix_bounded(m: Seq<Seq<bool>>) -> bool {
    m.len() <= 0xffff && forall|i: int| 0 <= i < m.len() ==> (#[trigger] m[i]).len() <= 0xffff
}

/// The modules where a generated matrix differs from the sampled one.
#[derive(Clone, Debug)]
pub struct DiffResult {
    pub diff_count: u32,
    pub diff_modules: Vec<(u32, u32)>,
}

/// The differing positions of a diff result.
pub open spec fn diff_view(d: DiffResult) -> Seq<(int, int)> {
    d.diff_modules@.map_values(|p: (u32, u32)| (p.0 as int, p.1 as int))
}

proof fn lemma_row_diffs_len(ra: Seq<bool>, rb: Seq<bool>, y: int, n: int)
    requires
        0 <= n,
    ensures
        row_diffs(ra, rb, y, n).len() <= n,
    decreases n,
{
    if n > 0 {
        lemma_row_diffs_len(ra, rb, y, n - 1);
    }
}

proof fn lemma_diff_rows_len(a: Seq<Seq<bool>>, b: Seq<Seq<bool>>, k: int)
    requires
        0 <= k <= a.len(),
        matrix_bounded(a),
    ensures
        diff_rows(a, b, k).len() <= k * 0xffff,
    decreases k,
{
    if k > 0 {
        lemma_diff_rows_len(a, b, k - 1);
        lemma_row_diffs_len(a[k - 1], b[k - 1], k - 1, a[k - 1].len() as int);
    }
}

/// Compares two matrices module by module; `None` when their shapes differ.
pub fn compute_matrix_diff(reference: &QrMatrix, generated: &QrMatrix) -> (r: Option<DiffResult>)
    requires
        matrix_bounded(matrix_view(generated)),
    ensures
        !same_shape(matrix_view(reference), matrix_view(generated)) ==> r is None,
        same_shape(matrix_view(reference), matrix_view(generated)) ==> (r matches Some(d)
            && diff_view(d) == diff_positions(matrix_view(reference), matrix_view(generated))
            && d.diff_count == diff_view(d).len()),
{
    let ghost a = matrix_view(reference);
    let ghost b = matrix_view(generated);
    if reference.len() != generated.len() {
        return None;
    }
    let rows = reference.len();
    let mut i: usize = 0;
    while i < rows
        invariant
            rows == reference@.len(),
            rows == generated@.len(),
            a == matrix_view(reference),
            b == matrix_view(generated),
            i <= rows,
            forall|k: int| 0 <= k < i ==> (#[trigger] a[k]).len() == b[k].len(),
        decreases rows - i,
    {
        if reference[i].len() != generated[i].len() {
            assert(a[i as int].len() != b[i as int].len());
            return None;
        }
        i = i + 1;
    }
    proof {
        assert(same_shape(a, b));
        assert(matrix_bounded(a));
        lemma_diff_rows_len(a, b, rows as int);
    }
    let mut modules: Vec<(u32, u32)> = Vec::new();
    let mut y: usize = 0;
    while y < rows
        invariant
            rows == a.len(),
            same_shape(a, b),
            matrix_bounded(a),
            matrix_bounded(b),
            a == matrix_view(reference),
            b == matrix_view(generated),
            y <= rows,
            modules@.map_values(|p: (u32, u32)| (p.0 as int, p.1 as int)) == diff_rows(a, b, y as int),
        decreases rows - y,
    {
        let row_len = reference[y].len();
        let ghost before = modules@.map_values(|p: (u32, u32)| (p.0 as int, p.1 as int));
        let mut x: usize = 0;
        while x < row_len
            invariant
                rows == a.len(),
                y < rows,
                same_shape(a, b),
                matrix_bounded(a),
                a == matrix_view(reference),
                b == matrix_view(generated),
                row_len == a[y as int].len(),
                x <= row_len,
                modules@.map_values(|p: (u32, u32)| (p.0 as int, p.1 as int)) == before + row_diffs(a[y as int], b[y as int], y as int, x as int),
            decreases row_len - x,
        {
            let ghost old_modules = modules@;
            if reference[y][x] != generated[y][x] {
                modules.push((x as u32, y as u32));
                assert(modules@.map_values(|p: (u32, u32)| (p.0 as int, p.1 as int))
                    =~= old_modules.map_values(|p: (u32, u32)| (p.0 as int, p.1 as int)) + seq![(x as int, y as int)]);
            }
            x = x + 1;
            assert(modules@.map_values(|p: (u32, u32)| (p.0 as int, p.1 as int))
                =~= before + row_diffs(a[y as int], b[y as int], y as int, x as int));
        }
        y = y + 1;
    }
    proof {
        lemma_diff_rows_len(a, b, rows as int);
        assert(rows * 0xffff <= 0xffff * 0xffff) by (nonlinear_arith) requires rows <= 0xffff;
    }
    let count = modules.len() as u32;
    Some(DiffResult { diff_count: count, diff_modules: modules })
}

/// `n`, or `usize::MAX` when it does not fit.
pub open spec fn saturated(n: nat) -> usize {
    if n <= usize::MAX { n as usize } else { usize::MAX }
}

/// Counts differing modules of two equally shaped matrices; `None` when the
/// shapes differ. The count saturates at `usize::MAX`.
pub fn qr_matrix_diff_count(lhs: &QrMatrix, rhs: &QrMatrix) -> (r: Option<usize>)
    ensures
        !same_shape(matrix_view(lhs), matrix_view(rhs)) ==> r is None,
        same_shape(matrix_view(lhs), matrix_view(rhs)) ==> r == Some(saturated(diff_positions(matrix_view(lhs), matrix_view(rhs)).len())),
{
    let ghost a = matrix_view(lhs);
    let ghost b = matrix_view(rhs);
    if lhs.len() != rhs.len() {
        return None;
    }
    let mut i: usize = 0;
    while i < lhs.len()
        invariant
            a == matrix_view(lhs),
            b == matrix_view(rhs),
            lhs.len() == rhs.len(),
            i <= lhs.len(),
            forall|k: int| 0 <= k < i ==> (#[trigger] a[k]).len() == b[k].len(),
        decreases lhs.len() - i,
    {
        if lhs[i].len() != rhs[i].len() {
            assert(a[i as int] == lhs@[i as int]@ && b[i as int] == rhs@[i as int]@);
            return None;
        }
        assert(a[i as int] == lhs@[i as int]@ && b[i as int] == rhs@[i as int]@);
        i = i + 1;
    }
    assert(same_shape(a, b));
    let mut total: usize = 0;
    let mut y: usize = 0;
    while y < lhs.len()
        invariant
            a == matrix_view(lhs),
            b == matrix_view(rhs),
            same_shape(a, b),
            lhs.len() == rhs.len(),
            y <= lhs.len(),
            total == saturated(diff_rows(a, b, y as int).len()),
        decreases lhs.len() - y,
    {
        let ra = &lhs[y];
        let rb = &rhs[y];
        assert(a[y as int] == ra@ && b[y as int] == rb@);
        let ghost before = diff_rows(a, b, y as int).len();
        let mut count = total;
        let mut x: usize = 0;
        while x < ra.len()
            invariant
                ra@ == a[y as int],
                rb@ == b[y as int],
                ra.len() == rb.len(),
                x <= ra.len(),
                count == saturated(before + row_diffs(ra@, rb@, y as int, x as int).len()),
            decreases ra.len() - x,
        {
            if ra[x] != rb[x] {
                count = count.saturating_add(1);
            }
            x = x + 1;
        }
        total = count;
        y = y + 1;
    }
    Some(total)
}

/// Number of positions outside the ignored regions of a `modules`-wide
/// symbol.
pub open spec fn count_outside_ignored(positions: Seq<(int, int)>, modules: int) -> int
    decreases positions.len(),
{
    if positions.len() == 0 {
        0
    } else {
        count_outside_ignored(positions.drop_last(), modules)
            + if ignored_diff_spec(modules, positions.last().0, positions.last().1) { 0int } else { 1int }
    }
}

/// Counts differing modules outside the finder corners and the logo square.
pub fn qr_diff_outside_ignored_qr_regions(diff: &DiffResult, modules: usize) -> (n: u32)
    requires
        diff.diff_modules@.len() <= u32::MAX,
    ensures
        n == count_outside_ignored(diff_view(*diff), if modules >= 1 { modules as int } else { 1 }),
{
    let modules = if modules >= 1 { modules } else { 1 };
    let ghost ps = diff_view(*diff);
    let mut count: u32 = 0;
    let mut i: usize = 0;
    while i < diff.diff_modules.len()
        invariant
            ps == diff_view(*diff),
            ps.len() == diff.diff_modules@.len(),
            diff.diff_modules@.len() <= u32::MAX,
            i <= ps.len(),
            count == count_outside_ignored(ps.subrange(0, i as int), modules as int),
            count <= i,
        decreases diff.diff_modules@.len() - i,
    {
        let (x, y) = diff.diff_modules[i];
        proof {
            let next = ps.subrange(0, i as int + 1);
            assert(next.drop_last() =~= ps.subrange(0, i as int));
            assert(next.last() == (x as int, y as int));
        }
        if !is_ignored_qr_diff_module(modules, x as usize, y as usize) {
            count = count + 1;
        }
        i = i + 1;
    }
    assert(ps.subrange(0, ps.len() as int) =~= ps);
    count
}

/// A regenerated matrix for one level and mask, with its differences from
/// the sampled matrix.
#[derive(Clone, Debug)]
pub struct QrMaskCandidate {
    pub ecc: QrEcc,
    pub mask: u8,
    pub matrix: QrMatrix,
    pub total_diff: u32,
    pub outside_ignored_diff: u32,
}

/// A candidate as plain values: level, mask, matrix, all differences and
/// differences outside the ignored regions.
pub open spec fn candidate_view(c: QrMaskCandidate) -> (QrEcc, u8, Seq<Seq<bool>>, u32, u32) {
    (c.ecc, c.mask, matrix_view(&c.matrix), c.total_diff, c.outside_ignored_diff)
}

/// The levels tried: the decoded level first, then L, M, Q, H.
pub open spec fn ecc_try_order(first: QrEcc) -> Seq<QrEcc> {
    seq![first, QrEcc::L, QrEcc::M, QrEcc::Q, QrEcc::H]
}

/// Whether the `i`-th level of the order is tried (each level only once).
pub open spec fn ecc_tried(first: QrEcc, i: int) -> bool {
    i == 0 || ecc_try_order(first)[i] != first
}

/// The decoded content with another level.
pub open spec fn with_ecc(d: QrDecoded, e: QrEcc) -> QrDecoded {
    QrDecoded { text: d.text, version: d.version, ecc: e, original_mask: d.original_mask }
}

/// The candidate for level slot `i` and mask `mask`, when that level is
/// tried, regeneration succeeds and the shapes match.
pub open spec fn candidate_for(d: QrDecoded, reference: Seq<Seq<bool>>, i: int, mask: int) -> Option<(QrEcc, u8, Seq<Seq<bool>>, u32, u32)> {
    if !ecc_tried(d.ecc, i) {
        None
    } else {
        let e = ecc_try_order(d.ecc)[i];
        match regenerate_spec(with_ecc(d, e), mask as u8) {
            Ok(m) => if same_shape(reference, m) {
                let ps = diff_positions(reference, m);
                Some((e, mask as u8, m, ps.len() as u32,
                    count_outside_ignored(ps, if m.len() >= 1 { m.len() as int } else { 1 }) as u32))
            } else {
                None
            },
            Err(_) => None,
        }
    }
}

/// The candidates of the first `p` (level slot, mask) pairs, level-major.
pub open spec fn candidates_upto(d: QrDecoded, reference: Seq<Seq<bool>>, p: int) -> Seq<(QrEcc, u8, Seq<Seq<bool>>, u32, u32)>
    decreases p,
{
    if p <= 0 {
        Seq::empty()
    } else {
        candidates_upto(d, reference, p - 1) + match candidate_for(d, reference, (p - 1) / 8, (p - 1) % 8) {
            Some(c) => seq![c],
            None => Seq::empty(),
        }
    }
}

fn ecc_at(first: QrEcc, i: usize) -> (e: QrEcc)
    requires
        i < 5,
    ensures
        e == ecc_try_order(first)[i as int],
{
    if i == 0 { first } else if i == 1 { QrEcc::L } else if i == 2 { QrEcc::M } else if i == 3 { QrEcc::Q } else { QrEcc::H }
}

/// Regenerates the symbol for every level (the decoded one first) and mask
/// and records how far each regenerated matrix is from the sampled one.
pub fn qr_mask_candidates(decoded: &QrDecoded, reference_matrix: &QrMatrix) -> (cs: Vec<QrMaskCandidate>)
    ensures
        cs@.map_values(|c: QrMaskCandidate| candidate_view(c)) == candidates_upto(*decoded, matrix_view(reference_matrix), 40),
{
    let ghost reference = matrix_view(reference_matrix);
    let mut candidates: Vec<QrMaskCandidate> = Vec::new();
    let mut p: usize = 0;
    while p < 40
        invariant
            p <= 40,
            reference == matrix_view(reference_matrix),
            candidates@.map_values(|c: QrMaskCandidate| candidate_view(c)) == candidates_upto(*decoded, reference, p as int),
        decreases 40 - p,
    {
        let i = p / 8;
        let mask = (p % 8) as u8;
        let ecc = ecc_at(decoded.ecc, i);
        let ghost before = candidates@;
        if i == 0 || ecc != decoded.ecc {
            let variant = QrDecoded {
                text: decoded.text.clone(),
                version: decoded.version,
                ecc,
                original_mask: decoded.original_mask,
            };
            assert(variant == with_ecc(*decoded, ecc));
            match regenerate_qr(&variant, mask) {
                Ok(matrix) => {
                    proof {
                        assert forall|k: int| 0 <= k < matrix_view(&matrix).len() implies (#[trigger] matrix_view(&matrix)[k]).len() <= 0xffff by {
                            assert(matrix_view(&matrix)[k] == matrix@[k]@);
                        }
                    }
                    match compute_matrix_diff(reference_matrix, &matrix) {
                        Some(diff) => {
                            let modules = matrix.len();
                            let outside = qr_diff_outside_ignored_qr_regions(&diff, modules);
                            candidates.push(QrMaskCandidate {
                                ecc,
                                mask,
                                matrix,
                                total_diff: diff.diff_count,
                                outside_ignored_diff: outside,
                            });
                        },
                        None => {},
                    }
                },
                Err(_) => {},
            }
        }
        proof {
            assert(candidates@.map_values(|c: QrMaskCandidate| candidate_view(c)) =~= candidates_upto(*decoded, reference, p as int + 1));
        }
        p = p + 1;
    }
    candidates
}

/// Candidate `a` is preferred to `b`: the decoded level first, then the
/// decoded mask, then fewer differences, then the lower mask.
pub open spec fn prefers(a: (QrEcc, u8, Seq<Seq<bool>>, u32, u32), b: (QrEcc, u8, Seq<Seq<bool>>, u32, u32), pe: QrEcc, pm: Option<u8>) -> bool {
    let ka0 = a.0 != pe;
    let kb0 = b.0 != pe;
    let ka1 = pm != Some(a.1);
    let kb1 = pm != Some(b.1);
    if ka0 != kb0 {
        !ka0
    } else if ka1 != kb1 {
        !ka1
    } else if a.3 != b.3 {
        a.3 < b.3
    } else {
        a.1 < b.1
    }
}

/// Index of the most preferred candidate among the first `k` that match
/// outside the ignored regions (the earliest on ties).
pub open spec fn best_candidate_upto(cs: Seq<(QrEcc, u8, Seq<Seq<bool>>, u32, u32)>, pe: QrEcc, pm: Option<u8>, k: int) -> Option<int>
    decreases k,
{
    if k <= 0 {
        None
    } else {
        let b = best_candidate_upto(cs, pe, pm, k - 1);
        if cs[k - 1].4 != 0 {
            b
        } else {
            match b {
                None => Some(k - 1),
                Some(j) => if prefers(cs[k - 1], cs[j], pe, pm) { Some(k - 1) } else { b },
            }
        }
    }
}

proof fn lemma_best_candidate_range(cs: Seq<(QrEcc, u8, Seq<Seq<bool>>, u32, u32)>, pe: QrEcc, pm: Option<u8>, k: int)
    requires
        0 <= k,
    ensures
        best_candidate_upto(cs, pe, pm, k) matches Some(j) ==> 0 <= j < k,
    decreases k,
{
    if k > 0 {
        lemma_best_candidate_range(cs, pe, pm, k - 1);
    }
}

proof fn lemma_prefers_transitive(a: (QrEcc, u8, Seq<Seq<bool>>, u32, u32), b: (QrEcc, u8, Seq<Seq<bool>>, u32, u32),
    c: (QrEcc, u8, Seq<Seq<bool>>, u32, u32), pe: QrEcc, pm: Option<u8>)
    requires
        prefers(a, b, pe, pm),
        prefers(b, c, pe, pm),
    ensures
        prefers(a, c, pe, pm),
{
}

proof fn lemma_best_candidate_optimal(cs: Seq<(QrEcc, u8, Seq<Seq<bool>>, u32, u32)>, pe: QrEcc, pm: Option<u8>, k: int)
    requires
        0 <= k <= cs.len(),
    ensures
        best_candidate_upto(cs, pe, pm, k) is None <==> forall|j: int| 0 <= j < k ==> #[trigger] cs[j].4 != 0,
        best_candidate_upto(cs, pe, pm, k) matches Some(b) ==> cs[b].4 == 0
            && forall|j: int| 0 <= j < k && #[trigger] cs[j].4 == 0 ==> !prefers(cs[j], cs[b], pe, pm),
    decreases k,
{
    if k > 0 {
        lemma_best_candidate_optimal(cs, pe, pm, k - 1);
        lemma_best_candidate_range(cs, pe, pm, k - 1);
        let c = cs[k - 1];
        match best_candidate_upto(cs, pe, pm, k - 1) {
            None => {
                if c.4 == 0 {
                    assert(!prefers(c, c, pe, pm));
                }
            },
            Some(b) => {
                if c.4 == 0 && prefers(c, cs[b], pe, pm) {
                    assert forall|j: int| 0 <= j < k && #[trigger] cs[j].4 == 0 implies !prefers(cs[j], c, pe, pm) by {
                        if j < k - 1 && prefers(cs[j], c, pe, pm) {
                            lemma_prefers_transitive(cs[j], c, cs[b], pe, pm);
                        }
                    }
                }
            },
        }
    }
}

proof fn lemma_candidates_shape(d: QrDecoded, reference: Seq<Seq<bool>>, p: int)
    ensures
        forall|j: int| 0 <= j < candidates_upto(d, reference, p).len()
            ==> same_shape(reference, (#[trigger] candidates_upto(d, reference, p)[j]).2)
                && candidates_upto(d, reference, p)[j].1 < 8,
    decreases p,
{
    if p > 0 {
        lemma_candidates_shape(d, reference, p - 1);
        let prev = candidates_upto(d, reference, p - 1);
        let cur = candidates_upto(d, reference, p);
        assert forall|j: int| 0 <= j < cur.len() implies same_shape(reference, (#[trigger] cur[j]).2) && cur[j].1 < 8 by {
            if j < prev.len() {
                assert(cur[j] == prev[j]);
            } else {
                let mask = (p - 1) % 8;
                match candidate_for(d, reference, (p - 1) / 8, mask) {
                    Some(c) => {
                        assert(cur[j] == c);
                        assert(c.1 == mask as u8);
                    },
                    None => {},
                }
            }
        }
    }
}

/// The chosen candidate has the sampled matrix's shape and one of the eight
/// masks.
pub proof fn lemma_chosen_candidate_shape(d: QrDecoded, reference: Seq<Seq<bool>>)
    ensures
        chosen_candidate(d, reference) matches Some(c) ==> same_shape(reference, c.2) && c.1 < 8,
{
    let cs = candidates_upto(d, reference, 40);
    lemma_candidates_shape(d, reference, 40);
    lemma_best_candidate_range(cs, d.ecc, d.original_mask, cs.len() as int);
}

proof fn lemma_count_outside_ignored(ps: Seq<(int, int)>, modules: int)
    ensures
        0 <= count_outside_ignored(ps, modules) <= ps.len(),
        count_outside_ignored(ps, modules) == 0 ==> forall|i: int| 0 <= i < ps.len()
            ==> ignored_diff_spec(modules, (#[trigger] ps[i]).0, ps[i].1),
    decreases ps.len(),
{
    if ps.len() > 0 {
        lemma_count_outside_ignored(ps.drop_last(), modules);
        if count_outside_ignored(ps, modules) == 0 {
            assert forall|i: int| 0 <= i < ps.len() implies ignored_diff_spec(modules, (#[trigger] ps[i]).0, ps[i].1) by {
                if i < ps.len() - 1 {
                    assert(ps[i] == ps.drop_last()[i]);
                }
            }
        }
    }
}

/// Wherever the chosen regeneration differs from a sampled matrix, the
/// difference lies in a finder corner or in the logo square.
pub proof fn law_chosen_differs_only_in_ignored_regions(d: QrDecoded, reference: Seq<Seq<bool>>)
    requires
        matrix_bounded(reference),
    ensures
        chosen_candidate(d, reference) matches Some(c) ==> {
            let ps = diff_positions(reference, c.2);
            let modules = if c.2.len() >= 1 { c.2.len() as int } else { 1 };
            forall|i: int| 0 <= i < ps.len() ==> ignored_diff_spec(modules, (#[trigger] ps[i]).0, ps[i].1)
        },
{
    let cs = candidates_upto(d, reference, 40);
    law_chosen_mask_is_best(d, reference);
    lemma_chosen_candidate_shape(d, reference);
    match chosen_candidate(d, reference) {
        Some(c) => {
            let b = choose|b: int| 0 <= b < cs.len() && cs[b] == c
                && forall|j: int| 0 <= j < cs.len() && #[trigger] cs[j].4 == 0 ==> !prefers(cs[j], c, d.ecc, d.original_mask);
            lemma_candidate_counts(d, reference, 40, b);
            let ps = diff_positions(reference, c.2);
            let modules = if c.2.len() >= 1 { c.2.len() as int } else { 1 };
            lemma_count_outside_ignored(ps, modules);
            lemma_diff_rows_len(reference, c.2, reference.len() as int);
            assert(reference.len() * 0xffff <= 0xffff * 0xffff) by (nonlinear_arith)
                requires reference.len() <= 0xffff;
        },
        None => {},
    }
}

proof fn lemma_candidate_counts(d: QrDecoded, reference: Seq<Seq<bool>>, p: int, j: int)
    requires
        0 <= j < candidates_upto(d, reference, p).len(),
    ensures
        ({
            let c = candidates_upto(d, reference, p)[j];
            let ps = diff_positions(reference, c.2);
            c.4 == count_outside_ignored(ps, if c.2.len() >= 1 { c.2.len() as int } else { 1 }) as u32
        }),
    decreases p,
{
    if p > 0 {
        let prev = candidates_upto(d, reference, p - 1);
        if j < prev.len() {
            lemma_candidate_counts(d, reference, p - 1, j);
            assert(candidates_upto(d, reference, p)[j] == prev[j]);
        }
    }
}

/// Position of level `e` in the order tried after decoding at level
/// `first`: the decoded level first, then L, M, Q, H.
pub open spec fn ecc_rank(first: QrEcc, e: QrEcc) -> int {
    if e == first {
        0
    } else {
        match e {
            QrEcc::L => 1,
            QrEcc::M => 2,
            QrEcc::Q => 3,
            QrEcc::H => 4,
        }
    }
}

/// The order key of a candidate: level position, then mask.
pub open spec fn candidate_key(first: QrEcc, c: (QrEcc, u8, Seq<Seq<bool>>, u32, u32)) -> int {
    ecc_rank(first, c.0) * 8 + c.1
}

spec fn skipped_slot(first: QrEcc) -> int {
    match first {
        QrEcc::L => 1,
        QrEcc::M => 2,
        QrEcc::Q => 3,
        QrEcc::H => 4,
    }
}

spec fn skipped_before(first: QrEcc, p: int) -> int {
    let k = p - 8 * skipped_slot(first);
    if k <= 0 { 0 } else if k >= 8 { 8 } else { k }
}

proof fn lemma_candidates_law(d: QrDecoded, reference: Seq<Seq<bool>>, p: int)
    requires
        0 <= p <= 40,
    ensures
        ({
            let cs = candidates_upto(d, reference, p);
            &&& cs.len() <= p - skipped_before(d.ecc, p)
            &&& forall|j: int| 0 <= j < cs.len() ==> {
                &&& 0 <= candidate_key(d.ecc, #[trigger] cs[j]) < p
                &&& cs[j].1 <= 7
                &&& regenerate_spec(with_ecc(d, cs[j].0), cs[j].1) == Ok::<Seq<Seq<bool>>, Seq<char>>(cs[j].2)
            }
            &&& forall|j: int, k: int| 0 <= j < k < cs.len() ==> candidate_key(d.ecc, #[trigger] cs[j]) < candidate_key(d.ecc, #[trigger] cs[k])
            &&& !(1 <= d.version <= 40) ==> cs.len() == 0
        }),
    decreases p,
{
    if p > 0 {
        lemma_candidates_law(d, reference, p - 1);
        let prev = candidates_upto(d, reference, p - 1);
        let cs = candidates_upto(d, reference, p);
        let i = (p - 1) / 8;
        let mask = (p - 1) % 8;
        match candidate_for(d, reference, i, mask) {
            Some(c) => {
                assert(cs == prev.push(c));
                let e = ecc_try_order(d.ecc)[i];
                assert(c.0 == e && c.1 == mask as u8);
                assert(ecc_rank(d.ecc, e) == i);
                assert(i != skipped_slot(d.ecc));
                assert(candidate_key(d.ecc, c) == p - 1);
                assert forall|j: int| 0 <= j < cs.len() implies {
                    &&& 0 <= candidate_key(d.ecc, #[trigger] cs[j]) < p
                    &&& cs[j].1 <= 7
                    &&& regenerate_spec(with_ecc(d, cs[j].0), cs[j].1) == Ok::<Seq<Seq<bool>>, Seq<char>>(cs[j].2)
                } by {
                    if j < prev.len() {
                        assert(cs[j] == prev[j]);
                    }
                }
                assert forall|j: int, k: int| 0 <= j < k < cs.len() implies candidate_key(d.ecc, #[trigger] cs[j]) < candidate_key(d.ecc, #[trigger] cs[k]) by {
                    assert(cs[j] == prev[j]);
                    if k < prev.len() {
                        assert(cs[k] == prev[k]);
                    }
                }
            },
            None => {
                assert(cs == prev);
                if i == skipped_slot(d.ecc) {
                    assert(ecc_try_order(d.ecc)[i] == d.ecc);
                }
            },
        }
    }
}

/// The candidates come in order of level position (the decoded level first,
/// then L, M, Q, H) and mask, so each (level, mask) pair occurs at most
/// once; there are at most 32 of them, each with a mask up to 7 and the
/// matrix that regeneration at that level and mask gives; an invalid
/// version gives none.
pub proof fn law_mask_candidates(d: QrDecoded, reference: Seq<Seq<bool>>)
    ensures
        ({
            let cs = candidates_upto(d, reference, 40);
            &&& cs.len() <= 32
            &&& forall|j: int| 0 <= j < cs.len() ==> {
                &&& (#[trigger] cs[j]).1 <= 7
                &&& regenerate_spec(with_ecc(d, cs[j].0), cs[j].1) == Ok::<Seq<Seq<bool>>, Seq<char>>(cs[j].2)
            }
            &&& forall|j: int, k: int| 0 <= j < k < cs.len() ==> candidate_key(d.ecc, #[trigger] cs[j]) < candidate_key(d.ecc, #[trigger] cs[k])
            &&& forall|j: int, k: int| 0 <= j < k < cs.len() ==> (#[trigger] cs[j]).0 != (#[trigger] cs[k]).0 || cs[j].1 != cs[k].1
            &&& !(1 <= d.version <= 40) ==> cs.len() == 0
        }),
{
    lemma_candidates_law(d, reference, 40);
}

/// The mask choice is optimal: it is a candidate that matches outside the
/// ignored regions, no matching candidate is preferred to it, and there is
/// none only when no candidate matches.
pub proof fn law_chosen_mask_is_best(d: QrDecoded, reference: Seq<Seq<bool>>)
    ensures
        ({
            let cs = candidates_upto(d, reference, 40);
            match chosen_candidate(d, reference) {
                None => forall|j: int| 0 <= j < cs.len() ==> #[trigger] cs[j].4 != 0,
                Some(v) => v.4 == 0 && exists|b: int| 0 <= b < cs.len() && cs[b] == v
                    && forall|j: int| 0 <= j < cs.len() && #[trigger] cs[j].4 == 0 ==> !prefers(cs[j], v, d.ecc, d.original_mask),
            }
        }),
{
    let cs = candidates_upto(d, reference, 40);
    lemma_best_candidate_optimal(cs, d.ecc, d.original_mask, cs.len() as int);
    lemma_best_candidate_range(cs, d.ecc, d.original_mask, cs.len() as int);
}

/// Picks the candidate that matches the sampled matrix outside the finder
/// corners and logo, preferring the decoded level and mask, then fewer
/// differences, then the lower mask.
pub fn best_matching_qr_mask_index(candidates: &Vec<QrMaskCandidate>, preferred_ecc: QrEcc, preferred: Option<u8>) -> (r: Option<usize>)
    ensures
        r == (match best_candidate_upto(candidates@.map_values(|c: QrMaskCandidate| candidate_view(c)), preferred_ecc, preferred, candidates@.len() as int) {
            Some(j) => Some(j as usize),
            None => None::<usize>,
        }),
{
    let ghost cs = candidates@.map_values(|c: QrMaskCandidate| candidate_view(c));
    let mut best: Option<usize> = None;
    let mut k: usize = 0;
    while k < candidates.len()
        invariant
            cs == candidates@.map_values(|c: QrMaskCandidate| candidate_view(c)),
            k <= candidates@.len(),
            best == (match best_candidate_upto(cs, preferred_ecc, preferred, k as int) {
                Some(j) => Some(j as usize),
                None => None::<usize>,
            }),
        decreases candidates@.len() - k,
    {
        proof {
            lemma_best_candidate_range(cs, preferred_ecc, preferred, k as int);
        }
        let c = &candidates[k];
        if c.outside_ignored_diff == 0 {
            match best {
                None => {
                    best = Some(k);
                },
                Some(j) => {
                    let b = &candidates[j];
                    let a0 = c.ecc != preferred_ecc;
                    let b0 = b.ecc != preferred_ecc;
                    let a1 = match preferred { Some(m) => m != c.mask, None => true };
                    let b1 = match preferred { Some(m) => m != b.mask, None => true };
                    let better = if a0 != b0 {
                        !a0
                    } else if a1 != b1 {
                        !a1
                    } else if c.total_diff != b.total_diff {
                        c.total_diff < b.total_diff
                    } else {
                        c.mask < b.mask
                    };
                    if better {
                        best = Some(k);
                    }
                },
            }
        }
        k = k + 1;
    }
    best
}

/// The candidate `choose_matching_qr_mask` returns, if any.
pub open spec fn chosen_candidate(d: QrDecoded, reference: Seq<Seq<bool>>) -> Option<(QrEcc, u8, Seq<Seq<bool>>, u32, u32)> {
    let cs = candidates_upto(d, reference, 40);
    match best_candidate_upto(cs, d.ecc, d.original_mask, cs.len() as int) {
        Some(j) => Some(cs[j]),
        None => None,
    }
}

/// Finds the level and mask whose regenerated matrix matches the sampled
/// matrix outside the finder corners and logo square.
pub fn choose_matching_qr_mask(decoded: &QrDecoded, reference_matrix: &QrMatrix) -> (r: Option<QrMaskCandidate>)
    ensures
        match (r, chosen_candidate(*decoded, matrix_view(reference_matrix))) {
            (Some(c), Some(v)) => candidate_view(c) == v,
            (None, None) => true,
            _ => false,
        },
{
    let mut candidates = qr_mask_candidates(decoded, reference_matrix);
    let ghost cs = candidates@.map_values(|c: QrMaskCandidate| candidate_view(c));
    let count = candidates.len();
    let index = match best_matching_qr_mask_index(&candidates, decoded.ecc, decoded.original_mask) {
        Some(i) => i,
        None => return None,
    };
    proof {
        lemma_best_candidate_range(cs, decoded.ecc, decoded.original_mask, cs.len() as int);
        assert(cs.len() == candidates@.len());
        assert(cs[index as int] == candidate_view(candidates@[index as int]));
        match best_candidate_upto(cs, decoded.ecc, decoded.original_mask, cs.len() as int) {
            Some(j) => { assert(j as usize == index); assert(j == index); },
            None => { assert(false); },
        }
    }
    let ghost picked = candidates@[index as int];
    let chosen = candidates.swap_remove(index);
    assert(chosen == picked);
    proof {
        let spec_cs = candidates_upto(*decoded, matrix_view(reference_matrix), 40);
        assert(spec_cs == cs);
        assert(best_candidate_upto(cs, decoded.ecc, decoded.original_mask, cs.len() as int) == Some(index as int));
        assert(chosen_candidate(*decoded, matrix_view(reference_matrix)) == Some(cs[index as int]));
        assert(candidate_view(chosen) == cs[index as int]);
    }
    Some(chosen)
}

/// What a decoded QR code is restored to.
#[derive(Clone, Debug)]
pub enum QrRestoration {
    /// A regenerated matrix whose level and mask match the sampled grid.
    Matched(QrMaskCandidate),
    /// No level and mask match: the sampled grid itself.
    GridFallback(QrMatrix),
    /// The grid could not be sampled for the decoded version.
    Unsampled,
}

/// Samples the corrected image at the decoded version and picks the
/// regenerated matrix that matches it, falling back to the sampled grid.
pub fn restore_decoded_qr(warped: &BinaryImage, decoded: &QrDecoded) -> (r: QrRestoration)
    requires
        warped.wf(),
    ensures
        !(1 <= decoded.version <= 40) ==> r is Unsampled,
        1 <= decoded.version <= 40 ==> {
            let reference = sampled_grid_matrix(*warped, decoded.version as int);
            match chosen_candidate(*decoded, reference) {
                Some(v) => r matches QrRestoration::Matched(c) && candidate_view(c) == v,
                None => r matches QrRestoration::GridFallback(m) && matrix_view(&m) == reference,
            }
        },
{
    let reference = match sample_qr_grid(warped, decoded.version) {
        Ok(m) => m,
        Err(_) => return QrRestoration::Unsampled,
    };
    match choose_matching_qr_mask(decoded, &reference) {
        Some(candidate) => QrRestoration::Matched(candidate),
        None => QrRestoration::GridFallback(reference),
    }
}

/// The sampled matrix, or the regenerated matrix of the decoded mask when a
/// mask matched and the two differ in at most a tenth of the modules (at
/// least 24).
pub open spec fn stabilized_spec(matrix: Seq<Seq<bool>>, decoded: Option<QrDecoded>, matched_mask: Option<u8>) -> Seq<Seq<bool>> {
    match decoded {
        None => matrix,
        Some(d) => if matched_mask is None {
            matrix
        } else {
            let mask = match d.original_mask { Some(m) => m, None => 0u8 };
            match regenerate_spec(d, mask) {
                Err(_) => matrix,
                Ok(reference) => if !same_shape(matrix, reference) {
                    matrix
                } else {
                    let modules: int = if matrix.len() >= 1 { matrix.len() as int } else { 1 };
                    let snap: int = if modules * modules / 10 >= 24 { modules * modules / 10 } else { 24 };
                    if diff_positions(matrix, reference).len() <= snap { reference } else { matrix }
                },
            }
        },
    }
}

/// Snaps a sampled grid matrix to the regenerated matrix of the decoded mask
/// when they nearly agree.
pub fn stabilize_grid_matrix(matrix: QrMatrix, decoded: Option<&QrDecoded>, matched_mask: Option<u8>) -> (r: QrMatrix)
    ensures
        matrix_view(&r) == stabilized_spec(matrix_view(&matrix), match decoded { Some(d) => Some(*d), None => None }, matched_mask),
{
    let d = match decoded {
        Some(d) => d,
        None => return matrix,
    };
    if matched_mask.is_none() {
        return matrix;
    }
    let mask = match d.original_mask { Some(m) => m, None => 0 };
    let reference = match regenerate_qr(d, mask) {
        Ok(m) => m,
        Err(_) => return matrix,
    };
    proof {
        assert forall|k: int| 0 <= k < matrix_view(&reference).len() implies (#[trigger] matrix_view(&reference)[k]).len() <= 0xffff by {
            assert(matrix_view(&reference)[k] == reference@[k]@);
        }
    }
    let diff = match qr_matrix_diff_count(&matrix, &reference) {
        Some(n) => n,
        None => return matrix,
    };
    let modules: usize = if matrix.len() >= 1 { matrix.len() } else { 1 };
    assert(modules <= 177);
    proof {
        let a = matrix_view(&matrix);
        let b = matrix_view(&reference);
        assert(matrix_bounded(a));
        lemma_diff_rows_len(a, b, a.len() as int);
        assert(a.len() * 0xffff <= 177 * 0xffff) by (nonlinear_arith) requires a.len() <= 177;
    }
    assert(modules * modules <= 177 * 177) by (nonlinear_arith) requires modules <= 177;
    let area = modules * modules;
    let snap: usize = if area / 10 >= 24 { area / 10 } else { 24 };
    if diff <= snap { reference } else { matrix }
}

/// The status line shown after a successful QR decode.
pub open spec fn status_text_spec(d: QrDecoded, mask: u8, matched_mask: Option<u8>, diff_count: u32, outside: u32) -> Seq<char> {
    let mask_text = if matched_mask == Some(mask) {
        "原掩膜 "@ + decimal(mask as nat)
    } else {
        "当前掩膜 "@ + decimal(mask as nat) + "，无匹配掩膜（中心外差异 "@ + decimal(outside as nat) + "）"@
    };
    "已解码 QR：V"@ + decimal(d.version as nat) + " / ECC "@ + ecc_label(d.ecc) + " / "@ + mask_text
        + "，差异 "@ + decimal(diff_count as nat) + " 个模块（红色=原图有生成图没有，蓝色=原图没有生成图有）"@
}

/// Builds the status line for a decoded QR code and the mask in use.
pub fn qr_mask_status_text(decoded: &QrDecoded, mask: u8, matched_mask: Option<u8>, diff_count: u32, outside_logo_diff: u32) -> (s: String)
    ensures
        s@ == status_text_spec(*decoded, mask, matched_mask, diff_count, outside_logo_diff),
{
    let mask_text = if matched_mask == Some(mask) {
        message_with_number("原掩膜 ", mask as u64)
    } else {
        let mut t = message_with_number("当前掩膜 ", mask as u64);
        let u = message_with_number("，无匹配掩膜（中心外差异 ", outside_logo_diff as u64);
        t.append(u.as_str());
        t.append("）");
        t
    };
    let mut s = message_with_number("已解码 QR：V", decoded.version as u64);
    s.append(" / ECC ");
    s.append(decoded.ecc.label());
    s.append(" / ");
    s.append(mask_text.as_str());
    let d = message_with_number("，差异 ", diff_count as u64);
    s.append(d.as_str());
    s.append(" 个模块（红色=原图有生成图没有，蓝色=原图没有生成图有）");
    assert(s@ =~= status_text_spec(*decoded, mask, matched_mask, diff_count, outside_logo_diff));
    s
}

} // verus!
