use vstd::prelude::*;
use crate::raster::lemma_raster_index_inverse;

verus! {

/// One expected module of a QR function pattern: position, expected colour
/// (`true` = dark) and the weight it carries in a pattern score.
#[derive(Clone, Copy, Debug)]
pub struct Check {
    pub x: usize,
    pub y: usize,
    pub expected: bool,
    pub weight: u32,
}

/// Finder patterns are dark except on their middle ring (Chebyshev distance
/// 2 from the centre module `(3, 3)`).
pub open spec fn finder_expected_spec(x: int, y: int) -> bool {
    let dx = if x >= 3 { x - 3 } else { 3 - x };
    let dy = if y >= 3 { y - 3 } else { 3 - y };
    (if dx >= dy { dx } else { dy }) != 2
}

/// Whether module `(x, y)` of a 7x7 finder is dark.
pub fn finder_expected(x: usize, y: usize) -> (b: bool)
    requires
        x < 7,
        y < 7,
    ensures
        b == finder_expected_spec(x as int, y as int),
{
    let dx: usize = if x >= 3 { x - 3 } else { 3 - x };
    let dy: usize = if y >= 3 { y - 3 } else { 3 - y };
    let ring: usize = if dx >= dy { dx } else { dy };
    ring != 2
}

/// The 49 checks of a finder whose top-left module is `(sx, sy)`.
pub open spec fn finder_checks(sx: int, sy: int, weight: u32) -> Seq<Check> {
    Seq::new(49, |i: int| Check {
        x: (sx + i % 7) as usize,
        y: (sy + i / 7) as usize,
        expected: finder_expected_spec(i % 7, i / 7),
        weight,
    })
}

/// The six separator checks made for step `i` (0..8) of the separator scan.
pub open spec fn separator_check(modules: int, i: int, j: int) -> Check {
    let (x, y) = if j == 0 {
        (i, 7)
    } else if j == 1 {
        (7, i)
    } else if j == 2 {
        (modules - 8, i)
    } else if j == 3 {
        (modules - 1 - i, 7)
    } else if j == 4 {
        (i, modules - 8)
    } else {
        (7, modules - 1 - i)
    };
    Check { x: x as usize, y: y as usize, expected: false, weight: 2 }
}

/// The light separators around the three finders.
pub open spec fn separator_checks(modules: int) -> Seq<Check> {
    Seq::new(48, |k: int| separator_check(modules, k / 6, k % 6))
}

/// The two timing checks made for module `i` of the timing rows.
pub open spec fn timing_check(i: int, j: int) -> Check {
    if j == 0 {
        Check { x: i as usize, y: 6, expected: i % 2 == 0, weight: 3 }
    } else {
        Check { x: 6, y: i as usize, expected: i % 2 == 0, weight: 3 }
    }
}

/// The alternating timing patterns on row and column 6 (absent below 17
/// modules).
pub open spec fn timing_checks(modules: int) -> Seq<Check> {
    if modules <= 16 {
        Seq::empty()
    } else {
        Seq::new((2 * (modules - 16)) as nat, |k: int| timing_check(8 + k / 2, k % 2))
    }
}

/// Finder, separator and timing checks of a `modules`-wide symbol, with the
/// given finder weight.
pub open spec fn base_checks(modules: int, finder_weight: u32) -> Seq<Check> {
    finder_checks(0, 0, finder_weight)
        + finder_checks(modules - 7, 0, finder_weight)
        + finder_checks(0, modules - 7, finder_weight)
        + separator_checks(modules)
        + timing_checks(modules)
}

/// Sum of the weights of the checks that `sample` agrees with.
pub open spec fn hit_weight(checks: Seq<Check>, sample: spec_fn(int, int) -> bool) -> int
    decreases checks.len(),
{
    if checks.len() == 0 {
        0
    } else {
        let c = checks.last();
        hit_weight(checks.drop_last(), sample) + if sample(c.x as int, c.y as int) == c.expected {
            c.weight as int
        } else {
            0
        }
    }
}

/// Sum of all check weights.
pub open spec fn total_weight(checks: Seq<Check>) -> int
    decreases checks.len(),
{
    if checks.len() == 0 {
        0
    } else {
        total_weight(checks.drop_last()) + checks.last().weight
    }
}

pub proof fn lemma_hit_weight_bounds(checks: Seq<Check>, sample: spec_fn(int, int) -> bool)
    ensures
        0 <= hit_weight(checks, sample) <= total_weight(checks),
    decreases checks.len(),
{
    if checks.len() > 0 {
        lemma_hit_weight_bounds(checks.drop_last(), sample);
    }
}

pub proof fn lemma_total_weight_bound(checks: Seq<Check>, bound: int)
    requires
        forall|i: int| 0 <= i < checks.len() ==> (#[trigger] checks[i]).weight <= bound,
        0 <= bound,
    ensures
        0 <= total_weight(checks) <= checks.len() * bound,
    decreases checks.len(),
{
    if checks.len() > 0 {
        lemma_total_weight_bound(checks.drop_last(), bound);
        assert(checks.len() * bound == (checks.len() - 1) * bound + bound) by (nonlinear_arith);
    }
}

/// Appends the 49 checks of the finder at `(sx, sy)`.
pub fn push_finder_checks(checks: &mut Vec<Check>, sx: usize, sy: usize, weight: u32)
    requires
        sx + 7 <= usize::MAX,
        sy + 7 <= usize::MAX,
    ensures
        final(checks)@ == old(checks)@ + finder_checks(sx as int, sy as int, weight),
{
    let ghost start = checks@;
    let mut y: usize = 0;
    while y < 7
        invariant
            y <= 7,
            sx + 7 <= usize::MAX,
            sy + 7 <= usize::MAX,
            checks@.len() == start.len() + y * 7,
            checks@.subrange(0, start.len() as int) == start,
            forall|k: int| 0 <= k < y * 7 ==> #[trigger] checks@[start.len() + k] == finder_checks(sx as int, sy as int, weight)[k],
        decreases 7 - y,
    {
        let mut x: usize = 0;
        while x < 7
            invariant
                x <= 7,
                y < 7,
                sx + 7 <= usize::MAX,
                sy + 7 <= usize::MAX,
                checks@.len() == start.len() + y * 7 + x,
                checks@.subrange(0, start.len() as int) == start,
                forall|k: int| 0 <= k < y * 7 + x ==> #[trigger] checks@[start.len() + k] == finder_checks(sx as int, sy as int, weight)[k],
            decreases 7 - x,
        {
            let expected = finder_expected(x, y);
            proof {
                lemma_raster_index_inverse(7, x as int, y as int);
            }
            checks.push(Check { x: sx + x, y: sy + y, expected, weight });
            proof {
                assert(checks@.subrange(0, start.len() as int) =~= start);
                assert forall|k: int| 0 <= k < y * 7 + x + 1 implies #[trigger] checks@[start.len() + k] == finder_checks(sx as int, sy as int, weight)[k] by {
                    if k == y * 7 + x {
                        assert((y * 7 + x) as int % 7 == x && (y * 7 + x) as int / 7 == y);
                    }
                }
            }
            x = x + 1;
        }
        y = y + 1;
    }
    assert(checks@ =~= start + finder_checks(sx as int, sy as int, weight)) by {
        assert forall|k: int| 0 <= k < checks@.len() implies checks@[k] == (start + finder_checks(sx as int, sy as int, weight))[k] by {
            if k >= start.len() {
                assert(checks@[start.len() + (k - start.len())] == finder_checks(sx as int, sy as int, weight)[k - start.len()]);
            } else {
                assert(checks@.subrange(0, start.len() as int)[k] == start[k]);
            }
        }
    }
}

/// Appends the separator checks.
pub fn push_separator_checks(checks: &mut Vec<Check>, modules: usize)
    requires
        modules >= 8,
    ensures
        final(checks)@ == old(checks)@ + separator_checks(modules as int),
{
    let ghost start = checks@;
    let mut i: usize = 0;
    while i < 8
        invariant
            i <= 8,
            modules >= 8,
            checks@ == start + separator_checks(modules as int).subrange(0, (i * 6) as int),
        decreases 8 - i,
    {
        let ghost before = checks@;
        checks.push(Check { x: i, y: 7, expected: false, weight: 2 });
        checks.push(Check { x: 7, y: i, expected: false, weight: 2 });
        checks.push(Check { x: modules - 8, y: i, expected: false, weight: 2 });
        checks.push(Check { x: modules - 1 - i, y: 7, expected: false, weight: 2 });
        checks.push(Check { x: i, y: modules - 8, expected: false, weight: 2 });
        checks.push(Check { x: 7, y: modules - 1 - i, expected: false, weight: 2 });
        proof {
            assert forall|j: int| 0 <= j < 6 implies #[trigger] separator_checks(modules as int)[(i * 6) as int + j] == separator_check(modules as int, i as int, j) by {
                lemma_raster_index_inverse(6, j, i as int);
            }
            assert(checks@ =~= start + separator_checks(modules as int).subrange(0, ((i + 1) * 6) as int));
        }
        i = i + 1;
    }
    assert(separator_checks(modules as int).subrange(0, 48) =~= separator_checks(modules as int));
}

/// Appends the timing-pattern checks.
pub fn push_timing_checks(checks: &mut Vec<Check>, modules: usize)
    ensures
        final(checks)@ == old(checks)@ + timing_checks(modules as int),
{
    let ghost start = checks@;
    if modules <= 16 {
        assert(checks@ =~= start + timing_checks(modules as int));
        return;
    }
    let mut i: usize = 8;
    while i < modules - 8
        invariant
            modules > 16,
            8 <= i <= modules - 8,
            checks@ == start + timing_checks(modules as int).subrange(0, 2 * (i - 8)),
        decreases modules - 8 - i,
    {
        let expected = i % 2 == 0;
        checks.push(Check { x: i, y: 6, expected, weight: 3 });
        checks.push(Check { x: 6, y: i, expected, weight: 3 });
        proof {
            let k0 = 2 * (i - 8);
            lemma_raster_index_inverse(2, 0, (i - 8) as int);
            lemma_raster_index_inverse(2, 1, (i - 8) as int);
            assert(timing_checks(modules as int)[k0] == timing_check(i as int, 0));
            assert(timing_checks(modules as int)[k0 + 1] == timing_check(i as int, 1));
            assert(checks@ =~= start + timing_checks(modules as int).subrange(0, 2 * (i + 1 - 8)));
        }
        i = i + 1;
    }
    assert(timing_checks(modules as int).subrange(0, 2 * (modules - 16)) =~= timing_checks(modules as int));
}

/// Builds the finder, separator and timing checks of a `modules`-wide symbol.
pub fn base_pattern_checks(modules: usize, finder_weight: u32) -> (checks: Vec<Check>)
    requires
        modules >= 8,
        modules <= 1000,
    ensures
        checks@ == base_checks(modules as int, finder_weight),
{
    let mut checks: Vec<Check> = Vec::new();
    push_finder_checks(&mut checks, 0, 0, finder_weight);
    push_finder_checks(&mut checks, modules - 7, 0, finder_weight);
    push_finder_checks(&mut checks, 0, modules - 7, finder_weight);
    push_separator_checks(&mut checks, modules);
    push_timing_checks(&mut checks, modules);
    assert(checks@ =~= base_checks(modules as int, finder_weight));
    checks
}

} // verus!
