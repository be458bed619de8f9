use vstd::prelude::*;
use crate::error::QRacerError;
use crate::text::{message_with_number, decimal};

verus! {

/// Ring layout of a Douyin code: how many code rings, how many cells per
/// ring, and whether it has the black outer frame.
#[derive(Debug, Clone, Copy, PartialEq, Eq, Structural)]
pub struct DyParams {
    pub ring_count: u8,
    pub points_per_ring: u32,
    pub has_border: bool,
}

/// The supported layouts: 3 to 5 code rings with the black frame, 4 to 8
/// without it.
pub open spec fn dy_ring_count_valid(params: DyParams) -> bool {
    if params.has_border { 3 <= params.ring_count <= 5 } else { 4 <= params.ring_count <= 8 }
}

/// Accepts the supported ring counts and 72 or 120 points per ring; the
/// ring count is checked first.
pub fn validate_dy_params(params: DyParams) -> (r: Result<(), QRacerError>)
    ensures
        r is Ok <==> dy_ring_count_valid(params) && (params.points_per_ring == 72 || params.points_per_ring == 120),
        !dy_ring_count_valid(params) ==> (r matches Err(QRacerError::QrDecode(msg))
            && msg@ == "invalid Douyin ring count: "@ + decimal(params.ring_count as nat)),
        dy_ring_count_valid(params) && !(params.points_per_ring == 72 || params.points_per_ring == 120)
            ==> (r matches Err(QRacerError::QrDecode(msg))
            && msg@ == "invalid Douyin points per ring: "@ + decimal(params.points_per_ring as nat)),
{
    let ring_count_is_valid = if params.has_border {
        3 <= params.ring_count && params.ring_count <= 5
    } else {
        4 <= params.ring_count && params.ring_count <= 8
    };
    if !ring_count_is_valid {
        return Err(QRacerError::QrDecode(message_with_number("invalid Douyin ring count: ", params.ring_count as u64)));
    }
    if params.points_per_ring != 72 && params.points_per_ring != 120 {
        return Err(QRacerError::QrDecode(message_with_number("invalid Douyin points per ring: ", params.points_per_ring as u64)));
    }
    Ok(())
}

/// The two badge styles drawn beside a Douyin code.
#[derive(Debug, Clone, Copy, PartialEq, Eq, Structural)]
pub enum DyBadgeStyle {
    DouyinLogo,
    Bullseye,
}

/// Number of cells of the decorative fine rings of framed codes.
pub open spec fn decorative_points() -> int {
    720
}

/// The neighbouring decorative cell in `direction` (negative: backwards),
/// around the 720-cell ring.
pub open spec fn step_decorative_point_spec(point: int, direction: int) -> int {
    if direction < 0 { (point + 719) % 720 } else { (point + 1) % 720 }
}

/// Steps to the neighbouring cell of a decorative fine ring.
pub fn step_decorative_point(point: u32, direction: i32) -> (p: u32)
    requires
        point <= u32::MAX - 720,
    ensures
        p == step_decorative_point_spec(point as int, direction as int),
        p < 720,
{
    if direction < 0 {
        (point + 720 - 1) % 720
    } else {
        (point + 1) % 720
    }
}

/// A run of equal cells around a ring: `len` cells from `start` (taken
/// modulo the ring size).
#[derive(Debug, Clone, Copy, PartialEq, Eq, Structural)]
pub struct CircularRun {
    pub start: u32,
    pub len: u32,
}

/// Rings whose cell counts fit the run arithmetic: a run start (below twice
/// the ring size) plus a length or the ring size stays within `u32`.
pub open spec fn ring_fits(n: int) -> bool {
    3 * n <= u32::MAX
}

/// The first index at or after `i` whose cell differs from `value` (the
/// length when there is none).
pub open spec fn first_other_from(s: Seq<bool>, value: bool, i: int) -> int
    decreases s.len() - i,
{
    if i >= s.len() {
        s.len() as int
    } else if s[i] != value {
        i
    } else {
        first_other_from(s, value, i + 1)
    }
}

/// The scan behind `circular_runs`: walking the ring from `base` for `k`
/// cells, the closed runs and the offset where the open run began.
pub open spec fn run_scan(s: Seq<bool>, value: bool, base: int, k: int) -> (Seq<CircularRun>, Option<int>)
    decreases k,
{
    if k <= 0 {
        (Seq::empty(), None)
    } else {
        let (runs, open) = run_scan(s, value, base, k - 1);
        let point = (base + k - 1) % (s.len() as int);
        if s[point] == value {
            (runs, match open { Some(st) => Some(st), None => Some(k - 1) })
        } else {
            match open {
                Some(st) => (runs.push(CircularRun { start: (base + st) as u32, len: (k - 1 - st) as u32 }), None),
                None => (runs, None),
            }
        }
    }
}

/// The runs of `value` around the ring: the whole ring when every cell has
/// the value, otherwise the maximal runs met walking once around from just
/// after the first cell that differs.
pub open spec fn circular_runs_spec(s: Seq<bool>, value: bool) -> Seq<CircularRun> {
    let n = s.len() as int;
    if n == 0 {
        Seq::empty()
    } else if first_other_from(s, value, 0) == n {
        seq![CircularRun { start: 0, len: n as u32 }]
    } else {
        let base = first_other_from(s, value, 0) + 1;
        let (runs, open) = run_scan(s, value, base, n);
        match open {
            Some(st) => runs.push(CircularRun { start: (base + st) as u32, len: (n - st) as u32 }),
            None => runs,
        }
    }
}

proof fn lemma_first_other_bounds(s: Seq<bool>, value: bool, i: int)
    requires
        0 <= i <= s.len(),
    ensures
        i <= first_other_from(s, value, i) <= s.len(),
        first_other_from(s, value, i) < s.len() ==> s[first_other_from(s, value, i)] != value,
        forall|j: int| i <= j < first_other_from(s, value, i) ==> s[j] == value,
    decreases s.len() - i,
{
    if i < s.len() && s[i] == value {
        lemma_first_other_bounds(s, value, i + 1);
    }
}

proof fn lemma_run_scan_open(s: Seq<bool>, value: bool, base: int, k: int)
    requires
        0 <= k,
    ensures
        run_scan(s, value, base, k).1 matches Some(st) ==> 0 <= st < k,
    decreases k,
{
    if k > 0 {
        lemma_run_scan_open(s, value, base, k - 1);
    }
}

/// Lists the runs of `value` around a ring of cells.
pub fn circular_runs(samples: &Vec<bool>, value: bool) -> (runs: Vec<CircularRun>)
    requires
        ring_fits(samples@.len() as int),
    ensures
        runs@ == circular_runs_spec(samples@, value),
{
    let points = samples.len();
    if points == 0 {
        return Vec::new();
    }
    let ghost s = samples@;
    let mut first_other: usize = 0;
    while first_other < points && samples[first_other] == value
        invariant
            points == s.len(),
            s == samples@,
            first_other <= points,
            first_other_from(s, value, 0) == first_other_from(s, value, first_other as int),
        decreases points - first_other,
    {
        first_other = first_other + 1;
    }
    if first_other == points {
        let mut all: Vec<CircularRun> = Vec::new();
        all.push(CircularRun { start: 0, len: points as u32 });
        assert(all@ =~= circular_runs_spec(s, value));
        return all;
    }
    let base: usize = first_other + 1;
    let mut runs: Vec<CircularRun> = Vec::new();
    let mut start: Option<usize> = None;
    let mut offset: usize = 0;
    while offset < points
        invariant
            points == s.len(),
            s == samples@,
            ring_fits(points as int),
            base == first_other_from(s, value, 0) + 1,
            base <= points,
            offset <= points,
            runs@ == run_scan(s, value, base as int, offset as int).0,
            match start { Some(v) => run_scan(s, value, base as int, offset as int).1 == Some(v as int), None => run_scan(s, value, base as int, offset as int).1 is None },
        decreases points - offset,
    {
        proof {
            lemma_run_scan_open(s, value, base as int, offset as int);
        }
        let point = (base + offset) % points;
        if samples[point] == value {
            if start.is_none() {
                start = Some(offset);
            }
        } else {
            match start {
                Some(run_start) => {
                    runs.push(CircularRun { start: (base + run_start) as u32, len: (offset - run_start) as u32 });
                    start = None;
                },
                None => {},
            }
        }
        offset = offset + 1;
    }
    proof {
        lemma_run_scan_open(s, value, base as int, points as int);
    }
    match start {
        Some(run_start) => {
            runs.push(CircularRun { start: (base + run_start) as u32, len: (points - run_start) as u32 });
        },
        None => {},
    }
    runs
}

/// Cell `i` lies in the circular stretch of `len` cells from `start` on a
/// ring of `n` cells.
pub open spec fn in_circular_run(n: int, start: int, len: int, i: int) -> bool {
    len >= n || (i - start) % n < len
}

/// Sets `len` cells from `start` (wrapping around the ring) to `value`.
pub fn set_circular_run(samples: &mut Vec<bool>, start: u32, len: u32, value: bool)
    requires
        ring_fits(old(samples)@.len() as int),
        start + len <= u32::MAX,
    ensures
        final(samples)@.len() == old(samples)@.len(),
        forall|i: int| 0 <= i < old(samples)@.len() ==> #[trigger] final(samples)@[i]
            == if in_circular_run(old(samples)@.len() as int, start as int, len as int, i) { value } else { old(samples)@[i] },
{
    if samples.len() == 0 {
        return;
    }
    let points = samples.len() as u32;
    let ghost s = samples@;
    let mut offset: u32 = 0;
    while offset < len
        invariant
            points == s.len(),
            points > 0,
            samples@.len() == points,
            start + len <= u32::MAX,
            offset <= len,
            forall|i: int| 0 <= i < points ==> #[trigger] samples@[i]
                == if in_circular_run(points as int, start as int, offset as int, i) { value } else { s[i] },
        decreases len - offset,
    {
        let point = (start + offset) % points;
        samples.set(point as usize, value);
        proof {
            let n = points as int;
            let x = start as int + offset as int;
            vstd::arithmetic::div_mod::lemma_sub_mod_noop(x, start as int, n);
            vstd::arithmetic::div_mod::lemma_sub_mod_noop(x % n, start as int, n);
            vstd::arithmetic::div_mod::lemma_mod_twice(x, n);
            assert((point as int - start as int) % n == (offset as int) % n);
            if offset < points {
                vstd::arithmetic::div_mod::lemma_small_mod(offset as nat, n as nat);
            }
            assert forall|i: int| 0 <= i < points implies #[trigger] samples@[i]
                == if in_circular_run(n, start as int, offset as int + 1, i) { value } else { s[i] } by {
                vstd::arithmetic::div_mod::lemma_mod_bound(i - start as int, n);
                if i != point as int && (i - start as int) % n == (offset as int) % n {
                    lemma_same_residue(i, point as int, start as int, n);
                }
            }
        }
        offset = offset + 1;
    }
}

proof fn lemma_same_residue(i: int, j: int, start: int, n: int)
    requires
        0 <= i < n,
        0 <= j < n,
        (i - start) % n == (j - start) % n,
    ensures
        i == j,
{
    vstd::arithmetic::div_mod::lemma_fundamental_div_mod(i - start, n);
    vstd::arithmetic::div_mod::lemma_fundamental_div_mod(j - start, n);
    let qi = (i - start) / n;
    let qj = (j - start) / n;
    assert(i - j == n * (qi - qj)) by (nonlinear_arith)
        requires i - start == n * qi + (i - start) % n, j - start == n * qj + (j - start) % n, (i - start) % n == (j - start) % n;
    assert(qi == qj) by (nonlinear_arith)
        requires i - j == n * (qi - qj), 0 <= i < n, 0 <= j < n;
}

/// Both cells around a stretch (just before `start`, just after its end)
/// are black; never for an empty ring or a stretch covering it all.
pub open spec fn neighbors_black_spec(s: Seq<bool>, start: int, len: int) -> bool {
    let n = s.len() as int;
    if n == 0 || len >= n {
        false
    } else {
        s[(start + n - 1) % n] && s[(start + len) % n]
    }
}

/// Whether the cells on both sides of a stretch are black.
pub fn has_neighboring_black(samples: &Vec<bool>, start: u32, len: u32) -> (b: bool)
    requires
        ring_fits(samples@.len() as int),
        start + samples@.len() <= u32::MAX,
        start + len <= u32::MAX,
    ensures
        b == neighbors_black_spec(samples@, start as int, len as int),
{
    let points = samples.len() as u32;
    if points == 0 || len >= points {
        return false;
    }
    let prev = (start + points - 1) % points;
    let next = (start + len) % points;
    samples[prev as usize] && samples[next as usize]
}

proof fn lemma_run_scan_bounds(s: Seq<bool>, value: bool, base: int, k: int)
    requires
        0 <= k,
        0 <= base,
        base + k <= 0xffff_ffff,
    ensures
        forall|i: int| 0 <= i < run_scan(s, value, base, k).0.len() ==> {
            let r = #[trigger] run_scan(s, value, base, k).0[i];
            &&& base <= r.start < base + k
            &&& r.len <= k
        },
    decreases k,
{
    if k > 0 {
        lemma_run_scan_bounds(s, value, base, k - 1);
        lemma_run_scan_open(s, value, base, k - 1);
    }
}

/// Every listed run starts within two turns of the ring and is no longer
/// than the ring.
pub proof fn lemma_circular_runs_bounds(s: Seq<bool>, value: bool)
    requires
        ring_fits(s.len() as int),
    ensures
        forall|i: int| 0 <= i < circular_runs_spec(s, value).len() ==> {
            let r = #[trigger] circular_runs_spec(s, value)[i];
            &&& r.start < 2 * s.len()
            &&& r.len <= s.len()
        },
{
    let n = s.len() as int;
    if n > 0 {
        lemma_first_other_bounds(s, value, 0);
        if first_other_from(s, value, 0) < n {
            let base = first_other_from(s, value, 0) + 1;
            lemma_run_scan_bounds(s, value, base, n);
            lemma_run_scan_open(s, value, base, n);
        }
    }
}

/// The ring with a circular stretch set to `value`.
pub open spec fn set_run_spec(s: Seq<bool>, start: int, len: int, value: bool) -> Seq<bool> {
    Seq::new(s.len(), |i: int| if in_circular_run(s.len() as int, start, len, i) { value } else { s[i] })
}

/// The ring after the first `k` white runs of `runs` were considered for
/// closing (runs of at most `max_gap` cells with black on both sides).
pub open spec fn close_gaps_fold(s: Seq<bool>, runs: Seq<CircularRun>, max_gap: int, k: int) -> Seq<bool>
    decreases k,
{
    if k <= 0 {
        s
    } else {
        let prev = close_gaps_fold(s, runs, max_gap, k - 1);
        let r = runs[k - 1];
        if r.len <= max_gap && neighbors_black_spec(prev, r.start as int, r.len as int) {
            set_run_spec(prev, r.start as int, r.len as int, true)
        } else {
            prev
        }
    }
}

/// Closing short white gaps of a ring: every white run (listed before any
/// change) of at most `max_gap` cells that has black on both sides at the
/// time it is considered turns black.
pub open spec fn close_gaps_spec(s: Seq<bool>, max_gap: int) -> Seq<bool> {
    let runs = circular_runs_spec(s, false);
    close_gaps_fold(s, runs, max_gap, runs.len() as int)
}

/// The ring after the first `k` black runs shorter than `min_run` were
/// cleared.
pub open spec fn remove_runs_fold(s: Seq<bool>, runs: Seq<CircularRun>, min_run: int, k: int) -> Seq<bool>
    decreases k,
{
    if k <= 0 {
        s
    } else {
        let prev = remove_runs_fold(s, runs, min_run, k - 1);
        let r = runs[k - 1];
        if r.len < min_run { set_run_spec(prev, r.start as int, r.len as int, false) } else { prev }
    }
}

/// Removing short black runs: every black run (listed before any change)
/// shorter than `min_run` turns white.
pub open spec fn remove_short_runs_spec(s: Seq<bool>, min_run: int) -> Seq<bool> {
    let runs = circular_runs_spec(s, true);
    remove_runs_fold(s, runs, min_run, runs.len() as int)
}

/// Fills white gaps of at most `max_gap` cells that have black on both sides.
pub fn close_circular_white_gaps(samples: &mut Vec<bool>, max_gap: u32)
    requires
        ring_fits(old(samples)@.len() as int),
    ensures
        final(samples)@ == close_gaps_spec(old(samples)@, max_gap as int),
        final(samples)@.len() == old(samples)@.len(),
        forall|i: int| 0 <= i < old(samples)@.len() ==> #[trigger] final(samples)@[i]
            == (old(samples)@[i] || in_short_white_gap(old(samples)@, max_gap as int, i)),
{
    proof {
        law_close_gaps_fills_exactly_the_short_gaps(samples@, max_gap as int);
    }
    let ghost s = samples@;
    let runs = circular_runs(samples, false);
    proof {
        lemma_circular_runs_bounds(s, false);
    }
    let mut k: usize = 0;
    while k < runs.len()
        invariant
            runs@ == circular_runs_spec(s, false),
            ring_fits(s.len() as int),
            forall|i: int| 0 <= i < runs@.len() ==> (#[trigger] runs@[i]).start < 2 * s.len() && runs@[i].len <= s.len(),
            k <= runs@.len(),
            samples@ == close_gaps_fold(s, runs@, max_gap as int, k as int),
            samples@.len() == s.len(),
        decreases runs@.len() - k,
    {
        let run = runs[k];
        let ghost prev = samples@;
        if run.len <= max_gap && has_neighboring_black(samples, run.start, run.len) {
            set_circular_run(samples, run.start, run.len, true);
            assert(samples@ =~= set_run_spec(prev, run.start as int, run.len as int, true));
        }
        k = k + 1;
    }
}

/// Clears black runs shorter than `min_run` cells.
pub fn remove_short_circular_black_runs(samples: &mut Vec<bool>, min_run: u32)
    requires
        ring_fits(old(samples)@.len() as int),
    ensures
        final(samples)@ == remove_short_runs_spec(old(samples)@, min_run as int),
        final(samples)@.len() == old(samples)@.len(),
        forall|i: int| 0 <= i < old(samples)@.len() ==> #[trigger] final(samples)@[i]
            == (old(samples)@[i] && !in_short_black_run(old(samples)@, min_run as int, i)),
{
    proof {
        law_remove_short_black_runs(samples@, min_run as int);
    }
    let ghost s = samples@;
    let runs = circular_runs(samples, true);
    proof {
        lemma_circular_runs_bounds(s, true);
    }
    let mut k: usize = 0;
    while k < runs.len()
        invariant
            runs@ == circular_runs_spec(s, true),
            ring_fits(s.len() as int),
            forall|i: int| 0 <= i < runs@.len() ==> (#[trigger] runs@[i]).start < 2 * s.len() && runs@[i].len <= s.len(),
            k <= runs@.len(),
            samples@ == remove_runs_fold(s, runs@, min_run as int, k as int),
            samples@.len() == s.len(),
        decreases runs@.len() - k,
    {
        let run = runs[k];
        let ghost prev = samples@;
        if run.len < min_run {
            set_circular_run(samples, run.start, run.len, false);
            assert(samples@ =~= set_run_spec(prev, run.start as int, run.len as int, false));
        }
        k = k + 1;
    }
}

/// White run `r` of the unchanged ring `s` (720 cells) is a restorable gap:
/// at most `max_len` cells, black on both sides, every cell eligible.
pub open spec fn gap_restorable(s: Seq<bool>, r: CircularRun, max_len: int, eligible: Seq<bool>) -> bool {
    &&& r.len <= max_len
    &&& s[(r.start + 719) % 720]
    &&& s[(r.start + r.len) % 720]
    &&& forall|o: int| 0 <= o < r.len ==> #[trigger] eligible[(r.start + o) % 720]
}

/// The ring after the first `k` white runs of `runs` were considered:
/// restorable gaps of the unchanged ring `s` turn black.
pub open spec fn fill_gaps_fold(s: Seq<bool>, runs: Seq<CircularRun>, max_len: int, eligible: Seq<bool>, k: int) -> Seq<bool>
    decreases k,
{
    if k <= 0 {
        s
    } else {
        let prev = fill_gaps_fold(s, runs, max_len, eligible, k - 1);
        let r = runs[k - 1];
        if gap_restorable(s, r, max_len, eligible) { set_run_spec(prev, r.start as int, r.len as int, true) } else { prev }
    }
}

/// Filling eligible gaps: every white run of the ring of at most `max_len`
/// cells, black on both sides and made only of eligible cells, turns black.
pub open spec fn fill_gaps_spec(s: Seq<bool>, max_len: int, eligible: Seq<bool>) -> Seq<bool> {
    let runs = circular_runs_spec(s, false);
    fill_gaps_fold(s, runs, max_len, eligible, runs.len() as int)
}

/// Turns black the short white gaps between black cells whose cells are all
/// marked eligible.
fn fill_eligible_gaps(samples: &mut Vec<bool>, max_len: u32, eligible: &Vec<bool>)
    requires
        old(samples)@.len() == decorative_points(),
        eligible@.len() == decorative_points(),
    ensures
        final(samples)@ == fill_gaps_spec(old(samples)@, max_len as int, eligible@),
{
    let ghost s = samples@;
    let original = samples.clone();
    proof {
        assert(original@ =~= s);
    }
    let runs = circular_runs(&original, false);
    proof {
        lemma_circular_runs_bounds(s, false);
    }
    let mut k: usize = 0;
    while k < runs.len()
        invariant
            original@ == s,
            s.len() == 720,
            eligible@.len() == 720,
            runs@ == circular_runs_spec(s, false),
            forall|i: int| 0 <= i < runs@.len() ==> (#[trigger] runs@[i]).start < 2 * s.len() && runs@[i].len <= s.len(),
            k <= runs@.len(),
            samples@ == fill_gaps_fold(s, runs@, max_len as int, eligible@, k as int),
            samples@.len() == 720,
        decreases runs@.len() - k,
    {
        let run = runs[k];
        let ghost prev = samples@;
        assert(run.start < 1440 && run.len <= 720);
        if run.len <= max_len && original[((run.start + 719) % 720) as usize] && original[((run.start + run.len) % 720) as usize] {
            let mut restorable = true;
            let mut offset: u32 = 0;
            while offset < run.len
                invariant_except_break
                    restorable,
                invariant
                    run.start < 1440,
                    run.len <= 720,
                    eligible@.len() == 720,
                    offset <= run.len,
                    forall|o: int| 0 <= o < offset ==> #[trigger] eligible@[(run.start + o) % 720],
                ensures
                    restorable <==> forall|o: int| 0 <= o < run.len ==> #[trigger] eligible@[(run.start + o) % 720],
                decreases run.len - offset,
            {
                if !eligible[((run.start + offset) % 720) as usize] {
                    restorable = false;
                    break;
                }
                offset = offset + 1;
            }
            if restorable {
                set_circular_run(samples, run.start, run.len, true);
                assert(samples@ =~= set_run_spec(prev, run.start as int, run.len as int, true));
            } else {
                assert(!gap_restorable(s, run, max_len as int, eligible@));
            }
        }
        k = k + 1;
    }
}

/// Rebuilds breaks of a decorative fine ring beside the badge: white gaps
/// (of at most 10 cells on 72-cell codes, 6 otherwise) between black cells
/// whose cells all fit the ring template (`template_points`, absent when no
/// badge was found).
pub fn reconstruct_black_border_fine_ring_template(samples: &mut Vec<bool>, template_points: Option<&Vec<bool>>, code_points_per_ring: u32)
    requires
        old(samples)@.len() == decorative_points(),
        template_points matches Some(t) ==> t@.len() == decorative_points(),
    ensures
        template_points is None ==> final(samples)@ == old(samples)@,
        template_points matches Some(t) ==> final(samples)@
            == fill_gaps_spec(old(samples)@, if code_points_per_ring == 72 { 10int } else { 6int }, t@),
{
    let eligible = match template_points {
        Some(t) => t,
        None => return,
    };
    let max_gap: u32 = if code_points_per_ring == 72 { 10 } else { 6 };
    fill_eligible_gaps(samples, max_gap, eligible);
}

/// Bridges the inner fine ring of a 72-cell framed code across the badge
/// edge: white gaps of at most 10 cells between black cells whose cells are
/// all strong edge points (`bridge_points`, absent when no badge was found).
/// Other rings and sizes are left unchanged.
pub fn restore_black_border_72_inner_fine_ring_badge_bridges(
    samples: &mut Vec<bool>,
    bridge_points: Option<&Vec<bool>>,
    code_points_per_ring: u32,
    ring_idx: usize,
)
    requires
        old(samples)@.len() == decorative_points(),
        bridge_points matches Some(t) ==> t@.len() == decorative_points(),
    ensures
        (code_points_per_ring != 72 || ring_idx != 1 || bridge_points is None) ==> final(samples)@ == old(samples)@,
        (code_points_per_ring == 72 && ring_idx == 1 && bridge_points is Some) ==>
            final(samples)@ == fill_gaps_spec(old(samples)@, 10, bridge_points->0@),
{
    if code_points_per_ring != 72 || ring_idx != 1 {
        return;
    }
    let eligible = match bridge_points {
        Some(t) => t,
        None => return,
    };
    fill_eligible_gaps(samples, 10, eligible);
}

/// The ring after the ends of the first `k` black runs of the unchanged
/// ring `s` were extended into their white, extendable neighbour cells.
pub open spec fn extend_fold(s: Seq<bool>, runs: Seq<CircularRun>, extendable: Seq<bool>, k: int) -> Seq<bool>
    decreases k,
{
    if k <= 0 {
        s
    } else {
        let prev = extend_fold(s, runs, extendable, k - 1);
        let r = runs[k - 1];
        let before = (r.start + 719) % 720;
        let after = (r.start + r.len) % 720;
        let p1 = if !s[before] && extendable[before] { prev.update(before, true) } else { prev };
        if !s[after] && extendable[after] { p1.update(after, true) } else { p1 }
    }
}

/// Extends each black run of the inner fine ring of a 72-cell framed code
/// by one cell at either end where that white cell is weakly dark just
/// outside the badge edge (`extendable`, absent when no badge was found).
/// Other rings and sizes are left unchanged.
pub fn extend_black_border_72_inner_fine_ring_weak_endpoints(
    samples: &mut Vec<bool>,
    extendable: Option<&Vec<bool>>,
    code_points_per_ring: u32,
    ring_idx: usize,
)
    requires
        old(samples)@.len() == decorative_points(),
        extendable matches Some(t) ==> t@.len() == decorative_points(),
    ensures
        (code_points_per_ring != 72 || ring_idx != 1 || extendable is None) ==> final(samples)@ == old(samples)@,
        (code_points_per_ring == 72 && ring_idx == 1 && extendable is Some) ==> ({
            let runs = circular_runs_spec(old(samples)@, true);
            final(samples)@ == extend_fold(old(samples)@, runs, extendable->0@, runs.len() as int)
        }),
{
    if code_points_per_ring != 72 || ring_idx != 1 {
        return;
    }
    let ext = match extendable {
        Some(t) => t,
        None => return,
    };
    let ghost s = samples@;
    let original = samples.clone();
    proof {
        assert(original@ =~= s);
    }
    let runs = circular_runs(&original, true);
    proof {
        lemma_circular_runs_bounds(s, true);
    }
    let mut k: usize = 0;
    while k < runs.len()
        invariant
            original@ == s,
            s.len() == 720,
            ext@.len() == 720,
            runs@ == circular_runs_spec(s, true),
            forall|i: int| 0 <= i < runs@.len() ==> (#[trigger] runs@[i]).start < 2 * s.len() && runs@[i].len <= s.len(),
            k <= runs@.len(),
            samples@ == extend_fold(s, runs@, ext@, k as int),
            samples@.len() == 720,
        decreases runs@.len() - k,
    {
        let run = runs[k];
        assert(run.start < 1440 && run.len <= 720);
        let before = ((run.start + 719) % 720) as usize;
        let after = ((run.start + run.len) % 720) as usize;
        if !original[before] && ext[before] {
            samples.set(before, true);
        }
        if !original[after] && ext[after] {
            samples.set(after, true);
        }
        k = k + 1;
    }
}

/// Length of the black stretch of ring cells `off + (p + j) % n` starting
/// at offset `k`, counted up to `n` cells.
pub open spec fn black_run_len(s: Seq<bool>, off: int, n: int, p: int, k: int) -> int
    decreases n - k,
{
    if k >= n || !s[off + (p + k) % n] { k } else { black_run_len(s, off, n, p, k + 1) }
}

proof fn lemma_black_run_len_bounds(s: Seq<bool>, off: int, n: int, p: int, k: int)
    requires
        0 <= k <= n,
    ensures
        k <= black_run_len(s, off, n, p, k) <= n,
    decreases n - k,
{
    if k < n && s[off + (p + k) % n] {
        lemma_black_run_len_bounds(s, off, n, p, k + 1);
    }
}

/// Cell `p` of the ring at `off` (of `n` cells) is a noise start to clear:
/// black, white before it, black after it, and neither clearly dark
/// (`keep_any`) nor fairly dark at the head of a stretch longer than two
/// cells (`keep_if_long`).
pub open spec fn edge_noise_pruned(s: Seq<bool>, off: int, n: int, p: int, keep_any: Seq<bool>, keep_if_long: Seq<bool>) -> bool {
    &&& s[off + p]
    &&& !s[off + (p + n - 1) % n]
    &&& s[off + (p + 1) % n]
    &&& !(keep_any[off + p] || (keep_if_long[off + p] && black_run_len(s, off, n, p, 1) > 2))
}

/// Whether ring `r` is marked decorative (rings past the list are not).
pub open spec fn ring_is_decoration(decoration: Seq<bool>, r: int) -> bool {
    r < decoration.len() && decoration[r]
}

/// The samples after edge-noise pruning: cell `i` of code ring `i / n` is
/// cleared when it is a noise start of its unchanged ring.
pub open spec fn edge_noise_spec(s: Seq<bool>, decoration: Seq<bool>, ring_count: int, n: int, keep_any: Seq<bool>, keep_if_long: Seq<bool>, i: int) -> bool {
    if n > 0 && i < ring_count * n && !ring_is_decoration(decoration, i / n)
        && edge_noise_pruned(s, (i / n) * n, n, i % n, keep_any, keep_if_long) {
        false
    } else {
        s[i]
    }
}

/// Clears isolated starts of black stretches on the code rings whose own
/// darkness is weak (`keep_any` and `keep_if_long` mark the cells dark
/// enough to keep, always or at the head of a longer stretch).
pub fn prune_black_border_edge_noise(
    samples: &mut Vec<bool>,
    keep_any: &Vec<bool>,
    keep_if_long: &Vec<bool>,
    decoration: &Vec<bool>,
    ring_count: u8,
    points_per_ring: u32,
)
    requires
        ring_count * points_per_ring <= old(samples)@.len(),
        keep_any@.len() == old(samples)@.len(),
        keep_if_long@.len() == old(samples)@.len(),
        points_per_ring <= 0x5555_5555,
    ensures
        final(samples)@.len() == old(samples)@.len(),
        forall|i: int| 0 <= i < old(samples)@.len() ==> #[trigger] final(samples)@[i] == edge_noise_spec(old(samples)@,
            decoration@, ring_count as int, points_per_ring as int, keep_any@, keep_if_long@, i),
{
    let ghost s = samples@;
    let original = samples.clone();
    proof {
        assert(original@ =~= s);
    }
    let total = original.len();
    let points = points_per_ring as usize;
    let ghost n = points as int;
    let rings = ring_count as usize;
    let mut ring: usize = 0;
    while ring < rings
        invariant
            original@ == s,
            samples@.len() == s.len(),
            keep_any@.len() == s.len(),
            keep_if_long@.len() == s.len(),
            n == points,
            rings == ring_count,
            rings * n <= s.len(),
            total == s.len(),
            n <= 0x5555_5555,
            ring <= rings,
            forall|i: int| 0 <= i < s.len() ==> #[trigger] samples@[i] == if i < ring * n {
                edge_noise_spec(s, decoration@, ring_count as int, n, keep_any@, keep_if_long@, i)
            } else {
                s[i]
            },
        decreases rings - ring,
    {
        assert((ring + 1) * n <= rings * n) by (nonlinear_arith) requires ring < rings, n >= 0;
        assert((ring + 1) * n == ring * n + n) by (nonlinear_arith);
        let ring_offset = ring * points;
        let is_decoration = ring < decoration.len() && decoration[ring];
        let mut point: usize = 0;
        while point < points
            invariant
                original@ == s,
                samples@.len() == s.len(),
                keep_any@.len() == s.len(),
                keep_if_long@.len() == s.len(),
                n == points,
                rings == ring_count,
                ring < rings,
                ring_offset == ring * n,
                ring_offset + n <= s.len(),
                total == s.len(),
                n <= 0x5555_5555,
                is_decoration == ring_is_decoration(decoration@, ring as int),
                point <= points,
                forall|i: int| 0 <= i < s.len() ==> #[trigger] samples@[i] == if i < ring * n + point {
                    edge_noise_spec(s, decoration@, ring_count as int, n, keep_any@, keep_if_long@, i)
                } else {
                    s[i]
                },
            decreases points - point,
        {
            let idx = ring_offset + point;
            proof {
                vstd::arithmetic::div_mod::lemma_fundamental_div_mod_converse(idx as int, n, ring as int, point as int);
                assert(ring < ring_count);
                assert(idx < ring_count * n) by (nonlinear_arith)
                    requires idx == ring * n + point, point < n, ring + 1 <= ring_count, n > 0;
            }
            let ghost prev_samples = samples@;
            if !is_decoration && original[idx] {
                let prev = ring_offset + (point + points - 1) % points;
                let next = ring_offset + (point + 1) % points;
                if !original[prev] && original[next] {
                    let mut run_len: usize = 1;
                    proof {
                        lemma_black_run_len_bounds(s, ring_offset as int, n, point as int, 1);
                    }
                    while run_len < points && original[ring_offset + (point + run_len) % points]
                        invariant
                            original@ == s,
                            n == points,
                            point < n,
                            ring_offset + n <= s.len(),
                            total == s.len(),
                            n <= 0x5555_5555,
                            1 <= run_len <= points,
                            black_run_len(s, ring_offset as int, n, point as int, run_len as int)
                                == black_run_len(s, ring_offset as int, n, point as int, 1),
                        decreases points - run_len,
                    {
                        run_len = run_len + 1;
                    }
                    if !(keep_any[idx] || (keep_if_long[idx] && run_len > 2)) {
                        samples.set(idx, false);
                    }
                }
            }
            proof {
                assert forall|i: int| 0 <= i < s.len() implies #[trigger] samples@[i] == if i < ring * n + point + 1 {
                    edge_noise_spec(s, decoration@, ring_count as int, n, keep_any@, keep_if_long@, i)
                } else {
                    s[i]
                } by {
                    if i != idx {
                        assert(samples@[i] == prev_samples[i]);
                    }
                }
            }
            point = point + 1;
        }
        ring = ring + 1;
    }
    proof {
        assert forall|i: int| 0 <= i < s.len() implies #[trigger] samples@[i]
            == edge_noise_spec(s, decoration@, ring_count as int, n, keep_any@, keep_if_long@, i) by {
            if i >= rings * n {
                if n > 0 {
                    assert(!(i < ring_count * n));
                }
            }
        }
    }
}

/// Per-cell marks of the first code ring used to prune short runs beside
/// the badge: cells in the badge gap, cells whose badge distance ratio is at
/// least the lower bound or at most the upper bound, and cells close
/// enough to the badge to clear.
#[derive(Debug, Clone)]
pub struct OuterRunMarks {
    pub badge_gap: Vec<bool>,
    pub at_least_min: Vec<bool>,
    pub at_most_max: Vec<bool>,
    pub trimmable: Vec<bool>,
}

impl OuterRunMarks {
    /// Each mark list covers the `n` cells of the ring.
    pub open spec fn covers(&self, n: int) -> bool {
        &&& self.badge_gap@.len() == n
        &&& self.at_least_min@.len() == n
        &&& self.at_most_max@.len() == n
        &&& self.trimmable@.len() == n
    }
}

/// Black run `r` of the ring `o` (of `n` cells) is a short run beside the
/// badge: at most two cells, a badge-gap cell just before or after it, and
/// its smallest badge distance ratio within bounds (every cell at least the
/// lower bound, some cell at most the upper one).
pub open spec fn outer_run_prunable(o: Seq<bool>, n: int, r: CircularRun, m: OuterRunMarks) -> bool {
    &&& r.len <= 2
    &&& (m.badge_gap@[(r.start + n - 1) % n] || m.badge_gap@[(r.start + r.len) % n])
    &&& forall|j: int| 0 <= j < r.len ==> #[trigger] m.at_least_min@[(r.start + j) % n]
    &&& exists|j: int| 0 <= j < r.len && #[trigger] m.at_most_max@[(r.start + j) % n]
}

/// The samples after the first `k` black runs of the first ring were
/// considered: the trimmable cells of each prunable run turn white.
pub open spec fn outer_prune_fold(s: Seq<bool>, o: Seq<bool>, n: int, runs: Seq<CircularRun>, m: OuterRunMarks, k: int) -> Seq<bool>
    decreases k,
{
    if k <= 0 {
        s
    } else {
        let prev = outer_prune_fold(s, o, n, runs, m, k - 1);
        let r = runs[k - 1];
        if outer_run_prunable(o, n, r, m) {
            Seq::new(prev.len(), |i: int| if i < n && in_circular_run(n, r.start as int, r.len as int, i) && m.trimmable@[i] { false } else { prev[i] })
        } else {
            prev
        }
    }
}

/// The first `n` cells of `samples`.
fn ring_prefix(samples: &Vec<bool>, n: usize) -> (r: Vec<bool>)
    requires
        n <= samples@.len(),
    ensures
        r@ == samples@.subrange(0, n as int),
{
    let mut r: Vec<bool> = Vec::new();
    let mut i: usize = 0;
    while i < n
        invariant
            n <= samples@.len(),
            i <= n,
            r@ == samples@.subrange(0, i as int),
        decreases n - i,
    {
        r.push(samples[i]);
        i = i + 1;
        assert(r@ =~= samples@.subrange(0, i as int));
    }
    r
}

/// Clears short black runs of the first code ring that sit against the
/// badge gap (`marks` is absent when no badge or ring was found).
pub fn prune_black_border_badge_outer_short_runs(samples: &mut Vec<bool>, marks: Option<&OuterRunMarks>, points_per_ring: u32)
    requires
        points_per_ring <= 0x5555_5555,
        marks matches Some(m) ==> m.covers(points_per_ring as int),
    ensures
        (marks is None || old(samples)@.len() < points_per_ring) ==> final(samples)@ == old(samples)@,
        (marks is Some && old(samples)@.len() >= points_per_ring) ==> ({
            let o = old(samples)@.subrange(0, points_per_ring as int);
            let runs = circular_runs_spec(o, true);
            final(samples)@ == outer_prune_fold(old(samples)@, o, points_per_ring as int, runs, *marks->0, runs.len() as int)
        }),
{
    let m = match marks {
        Some(m) => m,
        None => return,
    };
    if samples.len() < points_per_ring as usize {
        return;
    }
    let points = points_per_ring as usize;
    let ghost s = samples@;
    let ghost n = points as int;
    let original = ring_prefix(samples, points);
    let runs = circular_runs(&original, true);
    proof {
        lemma_circular_runs_bounds(original@, true);
    }
    let mut k: usize = 0;
    while k < runs.len()
        invariant
            n == points,
            points == points_per_ring,
            n <= 0x5555_5555,
            n <= s.len(),
            m.covers(n),
            original@ == s.subrange(0, n),
            runs@ == circular_runs_spec(original@, true),
            forall|i: int| 0 <= i < runs@.len() ==> (#[trigger] runs@[i]).start < 2 * n && runs@[i].len <= n,
            k <= runs@.len(),
            samples@ == outer_prune_fold(s, original@, n, runs@, *m, k as int),
            samples@.len() == s.len(),
        decreases runs@.len() - k,
    {
        let run = runs[k];
        let ghost prev = samples@;
        if run.len <= 2 && points > 0 {
            let before = ((run.start + points_per_ring - 1) % points_per_ring) as usize;
            let after = ((run.start + run.len) % points_per_ring) as usize;
            if m.badge_gap[before] || m.badge_gap[after] {
                let mut all_min = true;
                let mut any_max = false;
                let mut j: u32 = 0;
                while j < run.len
                    invariant
                        run.len <= 2,
                        run.start < 2 * n,
                        n == points_per_ring,
                        n > 0,
                        n <= 0x5555_5555,
                        m.covers(n),
                        j <= run.len,
                        all_min == forall|t: int| 0 <= t < j ==> #[trigger] m.at_least_min@[(run.start + t) % n],
                        any_max == exists|t: int| 0 <= t < j && #[trigger] m.at_most_max@[(run.start + t) % n],
                    decreases run.len - j,
                {
                    let cell = ((run.start + j) % points_per_ring) as usize;
                    if !m.at_least_min[cell] {
                        all_min = false;
                    }
                    if m.at_most_max[cell] {
                        any_max = true;
                    }
                    proof {
                        assert(cell == (run.start + j) % n);
                        if all_min {
                            assert forall|t: int| 0 <= t < j + 1 implies #[trigger] m.at_least_min@[(run.start + t) % n] by {}
                        } else {
                            if forall|t: int| 0 <= t < j + 1 ==> #[trigger] m.at_least_min@[(run.start + t) % n] {
                                assert(m.at_least_min@[(run.start + j) % n]);
                            }
                        }
                        if any_max && !(exists|t: int| 0 <= t < j && #[trigger] m.at_most_max@[(run.start + t) % n]) {
                            assert(m.at_most_max@[(run.start + j) % n]);
                        }
                    }
                    j = j + 1;
                }
                if all_min && any_max {
                    let mut offset: u32 = 0;
                    while offset < run.len
                        invariant
                            run.len <= 2,
                            run.len <= n,
                            run.start < 2 * n,
                            n == points_per_ring,
                            n > 0,
                            n <= 0x5555_5555,
                            m.covers(n),
                            samples@.len() == prev.len(),
                            n <= prev.len(),
                            offset <= run.len,
                            forall|i: int| 0 <= i < prev.len() ==> #[trigger] samples@[i]
                                == if i < n && in_circular_run(n, run.start as int, offset as int, i) && m.trimmable@[i] { false } else { prev[i] },
                        decreases run.len - offset,
                    {
                        let cell = ((run.start + offset) % points_per_ring) as usize;
                        if m.trimmable[cell] {
                            samples.set(cell, false);
                        }
                        proof {
                            let x = run.start as int + offset as int;
                            vstd::arithmetic::div_mod::lemma_sub_mod_noop(x, run.start as int, n);
                            vstd::arithmetic::div_mod::lemma_sub_mod_noop(x % n, run.start as int, n);
                            vstd::arithmetic::div_mod::lemma_mod_twice(x, n);
                            vstd::arithmetic::div_mod::lemma_small_mod(offset as nat, n as nat);
                            assert forall|i: int| 0 <= i < prev.len() implies #[trigger] samples@[i]
                                == if i < n && in_circular_run(n, run.start as int, offset as int + 1, i) && m.trimmable@[i] { false } else { prev[i] } by {
                                if i < n {
                                    vstd::arithmetic::div_mod::lemma_mod_bound(i - run.start as int, n);
                                    if i != cell as int && (i - run.start as int) % n == offset as int {
                                        lemma_same_residue(i, cell as int, run.start as int, n);
                                    }
                                }
                            }
                        }
                        offset = offset + 1;
                    }
                    assert(samples@ =~= Seq::new(prev.len(), |i: int| if i < n && in_circular_run(n, run.start as int, run.len as int, i) && m.trimmable@[i] { false } else { prev[i] }));
                } else {
                    assert(!outer_run_prunable(original@, n, run, *m));
                }
            } else {
                assert(!outer_run_prunable(original@, n, run, *m));
            }
        } else {
            assert(!outer_run_prunable(original@, n, run, *m)) by {
                if points == 0 {
                    assert(original@.len() == 0);
                    assert(runs@.len() == 0) by { lemma_circular_runs_bounds(original@, true); }
                }
            }
        }
        k = k + 1;
    }
}

/// From cell `p`, skips at most six white cells of the unchanged ring `o`
/// in `direction`; the first cell not skipped.
pub open spec fn skip_gap(o: Seq<bool>, p: int, direction: int, gap: int) -> int
    decreases 6 - gap,
{
    if gap < 6 && !o[p] { skip_gap(o, step_decorative_point_spec(p, direction), direction, gap + 1) } else { p }
}

/// Clears up to four consecutive cells from `p` in `direction` while they
/// are black in `o` and marked as badge edge cells.
pub open spec fn trim_walk(samples: Seq<bool>, o: Seq<bool>, edge: Seq<bool>, p: int, direction: int, t: int) -> Seq<bool>
    decreases 4 - t,
{
    if t < 4 && o[p] && edge[p] {
        trim_walk(samples.update(p, false), o, edge, step_decorative_point_spec(p, direction), direction, t + 1)
    } else {
        samples
    }
}

/// Trimming the bridge beside a cleared run: past a white gap of at most six
/// cells, the black edge cells that follow (up to four) are cleared.
pub open spec fn trim_neighbor_spec(samples: Seq<bool>, o: Seq<bool>, edge: Seq<bool>, start: int, direction: int) -> Seq<bool> {
    let q = skip_gap(o, step_decorative_point_spec(start, direction), direction, 0);
    if !o[q] { samples } else { trim_walk(samples, o, edge, q, direction, 0) }
}

proof fn lemma_skip_gap_range(o: Seq<bool>, p: int, direction: int, gap: int)
    requires
        0 <= p < 720,
    ensures
        0 <= skip_gap(o, p, direction, gap) < 720,
    decreases 6 - gap,
{
    if gap < 6 && !o[p] {
        lemma_skip_gap_range(o, step_decorative_point_spec(p, direction), direction, gap + 1);
    }
}

/// Clears the black edge cells just past the white gap next to `start`.
fn trim_badge_decorative_bridge_neighbor(samples: &mut Vec<bool>, original: &Vec<bool>, edge: &Vec<bool>, start: u32, direction: i32)
    requires
        old(samples)@.len() == 720,
        original@.len() == 720,
        edge@.len() == 720,
        start < 1440,
    ensures
        final(samples)@ == trim_neighbor_spec(old(samples)@, original@, edge@, start as int, direction as int),
        final(samples)@.len() == 720,
{
    let mut point = step_decorative_point(start, direction);
    let ghost first = point as int;
    let mut gap: u32 = 0;
    while gap < 6 && !original[point as usize]
        invariant
            original@.len() == 720,
            point < 720,
            gap <= 6,
            skip_gap(original@, point as int, direction as int, gap as int) == skip_gap(original@, first, direction as int, 0),
        decreases 6 - gap,
    {
        point = step_decorative_point(point, direction);
        gap = gap + 1;
    }
    if !original[point as usize] {
        return;
    }
    let ghost q = point as int;
    let ghost s0 = samples@;
    let mut trimmed: u32 = 0;
    while trimmed < 4 && original[point as usize] && edge[point as usize]
        invariant
            original@.len() == 720,
            edge@.len() == 720,
            samples@.len() == 720,
            point < 720,
            trimmed <= 4,
            trim_walk(samples@, original@, edge@, point as int, direction as int, trimmed as int)
                == trim_walk(s0, original@, edge@, q, direction as int, 0),
        decreases 4 - trimmed,
    {
        samples.set(point as usize, false);
        point = step_decorative_point(point, direction);
        trimmed = trimmed + 1;
    }
}

/// Black run `r` of the unchanged ring `o` is a short decorative run at the
/// badge edge: at most four cells whose smallest edge ratio lies in bounds
/// (every cell at least the lower bound, some at most the upper one).
pub open spec fn decorative_run_prunable(r: CircularRun, at_least_min: Seq<bool>, at_most_max: Seq<bool>) -> bool {
    &&& r.len <= 4
    &&& forall|j: int| 0 <= j < r.len ==> #[trigger] at_least_min[(r.start + j) % 720]
    &&& exists|j: int| 0 <= j < r.len && #[trigger] at_most_max[(r.start + j) % 720]
}

/// Cells whose edge ratio lies within both bounds.
pub open spec fn edge_cells(at_least_min: Seq<bool>, at_most_max: Seq<bool>) -> Seq<bool> {
    Seq::new(720, |i: int| at_least_min[i] && at_most_max[i])
}

/// The ring after the first `k` black runs of `o` were considered: each
/// prunable run is cleared and the bridges on both sides trimmed.
pub open spec fn decorative_prune_fold(s: Seq<bool>, o: Seq<bool>, runs: Seq<CircularRun>, at_least_min: Seq<bool>, at_most_max: Seq<bool>, k: int) -> Seq<bool>
    decreases k,
{
    if k <= 0 {
        s
    } else {
        let prev = decorative_prune_fold(s, o, runs, at_least_min, at_most_max, k - 1);
        let r = runs[k - 1];
        if decorative_run_prunable(r, at_least_min, at_most_max) {
            let edge = edge_cells(at_least_min, at_most_max);
            let cleared = set_run_spec(prev, r.start as int, r.len as int, false);
            let left = trim_neighbor_spec(cleared, o, edge, r.start as int, -1);
            trim_neighbor_spec(left, o, edge, (r.start + r.len) % 720, 1)
        } else {
            prev
        }
    }
}

/// Per-cell marks of a decorative fine ring against the badge edge: edge
/// ratio at least the lower bound, at most the upper bound, and (for
/// 72-cell codes) inside the edge band of the ring.
#[derive(Debug, Clone)]
pub struct DecorativeEdgeMarks {
    pub at_least_min: Vec<bool>,
    pub at_most_max: Vec<bool>,
    pub band_72: Vec<bool>,
}

/// Prunes decorative fine-ring cells at the badge edge: on 72-cell codes
/// every edge-band cell is cleared; on 120-cell codes short black runs at
/// the edge are cleared with the bridges beside them. `marks` is absent
/// when no badge was found; other sizes are left unchanged.
pub fn prune_black_border_badge_decorative_short_runs(samples: &mut Vec<bool>, marks: Option<&DecorativeEdgeMarks>, code_points_per_ring: u32)
    requires
        old(samples)@.len() == decorative_points(),
        marks matches Some(m) ==> m.at_least_min@.len() == 720 && m.at_most_max@.len() == 720 && m.band_72@.len() == 720,
    ensures
        final(samples)@.len() == 720,
        (marks is None || (code_points_per_ring != 72 && code_points_per_ring != 120)) ==> final(samples)@ == old(samples)@,
        (marks is Some && code_points_per_ring == 72) ==> final(samples)@
            == Seq::new(720, |i: int| if marks->0.band_72@[i] { false } else { old(samples)@[i] }),
        (marks is Some && code_points_per_ring == 120) ==> ({
            let runs = circular_runs_spec(old(samples)@, true);
            final(samples)@ == decorative_prune_fold(old(samples)@, old(samples)@, runs,
                marks->0.at_least_min@, marks->0.at_most_max@, runs.len() as int)
        }),
{
    let m = match marks {
        Some(m) => m,
        None => return,
    };
    if code_points_per_ring == 72 {
        let ghost s = samples@;
        let mut point: usize = 0;
        while point < 720
            invariant
                samples@.len() == 720,
                m.band_72@.len() == 720,
                point <= 720,
                forall|i: int| 0 <= i < 720 ==> #[trigger] samples@[i] == if i < point && m.band_72@[i] { false } else { s[i] },
            decreases 720 - point,
        {
            if m.band_72[point] {
                samples.set(point, false);
            }
            point = point + 1;
        }
        assert(samples@ =~= Seq::new(720, |i: int| if m.band_72@[i] { false } else { s[i] }));
        return;
    }
    if code_points_per_ring != 120 {
        return;
    }
    let ghost s = samples@;
    let original = samples.clone();
    proof {
        assert(original@ =~= s);
    }
    let mut edge: Vec<bool> = Vec::new();
    let mut e: usize = 0;
    while e < 720
        invariant
            m.at_least_min@.len() == 720,
            m.at_most_max@.len() == 720,
            e <= 720,
            edge@.len() == e,
            forall|i: int| 0 <= i < e ==> #[trigger] edge@[i] == (m.at_least_min@[i] && m.at_most_max@[i]),
        decreases 720 - e,
    {
        edge.push(m.at_least_min[e] && m.at_most_max[e]);
        e = e + 1;
    }
    assert(edge@ =~= edge_cells(m.at_least_min@, m.at_most_max@));
    let runs = circular_runs(&original, true);
    proof {
        lemma_circular_runs_bounds(s, true);
    }
    let mut k: usize = 0;
    while k < runs.len()
        invariant
            original@ == s,
            s.len() == 720,
            m.at_least_min@.len() == 720,
            m.at_most_max@.len() == 720,
            edge@ == edge_cells(m.at_least_min@, m.at_most_max@),
            runs@ == circular_runs_spec(s, true),
            forall|i: int| 0 <= i < runs@.len() ==> (#[trigger] runs@[i]).start < 2 * s.len() && runs@[i].len <= s.len(),
            k <= runs@.len(),
            samples@ == decorative_prune_fold(s, s, runs@, m.at_least_min@, m.at_most_max@, k as int),
            samples@.len() == 720,
        decreases runs@.len() - k,
    {
        let run = runs[k];
        let ghost prev = samples@;
        if run.len <= 4 {
            let mut all_min = true;
            let mut any_max = false;
            let mut j: u32 = 0;
            while j < run.len
                invariant
                    run.len <= 4,
                    run.start < 1440,
                    m.at_least_min@.len() == 720,
                    m.at_most_max@.len() == 720,
                    j <= run.len,
                    all_min == forall|t: int| 0 <= t < j ==> #[trigger] m.at_least_min@[(run.start + t) % 720],
                    any_max == exists|t: int| 0 <= t < j && #[trigger] m.at_most_max@[(run.start + t) % 720],
                decreases run.len - j,
            {
                let cell = ((run.start + j) % 720) as usize;
                if !m.at_least_min[cell] {
                    all_min = false;
                }
                if m.at_most_max[cell] {
                    any_max = true;
                }
                proof {
                    if !all_min && forall|t: int| 0 <= t < j + 1 ==> #[trigger] m.at_least_min@[(run.start + t) % 720] {
                        assert(m.at_least_min@[(run.start + j) % 720]);
                    }
                    if any_max && !(exists|t: int| 0 <= t < j && #[trigger] m.at_most_max@[(run.start + t) % 720]) {
                        assert(m.at_most_max@[(run.start + j) % 720]);
                    }
                }
                j = j + 1;
            }
            if all_min && any_max {
                set_circular_run(samples, run.start, run.len, false);
                assert(samples@ =~= set_run_spec(prev, run.start as int, run.len as int, false));
                trim_badge_decorative_bridge_neighbor(samples, &original, &edge, run.start, -1);
                trim_badge_decorative_bridge_neighbor(samples, &original, &edge, (run.start + run.len) % 720, 1);
            }
        }
        k = k + 1;
    }
}

proof fn lemma_close_fold_extensive(s: Seq<bool>, runs: Seq<CircularRun>, max_gap: int, k: int, i: int)
    requires
        0 <= k <= runs.len(),
        0 <= i < s.len(),
        s[i],
    ensures
        close_gaps_fold(s, runs, max_gap, k).len() == s.len(),
        close_gaps_fold(s, runs, max_gap, k)[i],
    decreases k,
{
    if k > 0 {
        lemma_close_fold_extensive(s, runs, max_gap, k - 1, i);
    }
}

proof fn lemma_remove_fold_anti_extensive(s: Seq<bool>, runs: Seq<CircularRun>, min_run: int, k: int, i: int)
    requires
        0 <= k <= runs.len(),
        0 <= i < s.len(),
        !s[i],
    ensures
        remove_runs_fold(s, runs, min_run, k).len() == s.len(),
        !remove_runs_fold(s, runs, min_run, k)[i],
    decreases k,
{
    if k > 0 {
        lemma_remove_fold_anti_extensive(s, runs, min_run, k - 1, i);
    }
}

/// Closing gaps only adds black cells: every black cell stays black.
pub proof fn law_close_gaps_keeps_black(s: Seq<bool>, max_gap: int, i: int)
    requires
        0 <= i < s.len(),
        s[i],
    ensures
        close_gaps_spec(s, max_gap)[i],
{
    lemma_close_fold_extensive(s, circular_runs_spec(s, false), max_gap, circular_runs_spec(s, false).len() as int, i);
}

/// Removing short runs only removes black cells: every white cell stays white.
pub proof fn law_remove_short_runs_keeps_white(s: Seq<bool>, min_run: int, i: int)
    requires
        0 <= i < s.len(),
        !s[i],
    ensures
        !remove_short_runs_spec(s, min_run)[i],
{
    lemma_remove_fold_anti_extensive(s, circular_runs_spec(s, true), min_run, circular_runs_spec(s, true).len() as int, i);
}

/// The decorative ring after the badge-edge pruning of its short runs.
pub open spec fn decorative_short_runs_spec(s: Seq<bool>, marks: Option<DecorativeEdgeMarks>, code_points_per_ring: u32) -> Seq<bool> {
    match marks {
        None => s,
        Some(m) => if code_points_per_ring == 72 {
            Seq::new(720, |i: int| if m.band_72@[i] { false } else { s[i] })
        } else if code_points_per_ring == 120 {
            let runs = circular_runs_spec(s, true);
            decorative_prune_fold(s, s, runs, m.at_least_min@, m.at_most_max@, runs.len() as int)
        } else {
            s
        },
    }
}

/// The ring after clearing the edge band once more (72-cell codes with a
/// badge).
pub open spec fn edge_band_after_closing_spec(s: Seq<bool>, band: Option<Seq<bool>>, code_points_per_ring: u32) -> Seq<bool> {
    match band {
        Some(b) => if code_points_per_ring == 72 { Seq::new(s.len(), |i: int| if b[i] { false } else { s[i] }) } else { s },
        None => s,
    }
}

/// Clears the edge-band cells of a 72-cell code's decorative ring after gap
/// closing; `band` is absent when no badge was found.
pub fn prune_black_border_badge_decorative_edge_band_after_closing(samples: &mut Vec<bool>, band: Option<&Vec<bool>>, code_points_per_ring: u32)
    requires
        band matches Some(b) ==> b@.len() == old(samples)@.len(),
    ensures
        final(samples)@ == edge_band_after_closing_spec(old(samples)@, match band { Some(b) => Some(b@), None => None }, code_points_per_ring),
{
    let b = match band {
        Some(b) => b,
        None => return,
    };
    if code_points_per_ring != 72 {
        return;
    }
    let ghost s = samples@;
    let mut i: usize = 0;
    while i < samples.len()
        invariant
            b@.len() == s.len(),
            samples@.len() == s.len(),
            i <= s.len(),
            forall|k: int| 0 <= k < s.len() ==> #[trigger] samples@[k] == if k < i && b@[k] { false } else { s[k] },
        decreases s.len() - i,
    {
        if b[i] {
            samples.set(i, false);
        }
        i = i + 1;
    }
    assert(samples@ =~= Seq::new(s.len(), |k: int| if b@[k] { false } else { s[k] }));
}

/// The ring after restoring the marked lower badge-edge cells (outer ring
/// of 120-cell codes).
pub open spec fn lower_edge_restore_spec(s: Seq<bool>, restorable: Option<Seq<bool>>, code_points_per_ring: u32, ring_idx: int) -> Seq<bool> {
    match restorable {
        Some(r) => if code_points_per_ring == 120 && ring_idx == 0 {
            Seq::new(s.len(), |i: int| s[i] || r[i])
        } else {
            s
        },
        None => s,
    }
}

/// Turns black the white cells of the outer fine ring of a 120-cell code
/// that lie on the lower badge edge and were sampled dark enough
/// (`restorable`, absent when no badge was found).
pub fn restore_black_border_120_outer_fine_ring_badge_edge(samples: &mut Vec<bool>, restorable: Option<&Vec<bool>>, code_points_per_ring: u32, ring_idx: usize)
    requires
        restorable matches Some(r) ==> r@.len() == old(samples)@.len(),
    ensures
        final(samples)@ == lower_edge_restore_spec(old(samples)@, match restorable { Some(r) => Some(r@), None => None }, code_points_per_ring, ring_idx as int),
{
    let r = match restorable {
        Some(r) => r,
        None => return,
    };
    if code_points_per_ring != 120 || ring_idx != 0 {
        return;
    }
    let ghost s = samples@;
    let mut i: usize = 0;
    while i < samples.len()
        invariant
            r@.len() == s.len(),
            samples@.len() == s.len(),
            i <= s.len(),
            forall|k: int| 0 <= k < s.len() ==> #[trigger] samples@[k] == if k < i { s[k] || r@[k] } else { s[k] },
        decreases s.len() - i,
    {
        if !samples[i] && r[i] {
            samples.set(i, true);
        }
        i = i + 1;
    }
    assert(samples@ =~= Seq::new(s.len(), |k: int| s[k] || r@[k]));
}

/// Per-cell marks of a framed code's decorative fine ring, taken from the
/// geometry and the source image; each is absent when no badge was found.
#[derive(Debug, Clone)]
pub struct FineRingMarks {
    /// Badge-edge marks for pruning short runs and the edge band.
    pub edge: Option<DecorativeEdgeMarks>,
    /// Lower badge-edge cells sampled dark enough to restore.
    pub lower_edge_restorable: Option<Vec<bool>>,
    /// Cells where a gap beside the badge may be bridged.
    pub bridge_points: Option<Vec<bool>>,
    /// Cells to which a weak run end may extend.
    pub extendable: Option<Vec<bool>>,
    /// Cells the ring template fills.
    pub template_points: Option<Vec<bool>>,
}

/// An optional mark vector as a sequence.
pub open spec fn opt_marks(v: Option<Vec<bool>>) -> Option<Seq<bool>> {
    match v {
        Some(x) => Some(x@),
        None => None,
    }
}

/// All marks cover the 720 cells.
pub open spec fn fine_ring_marks_wf(m: FineRingMarks) -> bool {
    &&& (m.edge matches Some(e) ==> e.at_least_min@.len() == 720 && e.at_most_max@.len() == 720 && e.band_72@.len() == 720)
    &&& (m.lower_edge_restorable matches Some(t) ==> t@.len() == 720)
    &&& (m.bridge_points matches Some(t) ==> t@.len() == 720)
    &&& (m.extendable matches Some(t) ==> t@.len() == 720)
    &&& (m.template_points matches Some(t) ==> t@.len() == 720)
}

/// The ring after the whole clean-up of sampled cells: badge-edge pruning,
/// closing gaps of up to 6 cells, removing black runs shorter than 2 cells,
/// the edge band again, badge bridges, the lower badge edge, weak run ends
/// and the template.
pub open spec fn fine_ring_cleanup_spec(s: Seq<bool>, m: FineRingMarks, code_points_per_ring: u32, ring_idx: int) -> Seq<bool> {
    let s1 = decorative_short_runs_spec(s, m.edge, code_points_per_ring);
    let s2 = close_gaps_spec(s1, 6);
    let s3 = remove_short_runs_spec(s2, 2);
    let s4 = edge_band_after_closing_spec(s3, match m.edge { Some(e) => Some(e.band_72@), None => None }, code_points_per_ring);
    let s5 = if code_points_per_ring == 72 && ring_idx == 1 && m.bridge_points is Some {
        fill_gaps_spec(s4, 10, m.bridge_points->0@)
    } else {
        s4
    };
    let s6 = lower_edge_restore_spec(s5, opt_marks(m.lower_edge_restorable), code_points_per_ring, ring_idx);
    let s7 = if code_points_per_ring == 72 && ring_idx == 1 && m.extendable is Some {
        let runs = circular_runs_spec(s6, true);
        extend_fold(s6, runs, m.extendable->0@, runs.len() as int)
    } else {
        s6
    };
    match m.template_points {
        Some(t) => fill_gaps_spec(s7, if code_points_per_ring == 72 { 10int } else { 6int }, t@),
        None => s7,
    }
}

proof fn lemma_close_gaps_len(s: Seq<bool>, max_gap: int)
    ensures
        close_gaps_spec(s, max_gap).len() == s.len(),
{
    let runs = circular_runs_spec(s, false);
    lemma_close_fold_len(s, runs, max_gap, runs.len() as int);
}

proof fn lemma_close_fold_len(s: Seq<bool>, runs: Seq<CircularRun>, max_gap: int, k: int)
    ensures
        close_gaps_fold(s, runs, max_gap, k).len() == s.len(),
    decreases k,
{
    if k > 0 {
        lemma_close_fold_len(s, runs, max_gap, k - 1);
    }
}

proof fn lemma_remove_short_runs_len(s: Seq<bool>, min_run: int)
    ensures
        remove_short_runs_spec(s, min_run).len() == s.len(),
{
    let runs = circular_runs_spec(s, true);
    lemma_remove_fold_len(s, runs, min_run, runs.len() as int);
}

proof fn lemma_remove_fold_len(s: Seq<bool>, runs: Seq<CircularRun>, min_run: int, k: int)
    ensures
        remove_runs_fold(s, runs, min_run, k).len() == s.len(),
    decreases k,
{
    if k > 0 {
        lemma_remove_fold_len(s, runs, min_run, k - 1);
    }
}

proof fn lemma_fill_gaps_len(s: Seq<bool>, max_len: int, eligible: Seq<bool>)
    ensures
        fill_gaps_spec(s, max_len, eligible).len() == s.len(),
{
    let runs = circular_runs_spec(s, false);
    lemma_fill_fold_len(s, runs, max_len, eligible, runs.len() as int);
}

proof fn lemma_fill_fold_len(s: Seq<bool>, runs: Seq<CircularRun>, max_len: int, eligible: Seq<bool>, k: int)
    ensures
        fill_gaps_fold(s, runs, max_len, eligible, k).len() == s.len(),
    decreases k,
{
    if k > 0 {
        lemma_fill_fold_len(s, runs, max_len, eligible, k - 1);
    }
}

proof fn lemma_extend_fold_len(s: Seq<bool>, runs: Seq<CircularRun>, extendable: Seq<bool>, k: int)
    requires
        s.len() == 720,
    ensures
        extend_fold(s, runs, extendable, k).len() == s.len(),
    decreases k,
{
    if k > 0 {
        lemma_extend_fold_len(s, runs, extendable, k - 1);
    }
}

/// Cleans up the sampled cells of a framed code's decorative fine ring.
pub fn clean_black_border_fine_ring(samples: &mut Vec<bool>, marks: &FineRingMarks, code_points_per_ring: u32, ring_idx: usize)
    requires
        old(samples)@.len() == decorative_points(),
        fine_ring_marks_wf(*marks),
    ensures
        final(samples)@ == fine_ring_cleanup_spec(old(samples)@, *marks, code_points_per_ring, ring_idx as int),
        final(samples)@.len() == decorative_points(),
{
    let ghost s0 = samples@;
    prune_black_border_badge_decorative_short_runs(samples, marks.edge.as_ref(), code_points_per_ring);
    let ghost s1 = samples@;
    assert(s1 == decorative_short_runs_spec(s0, marks.edge, code_points_per_ring));
    assert(s1.len() == 720);
    close_circular_white_gaps(samples, 6);
    proof { lemma_close_gaps_len(s1, 6); }
    remove_short_circular_black_runs(samples, 2);
    proof { lemma_remove_short_runs_len(close_gaps_spec(s1, 6), 2); }
    let band = match &marks.edge {
        Some(e) => Some(&e.band_72),
        None => None,
    };
    prune_black_border_badge_decorative_edge_band_after_closing(samples, band, code_points_per_ring);
    assert(samples@.len() == 720);
    let ghost s4 = samples@;
    restore_black_border_72_inner_fine_ring_badge_bridges(samples, marks.bridge_points.as_ref(), code_points_per_ring, ring_idx);
    proof {
        if marks.bridge_points is Some {
            lemma_fill_gaps_len(s4, 10, marks.bridge_points->0@);
        }
    }
    restore_black_border_120_outer_fine_ring_badge_edge(samples, marks.lower_edge_restorable.as_ref(), code_points_per_ring, ring_idx);
    assert(samples@.len() == 720);
    let ghost s6 = samples@;
    extend_black_border_72_inner_fine_ring_weak_endpoints(samples, marks.extendable.as_ref(), code_points_per_ring, ring_idx);
    proof {
        if marks.extendable is Some {
            let runs = circular_runs_spec(s6, true);
            lemma_extend_fold_len(s6, runs, marks.extendable->0@, runs.len() as int);
        }
    }
    assert(samples@.len() == 720);
    let ghost s7 = samples@;
    reconstruct_black_border_fine_ring_template(samples, marks.template_points.as_ref(), code_points_per_ring);
    proof {
        if marks.template_points is Some {
            lemma_fill_gaps_len(s7, if code_points_per_ring == 72 { 10int } else { 6int }, marks.template_points->0@);
        }
    }
}

/// Cell `i` lies in one of the first `k` runs that are shorter than
/// `min_run`.
pub open spec fn in_short_run(n: int, runs: Seq<CircularRun>, min_run: int, k: int, i: int) -> bool {
    exists|j: int| 0 <= j < k && (#[trigger] runs[j]).len < min_run
        && in_circular_run(n, runs[j].start as int, runs[j].len as int, i)
}

proof fn lemma_remove_fold_cells(s: Seq<bool>, runs: Seq<CircularRun>, min_run: int, k: int)
    requires
        0 <= k <= runs.len(),
    ensures
        remove_runs_fold(s, runs, min_run, k).len() == s.len(),
        forall|i: int| 0 <= i < s.len() ==> #[trigger] remove_runs_fold(s, runs, min_run, k)[i]
            == (s[i] && !in_short_run(s.len() as int, runs, min_run, k, i)),
    decreases k,
{
    if k > 0 {
        lemma_remove_fold_cells(s, runs, min_run, k - 1);
        let n = s.len() as int;
        assert forall|i: int| 0 <= i < s.len() implies #[trigger] remove_runs_fold(s, runs, min_run, k)[i]
            == (s[i] && !in_short_run(n, runs, min_run, k, i)) by {
            let r = runs[k - 1];
            if r.len < min_run && in_circular_run(n, r.start as int, r.len as int, i) {
                assert(in_short_run(n, runs, min_run, k, i));
            } else if in_short_run(n, runs, min_run, k, i) {
                let j = choose|j: int| 0 <= j < k && (#[trigger] runs[j]).len < min_run
                    && in_circular_run(n, runs[j].start as int, runs[j].len as int, i);
                assert(j < k - 1);
                assert(in_short_run(n, runs, min_run, k - 1, i));
            } else {
                assert(!in_short_run(n, runs, min_run, k - 1, i)) by {
                    if in_short_run(n, runs, min_run, k - 1, i) {
                        let j = choose|j: int| 0 <= j < k - 1 && (#[trigger] runs[j]).len < min_run
                            && in_circular_run(n, runs[j].start as int, runs[j].len as int, i);
                        assert(0 <= j < k && runs[j].len < min_run);
                    }
                }
            }
        }
    }
}

/// Removing short black runs turns white exactly the cells of the black runs
/// (the maximal runs `circular_runs` lists) shorter than `min_run`; every
/// other cell keeps its colour.
pub proof fn law_remove_short_runs_clears_exactly_the_short_runs(s: Seq<bool>, min_run: int, i: int)
    requires
        0 <= i < s.len(),
    ensures
        remove_short_runs_spec(s, min_run).len() == s.len(),
        remove_short_runs_spec(s, min_run)[i] == (s[i] && !exists|j: int| 0 <= j < circular_runs_spec(s, true).len()
            && (#[trigger] circular_runs_spec(s, true)[j]).len < min_run
            && in_circular_run(s.len() as int, circular_runs_spec(s, true)[j].start as int, circular_runs_spec(s, true)[j].len as int, i)),
{
    let runs = circular_runs_spec(s, true);
    lemma_remove_fold_cells(s, runs, min_run, runs.len() as int);
}

/// Shape statistics of an optional code ring of a framed Douyin code.
#[derive(Debug, Clone, Copy, PartialEq, Eq, Structural)]
pub struct BlackBorderOptionalRingScore {
    pub usable_points: u32,
    pub black_points: u32,
    pub black_runs: u32,
    pub max_run_len: u32,
}

/// `ceil(points * 0.22)`, the longest black run a real code ring has.
pub open spec fn max_run_limit(points: int) -> int {
    (22 * points + 99) / 100
}

/// An optional ring holds code: it has usable cells and black runs, a black
/// density between 0.12 and 0.70, at least 5 runs (7 on 120-cell rings),
/// runs of at most 8 cells on average and none longer than
/// `max(ceil(0.22 * points), 8)`.
pub open spec fn optional_ring_present_spec(score: BlackBorderOptionalRingScore, points_per_ring: u32) -> bool {
    let min_runs: int = if points_per_ring <= 72 { 5 } else { 7 };
    let limit = if max_run_limit(points_per_ring as int) >= 8 { max_run_limit(points_per_ring as int) } else { 8 };
    &&& score.usable_points != 0
    &&& score.black_runs != 0
    &&& 12 * score.usable_points <= 100 * score.black_points
    &&& 100 * score.black_points <= 70 * score.usable_points
    &&& score.black_runs >= min_runs
    &&& score.black_points <= 8 * score.black_runs
    &&& score.max_run_len <= limit
}

/// Decides whether an optional outer ring of a framed code carries code
/// cells rather than a logo, from its run statistics. Ratios are compared
/// exactly.
pub fn black_border_optional_ring_is_present(score: BlackBorderOptionalRingScore, points_per_ring: u32) -> (b: bool)
    ensures
        b == optional_ring_present_spec(score, points_per_ring),
{
    if score.usable_points == 0 || score.black_runs == 0 {
        return false;
    }
    let usable = score.usable_points as u64;
    let black = score.black_points as u64;
    if 12 * usable > 100 * black || 100 * black > 70 * usable {
        return false;
    }
    let min_runs: u32 = if points_per_ring <= 72 { 5 } else { 7 };
    let limit = (22 * (points_per_ring as u64) + 99) / 100;
    let max_run_len: u64 = if limit >= 8 { limit } else { 8 };
    score.black_runs >= min_runs
        && black <= 8 * (score.black_runs as u64)
        && (score.max_run_len as u64) <= max_run_len
}

/// Number of leading scores, among the first `k`, that all say the ring is
/// present.
pub open spec fn present_prefix(scores: Seq<BlackBorderOptionalRingScore>, points_per_ring: u32, k: int) -> int
    decreases k,
{
    if k <= 0 {
        0
    } else {
        let q = present_prefix(scores, points_per_ring, k - 1);
        if q == k - 1 && optional_ring_present_spec(scores[k - 1], points_per_ring) { k } else { q }
    }
}

proof fn lemma_present_prefix_bound(scores: Seq<BlackBorderOptionalRingScore>, points_per_ring: u32, k: int)
    requires
        k >= 0,
    ensures
        0 <= present_prefix(scores, points_per_ring, k) <= k,
    decreases k,
{
    if k > 0 {
        lemma_present_prefix_bound(scores, points_per_ring, k - 1);
    }
}

/// Number of code rings of a framed code: the three base rings plus the
/// optional outer rings, in order, as long as each one's scores say it
/// carries code (`optional_scores` holds the scores of the rings after the
/// base three).
pub fn detect_black_border_code_ring_count(optional_scores: &Vec<BlackBorderOptionalRingScore>, points_per_ring: u32) -> (n: u8)
    requires
        optional_scores@.len() <= 252,
    ensures
        n == 3 + present_prefix(optional_scores@, points_per_ring, optional_scores@.len() as int),
{
    let mut ring_count: u8 = 3;
    let mut i: usize = 0;
    while i < optional_scores.len()
        invariant
            optional_scores@.len() <= 252,
            i <= optional_scores@.len(),
            present_prefix(optional_scores@, points_per_ring, i as int) == i,
            ring_count == 3 + i,
        decreases optional_scores@.len() - i,
    {
        if !black_border_optional_ring_is_present(optional_scores[i], points_per_ring) {
            proof {
                lemma_present_prefix_stops(optional_scores@, points_per_ring, i as int, optional_scores@.len() as int);
            }
            return ring_count;
        }
        ring_count = ring_count + 1;
        i = i + 1;
    }
    ring_count
}

/// Once a ring is absent, the count stops growing.
proof fn lemma_present_prefix_stops(scores: Seq<BlackBorderOptionalRingScore>, points_per_ring: u32, i: int, k: int)
    requires
        0 <= i < k <= scores.len(),
        present_prefix(scores, points_per_ring, i) == i,
        !optional_ring_present_spec(scores[i], points_per_ring),
    ensures
        present_prefix(scores, points_per_ring, k) == i,
    decreases k - i,
{
    if k > i + 1 {
        lemma_present_prefix_stops(scores, points_per_ring, i, k - 1);
    }
}

/// The run statistics of one optional ring from its sampled cells (`true`
/// for black) and its number of usable cells.
pub open spec fn ring_score_spec(samples: Seq<bool>, usable_points: u32) -> BlackBorderOptionalRingScore {
    let runs = circular_runs_spec(samples, true);
    BlackBorderOptionalRingScore {
        usable_points,
        black_points: count_true(samples) as u32,
        black_runs: runs.len() as u32,
        max_run_len: max_len(runs) as u32,
    }
}

/// Number of black cells.
pub open spec fn count_true(s: Seq<bool>) -> int
    decreases s.len(),
{
    if s.len() == 0 { 0 } else { count_true(s.drop_last()) + if s.last() { 1int } else { 0int } }
}

/// The longest run length (0 without runs).
pub open spec fn max_len(runs: Seq<CircularRun>) -> int
    decreases runs.len(),
{
    if runs.len() == 0 {
        0
    } else {
        let m = max_len(runs.drop_last());
        if runs.last().len as int > m { runs.last().len as int } else { m }
    }
}

proof fn lemma_count_true_bound(s: Seq<bool>)
    ensures
        0 <= count_true(s) <= s.len(),
    decreases s.len(),
{
    if s.len() > 0 {
        lemma_count_true_bound(s.drop_last());
    }
}

proof fn lemma_runs_len_bound(s: Seq<bool>, value: bool)
    requires
        ring_fits(s.len() as int),
    ensures
        circular_runs_spec(s, value).len() <= s.len(),
{
    let n = s.len() as int;
    if n > 0 {
        lemma_first_other_bounds(s, value, 0);
        if first_other_from(s, value, 0) < n {
            let base = first_other_from(s, value, 0) + 1;
            lemma_run_scan_count(s, value, base, n);
            lemma_run_scan_open(s, value, base, n);
        }
    }
}

proof fn lemma_run_scan_count(s: Seq<bool>, value: bool, base: int, k: int)
    requires
        0 <= k,
    ensures
        run_scan(s, value, base, k).0.len() + (if run_scan(s, value, base, k).1 is Some { 1int } else { 0int }) <= k,
    decreases k,
{
    if k > 0 {
        lemma_run_scan_count(s, value, base, k - 1);
    }
}

/// Collects the run statistics of a sampled optional ring.
pub fn ring_score_from_samples(samples: &Vec<bool>, usable_points: u32) -> (score: BlackBorderOptionalRingScore)
    requires
        ring_fits(samples@.len() as int),
    ensures
        score == ring_score_spec(samples@, usable_points),
{
    let ghost s = samples@;
    let mut black: u32 = 0;
    let mut i: usize = 0;
    while i < samples.len()
        invariant
            s == samples@,
            ring_fits(s.len() as int),
            i <= s.len(),
            black == count_true(s.subrange(0, i as int)),
            black <= i,
        decreases s.len() - i,
    {
        proof {
            let next = s.subrange(0, i as int + 1);
            assert(next.drop_last() =~= s.subrange(0, i as int));
        }
        if samples[i] {
            black = black + 1;
        }
        i = i + 1;
    }
    assert(s.subrange(0, s.len() as int) =~= s);
    let runs = circular_runs(samples, true);
    proof {
        lemma_runs_len_bound(s, true);
        lemma_circular_runs_bounds(s, true);
    }
    let mut longest: u32 = 0;
    let mut k: usize = 0;
    while k < runs.len()
        invariant
            runs@ == circular_runs_spec(s, true),
            forall|j: int| 0 <= j < runs@.len() ==> (#[trigger] runs@[j]).len <= s.len(),
            k <= runs@.len(),
            longest == max_len(runs@.subrange(0, k as int)),
        decreases runs@.len() - k,
    {
        proof {
            let next = runs@.subrange(0, k as int + 1);
            assert(next.drop_last() =~= runs@.subrange(0, k as int));
        }
        if runs[k].len > longest {
            longest = runs[k].len;
        }
        k = k + 1;
    }
    assert(runs@.subrange(0, runs@.len() as int) =~= runs@);
    BlackBorderOptionalRingScore {
        usable_points,
        black_points: black,
        black_runs: runs.len() as u32,
        max_run_len: longest,
    }
}

/// Cell `p` of the ring, positions taken modulo its size.
pub open spec fn ring_cell(s: Seq<bool>, p: int) -> bool {
    s[p % (s.len() as int)]
}

/// The cells walked during the first `k` scan steps keep what the scan
/// records: closed runs are non-empty stretches of `value` framed by other
/// cells, and the open run holds `value` from its start on.
proof fn lemma_run_scan_runs(s: Seq<bool>, value: bool, base: int, k: int)
    requires
        s.len() > 0,
        0 <= k <= s.len(),
        1 <= base <= s.len(),
        s[(base - 1) % (s.len() as int)] != value,
        base + s.len() <= 0xffff_ffff,
    ensures
        forall|i: int| 0 <= i < run_scan(s, value, base, k).0.len() ==> {
            let r = #[trigger] run_scan(s, value, base, k).0[i];
            &&& r.len >= 1
            &&& base <= r.start
            &&& r.start + r.len < base + k
            &&& forall|j: int| 0 <= j < r.len ==> #[trigger] ring_cell(s, r.start + j) == value
            &&& ring_cell(s, r.start - 1) != value
            &&& ring_cell(s, r.start + r.len) != value
        },
        run_scan(s, value, base, k).1 matches Some(st) ==> {
            &&& 0 <= st < k
            &&& forall|j: int| st <= j < k ==> #[trigger] ring_cell(s, base + j) == value
            &&& ring_cell(s, base + st - 1) != value
        },
    decreases k,
{
    if k > 0 {
        lemma_run_scan_runs(s, value, base, k - 1);
        lemma_run_scan_open(s, value, base, k - 1);
        let n = s.len() as int;
        let (runs, open) = run_scan(s, value, base, k - 1);
        let point = (base + k - 1) % n;
        if s[point] == value {
            if open is None {
                if k - 1 > 0 {
                    // the previous cell ended a run or was another cell
                    lemma_prev_cell_other(s, value, base, k - 1);
                }
            }
        } else {
            match open {
                Some(st) => {
                    let r = CircularRun { start: (base + st) as u32, len: (k - 1 - st) as u32 };
                    assert forall|j: int| 0 <= j < r.len implies #[trigger] ring_cell(s, r.start + j) == value by {
                        assert(r.start + j == base + (st + j));
                    }
                    assert(r.start + r.len == base + k - 1);
                    assert(r.start - 1 == base + st - 1);
                },
                None => {},
            }
        }
    }
}

proof fn lemma_run_scan_cover(s: Seq<bool>, value: bool, base: int, k: int, j: int)
    requires
        s.len() > 0,
        0 <= j < k <= s.len(),
        1 <= base <= s.len(),
        base + s.len() <= 0xffff_ffff,
        ring_cell(s, base + j) == value,
    ensures
        (exists|i: int| 0 <= i < run_scan(s, value, base, k).0.len()
            && (#[trigger] run_scan(s, value, base, k).0[i]).start <= base + j
            && base + j < run_scan(s, value, base, k).0[i].start + run_scan(s, value, base, k).0[i].len)
        || (run_scan(s, value, base, k).1 matches Some(st) && st <= j),
    decreases k,
{
    let n = s.len() as int;
    let (runs, open) = run_scan(s, value, base, k - 1);
    lemma_run_scan_open(s, value, base, k - 1);
    let point = (base + k - 1) % n;
    let cur = run_scan(s, value, base, k);
    if j < k - 1 {
        lemma_run_scan_cover(s, value, base, k - 1, j);
        if exists|i: int| 0 <= i < runs.len() && (#[trigger] runs[i]).start <= base + j && base + j < runs[i].start + runs[i].len {
            let i = choose|i: int| 0 <= i < runs.len() && (#[trigger] runs[i]).start <= base + j && base + j < runs[i].start + runs[i].len;
            if s[point] == value {
                assert(cur.0 == runs);
            } else {
                match open {
                    Some(st) => { assert(cur.0[i] == runs[i]); },
                    None => { assert(cur.0 == runs); },
                }
            }
            assert(cur.0[i] == runs[i]);
        } else {
            let st = open->0;
            if s[point] != value {
                let r = CircularRun { start: (base + st) as u32, len: (k - 1 - st) as u32 };
                assert(cur.0 == runs.push(r));
                assert(cur.0[runs.len() as int] == r);
            }
        }
    } else {
        assert(j == k - 1);
        assert(ring_cell(s, base + j) == s[point]);
    }
}

/// Two maximal runs of `value` around a ring that share a cell are equally
/// long.
proof fn lemma_same_maximal_run(t: Seq<bool>, value: bool, a: int, l: int, b: int, m: int, i: int)
    requires
        t.len() > 0,
        1 <= l,
        1 <= m,
        forall|j: int| 0 <= j < l ==> #[trigger] ring_cell(t, a + j) == value,
        ring_cell(t, a - 1) != value,
        ring_cell(t, a + l) != value,
        forall|j: int| 0 <= j < m ==> #[trigger] ring_cell(t, b + j) == value,
        ring_cell(t, b - 1) != value,
        ring_cell(t, b + m) != value,
        0 <= i < t.len(),
        (i - a) % (t.len() as int) < l,
        (i - b) % (t.len() as int) < m,
    ensures
        l == m,
{
    let n = t.len() as int;
    let j = (i - a) % n;
    let k = (i - b) % n;
    vstd::arithmetic::div_mod::lemma_fundamental_div_mod(i - a, n);
    vstd::arithmetic::div_mod::lemma_fundamental_div_mod(i - b, n);
    let qa = (i - a) / n;
    let qb = (i - b) / n;
    // b + x and a + (x + j - k) name the same cell
    assert forall|x: int| #[trigger] ring_cell(t, b + x) == ring_cell(t, a + (x + j - k)) by {
        assert(a + (x + j - k) == n * (qb - qa) + (b + x)) by (nonlinear_arith)
            requires i - a == n * qa + j, i - b == n * qb + k;
        vstd::arithmetic::div_mod::lemma_mod_multiples_vanish(qb - qa, b + x, n);
        assert((n * (qb - qa) + (b + x)) % n == (b + x) % n);
    }
    if j < k {
        assert(ring_cell(t, b + (k - j - 1)) == ring_cell(t, a + (-1)));
        assert(ring_cell(t, b + (k - j - 1)) == value);
    }
    if k < j {
        assert(ring_cell(t, b + (-1)) == ring_cell(t, a + (j - k - 1)));
        assert(ring_cell(t, a + (j - k - 1)) == value);
    }
    assert(j == k);
    if l < m {
        assert(ring_cell(t, b + l) == ring_cell(t, a + l));
        assert(ring_cell(t, b + l) == value);
    }
    if m < l {
        assert(ring_cell(t, b + m) == ring_cell(t, a + m));
        assert(ring_cell(t, a + m) == value);
    }
}

/// When the scan has no open run after `k` steps, the last walked cell
/// differs from `value`.
proof fn lemma_prev_cell_other(s: Seq<bool>, value: bool, base: int, k: int)
    requires
        s.len() > 0,
        1 <= k,
        run_scan(s, value, base, k).1 is None,
    ensures
        ring_cell(s, base + k - 1) != value,
{
}

/// The runs listed for a ring that is not all `value` are non-empty,
/// consist of `value` cells, and are framed by cells of the other colour:
/// they are the maximal runs of `value`.
pub proof fn law_circular_runs_are_maximal(s: Seq<bool>, value: bool, i: int)
    requires
        ring_fits(s.len() as int),
        exists|j: int| 0 <= j < s.len() && s[j] != value,
        0 <= i < circular_runs_spec(s, value).len(),
    ensures
        ({
            let r = circular_runs_spec(s, value)[i];
            let n = s.len() as int;
            &&& r.len >= 1
            &&& forall|j: int| 0 <= j < r.len ==> #[trigger] ring_cell(s, r.start + j) == value
            &&& ring_cell(s, r.start - 1) != value
            &&& ring_cell(s, r.start + r.len) != value
        }),
{
    let n = s.len() as int;
    lemma_first_other_bounds(s, value, 0);
    let w = choose|j: int| 0 <= j < s.len() && s[j] != value;
    assert(first_other_from(s, value, 0) < n) by {
        if first_other_from(s, value, 0) == n {
            assert(s[w] == value);
        }
    }
    let f = first_other_from(s, value, 0);
    let base = f + 1;
    assert((base - 1) % n == f) by {
        vstd::arithmetic::div_mod::lemma_small_mod(f as nat, n as nat);
    }
    lemma_run_scan_runs(s, value, base, n);
    let (runs, open) = run_scan(s, value, base, n);
    if open is Some {
        let st = open->0;
        assert((base + n - 1) % n == f) by {
            vstd::arithmetic::div_mod::lemma_mod_add_multiples_vanish(f, n);
        }
        assert(ring_cell(s, base + (n - 1)) == value);
        assert(false);
    }
}

/// Every `value` cell of a ring that is not all `value` lies in one of the
/// listed runs, each shorter than the ring.
proof fn lemma_circular_runs_cover(s: Seq<bool>, value: bool, p: int)
    requires
        ring_fits(s.len() as int),
        exists|j: int| 0 <= j < s.len() && s[j] != value,
        0 <= p < s.len(),
        s[p] == value,
    ensures
        exists|i: int| 0 <= i < circular_runs_spec(s, value).len()
            && (#[trigger] circular_runs_spec(s, value)[i]).len < s.len()
            && (p - circular_runs_spec(s, value)[i].start) % (s.len() as int) < circular_runs_spec(s, value)[i].len,
{
    let n = s.len() as int;
    lemma_first_other_bounds(s, value, 0);
    let w = choose|j: int| 0 <= j < s.len() && s[j] != value;
    assert(first_other_from(s, value, 0) < n) by {
        if first_other_from(s, value, 0) == n {
            assert(s[w] == value);
        }
    }
    let f = first_other_from(s, value, 0);
    let base = f + 1;
    assert((base - 1) % n == f) by {
        vstd::arithmetic::div_mod::lemma_small_mod(f as nat, n as nat);
    }
    lemma_run_scan_runs(s, value, base, n);
    let (runs, open) = run_scan(s, value, base, n);
    if open is Some {
        let st = open->0;
        assert((base + n - 1) % n == f) by {
            vstd::arithmetic::div_mod::lemma_mod_add_multiples_vanish(f, n);
        }
        assert(ring_cell(s, base + (n - 1)) == value);
        assert(false);
    }
    assert(circular_runs_spec(s, value) == runs);
    let j = (p - base) % n;
    vstd::arithmetic::div_mod::lemma_fundamental_div_mod(p - base, n);
    let q = (p - base) / n;
    assert(base + j == n * (-q) + p) by (nonlinear_arith)
        requires p - base == n * q + j;
    vstd::arithmetic::div_mod::lemma_mod_multiples_vanish(-q, p, n);
    vstd::arithmetic::div_mod::lemma_small_mod(p as nat, n as nat);
    assert((base + j) % n == p);
    assert(ring_cell(s, base + j) == value);
    lemma_run_scan_cover(s, value, base, n, j);
    let i = choose|i: int| 0 <= i < runs.len() && (#[trigger] runs[i]).start <= base + j && base + j < runs[i].start + runs[i].len;
    let r = runs[i];
    let d = base + j - r.start;
    assert(r.len < n);
    assert(p - r.start == n * q + d) by (nonlinear_arith)
        requires base + j == n * (-q) + p, d == base + j - r.start;
    vstd::arithmetic::div_mod::lemma_mod_multiples_vanish(q, d, n);
    vstd::arithmetic::div_mod::lemma_small_mod(d as nat, n as nat);
}

proof fn lemma_all_value_single_run(s: Seq<bool>, value: bool)
    requires
        s.len() > 0,
        forall|j: int| 0 <= j < s.len() ==> s[j] == value,
    ensures
        circular_runs_spec(s, value) == seq![CircularRun { start: 0, len: s.len() as u32 }],
{
    lemma_first_other_bounds(s, value, 0);
}

proof fn lemma_offset_of_cell(b: int, x: int, n: int)
    requires
        n > 0,
        0 <= x < n,
    ensures
        (((b + x) % n) - b) % n == x,
        0 <= (b + x) % n < n,
{
    vstd::arithmetic::div_mod::lemma_fundamental_div_mod(b + x, n);
    let q = (b + x) / n;
    let c = (b + x) % n;
    assert(c - b == n * (-q) + x) by (nonlinear_arith)
        requires b + x == n * q + c;
    vstd::arithmetic::div_mod::lemma_mod_multiples_vanish(-q, x, n);
    vstd::arithmetic::div_mod::lemma_small_mod(x as nat, n as nat);
}

/// A listed run that is not the whole ring is shorter than the ring, and a
/// cell lies in it exactly when its offset from the start is below the
/// length.
proof fn lemma_listed_run_shorter(t: Seq<bool>, value: bool, k: int)
    requires
        ring_fits(t.len() as int),
        exists|j: int| 0 <= j < t.len() && t[j] != value,
        0 <= k < circular_runs_spec(t, value).len(),
    ensures
        ({
            let r = circular_runs_spec(t, value)[k];
            &&& 1 <= r.len < t.len()
            &&& forall|j: int| 0 <= j < r.len ==> #[trigger] ring_cell(t, r.start + j) == value
            &&& ring_cell(t, r.start - 1) != value
            &&& ring_cell(t, r.start + r.len) != value
        }),
{
    law_circular_runs_are_maximal(t, value, k);
    let r = circular_runs_spec(t, value)[k];
    let n = t.len() as int;
    if r.len >= n {
        vstd::arithmetic::div_mod::lemma_mod_add_multiples_vanish(r.start - 1, n);
        assert(r.start + (n - 1) == (r.start - 1) + n);
        assert(ring_cell(t, r.start + (n - 1)) == value);
    }
}

/// A cell that survives the removal of short black runs lies in no short
/// black run of the result.
proof fn lemma_survivor_not_in_short_run(s: Seq<bool>, min_run: int, i: int, k: int)
    requires
        ring_fits(s.len() as int),
        0 <= i < s.len(),
        remove_short_runs_spec(s, min_run)[i],
        0 <= k < circular_runs_spec(remove_short_runs_spec(s, min_run), true).len(),
    ensures
        !((#[trigger] circular_runs_spec(remove_short_runs_spec(s, min_run), true)[k]).len < min_run
        && in_circular_run(s.len() as int, circular_runs_spec(remove_short_runs_spec(s, min_run), true)[k].start as int,
            circular_runs_spec(remove_short_runs_spec(s, min_run), true)[k].len as int, i)),
{
    let n = s.len() as int;
    let rk = circular_runs_spec(remove_short_runs_spec(s, min_run), true)[k];
    if rk.len < min_run && in_circular_run(n, rk.start as int, rk.len as int, i) {
        lemma_short_run_contradiction(s, min_run, i, k);
    }
}

/// The hypotheses cannot hold together on a non-empty ring: a surviving
/// cell sits in a long black run of the original ring, and that run is also
/// a whole black run after the removal.
proof fn lemma_short_run_contradiction(s: Seq<bool>, min_run: int, i: int, k: int)
    requires
        ring_fits(s.len() as int),
        0 <= i < s.len(),
        remove_short_runs_spec(s, min_run)[i],
        0 <= k < circular_runs_spec(remove_short_runs_spec(s, min_run), true).len(),
        circular_runs_spec(remove_short_runs_spec(s, min_run), true)[k].len < min_run,
        in_circular_run(s.len() as int, circular_runs_spec(remove_short_runs_spec(s, min_run), true)[k].start as int,
            circular_runs_spec(remove_short_runs_spec(s, min_run), true)[k].len as int, i),
    ensures
        s.len() == 0,
{
    let n = s.len() as int;
    let runs = circular_runs_spec(s, true);
    let r = remove_short_runs_spec(s, min_run);
    lemma_remove_fold_cells(s, runs, min_run, runs.len() as int);
    assert(r.len() == n);
    let rs = circular_runs_spec(r, true);
    let rr = rs[k];
    if forall|x: int| 0 <= x < n ==> r[x] {
        assert forall|x: int| 0 <= x < n implies s[x] by { assert(r[x]); }
        lemma_all_value_single_run(s, true);
        lemma_all_value_single_run(r, true);
        assert(runs[0].len == n);
        if n < min_run {
            assert(in_short_run(n, runs, min_run, runs.len() as int, i)) by {
                assert(runs[0].len < min_run && in_circular_run(n, runs[0].start as int, runs[0].len as int, i));
            }
        }
        assert(rr == rs[0]);
    } else {
        let w = choose|x: int| 0 <= x < n && !r[x];
        assert(exists|x: int| 0 <= x < r.len() && r[x] != true);
        lemma_listed_run_shorter(r, true, k);
        if forall|x: int| 0 <= x < n ==> s[x] {
            lemma_all_value_single_run(s, true);
            if n < min_run {
                assert(in_short_run(n, runs, min_run, runs.len() as int, i)) by {
                    assert(runs[0].len < min_run && in_circular_run(n, runs[0].start as int, runs[0].len as int, i));
                }
            } else {
                assert(!in_short_run(n, runs, min_run, runs.len() as int, w)) by {
                    if in_short_run(n, runs, min_run, runs.len() as int, w) {
                        let jj = choose|jj: int| 0 <= jj < runs.len() && (#[trigger] runs[jj]).len < min_run
                            && in_circular_run(n, runs[jj].start as int, runs[jj].len as int, w);
                        assert(jj == 0);
                    }
                }
            }
        } else {
            assert(exists|x: int| 0 <= x < s.len() && s[x] != true);
            assert(s[i]);
            lemma_circular_runs_cover(s, true, i);
            let kb = choose|kb: int| 0 <= kb < runs.len() && (#[trigger] runs[kb]).len < n
                && (i - runs[kb].start) % n < runs[kb].len;
            let big = runs[kb];
            lemma_listed_run_shorter(s, true, kb);
            if big.len < min_run {
                assert(in_short_run(n, runs, min_run, runs.len() as int, i)) by {
                    assert(in_circular_run(n, big.start as int, big.len as int, i));
                }
            } else {
                // every cell of `big` survives
                assert forall|x: int| 0 <= x < big.len implies #[trigger] ring_cell(r, big.start + x) == true by {
                    let c = (big.start + x) % n;
                    lemma_offset_of_cell(big.start as int, x, n);
                    assert(ring_cell(s, big.start + x) == true);
                    if in_short_run(n, runs, min_run, runs.len() as int, c) {
                        let k2 = choose|k2: int| 0 <= k2 < runs.len() && (#[trigger] runs[k2]).len < min_run
                            && in_circular_run(n, runs[k2].start as int, runs[k2].len as int, c);
                        lemma_listed_run_shorter(s, true, k2);
                        lemma_same_maximal_run(s, true, big.start as int, big.len as int, runs[k2].start as int, runs[k2].len as int, c);
                    }
                }
                assert(ring_cell(r, big.start - 1) != true) by {
                    let c = (big.start - 1) % n;
                    vstd::arithmetic::div_mod::lemma_mod_bound(big.start - 1, n);
                }
                assert(ring_cell(r, big.start + big.len) != true) by {
                    vstd::arithmetic::div_mod::lemma_mod_bound(big.start + big.len, n);
                }
                lemma_same_maximal_run(r, true, rr.start as int, rr.len as int, big.start as int, big.len as int, i);
            }
        }
    }
}

/// Removing short black runs a second time changes nothing.
pub proof fn law_remove_short_runs_idempotent(s: Seq<bool>, min_run: int)
    requires
        ring_fits(s.len() as int),
    ensures
        remove_short_runs_spec(remove_short_runs_spec(s, min_run), min_run) == remove_short_runs_spec(s, min_run),
{
    let n = s.len() as int;
    let runs = circular_runs_spec(s, true);
    let r = remove_short_runs_spec(s, min_run);
    lemma_remove_fold_cells(s, runs, min_run, runs.len() as int);
    let rs = circular_runs_spec(r, true);
    lemma_remove_fold_cells(r, rs, min_run, rs.len() as int);
    let r2 = remove_short_runs_spec(r, min_run);
    assert forall|i: int| 0 <= i < n implies r2[i] == r[i] by {
        if r[i] && in_short_run(n, rs, min_run, rs.len() as int, i) {
            let k = choose|k: int| 0 <= k < rs.len() && (#[trigger] rs[k]).len < min_run
                && in_circular_run(n, rs[k].start as int, rs[k].len as int, i);
            lemma_survivor_not_in_short_run(s, min_run, i, k);
        }
    }
    assert(r2 =~= r);
}

/// `(a, l)` is a maximal circular run of `value`: `l` consecutive cells from
/// `a` (wrapping around) hold `value`, and unless the run is the whole ring,
/// the cells just before and just after it do not.
pub open spec fn is_maximal_run(s: Seq<bool>, value: bool, a: int, l: int) -> bool {
    &&& 1 <= l <= s.len()
    &&& forall|j: int| 0 <= j < l ==> #[trigger] ring_cell(s, a + j) == value
    &&& l < s.len() ==> ring_cell(s, a - 1) != value && ring_cell(s, a + l) != value
}

/// Cell `i` lies in some maximal circular black run shorter than `min_run`.
pub open spec fn in_short_black_run(s: Seq<bool>, min_run: int, i: int) -> bool {
    exists|a: int, l: int| #[trigger] is_maximal_run(s, true, a, l) && l < min_run
        && (i - a) % (s.len() as int) < l
}

proof fn lemma_cell_at_offset(a: int, p: int, n: int)
    requires
        n > 0,
        0 <= p < n,
    ensures
        0 <= (p - a) % n < n,
        (a + (p - a) % n) % n == p,
{
    vstd::arithmetic::div_mod::lemma_fundamental_div_mod(p - a, n);
    let q = (p - a) / n;
    let j = (p - a) % n;
    assert(a + j == n * (-q) + p) by (nonlinear_arith)
        requires p - a == n * q + j;
    vstd::arithmetic::div_mod::lemma_mod_multiples_vanish(-q, p, n);
    vstd::arithmetic::div_mod::lemma_small_mod(p as nat, n as nat);
}

/// A cell lies in a listed black run shorter than `min_run` exactly when it
/// lies in a maximal black run shorter than `min_run`.
proof fn lemma_listed_short_iff_maximal_short(s: Seq<bool>, min_run: int, i: int)
    requires
        ring_fits(s.len() as int),
        0 <= i < s.len(),
    ensures
        in_short_run(s.len() as int, circular_runs_spec(s, true), min_run, circular_runs_spec(s, true).len() as int, i)
            <==> in_short_black_run(s, min_run, i),
{
    let n = s.len() as int;
    let runs = circular_runs_spec(s, true);
    let k = runs.len() as int;
    if forall|x: int| 0 <= x < n ==> s[x] {
        lemma_all_value_single_run(s, true);
        if in_short_run(n, runs, min_run, k, i) {
            let jj = choose|jj: int| 0 <= jj < k && (#[trigger] runs[jj]).len < min_run
                && in_circular_run(n, runs[jj].start as int, runs[jj].len as int, i);
            assert(jj == 0);
            assert forall|j: int| 0 <= j < n implies #[trigger] ring_cell(s, 0 + j) == true by {
                vstd::arithmetic::div_mod::lemma_small_mod(j as nat, n as nat);
            }
            vstd::arithmetic::div_mod::lemma_small_mod(i as nat, n as nat);
            assert(is_maximal_run(s, true, 0, n));
        }
        if in_short_black_run(s, min_run, i) {
            let (a, l) = choose|a: int, l: int| #[trigger] is_maximal_run(s, true, a, l) && l < min_run
                && (i - a) % n < l;
            if l < n {
                vstd::arithmetic::div_mod::lemma_mod_bound(a - 1, n);
                assert(s[(a - 1) % n]);
            }
            assert(runs[0].len < min_run && in_circular_run(n, runs[0].start as int, runs[0].len as int, i));
        }
    } else {
        assert(exists|x: int| 0 <= x < s.len() && s[x] != true);
        if in_short_run(n, runs, min_run, k, i) {
            let jj = choose|jj: int| 0 <= jj < k && (#[trigger] runs[jj]).len < min_run
                && in_circular_run(n, runs[jj].start as int, runs[jj].len as int, i);
            lemma_listed_run_shorter(s, true, jj);
            assert(is_maximal_run(s, true, runs[jj].start as int, runs[jj].len as int));
        }
        if in_short_black_run(s, min_run, i) {
            let (a, l) = choose|a: int, l: int| #[trigger] is_maximal_run(s, true, a, l) && l < min_run
                && (i - a) % n < l;
            if l == n {
                let w = choose|x: int| 0 <= x < s.len() && s[x] != true;
                lemma_cell_at_offset(a, w, n);
                assert(ring_cell(s, a + (w - a) % n) == true);
            }
            lemma_cell_at_offset(a, i, n);
            assert(ring_cell(s, a + (i - a) % n) == true);
            assert(s[i]);
            lemma_circular_runs_cover(s, true, i);
            let kb = choose|kb: int| 0 <= kb < runs.len() && (#[trigger] runs[kb]).len < n
                && (i - runs[kb].start) % n < runs[kb].len;
            lemma_listed_run_shorter(s, true, kb);
            lemma_same_maximal_run(s, true, a, l, runs[kb].start as int, runs[kb].len as int, i);
            assert(runs[kb].len < min_run && in_circular_run(n, runs[kb].start as int, runs[kb].len as int, i));
        }
    }
}

/// Removing short black runs keeps the ring's size, turns white exactly the
/// cells of maximal circular black runs (wrapping from the last cell to the
/// first) shorter than `min_run`, never turns a white cell black, and a
/// second pass with the same `min_run` changes nothing.
pub proof fn law_remove_short_black_runs(s: Seq<bool>, min_run: int)
    requires
        ring_fits(s.len() as int),
    ensures
        remove_short_runs_spec(s, min_run).len() == s.len(),
        forall|i: int| 0 <= i < s.len() ==> #[trigger] remove_short_runs_spec(s, min_run)[i]
            == (s[i] && !in_short_black_run(s, min_run, i)),
        remove_short_runs_spec(remove_short_runs_spec(s, min_run), min_run) == remove_short_runs_spec(s, min_run),
{
    let runs = circular_runs_spec(s, true);
    lemma_remove_fold_cells(s, runs, min_run, runs.len() as int);
    assert forall|i: int| 0 <= i < s.len() implies #[trigger] remove_short_runs_spec(s, min_run)[i]
        == (s[i] && !in_short_black_run(s, min_run, i)) by {
        lemma_listed_short_iff_maximal_short(s, min_run, i);
    }
    law_remove_short_runs_idempotent(s, min_run);
}

/// Cell `i` lies in a maximal circular white run of at most `max_gap`
/// cells that is not the whole ring (so black cells bound it on both sides).
pub open spec fn in_short_white_gap(s: Seq<bool>, max_gap: int, i: int) -> bool {
    exists|a: int, l: int| #[trigger] is_maximal_run(s, false, a, l) && l <= max_gap && l < s.len()
        && (i - a) % (s.len() as int) < l
}

/// Cell `i` lies in one of the first `k` listed white runs of at most
/// `max_gap` cells that are not the whole ring.
pub open spec fn in_listed_gap(n: int, runs: Seq<CircularRun>, max_gap: int, k: int, i: int) -> bool {
    exists|jj: int| 0 <= jj < k && (#[trigger] runs[jj]).len <= max_gap && runs[jj].len < n
        && in_circular_run(n, runs[jj].start as int, runs[jj].len as int, i)
}

proof fn lemma_listed_gap_iff_short_gap(s: Seq<bool>, max_gap: int, i: int)
    requires
        ring_fits(s.len() as int),
        0 <= i < s.len(),
    ensures
        in_listed_gap(s.len() as int, circular_runs_spec(s, false), max_gap, circular_runs_spec(s, false).len() as int, i)
            <==> in_short_white_gap(s, max_gap, i),
{
    let n = s.len() as int;
    let runs = circular_runs_spec(s, false);
    let k = runs.len() as int;
    if forall|x: int| 0 <= x < n ==> !s[x] {
        lemma_all_value_single_run(s, false);
        if in_listed_gap(n, runs, max_gap, k, i) {
            let jj = choose|jj: int| 0 <= jj < k && (#[trigger] runs[jj]).len <= max_gap && runs[jj].len < n
                && in_circular_run(n, runs[jj].start as int, runs[jj].len as int, i);
            assert(jj == 0);
        }
        if in_short_white_gap(s, max_gap, i) {
            let (a, l) = choose|a: int, l: int| #[trigger] is_maximal_run(s, false, a, l) && l <= max_gap && l < n
                && (i - a) % n < l;
            vstd::arithmetic::div_mod::lemma_mod_bound(a - 1, n);
            assert(!s[(a - 1) % n]);
        }
    } else {
        assert(exists|x: int| 0 <= x < s.len() && s[x] != false);
        if in_listed_gap(n, runs, max_gap, k, i) {
            let jj = choose|jj: int| 0 <= jj < k && (#[trigger] runs[jj]).len <= max_gap && runs[jj].len < n
                && in_circular_run(n, runs[jj].start as int, runs[jj].len as int, i);
            lemma_listed_run_shorter(s, false, jj);
            assert(is_maximal_run(s, false, runs[jj].start as int, runs[jj].len as int));
        }
        if in_short_white_gap(s, max_gap, i) {
            let (a, l) = choose|a: int, l: int| #[trigger] is_maximal_run(s, false, a, l) && l <= max_gap && l < n
                && (i - a) % n < l;
            lemma_cell_at_offset(a, i, n);
            assert(ring_cell(s, a + (i - a) % n) == false);
            assert(!s[i]);
            lemma_circular_runs_cover(s, false, i);
            let kb = choose|kb: int| 0 <= kb < runs.len() && (#[trigger] runs[kb]).len < n
                && (i - runs[kb].start) % n < runs[kb].len;
            lemma_listed_run_shorter(s, false, kb);
            lemma_same_maximal_run(s, false, a, l, runs[kb].start as int, runs[kb].len as int, i);
            assert(runs[kb].len <= max_gap && runs[kb].len < n && in_circular_run(n, runs[kb].start as int, runs[kb].len as int, i));
        }
    }
}

proof fn lemma_close_fold_cells(s: Seq<bool>, runs: Seq<CircularRun>, max_gap: int, k: int)
    requires
        s.len() > 0,
        0 <= k <= runs.len(),
        forall|jj: int| 0 <= jj < runs.len() && (#[trigger] runs[jj]).len < s.len()
            ==> neighbors_black_spec(s, runs[jj].start as int, runs[jj].len as int),
    ensures
        close_gaps_fold(s, runs, max_gap, k).len() == s.len(),
        forall|i: int| 0 <= i < s.len() ==> #[trigger] close_gaps_fold(s, runs, max_gap, k)[i]
            == (s[i] || in_listed_gap(s.len() as int, runs, max_gap, k, i)),
    decreases k,
{
    if k > 0 {
        lemma_close_fold_cells(s, runs, max_gap, k - 1);
        let n = s.len() as int;
        let prev = close_gaps_fold(s, runs, max_gap, k - 1);
        let r = runs[k - 1];
        if r.len < n {
            let b = (r.start + n - 1) % n;
            let e = (r.start + r.len) % n;
            vstd::arithmetic::div_mod::lemma_mod_bound(r.start + n - 1, n);
            vstd::arithmetic::div_mod::lemma_mod_bound(r.start + r.len, n);
            assert(prev[b] && prev[e]);
            assert(neighbors_black_spec(prev, r.start as int, r.len as int));
        }
        assert forall|i: int| 0 <= i < n implies #[trigger] close_gaps_fold(s, runs, max_gap, k)[i]
            == (s[i] || in_listed_gap(n, runs, max_gap, k, i)) by {
            if r.len <= max_gap && r.len < n && in_circular_run(n, r.start as int, r.len as int, i) {
                assert(in_listed_gap(n, runs, max_gap, k, i));
            } else if in_listed_gap(n, runs, max_gap, k, i) {
                let jj = choose|jj: int| 0 <= jj < k && (#[trigger] runs[jj]).len <= max_gap && runs[jj].len < n
                    && in_circular_run(n, runs[jj].start as int, runs[jj].len as int, i);
                assert(jj < k - 1);
                assert(in_listed_gap(n, runs, max_gap, k - 1, i));
            } else {
                assert(!in_listed_gap(n, runs, max_gap, k - 1, i)) by {
                    if in_listed_gap(n, runs, max_gap, k - 1, i) {
                        let jj = choose|jj: int| 0 <= jj < k - 1 && (#[trigger] runs[jj]).len <= max_gap && runs[jj].len < n
                            && in_circular_run(n, runs[jj].start as int, runs[jj].len as int, i);
                        assert(0 <= jj < k);
                    }
                }
            }
        }
    }
}

/// Closing gaps keeps the ring's size and turns black exactly the cells of
/// maximal circular white runs (wrapping from the last cell to the first)
/// of at most `max_gap` cells that are bounded by black cells; every other
/// cell keeps its colour.
pub proof fn law_close_gaps_fills_exactly_the_short_gaps(s: Seq<bool>, max_gap: int)
    requires
        ring_fits(s.len() as int),
    ensures
        close_gaps_spec(s, max_gap).len() == s.len(),
        forall|i: int| 0 <= i < s.len() ==> #[trigger] close_gaps_spec(s, max_gap)[i]
            == (s[i] || in_short_white_gap(s, max_gap, i)),
{
    let n = s.len() as int;
    let runs = circular_runs_spec(s, false);
    if n == 0 {
        assert(runs.len() == 0);
        lemma_close_fold_len(s, runs, max_gap, 0);
        return;
    }
    assert forall|jj: int| 0 <= jj < runs.len() && (#[trigger] runs[jj]).len < s.len()
        implies neighbors_black_spec(s, runs[jj].start as int, runs[jj].len as int) by {
        if forall|x: int| 0 <= x < n ==> !s[x] {
            lemma_all_value_single_run(s, false);
            assert(jj == 0);
        } else {
            assert(exists|x: int| 0 <= x < s.len() && s[x] != false);
            lemma_listed_run_shorter(s, false, jj);
            let r = runs[jj];
            vstd::arithmetic::div_mod::lemma_mod_add_multiples_vanish(r.start - 1, n);
            assert(r.start + n - 1 == (r.start - 1) + n);
        }
    }
    lemma_close_fold_cells(s, runs, max_gap, runs.len() as int);
    assert forall|i: int| 0 <= i < s.len() implies #[trigger] close_gaps_spec(s, max_gap)[i]
        == (s[i] || in_short_white_gap(s, max_gap, i)) by {
        lemma_listed_gap_iff_short_gap(s, max_gap, i);
    }
}

} // verus!
