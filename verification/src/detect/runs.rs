use vstd::prelude::*;
use crate::pipeline::preprocess::BinaryImage;

verus! {

/// A maximal stretch of equally coloured pixels in one image row.
#[derive(Debug, Clone, Copy, PartialEq, Eq)]
pub struct Run {
    pub black: bool,
    pub start: u32,
    pub len: u32,
}

/// `runs` splits row `y` of `bin` into maximal single-colour stretches, left
/// to right: they start at 0, follow one another without gap, end at the
/// right edge, each holds pixels of its colour only, and neighbours differ.
pub open spec fn row_runs_spec(bin: BinaryImage, y: int, runs: Seq<Run>) -> bool {
    &&& runs.len() >= 1
    &&& runs[0].start == 0
    &&& runs.last().start + runs.last().len == bin.w
    &&& forall|k: int| 0 <= k < runs.len() ==> (#[trigger] runs[k]).len > 0
    &&& forall|k: int| 0 <= k < runs.len() - 1 ==> #[trigger] runs[k + 1].start == runs[k].start + runs[k].len
    &&& forall|k: int| 0 <= k < runs.len() - 1 ==> #[trigger] runs[k + 1].black != runs[k].black
    &&& forall|k: int, x: int| 0 <= k < runs.len() && runs[k].start <= x < runs[k].start + runs[k].len
        ==> #[trigger] bin.dark(x, y) == (#[trigger] runs[k]).black
}

/// The run-length encoding of row `y` (empty for an image of width 0); a row
/// outside the image reads as one white run.
pub fn row_runs(bin: &BinaryImage, y: u32) -> (runs: Vec<Run>)
    requires
        bin.wf(),
    ensures
        bin.w == 0 ==> runs@.len() == 0,
        bin.w > 0 ==> row_runs_spec(*bin, y as int, runs@),
{
    if bin.w == 0 {
        return Vec::new();
    }
    let row: i32 = if y < bin.h { y as i32 } else { -1 };
    proof {
        assert forall|p: int| #[trigger] bin.dark(p, row as int) == bin.dark(p, y as int) by {}
    }
    let mut runs: Vec<Run> = Vec::new();
    let mut start: u32 = 0;
    let mut black = bin.is_black(0, row);
    let mut x: u32 = 1;
    while x < bin.w
        invariant
            bin.wf(),
            forall|p: int| #[trigger] bin.dark(p, row as int) == bin.dark(p, y as int),
            0 < x <= bin.w,
            start < x,
            black == bin.dark(start as int, y as int),
            forall|p: int| start <= p < x ==> #[trigger] bin.dark(p, y as int) == black,
            runs@.len() == 0 ==> start == 0,
            runs@.len() > 0 ==> runs@[0].start == 0,
            runs@.len() > 0 ==> runs@.last().start + runs@.last().len == start,
            runs@.len() > 0 ==> runs@.last().black != black,
            forall|k: int| 0 <= k < runs@.len() ==> (#[trigger] runs@[k]).len > 0,
            forall|k: int| 0 <= k < runs@.len() - 1 ==> #[trigger] runs@[k + 1].start == runs@[k].start + runs@[k].len,
            forall|k: int| 0 <= k < runs@.len() - 1 ==> #[trigger] runs@[k + 1].black != runs@[k].black,
            forall|k: int, p: int| 0 <= k < runs@.len() && runs@[k].start <= p < runs@[k].start + runs@[k].len
                ==> #[trigger] bin.dark(p, y as int) == (#[trigger] runs@[k]).black,
        decreases bin.w - x,
    {
        let next_black = bin.is_black(x as i32, row);
        if next_black != black {
            let ghost before = runs@;
            runs.push(Run { black, start, len: x - start });
            proof {
                assert(runs@ == before.push(Run { black, start, len: (x - start) as u32 }));
                assert forall|k: int| 0 <= k < runs@.len() - 1 implies #[trigger] runs@[k + 1].start == runs@[k].start + runs@[k].len by {
                    if k + 1 < before.len() {
                        assert(runs@[k + 1] == before[k + 1] && runs@[k] == before[k]);
                    }
                }
                assert forall|k: int| 0 <= k < runs@.len() - 1 implies #[trigger] runs@[k + 1].black != runs@[k].black by {
                    if k + 1 < before.len() {
                        assert(runs@[k + 1] == before[k + 1] && runs@[k] == before[k]);
                    }
                }
                assert forall|k: int, p: int| 0 <= k < runs@.len() && runs@[k].start <= p < runs@[k].start + runs@[k].len
                    implies #[trigger] bin.dark(p, y as int) == (#[trigger] runs@[k]).black by {
                    if k < before.len() {
                        assert(runs@[k] == before[k]);
                    }
                }
            }
            start = x;
            black = next_black;
        }
        x = x + 1;
    }
    let ghost before = runs@;
    runs.push(Run { black, start, len: bin.w - start });
    proof {
        assert forall|k: int| 0 <= k < runs@.len() - 1 implies #[trigger] runs@[k + 1].start == runs@[k].start + runs@[k].len by {
            if k + 1 < before.len() {
                assert(runs@[k + 1] == before[k + 1] && runs@[k] == before[k]);
            }
        }
        assert forall|k: int| 0 <= k < runs@.len() - 1 implies #[trigger] runs@[k + 1].black != runs@[k].black by {
            if k + 1 < before.len() {
                assert(runs@[k + 1] == before[k + 1] && runs@[k] == before[k]);
            }
        }
        assert forall|k: int, p: int| 0 <= k < runs@.len() && runs@[k].start <= p < runs@[k].start + runs@[k].len
            implies #[trigger] bin.dark(p, y as int) == (#[trigger] runs@[k]).black by {
            if k < before.len() {
                assert(runs@[k] == before[k]);
            }
        }
    }
    runs
}

/// Five runs coloured black, white, black, white, black: the colour order
/// across a finder pattern.
pub fn is_finder_color_sequence(runs: &[Run]) -> (b: bool)
    ensures
        b == (runs@.len() == 5 && runs@[0].black && !runs@[1].black && runs@[2].black
            && !runs@[3].black && runs@[4].black),
{
    runs.len() == 5 && runs[0].black && !runs[1].black && runs[2].black && !runs[3].black && runs[4].black
}

/// Number of consecutive pixels of colour `black` in column `x` from row
/// `y` upwards (rows below 0 end the count).
pub open spec fn run_up(bin: BinaryImage, x: int, y: int, black: bool) -> int
    decreases y + 1,
{
    if y < 0 || bin.dark(x, y) != black { 0 } else { 1 + run_up(bin, x, y - 1, black) }
}

/// Number of consecutive pixels of colour `black` in column `x` from row
/// `y` downwards (rows from the height on end the count).
pub open spec fn run_down(bin: BinaryImage, x: int, y: int, black: bool) -> int
    decreases bin.h - y,
{
    if y >= bin.h || bin.dark(x, y) != black { 0 } else { 1 + run_down(bin, x, y + 1, black) }
}

/// The five run lengths black, white, black, white, black met along column
/// `x` around the black pixel `(x, y)` (the middle run holds it), and the
/// row where the first run starts.
pub open spec fn vertical_counts_spec(bin: BinaryImage, x: int, y: int) -> ([u32; 5], i32) {
    let up2 = run_up(bin, x, y, true);
    let c1 = run_up(bin, x, y - up2, false);
    let c0 = run_up(bin, x, y - up2 - c1, true);
    let down2 = run_down(bin, x, y + 1, true);
    let c3 = run_down(bin, x, y + 1 + down2, false);
    let c4 = run_down(bin, x, y + 1 + down2 + c3, true);
    ([c0 as u32, c1 as u32, (up2 + down2) as u32, c3 as u32, c4 as u32], (y - up2 - c1 - c0 + 1) as i32)
}

proof fn lemma_run_up_bounds(bin: BinaryImage, x: int, y: int, black: bool)
    ensures
        0 <= run_up(bin, x, y, black) <= if y >= 0 { y + 1 } else { 0 },
    decreases y + 1,
{
    if y >= 0 {
        lemma_run_up_bounds(bin, x, y - 1, black);
    }
}

proof fn lemma_run_down_bounds(bin: BinaryImage, x: int, y: int, black: bool)
    ensures
        0 <= run_down(bin, x, y, black) <= if y < bin.h { bin.h - y } else { 0 },
    decreases bin.h - y,
{
    if y < bin.h {
        lemma_run_down_bounds(bin, x, y + 1, black);
    }
}

/// Walks up from row `y` over pixels of colour `black`; returns the count
/// and the first row not taken.
fn walk_up(bin: &BinaryImage, x: i32, y: i32, black: bool) -> (r: (u32, i32))
    requires
        bin.wf(),
        -1 <= y < bin.h,
    ensures
        r.0 == run_up(*bin, x as int, y as int, black),
        r.1 == y - r.0,
        -1 <= r.1 <= y,
{
    let mut count: u32 = 0;
    let mut cur: i32 = y;
    proof {
        lemma_run_up_bounds(*bin, x as int, y as int, black);
    }
    while cur >= 0 && bin.is_black(x, cur) == black
        invariant
            bin.wf(),
            -1 <= cur <= y < bin.h,
            count == y - cur,
            run_up(*bin, x as int, y as int, black) == count + run_up(*bin, x as int, cur as int, black),
        decreases cur + 1,
    {
        cur = cur - 1;
        count = count + 1;
    }
    (count, cur)
}

/// Walks down from row `y` over pixels of colour `black`; returns the count
/// and the first row not taken.
fn walk_down(bin: &BinaryImage, x: i32, y: i32, black: bool) -> (r: (u32, i32))
    requires
        bin.wf(),
        0 <= y <= bin.h,
    ensures
        r.0 == run_down(*bin, x as int, y as int, black),
        r.1 == y + r.0,
        y <= r.1 <= bin.h,
{
    let mut count: u32 = 0;
    let mut cur: i32 = y;
    let h = bin.h as i32;
    while cur < h && bin.is_black(x, cur) == black
        invariant
            bin.wf(),
            h == bin.h,
            0 <= y <= cur <= h,
            count == cur - y,
            run_down(*bin, x as int, y as int, black) == count + run_down(*bin, x as int, cur as int, black),
        decreases h - cur,
    {
        cur = cur + 1;
        count = count + 1;
    }
    (count, cur)
}

/// Measures the finder-pattern run lengths along column `center_x` around
/// `(center_x, center_y)`, or `None` when that pixel is not black.
pub fn vertical_finder_counts(bin: &BinaryImage, center_x: i32, center_y: i32) -> (r: Option<([u32; 5], i32)>)
    requires
        bin.wf(),
    ensures
        !bin.dark(center_x as int, center_y as int) ==> r is None,
        bin.dark(center_x as int, center_y as int) ==> r == Some(vertical_counts_spec(*bin, center_x as int, center_y as int)),
{
    if !bin.is_black(center_x, center_y) {
        return None;
    }
    let (c2_up, y1) = walk_up(bin, center_x, center_y, true);
    let (c1, y2) = walk_up(bin, center_x, y1, false);
    let (c0, y3) = walk_up(bin, center_x, y2, true);
    let top = y3 + 1;
    let (c2_down, z1) = walk_down(bin, center_x, center_y + 1, true);
    let (c3, z2) = walk_down(bin, center_x, z1, false);
    let (c4, _z3) = walk_down(bin, center_x, z2, true);
    proof {
        lemma_run_up_bounds(*bin, center_x as int, center_y as int, true);
        lemma_run_down_bounds(*bin, center_x as int, center_y as int + 1, true);
    }
    let counts = [c0, c1, c2_up + c2_down, c3, c4];
    proof {
        let sp = vertical_counts_spec(*bin, center_x as int, center_y as int);
        assert(counts@ =~= sp.0@);
    }
    Some((counts, top))
}

} // verus!
