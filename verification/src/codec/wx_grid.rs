use vstd::prelude::*;
use crate::error::QRacerError;
use crate::text::{message_with_number, decimal};

verus! {

/// The mini-program code sizes: number of radial lines.
pub open spec fn is_wx_line_count(n: int) -> bool {
    n == 36 || n == 54 || n == 72
}

/// Distance between two counts.
pub open spec fn count_gap(a: int, b: int) -> int {
    if a >= b { a - b } else { b - a }
}

/// The line count nearest to a measured number of colour changes around
/// the code (the smaller on a tie), if it lies within 12 of it.
pub open spec fn nearest_version_spec(t: int) -> Option<u32> {
    let best: u32 = if count_gap(t, 36) <= count_gap(t, 54) && count_gap(t, 36) <= count_gap(t, 72) {
        36
    } else if count_gap(t, 54) <= count_gap(t, 72) {
        54
    } else {
        72
    };
    if count_gap(t, best as int) <= 12 { Some(best) } else { None }
}

/// Distance between two unsigned counts.
fn gap(a: u32, b: u32) -> (d: u32)
    ensures
        d == count_gap(a as int, b as int),
{
    if a >= b { a - b } else { b - a }
}

/// Picks the line count closest to `transitions`, if one is within 12.
pub fn nearest_version(transitions: u32) -> (r: Option<u32>)
    ensures
        r == nearest_version_spec(transitions as int),
{
    let mut best: u32 = 36;
    let mut best_gap: u32 = gap(transitions, 36);
    let g54 = gap(transitions, 54);
    if g54 < best_gap {
        best = 54;
        best_gap = g54;
    }
    let g72 = gap(transitions, 72);
    if g72 < best_gap {
        best = 72;
        best_gap = g72;
    }
    if best_gap <= 12 { Some(best) } else { None }
}

/// Number of positions `i` among the first `n` where the circular sequence
/// `v` changes value between `i` and the next position.
pub open spec fn transitions_spec(v: Seq<bool>, n: int) -> int
    decreases n,
{
    if n <= 0 {
        0
    } else {
        transitions_spec(v, n - 1) + if v[n - 1] != v[(n % (v.len() as int))] { 1int } else { 0 }
    }
}

/// Along an open stretch `v[0..=k]`, the number of colour changes is odd
/// exactly when the two ends differ.
proof fn lemma_transitions_parity(v: Seq<bool>, k: int)
    requires
        0 <= k < v.len(),
    ensures
        transitions_spec(v, k) % 2 == if v[0] != v[k] { 1int } else { 0int },
    decreases k,
{
    if k > 0 {
        lemma_transitions_parity(v, k - 1);
        vstd::arithmetic::div_mod::lemma_small_mod(k as nat, v.len());
    }
}

/// Going once around a closed ring, colour changes come in pairs: their
/// number is even.
pub proof fn law_ring_transitions_even(v: Seq<bool>)
    ensures
        transitions_spec(v, v.len() as int) % 2 == 0,
{
    if v.len() > 0 {
        lemma_transitions_parity(v, v.len() - 1);
        vstd::arithmetic::div_mod::lemma_mod_self_0(v.len() as int);
    }
}

/// Counts the colour changes around a closed ring of samples.
pub fn circular_transitions(values: &Vec<bool>) -> (count: u32)
    requires
        values@.len() <= u32::MAX,
    ensures
        count == transitions_spec(values@, values@.len() as int),
{
    let n = values.len();
    let mut count: u32 = 0;
    let mut i: usize = 0;
    while i < n
        invariant
            n == values@.len(),
            n <= u32::MAX,
            i <= n,
            count == transitions_spec(values@, i as int),
            count <= i,
        decreases n - i,
    {
        let next: usize = if i + 1 == n { 0 } else { i + 1 };
        proof {
            if i + 1 < n {
                vstd::arithmetic::div_mod::lemma_small_mod((i + 1) as nat, n as nat);
            } else {
                vstd::arithmetic::div_mod::lemma_mod_self_0(n as int);
            }
        }
        if values[i] != values[next] {
            count = count + 1;
        }
        i = i + 1;
    }
    count
}

/// Accepts the supported mini-program line counts and rejects any other.
pub fn validate_wx_line_count(version: u32) -> (r: Result<(), QRacerError>)
    ensures
        is_wx_line_count(version as int) <==> r is Ok,
        !is_wx_line_count(version as int) ==> (r matches Err(QRacerError::QrDecode(msg))
            && msg@ == "invalid mini-program line count: "@ + decimal(version as nat)),
{
    if version == 36 || version == 54 || version == 72 {
        Ok(())
    } else {
        Err(QRacerError::QrDecode(message_with_number("invalid mini-program line count: ", version as u64)))
    }
}

/// Ordering key of a sampling attempt: fewer differing pixels first, then
/// the preferred line count.
pub open spec fn wx_attempt_key(attempt: (u32, Option<u32>), preferred: Option<u32>) -> int {
    match attempt.1 {
        Some(d) => 2 * d + if preferred == Some(attempt.0) { 0int } else { 1int },
        None => 0,
    }
}

/// Attempt `i` is the one to keep: it succeeded, no successful attempt has
/// a smaller key, and every earlier successful attempt has a larger one.
pub open spec fn wx_best_attempt(attempts: Seq<(u32, Option<u32>)>, preferred: Option<u32>, i: int) -> bool {
    &&& 0 <= i < attempts.len()
    &&& attempts[i].1 is Some
    &&& forall|j: int| 0 <= j < attempts.len() && (#[trigger] attempts[j]).1 is Some ==> {
        &&& wx_attempt_key(attempts[i], preferred) <= wx_attempt_key(attempts[j], preferred)
        &&& (j < i ==> wx_attempt_key(attempts[i], preferred) < wx_attempt_key(attempts[j], preferred))
    }
}

/// Chooses among the sampling attempts `(line count, differing pixels or
/// failure)`: the fewest differing pixels, ties going to the preferred line
/// count, then to the earlier attempt; `None` when every attempt failed.
pub fn choose_wx_attempt(attempts: &Vec<(u32, Option<u32>)>, preferred: Option<u32>) -> (r: Option<usize>)
    ensures
        r is None <==> forall|j: int| 0 <= j < attempts@.len() ==> (#[trigger] attempts@[j]).1 is None,
        r matches Some(i) ==> wx_best_attempt(attempts@, preferred, i as int),
{
    let mut best: Option<usize> = None;
    let mut best_diff: u32 = 0;
    let mut best_preferred: bool = false;
    let mut k: usize = 0;
    while k < attempts.len()
        invariant
            k <= attempts.len(),
            best is None <==> forall|j: int| 0 <= j < k ==> (#[trigger] attempts@[j]).1 is None,
            best matches Some(i) ==> {
                &&& i < k
                &&& attempts@[i as int].1 == Some(best_diff)
                &&& best_preferred == (preferred == Some(attempts@[i as int].0))
                &&& forall|j: int| 0 <= j < k && (#[trigger] attempts@[j]).1 is Some ==> {
                    &&& wx_attempt_key(attempts@[i as int], preferred) <= wx_attempt_key(attempts@[j], preferred)
                    &&& (j < i ==> wx_attempt_key(attempts@[i as int], preferred) < wx_attempt_key(attempts@[j], preferred))
                }
            },
        decreases attempts.len() - k,
    {
        let (version, outcome) = attempts[k];
        if let Some(diff) = outcome {
            let preferred_here = match preferred {
                Some(p) => p == version,
                None => false,
            };
            let better = match best {
                None => true,
                Some(_) => diff < best_diff || (diff == best_diff && preferred_here && !best_preferred),
            };
            if better {
                best = Some(k);
                best_diff = diff;
                best_preferred = preferred_here;
            }
        }
        k = k + 1;
    }
    best
}

/// The chosen line count is one of 36, 54, 72 at the smallest distance from
/// the measured count (the smaller on a tie) and within 12 of it; there is
/// none exactly when every line count is more than 12 away. So each line
/// count is chosen for itself.
pub proof fn law_nearest_version_is_nearest(t: int)
    ensures
        nearest_version_spec(t) matches Some(c) ==> {
            &&& is_wx_line_count(c as int)
            &&& count_gap(t, c as int) <= 12
            &&& forall|d: int| #[trigger] is_wx_line_count(d) ==> count_gap(t, c as int) <= count_gap(t, d)
            &&& forall|d: int| #[trigger] is_wx_line_count(d) && count_gap(t, d) == count_gap(t, c as int) ==> c <= d
        },
        nearest_version_spec(t) is None <==> forall|d: int| #[trigger] is_wx_line_count(d) ==> count_gap(t, d) > 12,
        is_wx_line_count(t) ==> nearest_version_spec(t) == Some(t as u32),
{
    assert(is_wx_line_count(36) && is_wx_line_count(54) && is_wx_line_count(72));
}

} // verus!
