use qracer::codec::dy_grid::{
    extend_black_border_72_inner_fine_ring_weak_endpoints, prune_black_border_badge_decorative_short_runs,
    prune_black_border_badge_outer_short_runs, prune_black_border_edge_noise,
    reconstruct_black_border_fine_ring_template, restore_black_border_72_inner_fine_ring_badge_bridges,
    DecorativeEdgeMarks, OuterRunMarks, detect_black_border_code_ring_count, BlackBorderOptionalRingScore,
};

/// A 720-cell ring, black on the given half-open ranges.
fn ring(black: &[(usize, usize)]) -> Vec<bool> {
    let mut r = vec![false; 720];
    for &(a, b) in black {
        for i in a..b {
            r[i % 720] = true;
        }
    }
    r
}

#[test]
fn template_gaps_close_only_when_every_cell_fits() {
    // Black 0..100 and 108..200: an 8-cell gap at 100..108.
    let base = ring(&[(0, 100), (108, 200)]);
    let all = vec![true; 720];

    let mut samples = base.clone();
    reconstruct_black_border_fine_ring_template(&mut samples, Some(&all), 72);
    assert_eq!(samples, ring(&[(0, 200)]));

    // On 120-cell codes the gap may be at most 6 cells.
    let mut samples = base.clone();
    reconstruct_black_border_fine_ring_template(&mut samples, Some(&all), 120);
    assert_eq!(samples, base);

    let mut some = all.clone();
    some[104] = false;
    let mut samples = base.clone();
    reconstruct_black_border_fine_ring_template(&mut samples, Some(&some), 72);
    assert_eq!(samples, base);

    let mut samples = base.clone();
    reconstruct_black_border_fine_ring_template(&mut samples, None, 72);
    assert_eq!(samples, base);
}

#[test]
fn badge_bridges_only_on_the_inner_ring_of_small_codes() {
    let base = ring(&[(0, 300), (310, 500)]);
    let all = vec![true; 720];
    let mut samples = base.clone();
    restore_black_border_72_inner_fine_ring_badge_bridges(&mut samples, Some(&all), 72, 1);
    assert_eq!(samples, ring(&[(0, 500)]));
    let mut samples = base.clone();
    restore_black_border_72_inner_fine_ring_badge_bridges(&mut samples, Some(&all), 72, 0);
    assert_eq!(samples, base);
    let mut samples = base.clone();
    restore_black_border_72_inner_fine_ring_badge_bridges(&mut samples, Some(&all), 120, 1);
    assert_eq!(samples, base);
}

#[test]
fn weak_endpoints_extend_runs_by_one_cell() {
    let base = ring(&[(10, 20)]);
    let mut ext = vec![false; 720];
    ext[9] = true;
    ext[20] = true;
    ext[30] = true;
    let mut samples = base.clone();
    extend_black_border_72_inner_fine_ring_weak_endpoints(&mut samples, Some(&ext), 72, 1);
    assert_eq!(samples, ring(&[(9, 21)]));
    let mut samples = base.clone();
    extend_black_border_72_inner_fine_ring_weak_endpoints(&mut samples, None, 72, 1);
    assert_eq!(samples, base);
}

#[test]
fn edge_noise_clears_weak_run_starts_on_code_rings() {
    // Two rings of eight cells; ring 1 is decorative.
    let samples0 = vec![
        false, true, true, false, false, true, true, true, //
        false, true, true, false, false, false, false, false,
    ];
    let keep_any = vec![false; 16];
    let mut keep_if_long = vec![false; 16];
    keep_if_long[5] = true;
    let decoration = vec![false, true];
    let mut samples = samples0.clone();
    prune_black_border_edge_noise(&mut samples, &keep_any, &keep_if_long, &decoration, 2, 8);
    // Cell 1 starts a weak two-cell run and goes; cell 5 starts a run of
    // three and is fairly dark, so it stays; ring 1 is untouched.
    let mut expected = samples0.clone();
    expected[1] = false;
    assert_eq!(samples, expected);
}

#[test]
fn outer_short_runs_beside_the_badge_are_cleared() {
    let n = 12;
    let mut samples0 = vec![false; n];
    samples0[3] = true;
    samples0[4] = true;
    samples0[8] = true;
    let mut badge_gap = vec![false; n];
    badge_gap[2] = true;
    let marks = OuterRunMarks {
        badge_gap,
        at_least_min: vec![true; n],
        at_most_max: vec![true; n],
        trimmable: vec![true; n],
    };
    let mut samples = samples0.clone();
    prune_black_border_badge_outer_short_runs(&mut samples, Some(&marks), n as u32);
    let mut expected = samples0.clone();
    expected[3] = false;
    expected[4] = false;
    assert_eq!(samples, expected);
    let mut samples = samples0.clone();
    prune_black_border_badge_outer_short_runs(&mut samples, None, n as u32);
    assert_eq!(samples, samples0);
}

#[test]
fn decorative_edge_runs_and_bridges_are_pruned() {
    // A short run 100..103, a gap, then a bridge 106..112.
    let base = ring(&[(0, 90), (100, 103), (106, 112), (300, 400)]);
    let mut at_least_min = vec![false; 720];
    let mut at_most_max = vec![false; 720];
    for i in 100..110 {
        at_least_min[i] = true;
        at_most_max[i] = true;
    }
    let marks = DecorativeEdgeMarks { at_least_min, at_most_max, band_72: vec![false; 720] };
    let mut samples = base.clone();
    prune_black_border_badge_decorative_short_runs(&mut samples, Some(&marks), 120);
    // The run goes; after the 3-cell gap the first four edge cells of the
    // bridge (106..110) are trimmed.
    assert_eq!(samples, ring(&[(0, 90), (110, 112), (300, 400)]));

    let mut band = vec![false; 720];
    band[50] = true;
    band[350] = true;
    let marks72 = DecorativeEdgeMarks { at_least_min: vec![false; 720], at_most_max: vec![false; 720], band_72: band };
    let mut samples = base.clone();
    prune_black_border_badge_decorative_short_runs(&mut samples, Some(&marks72), 72);
    let mut expected = base.clone();
    expected[50] = false;
    expected[350] = false;
    assert_eq!(samples, expected);
}

#[test]
fn optional_rings_count_while_present() {
    let present = BlackBorderOptionalRingScore { usable_points: 120, black_points: 42, black_runs: 18, max_run_len: 6 };
    let absent = BlackBorderOptionalRingScore { usable_points: 120, black_points: 50, black_runs: 4, max_run_len: 25 };
    assert_eq!(detect_black_border_code_ring_count(&vec![], 120), 3);
    assert_eq!(detect_black_border_code_ring_count(&vec![present], 120), 4);
    assert_eq!(detect_black_border_code_ring_count(&vec![present, present], 120), 5);
    assert_eq!(detect_black_border_code_ring_count(&vec![absent, present], 120), 3);
    assert_eq!(detect_black_border_code_ring_count(&vec![present, absent], 120), 4);
}
