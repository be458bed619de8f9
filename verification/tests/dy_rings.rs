use qracer::codec::dy_grid::{
    black_border_optional_ring_is_present, circular_runs, close_circular_white_gaps,
    remove_short_circular_black_runs, ring_score_from_samples, set_circular_run,
    step_decorative_point, BlackBorderOptionalRingScore, CircularRun,
};

#[test]
fn black_border_optional_code_ring_shape_score_rejects_logo_blobs() {
    let real_code_like = BlackBorderOptionalRingScore {
        usable_points: 120,
        black_points: 42,
        black_runs: 18,
        max_run_len: 5,
    };
    let few_long_logo_arcs = BlackBorderOptionalRingScore {
        usable_points: 120,
        black_points: 50,
        black_runs: 3,
        max_run_len: 25,
    };
    let solid_logo_ring = BlackBorderOptionalRingScore {
        usable_points: 120,
        black_points: 120,
        black_runs: 1,
        max_run_len: 120,
    };

    assert!(black_border_optional_ring_is_present(real_code_like, 120));
    assert!(!black_border_optional_ring_is_present(few_long_logo_arcs, 120));
    assert!(!black_border_optional_ring_is_present(solid_logo_ring, 120));
}

#[test]
fn optional_ring_density_bounds_are_inclusive() {
    // 12% and 70% density are both accepted; 72-cell rings need 5 runs.
    let low = BlackBorderOptionalRingScore { usable_points: 100, black_points: 12, black_runs: 5, max_run_len: 3 };
    let high = BlackBorderOptionalRingScore { usable_points: 100, black_points: 70, black_runs: 9, max_run_len: 8 };
    let too_low = BlackBorderOptionalRingScore { usable_points: 100, black_points: 11, black_runs: 5, max_run_len: 3 };
    assert!(black_border_optional_ring_is_present(low, 72));
    assert!(black_border_optional_ring_is_present(high, 72));
    assert!(!black_border_optional_ring_is_present(too_low, 72));
    // The longest run may reach ceil(0.22 * 120) = 27 cells.
    let long_run = BlackBorderOptionalRingScore { usable_points: 120, black_points: 56, black_runs: 7, max_run_len: 27 };
    let longer_run = BlackBorderOptionalRingScore { usable_points: 120, black_points: 56, black_runs: 7, max_run_len: 28 };
    assert!(black_border_optional_ring_is_present(long_run, 120));
    assert!(!black_border_optional_ring_is_present(longer_run, 120));
}

#[test]
fn circular_runs_wrap_around_the_ring() {
    let samples = vec![true, true, false, true, false, false, true];
    let runs = circular_runs(&samples, true);
    assert_eq!(runs, vec![CircularRun { start: 3, len: 1 }, CircularRun { start: 6, len: 3 }]);
    let white = circular_runs(&samples, false);
    assert_eq!(white, vec![CircularRun { start: 2, len: 1 }, CircularRun { start: 4, len: 2 }]);
    assert_eq!(circular_runs(&vec![true; 4], true), vec![CircularRun { start: 0, len: 4 }]);
    assert!(circular_runs(&vec![false; 4], true).is_empty());
    assert!(circular_runs(&Vec::new(), true).is_empty());
}

#[test]
fn set_circular_run_wraps() {
    let mut samples = vec![false; 5];
    set_circular_run(&mut samples, 4, 3, true);
    assert_eq!(samples, vec![true, true, false, false, true]);
}

#[test]
fn closing_and_removing_runs() {
    let mut samples = vec![true, false, false, true, false, false, false, false, true, true];
    close_circular_white_gaps(&mut samples, 2);
    assert_eq!(samples, vec![true, true, true, true, false, false, false, false, true, true]);

    let mut samples = vec![true, false, true, true, false, false, true, true, true, false];
    remove_short_circular_black_runs(&mut samples, 2);
    assert_eq!(samples, vec![false, false, true, true, false, false, true, true, true, false]);
}

#[test]
fn ring_score_counts_runs() {
    let samples = vec![true, true, false, true, false, false, true];
    let score = ring_score_from_samples(&samples, 7);
    assert_eq!(score, BlackBorderOptionalRingScore { usable_points: 7, black_points: 4, black_runs: 2, max_run_len: 3 });
}

#[test]
fn decorative_points_step_around_the_ring() {
    assert_eq!(step_decorative_point(0, -1), 719);
    assert_eq!(step_decorative_point(719, 1), 0);
    assert_eq!(step_decorative_point(10, 1), 11);
}
