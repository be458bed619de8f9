use qracer::codec::dy_grid::{
    clean_black_border_fine_ring, prune_black_border_badge_decorative_edge_band_after_closing,
    remove_short_circular_black_runs, restore_black_border_120_outer_fine_ring_badge_edge, validate_dy_params,
    DyParams, FineRingMarks,
};
use qracer::codec::qr::{decode_readout, QrDecoded, QrEcc, QrReadout};
use qracer::codec::wx_grid::choose_wx_attempt;
use qracer::detect::runs::{row_runs, Run};
use qracer::error::QRacerError;
use qracer::pipeline::preprocess::BinaryImage;
use qracer::qr_match::{qr_mask_candidates, qr_matrix_diff_count};
use qracer::codec::qr_grid::sample_qr_grid;

fn no_marks() -> FineRingMarks {
    FineRingMarks { edge: None, lower_edge_restorable: None, bridge_points: None, extendable: None, template_points: None }
}

#[test]
fn readout_without_qr_format_is_rejected() {
    let readout = QrReadout { text: "X".to_owned(), is_qr: false, ecc_label: Some("M".to_owned()) };
    match decode_readout(readout, None) {
        Err(QRacerError::QrDecode(msg)) => assert_eq!(msg, "decoded format is not QR"),
        _ => panic!("expected a decode error"),
    }
}

#[test]
fn readout_level_label_and_smallest_version() {
    let readout = QrReadout { text: "HELLO".to_owned(), is_qr: true, ecc_label: Some(" H\n".to_owned()) };
    let decoded = decode_readout(readout, None).ok().unwrap();
    assert_eq!(decoded, QrDecoded { text: "HELLO".to_owned(), version: 1, ecc: QrEcc::H, original_mask: None });
    let unlabeled = QrReadout { text: "HELLO".to_owned(), is_qr: true, ecc_label: Some("X".to_owned()) };
    match decode_readout(unlabeled, None) {
        Err(QRacerError::QrDecode(msg)) => assert_eq!(msg, "missing QR error correction metadata"),
        _ => panic!("expected a decode error"),
    }
    assert_eq!(QrEcc::from_label(QrEcc::Q.label()), Some(QrEcc::Q));
    assert_eq!(QrEcc::from_label("\t L  "), Some(QrEcc::L));
    assert_eq!(QrEcc::from_label("L M"), None);
}

#[test]
fn rows_outside_the_image_read_as_one_white_run() {
    let bin = BinaryImage::new(4, 2, vec![0, 255, 0, 0, 255, 255, 255, 255]);
    assert_eq!(row_runs(&bin, 7), vec![Run { black: false, start: 0, len: 4 }]);
    assert_eq!(row_runs(&bin, u32::MAX), vec![Run { black: false, start: 0, len: 4 }]);
    assert_eq!(row_runs(&bin, 0).len(), 3);
}

#[test]
fn diff_count_of_any_equally_shaped_matrices() {
    let lhs = vec![vec![true, false], vec![false, false]];
    let rhs = vec![vec![true, true], vec![false, true]];
    assert_eq!(qr_matrix_diff_count(&lhs, &rhs), Some(2));
    assert_eq!(qr_matrix_diff_count(&lhs, &vec![vec![true, true], vec![false]]), None);
    let wide = vec![vec![true; 70_000]];
    let other = vec![vec![false; 70_000]];
    assert_eq!(qr_matrix_diff_count(&wide, &other), Some(70_000));
}

#[test]
fn wx_attempt_with_fewest_differences_wins() {
    let attempts = vec![(36, Some(120)), (54, Some(80)), (72, Some(80))];
    assert_eq!(choose_wx_attempt(&attempts, Some(72)), Some(2));
    assert_eq!(choose_wx_attempt(&attempts, None), Some(1));
    assert_eq!(choose_wx_attempt(&attempts, Some(36)), Some(1));
    let failed = vec![(36, None), (54, None), (72, None)];
    assert_eq!(choose_wx_attempt(&failed, Some(54)), None);
    assert_eq!(choose_wx_attempt(&vec![(36, None), (54, Some(5)), (72, None)], None), Some(1));
}

#[test]
fn douyin_layout_is_validated() {
    assert!(validate_dy_params(DyParams { ring_count: 5, points_per_ring: 120, has_border: true }).is_ok());
    assert!(validate_dy_params(DyParams { ring_count: 8, points_per_ring: 72, has_border: false }).is_ok());
    match validate_dy_params(DyParams { ring_count: 6, points_per_ring: 72, has_border: true }) {
        Err(QRacerError::QrDecode(msg)) => assert_eq!(msg, "invalid Douyin ring count: 6"),
        _ => panic!("expected a ring count error"),
    }
    match validate_dy_params(DyParams { ring_count: 4, points_per_ring: 90, has_border: false }) {
        Err(QRacerError::QrDecode(msg)) => assert_eq!(msg, "invalid Douyin points per ring: 90"),
        _ => panic!("expected a points error"),
    }
}

#[test]
fn short_black_runs_are_cleared_and_a_second_pass_changes_nothing() {
    let mut ring = vec![false; 20];
    ring[3] = true;
    for i in 8..12 {
        ring[i] = true;
    }
    ring[19] = true;
    ring[0] = true;
    remove_short_circular_black_runs(&mut ring, 3);
    let mut expected = vec![false; 20];
    for i in 8..12 {
        expected[i] = true;
    }
    assert_eq!(ring, expected);
    remove_short_circular_black_runs(&mut ring, 3);
    assert_eq!(ring, expected);
}

#[test]
fn fine_ring_cleanup_closes_gaps_then_drops_specks() {
    let mut ring = vec![false; 720];
    for i in 100..110 {
        ring[i] = true;
    }
    for i in 113..120 {
        ring[i] = true;
    }
    ring[300] = true;
    clean_black_border_fine_ring(&mut ring, &no_marks(), 72, 0);
    let mut expected = vec![false; 720];
    for i in 100..120 {
        expected[i] = true;
    }
    assert_eq!(ring, expected);
}

#[test]
fn fine_ring_marks_apply_per_ring() {
    let mut band = vec![false; 720];
    band[5] = true;
    let mut ring = vec![true; 720];
    prune_black_border_badge_decorative_edge_band_after_closing(&mut ring, Some(&band), 72);
    assert!(!ring[5] && ring[6]);
    let mut ring120 = vec![true; 720];
    prune_black_border_badge_decorative_edge_band_after_closing(&mut ring120, Some(&band), 120);
    assert!(ring120[5]);
    let mut restorable = vec![false; 720];
    restorable[10] = true;
    let mut white = vec![false; 720];
    restore_black_border_120_outer_fine_ring_badge_edge(&mut white, Some(&restorable), 120, 0);
    assert!(white[10] && !white[11]);
    let mut other = vec![false; 720];
    restore_black_border_120_outer_fine_ring_badge_edge(&mut other, Some(&restorable), 120, 1);
    assert!(!other[10]);
}

#[test]
fn mask_candidates_are_ordered_and_distinct() {
    let qr = qrcodegen::QrCode::encode_segments_advanced(
        &qrcodegen::QrSegment::make_segments("ORDER"),
        qrcodegen::QrCodeEcc::Medium,
        qrcodegen::Version::new(2),
        qrcodegen::Version::new(2),
        Some(qrcodegen::Mask::new(3)),
        false,
    )
    .unwrap();
    let size = qr.size() as u32;
    let scale = 7u32;
    let side = size * scale;
    let mut data = vec![255u8; (side * side) as usize];
    for y in 0..side {
        for x in 0..side {
            if qr.get_module((x / scale) as i32, (y / scale) as i32) {
                data[(y * side + x) as usize] = 0;
            }
        }
    }
    let w = BinaryImage::new(side, side, data);
    let reference = sample_qr_grid(&w, 2).unwrap();
    let decoded = QrDecoded { text: "ORDER".to_owned(), version: 2, ecc: QrEcc::M, original_mask: Some(3) };
    let cs = qr_mask_candidates(&decoded, &reference);
    assert_eq!(cs.len(), 32);
    let rank = |e: QrEcc| if e == QrEcc::M { 0 } else { match e { QrEcc::L => 1, QrEcc::M => 2, QrEcc::Q => 3, QrEcc::H => 4 } };
    for pair in cs.windows(2) {
        assert!(rank(pair[0].ecc) * 8 + (pair[0].mask as i32) < rank(pair[1].ecc) * 8 + pair[1].mask as i32);
    }
    assert!(cs.iter().all(|c| c.mask <= 7));
    let bad = QrDecoded { version: 0, ..decoded };
    assert!(qr_mask_candidates(&bad, &reference).is_empty());
}
