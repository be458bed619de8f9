use qracer::codec::qr::{decode_qr, matrix_from_qrcode, QrDecoded, QrEcc};
use qracer::codec::qr_grid::sample_qr_grid;
use qracer::pipeline::preprocess::{BinaryImage, GrayImage};
use qracer::qr_match::{
    choose_matching_qr_mask, compute_matrix_diff, is_ignored_qr_diff_module, is_qr_center_logo_module,
    is_qr_finder_or_separator_module, qr_alignment_pattern_module, qr_diff_outside_ignored_qr_regions,
    qr_mask_status_text, qr_matrix_diff_count, restore_decoded_qr, stabilize_grid_matrix, QrRestoration,
};
use qrcodegen::{Mask, QrCode, QrCodeEcc, QrSegment, Version};

fn fixed_qr(text: &str, ecc: QrCodeEcc, version: u8, mask: u8) -> QrCode {
    QrCode::encode_segments_advanced(
        &QrSegment::make_segments(text),
        ecc,
        Version::new(version),
        Version::new(version),
        Some(Mask::new(mask)),
        false,
    )
    .unwrap()
}

fn render(qr: &QrCode, scale: u32, border: u32) -> (u32, Vec<u8>) {
    let size = qr.size() as u32;
    let side = (size + border * 2) * scale;
    let mut data = vec![255u8; (side * side) as usize];
    for y in 0..size {
        for x in 0..size {
            if qr.get_module(x as i32, y as i32) {
                for yy in (y + border) * scale..(y + border + 1) * scale {
                    for xx in (x + border) * scale..(x + border + 1) * scale {
                        data[(yy * side + xx) as usize] = 0;
                    }
                }
            }
        }
    }
    (side, data)
}

fn gray(qr: &QrCode) -> GrayImage {
    let (side, data) = render(qr, 8, 4);
    GrayImage { w: side, h: side, data }
}

fn warped(qr: &QrCode) -> BinaryImage {
    let (side, data) = render(qr, 7, 0);
    BinaryImage::new(side, side, data)
}

#[test]
fn ignored_regions_cover_finders_and_logo() {
    assert!(is_qr_finder_or_separator_module(25, 7, 7));
    assert!(is_qr_finder_or_separator_module(25, 17, 0));
    assert!(is_qr_finder_or_separator_module(25, 0, 17));
    assert!(!is_qr_finder_or_separator_module(25, 17, 17));
    assert!(!is_qr_finder_or_separator_module(25, 8, 0));
    assert!(!is_qr_finder_or_separator_module(7, 0, 0));
    // Version 2: the logo square is 9 modules wide, from 8 to 16.
    assert!(is_qr_center_logo_module(25, 8, 8));
    assert!(is_qr_center_logo_module(25, 16, 16));
    assert!(!is_qr_center_logo_module(25, 17, 12));
    assert!(is_ignored_qr_diff_module(25, 12, 12));
    assert!(!is_ignored_qr_diff_module(25, 20, 12));
}

#[test]
fn alignment_pattern_modules_of_version_two() {
    // The single alignment pattern of version 2 is centred on (18, 18).
    assert_eq!(qr_alignment_pattern_module(25, 18, 18), Some(true));
    assert_eq!(qr_alignment_pattern_module(25, 17, 18), Some(false));
    assert_eq!(qr_alignment_pattern_module(25, 16, 20), Some(true));
    assert_eq!(qr_alignment_pattern_module(25, 15, 18), None);
    assert_eq!(qr_alignment_pattern_module(21, 10, 10), None);
    assert_eq!(qr_alignment_pattern_module(22, 10, 10), None);
}

#[test]
fn matrix_diff_lists_positions_row_by_row() {
    let a = vec![vec![true, false], vec![false, false]];
    let b = vec![vec![false, false], vec![false, true]];
    let diff = compute_matrix_diff(&a, &b).unwrap();
    assert_eq!(diff.diff_count, 2);
    assert_eq!(diff.diff_modules, vec![(0, 0), (1, 1)]);
    assert_eq!(qr_matrix_diff_count(&a, &b), Some(2));
    assert_eq!(qr_matrix_diff_count(&a, &vec![vec![true]]), None);
    // In a 2-module matrix the logo square covers everything.
    assert_eq!(qr_diff_outside_ignored_qr_regions(&diff, 2), 0);
}

#[test]
fn mask_matching_recovers_level_and_mask() {
    let qr = fixed_qr("MASK MATCHING", QrCodeEcc::Quartile, 3, 6);
    let w = warped(&qr);
    let decoded = decode_qr(&gray(&qr), Some(&w)).unwrap();
    let reference = sample_qr_grid(&w, decoded.version).unwrap();
    let chosen = choose_matching_qr_mask(&decoded, &reference).unwrap();
    assert_eq!(chosen.mask, 6);
    assert_eq!(chosen.ecc, QrEcc::Q);
    assert_eq!(chosen.total_diff, 0);
    assert_eq!(chosen.matrix, matrix_from_qrcode(&qr));
    match restore_decoded_qr(&w, &decoded) {
        QrRestoration::Matched(c) => assert_eq!(c.mask, 6),
        _ => panic!("expected a matching mask"),
    }
}

#[test]
fn unmatched_text_falls_back_to_the_sampled_grid() {
    let qr = fixed_qr("FALLBACK", QrCodeEcc::Low, 2, 2);
    let w = warped(&qr);
    let decoded = QrDecoded { text: "SOMETHING ELSE ENTIRELY".to_owned(), version: 2, ecc: QrEcc::L, original_mask: None };
    match restore_decoded_qr(&w, &decoded) {
        QrRestoration::GridFallback(m) => assert_eq!(m, matrix_from_qrcode(&qr)),
        _ => panic!("expected the grid fallback"),
    }
    let bad = QrDecoded { text: "X".to_owned(), version: 0, ecc: QrEcc::L, original_mask: None };
    assert!(matches!(restore_decoded_qr(&w, &bad), QrRestoration::Unsampled));
}

#[test]
fn stabilizing_snaps_near_matches_only() {
    let qr = fixed_qr("SNAP", QrCodeEcc::Medium, 2, 4);
    let canonical = matrix_from_qrcode(&qr);
    let decoded = QrDecoded { text: "SNAP".to_owned(), version: 2, ecc: QrEcc::M, original_mask: Some(4) };
    let mut noisy = canonical.clone();
    noisy[10][12] = !noisy[10][12];
    noisy[20][3] = !noisy[20][3];
    assert_eq!(stabilize_grid_matrix(noisy.clone(), Some(&decoded), Some(4)), canonical);
    assert_eq!(stabilize_grid_matrix(noisy.clone(), Some(&decoded), None), noisy);
    assert_eq!(stabilize_grid_matrix(noisy.clone(), None, Some(4)), noisy);
}

#[test]
fn status_text_names_version_level_and_mask() {
    let decoded = QrDecoded { text: "T".to_owned(), version: 3, ecc: QrEcc::H, original_mask: Some(1) };
    assert_eq!(
        qr_mask_status_text(&decoded, 1, Some(1), 4, 0),
        "已解码 QR：V3 / ECC H / 原掩膜 1，差异 4 个模块（红色=原图有生成图没有，蓝色=原图没有生成图有）"
    );
    assert_eq!(
        qr_mask_status_text(&decoded, 2, None, 10, 7),
        "已解码 QR：V3 / ECC H / 当前掩膜 2，无匹配掩膜（中心外差异 7），差异 10 个模块（红色=原图有生成图没有，蓝色=原图没有生成图有）"
    );
}
