use qracer::codec::qr::{decode_qr, matrix_from_qrcode, QrDecoded, QrEcc};
use qracer::pipeline::preprocess::{BinaryImage, GrayImage};
use qracer::qr_match::MaskChoice;
use qracer::session::{process_qr_image, QrSession};
use qrcodegen::{Mask, QrCode, QrCodeEcc, QrSegment, Version};

const SUFFIX: &str = " 个模块（红色=原图有生成图没有，蓝色=原图没有生成图有）";

fn fixed_qr(text: &str, ecc: QrCodeEcc, version: u8, mask: u8) -> QrCode {
    QrCode::encode_segments_advanced(
        &QrSegment::make_segments(text),
        ecc,
        Version::new(version),
        Version::new(version),
        Some(Mask::new(mask)),
        false,
    )
    .unwrap()
}

fn render(qr: &QrCode, scale: u32, border: u32) -> (u32, Vec<u8>) {
    let size = qr.size() as u32;
    let side = (size + border * 2) * scale;
    let mut data = vec![255u8; (side * side) as usize];
    for y in 0..size {
        for x in 0..size {
            if qr.get_module(x as i32, y as i32) {
                for yy in (y + border) * scale..(y + border + 1) * scale {
                    for xx in (x + border) * scale..(x + border + 1) * scale {
                        data[(yy * side + xx) as usize] = 0;
                    }
                }
            }
        }
    }
    (side, data)
}

fn gray(qr: &QrCode) -> GrayImage {
    let (side, data) = render(qr, 8, 4);
    GrayImage { w: side, h: side, data }
}

fn warped(qr: &QrCode) -> BinaryImage {
    let (side, data) = render(qr, 7, 0);
    BinaryImage::new(side, side, data)
}

#[test]
fn new_session_waits_for_an_image() {
    let s = QrSession::new();
    assert_eq!(s.status, "粘贴截图（Ctrl+V）或点击 [打开...] 开始");
    assert_eq!(s.mask_choice, MaskChoice::Mask(0));
    assert!(s.last_matrix.is_none());
}

#[test]
fn actions_without_data_only_report() {
    let mut s = QrSession::new();
    s.set_mask(9);
    assert_eq!(s.mask_choice, MaskChoice::Mask(7));
    assert_eq!(s.status, "掩膜重生成需要先解码 QR；可使用网格像素匹配");
    s.use_grid_fallback();
    assert_eq!(s.status, "还没有可用于网格像素匹配的校正图");
    s.auto_select_best_mask();
    assert_eq!(s.status, "还没有可用的 QR 解码结果");
    assert!(s.ensure_qr_reference_matrix().is_none());
    assert!(s.last_matrix.is_none());
}

#[test]
fn decoded_symbol_restores_its_mask() {
    let qr = fixed_qr("SESSION", QrCodeEcc::Medium, 2, 5);
    let w = warped(&qr);
    let decoded = decode_qr(&gray(&qr), Some(&w)).unwrap();
    let s = process_qr_image(w, Ok(decoded), None);
    assert_eq!(s.mask_choice, MaskChoice::Mask(5));
    assert_eq!(s.matched_mask, Some(5));
    assert_eq!(s.qr_version, Some(2));
    assert_eq!(s.last_diff_count, Some(0));
    assert_eq!(s.last_matrix, Some(matrix_from_qrcode(&qr)));
    assert_eq!(s.status, format!("已解码 QR：V2 / ECC M / 原掩膜 5，差异 0{}", SUFFIX));
}

#[test]
fn choosing_another_mask_regenerates_and_counts_differences() {
    let qr = fixed_qr("SESSION", QrCodeEcc::Medium, 2, 5);
    let w = warped(&qr);
    let decoded = decode_qr(&gray(&qr), Some(&w)).unwrap();
    let mut s = process_qr_image(w, Ok(decoded), None);
    s.set_mask(3);
    let other = fixed_qr("SESSION", QrCodeEcc::Medium, 2, 3);
    let expected = matrix_from_qrcode(&other);
    let canonical = matrix_from_qrcode(&qr);
    let differing = expected
        .iter()
        .zip(&canonical)
        .map(|(a, b)| a.iter().zip(b).filter(|(x, y)| x != y).count())
        .sum::<usize>();
    assert!(differing > 0);
    assert_eq!(s.last_matrix, Some(expected));
    assert_eq!(s.last_diff_count, Some(differing as u32));
    assert_eq!(s.status, format!("已解码 QR：V2 / ECC M / 掩膜 3，差异 {}{}", differing, SUFFIX));
    s.auto_select_best_mask();
    assert_eq!(s.mask_choice, MaskChoice::Mask(5));
    assert_eq!(s.last_diff_count, Some(0));
    s.use_grid_fallback();
    assert_eq!(s.mask_choice, MaskChoice::GridFallback);
    assert_eq!(s.last_matrix, Some(canonical));
    assert_eq!(s.status, format!("使用网格像素匹配：V2，差异 0{}", SUFFIX));
}

#[test]
fn refreshing_twice_changes_nothing() {
    let qr = fixed_qr("TWICE", QrCodeEcc::Low, 1, 2);
    let w = warped(&qr);
    let decoded = decode_qr(&gray(&qr), Some(&w)).unwrap();
    let mut s = process_qr_image(w, Ok(decoded), None);
    s.set_mask(0);
    s.refresh_generated_preview();
    let status = s.status.clone();
    let count = s.last_diff_count;
    s.refresh_generated_preview();
    assert_eq!(s.status, status);
    assert_eq!(s.last_diff_count, count);
}

#[test]
fn unmatched_decode_uses_the_grid() {
    let qr = fixed_qr("GRID", QrCodeEcc::Low, 2, 1);
    let w = warped(&qr);
    let decoded = QrDecoded { text: "NOT THE SAME TEXT".to_owned(), version: 2, ecc: QrEcc::L, original_mask: None };
    let s = process_qr_image(w, Ok(decoded), None);
    assert_eq!(s.mask_choice, MaskChoice::GridFallback);
    assert_eq!(s.matched_mask, None);
    assert_eq!(s.last_matrix, Some(matrix_from_qrcode(&qr)));
    assert_eq!(s.last_diff_count, Some(0));
    assert_eq!(
        s.status,
        format!("已解码 QR：V2 / ECC L / 无匹配掩膜，已自动使用网格像素匹配，差异 0{}", SUFFIX)
    );
}

#[test]
fn unsampled_decode_reports_failure() {
    let qr = fixed_qr("GRID", QrCodeEcc::Low, 2, 1);
    let w = warped(&qr);
    let decoded = QrDecoded { text: "GRID".to_owned(), version: 0, ecc: QrEcc::L, original_mask: None };
    let s = process_qr_image(w, Ok(decoded), None);
    assert_eq!(s.mask_choice, MaskChoice::GridFallback);
    assert!(s.last_matrix.is_none());
    assert_eq!(s.status, "已解码 QR，但 8 种掩膜均不匹配，且网格像素匹配失败：无法采样校正图");
}

#[test]
fn failed_decode_falls_back_to_the_inferred_grid() {
    let qr = fixed_qr("UNREAD", QrCodeEcc::High, 3, 0);
    let w = warped(&qr);
    let s = process_qr_image(w, Err("QR decode failed: no code".to_owned()), None);
    assert_eq!(s.qr_version, Some(3));
    assert_eq!(s.mask_choice, MaskChoice::GridFallback);
    assert_eq!(s.last_matrix, Some(matrix_from_qrcode(&qr)));
    assert_eq!(
        s.status,
        "已完成 QR 校正并推断版本 V3，但解码失败：QR decode failed: no code；已自动使用网格像素匹配"
    );
}

#[test]
fn failed_decode_of_a_blank_image_only_reports() {
    let w = BinaryImage::new(70, 70, vec![255u8; 70 * 70]);
    let s = process_qr_image(w, Err("QR decode failed: no code".to_owned()), None);
    assert_eq!(s.qr_version, None);
    assert!(s.last_matrix.is_none());
    assert_eq!(s.status, "已完成 QR 校正，但解码失败：QR decode failed: no code");
}

#[test]
fn finder_spacing_supplies_the_version_when_the_image_does_not() {
    let w = BinaryImage::new(70, 70, vec![255u8; 70 * 70]);
    let s = process_qr_image(w, Err("QR decode failed: no code".to_owned()), Some(25));
    assert_eq!(s.qr_version, Some(2));
    assert_eq!(s.mask_choice, MaskChoice::GridFallback);
    assert_eq!(s.last_matrix, Some(vec![vec![false; 25]; 25]));
    assert_eq!(s.last_diff_count, Some(0));
    assert_eq!(
        s.status,
        "已完成 QR 校正并推断版本 V2，但解码失败：QR decode failed: no code；已自动使用网格像素匹配"
    );
}
