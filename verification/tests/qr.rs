use qracer::codec::qr_format::{decode_format_code, format_code};
use qracer::codec::qr::{module_count_candidates, qr_modules_for_version, version_for_modules};
use qracer::codec::qr::{
    decode_qr, estimate_module_count, matrix_from_qrcode, regenerate_qr, sample_qr_module, QrEcc,
};
use qracer::codec::qr_grid::{infer_qr_version, sample_qr_grid};
use qracer::pipeline::preprocess::{BinaryImage, GrayImage};
use qrcodegen::{Mask, QrCode, QrCodeEcc, QrSegment, Version};

fn to_qrcodegen(ecc: QrEcc) -> QrCodeEcc {
    match ecc {
        QrEcc::L => QrCodeEcc::Low,
        QrEcc::M => QrCodeEcc::Medium,
        QrEcc::Q => QrCodeEcc::Quartile,
        QrEcc::H => QrCodeEcc::High,
    }
}

fn fixed_qr(text: &str, ecc: QrEcc, version: u8, mask: u8) -> QrCode {
    QrCode::encode_segments_advanced(
        &QrSegment::make_segments(text),
        to_qrcodegen(ecc),
        Version::new(version),
        Version::new(version),
        Some(Mask::new(mask)),
        false,
    )
    .unwrap()
}

fn render_qr_gray(qr: &QrCode, scale: u32, border: u32) -> GrayImage {
    let size = qr.size() as u32;
    let image_size = (size + border * 2) * scale;
    let mut data = vec![255u8; (image_size * image_size) as usize];
    for y in 0..size {
        for x in 0..size {
            if qr.get_module(x as i32, y as i32) {
                let start_x = (x + border) * scale;
                let start_y = (y + border) * scale;
                for yy in start_y..start_y + scale {
                    for xx in start_x..start_x + scale {
                        data[(yy * image_size + xx) as usize] = 0;
                    }
                }
            }
        }
    }
    GrayImage { w: image_size, h: image_size, data }
}

fn render_qr_binary(qr: &QrCode, scale: u32) -> BinaryImage {
    let gray = render_qr_gray(qr, scale, 0);
    BinaryImage::new(gray.w, gray.h, gray.data)
}

#[test]
fn decode_synthetic_qr_extracts_version_ecc_and_mask() {
    let text = "https://example.com/qracer/phase3";
    let qr = fixed_qr(text, QrEcc::M, 5, 3);
    let decode_img = render_qr_gray(&qr, 8, 4);
    let warped = render_qr_binary(&qr, 9);

    let decoded = decode_qr(&decode_img, Some(&warped)).unwrap();

    assert_eq!(decoded.text, text);
    assert_eq!(decoded.version, 5);
    assert_eq!(decoded.ecc, QrEcc::M);
    assert_eq!(decoded.original_mask, Some(3));
}

#[test]
fn regenerate_with_mask_matches_canonical_matrix() {
    let text = "QRACER PHASE 3 MASK TEST";
    let qr = fixed_qr(text, QrEcc::Q, 6, 5);
    let decode_img = render_qr_gray(&qr, 8, 4);
    let warped = render_qr_binary(&qr, 8);
    let decoded = decode_qr(&decode_img, Some(&warped)).unwrap();

    let matrix = regenerate_qr(&decoded, 5).unwrap();

    assert_eq!(matrix, matrix_from_qrcode(&qr));
}

#[test]
fn estimate_module_count_uses_timing_and_finders() {
    let qr = fixed_qr("QRACER GRID SIZE", QrEcc::H, 8, 2);
    let warped = render_qr_binary(&qr, 5);

    assert_eq!(estimate_module_count(&warped), Some(qr.size() as usize));
}

#[test]
fn infer_version_and_sample_grid_recover_the_symbol() {
    let qr = fixed_qr("GRID", QrEcc::L, 2, 1);
    let warped = render_qr_binary(&qr, 6);
    assert_eq!(infer_qr_version(&warped).unwrap(), 2);
    let matrix = sample_qr_grid(&warped, 2).unwrap();
    assert_eq!(matrix, matrix_from_qrcode(&qr));
    assert!(sample_qr_grid(&warped, 41).is_err());
}

#[test]
fn sample_module_reads_cell_centres() {
    let qr = fixed_qr("CELLS", QrEcc::M, 1, 0);
    let warped = render_qr_binary(&qr, 4);
    for y in 0..21 {
        for x in 0..21 {
            assert_eq!(sample_qr_module(&warped, 21, x, y), qr.get_module(x as i32, y as i32));
        }
    }
    assert!(!sample_qr_module(&warped, 0, 0, 0));
}

#[test]
fn regenerate_rejects_bad_version_and_mask() {
    let qr = fixed_qr("X", QrEcc::L, 1, 0);
    let decode_img = render_qr_gray(&qr, 8, 4);
    let mut decoded = decode_qr(&decode_img, None).unwrap();
    assert!(regenerate_qr(&decoded, 8).is_err());
    decoded.version = 0;
    match regenerate_qr(&decoded, 0) {
        Err(qracer::error::QRacerError::QrDecode(msg)) => assert_eq!(msg, "invalid QR version: 0"),
        _ => panic!("expected an error"),
    }
}

#[test]
fn ecc_labels_round_trip() {
    for ecc in [QrEcc::L, QrEcc::M, QrEcc::Q, QrEcc::H] {
        assert_eq!(QrEcc::from_label(ecc.label()), Some(ecc));
    }
    assert_eq!(QrEcc::from_label("  Q\n"), Some(QrEcc::Q));
    assert_eq!(QrEcc::from_label("QQ"), None);
    assert_eq!(QrEcc::from_format_bits(0), Some(QrEcc::M));
    assert_eq!(QrEcc::from_format_bits(2), Some(QrEcc::H));
    assert_eq!(QrEcc::from_format_bits(4), None);
}

#[test]
fn format_words_survive_three_bit_errors() {
    for ecc_bits in 0..4u32 {
        for mask in 0..8u32 {
            let code = format_code(ecc_bits, mask);
            let decoded = decode_format_code(code ^ 0b100_0100_0000_0001).unwrap();
            assert_eq!(decoded.mask as u32, mask);
            assert_eq!(decoded.ecc, QrEcc::from_format_bits(ecc_bits as u8).unwrap());
            assert_eq!(decoded.distance, 3);
        }
    }
    assert_eq!(format_code(1, 0), 0x77c4);
}

#[test]
fn versions_and_side_lengths_correspond() {
    for v in 1..=40u8 {
        assert_eq!(version_for_modules(qr_modules_for_version(v)), Some(v));
    }
    assert_eq!(version_for_modules(23), None);
    assert_eq!(version_for_modules(181), None);
    assert_eq!(module_count_candidates(5), vec![41, 37, 45, 33, 49]);
    assert_eq!(module_count_candidates(0), vec![21, 25, 29]);
    assert_eq!(module_count_candidates(39), vec![177, 173, 169]);
}
