use qracer::pipeline::preprocess::{
    dilate_black, erode_black, morph_close_black, morph_open_black, otsu_binarize, preprocess,
    BinaryImage, GrayImage,
};
use qrcodegen::{QrCode, QrCodeEcc};

fn gray(w: u32, h: u32, data: Vec<u8>) -> GrayImage {
    GrayImage { w, h, data }
}

#[test]
fn otsu_separates_pure_bimodal() {
    let mut data = vec![0u8; 200];
    for y in 0..10 {
        for x in 0..20 {
            data[y * 20 + x] = if x < 10 { 0 } else { 255 };
        }
    }
    let binary = otsu_binarize(&gray(20, 10, data));
    assert_eq!(binary.data[0], 0);
    assert_eq!(binary.data[19], 255);
}

#[test]
fn preprocess_keeps_qr_modules() {
    let qr = QrCode::encode_text("qracer phase 2", QrCodeEcc::Medium).unwrap();
    let (w, data) = render_qr(&qr, 6, 4);
    let bin = preprocess(&gray(w, w, data));

    let black = bin.data.iter().filter(|&&px| px == 0).count();
    assert!(black > 1000);
}

#[test]
fn binary_image_reads_white_outside() {
    let img = BinaryImage::new(2, 2, vec![0, 255, 255, 0]);
    assert_eq!(img.get(0, 0), 0);
    assert_eq!(img.get(1, 0), 255);
    assert_eq!(img.get(-1, 0), 255);
    assert_eq!(img.get(0, 2), 255);
    assert!(img.is_black(1, 1));
    assert!(!img.is_black(5, 5));
}

#[test]
fn opening_removes_single_pixel_specks() {
    // A lone black pixel disappears; a 3x3 block survives the opening.
    let mut data = vec![255u8; 8 * 8];
    data[1 * 8 + 1] = 0;
    for y in 4..7 {
        for x in 4..7 {
            data[y * 8 + x] = 0;
        }
    }
    let opened = morph_open_black(&gray(8, 8, data.clone()));
    assert_eq!(opened.data[1 * 8 + 1], 255);
    assert_eq!(opened.data[5 * 8 + 5], 0);
    assert_eq!(opened.data[4 * 8 + 4], 0);
    let eroded = erode_black(&gray(8, 8, data.clone()));
    assert_eq!(eroded.data.iter().filter(|&&v| v == 0).count(), 1);
    let dilated = dilate_black(&gray(8, 8, data));
    assert_eq!(dilated.data[0], 0);
}

#[test]
fn closing_fills_single_pixel_holes() {
    let mut data = vec![0u8; 7 * 7];
    data[3 * 7 + 3] = 255;
    let closed = morph_close_black(&gray(7, 7, data));
    assert_eq!(closed.data[3 * 7 + 3], 0);
    // Border pixels read white outside the image, so the closing erodes them.
    assert_eq!(closed.data[0], 255);
}

fn render_qr(qr: &QrCode, scale: u32, border: u32) -> (u32, Vec<u8>) {
    let size = qr.size() as u32;
    let image_size = (size + border * 2) * scale;
    let mut img = vec![255u8; (image_size * image_size) as usize];
    for y in 0..size {
        for x in 0..size {
            if qr.get_module(x as i32, y as i32) {
                let start_x = (x + border) * scale;
                let start_y = (y + border) * scale;
                for yy in start_y..start_y + scale {
                    for xx in start_x..start_x + scale {
                        img[(yy * image_size + xx) as usize] = 0;
                    }
                }
            }
        }
    }
    (image_size, img)
}
