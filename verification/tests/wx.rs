use qracer::codec::wx_grid::{circular_transitions, nearest_version, validate_wx_line_count};
use qracer::error::QRacerError;

#[test]
fn nearest_line_count_within_tolerance() {
    assert_eq!(nearest_version(36), Some(36));
    assert_eq!(nearest_version(45), Some(36));
    assert_eq!(nearest_version(60), Some(54));
    assert_eq!(nearest_version(84), Some(72));
    assert_eq!(nearest_version(85), None);
    assert_eq!(nearest_version(23), None);
    assert_eq!(nearest_version(24), Some(36));
}

#[test]
fn ring_transitions_count_wraparound_and_are_even() {
    assert_eq!(circular_transitions(&vec![true, false, true, true]), 2);
    assert_eq!(circular_transitions(&vec![true, false, false, true, false]), 4);
    assert_eq!(circular_transitions(&vec![true; 5]), 0);
    assert_eq!(circular_transitions(&Vec::new()), 0);
    let ring: Vec<bool> = (0..720).map(|i| (i / 7) % 3 == 0).collect();
    assert_eq!(circular_transitions(&ring) % 2, 0);
}

#[test]
fn only_supported_line_counts_pass() {
    for n in [36, 54, 72] {
        assert!(validate_wx_line_count(n).is_ok());
    }
    match validate_wx_line_count(50) {
        Err(QRacerError::QrDecode(msg)) => assert_eq!(msg, "invalid mini-program line count: 50"),
        _ => panic!("expected an error"),
    }
}
