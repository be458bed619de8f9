use qracer::code_kind::CodeKind;
use qracer::detect::kind::{choose_circular_kind, circular_kind_is_confident, detect_kind_impl, DetectionHints, SignatureMarks};

const NO_HINTS: DetectionHints = DetectionHints { wx_badge: false, douyin_logo: false };

fn marks(tangential_well_above: bool, tangential_above: bool, radial_above: bool, dense: bool) -> SignatureMarks {
    SignatureMarks { tangential_well_above, tangential_above, radial_above, dense }
}

#[test]
fn confident_lattice_is_qr() {
    let hints = DetectionHints { wx_badge: true, douyin_logo: true };
    assert_eq!(detect_kind_impl(true, true, true, true, None, hints), CodeKind::Qr);
    assert_eq!(detect_kind_impl(false, false, false, false, None, hints), CodeKind::Unknown);
    assert_eq!(detect_kind_impl(true, false, false, false, None, NO_HINTS), CodeKind::Qr);
}

#[test]
fn circular_kinds_follow_hints_and_signature() {
    let ring = marks(true, true, false, true);
    assert_eq!(choose_circular_kind(true, true, Some(ring), NO_HINTS), Some(CodeKind::Douyin));
    let badge = DetectionHints { wx_badge: true, douyin_logo: false };
    assert_eq!(choose_circular_kind(true, true, None, badge), Some(CodeKind::WxMiniprogram));
    let logo = DetectionHints { wx_badge: false, douyin_logo: true };
    assert_eq!(choose_circular_kind(true, true, None, logo), Some(CodeKind::Douyin));
    assert_eq!(choose_circular_kind(true, true, Some(marks(false, true, false, false)), NO_HINTS), Some(CodeKind::Douyin));
    assert_eq!(choose_circular_kind(true, true, Some(marks(false, false, true, false)), NO_HINTS), Some(CodeKind::WxMiniprogram));
    assert_eq!(choose_circular_kind(true, true, None, NO_HINTS), Some(CodeKind::WxMiniprogram));
    assert_eq!(choose_circular_kind(false, true, None, NO_HINTS), Some(CodeKind::Douyin));
    assert_eq!(choose_circular_kind(false, false, Some(ring), badge), None);
}

#[test]
fn plain_triplet_yields_only_to_confident_circular_kinds() {
    let weak = marks(false, false, true, false);
    assert!(!circular_kind_is_confident(CodeKind::WxMiniprogram, Some(weak), NO_HINTS));
    assert_eq!(detect_kind_impl(true, false, true, false, Some(weak), NO_HINTS), CodeKind::Qr);
    let strong = marks(false, false, true, true);
    assert!(circular_kind_is_confident(CodeKind::WxMiniprogram, Some(strong), NO_HINTS));
    assert_eq!(detect_kind_impl(true, false, true, false, Some(strong), NO_HINTS), CodeKind::WxMiniprogram);
    assert!(!circular_kind_is_confident(CodeKind::Qr, Some(strong), NO_HINTS));
    assert_eq!(detect_kind_impl(false, false, true, false, Some(weak), NO_HINTS), CodeKind::WxMiniprogram);
}
