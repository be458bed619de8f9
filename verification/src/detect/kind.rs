//! The decision between the code kinds, from what the finder searches found,
//! the colour hints and the comparisons of the polar signature.

use vstd::prelude::*;
use crate::code_kind::CodeKind;

verus! {

/// Colour hints found in the source image.
#[derive(Debug, Clone, Copy, PartialEq, Eq, Structural)]
pub struct DetectionHints {
    /// A green badge of the mini-program style.
    pub wx_badge: bool,
    /// The coloured logo of the Douyin style.
    pub douyin_logo: bool,
}

/// How the polar signature of the foreground compares: black cells continue
/// along rings (tangential) or across rings (radial).
#[derive(Debug, Clone, Copy, PartialEq, Eq, Structural)]
pub struct SignatureMarks {
    /// Tangential continuity exceeds radial continuity by more than 0.10.
    pub tangential_well_above: bool,
    /// Tangential continuity exceeds radial continuity by more than 0.035.
    pub tangential_above: bool,
    /// Radial continuity exceeds tangential continuity by more than 0.020.
    pub radial_above: bool,
    /// More than 3.5% of the polar cells are black.
    pub dense: bool,
}

/// The circular kind suggested by the circular finder searches.
pub open spec fn circular_kind_spec(has_wx: bool, has_dy: bool, signature: Option<SignatureMarks>, hints: DetectionHints) -> Option<CodeKind> {
    if !has_wx && !has_dy {
        None
    } else if has_wx && has_dy && (signature matches Some(s) && s.tangential_well_above) {
        Some(CodeKind::Douyin)
    } else if has_wx && hints.wx_badge {
        Some(CodeKind::WxMiniprogram)
    } else if has_dy && hints.douyin_logo {
        Some(CodeKind::Douyin)
    } else if has_wx && has_dy {
        match signature {
            Some(s) => if s.tangential_above {
                Some(CodeKind::Douyin)
            } else {
                Some(CodeKind::WxMiniprogram)
            },
            None => Some(CodeKind::WxMiniprogram),
        }
    } else if has_wx {
        Some(CodeKind::WxMiniprogram)
    } else {
        Some(CodeKind::Douyin)
    }
}

/// Picks the circular kind, if a circular finder search succeeded.
pub fn choose_circular_kind(has_wx: bool, has_dy: bool, signature: Option<SignatureMarks>, hints: DetectionHints) -> (r: Option<CodeKind>)
    ensures
        r == circular_kind_spec(has_wx, has_dy, signature, hints),
{
    if !has_wx && !has_dy {
        return None;
    }
    let well_above = match signature {
        Some(s) => s.tangential_well_above,
        None => false,
    };
    if has_wx && has_dy && well_above {
        return Some(CodeKind::Douyin);
    }
    if has_wx && hints.wx_badge {
        return Some(CodeKind::WxMiniprogram);
    }
    if has_dy && hints.douyin_logo {
        return Some(CodeKind::Douyin);
    }
    if has_wx && has_dy {
        if let Some(s) = signature {
            if s.tangential_above {
                return Some(CodeKind::Douyin);
            }
            if s.radial_above {
                return Some(CodeKind::WxMiniprogram);
            }
        }
        return Some(CodeKind::WxMiniprogram);
    }
    if has_wx {
        Some(CodeKind::WxMiniprogram)
    } else {
        Some(CodeKind::Douyin)
    }
}

/// Whether a circular kind is certain enough to override a QR finder
/// triplet.
pub open spec fn circular_confident_spec(kind: CodeKind, signature: Option<SignatureMarks>, hints: DetectionHints) -> bool {
    match kind {
        CodeKind::WxMiniprogram => hints.wx_badge || (signature matches Some(s) && s.dense && s.radial_above),
        CodeKind::Douyin => hints.douyin_logo || (signature matches Some(s) && s.dense && s.tangential_above),
        _ => false,
    }
}

/// Decides whether a circular kind is confident.
pub fn circular_kind_is_confident(kind: CodeKind, signature: Option<SignatureMarks>, hints: DetectionHints) -> (b: bool)
    ensures
        b == circular_confident_spec(kind, signature, hints),
{
    match kind {
        CodeKind::WxMiniprogram => {
            if hints.wx_badge {
                return true;
            }
            match signature {
                Some(s) => s.dense && s.radial_above,
                None => false,
            }
        },
        CodeKind::Douyin => {
            if hints.douyin_logo {
                return true;
            }
            match signature {
                Some(s) => s.dense && s.tangential_above,
                None => false,
            }
        },
        _ => false,
    }
}

/// The detected kind: a confident QR lattice first, then a circular kind
/// (over a plain QR triplet only when confident), then QR, else unknown.
pub open spec fn detected_kind_spec(has_qr: bool, has_qr_lattice: bool, has_wx: bool, has_dy: bool,
    signature: Option<SignatureMarks>, hints: DetectionHints) -> CodeKind
{
    if has_qr_lattice {
        CodeKind::Qr
    } else {
        match circular_kind_spec(has_wx, has_dy, signature, hints) {
            Some(k) => if !has_qr || circular_confident_spec(k, signature, hints) {
                k
            } else {
                CodeKind::Qr
            },
            None => if has_qr { CodeKind::Qr } else { CodeKind::Unknown },
        }
    }
}

/// Decides the code kind from the finder searches: `has_qr` when a QR finder
/// triplet was selected, `has_qr_lattice` when its timing and separator
/// lattice is confident, `has_wx` and `has_dy` when the circular finder
/// searches succeeded.
pub fn detect_kind_impl(has_qr: bool, has_qr_lattice: bool, has_wx: bool, has_dy: bool,
    signature: Option<SignatureMarks>, hints: DetectionHints) -> (k: CodeKind)
    ensures
        k == detected_kind_spec(has_qr, has_qr_lattice, has_wx, has_dy, signature, hints),
{
    if has_qr_lattice {
        return CodeKind::Qr;
    }
    let circular = choose_circular_kind(has_wx, has_dy, signature, hints);
    if let Some(kind) = circular {
        if !has_qr || circular_kind_is_confident(kind, signature, hints) {
            return kind;
        }
    }
    if has_qr {
        CodeKind::Qr
    } else {
        match circular {
            Some(kind) => kind,
            None => CodeKind::Unknown,
        }
    }
}

/// A confident QR lattice is always reported as QR, and with no finder of
/// any kind the code is unknown.
pub proof fn law_lattice_wins_and_nothing_is_unknown(has_qr: bool, has_wx: bool, has_dy: bool,
    signature: Option<SignatureMarks>, hints: DetectionHints)
    ensures
        detected_kind_spec(has_qr, true, has_wx, has_dy, signature, hints) == CodeKind::Qr,
        detected_kind_spec(false, false, false, false, signature, hints) == CodeKind::Unknown,
{
}

/// Each detected kind rests on its own finders: a mini-program result needs
/// the mini-program finders, a Douyin result the Douyin finders and a QR
/// result a QR finder triplet.
pub proof fn law_circular_kind_needs_its_finders(has_qr: bool, has_qr_lattice: bool, has_wx: bool, has_dy: bool,
    signature: Option<SignatureMarks>, hints: DetectionHints)
    ensures
        detected_kind_spec(has_qr, has_qr_lattice, has_wx, has_dy, signature, hints) == CodeKind::WxMiniprogram ==> has_wx,
        detected_kind_spec(has_qr, has_qr_lattice, has_wx, has_dy, signature, hints) == CodeKind::Douyin ==> has_dy,
        detected_kind_spec(has_qr, has_qr_lattice, has_wx, has_dy, signature, hints) == CodeKind::Qr ==> has_qr || has_qr_lattice,
{
}

/// A colour hint makes its own kind confident whatever the signature, and
/// it decides the detection whenever that kind's finders were found, no QR
/// lattice is confident and the other kind's own evidence does not take
/// precedence.
pub proof fn law_colour_hints_decide_their_kind(has_qr: bool, has_qr_lattice: bool, has_wx: bool, has_dy: bool,
    signature: Option<SignatureMarks>, hints: DetectionHints)
    ensures
        hints.douyin_logo ==> circular_confident_spec(CodeKind::Douyin, signature, hints),
        hints.wx_badge ==> circular_confident_spec(CodeKind::WxMiniprogram, signature, hints),
        !hints.douyin_logo && !hints.wx_badge && signature is None ==> !circular_confident_spec(CodeKind::Douyin, signature, hints)
            && !circular_confident_spec(CodeKind::WxMiniprogram, signature, hints),
        !has_qr_lattice && has_dy && hints.douyin_logo && !(has_wx && hints.wx_badge)
            ==> detected_kind_spec(has_qr, has_qr_lattice, has_wx, has_dy, signature, hints) == CodeKind::Douyin,
        !has_qr_lattice && has_wx && hints.wx_badge && !(has_dy && (signature matches Some(s) && s.tangential_well_above))
            ==> detected_kind_spec(has_qr, has_qr_lattice, has_wx, has_dy, signature, hints) == CodeKind::WxMiniprogram,
{
}

/// How the circular kinds are told apart: with only one kind's finders that
/// kind is reported; with both, a strongly tangential signature means
/// Douyin, then the mini-program badge, then the Douyin logo, then a
/// tangential signature means Douyin and anything else the mini-program
/// code; with neither, no circular kind.
pub proof fn law_circular_kind_choice(has_wx: bool, has_dy: bool, signature: Option<SignatureMarks>, hints: DetectionHints)
    ensures
        has_wx && !has_dy ==> circular_kind_spec(has_wx, has_dy, signature, hints) == Some(CodeKind::WxMiniprogram),
        !has_wx && has_dy ==> circular_kind_spec(has_wx, has_dy, signature, hints) == Some(CodeKind::Douyin),
        !has_wx && !has_dy ==> circular_kind_spec(has_wx, has_dy, signature, hints) is None,
        has_wx && has_dy ==> circular_kind_spec(has_wx, has_dy, signature, hints) == Some(
            if signature matches Some(s) && s.tangential_well_above { CodeKind::Douyin }
            else if hints.wx_badge { CodeKind::WxMiniprogram }
            else if hints.douyin_logo { CodeKind::Douyin }
            else if signature matches Some(s) && s.tangential_above { CodeKind::Douyin }
            else { CodeKind::WxMiniprogram }),
{
}

/// Without a colour hint, a circular kind is confident only when more than
/// 3.5% of the polar cells are black and the continuity points its way
/// (radial for the mini-program code, tangential for Douyin); QR and unknown
/// are never confident circular kinds.
pub proof fn law_signature_confidence(signature: Option<SignatureMarks>, hints: DetectionHints)
    ensures
        !hints.wx_badge ==> (circular_confident_spec(CodeKind::WxMiniprogram, signature, hints)
            <==> (signature matches Some(s) && s.dense && s.radial_above)),
        !hints.douyin_logo ==> (circular_confident_spec(CodeKind::Douyin, signature, hints)
            <==> (signature matches Some(s) && s.dense && s.tangential_above)),
        !circular_confident_spec(CodeKind::Qr, signature, hints),
        !circular_confident_spec(CodeKind::Unknown, signature, hints),
{
}

} // verus!
