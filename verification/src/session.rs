//! The QR state of the restoration session: the corrected image, the decoded
//! content, the sampled reference grid and the regenerated matrix, and how
//! the user's choices (mask, grid fallback, automatic mask) move between them.

use vstd::prelude::*;
use vstd::string::StringExecFns;
use crate::codec::qr::{QrDecoded, QrMatrix, matrix_view, ecc_label, regenerate_qr, regenerate_spec,
    estimate_module_count_spec, version_for_modules_spec, version_for_modules};
use crate::codec::qr_grid::{sample_qr_grid, sampled_grid_matrix, infer_qr_version};
use crate::error::QRacerError;
use crate::qr_match::{MaskChoice, same_shape, diff_positions, matrix_bounded, compute_matrix_diff, law_no_diff_iff_equal,
    stabilize_grid_matrix, stabilized_spec, choose_matching_qr_mask, chosen_candidate,
    lemma_chosen_candidate_shape, law_chosen_differs_only_in_ignored_regions, ignored_diff_spec, with_ecc,
    status_text_spec, qr_mask_status_text};
use crate::pipeline::preprocess::BinaryImage;
use crate::text::{decimal, message_with_number};

verus! {

/// The QR part of a restoration session.
pub struct QrSession {
    /// The perspective-corrected, binarised symbol.
    pub warped: Option<BinaryImage>,
    /// What was decoded from the symbol.
    pub last_decoded: Option<QrDecoded>,
    /// The version in use.
    pub qr_version: Option<u8>,
    /// The matrix sampled from the corrected image.
    pub qr_reference_matrix: Option<QrMatrix>,
    /// The mask whose regeneration matched the sampled matrix.
    pub matched_mask: Option<u8>,
    /// How the generated matrix is produced.
    pub mask_choice: MaskChoice,
    /// The generated matrix.
    pub last_matrix: Option<QrMatrix>,
    /// Modules where the generated matrix differs from the sampled one.
    pub last_diff_count: Option<u32>,
    /// The status line shown to the user.
    pub status: String,
}

/// A session as plain values.
#[verifier::ext_equal]
pub struct QrSessionView {
    pub warped: Option<BinaryImage>,
    pub decoded: Option<QrDecoded>,
    pub version: Option<u8>,
    pub reference: Option<Seq<Seq<bool>>>,
    pub matched_mask: Option<u8>,
    pub mask_choice: MaskChoice,
    pub matrix: Option<Seq<Seq<bool>>>,
    pub diff_count: Option<u32>,
    pub status: Seq<char>,
}

/// An optional matrix as rows of modules.
pub open spec fn opt_matrix(m: Option<QrMatrix>) -> Option<Seq<Seq<bool>>> {
    match m {
        Some(x) => Some(matrix_view(&x)),
        None => None,
    }
}

impl View for QrSession {
    type V = QrSessionView;

    open spec fn view(&self) -> QrSessionView {
        QrSessionView {
            warped: self.warped,
            decoded: self.last_decoded,
            version: self.qr_version,
            reference: opt_matrix(self.qr_reference_matrix),
            matched_mask: self.matched_mask,
            mask_choice: self.mask_choice,
            matrix: opt_matrix(self.last_matrix),
            diff_count: self.last_diff_count,
            status: self.status@,
        }
    }
}

/// The corrected image is well formed and both matrices have dimensions
/// that fit the difference scan.
pub open spec fn session_wf(v: QrSessionView) -> bool {
    &&& (v.warped matches Some(w) ==> w.wf())
    &&& (v.reference matches Some(r) ==> matrix_bounded(r))
    &&& (v.matrix matches Some(m) ==> matrix_bounded(m))
}

impl QrSession {
    /// The session invariant.
    pub open spec fn wf(&self) -> bool {
        session_wf(self@)
    }
}

/// The session before any image was processed.
pub open spec fn initial_view() -> QrSessionView {
    QrSessionView {
        warped: None,
        decoded: None,
        version: None,
        reference: None,
        matched_mask: None,
        mask_choice: MaskChoice::Mask(0),
        matrix: None,
        diff_count: None,
        status: "粘贴截图（Ctrl+V）或点击 [打开...] 开始"@,
    }
}

/// How the current mask relates to the matched one.
pub open spec fn mask_text_spec(mask: u8, matched: Option<u8>) -> Seq<char> {
    if matched == Some(mask) {
        "原掩膜 "@ + decimal(mask as nat)
    } else if matched is None {
        "当前掩膜 "@ + decimal(mask as nat) + "，无匹配掩膜"@
    } else {
        "掩膜 "@ + decimal(mask as nat)
    }
}

/// The first part of the status line: where the generated matrix comes from.
pub open spec fn mode_text_spec(v: QrSessionView) -> Seq<char> {
    match v.mask_choice {
        MaskChoice::Mask(m) => match v.decoded {
            Some(d) => "已解码 QR：V"@ + decimal(d.version as nat) + " / ECC "@ + ecc_label(d.ecc) + " / "@
                + mask_text_spec(m, v.matched_mask),
            None => "QR 掩膜重生成：掩膜 "@ + decimal(m as nat),
        },
        MaskChoice::GridFallback => match v.version {
            Some(ver) => "使用网格像素匹配：V"@ + decimal(ver as nat),
            None => "使用网格像素匹配"@,
        },
    }
}

/// The end of the status line: the number of differing modules.
pub open spec fn diff_suffix(n: nat) -> Seq<char> {
    "，差异 "@ + decimal(n) + " 个模块（红色=原图有生成图没有，蓝色=原图没有生成图有）"@
}

/// Differences between the sampled and the generated matrix; none when
/// nothing was sampled or the shapes differ.
pub open spec fn preview_diff_count(reference: Option<Seq<Seq<bool>>>, matrix: Seq<Seq<bool>>) -> nat {
    match reference {
        Some(r) => if same_shape(r, matrix) { diff_positions(r, matrix).len() } else { 0 },
        None => 0,
    }
}

/// The session after the preview of the generated matrix is refreshed.
pub open spec fn refresh_spec(v: QrSessionView) -> QrSessionView {
    match v.matrix {
        None => v,
        Some(m) => {
            let n = preview_diff_count(v.reference, m);
            QrSessionView { diff_count: Some(n as u32), status: mode_text_spec(v) + diff_suffix(n), ..v }
        },
    }
}

/// The session after `m` becomes the generated matrix.
pub open spec fn generated_spec(v: QrSessionView, m: Seq<Seq<bool>>) -> QrSessionView {
    refresh_spec(QrSessionView { matrix: Some(m), ..v })
}

/// The session with only its status line replaced.
pub open spec fn with_status(v: QrSessionView, s: Seq<char>) -> QrSessionView {
    QrSessionView { status: s, ..v }
}

/// The version inferred from the grid size estimated on the corrected image.
pub open spec fn inferred_version(w: BinaryImage) -> Option<u8> {
    match estimate_module_count_spec(w) {
        Some(modules) => version_for_modules_spec(modules as int),
        None => None,
    }
}

/// The version in use, else the inferred one.
pub open spec fn known_or_inferred(version: Option<u8>, w: BinaryImage) -> Option<u8> {
    match version {
        Some(v) => Some(v),
        None => inferred_version(w),
    }
}

/// The session once a reference matrix is available, and that matrix: the
/// stored one, else the grid sampled at the known or inferred version.
pub open spec fn ensure_spec(v: QrSessionView) -> (QrSessionView, Option<Seq<Seq<bool>>>) {
    match v.reference {
        Some(r) => (v, Some(r)),
        None => match v.warped {
            None => (v, None),
            Some(w) => match known_or_inferred(v.version, w) {
                None => (v, None),
                Some(ver) => if 1 <= ver <= 40 {
                    let r = sampled_grid_matrix(w, ver as int);
                    (QrSessionView { version: Some(ver), reference: Some(r), ..v }, Some(r))
                } else {
                    (v, None)
                },
            },
        },
    }
}

/// The session after regenerating the decoded content with the chosen mask.
pub open spec fn apply_mask_spec(v: QrSessionView) -> QrSessionView {
    match v.mask_choice {
        MaskChoice::GridFallback => with_status(v, "网格像素匹配将在阶段 4 接入"@),
        MaskChoice::Mask(m) => match v.decoded {
            None => with_status(v, "掩膜重生成需要先解码 QR；可使用网格像素匹配"@),
            Some(d) => {
                let v1 = ensure_spec(v).0;
                match regenerate_spec(d, m) {
                    Ok(mat) => generated_spec(v1, mat),
                    Err(msg) => QrSessionView {
                        matrix: None,
                        reference: None,
                        diff_count: None,
                        status: "QR 重生成失败：QR decode failed: "@ + msg,
                        ..v1
                    },
                }
            },
        },
    }
}

/// The mask the user picked, clamped to the eight QR masks.
pub open spec fn clamp_mask(mask: u8) -> u8 {
    if mask < 7 { mask } else { 7 }
}

/// The session after the user picks a mask.
pub open spec fn set_mask_spec(v: QrSessionView, mask: u8) -> QrSessionView {
    apply_mask_spec(QrSessionView { mask_choice: MaskChoice::Mask(clamp_mask(mask)), ..v })
}

/// The session after switching to the sampled grid, snapped to the decoded
/// regeneration when the two nearly agree.
pub open spec fn grid_fallback_spec(v: QrSessionView) -> QrSessionView {
    match v.warped {
        None => with_status(v, "还没有可用于网格像素匹配的校正图"@),
        Some(w) => match known_or_inferred(v.version, w) {
            None => with_status(v, "网格像素匹配失败：无法推断 QR 版本"@),
            Some(ver) => if 1 <= ver <= 40 {
                let sampled = sampled_grid_matrix(w, ver as int);
                let m = stabilized_spec(sampled, v.decoded, v.matched_mask);
                generated_spec(QrSessionView {
                    reference: Some(sampled),
                    version: Some(ver),
                    mask_choice: MaskChoice::GridFallback,
                    ..v
                }, m)
            } else {
                with_status(v, "网格像素匹配失败：QR decode failed: invalid QR version: "@ + decimal(ver as nat))
            },
        },
    }
}

/// The session after choosing the level and mask whose regeneration matches
/// the sampled matrix, or the grid fallback when none does.
pub open spec fn auto_select_spec(v: QrSessionView) -> QrSessionView {
    match v.decoded {
        None => with_status(v, "还没有可用的 QR 解码结果"@),
        Some(d) => {
            let (v1, r) = ensure_spec(v);
            match r {
                None => with_status(v1, "还没有可用于对比的校正采样矩阵"@),
                Some(reference) => match chosen_candidate(d, reference) {
                    None => grid_fallback_spec(QrSessionView { matched_mask: None, ..v1 }),
                    Some(c) => generated_spec(QrSessionView {
                        mask_choice: MaskChoice::Mask(c.1),
                        matched_mask: Some(c.1),
                        ..v1
                    }, c.2),
                },
            }
        },
    }
}

proof fn lemma_same_shape_bounded(a: Seq<Seq<bool>>, b: Seq<Seq<bool>>)
    requires
        matrix_bounded(a),
        same_shape(a, b),
    ensures
        matrix_bounded(b),
{
    assert forall|i: int| 0 <= i < b.len() implies (#[trigger] b[i]).len() <= 0xffff by {
        assert(a[i].len() == b[i].len());
    }
}

/// A sampled grid has at most 177 rows of 177 modules.
pub proof fn lemma_sampled_grid_bounded(w: BinaryImage, ver: int)
    requires
        1 <= ver <= 40,
    ensures
        matrix_bounded(sampled_grid_matrix(w, ver)),
        sampled_grid_matrix(w, ver).len() == (ver - 1) * 4 + 21,
{
}

/// A copy of a matrix.
pub fn copy_matrix(m: &QrMatrix) -> (r: QrMatrix)
    ensures
        matrix_view(&r) == matrix_view(m),
{
    let mut out: Vec<Vec<bool>> = Vec::new();
    let mut y: usize = 0;
    while y < m.len()
        invariant
            y <= m.len(),
            out@.len() == y,
            forall|k: int| 0 <= k < y ==> (#[trigger] out@[k])@ == m@[k]@,
        decreases m.len() - y,
    {
        let row = &m[y];
        let mut copy: Vec<bool> = Vec::new();
        let mut x: usize = 0;
        while x < row.len()
            invariant
                x <= row.len(),
                copy@ == row@.take(x as int),
            decreases row.len() - x,
        {
            copy.push(row[x]);
            assert(copy@ =~= row@.take(x as int + 1));
            x = x + 1;
        }
        assert(copy@ =~= row@);
        out.push(copy);
        y = y + 1;
    }
    assert(matrix_view(&out) =~= matrix_view(m));
    out
}

/// Counts the differences of `m` from the sampled matrix, if any.
fn diff_count_against(reference: &Option<QrMatrix>, m: &QrMatrix) -> (n: u32)
    requires
        matrix_bounded(matrix_view(m)),
    ensures
        n == preview_diff_count(opt_matrix(*reference), matrix_view(m)),
{
    match reference {
        Some(r) => match compute_matrix_diff(r, m) {
            Some(d) => d.diff_count,
            None => 0,
        },
        None => 0,
    }
}

/// A decode outcome with its error rendered as text.
pub open spec fn outcome_view(r: Result<QrDecoded, String>) -> Result<QrDecoded, Seq<char>> {
    match r {
        Ok(d) => Ok(d),
        Err(e) => Err(e@),
    }
}

/// The grid sampled at version `ver`, when that is a QR version.
pub open spec fn sampled_at(w: BinaryImage, ver: int) -> Option<Seq<Seq<bool>>> {
    if 1 <= ver <= 40 { Some(sampled_grid_matrix(w, ver)) } else { None }
}

/// The session right after the corrected image is available.
pub open spec fn processed_base(warped: BinaryImage) -> QrSessionView {
    QrSessionView {
        warped: Some(warped),
        decoded: None,
        version: inferred_version(warped),
        reference: None,
        matched_mask: None,
        mask_choice: MaskChoice::Mask(0),
        matrix: None,
        diff_count: None,
        status: "图像已加载；未识别到支持的码类型"@,
    }
}

/// The status line after a decode whose regenerations all mismatch.
pub open spec fn unmatched_status(d: QrDecoded, n: nat) -> Seq<char> {
    "已解码 QR：V"@ + decimal(d.version as nat) + " / ECC "@ + ecc_label(d.ecc)
        + " / 无匹配掩膜，已自动使用网格像素匹配"@ + diff_suffix(n)
}

/// The session after a successful decode: the matching regeneration, else
/// the sampled grid.
pub open spec fn decoded_spec(base: QrSessionView, warped: BinaryImage, d: QrDecoded) -> QrSessionView {
    let reference = sampled_at(warped, d.version as int);
    let chosen = match reference {
        Some(r) => chosen_candidate(d, r),
        None => None,
    };
    match chosen {
        Some(c) => {
            let d2 = with_ecc(d, c.0);
            let n = preview_diff_count(reference, c.2);
            QrSessionView {
                decoded: Some(d2),
                version: Some(d.version),
                reference,
                mask_choice: MaskChoice::Mask(c.1),
                matched_mask: Some(c.1),
                matrix: Some(c.2),
                diff_count: Some(n as u32),
                status: status_text_spec(d2, c.1, Some(c.1), n as u32, 0),
                ..base
            }
        },
        None => {
            let b2 = QrSessionView {
                decoded: Some(d),
                version: Some(d.version),
                reference,
                matched_mask: None,
                mask_choice: MaskChoice::GridFallback,
                ..base
            };
            match reference {
                Some(m) => {
                    let n = preview_diff_count(reference, m);
                    QrSessionView { matrix: Some(m), diff_count: Some(n as u32), status: unmatched_status(d, n), ..b2 }
                },
                None => with_status(b2, "已解码 QR，但 8 种掩膜均不匹配，且网格像素匹配失败：无法采样校正图"@),
            }
        },
    }
}

/// The session after a failed decode: the sampled grid at the inferred
/// version (or the one the finder spacing suggests), else only a status.
pub open spec fn undecoded_spec(base: QrSessionView, warped: BinaryImage, e: Seq<char>, finder_modules: Option<usize>) -> QrSessionView {
    let fv = match base.version {
        Some(v) => Some(v),
        None => match finder_modules {
            Some(mm) => version_for_modules_spec(mm as int),
            None => None,
        },
    };
    let failed = with_status(base, match base.version {
        Some(v) => "已完成 QR 校正并推断版本 V"@ + decimal(v as nat) + "，但解码失败："@ + e + "；可使用网格像素匹配"@,
        None => "已完成 QR 校正，但解码失败："@ + e,
    });
    match fv {
        Some(v) => if 1 <= v <= 40 {
            let m = sampled_grid_matrix(warped, v as int);
            let n = preview_diff_count(Some(m), m);
            QrSessionView {
                version: Some(v),
                reference: Some(m),
                matched_mask: None,
                mask_choice: MaskChoice::GridFallback,
                matrix: Some(m),
                diff_count: Some(n as u32),
                status: "已完成 QR 校正并推断版本 V"@ + decimal(v as nat) + "，但解码失败："@ + e + "；已自动使用网格像素匹配"@,
                ..base
            }
        } else {
            failed
        },
        None => failed,
    }
}

/// The session once the corrected image was decoded (or not).
pub open spec fn process_spec(warped: BinaryImage, decoded: Result<QrDecoded, Seq<char>>, finder_modules: Option<usize>) -> QrSessionView {
    let base = processed_base(warped);
    match decoded {
        Ok(d) => decoded_spec(base, warped, d),
        Err(e) => undecoded_spec(base, warped, e, finder_modules),
    }
}

fn mask_text(mask: u8, matched: Option<u8>) -> (s: String)
    ensures
        s@ == mask_text_spec(mask, matched),
{
    if matched == Some(mask) {
        message_with_number("原掩膜 ", mask as u64)
    } else if matched.is_none() {
        let mut s = message_with_number("当前掩膜 ", mask as u64);
        s.append("，无匹配掩膜");
        s
    } else {
        message_with_number("掩膜 ", mask as u64)
    }
}

fn diff_suffix_text(n: u32) -> (s: String)
    ensures
        s@ == diff_suffix(n as nat),
{
    let mut s = message_with_number("，差异 ", n as u64);
    s.append(" 个模块（红色=原图有生成图没有，蓝色=原图没有生成图有）");
    s
}

impl QrSession {
    /// A session with nothing loaded yet.
    pub fn new() -> (s: QrSession)
        ensures
            s.wf(),
            s@ == initial_view(),
    {
        QrSession {
            warped: None,
            last_decoded: None,
            qr_version: None,
            qr_reference_matrix: None,
            matched_mask: None,
            mask_choice: MaskChoice::Mask(0),
            last_matrix: None,
            last_diff_count: None,
            status: "粘贴截图（Ctrl+V）或点击 [打开...] 开始".to_owned(),
        }
    }

    fn mode_text(&self) -> (s: String)
        ensures
            s@ == mode_text_spec(self@),
    {
        match self.mask_choice {
            MaskChoice::Mask(m) => match &self.last_decoded {
                Some(d) => {
                    let mut s = message_with_number("已解码 QR：V", d.version as u64);
                    s.append(" / ECC ");
                    s.append(d.ecc.label());
                    s.append(" / ");
                    let t = mask_text(m, self.matched_mask);
                    s.append(t.as_str());
                    s
                },
                None => message_with_number("QR 掩膜重生成：掩膜 ", m as u64),
            },
            MaskChoice::GridFallback => match self.qr_version {
                Some(ver) => message_with_number("使用网格像素匹配：V", ver as u64),
                None => "使用网格像素匹配".to_owned(),
            },
        }
    }

    /// Recounts the differences of the generated matrix from the sampled
    /// one and rewrites the status line.
    pub fn refresh_generated_preview(&mut self)
        requires
            old(self).wf(),
        ensures
            final(self).wf(),
            final(self)@ == refresh_spec(old(self)@),
    {
        let n: u32 = match &self.last_matrix {
            None => return,
            Some(m) => diff_count_against(&self.qr_reference_matrix, m),
        };
        let mut s = self.mode_text();
        let suffix = diff_suffix_text(n);
        s.append(suffix.as_str());
        self.last_diff_count = Some(n);
        self.status = s;
    }

    /// Makes `matrix` the generated matrix and refreshes the preview.
    pub fn set_generated_artifacts(&mut self, matrix: QrMatrix)
        requires
            old(self).wf(),
            matrix_bounded(matrix_view(&matrix)),
        ensures
            final(self).wf(),
            final(self)@ == generated_spec(old(self)@, matrix_view(&matrix)),
    {
        self.last_matrix = Some(matrix);
        self.refresh_generated_preview();
    }

    /// The sampled reference matrix, sampling it first at the known or
    /// inferred version when none is stored.
    pub fn ensure_qr_reference_matrix(&mut self) -> (r: Option<QrMatrix>)
        requires
            old(self).wf(),
        ensures
            final(self).wf(),
            final(self)@ == ensure_spec(old(self)@).0,
            opt_matrix(r) == ensure_spec(old(self)@).1,
    {
        if let Some(m) = &self.qr_reference_matrix {
            return Some(copy_matrix(m));
        }
        let matrix = match &self.warped {
            None => return None,
            Some(w) => {
                let version = match self.qr_version {
                    Some(v) => v,
                    None => match infer_qr_version(w) {
                        Ok(v) => v,
                        Err(_) => return None,
                    },
                };
                match sample_qr_grid(w, version) {
                    Ok(m) => {
                        proof { lemma_sampled_grid_bounded(*w, version as int); }
                        self.qr_version = Some(version);
                        m
                    },
                    Err(_) => return None,
                }
            },
        };
        let copy = copy_matrix(&matrix);
        self.qr_reference_matrix = Some(matrix);
        Some(copy)
    }

    /// Regenerates the decoded content with the chosen mask.
    pub fn apply_current_mask(&mut self)
        requires
            old(self).wf(),
        ensures
            final(self).wf(),
            final(self)@ == apply_mask_spec(old(self)@),
    {
        let mask = match self.mask_choice {
            MaskChoice::Mask(m) => m,
            MaskChoice::GridFallback => {
                self.status = "网格像素匹配将在阶段 4 接入".to_owned();
                return;
            },
        };
        if self.last_decoded.is_none() {
            self.status = "掩膜重生成需要先解码 QR；可使用网格像素匹配".to_owned();
            return;
        }
        let _ = self.ensure_qr_reference_matrix();
        let regenerated = match &self.last_decoded {
            Some(d) => regenerate_qr(d, mask),
            None => return,
        };
        match regenerated {
            Ok(matrix) => {
                proof {
                    assert forall|k: int| 0 <= k < matrix_view(&matrix).len() implies (#[trigger] matrix_view(&matrix)[k]).len() <= 0xffff by {
                        assert(matrix_view(&matrix)[k] == matrix@[k]@);
                    }
                }
                self.set_generated_artifacts(matrix);
            },
            Err(e) => {
                self.last_matrix = None;
                self.qr_reference_matrix = None;
                self.last_diff_count = None;
                let mut s = "QR 重生成失败：QR decode failed: ".to_owned();
                match e {
                    QRacerError::QrDecode(msg) => s.append(msg.as_str()),
                    _ => {},
                }
                self.status = s;
            },
        }
    }

    /// Picks a mask (clamped to 7) and regenerates with it.
    pub fn set_mask(&mut self, mask: u8)
        requires
            old(self).wf(),
        ensures
            final(self).wf(),
            final(self)@ == set_mask_spec(old(self)@, mask),
    {
        let m = if mask < 7 { mask } else { 7 };
        self.mask_choice = MaskChoice::Mask(m);
        self.apply_current_mask();
    }

    /// Uses the grid sampled from the corrected image as the generated
    /// matrix.
    pub fn use_grid_fallback(&mut self)
        requires
            old(self).wf(),
        ensures
            final(self).wf(),
            final(self)@ == grid_fallback_spec(old(self)@),
    {
        let sampled = match &self.warped {
            None => {
                self.status = "还没有可用于网格像素匹配的校正图".to_owned();
                return;
            },
            Some(w) => {
                let version = match self.qr_version {
                    Some(v) => v,
                    None => match infer_qr_version(w) {
                        Ok(v) => v,
                        Err(_) => {
                            self.status = "网格像素匹配失败：无法推断 QR 版本".to_owned();
                            return;
                        },
                    },
                };
                match sample_qr_grid(w, version) {
                    Ok(m) => {
                        proof { lemma_sampled_grid_bounded(*w, version as int); }
                        (m, version)
                    },
                    Err(_) => {
                        self.status = message_with_number("网格像素匹配失败：QR decode failed: invalid QR version: ", version as u64);
                        return;
                    },
                }
            },
        };
        let (matrix, version) = sampled;
        let reference = copy_matrix(&matrix);
        let stabilized = stabilize_grid_matrix(matrix, self.last_decoded.as_ref(), self.matched_mask);
        proof {
            let a = matrix_view(&reference);
            let b = matrix_view(&stabilized);
            if b != a {
                lemma_same_shape_bounded(a, b);
            }
        }
        self.qr_reference_matrix = Some(reference);
        self.qr_version = Some(version);
        self.mask_choice = MaskChoice::GridFallback;
        self.set_generated_artifacts(stabilized);
    }
}

fn unmatched_status_text(d: &QrDecoded, n: u32) -> (s: String)
    ensures
        s@ == unmatched_status(*d, n as nat),
{
    let mut s = message_with_number("已解码 QR：V", d.version as u64);
    s.append(" / ECC ");
    s.append(d.ecc.label());
    s.append(" / 无匹配掩膜，已自动使用网格像素匹配");
    let suffix = diff_suffix_text(n);
    s.append(suffix.as_str());
    s
}

fn decode_failure_text(version: u8, error: &str, fell_back: bool) -> (s: String)
    ensures
        s@ == "已完成 QR 校正并推断版本 V"@ + decimal(version as nat) + "，但解码失败："@ + error@
            + (if fell_back { "；已自动使用网格像素匹配"@ } else { "；可使用网格像素匹配"@ }),
{
    let mut s = message_with_number("已完成 QR 校正并推断版本 V", version as u64);
    s.append("，但解码失败：");
    s.append(error);
    if fell_back {
        s.append("；已自动使用网格像素匹配");
    } else {
        s.append("；可使用网格像素匹配");
    }
    s
}

fn apply_decoded(s: &mut QrSession, d: QrDecoded)
    requires
        old(s).warped matches Some(w) && w.wf() && old(s)@ == processed_base(w),
    ensures
        final(s).wf(),
        final(s)@ == decoded_spec(old(s)@, old(s).warped->0, d),
{
    let reference = match &s.warped {
        Some(w) => match sample_qr_grid(w, d.version) {
            Ok(m) => {
                proof { lemma_sampled_grid_bounded(*w, d.version as int); }
                Some(m)
            },
            Err(_) => None,
        },
        None => return,
    };
    let chosen = match &reference {
        Some(r) => choose_matching_qr_mask(&d, r),
        None => None,
    };
    s.qr_version = Some(d.version);
    match chosen {
        Some(c) => {
            proof {
                let r = opt_matrix(reference)->0;
                lemma_chosen_candidate_shape(d, r);
                lemma_same_shape_bounded(r, matrix_view(&c.matrix));
            }
            let n = diff_count_against(&reference, &c.matrix);
            let d2 = QrDecoded { text: d.text, version: d.version, ecc: c.ecc, original_mask: d.original_mask };
            s.status = qr_mask_status_text(&d2, c.mask, Some(c.mask), n, 0);
            s.last_decoded = Some(d2);
            s.mask_choice = MaskChoice::Mask(c.mask);
            s.matched_mask = Some(c.mask);
            s.last_matrix = Some(c.matrix);
            s.last_diff_count = Some(n);
            s.qr_reference_matrix = reference;
        },
        None => {
            s.mask_choice = MaskChoice::GridFallback;
            match reference {
                Some(m) => {
                    let copy = copy_matrix(&m);
                    let reference = Some(m);
                    let n = diff_count_against(&reference, &copy);
                    s.status = unmatched_status_text(&d, n);
                    s.last_matrix = Some(copy);
                    s.last_diff_count = Some(n);
                    s.qr_reference_matrix = reference;
                },
                None => {
                    s.status = "已解码 QR，但 8 种掩膜均不匹配，且网格像素匹配失败：无法采样校正图".to_owned();
                },
            }
            s.last_decoded = Some(d);
        },
    }
}

fn apply_undecoded(s: &mut QrSession, e: &str, finder_modules: Option<usize>)
    requires
        old(s).warped matches Some(w) && w.wf() && old(s)@ == processed_base(w),
    ensures
        final(s).wf(),
        final(s)@ == undecoded_spec(old(s)@, old(s).warped->0, e@, finder_modules),
{
    let inferred = s.qr_version;
    let fallback_version = match inferred {
        Some(v) => Some(v),
        None => match finder_modules {
            Some(mm) => version_for_modules(mm),
            None => None,
        },
    };
    let sampled = match &s.warped {
        Some(w) => match fallback_version {
            Some(v) => match sample_qr_grid(w, v) {
                Ok(m) => {
                    proof { lemma_sampled_grid_bounded(*w, v as int); }
                    Some((m, v))
                },
                Err(_) => None,
            },
            None => None,
        },
        None => return,
    };
    match sampled {
        Some((m, v)) => {
            let copy = copy_matrix(&m);
            let reference = Some(m);
            let n = diff_count_against(&reference, &copy);
            s.qr_version = Some(v);
            s.qr_reference_matrix = reference;
            s.mask_choice = MaskChoice::GridFallback;
            s.last_matrix = Some(copy);
            s.last_diff_count = Some(n);
            s.status = decode_failure_text(v, e, true);
        },
        None => {
            s.status = match inferred {
                Some(v) => decode_failure_text(v, e, false),
                None => {
                    let mut t = "已完成 QR 校正，但解码失败：".to_owned();
                    t.append(e);
                    t
                },
            };
        },
    }
}

/// Builds the session from the corrected image and the outcome of decoding
/// it (its error rendered as text); `finder_modules` is the symbol size that
/// the finder spacing suggests, used when the image gives no version.
pub fn process_qr_image(warped: BinaryImage, decoded: Result<QrDecoded, String>, finder_modules: Option<usize>) -> (s: QrSession)
    requires
        warped.wf(),
    ensures
        s.wf(),
        s@ == process_spec(warped, outcome_view(decoded), finder_modules),
{
    let inferred = match infer_qr_version(&warped) {
        Ok(v) => Some(v),
        Err(_) => None,
    };
    let mut s = QrSession {
        warped: Some(warped),
        last_decoded: None,
        qr_version: inferred,
        qr_reference_matrix: None,
        matched_mask: None,
        mask_choice: MaskChoice::Mask(0),
        last_matrix: None,
        last_diff_count: None,
        status: "图像已加载；未识别到支持的码类型".to_owned(),
    };
    match decoded {
        Ok(d) => apply_decoded(&mut s, d),
        Err(e) => apply_undecoded(&mut s, e.as_str(), finder_modules),
    }
    s
}

impl QrSession {

    /// Chooses the level and mask whose regeneration matches the sampled
    /// matrix; without a match, falls back to the sampled grid.
    pub fn auto_select_best_mask(&mut self)
        requires
            old(self).wf(),
        ensures
            final(self).wf(),
            final(self)@ == auto_select_spec(old(self)@),
    {
        if self.last_decoded.is_none() {
            self.status = "还没有可用的 QR 解码结果".to_owned();
            return;
        }
        let reference = match self.ensure_qr_reference_matrix() {
            Some(r) => r,
            None => {
                self.status = "还没有可用于对比的校正采样矩阵".to_owned();
                return;
            },
        };
        let chosen = match &self.last_decoded {
            Some(d) => choose_matching_qr_mask(d, &reference),
            None => return,
        };
        match chosen {
            None => {
                self.matched_mask = None;
                self.use_grid_fallback();
            },
            Some(c) => {
                proof {
                    lemma_chosen_candidate_shape(self.last_decoded->0, matrix_view(&reference));
                    lemma_same_shape_bounded(matrix_view(&reference), matrix_view(&c.matrix));
                }
                self.mask_choice = MaskChoice::Mask(c.mask);
                self.matched_mask = Some(c.mask);
                self.set_generated_artifacts(c.matrix);
            },
        }
    }
}

/// Picking a mask always selects one of the eight QR masks: the requested
/// one, or mask 7 for anything larger.
pub proof fn law_set_mask_clamps(v: QrSessionView, mask: u8)
    ensures
        set_mask_spec(v, mask).mask_choice == MaskChoice::Mask(clamp_mask(mask)),
        clamp_mask(mask) <= 7,
        mask <= 7 ==> clamp_mask(mask) == mask,
{
}

/// Refreshing the preview twice gives the same session as refreshing once.
pub proof fn law_refresh_idempotent(v: QrSessionView)
    ensures
        refresh_spec(refresh_spec(v)) == refresh_spec(v),
{
    assert(refresh_spec(refresh_spec(v)) =~= refresh_spec(v));
}

/// A matrix compared with itself shows no differing module, so the sampled
/// grid used as the generated matrix is reported with zero differences.
pub proof fn law_grid_matches_itself(m: Seq<Seq<bool>>)
    ensures
        preview_diff_count(Some(m), m) == 0,
{
    assert(same_shape(m, m));
    law_no_diff_iff_equal(m, m);
}

/// When decoding succeeds and a regeneration matches, the restored matrix
/// differs from the sampled grid only in finder corners and the logo square.
pub proof fn law_restored_matrix_differs_only_in_ignored_regions(warped: BinaryImage, d: QrDecoded, finder_modules: Option<usize>)
    requires
        process_spec(warped, Ok(d), finder_modules).matched_mask is Some,
    ensures
        ({
            let v = process_spec(warped, Ok(d), finder_modules);
            &&& v.reference matches Some(r)
            &&& v.matrix matches Some(m)
            &&& forall|i: int| 0 <= i < diff_positions(r, m).len() ==> ignored_diff_spec(
                if m.len() >= 1 { m.len() as int } else { 1 },
                (#[trigger] diff_positions(r, m)[i]).0,
                diff_positions(r, m)[i].1,
            )
        }),
{
    let r = sampled_grid_matrix(warped, d.version as int);
    if 1 <= d.version <= 40 {
        lemma_sampled_grid_bounded(warped, d.version as int);
        law_chosen_differs_only_in_ignored_regions(d, r);
    }
}

} // verus!
