use vstd::prelude::*;

verus! {

/// The kinds of code the tool can recognise.
#[derive(Debug, Clone, Copy, PartialEq, Eq, Structural)]
pub enum CodeKind {
    Unknown,
    Qr,
    WxMiniprogram,
    Douyin,
}

/// The display label of each code kind.
pub open spec fn code_kind_label(kind: CodeKind) -> Seq<char> {
    match kind {
        CodeKind::Unknown => "未识别"@,
        CodeKind::Qr => "二维码 (QR)"@,
        CodeKind::WxMiniprogram => "小程序码"@,
        CodeKind::Douyin => "抖音码"@,
    }
}

impl CodeKind {
    /// Human readable label shown in the user interface.
    pub fn label(self) -> (s: &'static str)
        ensures
            s@ == code_kind_label(self),
    {
        match self {
            CodeKind::Unknown => "未识别",
            CodeKind::Qr => "二维码 (QR)",
            CodeKind::WxMiniprogram => "小程序码",
            CodeKind::Douyin => "抖音码",
        }
    }
}

} // verus!
