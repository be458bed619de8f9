use vstd::prelude::*;

verus! {

#[verifier::external_type_specification]
#[verifier::external_body]
pub struct ExIoError(std::io::Error);

/// Errors reported by the recognition pipeline.
#[derive(Debug)]
pub enum QRacerError {
    InsufficientFinders(usize),
    UnknownCodeKind,
    QrDecode(String),
    Clipboard(String),
    Perspective(String),
    Io(std::io::Error),
    ImageFormat(String),
}

} // verus!
