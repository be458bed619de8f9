//! Verified core of a barcode restoration tool: binarisation, QR format and
//! grid sampling, mask matching, circular-code ring analysis and the pixel
//! component scans used by the detectors, and the QR session that ties them
//! together.

pub mod code_kind;
pub mod error;
pub mod pipeline;
mod raster;
pub mod codec;
pub mod text;
pub mod qr_match;
pub mod detect;
pub mod timestamp;
pub mod appearance;
pub mod session;
