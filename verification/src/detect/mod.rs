//! Pixel scans behind the code-kind detectors (connected components and
//! colour classification) and the decision between the kinds.

pub mod flood;
pub mod regions;
pub mod color;
pub mod runs;
pub mod signature;
pub mod kind;
