//! Record-level decoding for the binary alignment format.

pub mod flags;
pub mod sequence;
