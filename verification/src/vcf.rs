//! Field parsers for the variant-call text format.

pub mod contig_tag;
pub mod info;
pub mod record;
pub mod sample_value;
