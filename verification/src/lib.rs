//! Codecs and field parsers for a family of genomic file formats.
//!
//! The heart of the crate is the `cram` module: a binary container format
//! with variable-length integers, CRC-32 checksummed headers, a registry of
//! block compression methods, and a random-access index builder. Around it
//! stand field-level parsers and writers for the text and binary sibling
//! formats: SAM record data, GFF attributes, VCF records, and BCF sites.

pub mod bam;
pub mod bcf;
pub mod cram;
pub mod gff;
pub mod sam;
pub mod text;
pub mod vcf;
