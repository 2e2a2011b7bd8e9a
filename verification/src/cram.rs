//! The binary container format: variable-length integers, CRC-32
//! checksummed framing, a closed registry of block compression methods,
//! blocks, slices, containers, and the random-access index builder.

pub mod block;
pub mod codecs;
pub mod compression_header;
pub mod container;
pub mod crc;
pub mod error;
pub mod file_definition;
pub mod index;
pub mod num;
pub mod slice;
