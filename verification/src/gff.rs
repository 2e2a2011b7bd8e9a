//! Record attributes for the general feature text format.

pub mod attributes;
