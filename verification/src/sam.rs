//! Record data for the text alignment format.

pub mod data;
