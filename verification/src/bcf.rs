//! Writers for the binary variant-call format's site records.

pub mod site;
