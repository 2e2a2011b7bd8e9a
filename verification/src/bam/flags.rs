//! Record flag tests, and the decision a scan over raw records makes
//! when it looks for the unmapped ones. The reading itself — pulling the
//! next record off the compressed stream — stays with the caller; the
//! decision of what to do with each outcome stands here.

use vstd::prelude::*;

verus! {

/// The flag bit that marks a record as unmapped.
pub const FLAG_UNMAPPED: u16 = 0x04;

/// Whether the flags mark the record as unmapped.
pub fn is_unmapped(flags: u16) -> (r: bool)
    ensures
        r == (flags & FLAG_UNMAPPED != 0),
{
    flags & FLAG_UNMAPPED != 0
}

/// What a scan over records does with one read outcome.
#[derive(Clone, Copy, Debug, Eq, PartialEq, Structural)]
pub enum ScanAction {
    /// The stream is exhausted: stop.
    Stop,
    /// The record is unmapped: hand it out.
    Yield,
    /// The record is mapped: read the next one.
    Skip,
}

/// The decision an unmapped-record scan makes after one read: a read of
/// zero bytes ends the scan, an unmapped record is handed out, and any
/// other record is passed over.
pub fn unmapped_scan_step(bytes_read: usize, flags: u16) -> (r: ScanAction)
    ensures
        r == (if bytes_read == 0 {
            ScanAction::Stop
        } else if flags & FLAG_UNMAPPED != 0 {
            ScanAction::Yield
        } else {
            ScanAction::Skip
        }),
{
    if bytes_read == 0 {
        ScanAction::Stop
    } else if is_unmapped(flags) {
        ScanAction::Yield
    } else {
        ScanAction::Skip
    }
}

} // verus!
