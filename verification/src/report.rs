//! The records of a scan report.
//!
//! A report is one summary followed by extents that tile the device from
//! offset 0 to its length, in order, without gaps.

use vstd::prelude::*;

verus! {

/// The head of a report.
#[derive(Debug)]
pub struct ReportSummary {
    pub device_length: u64,
}

/// One extent of the lifted file: where it must end up on the device, and
/// where its bytes come from.
#[derive(Debug)]
pub struct ReportExtent {
    pub destination_offset: u64,
    pub length: u64,
    pub source: ExtentSource,
}

/// Where the bytes of an extent come from.
#[derive(Debug)]
pub enum ExtentSource {
    /// The extent is all zero bytes.
    Zeros,
    /// The extent is on the device at `offset`, where its bytes had the
    /// fingerprint `checksum` when the report was made.
    Offset { offset: u64, checksum: u64 },
}

} // verus!
