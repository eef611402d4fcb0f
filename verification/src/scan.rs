//! The scanner: from the extent map of a file to the records of a report.
//!
//! The caller asks the host for the extents of the file from the current
//! offset on and hands them over one by one. For each extent the scanner says
//! which records to write and where the scan goes on.

use crate::fiemap::{
    flag_set, flags_known, has_flag, FiemapExtent, FIEMAP_EXTENT_ENCODED, FIEMAP_EXTENT_KNOWN,
    FIEMAP_EXTENT_LAST, FIEMAP_EXTENT_UNWRITTEN,
};
use crate::report::{ExtentSource, ReportExtent};
use crate::utils::{FileOps, BUFFER_LENGTH};
use vstd::prelude::*;

verus! {

/// Why an extent cannot be scanned.
#[derive(Debug, PartialEq, Eq, Structural)]
pub enum ScanError {
    /// The extent has a flag that the scanner does not know.
    UnknownExtentFlag,
    /// The extent begins before the offset that the scan has reached.
    ExtentOutOfOrder,
    /// The extent begins at or beyond the end of the file.
    ExtentBeyondFile,
    /// The bytes of the extent cannot be read from the device as they are.
    EncodedExtent,
    /// The extent has no bytes.
    EmptyExtent,
    /// The extent ends beyond the largest offset of a device.
    PhysicalOverflow,
    /// The device does not hold the bytes of the file where the extent says.
    DeviceDiffers,
}

/// What stands in the file where an extent is mapped.
#[derive(Debug)]
pub enum ScanBody {
    /// Space without data: a record of zeros.
    Zeros(ReportExtent),
    /// Data on the device. The caller compares the `length` bytes of the file
    /// at `logical` with those of the device at `physical`, fingerprints
    /// them, and writes the record that `record` makes of the fingerprint.
    Data { logical: u64, physical: u64, length: u64 },
}

/// The records of one extent and the offset at which the scan goes on.
#[derive(Debug)]
pub struct ScanStep {
    /// The hole before the extent, if there is one.
    pub gap: Option<ReportExtent>,
    /// The extent itself.
    pub body: ScanBody,
    /// The rest of the file, if the extent is the last and does not end the
    /// file.
    pub tail: Option<ReportExtent>,
    /// The offset up to which the file is now covered.
    pub next_offset: u64,
}

/// A record of zeros for the `length` bytes at `destination_offset`.
pub open spec fn zeros_record(destination_offset: int, length: int) -> ReportExtent {
    ReportExtent {
        destination_offset: destination_offset as u64,
        length: length as u64,
        source: ExtentSource::Zeros,
    }
}

/// The number of bytes of `extent` that lie inside a file of `file_length`
/// bytes.
pub open spec fn readable_length(extent: FiemapExtent, file_length: u64) -> int {
    if file_length - extent.fe_logical < extent.fe_length {
        file_length - extent.fe_logical
    } else {
        extent.fe_length as int
    }
}

/// What keeps the scan from taking `extent` when it has reached
/// `file_offset` of `file_length` bytes.
pub open spec fn scan_fault(file_offset: u64, file_length: u64, extent: FiemapExtent) -> Option<
    ScanError,
> {
    if extent.fe_flags & !FIEMAP_EXTENT_KNOWN != 0 {
        Some(ScanError::UnknownExtentFlag)
    } else if extent.fe_logical < file_offset {
        Some(ScanError::ExtentOutOfOrder)
    } else if extent.fe_logical >= file_length {
        Some(ScanError::ExtentBeyondFile)
    } else if has_flag(extent.fe_flags, FIEMAP_EXTENT_ENCODED) {
        Some(ScanError::EncodedExtent)
    } else if extent.fe_length == 0 {
        Some(ScanError::EmptyExtent)
    } else if !has_flag(extent.fe_flags, FIEMAP_EXTENT_UNWRITTEN) && extent.fe_physical
        + readable_length(extent, file_length) > u64::MAX {
        Some(ScanError::PhysicalOverflow)
    } else {
        None
    }
}

/// The step that the scan takes for a sound `extent`.
pub open spec fn scan_step(file_offset: u64, file_length: u64, extent: FiemapExtent) -> ScanStep {
    let readable = readable_length(extent, file_length);
    let end = extent.fe_logical + readable;
    let last = has_flag(extent.fe_flags, FIEMAP_EXTENT_LAST);
    ScanStep {
        gap: if extent.fe_logical > file_offset {
            Some(zeros_record(file_offset as int, extent.fe_logical - file_offset))
        } else {
            None
        },
        body: if has_flag(extent.fe_flags, FIEMAP_EXTENT_UNWRITTEN) {
            ScanBody::Zeros(zeros_record(extent.fe_logical as int, readable))
        } else {
            ScanBody::Data {
                logical: extent.fe_logical,
                physical: extent.fe_physical,
                length: readable as u64,
            }
        },
        tail: if last && end < file_length {
            Some(zeros_record(end, file_length - end))
        } else {
            None
        },
        next_offset: if last {
            file_length
        } else {
            end as u64
        },
    }
}

impl ScanBody {
    /// Where the body begins in the file.
    pub open spec fn start(self) -> u64 {
        match self {
            ScanBody::Zeros(record) => record.destination_offset,
            ScanBody::Data { logical, .. } => logical,
        }
    }

    /// The number of bytes of the body.
    pub open spec fn len(self) -> u64 {
        match self {
            ScanBody::Zeros(record) => record.length,
            ScanBody::Data { length, .. } => length,
        }
    }

    /// The record of the body, given the fingerprint of its data.
    pub fn record(&self, checksum: u64) -> (record: ReportExtent)
        ensures
            record.destination_offset == self.start(),
            record.length == self.len(),
            record.source == (match *self {
                ScanBody::Zeros(_) => ExtentSource::Zeros,
                ScanBody::Data { physical, .. } => ExtentSource::Offset { offset: physical, checksum },
            }),
    {
        match self {
            ScanBody::Zeros(zeros) => ReportExtent {
                destination_offset: zeros.destination_offset,
                length: zeros.length,
                source: ExtentSource::Zeros,
            },
            ScanBody::Data { logical, physical, length } => ReportExtent {
                destination_offset: *logical,
                length: *length,
                source: ExtentSource::Offset { offset: *physical, checksum },
            },
        }
    }
}

/// Takes the next extent of the file into the scan.
///
/// The scan has covered the file up to `file_offset`, and `extent` is the
/// next extent that the host reports. The records of the step cover the file
/// from `file_offset` to the next offset of the step, without gaps.
pub fn do_scan(file_offset: u64, file_length: u64, extent: &FiemapExtent) -> (outcome: Result<
    ScanStep,
    ScanError,
>)
    ensures
        match outcome {
            Err(fault) => scan_fault(file_offset, file_length, *extent) == Some(fault),
            Ok(step) => {
                &&& scan_fault(file_offset, file_length, *extent) is None
                &&& step == scan_step(file_offset, file_length, *extent)
                &&& file_offset < step.next_offset <= file_length
            },
        },
{
    if !flags_known(extent.fe_flags) {
        return Err(ScanError::UnknownExtentFlag);
    }
    if extent.fe_logical < file_offset {
        return Err(ScanError::ExtentOutOfOrder);
    }
    if extent.fe_logical >= file_length {
        return Err(ScanError::ExtentBeyondFile);
    }
    if flag_set(extent.fe_flags, FIEMAP_EXTENT_ENCODED) {
        return Err(ScanError::EncodedExtent);
    }
    if extent.fe_length == 0 {
        return Err(ScanError::EmptyExtent);
    }
    let gap = if extent.fe_logical > file_offset {
        Some(
            ReportExtent {
                destination_offset: file_offset,
                length: extent.fe_logical - file_offset,
                source: ExtentSource::Zeros,
            },
        )
    } else {
        None
    };
    let readable_length = if file_length - extent.fe_logical < extent.fe_length {
        file_length - extent.fe_logical
    } else {
        extent.fe_length
    };

    let body = if flag_set(extent.fe_flags, FIEMAP_EXTENT_UNWRITTEN) {
        ScanBody::Zeros(
            ReportExtent {
                destination_offset: extent.fe_logical,
                length: readable_length,
                source: ExtentSource::Zeros,
            },
        )
    } else {
        if extent.fe_physical > u64::MAX - readable_length {
            return Err(ScanError::PhysicalOverflow);
        }
        ScanBody::Data {
            logical: extent.fe_logical,
            physical: extent.fe_physical,
            length: readable_length,
        }
    };

    let end = extent.fe_logical + readable_length;
    if flag_set(extent.fe_flags, FIEMAP_EXTENT_LAST) {
        let tail = if end < file_length {
            Some(
                ReportExtent {
                    destination_offset: end,
                    length: file_length - end,
                    source: ExtentSource::Zeros,
                },
            )
        } else {
            None
        };
        Ok(ScanStep { gap, body, tail, next_offset: file_length })
    } else {
        Ok(ScanStep { gap, body, tail: None, next_offset: end })
    }
}

/// Confirms that the chunk of the file in the first buffer of `fops` is the
/// chunk of the device in the second.
pub fn confirm_chunk(fops: &FileOps, length: usize) -> (outcome: Result<(), ScanError>)
    requires
        fops.wf(),
        length <= BUFFER_LENGTH,
    ensures
        outcome == (if fops.buf_a@.take(length as int) == fops.buf_b@.take(length as int) {
            Ok::<(), ScanError>(())
        } else {
            Err(ScanError::DeviceDiffers)
        }),
{
    if fops.buffers_match(length) {
        Ok(())
    } else {
        Err(ScanError::DeviceDiffers)
    }
}

/// The records of a step lie end to end from the offset that the scan had
/// reached to the offset at which it goes on, and none of them is empty.
pub proof fn lemma_scan_step_tiles(file_offset: u64, file_length: u64, extent: FiemapExtent)
    requires
        scan_fault(file_offset, file_length, extent) is None,
    ensures
        ({
            let step = scan_step(file_offset, file_length, extent);
            let body_start = match step.gap {
                Some(gap) => gap.destination_offset + gap.length,
                None => file_offset as int,
            };
            let body_end = step.body.start() + step.body.len();
            &&& step.gap matches Some(gap) ==> gap.destination_offset == file_offset && gap.length > 0
            &&& step.body.start() == body_start
            &&& step.body.len() > 0
            &&& step.tail matches Some(tail) ==> tail.destination_offset == body_end && tail.length > 0
                && tail.destination_offset + tail.length == step.next_offset
            &&& step.tail is None ==> body_end == step.next_offset
            &&& step.next_offset <= file_length
        }),
{
}

} // verus!
