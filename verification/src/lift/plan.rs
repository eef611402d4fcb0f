//! The planner: from the records of a scan report to the work queues.

use crate::lift::itree::IntervalTree;
use crate::lift::{dests_apart, ops_fit, queue_ready, CopyOp, CsumOp};
use crate::range::range_overlaps;
use crate::report::{ExtentSource, ReportExtent, ReportSummary};
use std::collections::VecDeque;
use std::ops::Range;
use vstd::prelude::*;

verus! {

/// Why a lift cannot go on.
#[derive(Debug, PartialEq, Eq, Structural)]
pub enum LiftError {
    /// The report was made for a device of another length.
    DeviceLengthMismatch,
    /// The report ends before its extents cover the device.
    ReportTruncated,
    /// An extent does not begin where the one before it ended.
    DestinationMismatch,
    /// An extent of no bytes.
    EmptyExtent,
    /// An extent that ends beyond the end of the device.
    ExtentOverrun,
    /// An extent whose source ends beyond the end of the device.
    SourceOutOfBounds,
    /// The source of an extent no longer has the fingerprint of the report.
    SourceChanged,
    /// A destination does not have its fingerprint after the lift.
    VerificationFailed,
}

/// The kinds of failure.
#[derive(Debug, PartialEq, Eq, Structural)]
pub enum ErrorKind {
    /// The device or the report is not fit for a lift; the device is untouched.
    Precondition,
    /// The lift ran and the device does not hold what it should.
    Postcondition,
}

impl LiftError {
    /// The kind of the failure.
    pub fn kind(&self) -> (kind: ErrorKind)
        ensures
            kind == (if *self == LiftError::VerificationFailed {
                ErrorKind::Postcondition
            } else {
                ErrorKind::Precondition
            }),
    {
        match self {
            LiftError::VerificationFailed => ErrorKind::Postcondition,
            _ => ErrorKind::Precondition,
        }
    }
}

impl CsumOp {
    /// Confirms the fingerprint `measured` of the region before the first
    /// write: a source that has changed since the report was made stops the
    /// lift while the device is still untouched.
    pub fn confirm_source(&self, measured: u64) -> (outcome: Result<(), LiftError>)
        ensures
            outcome == (if measured == self.csum {
                Ok::<(), LiftError>(())
            } else {
                Err(LiftError::SourceChanged)
            }),
    {
        if measured == self.csum {
            Ok(())
        } else {
            Err(LiftError::SourceChanged)
        }
    }

    /// Confirms the fingerprint `measured` of the region after the lift.
    pub fn confirm_final(&self, measured: u64) -> (outcome: Result<(), LiftError>)
        ensures
            outcome == (if measured == self.csum {
                Ok::<(), LiftError>(())
            } else {
                Err(LiftError::VerificationFailed)
            }),
    {
        if measured == self.csum {
            Ok(())
        } else {
            Err(LiftError::VerificationFailed)
        }
    }
}

/// The work of a lift.
pub struct OperationQueues {
    /// Regions to fill with zeros once the copies are done.
    pub zeroing: VecDeque<Range<u64>>,
    /// Fingerprints to confirm at the very end.
    pub csums: VecDeque<CsumOp>,
    /// The copies that are still to do, by source.
    pub copies: IntervalTree<CopyOp>,
    /// The length of the device.
    pub device_length: u64,
    /// The offset up to which the report has covered the device.
    pub expected_next_offset: u64,
}

/// The copy that an extent with a source on the device asks for.
pub open spec fn copy_of(extent: ReportExtent) -> CopyOp {
    CopyOp {
        source: Range {
            start: extent.source->offset,
            end: (extent.source->offset + extent.length) as u64,
        },
        destination_offset: extent.destination_offset,
    }
}

/// The region that an extent covers.
pub open spec fn region_of(extent: ReportExtent) -> Range<u64> {
    Range {
        start: extent.destination_offset,
        end: (extent.destination_offset + extent.length) as u64,
    }
}

/// The fingerprint that the destination of an extent must have in the end.
pub open spec fn final_check_of(extent: ReportExtent) -> CsumOp {
    CsumOp {
        offset: extent.destination_offset,
        length: extent.length,
        csum: extent.source->checksum,
    }
}

/// The fingerprint that the source of an extent must have at the start.
pub open spec fn source_check_of(extent: ReportExtent) -> CsumOp {
    CsumOp { offset: extent.source->offset, length: extent.length, csum: extent.source->checksum }
}

/// What is wrong with `extent` as the next extent of a report that has
/// covered a device of `device_length` bytes up to `expected`.
pub open spec fn extent_fault(extent: ReportExtent, expected: u64, device_length: u64) -> Option<
    LiftError,
> {
    if extent.destination_offset != expected {
        Some(LiftError::DestinationMismatch)
    } else if extent.length == 0 {
        Some(LiftError::EmptyExtent)
    } else if expected + extent.length > device_length {
        Some(LiftError::ExtentOverrun)
    } else if extent.source is Offset && extent.source->offset + extent.length > device_length {
        Some(LiftError::SourceOutOfBounds)
    } else {
        None
    }
}

/// The offset that the first `n` extents reach when laid end to end.
pub open spec fn end_of(extents: Seq<ReportExtent>, n: int) -> int
    decreases n,
{
    if n <= 0 {
        0
    } else {
        end_of(extents, n - 1) + extents[n - 1].length
    }
}

/// Extent `k` is a sound continuation of the extents before it.
pub open spec fn sound(extents: Seq<ReportExtent>, k: int, device_length: u64) -> bool {
    &&& 0 <= k < extents.len()
    &&& 0 <= end_of(extents, k) <= device_length
    &&& extent_fault(extents[k], end_of(extents, k) as u64, device_length) is None
}

/// The first `m` extents are sound and tile the device exactly.
pub open spec fn complete(extents: Seq<ReportExtent>, m: int, device_length: u64) -> bool {
    &&& 0 <= m <= extents.len()
    &&& end_of(extents, m) == device_length
    &&& forall|k: int| 0 <= k < m ==> sound(extents, k, device_length)
}

/// The copies that the extents ask for.
pub open spec fn copies_of(extents: Seq<ReportExtent>) -> Set<CopyOp> {
    Set::new(
        |op: CopyOp|
            exists|k: int|
                0 <= k < extents.len() && (#[trigger] extents[k]).source is Offset && op == copy_of(
                    extents[k],
                ),
    )
}

/// The regions that the extents want zeroed, in order.
pub open spec fn zeros_of(extents: Seq<ReportExtent>) -> Seq<Range<u64>>
    decreases extents.len(),
{
    if extents.len() == 0 {
        Seq::empty()
    } else if extents.last().source is Zeros {
        zeros_of(extents.drop_last()).push(region_of(extents.last()))
    } else {
        zeros_of(extents.drop_last())
    }
}

/// The fingerprints to confirm at the end, in order.
pub open spec fn final_checks_of(extents: Seq<ReportExtent>) -> Seq<CsumOp>
    decreases extents.len(),
{
    if extents.len() == 0 {
        Seq::empty()
    } else if extents.last().source is Offset {
        final_checks_of(extents.drop_last()).push(final_check_of(extents.last()))
    } else {
        final_checks_of(extents.drop_last())
    }
}

/// The fingerprints to confirm before the first write, in order.
pub open spec fn source_checks_of(extents: Seq<ReportExtent>) -> Seq<CsumOp>
    decreases extents.len(),
{
    if extents.len() == 0 {
        Seq::empty()
    } else if extents.last().source is Offset {
        source_checks_of(extents.drop_last()).push(source_check_of(extents.last()))
    } else {
        source_checks_of(extents.drop_last())
    }
}

impl OperationQueues {
    /// The queues fit the device, and every pending copy writes below the
    /// offset that the report has reached.
    pub open spec fn wf(&self) -> bool {
        &&& queue_ready(self.copies, self.device_length)
        &&& self.expected_next_offset <= self.device_length
        &&& forall|op: CopyOp| #[trigger]
            self.copies@.contains(op) ==> op.destination_offset + op.len()
                <= self.expected_next_offset
    }

    /// Empty queues for a device of `device_length` bytes.
    pub fn new(device_length: u64) -> (queues: Self)
        requires
            device_length > 0,
        ensures
            queues.wf(),
            queues.device_length == device_length,
            queues.expected_next_offset == 0,
            queues.zeroing@ == Seq::<Range<u64>>::empty(),
            queues.csums@ == Seq::<CsumOp>::empty(),
            queues.copies@ == Set::<CopyOp>::empty(),
    {
        OperationQueues {
            zeroing: VecDeque::new(),
            csums: VecDeque::new(),
            copies: IntervalTree::new(0..device_length),
            device_length,
            expected_next_offset: 0,
        }
    }

    /// Empty queues for the device that `summary` speaks of, which must be
    /// the device at hand.
    pub fn for_report(summary: &ReportSummary, device_length: u64) -> (outcome: Result<Self, LiftError>)
        requires
            device_length > 0,
        ensures
            match outcome {
                Ok(queues) => {
                    &&& summary.device_length == device_length
                    &&& queues.wf()
                    &&& queues.device_length == device_length
                    &&& queues.expected_next_offset == 0
                    &&& queues.zeroing@ == Seq::<Range<u64>>::empty()
                    &&& queues.csums@ == Seq::<CsumOp>::empty()
                    &&& queues.copies@ == Set::<CopyOp>::empty()
                },
                Err(fault) => summary.device_length != device_length && fault
                    == LiftError::DeviceLengthMismatch,
            },
    {
        if summary.device_length != device_length {
            return Err(LiftError::DeviceLengthMismatch);
        }
        Ok(Self::new(device_length))
    }

    /// Whether the report has covered the whole device.
    pub fn is_complete(&self) -> (done: bool)
        ensures
            done == (self.expected_next_offset >= self.device_length),
    {
        self.expected_next_offset >= self.device_length
    }

    /// Takes the next extent of the report into the queues.
    ///
    /// For an extent with a source on the device the result names the
    /// fingerprint that the source must have now: the caller confirms it on
    /// the device before anything is written.
    pub fn push_extent(&mut self, extent: &ReportExtent) -> (outcome: Result<Option<CsumOp>, LiftError>)
        requires
            old(self).wf(),
        ensures
            match outcome {
                Err(fault) => {
                    &&& extent_fault(*extent, old(self).expected_next_offset, old(self).device_length)
                        == Some(fault)
                    &&& *final(self) == *old(self)
                },
                Ok(check) => {
                    &&& extent_fault(*extent, old(self).expected_next_offset, old(self).device_length)
                        is None
                    &&& final(self).wf()
                    &&& final(self).device_length == old(self).device_length
                    &&& final(self).expected_next_offset == old(self).expected_next_offset
                        + extent.length
                    &&& match extent.source {
                        ExtentSource::Zeros => {
                            &&& check is None
                            &&& final(self).zeroing@ == old(self).zeroing@.push(region_of(*extent))
                            &&& final(self).csums@ == old(self).csums@
                            &&& final(self).copies@ == old(self).copies@
                        },
                        ExtentSource::Offset { .. } => {
                            &&& check == Some(source_check_of(*extent))
                            &&& final(self).zeroing@ == old(self).zeroing@
                            &&& final(self).csums@ == old(self).csums@.push(final_check_of(*extent))
                            &&& final(self).copies@ == old(self).copies@.insert(copy_of(*extent))
                        },
                    }
                },
            },
    {
        if extent.destination_offset != self.expected_next_offset {
            return Err(LiftError::DestinationMismatch);
        }
        if extent.length == 0 {
            return Err(LiftError::EmptyExtent);
        }
        if extent.length > self.device_length - self.expected_next_offset {
            return Err(LiftError::ExtentOverrun);
        }
        match extent.source {
            ExtentSource::Zeros => {
                self.zeroing.push_back(
                    extent.destination_offset..(extent.destination_offset + extent.length),
                );
                self.expected_next_offset += extent.length;
                Ok(None)
            },
            ExtentSource::Offset { offset, checksum } => {
                if offset > self.device_length || extent.length > self.device_length - offset {
                    return Err(LiftError::SourceOutOfBounds);
                }
                let op = CopyOp {
                    source: offset..(offset + extent.length),
                    destination_offset: extent.destination_offset,
                };
                let ghost pending = self.copies@;
                proof {
                    assert(op == copy_of(*extent));
                    assert(!pending.contains(op)) by {
                        if pending.contains(op) {
                            assert(op.destination_offset + op.len() <= self.expected_next_offset);
                        }
                    }
                }
                self.csums.push_back(
                    CsumOp { offset: extent.destination_offset, length: extent.length, csum: checksum },
                );
                let added = self.copies.insert(op);
                self.expected_next_offset += extent.length;
                proof {
                    let after = self.copies@;
                    assert(added);
                    assert(ops_fit(after, self.device_length));
                    assert(dests_apart(after)) by {
                        assert forall|a: CopyOp, b: CopyOp|
                            #![trigger after.contains(a), after.contains(b)]
                            after.contains(a) && after.contains(b) && a != b implies !range_overlaps(
                            a.dest_range(),
                            b.dest_range(),
                        ) by {
                            if a != copy_of(*extent) {
                                assert(pending.contains(a));
                            }
                            if b != copy_of(*extent) {
                                assert(pending.contains(b));
                            }
                        }
                    }
                    assert forall|x: CopyOp| #[trigger] after.contains(x) implies x.destination_offset
                        + x.len() <= self.expected_next_offset by {
                        if x != copy_of(*extent) {
                            assert(pending.contains(x));
                        }
                    }
                }
                Ok(Some(CsumOp { offset, length: extent.length, csum: checksum }))
            },
        }
    }
}

/// Planning stops at extent `k` with `fault`: the extents before it are
/// sound and do not yet cover the device, and extent `k` is missing or at
/// fault.
pub open spec fn stops_at(extents: Seq<ReportExtent>, k: int, device_length: u64, fault: LiftError) -> bool {
    &&& 0 <= k <= extents.len()
    &&& forall|j: int| 0 <= j < k ==> sound(extents, j, device_length)
    &&& 0 <= end_of(extents, k) < device_length
    &&& if k == extents.len() {
        fault == LiftError::ReportTruncated
    } else {
        extent_fault(extents[k], end_of(extents, k) as u64, device_length) == Some(fault)
    }
}

/// The queues hold exactly the work of the first `m` extents.
pub open spec fn holds_plan(
    queues: OperationQueues,
    checks: Seq<CsumOp>,
    extents: Seq<ReportExtent>,
    m: int,
) -> bool {
    &&& queues.wf()
    &&& queues.expected_next_offset == end_of(extents, m)
    &&& queues.copies@ == copies_of(extents.take(m))
    &&& queues.zeroing@ == zeros_of(extents.take(m))
    &&& queues.csums@ == final_checks_of(extents.take(m))
    &&& checks == source_checks_of(extents.take(m))
}

/// Builds the work queues of a lift from a report.
///
/// The extents are taken in order until they cover the device; what follows
/// is not looked at. Beside the queues stand the fingerprints that the
/// sources must have on the device before anything is written.
pub fn load_mapping(summary: &ReportSummary, extents: &Vec<ReportExtent>, device_length: u64) -> (outcome:
    Result<(OperationQueues, Vec<CsumOp>), LiftError>)
    requires
        device_length > 0,
    ensures
        match outcome {
            Ok((queues, checks)) => {
                &&& summary.device_length == device_length
                &&& queues.device_length == device_length
                &&& exists|m: int|
                    complete(extents@, m, device_length) && holds_plan(queues, checks@, extents@, m)
            },
            Err(fault) => if summary.device_length != device_length {
                fault == LiftError::DeviceLengthMismatch
            } else {
                exists|k: int| stops_at(extents@, k, device_length, fault)
            },
        },
{
    let mut result = match OperationQueues::for_report(summary, device_length) {
        Ok(queues) => queues,
        Err(fault) => {
            return Err(fault);
        },
    };
    let mut checks: Vec<CsumOp> = Vec::new();
    let mut k: usize = 0;
    proof {
        assert(extents@.take(0) =~= Seq::<ReportExtent>::empty());
        assert(copies_of(extents@.take(0)) =~= Set::<CopyOp>::empty());
    }
    while result.expected_next_offset < device_length
        invariant
            0 <= k <= extents@.len(),
            result.device_length == device_length,
            summary.device_length == device_length,
            holds_plan(result, checks@, extents@, k as int),
            forall|j: int| 0 <= j < k ==> sound(extents@, j, device_length),
        decreases extents@.len() - k,
    {
        if k >= extents.len() {
            proof {
                assert(stops_at(extents@, k as int, device_length, LiftError::ReportTruncated));
            }
            return Err(LiftError::ReportTruncated);
        }
        let e = &extents[k];
        let ghost prefix = extents@.take(k as int);
        let ghost longer = extents@.take(k + 1);
        proof {
            assert(longer.drop_last() =~= prefix);
            assert(longer.last() == *e);
        }
        match result.push_extent(e) {
            Err(fault) => {
                proof {
                    assert(stops_at(extents@, k as int, device_length, fault));
                }
                return Err(fault);
            },
            Ok(check) => {
                if let Some(c) = check {
                    checks.push(c);
                }
                proof {
                    assert(sound(extents@, k as int, device_length));
                    assert(copies_of(longer) =~= if e.source is Offset {
                        copies_of(prefix).insert(copy_of(*e))
                    } else {
                        copies_of(prefix)
                    }) by {
                        assert forall|op: CopyOp| copies_of(prefix).contains(op) implies copies_of(
                            longer,
                        ).contains(op) by {
                            let j = choose|j: int|
                                0 <= j < prefix.len() && (#[trigger] prefix[j]).source is Offset && op
                                    == copy_of(prefix[j]);
                            assert(longer[j] == prefix[j]);
                        }
                        assert forall|op: CopyOp| copies_of(longer).contains(op) implies copies_of(
                            prefix,
                        ).contains(op) || (e.source is Offset && op == copy_of(*e)) by {
                            let j = choose|j: int|
                                0 <= j < longer.len() && (#[trigger] longer[j]).source is Offset && op
                                    == copy_of(longer[j]);
                            if j < k {
                                assert(prefix[j] == longer[j]);
                            }
                        }
                        if e.source is Offset {
                            assert(longer[k as int] == *e);
                        }
                    }
                }
            },
        }
        k += 1;
    }
    proof {
        assert(complete(extents@, k as int, device_length));
    }
    Ok((result, checks))
}

} // verus!
