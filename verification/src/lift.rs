//! Planning and scheduling of the lift.
//!
//! A scan report is turned into three work collections: the index of pending
//! copy operations, the queue of regions to fill with zeros, and the queue of
//! fingerprints to confirm at the end. The shuffler then drains the index one
//! step at a time, telling the caller which bytes to move on the device.

pub mod itree;
pub mod model;
pub mod plan;

use crate::lift::itree::{hits, lists, IntervalTree, IntervalTreeEntry};
use crate::lift::plan::OperationQueues;
use crate::range::range_overlaps;
use std::collections::VecDeque;
use std::ops::Range;
use vstd::prelude::*;

verus! {

/// A fingerprint that a region of the device must have.
#[derive(Debug)]
pub struct CsumOp {
    pub offset: u64,
    pub length: u64,
    pub csum: u64,
}

/// A pending move of the bytes at `source` to `destination_offset`.
#[derive(Debug, PartialEq, Eq)]
pub struct CopyOp {
    pub source: Range<u64>,
    pub destination_offset: u64,
}

impl CopyOp {
    /// The number of bytes that the operation moves.
    pub open spec fn len(self) -> int {
        self.source.end - self.source.start
    }

    /// The region that the operation writes.
    pub open spec fn dest_range(self) -> Range<u64> {
        Range {
            start: self.destination_offset,
            end: (self.destination_offset + self.len()) as u64,
        }
    }

    /// The operation moves at least one byte, and reads and writes inside a
    /// device of `device_length` bytes.
    pub open spec fn fits(self, device_length: u64) -> bool {
        &&& self.source.start < self.source.end
        &&& self.source.end <= device_length
        &&& self.destination_offset + self.len() <= device_length
    }

    /// The bytes are already where they belong.
    pub open spec fn in_place(self) -> bool {
        self.source.start == self.destination_offset
    }
}

impl Clone for CopyOp {
    fn clone(&self) -> (copy: Self)
        ensures
            copy == *self,
    {
        CopyOp {
            source: self.source.start..self.source.end,
            destination_offset: self.destination_offset,
        }
    }
}

impl IntervalTreeEntry for CopyOp {
    open spec fn interval_spec(&self) -> Range<u64> {
        self.source
    }

    fn interval(&self) -> (r: Range<u64>) {
        self.source.start..self.source.end
    }

    fn same_entry(&self, other: &Self) -> (same: bool) {
        self.source.start == other.source.start && self.source.end == other.source.end
            && self.destination_offset == other.destination_offset
    }
}

/// The two parts of `op` cut after `prefix_len` bytes.
pub open spec fn chopped(op: CopyOp, prefix_len: u64) -> (CopyOp, CopyOp) {
    (
        CopyOp {
            source: Range { start: op.source.start, end: (op.source.start + prefix_len) as u64 },
            destination_offset: op.destination_offset,
        },
        CopyOp {
            source: Range { start: (op.source.start + prefix_len) as u64, end: op.source.end },
            destination_offset: (op.destination_offset + prefix_len) as u64,
        },
    )
}

/// Cuts `op` into the operation on its first `prefix_len` bytes and the
/// operation on the rest. Together the parts move each byte as `op` does.
pub fn chop_op(op: &CopyOp, prefix_len: u64) -> (parts: (CopyOp, CopyOp))
    requires
        prefix_len > 0,
        op.source.start + prefix_len < op.source.end,
        op.destination_offset + prefix_len <= u64::MAX,
    ensures
        parts == chopped(*op, prefix_len),
{
    let op1: CopyOp = CopyOp {
        source: op.source.start..(op.source.start + prefix_len),
        destination_offset: op.destination_offset,
    };
    let op2: CopyOp = CopyOp {
        source: op1.source.end..op.source.end,
        destination_offset: op.destination_offset + prefix_len,
    };
    (op1, op2)
}

/// No two operations of `ops` write the same byte.
pub open spec fn dests_apart(ops: Set<CopyOp>) -> bool {
    forall|a: CopyOp, b: CopyOp|
        #![trigger ops.contains(a), ops.contains(b)]
        ops.contains(a) && ops.contains(b) && a != b ==> !range_overlaps(
            a.dest_range(),
            b.dest_range(),
        )
}

/// Every operation of `ops` fits a device of `device_length` bytes.
pub open spec fn ops_fit(ops: Set<CopyOp>, device_length: u64) -> bool {
    forall|op: CopyOp| #[trigger] ops.contains(op) ==> op.fits(device_length)
}

/// What the shuffler asks of the copy queue: it indexes the whole device,
/// its operations fit the device, and their destinations are disjoint.
pub open spec fn queue_ready(queue: IntervalTree<CopyOp>, device_length: u64) -> bool {
    &&& queue.wf()
    &&& queue.span() == Range::<u64> { start: 0, end: device_length }
    &&& ops_fit(queue@, device_length)
    &&& dests_apart(queue@)
}

/// The operation to cut, and the length of its first part, when `other`
/// reads from the destination of `op` without reading exactly that region.
pub open spec fn split_choice(op: CopyOp, other: CopyOp) -> (CopyOp, u64) {
    let dest = op.dest_range();
    if dest.start < other.source.start {
        (op, (other.source.start - dest.start) as u64)
    } else if other.source.start < dest.start {
        (other, (dest.start - other.source.start) as u64)
    } else if dest.end > other.source.end {
        (op, (other.source.end - other.source.start) as u64)
    } else {
        (other, (dest.end - dest.start) as u64)
    }
}

/// The queue after `op` was swapped into place: `op` is gone, and every
/// operation that read the destination of `op` reads the source of `op`.
pub open spec fn after_swap(before: Set<CopyOp>, op: CopyOp) -> Set<CopyOp> {
    Set::new(
        |y: CopyOp|
            (before.contains(y) && y != op && y.source != op.dest_range()) || (y.source
                == op.source && before.contains(
                CopyOp { source: op.dest_range(), destination_offset: y.destination_offset },
            )),
    )
}

/// One step of the shuffler.
#[derive(Debug)]
pub enum ShuffleStep {
    /// The queue is empty: nothing is left to do.
    Drained,
    /// `op` asked for bytes that are already in place, and was dropped.
    InPlace { op: CopyOp },
    /// No pending operation reads the destination of `op`. The operation was
    /// taken off the queue; the caller copies its source to its destination.
    Copy { op: CopyOp },
    /// `other` reads part of the destination of `op`. One of the two was cut
    /// in two so that their boundaries line up.
    Split { op: CopyOp, other: CopyOp },
    /// Every operation that reads the destination of `op` reads exactly that
    /// region. The operation was taken off the queue and the readers now read
    /// the source of `op`; the caller swaps source and destination.
    Swap { op: CopyOp },
}

/// How a step relates the queue before it to the queue after it.
pub open spec fn step_result(before: Set<CopyOp>, step: ShuffleStep, after: Set<CopyOp>) -> bool {
    match step {
        ShuffleStep::Drained => before == Set::<CopyOp>::empty() && after == before,
        ShuffleStep::InPlace { op } => {
            &&& before.contains(op)
            &&& op.in_place()
            &&& after == before.remove(op)
        },
        ShuffleStep::Copy { op } => {
            &&& before.contains(op)
            &&& !op.in_place()
            &&& hits(before, op.dest_range()) == Set::<CopyOp>::empty()
            &&& after == before.remove(op)
        },
        ShuffleStep::Split { op, other } => {
            let (whole, prefix_len) = split_choice(op, other);
            let (first, second) = chopped(whole, prefix_len);
            &&& before.contains(op)
            &&& !op.in_place()
            &&& hits(before, op.dest_range()).contains(other)
            &&& other.source != op.dest_range()
            &&& 0 < prefix_len < whole.len()
            &&& after == before.remove(whole).insert(first).insert(second)
        },
        ShuffleStep::Swap { op } => {
            &&& before.contains(op)
            &&& !op.in_place()
            &&& hits(before, op.dest_range()) != Set::<CopyOp>::empty()
            &&& forall|h: CopyOp| #[trigger]
                hits(before, op.dest_range()).contains(h) ==> h.source == op.dest_range()
            &&& after == after_swap(before, op)
        },
    }
}

/// Owned copies of the operations that `found` refers to.
fn cloned(found: &Vec<&CopyOp>) -> (owned: Vec<CopyOp>)
    ensures
        owned@.len() == found@.len(),
        forall|i: int| 0 <= i < owned@.len() ==> owned@[i] == *found@[i],
{
    let mut owned: Vec<CopyOp> = Vec::new();
    let mut i: usize = 0;
    while i < found.len()
        invariant
            i <= found@.len(),
            owned@.len() == i,
            forall|j: int| 0 <= j < i ==> owned@[j] == *found@[j],
        decreases found@.len() - i,
    {
        owned.push(found[i].clone());
        i += 1;
    }
    owned
}

/// Takes the next step in draining the copy queue.
///
/// The step tells the caller what to do on the device, if anything, before
/// it asks for the next step.
pub fn perform_shuffles(copy_queue: &mut IntervalTree<CopyOp>, device_length: u64) -> (step: ShuffleStep)
    requires
        queue_ready(*old(copy_queue), device_length),
    ensures
        queue_ready(*final(copy_queue), device_length),
        step_result(old(copy_queue)@, step, final(copy_queue)@),
{
    let ghost before = copy_queue@;
    proof {
        copy_queue.lemma_entries_fit();
    }
    let op: CopyOp = match copy_queue.first() {
        None => {
            return ShuffleStep::Drained;
        },
        Some(entry) => entry.clone(),
    };

    if op.source.start == op.destination_offset {
        // is a no-op op, mark as done.
        copy_queue.remove(&op);
        return ShuffleStep::InPlace { op };
    }
    let dest_range = op.destination_offset..(op.source.end - op.source.start + op.destination_offset);
    let found = copy_queue.find(&dest_range);
    let overlapping_sources: Vec<CopyOp> = cloned(&found);
    let ghost blockers = hits(before, dest_range);
    proof {
        assert(dest_range == op.dest_range());
        assert forall|i: int| 0 <= i < overlapping_sources@.len() implies blockers.contains(
            #[trigger] overlapping_sources@[i],
        ) by {
            assert(blockers.contains(*found@[i]));
        }
    }

    if overlapping_sources.len() == 0 {
        // Nothing overlaps, including self which is still in the tree, do the copy
        proof {
            assert(blockers =~= Set::<CopyOp>::empty());
        }
        copy_queue.remove(&op);
        return ShuffleStep::Copy { op };
    }
    proof {
        assert(blockers.contains(overlapping_sources@[0]));
    }

    // Look for overlapping operations, that we can split.
    let mut i: usize = 0;
    while i < overlapping_sources.len()
        invariant
            i <= overlapping_sources@.len(),
            forall|j: int| 0 <= j < i ==> (#[trigger] overlapping_sources@[j]).source == dest_range,
            forall|j: int| 0 <= j < overlapping_sources@.len() ==> blockers.contains(
                #[trigger] overlapping_sources@[j],
            ),
            blockers == hits(before, dest_range),
            dest_range == op.dest_range(),
            before.contains(op),
            !op.in_place(),
            op.fits(device_length),
            copy_queue@ == before,
            before == old(copy_queue)@,
            queue_ready(*copy_queue, device_length),
        decreases overlapping_sources@.len() - i,
    {
        let other_op = &overlapping_sources[i];
        if !(dest_range.start == other_op.source.start && dest_range.end == other_op.source.end) {
            // Found an overlapping operation that isn't identical in range.
            // Split to make progress.
            // Note op and other_op _may_ be the same operation, that is okay.
            proof {
                assert(blockers.contains(*other_op));
                assert(other_op.fits(device_length));
            }
            let (whole, prefix_len) = if dest_range.start < other_op.source.start {
                // cut off piece at start
                (op.clone(), other_op.source.start - dest_range.start)
            } else if other_op.source.start < dest_range.start {
                // cut off piece at start
                (other_op.clone(), dest_range.start - other_op.source.start)
            } else if dest_range.end > other_op.source.end {
                // cut off piece at end
                (op.clone(), other_op.source.end - other_op.source.start)
            } else {
                // cut off piece at end
                (other_op.clone(), dest_range.end - dest_range.start)
            };
            proof {
                assert((whole, prefix_len) == split_choice(op, *other_op));
                assert(before.contains(whole));
                assert(whole.fits(device_length));
            }
            copy_queue.remove(&whole);
            let (op1, op2) = chop_op(&whole, prefix_len);
            proof {
                assert(op1.fits(device_length) && op2.fits(device_length));
                assert(range_overlaps(op1.dest_range(), whole.dest_range()));
                assert(range_overlaps(op2.dest_range(), whole.dest_range()));
            }
            let ghost parted = copy_queue@;
            let added_first = copy_queue.insert(op1.clone());
            let added_second = copy_queue.insert(op2.clone());
            proof {
                assert(added_first && added_second);
                let after = copy_queue@;
                assert(after == before.remove(whole).insert(op1).insert(op2));
                assert(ops_fit(after, device_length));
                assert(dests_apart(after)) by {
                    assert forall|a: CopyOp, b: CopyOp|
                        #![trigger after.contains(a), after.contains(b)]
                        after.contains(a) && after.contains(b) && a != b implies !range_overlaps(
                        a.dest_range(),
                        b.dest_range(),
                    ) by {
                        if a != op1 && a != op2 {
                            assert(before.contains(a));
                        }
                        if b != op1 && b != op2 {
                            assert(before.contains(b));
                        }
                    }
                }
            }
            let other = other_op.clone();
            proof {
                let choice = split_choice(op, other);
                assert(choice.0 == whole && choice.1 == prefix_len);
                assert(chopped(whole, prefix_len) == (op1, op2));
                assert(hits(before, op.dest_range()).contains(other));
                assert(other.source != op.dest_range());
                assert(0 < prefix_len < whole.len());
                assert(copy_queue@ == before.remove(whole).insert(op1).insert(op2));
            }
            return ShuffleStep::Split { op, other };
        }
        i += 1;
    }

    // Some things overlap, but they all do so with identical extents.
    copy_queue.remove(&op);
    let mut k: usize = 0;
    while k < overlapping_sources.len()
        invariant
            k <= overlapping_sources@.len(),
            overlapping_sources@.len() == found@.len(),
            forall|j: int| 0 <= j < overlapping_sources@.len() ==> overlapping_sources@[j] == *found@[j],
            forall|j: int| 0 <= j < overlapping_sources@.len() ==> (#[trigger] overlapping_sources@[j]).source == dest_range,
            lists(found@, 0, blockers),
            blockers == hits(before, dest_range),
            dest_range == op.dest_range(),
            before.contains(op),
            !op.in_place(),
            op.fits(device_length),
            ops_fit(before, device_length),
            dests_apart(before),
            queue_ready(*copy_queue, device_length),
            forall|y: CopyOp|
                copy_queue@.contains(y) <==> swap_progress(before, op, overlapping_sources@.take(k as int), y),
        decreases overlapping_sources@.len() - k,
    {
        let other_op = &overlapping_sources[k];
        let ghost seen = overlapping_sources@.take(k as int);
        let ghost current = copy_queue@;
        proof {
            assert(blockers.contains(*other_op));
            assert(other_op.fits(device_length));
            assert(!seen.contains(*other_op)) by {
                if seen.contains(*other_op) {
                    let j = choose|j: int| 0 <= j < seen.len() && seen[j] == *other_op;
                    assert(*found@[j] == *found@[k as int]);
                }
            }
            assert(swap_progress(before, op, seen, *other_op));
        }
        copy_queue.remove(other_op);
        let new_op = CopyOp {
            source: op.source.start..op.source.end,
            destination_offset: other_op.destination_offset,
        };
        proof {
            assert(new_op.fits(device_length));
            assert(new_op.dest_range() == other_op.dest_range());
            assert(!current.remove(*other_op).contains(new_op)) by {
                if current.contains(new_op) && new_op != *other_op {
                    assert(swap_progress(before, op, seen, new_op));
                    if before.contains(new_op) {
                        assert(range_overlaps(new_op.dest_range(), other_op.dest_range()));
                    } else {
                        let origin = CopyOp { source: op.dest_range(), destination_offset: new_op.destination_offset };
                        assert(origin == *other_op);
                    }
                }
            }
        }
        let added = copy_queue.insert(new_op.clone());
        proof {
            let next = overlapping_sources@.take(k + 1);
            assert(next =~= seen.push(*other_op));
            let after = copy_queue@;
            assert(after == current.remove(*other_op).insert(new_op));
            assert forall|y: CopyOp| after.contains(y) <==> swap_progress(before, op, next, y) by {
                let origin = CopyOp { source: op.dest_range(), destination_offset: y.destination_offset };
                assert(next.contains(y) <==> seen.contains(y) || y == *other_op) by {
                    lemma_push_contains(seen, *other_op, y);
                }
                assert(next.contains(origin) <==> seen.contains(origin) || origin == *other_op) by {
                    lemma_push_contains(seen, *other_op, origin);
                }
                if y == new_op {
                    assert(origin == *other_op);
                }
                assert(current.contains(y) <==> swap_progress(before, op, seen, y));
            }
            assert(dests_apart(after)) by {
                assert forall|a: CopyOp, b: CopyOp|
                    #![trigger after.contains(a), after.contains(b)]
                    after.contains(a) && after.contains(b) && a != b implies !range_overlaps(
                    a.dest_range(),
                    b.dest_range(),
                ) by {
                    if a != new_op {
                        assert(current.contains(a));
                    }
                    if b != new_op {
                        assert(current.contains(b));
                    }
                    assert(current.contains(*other_op));
                }
            }
        }
        k += 1;
    }
    proof {
        let all = overlapping_sources@;
        assert(all.take(all.len() as int) =~= all);
        assert forall|y: CopyOp| copy_queue@.contains(y) <==> after_swap(before, op).contains(y) by {
            let origin = CopyOp { source: op.dest_range(), destination_offset: y.destination_offset };
            if before.contains(y) && y.source == dest_range {
                assert(op.fits(device_length));
                assert(blockers.contains(y));
                let j = choose|j: int| 0 <= j < found@.len() && *found@[j] == y;
                assert(all[j] == y);
            }
            if before.contains(origin) {
                assert(blockers.contains(origin));
                let j = choose|j: int| 0 <= j < found@.len() && *found@[j] == origin;
                assert(all[j] == origin);
            }
        }
        assert(copy_queue@ =~= after_swap(before, op));
        assert forall|h: CopyOp| #[trigger] blockers.contains(h) implies h.source == dest_range by {
            let j = choose|j: int| 0 <= j < found@.len() && *found@[j] == h;
            assert(all[j] == h);
        }
        assert(blockers != Set::<CopyOp>::empty()) by {
            assert(blockers.contains(all[0]));
        }
    }
    ShuffleStep::Swap { op }
}

/// Membership in the queue while the readers of the destination of `op` are
/// being redirected: those in `seen` already read the source of `op`.
pub open spec fn swap_progress(before: Set<CopyOp>, op: CopyOp, seen: Seq<CopyOp>, y: CopyOp) -> bool {
    let origin = CopyOp { source: op.dest_range(), destination_offset: y.destination_offset };
    (before.contains(y) && y != op && !(y.source == op.dest_range() && seen.contains(y))) || (
    y.source == op.source && before.contains(origin) && seen.contains(origin))
}

proof fn lemma_push_contains<A>(s: Seq<A>, a: A, x: A)
    ensures
        s.push(a).contains(x) <==> s.contains(x) || x == a,
{
    if s.push(a).contains(x) {
        let i = choose|i: int| 0 <= i < s.push(a).len() && s.push(a)[i] == x;
        if i < s.len() {
            assert(s[i] == x);
        }
    }
    if s.contains(x) {
        let i = choose|i: int| 0 <= i < s.len() && s[i] == x;
        assert(s.push(a)[i] == x);
    }
    if x == a {
        assert(s.push(a)[s.len() as int] == x);
    }
}

/// Takes the next region to fill with zeros off the queue.
pub fn fill_zeros(zeroing_queue: &mut VecDeque<Range<u64>>) -> (next: Option<Range<u64>>)
    ensures
        match next {
            Some(range) => old(zeroing_queue)@.len() > 0 && range == old(zeroing_queue)@[0]
                && final(zeroing_queue)@ == old(zeroing_queue)@.skip(1),
            None => old(zeroing_queue)@.len() == 0 && final(zeroing_queue)@ == old(zeroing_queue)@,
        },
{
    let next = zeroing_queue.pop_front();
    proof {
        if next is Some {
            assert(old(zeroing_queue)@.subrange(1, old(zeroing_queue)@.len() as int) =~= old(
                zeroing_queue,
            )@.skip(1));
        }
    }
    next
}

/// Takes the next fingerprint to confirm off the queue.
pub fn validate_csums(csums: &mut VecDeque<CsumOp>) -> (next: Option<CsumOp>)
    ensures
        match next {
            Some(check) => old(csums)@.len() > 0 && check == old(csums)@[0] && final(csums)@ == old(
                csums,
            )@.skip(1),
            None => old(csums)@.len() == 0 && final(csums)@ == old(csums)@,
        },
{
    let next = csums.pop_front();
    proof {
        if next is Some {
            assert(old(csums)@.subrange(1, old(csums)@.len() as int) =~= old(csums)@.skip(1));
        }
    }
    next
}

/// What the caller does next on the device.
#[derive(Debug)]
pub enum LiftAction {
    /// A step of the shuffler, never `Drained`: copy or swap as it says, or
    /// do nothing where it only rearranged the queue.
    Shuffle(ShuffleStep),
    /// Fill the region with zeros.
    FillZeros(Range<u64>),
    /// Confirm that the region has its fingerprint.
    ValidateChecksum(CsumOp),
    /// The lift is done.
    Done,
}

/// Takes the next step of the lift.
///
/// First the copies, until their queue is drained; then the zero regions;
/// last the fingerprints, which a dry run leaves out, since it has moved no
/// bytes.
pub fn do_lift(queues: &mut OperationQueues, dry_run: bool) -> (action: LiftAction)
    requires
        queue_ready(old(queues).copies, old(queues).device_length),
    ensures
        queue_ready(final(queues).copies, final(queues).device_length),
        final(queues).device_length == old(queues).device_length,
        final(queues).expected_next_offset == old(queues).expected_next_offset,
        match action {
            LiftAction::Shuffle(step) => {
                &&& old(queues).copies@ != Set::<CopyOp>::empty()
                &&& !(step is Drained)
                &&& step_result(old(queues).copies@, step, final(queues).copies@)
                &&& final(queues).zeroing@ == old(queues).zeroing@
                &&& final(queues).csums@ == old(queues).csums@
            },
            LiftAction::FillZeros(range) => {
                &&& old(queues).copies@ == Set::<CopyOp>::empty()
                &&& old(queues).zeroing@.len() > 0
                &&& range == old(queues).zeroing@[0]
                &&& final(queues).copies@ == old(queues).copies@
                &&& final(queues).zeroing@ == old(queues).zeroing@.skip(1)
                &&& final(queues).csums@ == old(queues).csums@
            },
            LiftAction::ValidateChecksum(check) => {
                &&& old(queues).copies@ == Set::<CopyOp>::empty()
                &&& old(queues).zeroing@.len() == 0
                &&& !dry_run
                &&& old(queues).csums@.len() > 0
                &&& check == old(queues).csums@[0]
                &&& final(queues).copies@ == old(queues).copies@
                &&& final(queues).zeroing@ == old(queues).zeroing@
                &&& final(queues).csums@ == old(queues).csums@.skip(1)
            },
            LiftAction::Done => {
                &&& old(queues).copies@ == Set::<CopyOp>::empty()
                &&& old(queues).zeroing@.len() == 0
                &&& dry_run || old(queues).csums@.len() == 0
                &&& final(queues).copies@ == old(queues).copies@
                &&& final(queues).zeroing@ == old(queues).zeroing@
                &&& final(queues).csums@ == old(queues).csums@
            },
        },
{
    if !queues.copies.is_empty() {
        let step = perform_shuffles(&mut queues.copies, queues.device_length);
        return LiftAction::Shuffle(step);
    }
    if let Some(range) = fill_zeros(&mut queues.zeroing) {
        return LiftAction::FillZeros(range);
    }
    if !dry_run {
        if let Some(check) = validate_csums(&mut queues.csums) {
            return LiftAction::ValidateChecksum(check);
        }
    }
    LiftAction::Done
}

} // verus!
