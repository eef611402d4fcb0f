//! What the shuffler does to the device, and why that is the lift.
//!
//! The device is a sequence of bytes. A step of the shuffler may ask the
//! caller to copy or to swap two regions; the laws of this module say that
//! every step keeps the promise of each pending copy, so that a drained queue
//! leaves every destination with the bytes that its source had at the start.

use crate::lift::itree::hits;
use crate::lift::{after_swap, chopped, dests_apart, ops_fit, split_choice, step_result, CopyOp, ShuffleStep};
use crate::lift::plan::{complete, copies_of, copy_of, end_of, region_of, sound, zeros_of};
use crate::range::range_overlaps;
use crate::report::ReportExtent;
use crate::utils::{chunk_effect, chunk_length, range_fingerprint, ChunkIo};
use std::ops::Range;
use vstd::prelude::*;
use vstd::relations::injective_on;
use vstd::set_lib::{lemma_int_range, lemma_len_subset, lemma_map_size, set_int_range};

verus! {

/// `op` reads the byte at `p`.
pub open spec fn reads_at(op: CopyOp, p: int) -> bool {
    op.source.start <= p < op.source.end
}

/// `op` writes the byte at `p`.
pub open spec fn writes_at(op: CopyOp, p: int) -> bool {
    op.destination_offset <= p < op.destination_offset + op.len()
}

/// Some operation of `ops` reads the byte at `p`.
pub open spec fn read_by(ops: Set<CopyOp>, p: int) -> bool {
    exists|op: CopyOp| ops.contains(op) && #[trigger] reads_at(op, p)
}

/// Some operation of `ops` writes the byte at `p`.
pub open spec fn written_by(ops: Set<CopyOp>, p: int) -> bool {
    exists|op: CopyOp| ops.contains(op) && #[trigger] writes_at(op, p)
}

/// No two operations of `ops` read the same byte.
pub open spec fn sources_apart(ops: Set<CopyOp>) -> bool {
    forall|a: CopyOp, b: CopyOp|
        #![trigger ops.contains(a), ops.contains(b)]
        ops.contains(a) && ops.contains(b) && a != b ==> !range_overlaps(a.source, b.source)
}

/// The source of every operation of `ops` holds the bytes that `goal` has at
/// its destination.
pub open spec fn faithful(ops: Set<CopyOp>, device: Seq<u8>, goal: Seq<u8>) -> bool {
    forall|op: CopyOp, p: int|
        #![trigger ops.contains(op), reads_at(op, p)]
        ops.contains(op) && reads_at(op, p) ==> device[p] == goal[p - op.source.start
            + op.destination_offset]
}

/// The invariant of the shuffler.
///
/// Every pending operation still finds its bytes at its source, and every
/// byte of `scope` that no pending operation writes any more holds its byte
/// of `goal` and is read by no pending operation.
pub open spec fn on_course(
    ops: Set<CopyOp>,
    device: Seq<u8>,
    goal: Seq<u8>,
    scope: Set<int>,
    device_length: u64,
) -> bool {
    &&& device.len() == device_length
    &&& goal.len() == device_length
    &&& ops_fit(ops, device_length)
    &&& dests_apart(ops)
    &&& sources_apart(ops)
    &&& faithful(ops, device, goal)
    &&& forall|p: int| #[trigger]
        scope.contains(p) && !written_by(ops, p) ==> 0 <= p < device_length && device[p] == goal[p]
            && !read_by(ops, p)
}

/// The device after the source of `op` was copied to its destination.
pub open spec fn copied(device: Seq<u8>, op: CopyOp) -> Seq<u8> {
    Seq::new(
        device.len(),
        |p: int|
            if writes_at(op, p) {
                device[p - op.destination_offset + op.source.start]
            } else {
                device[p]
            },
    )
}

/// The device after the source and the destination of `op` were swapped.
pub open spec fn swapped(device: Seq<u8>, op: CopyOp) -> Seq<u8> {
    Seq::new(
        device.len(),
        |p: int|
            if writes_at(op, p) {
                device[p - op.destination_offset + op.source.start]
            } else if reads_at(op, p) {
                device[p - op.source.start + op.destination_offset]
            } else {
                device[p]
            },
    )
}

/// The device after the caller has done what `step` asks for.
pub open spec fn device_after(device: Seq<u8>, step: ShuffleStep) -> Seq<u8> {
    match step {
        ShuffleStep::Copy { op } => copied(device, op),
        ShuffleStep::Swap { op } => swapped(device, op),
        _ => device,
    }
}

proof fn lemma_in_place_keeps_course(
    before: Set<CopyOp>,
    op: CopyOp,
    device: Seq<u8>,
    goal: Seq<u8>,
    scope: Set<int>,
    device_length: u64,
)
    requires
        on_course(before, device, goal, scope, device_length),
        before.contains(op),
        op.in_place(),
    ensures
        on_course(before.remove(op), device, goal, scope, device_length),
{
    let after = before.remove(op);
    assert forall|p: int| #[trigger] scope.contains(p) && !written_by(after, p) implies 0 <= p
        < device_length && device[p] == goal[p] && !read_by(after, p) by {
        if written_by(before, p) {
            let w = choose|w: CopyOp| before.contains(w) && #[trigger] writes_at(w, p);
            if w != op {
                assert(after.contains(w) && writes_at(w, p));
            }
            assert(reads_at(op, p));
            if read_by(after, p) {
                let x = choose|x: CopyOp| after.contains(x) && #[trigger] reads_at(x, p);
                assert(before.contains(x) && before.contains(op));
                assert(range_overlaps(x.source, op.source));
            }
        } else {
            if read_by(after, p) {
                let x = choose|x: CopyOp| after.contains(x) && #[trigger] reads_at(x, p);
                assert(before.contains(x) && reads_at(x, p));
            }
        }
    }
}

proof fn lemma_copy_keeps_course(
    before: Set<CopyOp>,
    op: CopyOp,
    device: Seq<u8>,
    goal: Seq<u8>,
    scope: Set<int>,
    device_length: u64,
)
    requires
        on_course(before, device, goal, scope, device_length),
        before.contains(op),
        hits(before, op.dest_range()) == Set::<CopyOp>::empty(),
    ensures
        on_course(before.remove(op), copied(device, op), goal, scope, device_length),
{
    let after = before.remove(op);
    let moved = copied(device, op);
    assert(op.fits(device_length));
    assert forall|x: CopyOp, p: int| before.contains(x) && reads_at(x, p) implies !writes_at(op, p) by {
        if writes_at(op, p) {
            assert(x.fits(device_length));
            assert(range_overlaps(op.dest_range(), x.source));
            assert(hits(before, op.dest_range()).contains(x));
        }
    }
    assert(faithful(after, moved, goal)) by {
        assert forall|x: CopyOp, p: int|
            #![trigger after.contains(x), reads_at(x, p)]
            after.contains(x) && reads_at(x, p) implies moved[p] == goal[p - x.source.start
            + x.destination_offset] by {
            assert(before.contains(x));
            assert(x.fits(device_length));
        }
    }
    assert forall|p: int| #[trigger] scope.contains(p) && !written_by(after, p) implies 0 <= p
        < device_length && moved[p] == goal[p] && !read_by(after, p) by {
        if read_by(after, p) {
            let x = choose|x: CopyOp| after.contains(x) && #[trigger] reads_at(x, p);
            assert(before.contains(x) && reads_at(x, p));
        }
        if writes_at(op, p) {
            let q = p - op.destination_offset + op.source.start;
            assert(reads_at(op, q));
        } else {
            if written_by(before, p) {
                let w = choose|w: CopyOp| before.contains(w) && #[trigger] writes_at(w, p);
                assert(after.contains(w) && writes_at(w, p));
            }
        }
    }
}

proof fn lemma_split_keeps_course(
    before: Set<CopyOp>,
    whole: CopyOp,
    prefix_len: u64,
    device: Seq<u8>,
    goal: Seq<u8>,
    scope: Set<int>,
    device_length: u64,
)
    requires
        on_course(before, device, goal, scope, device_length),
        before.contains(whole),
        0 < prefix_len < whole.len(),
    ensures
        on_course(
            before.remove(whole).insert(chopped(whole, prefix_len).0).insert(
                chopped(whole, prefix_len).1,
            ),
            device,
            goal,
            scope,
            device_length,
        ),
{
    let first = chopped(whole, prefix_len).0;
    let second = chopped(whole, prefix_len).1;
    let after = before.remove(whole).insert(first).insert(second);
    assert(whole.fits(device_length));
    assert(first.fits(device_length) && second.fits(device_length));
    assert(range_overlaps(first.dest_range(), whole.dest_range()));
    assert(range_overlaps(second.dest_range(), whole.dest_range()));
    assert(range_overlaps(first.source, whole.source));
    assert(range_overlaps(second.source, whole.source));
    assert forall|x: CopyOp| #[trigger] after.contains(x) implies x.fits(device_length) && (
    before.contains(x) || x == first || x == second) by {}
    assert(dests_apart(after)) by {
        assert forall|a: CopyOp, b: CopyOp|
            #![trigger after.contains(a), after.contains(b)]
            after.contains(a) && after.contains(b) && a != b implies !range_overlaps(
            a.dest_range(),
            b.dest_range(),
        ) by {
            if a != first && a != second {
                assert(before.contains(a) && before.contains(whole));
            }
            if b != first && b != second {
                assert(before.contains(b) && before.contains(whole));
            }
        }
    }
    assert(sources_apart(after)) by {
        assert forall|a: CopyOp, b: CopyOp|
            #![trigger after.contains(a), after.contains(b)]
            after.contains(a) && after.contains(b) && a != b implies !range_overlaps(
            a.source,
            b.source,
        ) by {
            if a != first && a != second {
                assert(before.contains(a) && before.contains(whole));
            }
            if b != first && b != second {
                assert(before.contains(b) && before.contains(whole));
            }
        }
    }
    assert(faithful(after, device, goal)) by {
        assert forall|x: CopyOp, p: int|
            #![trigger after.contains(x), reads_at(x, p)]
            after.contains(x) && reads_at(x, p) implies device[p] == goal[p - x.source.start
            + x.destination_offset] by {
            if x == first || x == second {
                assert(before.contains(whole) && reads_at(whole, p));
            } else {
                assert(before.contains(x));
            }
        }
    }
    assert forall|p: int| #[trigger] scope.contains(p) && !written_by(after, p) implies 0 <= p
        < device_length && device[p] == goal[p] && !read_by(after, p) by {
        if written_by(before, p) {
            let w = choose|w: CopyOp| before.contains(w) && #[trigger] writes_at(w, p);
            if w == whole {
                if writes_at(first, p) {
                    assert(after.contains(first) && writes_at(first, p));
                } else {
                    assert(after.contains(second) && writes_at(second, p));
                }
            } else {
                assert(after.contains(w) && writes_at(w, p));
            }
        }
        if read_by(after, p) {
            let x = choose|x: CopyOp| after.contains(x) && #[trigger] reads_at(x, p);
            if x == first || x == second {
                assert(before.contains(whole) && reads_at(whole, p));
            } else {
                assert(before.contains(x) && reads_at(x, p));
            }
        }
    }
}

proof fn lemma_swap_keeps_course(
    before: Set<CopyOp>,
    op: CopyOp,
    device: Seq<u8>,
    goal: Seq<u8>,
    scope: Set<int>,
    device_length: u64,
)
    requires
        on_course(before, device, goal, scope, device_length),
        before.contains(op),
        !op.in_place(),
        forall|h: CopyOp| #[trigger]
            hits(before, op.dest_range()).contains(h) ==> h.source == op.dest_range(),
    ensures
        on_course(after_swap(before, op), swapped(device, op), goal, scope, device_length),
{
    let after = after_swap(before, op);
    let moved = swapped(device, op);
    let dest = op.dest_range();
    assert(op.fits(device_length));
    // Whoever reads a byte of the destination reads exactly the destination.
    assert forall|x: CopyOp, p: int| before.contains(x) && reads_at(x, p) && writes_at(op, p) implies x.source
        == dest by {
        assert(x.fits(device_length));
        assert(range_overlaps(dest, x.source));
        assert(hits(before, dest).contains(x));
    }
    // The operation itself does not read its destination.
    assert forall|p: int| reads_at(op, p) implies !writes_at(op, p) by {
        if writes_at(op, p) {
            assert(before.contains(op) && reads_at(op, p) && writes_at(op, p));
        }
    }
    // Every operation of the new queue stands for one of the old queue with
    // the same destination.
    assert forall|y: CopyOp| #[trigger] after.contains(y) implies y.fits(device_length)
        && before.contains(origin_of(y, op)) && origin_of(y, op) != op && origin_of(y, op).dest_range()
        == y.dest_range() by {
        let x = origin_of(y, op);
        assert(before.contains(x));
        assert(x.fits(device_length));
    }
    assert(dests_apart(after)) by {
        assert forall|a: CopyOp, b: CopyOp|
            #![trigger after.contains(a), after.contains(b)]
            after.contains(a) && after.contains(b) && a != b implies !range_overlaps(
            a.dest_range(),
            b.dest_range(),
        ) by {
            let xa = origin_of(a, op);
            let xb = origin_of(b, op);
            assert(before.contains(xa) && before.contains(xb));
            assert(xa != xb);
        }
    }
    assert(sources_apart(after)) by {
        assert forall|a: CopyOp, b: CopyOp|
            #![trigger after.contains(a), after.contains(b)]
            after.contains(a) && after.contains(b) && a != b implies !range_overlaps(
            a.source,
            b.source,
        ) by {
            let xa = origin_of(a, op);
            let xb = origin_of(b, op);
            assert(before.contains(xa) && before.contains(xb) && before.contains(op));
            assert(xa != xb);
            assert(xa.fits(device_length) && xb.fits(device_length));
            if xa != a && xb != b {
                assert(range_overlaps(xa.source, xb.source));
            }
        }
    }
    assert(faithful(after, moved, goal)) by {
        assert forall|y: CopyOp, p: int|
            #![trigger after.contains(y), reads_at(y, p)]
            after.contains(y) && reads_at(y, p) implies moved[p] == goal[p - y.source.start
            + y.destination_offset] by {
            let x = origin_of(y, op);
            assert(before.contains(x) && before.contains(op));
            assert(y.fits(device_length) && x.fits(device_length));
            if x == y {
                if writes_at(op, p) {
                    assert(before.contains(y) && reads_at(y, p) && writes_at(op, p));
                }
                if reads_at(op, p) {
                    assert(range_overlaps(y.source, op.source));
                }
            } else {
                let q = p - op.source.start + op.destination_offset;
                assert(reads_at(x, q));
            }
        }
    }
    assert forall|p: int| #[trigger] scope.contains(p) && !written_by(after, p) implies 0 <= p
        < device_length && moved[p] == goal[p] && !read_by(after, p) by {
        if writes_at(op, p) {
            let q = p - op.destination_offset + op.source.start;
            assert(reads_at(op, q));
            if read_by(after, p) {
                let y = choose|y: CopyOp| after.contains(y) && #[trigger] reads_at(y, p);
                let x = origin_of(y, op);
                if x == y {
                    assert(before.contains(y) && reads_at(y, p) && writes_at(op, p));
                } else {
                    assert(reads_at(op, p));
                }
            }
        } else {
            if written_by(before, p) {
                let w = choose|w: CopyOp| before.contains(w) && #[trigger] writes_at(w, p);
                assert(w != op);
                assert(w.fits(device_length));
                if w.source != dest {
                    assert(after.contains(w) && writes_at(w, p));
                } else {
                    let y = CopyOp { source: op.source, destination_offset: w.destination_offset };
                    assert(CopyOp { source: dest, destination_offset: y.destination_offset } == w);
                    assert(after.contains(y) && writes_at(y, p));
                }
            }
            if reads_at(op, p) {
                assert(before.contains(op) && reads_at(op, p));
            }
            if read_by(after, p) {
                let y = choose|y: CopyOp| after.contains(y) && #[trigger] reads_at(y, p);
                let x = origin_of(y, op);
                if x == y {
                    assert(before.contains(y) && reads_at(y, p));
                } else {
                    assert(before.contains(op) && reads_at(op, p));
                }
            }
        }
    }
}

/// The operation of the old queue that `y` stands for after `op` was
/// swapped into place.
pub open spec fn origin_of(y: CopyOp, op: CopyOp) -> CopyOp {
    if y.source == op.source {
        CopyOp { source: op.dest_range(), destination_offset: y.destination_offset }
    } else {
        y
    }
}

/// A step of the shuffler keeps the device on course: once the caller has
/// done what the step asks for, every pending copy still finds its bytes,
/// and every byte that was settled stays settled.
pub proof fn lemma_step_keeps_course(
    before: Set<CopyOp>,
    step: ShuffleStep,
    after: Set<CopyOp>,
    device: Seq<u8>,
    goal: Seq<u8>,
    scope: Set<int>,
    device_length: u64,
)
    requires
        on_course(before, device, goal, scope, device_length),
        step_result(before, step, after),
    ensures
        on_course(after, device_after(device, step), goal, scope, device_length),
{
    match step {
        ShuffleStep::Drained => {},
        ShuffleStep::InPlace { op } => {
            lemma_in_place_keeps_course(before, op, device, goal, scope, device_length);
        },
        ShuffleStep::Copy { op } => {
            lemma_copy_keeps_course(before, op, device, goal, scope, device_length);
        },
        ShuffleStep::Split { op, other } => {
            let choice = split_choice(op, other);
            assert(before.contains(other));
            lemma_split_keeps_course(before, choice.0, choice.1, device, goal, scope, device_length);
        },
        ShuffleStep::Swap { op } => {
            lemma_swap_keeps_course(before, op, device, goal, scope, device_length);
        },
    }
}

/// A device on course with an empty queue holds its goal all over the scope.
pub proof fn lemma_drained_is_settled(
    device: Seq<u8>,
    goal: Seq<u8>,
    scope: Set<int>,
    device_length: u64,
)
    requires
        on_course(Set::<CopyOp>::empty(), device, goal, scope, device_length),
    ensures
        forall|p: int| #[trigger] scope.contains(p) ==> 0 <= p < device_length && device[p] == goal[p],
{
    assert forall|p: int| #[trigger] scope.contains(p) implies 0 <= p < device_length && device[p]
        == goal[p] by {
        assert(!written_by(Set::<CopyOp>::empty(), p));
    }
}

/// The queue before step `i` of a run that began with the queue `start`.
/// Each element of a run is a step and the queue that it left.
pub open spec fn queue_before(start: Set<CopyOp>, run: Seq<(ShuffleStep, Set<CopyOp>)>, i: int) -> Set<
    CopyOp,
> {
    if i <= 0 {
        start
    } else {
        run[i - 1].1
    }
}

/// `run` is a sequence of shuffler steps from the queue `start` on.
pub open spec fn run_from(start: Set<CopyOp>, run: Seq<(ShuffleStep, Set<CopyOp>)>) -> bool {
    forall|i: int|
        0 <= i < run.len() ==> step_result(queue_before(start, run, i), (#[trigger] run[i]).0, run[i].1)
}

/// The device after the caller has followed every step of `run`.
pub open spec fn device_along(device: Seq<u8>, run: Seq<(ShuffleStep, Set<CopyOp>)>) -> Seq<u8>
    decreases run.len(),
{
    if run.len() == 0 {
        device
    } else {
        device_after(device_along(device, run.drop_last()), run.last().0)
    }
}

/// A device that is on course stays on course through any run of steps.
pub proof fn lemma_run_keeps_course(
    start: Set<CopyOp>,
    run: Seq<(ShuffleStep, Set<CopyOp>)>,
    device: Seq<u8>,
    goal: Seq<u8>,
    scope: Set<int>,
    device_length: u64,
)
    requires
        on_course(start, device, goal, scope, device_length),
        run_from(start, run),
    ensures
        on_course(
            queue_before(start, run, run.len() as int),
            device_along(device, run),
            goal,
            scope,
            device_length,
        ),
    decreases run.len(),
{
    if run.len() > 0 {
        let shorter = run.drop_last();
        let n = shorter.len() as int;
        assert forall|i: int| 0 <= i < shorter.len() implies step_result(
            queue_before(start, shorter, i),
            (#[trigger] shorter[i]).0,
            shorter[i].1,
        ) by {
            assert(shorter[i] == run[i]);
            assert(queue_before(start, shorter, i) == queue_before(start, run, i));
        }
        lemma_run_keeps_course(start, shorter, device, goal, scope, device_length);
        assert(queue_before(start, shorter, n) == queue_before(start, run, n));
        assert(step_result(queue_before(start, run, n), run[n].0, run[n].1));
        lemma_step_keeps_course(
            queue_before(start, run, n),
            run[n].0,
            run[n].1,
            device_along(device, shorter),
            goal,
            scope,
            device_length,
        );
    }
}

/// While every pending copy is in place, no step asks for a write.
pub proof fn lemma_in_place_run_is_still(
    start: Set<CopyOp>,
    run: Seq<(ShuffleStep, Set<CopyOp>)>,
    device: Seq<u8>,
)
    requires
        forall|op: CopyOp| #[trigger] start.contains(op) ==> op.in_place(),
        run_from(start, run),
    ensures
        device_along(device, run) == device,
        forall|op: CopyOp| #[trigger]
            queue_before(start, run, run.len() as int).contains(op) ==> op.in_place(),
    decreases run.len(),
{
    if run.len() > 0 {
        let shorter = run.drop_last();
        let n = shorter.len() as int;
        assert forall|i: int| 0 <= i < shorter.len() implies step_result(
            queue_before(start, shorter, i),
            (#[trigger] shorter[i]).0,
            shorter[i].1,
        ) by {
            assert(shorter[i] == run[i]);
            assert(queue_before(start, shorter, i) == queue_before(start, run, i));
        }
        lemma_in_place_run_is_still(start, shorter, device);
        assert(queue_before(start, shorter, n) == queue_before(start, run, n));
        assert(step_result(queue_before(start, run, n), run[n].0, run[n].1));
    }
}

/// Some range of `zeros` holds the byte at `p`.
pub open spec fn zeroed_at(zeros: Seq<Range<u64>>, p: int) -> bool {
    exists|i: int| 0 <= i < zeros.len() && (#[trigger] zeros[i]).start <= p < zeros[i].end
}

/// The device after every range of `zeros` was filled with zero bytes.
pub open spec fn zero_filled(device: Seq<u8>, zeros: Seq<Range<u64>>) -> Seq<u8> {
    Seq::new(
        device.len(),
        |p: int|
            if zeroed_at(zeros, p) {
                0u8
            } else {
                device[p]
            },
    )
}

/// `result` is the lift of `original` by `extents`: every extent holds
/// zeros, or the bytes that `original` had at its source.
pub open spec fn lifted(extents: Seq<ReportExtent>, original: Seq<u8>, result: Seq<u8>) -> bool {
    &&& result.len() == original.len()
    &&& forall|k: int, i: int|
        #![trigger extents[k], result[extents[k].destination_offset + i]]
        0 <= k < extents.len() && 0 <= i < extents[k].length ==> result[extents[k].destination_offset
            + i] == match extents[k].source {
            crate::report::ExtentSource::Zeros => 0u8,
            crate::report::ExtentSource::Offset { offset, .. } => original[offset + i],
        }
}

/// Extent `k` has its source on the device and covers the byte at `p`.
pub open spec fn copy_covers(extents: Seq<ReportExtent>, k: int, p: int) -> bool {
    &&& 0 <= k < extents.len()
    &&& extents[k].source is Offset
    &&& extents[k].destination_offset <= p < extents[k].destination_offset + extents[k].length
}

/// The bytes that the copies of `extents` must leave on the device: at each
/// destination the byte that `original` has at the source.
pub open spec fn goal_of(extents: Seq<ReportExtent>, original: Seq<u8>) -> Seq<u8> {
    Seq::new(
        original.len(),
        |p: int|
            if exists|k: int| copy_covers(extents, k, p) {
                let k = choose|k: int| copy_covers(extents, k, p);
                original[extents[k].source->offset + p - extents[k].destination_offset]
            } else {
                original[p]
            },
    )
}

/// The offsets that extents reach grow with their number.
pub proof fn lemma_end_of_grows(extents: Seq<ReportExtent>, j: int, k: int)
    requires
        0 <= j <= k,
    ensures
        0 <= end_of(extents, j) <= end_of(extents, k),
    decreases k,
{
    if j < k {
        lemma_end_of_grows(extents, j, k - 1);
    } else if k > 0 {
        lemma_end_of_grows(extents, 0, k - 1);
    }
}

/// In a report that tiles the device, two extents that hold the same byte
/// are one extent.
pub proof fn lemma_tiles_apart(extents: Seq<ReportExtent>, device_length: u64, j: int, k: int, p: int)
    requires
        complete(extents, extents.len() as int, device_length),
        0 <= j < extents.len(),
        0 <= k < extents.len(),
        extents[j].destination_offset <= p < extents[j].destination_offset + extents[j].length,
        extents[k].destination_offset <= p < extents[k].destination_offset + extents[k].length,
    ensures
        j == k,
{
    assert(sound(extents, j, device_length) && sound(extents, k, device_length));
    if j < k {
        lemma_end_of_grows(extents, j + 1, k);
    } else if k < j {
        lemma_end_of_grows(extents, k + 1, j);
    }
}

/// `region` is the region of an extent of `extents` without a source.
pub open spec fn zero_region_of(extents: Seq<ReportExtent>, region: Range<u64>) -> bool {
    exists|k: int|
        0 <= k < extents.len() && (#[trigger] extents[k]).source is Zeros && region == region_of(
            extents[k],
        )
}

/// The regions to zero are the regions of the extents without a source.
pub proof fn lemma_zeros_are_regions(extents: Seq<ReportExtent>)
    ensures
        forall|i: int|
            0 <= i < zeros_of(extents).len() ==> zero_region_of(
                extents,
                #[trigger] zeros_of(extents)[i],
            ),
        forall|k: int|
            0 <= k < extents.len() && (#[trigger] extents[k]).source is Zeros ==> zeros_of(
                extents,
            ).contains(region_of(extents[k])),
    decreases extents.len(),
{
    if extents.len() > 0 {
        let shorter = extents.drop_last();
        lemma_zeros_are_regions(shorter);
        let zeros = zeros_of(extents);
        let fewer = zeros_of(shorter);
        let last = extents.len() - 1;
        assert forall|i: int| 0 <= i < zeros.len() implies zero_region_of(extents, #[trigger] zeros[i]) by {
            if i < fewer.len() {
                assert(zeros[i] == fewer[i]);
                assert(zero_region_of(shorter, fewer[i]));
                let k = choose|k: int|
                    0 <= k < shorter.len() && (#[trigger] shorter[k]).source is Zeros && fewer[i]
                        == region_of(shorter[k]);
                assert(extents[k] == shorter[k]);
            } else {
                assert(extents[last].source is Zeros);
                assert(zeros[i] == region_of(extents[last]));
            }
        }
        assert forall|k: int| 0 <= k < extents.len() && (#[trigger] extents[k]).source is Zeros implies zeros.contains(
            region_of(extents[k]),
        ) by {
            if k < shorter.len() {
                assert(shorter[k] == extents[k]);
                assert(fewer.contains(region_of(shorter[k])));
                let i = choose|i: int| 0 <= i < fewer.len() && fewer[i] == region_of(shorter[k]);
                assert(zeros[i] == fewer[i]);
            } else {
                assert(zeros[zeros.len() - 1] == region_of(extents[k]));
            }
        }
    }
}

/// The offsets that the first extents reach do not depend on the extents
/// that follow them.
proof fn lemma_end_of_prefix(extents: Seq<ReportExtent>, m: int, k: int)
    requires
        0 <= k <= m <= extents.len(),
    ensures
        end_of(extents.take(m), k) == end_of(extents, k),
    decreases k,
{
    if k > 0 {
        lemma_end_of_prefix(extents, m, k - 1);
        assert(extents.take(m)[k - 1] == extents[k - 1]);
    }
}

/// The extents that the planner took from a report are a report of their
/// own that tiles the device.
pub proof fn lemma_complete_prefix(extents: Seq<ReportExtent>, m: int, device_length: u64)
    requires
        complete(extents, m, device_length),
    ensures
        complete(extents.take(m), extents.take(m).len() as int, device_length),
{
    let taken = extents.take(m);
    lemma_end_of_prefix(extents, m, m);
    assert forall|k: int| 0 <= k < m implies sound(taken, k, device_length) by {
        assert(sound(extents, k, device_length));
        lemma_end_of_prefix(extents, m, k);
        assert(taken[k] == extents[k]);
    }
}

/// The lift is correct.
///
/// Take a report whose extents tile the device and whose sources are
/// disjoint, and a device `original`. Whatever steps the shuffler takes from
/// the copies of the report until its queue is empty, once the caller has
/// followed them and filled the zero regions, every extent with a source
/// holds the bytes that `original` had at that source, and every other
/// extent holds zeros.
pub proof fn lemma_lift_places_every_extent(
    extents: Seq<ReportExtent>,
    device_length: u64,
    original: Seq<u8>,
    run: Seq<(ShuffleStep, Set<CopyOp>)>,
)
    requires
        original.len() == device_length,
        complete(extents, extents.len() as int, device_length),
        sources_apart(copies_of(extents)),
        run_from(copies_of(extents), run),
        queue_before(copies_of(extents), run, run.len() as int) == Set::<CopyOp>::empty(),
    ensures
        lifted(
            extents,
            original,
            zero_filled(device_along(original, run), zeros_of(extents)),
        ),
{
    let ops = copies_of(extents);
    let goal = goal_of(extents, original);
    let scope = Set::new(|p: int| exists|k: int| copy_covers(extents, k, p));
    let shuffled = device_along(original, run);
    let result = zero_filled(shuffled, zeros_of(extents));
    let n = extents.len() as int;

    assert forall|op: CopyOp| #[trigger] ops.contains(op) implies op.fits(device_length) by {
        let k = choose|k: int|
            0 <= k < extents.len() && (#[trigger] extents[k]).source is Offset && op == copy_of(
                extents[k],
            );
        assert(sound(extents, k, device_length));
    }
    assert(dests_apart(ops)) by {
        assert forall|a: CopyOp, b: CopyOp|
            #![trigger ops.contains(a), ops.contains(b)]
            ops.contains(a) && ops.contains(b) && a != b implies !range_overlaps(
            a.dest_range(),
            b.dest_range(),
        ) by {
            let j = choose|j: int|
                0 <= j < extents.len() && (#[trigger] extents[j]).source is Offset && a == copy_of(
                    extents[j],
                );
            let k = choose|k: int|
                0 <= k < extents.len() && (#[trigger] extents[k]).source is Offset && b == copy_of(
                    extents[k],
                );
            assert(sound(extents, j, device_length) && sound(extents, k, device_length));
            if range_overlaps(a.dest_range(), b.dest_range()) {
                let p = if a.destination_offset >= b.destination_offset {
                    a.destination_offset as int
                } else {
                    b.destination_offset as int
                };
                lemma_tiles_apart(extents, device_length, j, k, p);
            }
        }
    }
    assert(faithful(ops, original, goal)) by {
        assert forall|op: CopyOp, p: int|
            #![trigger ops.contains(op), reads_at(op, p)]
            ops.contains(op) && reads_at(op, p) implies original[p] == goal[p - op.source.start
            + op.destination_offset] by {
            let k = choose|k: int|
                0 <= k < extents.len() && (#[trigger] extents[k]).source is Offset && op == copy_of(
                    extents[k],
                );
            assert(sound(extents, k, device_length));
            let d = p - op.source.start + op.destination_offset;
            assert(copy_covers(extents, k, d));
            let c = choose|c: int| copy_covers(extents, c, d);
            lemma_tiles_apart(extents, device_length, c, k, d);
        }
    }
    assert forall|p: int| #[trigger] scope.contains(p) && !written_by(ops, p) implies 0 <= p
        < device_length && original[p] == goal[p] && !read_by(ops, p) by {
        let k = choose|k: int| copy_covers(extents, k, p);
        assert(sound(extents, k, device_length));
        assert(ops.contains(copy_of(extents[k])) && writes_at(copy_of(extents[k]), p));
    }
    lemma_run_keeps_course(ops, run, original, goal, scope, device_length);
    lemma_drained_is_settled(shuffled, goal, scope, device_length);
    lemma_zeros_are_regions(extents);

    assert forall|k: int, i: int|
        #![trigger extents[k], result[extents[k].destination_offset + i]]
        0 <= k < extents.len() && 0 <= i < extents[k].length implies result[extents[k].destination_offset
        + i] == match extents[k].source {
        crate::report::ExtentSource::Zeros => 0u8,
        crate::report::ExtentSource::Offset { offset, .. } => original[offset + i],
    } by {
        let p = extents[k].destination_offset + i;
        assert(sound(extents, k, device_length));
        lemma_end_of_grows(extents, k + 1, n);
        if extents[k].source is Zeros {
            assert(zeros_of(extents).contains(region_of(extents[k])));
            let z = choose|z: int|
                0 <= z < zeros_of(extents).len() && zeros_of(extents)[z] == region_of(extents[k]);
            assert(zeros_of(extents)[z].start <= p < zeros_of(extents)[z].end);
        } else {
            assert(copy_covers(extents, k, p));
            assert(scope.contains(p));
            let c = choose|c: int| copy_covers(extents, c, p);
            lemma_tiles_apart(extents, device_length, c, k, p);
            if zeroed_at(zeros_of(extents), p) {
                let z = choose|z: int|
                    0 <= z < zeros_of(extents).len() && (#[trigger] zeros_of(extents)[z]).start <= p
                        < zeros_of(extents)[z].end;
                assert(zero_region_of(extents, zeros_of(extents)[z]));
                let j = choose|j: int|
                    0 <= j < extents.len() && (#[trigger] extents[j]).source is Zeros && zeros_of(
                        extents,
                    )[z] == region_of(extents[j]);
                assert(sound(extents, j, device_length));
                lemma_end_of_grows(extents, j + 1, n);
                lemma_tiles_apart(extents, device_length, j, k, p);
            }
        }
    }
}

/// The identity report changes nothing.
///
/// Where every extent of a report has its source at its destination, no
/// step of the shuffler asks for a write and there is nothing to zero: the
/// device stays as it was, byte for byte.
pub proof fn lemma_identity_report_is_still(
    extents: Seq<ReportExtent>,
    original: Seq<u8>,
    run: Seq<(ShuffleStep, Set<CopyOp>)>,
)
    requires
        forall|k: int|
            0 <= k < extents.len() ==> (#[trigger] extents[k]).source is Offset
                && extents[k].source->offset == extents[k].destination_offset,
        run_from(copies_of(extents), run),
    ensures
        zero_filled(device_along(original, run), zeros_of(extents)) == original,
{
    lemma_in_place_run_is_still(copies_of(extents), run, original);
    lemma_zeros_are_regions(extents);
    assert(zeros_of(extents).len() == 0) by {
        if zeros_of(extents).len() > 0 {
            assert(zero_region_of(extents, zeros_of(extents)[0]));
        }
    }
    assert(zero_filled(original, zeros_of(extents)) =~= original);
}

/// The device after the first `done` bytes of the source of `op` were
/// copied to its destination.
pub open spec fn copy_done(device: Seq<u8>, op: CopyOp, done: int) -> Seq<u8> {
    Seq::new(
        device.len(),
        |p: int|
            if op.destination_offset <= p < op.destination_offset + done {
                device[p - op.destination_offset + op.source.start]
            } else {
                device[p]
            },
    )
}

/// The device after the first `done` bytes of the source of `op` were
/// swapped with the first `done` bytes of its destination.
pub open spec fn swap_done(device: Seq<u8>, op: CopyOp, done: int) -> Seq<u8> {
    Seq::new(
        device.len(),
        |p: int|
            if op.destination_offset <= p < op.destination_offset + done {
                device[p - op.destination_offset + op.source.start]
            } else if op.source.start <= p < op.source.start + done {
                device[p - op.source.start + op.destination_offset]
            } else {
                device[p]
            },
    )
}

/// The chunk that copies the bytes of `op` after the first `read`.
pub open spec fn copy_chunk(op: CopyOp, read: u64) -> ChunkIo {
    ChunkIo {
        length: chunk_length(read, op.len() as u64) as usize,
        read_a: Some((op.source.start + read) as u64),
        read_b: None,
        write_a: Some((op.destination_offset + read) as u64),
        write_b: None,
    }
}

/// The chunk that swaps the bytes of `op` after the first `read`.
pub open spec fn swap_chunk(op: CopyOp, read: u64) -> ChunkIo {
    ChunkIo {
        length: chunk_length(read, op.len() as u64) as usize,
        read_a: Some((op.source.start + read) as u64),
        read_b: Some((op.destination_offset + read) as u64),
        write_a: Some((op.destination_offset + read) as u64),
        write_b: Some((op.source.start + read) as u64),
    }
}

/// Copying chunk by chunk is copying: where the source of `op` does not
/// overlap its destination, each chunk takes the copy one chunk further, and
/// the copy of all bytes is the copy of `op`.
pub proof fn lemma_copy_chunk_advances(
    device: Seq<u8>,
    op: CopyOp,
    read: u64,
    buf_a: Seq<u8>,
    buf_b: Seq<u8>,
    device_length: u64,
)
    requires
        device.len() == device_length,
        op.fits(device_length),
        !range_overlaps(op.source, op.dest_range()),
        read < op.len(),
    ensures
        chunk_effect(copy_done(device, op, read as int), copy_chunk(op, read), buf_a, buf_b)
            == copy_done(device, op, read + copy_chunk(op, read).length),
        copy_done(device, op, 0) == device,
        copy_done(device, op, op.len()) == copied(device, op),
{
    let io = copy_chunk(op, read);
    let before = copy_done(device, op, read as int);
    let after = chunk_effect(before, io, buf_a, buf_b);
    assert(after =~= copy_done(device, op, read + io.length));
    assert(copy_done(device, op, 0) =~= device);
    assert(copy_done(device, op, op.len()) =~= copied(device, op));
}

/// Swapping chunk by chunk is swapping: where the source of `op` does not
/// overlap its destination, each chunk takes the swap one chunk further, and
/// the swap of all bytes is the swap of `op`.
pub proof fn lemma_swap_chunk_advances(
    device: Seq<u8>,
    op: CopyOp,
    read: u64,
    buf_a: Seq<u8>,
    buf_b: Seq<u8>,
    device_length: u64,
)
    requires
        device.len() == device_length,
        op.fits(device_length),
        !range_overlaps(op.source, op.dest_range()),
        read < op.len(),
    ensures
        chunk_effect(swap_done(device, op, read as int), swap_chunk(op, read), buf_a, buf_b)
            == swap_done(device, op, read + swap_chunk(op, read).length),
        swap_done(device, op, 0) == device,
        swap_done(device, op, op.len()) == swapped(device, op),
{
    let io = swap_chunk(op, read);
    let before = swap_done(device, op, read as int);
    let after = chunk_effect(before, io, buf_a, buf_b);
    assert(after =~= swap_done(device, op, read + io.length));
    assert(swap_done(device, op, 0) =~= device);
    assert(swap_done(device, op, op.len()) =~= swapped(device, op));
}

/// The shuffler asks for a copy or a swap only where the source does not
/// overlap the destination.
pub proof fn lemma_moves_are_apart(before: Set<CopyOp>, step: ShuffleStep, after: Set<CopyOp>, device_length: u64)
    requires
        ops_fit(before, device_length),
        step_result(before, step, after),
    ensures
        step matches ShuffleStep::Copy { op } ==> !range_overlaps(op.source, op.dest_range()),
        step matches ShuffleStep::Swap { op } ==> !range_overlaps(op.source, op.dest_range()),
{
    match step {
        ShuffleStep::Copy { op } => {
            assert(op.fits(device_length));
            if range_overlaps(op.source, op.dest_range()) {
                assert(hits(before, op.dest_range()).contains(op));
            }
        },
        ShuffleStep::Swap { op } => {
            assert(op.fits(device_length));
            if range_overlaps(op.source, op.dest_range()) {
                assert(hits(before, op.dest_range()).contains(op));
            }
        },
        _ => {},
    }
}

/// After the lift every final check holds: where the source of an extent
/// had the fingerprint of the report at the start, its destination has it
/// in the end.
pub proof fn lemma_final_checks_hold(
    extents: Seq<ReportExtent>,
    device_length: u64,
    original: Seq<u8>,
    result: Seq<u8>,
    k: int,
)
    requires
        original.len() == device_length,
        complete(extents, extents.len() as int, device_length),
        lifted(extents, original, result),
        0 <= k < extents.len(),
        extents[k].source is Offset,
        range_fingerprint(original, extents[k].source->offset as int, extents[k].length as int)
            == extents[k].source->checksum,
    ensures
        range_fingerprint(result, extents[k].destination_offset as int, extents[k].length as int)
            == extents[k].source->checksum,
{
    let e = extents[k];
    assert(sound(extents, k, device_length));
    lemma_end_of_grows(extents, k + 1, extents.len() as int);
    let from = original.subrange(e.source->offset as int, e.source->offset + e.length);
    let to = result.subrange(e.destination_offset as int, e.destination_offset + e.length);
    assert forall|i: int| 0 <= i < e.length implies from[i] == to[i] by {
        assert(result[extents[k].destination_offset + i] == original[e.source->offset + i]);
    }
    assert(from =~= to);
}

/// The device after `range` was filled with zeros up to `upto`.
pub open spec fn zero_done(device: Seq<u8>, range: Range<u64>, upto: int) -> Seq<u8> {
    Seq::new(
        device.len(),
        |p: int|
            if range.start <= p < upto {
                0u8
            } else {
                device[p]
            },
    )
}

/// The chunk that fills `range` with zeros from `out_offset` on.
pub open spec fn zero_chunk(range: Range<u64>, out_offset: u64) -> ChunkIo {
    ChunkIo {
        length: chunk_length(out_offset, range.end) as usize,
        read_a: None,
        read_b: None,
        write_a: Some(out_offset),
        write_b: None,
    }
}

/// Zeroing chunk by chunk is zeroing: each chunk, written from a buffer of
/// zeros, takes the fill one chunk further, and the fill of a whole region
/// is the fill of one more region of the queue.
pub proof fn lemma_zero_chunk_advances(
    device: Seq<u8>,
    zeros: Seq<Range<u64>>,
    range: Range<u64>,
    out_offset: u64,
    buf_a: Seq<u8>,
    buf_b: Seq<u8>,
)
    requires
        range.start <= out_offset < range.end <= device.len(),
        buf_a.len() >= zero_chunk(range, out_offset).length,
        forall|i: int| 0 <= i < zero_chunk(range, out_offset).length ==> buf_a[i] == 0u8,
    ensures
        chunk_effect(
            zero_done(device, range, out_offset as int),
            zero_chunk(range, out_offset),
            buf_a,
            buf_b,
        ) == zero_done(device, range, out_offset + zero_chunk(range, out_offset).length),
        zero_done(device, range, range.start as int) == device,
        zero_done(zero_filled(device, zeros), range, range.end as int) == zero_filled(
            device,
            zeros.push(range),
        ),
{
    let io = zero_chunk(range, out_offset);
    let before = zero_done(device, range, out_offset as int);
    assert(chunk_effect(before, io, buf_a, buf_b) =~= zero_done(device, range, out_offset + io.length));
    assert(zero_done(device, range, range.start as int) =~= device);
    let longer = zeros.push(range);
    assert forall|p: int| zeroed_at(longer, p) <==> zeroed_at(zeros, p) || range.start <= p < range.end by {
        if zeroed_at(zeros, p) {
            let i = choose|i: int| 0 <= i < zeros.len() && (#[trigger] zeros[i]).start <= p < zeros[i].end;
            assert(longer[i] == zeros[i]);
        }
        if range.start <= p < range.end {
            assert(longer[zeros.len() as int] == range);
        }
        if zeroed_at(longer, p) {
            let i = choose|i: int| 0 <= i < longer.len() && (#[trigger] longer[i]).start <= p < longer[i].end;
            if i < zeros.len() {
                assert(zeros[i] == longer[i]);
            }
        }
    }
    assert(zero_done(zero_filled(device, zeros), range, range.end as int) =~= zero_filled(device, longer));
}

/// The bytes that the operations of `ops` have yet to write.
pub open spec fn written(ops: Set<CopyOp>) -> Set<int> {
    Set::new(|p: int| written_by(ops, p))
}

/// The offsets at which the destinations of `ops` begin.
pub open spec fn starts(ops: Set<CopyOp>) -> Set<int> {
    ops.map(|op: CopyOp| op.destination_offset as int)
}

/// What is left to do: twice the number of bytes to write, less the number
/// of operations that write them. A split leaves the bytes and adds an
/// operation; every other step takes bytes away with the operation that
/// wrote them.
pub open spec fn effort(ops: Set<CopyOp>) -> int {
    2 * written(ops).len() - ops.len()
}

proof fn lemma_written_is_finite(ops: Set<CopyOp>, device_length: u64)
    requires
        ops_fit(ops, device_length),
    ensures
        written(ops).finite(),
        written(ops).len() <= device_length,
{
    lemma_int_range(0, device_length as int);
    assert forall|p: int| written(ops).contains(p) implies set_int_range(0, device_length as int).contains(
        p,
    ) by {
        let w = choose|w: CopyOp| ops.contains(w) && #[trigger] writes_at(w, p);
        assert(w.fits(device_length));
    }
    lemma_len_subset(written(ops), set_int_range(0, device_length as int));
}

/// There are no more operations than bytes to write: the effort is never
/// negative.
proof fn lemma_effort_is_natural(ops: Set<CopyOp>, device_length: u64)
    requires
        ops.finite(),
        ops_fit(ops, device_length),
        dests_apart(ops),
    ensures
        written(ops).finite(),
        starts(ops).finite(),
        starts(ops).len() == ops.len(),
        ops.len() <= written(ops).len(),
        effort(ops) >= 0,
{
    let f = |op: CopyOp| op.destination_offset as int;
    assert(injective_on(f, ops)) by {
        assert forall|x1: CopyOp, x2: CopyOp|
            ops.contains(x1) && ops.contains(x2) && #[trigger] f(x1) == #[trigger] f(x2) implies x1
            == x2 by {
            assert(x1.fits(device_length) && x2.fits(device_length));
            if x1 != x2 {
                assert(range_overlaps(x1.dest_range(), x2.dest_range()));
            }
        }
    }
    lemma_map_size(ops, starts(ops), f);
    lemma_written_is_finite(ops, device_length);
    assert forall|s: int| starts(ops).contains(s) implies written(ops).contains(s) by {
        let op = choose|op: CopyOp| ops.contains(op) && f(op) == s;
        assert(op.fits(device_length));
        assert(ops.contains(op) && writes_at(op, s));
    }
    lemma_len_subset(starts(ops), written(ops));
}

/// Where every operation of `after` writes what an operation of `before`
/// other than `op` wrote, the first byte of `op` is no longer to write.
proof fn lemma_written_shrinks(before: Set<CopyOp>, after: Set<CopyOp>, op: CopyOp, device_length: u64)
    requires
        ops_fit(before, device_length),
        dests_apart(before),
        before.contains(op),
        forall|y: CopyOp, p: int|
            #![trigger after.contains(y), writes_at(y, p)]
            after.contains(y) && writes_at(y, p) ==> exists|x: CopyOp|
                before.contains(x) && x != op && #[trigger] writes_at(x, p),
    ensures
        written(after).len() < written(before).len(),
{
    lemma_written_is_finite(before, device_length);
    let first = op.destination_offset as int;
    assert(op.fits(device_length));
    assert(before.contains(op) && writes_at(op, first));
    assert(written(before).contains(first));
    assert forall|p: int| written(after).contains(p) implies written(before).remove(first).contains(p) by {
        let y = choose|y: CopyOp| after.contains(y) && #[trigger] writes_at(y, p);
        let x = choose|x: CopyOp| before.contains(x) && x != op && #[trigger] writes_at(x, p);
        assert(x.fits(device_length));
        if p == first {
            assert(range_overlaps(x.dest_range(), op.dest_range()));
        }
    }
    lemma_len_subset(written(after), written(before).remove(first));
}

proof fn lemma_removal_lowers_effort(before: Set<CopyOp>, op: CopyOp, device_length: u64)
    requires
        before.finite(),
        ops_fit(before, device_length),
        dests_apart(before),
        before.contains(op),
    ensures
        before.remove(op).finite(),
        0 <= effort(before.remove(op)) < effort(before),
{
    let after = before.remove(op);
    assert forall|y: CopyOp, p: int|
        #![trigger after.contains(y), writes_at(y, p)]
        after.contains(y) && writes_at(y, p) implies exists|x: CopyOp|
        before.contains(x) && x != op && #[trigger] writes_at(x, p) by {
        assert(before.contains(y) && y != op && writes_at(y, p));
    }
    lemma_written_shrinks(before, after, op, device_length);
    lemma_effort_is_natural(after, device_length);
}

proof fn lemma_split_lowers_effort(before: Set<CopyOp>, whole: CopyOp, prefix_len: u64, device_length: u64)
    requires
        before.finite(),
        ops_fit(before, device_length),
        dests_apart(before),
        before.contains(whole),
        0 < prefix_len < whole.len(),
    ensures
        before.remove(whole).insert(chopped(whole, prefix_len).0).insert(
            chopped(whole, prefix_len).1,
        ).finite(),
        0 <= effort(
            before.remove(whole).insert(chopped(whole, prefix_len).0).insert(
                chopped(whole, prefix_len).1,
            ),
        ) < effort(before),
{
    let first = chopped(whole, prefix_len).0;
    let second = chopped(whole, prefix_len).1;
    let without = before.remove(whole);
    let after = without.insert(first).insert(second);
    assert(whole.fits(device_length));
    assert(first.fits(device_length) && second.fits(device_length));
    assert(range_overlaps(first.dest_range(), whole.dest_range()));
    assert(range_overlaps(second.dest_range(), whole.dest_range()));
    assert(!without.contains(first)) by {
        if without.contains(first) {
            assert(before.contains(first) && before.contains(whole));
        }
    }
    assert(!without.insert(first).contains(second)) by {
        if without.contains(second) {
            assert(before.contains(second) && before.contains(whole));
        }
    }
    assert(after.len() == before.len() + 1);
    assert forall|x: CopyOp| #[trigger] after.contains(x) implies x.fits(device_length) by {
        if x != first && x != second {
            assert(before.contains(x));
        }
    }
    assert(dests_apart(after)) by {
        assert forall|a: CopyOp, b: CopyOp|
            #![trigger after.contains(a), after.contains(b)]
            after.contains(a) && after.contains(b) && a != b implies !range_overlaps(
            a.dest_range(),
            b.dest_range(),
        ) by {
            if a != first && a != second {
                assert(before.contains(a) && before.contains(whole));
            }
            if b != first && b != second {
                assert(before.contains(b) && before.contains(whole));
            }
        }
    }
    assert(written(after) =~= written(before)) by {
        assert forall|p: int| written(after).contains(p) <==> written(before).contains(p) by {
            if written_by(after, p) {
                let y = choose|y: CopyOp| after.contains(y) && #[trigger] writes_at(y, p);
                if y == first || y == second {
                    assert(before.contains(whole) && writes_at(whole, p));
                } else {
                    assert(before.contains(y) && writes_at(y, p));
                }
            }
            if written_by(before, p) {
                let x = choose|x: CopyOp| before.contains(x) && #[trigger] writes_at(x, p);
                if x == whole {
                    if writes_at(first, p) {
                        assert(after.contains(first) && writes_at(first, p));
                    } else {
                        assert(after.contains(second) && writes_at(second, p));
                    }
                } else {
                    assert(after.contains(x) && writes_at(x, p));
                }
            }
        }
    }
    lemma_effort_is_natural(after, device_length);
}

proof fn lemma_swap_lowers_effort(before: Set<CopyOp>, op: CopyOp, device_length: u64)
    requires
        before.finite(),
        ops_fit(before, device_length),
        dests_apart(before),
        before.contains(op),
        !op.in_place(),
    ensures
        after_swap(before, op).finite(),
        0 <= effort(after_swap(before, op)) < effort(before),
{
    let after = after_swap(before, op);
    let dest = op.dest_range();
    let rest = before.remove(op);
    assert(op.fits(device_length));
    // every operation of the new queue writes what one of the old queue wrote
    assert forall|y: CopyOp| #[trigger] after.contains(y) implies y.fits(device_length)
        && rest.contains(stand_in(before, y, op)) && stand_in(before, y, op).dest_range()
        == y.dest_range() by {
        let x = stand_in(before, y, op);
        assert(before.contains(x));
        assert(x.fits(device_length));
    }
    // and is the redirection of it
    let redirect = |x: CopyOp|
        if x.source == dest {
            CopyOp { source: op.source, destination_offset: x.destination_offset }
        } else {
            x
        };
    assert(after =~= rest.map(redirect)) by {
        assert forall|y: CopyOp| after.contains(y) implies rest.map(redirect).contains(y) by {
            let x = stand_in(before, y, op);
            assert(rest.contains(x) && redirect(x) == y);
        }
        assert forall|y: CopyOp| rest.map(redirect).contains(y) implies after.contains(y) by {
            let x = choose|x: CopyOp| rest.contains(x) && redirect(x) == y;
            assert(x.fits(device_length));
            if x.source == dest {
                assert(CopyOp { source: dest, destination_offset: y.destination_offset } == x);
            }
        }
    }
    assert(injective_on(redirect, rest)) by {
        assert forall|x1: CopyOp, x2: CopyOp|
            rest.contains(x1) && rest.contains(x2) && #[trigger] redirect(x1) == #[trigger] redirect(
                x2,
            ) implies x1 == x2 by {
            assert(before.contains(x1) && before.contains(x2));
            assert(x1.fits(device_length) && x2.fits(device_length));
            if x1 != x2 {
                assert(redirect(x1).dest_range() == x1.dest_range());
                assert(redirect(x2).dest_range() == x2.dest_range());
                assert(range_overlaps(x1.dest_range(), x2.dest_range()));
            }
        }
    }
    lemma_map_size(rest, after, redirect);
    assert(after.len() == before.len() - 1);
    assert(dests_apart(after)) by {
        assert forall|a: CopyOp, b: CopyOp|
            #![trigger after.contains(a), after.contains(b)]
            after.contains(a) && after.contains(b) && a != b implies !range_overlaps(
            a.dest_range(),
            b.dest_range(),
        ) by {
            let xa = stand_in(before, a, op);
            let xb = stand_in(before, b, op);
            assert(before.contains(xa) && before.contains(xb));
            assert(xa.fits(device_length) && xb.fits(device_length));
            if range_overlaps(a.dest_range(), b.dest_range()) {
                assert(xa == xb);
            }
        }
    }
    assert forall|y: CopyOp, p: int|
        #![trigger after.contains(y), writes_at(y, p)]
        after.contains(y) && writes_at(y, p) implies exists|x: CopyOp|
        before.contains(x) && x != op && #[trigger] writes_at(x, p) by {
        let x = stand_in(before, y, op);
        assert(before.contains(x) && x != op && writes_at(x, p));
    }
    lemma_written_shrinks(before, after, op, device_length);
    lemma_effort_is_natural(after, device_length);
}

/// An operation of the queue before a swap that writes what `y` writes
/// after it.
pub open spec fn stand_in(before: Set<CopyOp>, y: CopyOp, op: CopyOp) -> CopyOp {
    if before.contains(y) && y != op && y.source != op.dest_range() {
        y
    } else {
        CopyOp { source: op.dest_range(), destination_offset: y.destination_offset }
    }
}

/// The shuffler ends.
///
/// Every step but the one that finds the queue empty lowers the effort,
/// which is never negative: from a queue of a given effort no more steps
/// than that can be taken before the queue is empty.
pub proof fn lemma_step_lowers_effort(
    before: Set<CopyOp>,
    step: ShuffleStep,
    after: Set<CopyOp>,
    device_length: u64,
)
    requires
        before.finite(),
        ops_fit(before, device_length),
        dests_apart(before),
        step_result(before, step, after),
        !(step is Drained),
    ensures
        after.finite(),
        0 <= effort(after) < effort(before),
{
    match step {
        ShuffleStep::Drained => {},
        ShuffleStep::InPlace { op } => {
            lemma_removal_lowers_effort(before, op, device_length);
        },
        ShuffleStep::Copy { op } => {
            lemma_removal_lowers_effort(before, op, device_length);
        },
        ShuffleStep::Split { op, other } => {
            let choice = split_choice(op, other);
            assert(before.contains(other));
            lemma_split_lowers_effort(before, choice.0, choice.1, device_length);
        },
        ShuffleStep::Swap { op } => {
            lemma_swap_lowers_effort(before, op, device_length);
        },
    }
}

} // verus!
