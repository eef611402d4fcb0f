use std::hash::{DefaultHasher, Hash, Hasher};

use extent_lift::lift::itree::IntervalTree;
use extent_lift::lift::plan::{load_mapping, ErrorKind, LiftError, OperationQueues};
use extent_lift::lift::{
    chop_op, do_lift, fill_zeros, perform_shuffles, validate_csums, CopyOp, CsumOp, LiftAction,
    ShuffleStep,
};
use extent_lift::report::{ExtentSource, ReportExtent, ReportSummary};
use extent_lift::utils::{ChunkIo, FileOps, Fingerprint};

/// Does on an in-memory device what a chunk asks for.
fn perform(device: &mut Vec<u8>, fops: &mut FileOps, io: &ChunkIo) {
    let n = io.length;
    if let Some(at) = io.read_a {
        let at = at as usize;
        fops.buf_a[..n].copy_from_slice(&device[at..at + n]);
    }
    if let Some(at) = io.read_b {
        let at = at as usize;
        fops.buf_b[..n].copy_from_slice(&device[at..at + n]);
    }
    if let Some(at) = io.write_a {
        let at = at as usize;
        device[at..at + n].copy_from_slice(&fops.buf_a[..n]);
    }
    if let Some(at) = io.write_b {
        let at = at as usize;
        device[at..at + n].copy_from_slice(&fops.buf_b[..n]);
    }
}

fn fingerprint(device: &mut Vec<u8>, fops: &mut FileOps, offset: u64, length: u64) -> u64 {
    let mut fp = Fingerprint::new();
    let mut read = 0u64;
    while read < length {
        let io = fops.validate_checksum(offset, length, read);
        perform(device, fops, &io);
        fops.hash_buffer(&mut fp, io.length);
        read += io.length as u64;
    }
    fp.finish()
}

fn fp_of(bytes: &[u8]) -> u64 {
    let mut device = bytes.to_vec();
    let mut fops = FileOps::new(true);
    fingerprint(&mut device, &mut fops, 0, bytes.len() as u64)
}

struct Outcome {
    swaps: u32,
    copies: u32,
    fops: FileOps,
}

fn lift(
    device: &mut Vec<u8>,
    summary: &ReportSummary,
    extents: &Vec<ReportExtent>,
    dry_run: bool,
) -> Result<Outcome, LiftError> {
    let mut fops = FileOps::new(dry_run);
    let (mut queues, checks) = load_mapping(summary, extents, device.len() as u64)?;
    for check in &checks {
        let measured = fingerprint(device, &mut fops, check.offset, check.length);
        check.confirm_source(measured)?;
    }
    let mut swaps = 0;
    let mut copies = 0;
    let mut steps = 0u64;
    loop {
        steps += 1;
        assert!(steps < 1_000_000, "the lift does not end");
        match do_lift(&mut queues, dry_run) {
            LiftAction::Shuffle(ShuffleStep::Copy { op }) => {
                copies += 1;
                let length = op.source.end - op.source.start;
                let mut read = 0u64;
                while read < length {
                    let io = fops.copy_segment(&op.source, op.destination_offset, read);
                    perform(device, &mut fops, &io);
                    read += io.length as u64;
                }
            }
            LiftAction::Shuffle(ShuffleStep::Swap { op }) => {
                swaps += 1;
                let length = op.source.end - op.source.start;
                let mut read = 0u64;
                while read < length {
                    let io = fops.swap_segment(&op.source, op.destination_offset, read);
                    perform(device, &mut fops, &io);
                    read += io.length as u64;
                }
            }
            LiftAction::Shuffle(_) => {}
            LiftAction::FillZeros(range) => {
                let mut out_offset = range.start;
                while out_offset < range.end {
                    match fops.fill_zeros(&range, out_offset) {
                        Some(io) => {
                            perform(device, &mut fops, &io);
                            out_offset += io.length as u64;
                        }
                        None => break,
                    }
                }
            }
            LiftAction::ValidateChecksum(check) => {
                let measured = fingerprint(device, &mut fops, check.offset, check.length);
                check.confirm_final(measured)?;
            }
            LiftAction::Done => break,
        }
    }
    Ok(Outcome { swaps, copies, fops })
}

fn offset_extent(device: &[u8], destination_offset: u64, length: u64, offset: u64) -> ReportExtent {
    let bytes = &device[offset as usize..(offset + length) as usize];
    ReportExtent {
        destination_offset,
        length,
        source: ExtentSource::Offset { offset, checksum: fp_of(bytes) },
    }
}

fn zeros_extent(destination_offset: u64, length: u64) -> ReportExtent {
    ReportExtent { destination_offset, length, source: ExtentSource::Zeros }
}

#[test]
fn fingerprint_is_the_hash_of_the_chunk() {
    let mut hasher = DefaultHasher::new();
    b"ABCDEFGH"[..].hash(&mut hasher);
    assert_eq!(fp_of(b"ABCDEFGH"), hasher.finish());
    assert_ne!(fp_of(b"ABCDEFGH"), fp_of(b"ABCDEFGI"));

    let mut fp = Fingerprint::new();
    let untouched = fp.finish();
    fp.absorb(b"A");
    assert_ne!(fp.finish(), untouched);
    assert!(fp.matches(fp.finish()));
    assert!(!fp.matches(fp.finish().wrapping_add(1)));
}

#[test]
fn fingerprint_depends_on_chunk_boundaries() {
    let mut whole = Fingerprint::new();
    whole.absorb(b"ABCD");
    let mut parts = Fingerprint::new();
    parts.absorb(b"AB");
    parts.absorb(b"CD");
    assert_ne!(whole.finish(), parts.finish());
}

#[test]
fn identity_needs_no_write() {
    let original = b"ABCDEFGH".to_vec();
    let mut device = original.clone();
    let extents = vec![offset_extent(&original, 0, 8, 0)];
    let outcome = lift(&mut device, &ReportSummary { device_length: 8 }, &extents, false).unwrap();
    assert_eq!(device, b"ABCDEFGH".to_vec());
    assert_eq!(outcome.fops.write_ops, 0);
    assert_eq!(outcome.fops.write_bytes, 0);
    assert_eq!(outcome.swaps, 0);
    assert_eq!(outcome.copies, 0);
}

#[test]
fn swap_halves() {
    let original = b"ABCDEFGH".to_vec();
    let mut device = original.clone();
    let extents = vec![offset_extent(&original, 0, 4, 4), offset_extent(&original, 4, 4, 0)];
    let outcome = lift(&mut device, &ReportSummary { device_length: 8 }, &extents, false).unwrap();
    assert_eq!(device, b"EFGHABCD".to_vec());
    assert_eq!(outcome.swaps, 1);
    assert_eq!(outcome.copies, 0);
}

#[test]
fn left_shift() {
    let original = b"ABCDEFGH".to_vec();
    let mut device = original.clone();
    let extents = vec![offset_extent(&original, 0, 6, 2), zeros_extent(6, 2)];
    lift(&mut device, &ReportSummary { device_length: 8 }, &extents, false).unwrap();
    assert_eq!(device, b"CDEFGH\0\0".to_vec());
}

#[test]
fn three_way_rotation() {
    let original = b"AABBCC..".to_vec();
    let mut device = original.clone();
    let extents = vec![
        offset_extent(&original, 0, 2, 2),
        offset_extent(&original, 2, 2, 4),
        offset_extent(&original, 4, 2, 0),
        zeros_extent(6, 2),
    ];
    let outcome = lift(&mut device, &ReportSummary { device_length: 8 }, &extents, false).unwrap();
    assert_eq!(device, b"BBCCAA\0\0".to_vec());
    assert!(outcome.swaps >= 1);
}

#[test]
fn sparse_tail() {
    let original: Vec<u8> = (0u8..16).map(|i| i.wrapping_mul(37).wrapping_add(11)).collect();
    let mut device = original.clone();
    let extents = vec![offset_extent(&original, 0, 8, 0), zeros_extent(8, 8)];
    lift(&mut device, &ReportSummary { device_length: 16 }, &extents, false).unwrap();
    assert_eq!(&device[..8], &original[..8]);
    assert_eq!(&device[8..], &[0u8; 8]);
}

#[test]
fn fingerprint_mismatch() {
    let original = b"ABCDEFGH".to_vec();
    let mut device = original.clone();
    let wrong = fp_of(b"ABCDEFGH").wrapping_add(1);
    let extents = vec![ReportExtent {
        destination_offset: 0,
        length: 8,
        source: ExtentSource::Offset { offset: 0, checksum: wrong },
    }];
    let outcome = lift(&mut device, &ReportSummary { device_length: 8 }, &extents, false);
    match outcome {
        Err(fault) => {
            assert_eq!(fault, LiftError::SourceChanged);
            assert_eq!(fault.kind(), ErrorKind::Precondition);
        }
        Ok(_) => panic!("a wrong fingerprint went through"),
    }
    assert_eq!(device, original);
}

/// A report that cuts the device into pieces and takes each piece from
/// another place, with some pieces zeroed.
fn shuffled_report(original: &[u8], seed: &mut u64) -> Vec<ReportExtent> {
    let mut next = || {
        *seed = seed.wrapping_mul(6364136223846793005).wrapping_add(1442695040888963407);
        *seed >> 33
    };
    let len = original.len() as u64;
    // cut points
    let mut cuts = vec![0u64, len];
    for _ in 0..(1 + next() % 12) {
        cuts.push(next() % len);
    }
    cuts.sort();
    cuts.dedup();
    let lengths: Vec<u64> = cuts.windows(2).map(|w| w[1] - w[0]).collect();
    // lay the pieces out in another order to find their sources
    let mut order: Vec<usize> = (0..lengths.len()).collect();
    for i in (1..order.len()).rev() {
        let j = (next() % (i as u64 + 1)) as usize;
        order.swap(i, j);
    }
    let mut source_of = vec![0u64; lengths.len()];
    let mut at = 0u64;
    for &piece in &order {
        source_of[piece] = at;
        at += lengths[piece];
    }
    let mut extents = Vec::new();
    let mut destination = 0u64;
    for (piece, &length) in lengths.iter().enumerate() {
        if next() % 5 == 0 {
            extents.push(zeros_extent(destination, length));
        } else {
            extents.push(offset_extent(original, destination, length, source_of[piece]));
        }
        destination += length;
    }
    extents
}

#[test]
fn lift_places_every_extent() {
    let mut seed = 7u64;
    for round in 0..300u64 {
        let original: Vec<u8> = (0..256u64).map(|i| (i * 7 + round * 13 + 1) as u8).collect();
        let extents = shuffled_report(&original, &mut seed);
        let mut device = original.clone();
        lift(&mut device, &ReportSummary { device_length: 256 }, &extents, false).unwrap();
        for e in &extents {
            let d = e.destination_offset as usize;
            let l = e.length as usize;
            match e.source {
                ExtentSource::Zeros => assert!(device[d..d + l].iter().all(|b| *b == 0)),
                ExtentSource::Offset { offset, .. } => {
                    let p = offset as usize;
                    assert_eq!(&device[d..d + l], &original[p..p + l]);
                }
            }
        }
    }
}

#[test]
fn identity_report_changes_nothing() {
    let original: Vec<u8> = (0..64u64).map(|i| (i * 5 + 3) as u8).collect();
    let mut device = original.clone();
    let extents = vec![
        offset_extent(&original, 0, 10, 0),
        offset_extent(&original, 10, 1, 10),
        offset_extent(&original, 11, 53, 11),
    ];
    let outcome = lift(&mut device, &ReportSummary { device_length: 64 }, &extents, false).unwrap();
    assert_eq!(device, original);
    assert_eq!(outcome.fops.write_ops, 0);
}

#[test]
fn dry_run_changes_nothing() {
    let mut seed = 99u64;
    for round in 0..50u64 {
        let original: Vec<u8> = (0..256u64).map(|i| (i * 3 + round) as u8).collect();
        let extents = shuffled_report(&original, &mut seed);
        let mut device = original.clone();
        let outcome = lift(&mut device, &ReportSummary { device_length: 256 }, &extents, true).unwrap();
        assert_eq!(device, original);
        assert_eq!(outcome.fops.write_ops, 0);
        assert_eq!(outcome.fops.write_bytes, 0);
    }
}

#[test]
fn chop_op_cuts_source_and_destination() {
    let op = CopyOp { source: 10..30, destination_offset: 100 };
    let (first, second) = chop_op(&op, 5);
    assert_eq!(first, CopyOp { source: 10..15, destination_offset: 100 });
    assert_eq!(second, CopyOp { source: 15..30, destination_offset: 105 });
}

#[test]
fn load_mapping_builds_the_queues() {
    let extents = vec![
        ReportExtent { destination_offset: 0, length: 4, source: ExtentSource::Offset { offset: 8, checksum: 11 } },
        zeros_extent(4, 4),
        ReportExtent { destination_offset: 8, length: 8, source: ExtentSource::Offset { offset: 0, checksum: 22 } },
        // beyond the end of the device: never looked at
        zeros_extent(16, 0),
    ];
    let (mut queues, checks) = load_mapping(&ReportSummary { device_length: 16 }, &extents, 16).unwrap();
    assert_eq!(queues.device_length, 16);
    assert_eq!(queues.expected_next_offset, 16);
    assert!(queues.is_complete());
    assert_eq!(checks.len(), 2);
    assert_eq!((checks[0].offset, checks[0].length, checks[0].csum), (8, 4, 11));
    assert_eq!((checks[1].offset, checks[1].length, checks[1].csum), (0, 8, 22));
    assert_eq!(queues.zeroing.len(), 1);
    assert_eq!(queues.zeroing[0], 4..8);
    assert_eq!(queues.csums.len(), 2);
    assert_eq!((queues.csums[0].offset, queues.csums[0].length, queues.csums[0].csum), (0, 4, 11));
    assert_eq!((queues.csums[1].offset, queues.csums[1].length, queues.csums[1].csum), (8, 8, 22));
    let all = queues.copies.find(&(0..16));
    assert_eq!(all.len(), 2);
    assert!(all.contains(&&CopyOp { source: 8..12, destination_offset: 0 }));
    assert!(all.contains(&&CopyOp { source: 0..8, destination_offset: 8 }));
    assert_eq!(fill_zeros(&mut queues.zeroing), Some(4..8));
    assert_eq!(fill_zeros(&mut queues.zeroing), None);
    let first = validate_csums(&mut queues.csums).unwrap();
    assert_eq!((first.offset, first.length, first.csum), (0, 4, 11));
    assert!(validate_csums(&mut queues.csums).is_some());
    assert!(validate_csums(&mut queues.csums).is_none());
}

fn plan_error(summary_length: u64, device_length: u64, extents: Vec<ReportExtent>) -> LiftError {
    match load_mapping(&ReportSummary { device_length: summary_length }, &extents, device_length) {
        Ok(_) => panic!("a faulty report went through"),
        Err(fault) => fault,
    }
}

#[test]
fn load_mapping_rejects_faulty_reports() {
    let copy = |d: u64, l: u64, p: u64| ReportExtent {
        destination_offset: d,
        length: l,
        source: ExtentSource::Offset { offset: p, checksum: 0 },
    };
    assert_eq!(plan_error(9, 8, vec![zeros_extent(0, 8)]), LiftError::DeviceLengthMismatch);
    assert_eq!(plan_error(8, 8, vec![]), LiftError::ReportTruncated);
    assert_eq!(plan_error(8, 8, vec![zeros_extent(0, 4)]), LiftError::ReportTruncated);
    // a gap and an overlap
    assert_eq!(plan_error(8, 8, vec![zeros_extent(0, 4), zeros_extent(5, 3)]), LiftError::DestinationMismatch);
    assert_eq!(plan_error(8, 8, vec![zeros_extent(0, 4), zeros_extent(3, 5)]), LiftError::DestinationMismatch);
    assert_eq!(plan_error(8, 8, vec![zeros_extent(0, 0), zeros_extent(0, 8)]), LiftError::EmptyExtent);
    assert_eq!(plan_error(8, 8, vec![zeros_extent(0, 4), zeros_extent(4, 5)]), LiftError::ExtentOverrun);
    assert_eq!(plan_error(8, 8, vec![zeros_extent(0, u64::MAX)]), LiftError::ExtentOverrun);
    assert_eq!(plan_error(8, 8, vec![copy(0, 4, 5), zeros_extent(4, 4)]), LiftError::SourceOutOfBounds);
    assert_eq!(plan_error(8, 8, vec![copy(0, 4, u64::MAX), zeros_extent(4, 4)]), LiftError::SourceOutOfBounds);
    for fault in [
        LiftError::DeviceLengthMismatch,
        LiftError::ReportTruncated,
        LiftError::DestinationMismatch,
        LiftError::EmptyExtent,
        LiftError::ExtentOverrun,
        LiftError::SourceOutOfBounds,
        LiftError::SourceChanged,
    ] {
        assert_eq!(fault.kind(), ErrorKind::Precondition);
    }
    assert_eq!(LiftError::VerificationFailed.kind(), ErrorKind::Postcondition);
}

#[test]
fn push_extent_leaves_queues_alone_on_a_fault() {
    let mut queues = OperationQueues::new(8);
    assert!(!queues.is_complete());
    assert_eq!(queues.push_extent(&zeros_extent(1, 2)).err(), Some(LiftError::DestinationMismatch));
    assert_eq!(queues.expected_next_offset, 0);
    assert!(queues.zeroing.is_empty());
    assert!(queues.push_extent(&zeros_extent(0, 2)).unwrap().is_none());
    assert_eq!(queues.expected_next_offset, 2);
    let check = queues
        .push_extent(&ReportExtent {
            destination_offset: 2,
            length: 6,
            source: ExtentSource::Offset { offset: 1, checksum: 5 },
        })
        .unwrap()
        .unwrap();
    assert_eq!((check.offset, check.length, check.csum), (1, 6, 5));
    assert!(queues.is_complete());
}

fn queue_of(device_length: u64, ops: &[CopyOp]) -> IntervalTree<CopyOp> {
    let mut tree = IntervalTree::new(0..device_length);
    for op in ops {
        assert!(tree.insert(op.clone()));
    }
    tree
}

fn content(tree: &IntervalTree<CopyOp>, device_length: u64) -> Vec<CopyOp> {
    let mut all: Vec<CopyOp> = tree.find(&(0..device_length)).into_iter().cloned().collect();
    all.sort_by_key(|op| op.destination_offset);
    all
}

#[test]
fn shuffler_drops_an_operation_in_place() {
    let mut queue = queue_of(8, &[CopyOp { source: 0..8, destination_offset: 0 }]);
    match perform_shuffles(&mut queue, 8) {
        ShuffleStep::InPlace { op } => assert_eq!(op, CopyOp { source: 0..8, destination_offset: 0 }),
        other => panic!("unexpected step {:?}", other),
    }
    assert!(queue.is_empty());
    assert!(matches!(perform_shuffles(&mut queue, 8), ShuffleStep::Drained));
}

#[test]
fn shuffler_copies_into_a_free_destination() {
    let mut queue = queue_of(8, &[CopyOp { source: 4..8, destination_offset: 0 }]);
    match perform_shuffles(&mut queue, 8) {
        ShuffleStep::Copy { op } => assert_eq!(op, CopyOp { source: 4..8, destination_offset: 0 }),
        other => panic!("unexpected step {:?}", other),
    }
    assert!(queue.is_empty());
}

#[test]
fn shuffler_splits_an_operation_that_overlaps_itself() {
    // destination 0..6 overlaps the source 2..8 from 2 on: cut the operation after 2 bytes
    let mut queue = queue_of(8, &[CopyOp { source: 2..8, destination_offset: 0 }]);
    match perform_shuffles(&mut queue, 8) {
        ShuffleStep::Split { op, other } => {
            assert_eq!(op, CopyOp { source: 2..8, destination_offset: 0 });
            assert_eq!(other, CopyOp { source: 2..8, destination_offset: 0 });
        }
        other => panic!("unexpected step {:?}", other),
    }
    assert_eq!(
        content(&queue, 8),
        vec![
            CopyOp { source: 2..4, destination_offset: 0 },
            CopyOp { source: 4..8, destination_offset: 2 },
        ]
    );
}

#[test]
fn shuffler_split_rules() {
    // the source begins before the destination and runs into it: the
    // operation, as its own reader, is cut where the destination begins
    let mut queue = queue_of(8, &[CopyOp { source: 0..6, destination_offset: 2 }]);
    assert!(matches!(perform_shuffles(&mut queue, 8), ShuffleStep::Split { .. }));
    assert_eq!(
        content(&queue, 8),
        vec![
            CopyOp { source: 0..2, destination_offset: 2 },
            CopyOp { source: 2..6, destination_offset: 4 },
        ]
    );

    // equal starts. Seen from the long operation, its destination 0..6
    // outruns the reader 0..2; seen from the short one, the reader 8..14
    // outruns its destination 8..10. Either way the long one is cut after 2.
    let long = CopyOp { source: 8..14, destination_offset: 0 };
    let short = CopyOp { source: 0..2, destination_offset: 8 };
    let mut queue = queue_of(16, &[long.clone(), short.clone()]);
    match perform_shuffles(&mut queue, 16) {
        ShuffleStep::Split { op, other } => {
            assert!((op == long && other == short) || (op == short && other == long));
        }
        other => panic!("unexpected step {:?}", other),
    }
    assert_eq!(
        content(&queue, 16),
        vec![
            CopyOp { source: 8..10, destination_offset: 0 },
            CopyOp { source: 10..14, destination_offset: 2 },
            CopyOp { source: 0..2, destination_offset: 8 },
        ]
    );
}

#[test]
fn shuffler_swaps_and_redirects_the_reader() {
    let mut queue = queue_of(
        8,
        &[CopyOp { source: 4..8, destination_offset: 0 }, CopyOp { source: 0..4, destination_offset: 4 }],
    );
    match perform_shuffles(&mut queue, 8) {
        ShuffleStep::Swap { op } => {
            let left = content(&queue, 8);
            assert_eq!(left.len(), 1);
            // the operation that is left reads where the swap put its bytes, and so is in place
            assert_eq!(left[0].source, op.source);
            assert_eq!(left[0].source.start, left[0].destination_offset);
        }
        other => panic!("unexpected step {:?}", other),
    }
}

#[test]
fn do_lift_orders_copies_zeros_and_checks() {
    let extents = vec![
        ReportExtent { destination_offset: 0, length: 4, source: ExtentSource::Offset { offset: 0, checksum: 1 } },
        zeros_extent(4, 2),
        zeros_extent(6, 2),
    ];
    let (mut queues, _) = load_mapping(&ReportSummary { device_length: 8 }, &extents, 8).unwrap();
    assert!(matches!(do_lift(&mut queues, false), LiftAction::Shuffle(ShuffleStep::InPlace { .. })));
    match do_lift(&mut queues, false) {
        LiftAction::FillZeros(range) => assert_eq!(range, 4..6),
        other => panic!("unexpected action {:?}", other),
    }
    match do_lift(&mut queues, false) {
        LiftAction::FillZeros(range) => assert_eq!(range, 6..8),
        other => panic!("unexpected action {:?}", other),
    }
    match do_lift(&mut queues, false) {
        LiftAction::ValidateChecksum(CsumOp { offset, length, csum }) => {
            assert_eq!((offset, length, csum), (0, 4, 1))
        }
        other => panic!("unexpected action {:?}", other),
    }
    assert!(matches!(do_lift(&mut queues, false), LiftAction::Done));

    // a dry run leaves the final checks out
    let (mut queues, _) = load_mapping(&ReportSummary { device_length: 8 }, &extents, 8).unwrap();
    assert!(matches!(do_lift(&mut queues, true), LiftAction::Shuffle(_)));
    assert!(matches!(do_lift(&mut queues, true), LiftAction::FillZeros(_)));
    assert!(matches!(do_lift(&mut queues, true), LiftAction::FillZeros(_)));
    assert!(matches!(do_lift(&mut queues, true), LiftAction::Done));
    assert_eq!(queues.csums.len(), 1);
}

#[test]
fn final_check_catches_a_changed_device() {
    let original = b"ABCDEFGH".to_vec();
    let extents = vec![offset_extent(&original, 0, 4, 4), offset_extent(&original, 4, 4, 0)];
    let (mut queues, _) = load_mapping(&ReportSummary { device_length: 8 }, &extents, 8).unwrap();
    // the caller does not do what the steps ask for
    let mut device = original.clone();
    let mut fops = FileOps::new(false);
    let mut failed = false;
    loop {
        match do_lift(&mut queues, false) {
            LiftAction::ValidateChecksum(check) => {
                if fingerprint(&mut device, &mut fops, check.offset, check.length) != check.csum {
                    failed = true;
                    break;
                }
            }
            LiftAction::Done => break,
            _ => {}
        }
    }
    assert!(failed);
}

#[test]
fn shared_sources_never_pass_unnoticed() {
    // two extents take their bytes from one place: the shuffler may swap
    // bytes out from under a destination that it had settled. The final
    // checks see it.
    let original = b"AAAABBBBCCCC".to_vec();
    for (a, b, c) in [(4u64, 4u64, 0u64), (0, 8, 0), (4, 0, 4), (8, 0, 0), (8, 4, 4), (0, 0, 4)] {
        let mut device = original.clone();
        let extents = vec![
            offset_extent(&original, 0, 4, a),
            offset_extent(&original, 4, 4, b),
            offset_extent(&original, 8, 4, c),
        ];
        let mut expected = Vec::new();
        for p in [a, b, c] {
            expected.extend_from_slice(&original[p as usize..p as usize + 4]);
        }
        match lift(&mut device, &ReportSummary { device_length: 12 }, &extents, false) {
            Ok(_) => assert_eq!(device, expected),
            Err(fault) => {
                assert_eq!(fault, LiftError::VerificationFailed);
                assert_eq!(fault.kind(), ErrorKind::Postcondition);
            }
        }
    }
}

#[test]
fn checks_tell_the_start_from_the_end() {
    let check = CsumOp { offset: 0, length: 8, csum: 42 };
    assert_eq!(check.confirm_source(42), Ok(()));
    assert_eq!(check.confirm_final(42), Ok(()));
    assert_eq!(check.confirm_source(43), Err(LiftError::SourceChanged));
    assert_eq!(check.confirm_final(43), Err(LiftError::VerificationFailed));
}

#[test]
fn queues_are_made_for_the_device_of_the_report() {
    let queues = OperationQueues::for_report(&ReportSummary { device_length: 64 }, 64).unwrap();
    assert_eq!(queues.device_length, 64);
    assert_eq!(queues.expected_next_offset, 0);
    assert!(queues.copies.is_empty());
    assert!(queues.zeroing.is_empty());
    assert!(queues.csums.is_empty());
    assert_eq!(
        OperationQueues::for_report(&ReportSummary { device_length: 63 }, 64).err(),
        Some(LiftError::DeviceLengthMismatch)
    );
}
