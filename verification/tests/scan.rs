use extent_lift::fiemap::{
    flag_set, flags_known, fs_ioc_fiemap, FiemapExtent, FiemapRequestFull, FIEMAP_EXTENT_DATA_INLINE,
    FIEMAP_EXTENT_ENCODED, FIEMAP_EXTENT_KNOWN, FIEMAP_EXTENT_LAST, FIEMAP_EXTENT_SHARED,
    FIEMAP_EXTENT_UNWRITTEN, FIEMAP_FLAG_SYNC,
};
use extent_lift::report::{ExtentSource, ReportExtent};
use extent_lift::scan::{confirm_chunk, do_scan, ScanBody, ScanError, ScanStep};
use extent_lift::utils::FileOps;

#[test]
fn fs_ioc_fiemap_value() {
    assert_eq!(0xC020660B, fs_ioc_fiemap());
}

#[test]
fn flags_are_told_apart() {
    assert_eq!(FIEMAP_EXTENT_KNOWN, 0x3f8f);
    assert!(flags_known(0));
    assert!(flags_known(FIEMAP_EXTENT_LAST | FIEMAP_EXTENT_SHARED));
    assert!(flags_known(FIEMAP_EXTENT_KNOWN));
    assert!(!flags_known(0x10));
    assert!(!flags_known(0x8000_0000 | FIEMAP_EXTENT_LAST));
    assert!(flag_set(FIEMAP_EXTENT_LAST | FIEMAP_EXTENT_UNWRITTEN, FIEMAP_EXTENT_UNWRITTEN));
    assert!(!flag_set(FIEMAP_EXTENT_LAST, FIEMAP_EXTENT_UNWRITTEN));
}

#[test]
fn request_asks_for_the_rest_of_the_file() {
    let full = FiemapRequestFull::new(4096, 10_000);
    assert_eq!(full.request.fm_start, 4096);
    assert_eq!(full.request.fm_length, 5904);
    assert_eq!(full.request.fm_flags, FIEMAP_FLAG_SYNC);
    assert_eq!(full.request.fm_mapped_extents, 0);
    assert_eq!(full.request.fm_extent_count, 32);
    assert_eq!(full.fm_extents.len(), 32);
    assert_eq!(full.mapped(), Some(0));
    let mut answered = full;
    answered.request.fm_mapped_extents = 32;
    assert_eq!(answered.mapped(), Some(32));
    answered.request.fm_mapped_extents = 33;
    assert_eq!(answered.mapped(), None);
}

fn extent(logical: u64, physical: u64, length: u64, flags: u32) -> FiemapExtent {
    FiemapExtent { fe_logical: logical, fe_physical: physical, fe_length: length, fe_flags: flags }
}

fn zeros(step: &Option<ReportExtent>) -> Option<(u64, u64)> {
    match step {
        Some(ReportExtent { destination_offset, length, source: ExtentSource::Zeros }) => {
            Some((*destination_offset, *length))
        }
        Some(_) => panic!("a record with a source where zeros were due"),
        None => None,
    }
}

fn data(step: &ScanStep) -> (u64, u64, u64) {
    match step.body {
        ScanBody::Data { logical, physical, length } => (logical, physical, length),
        ScanBody::Zeros(_) => panic!("zeros where data was due"),
    }
}

#[test]
fn mapped_extent_becomes_a_data_record() {
    let step = do_scan(0, 100, &extent(0, 5000, 40, 0)).unwrap();
    assert_eq!(zeros(&step.gap), None);
    assert_eq!(data(&step), (0, 5000, 40));
    assert_eq!(zeros(&step.tail), None);
    assert_eq!(step.next_offset, 40);
    let record = step.body.record(77);
    assert_eq!(record.destination_offset, 0);
    assert_eq!(record.length, 40);
    match record.source {
        ExtentSource::Offset { offset, checksum } => assert_eq!((offset, checksum), (5000, 77)),
        ExtentSource::Zeros => panic!("zeros where data was due"),
    }
}

#[test]
fn hole_before_an_extent_becomes_zeros() {
    let step = do_scan(10, 100, &extent(30, 5000, 20, FIEMAP_EXTENT_SHARED)).unwrap();
    assert_eq!(zeros(&step.gap), Some((10, 20)));
    assert_eq!(data(&step), (30, 5000, 20));
    assert_eq!(zeros(&step.tail), None);
    assert_eq!(step.next_offset, 50);
}

#[test]
fn unwritten_extent_becomes_zeros() {
    let step = do_scan(0, 100, &extent(0, 5000, 40, FIEMAP_EXTENT_UNWRITTEN)).unwrap();
    match &step.body {
        ScanBody::Zeros(record) => {
            assert_eq!((record.destination_offset, record.length), (0, 40));
            let written = step.body.record(5);
            assert!(matches!(written.source, ExtentSource::Zeros));
            assert_eq!((written.destination_offset, written.length), (0, 40));
        }
        ScanBody::Data { .. } => panic!("data where zeros were due"),
    }
    assert_eq!(step.next_offset, 40);
}

#[test]
fn extent_is_cut_at_the_end_of_the_file() {
    let step = do_scan(0, 100, &extent(60, 5000, 4096, FIEMAP_EXTENT_LAST)).unwrap();
    assert_eq!(zeros(&step.gap), Some((0, 60)));
    assert_eq!(data(&step), (60, 5000, 40));
    assert_eq!(zeros(&step.tail), None);
    assert_eq!(step.next_offset, 100);
}

#[test]
fn last_extent_is_followed_by_a_tail_of_zeros() {
    let step = do_scan(0, 100, &extent(0, 5000, 30, FIEMAP_EXTENT_LAST)).unwrap();
    assert_eq!(data(&step), (0, 5000, 30));
    assert_eq!(zeros(&step.tail), Some((30, 70)));
    assert_eq!(step.next_offset, 100);
}

#[test]
fn faulty_extents_are_refused() {
    assert_eq!(do_scan(0, 100, &extent(0, 0, 10, 0x10)).err(), Some(ScanError::UnknownExtentFlag));
    assert_eq!(do_scan(20, 100, &extent(10, 0, 10, 0)).err(), Some(ScanError::ExtentOutOfOrder));
    assert_eq!(do_scan(0, 100, &extent(100, 0, 10, 0)).err(), Some(ScanError::ExtentBeyondFile));
    assert_eq!(
        do_scan(0, 100, &extent(0, 0, 10, FIEMAP_EXTENT_ENCODED | FIEMAP_EXTENT_DATA_INLINE)).err(),
        Some(ScanError::EncodedExtent)
    );
    assert_eq!(do_scan(0, 100, &extent(0, 0, 0, 0)).err(), Some(ScanError::EmptyExtent));
    assert_eq!(do_scan(0, 100, &extent(0, u64::MAX - 5, 10, 0)).err(), Some(ScanError::PhysicalOverflow));
    // without data to read, the physical offset does not matter
    assert!(do_scan(0, 100, &extent(0, u64::MAX - 5, 10, FIEMAP_EXTENT_UNWRITTEN)).is_ok());
}

#[test]
fn records_of_a_scan_tile_the_file() {
    // extents as a host might report them for a file of 1000 bytes
    let extents = vec![
        extent(100, 9000, 200, 0),
        extent(300, 7000, 100, FIEMAP_EXTENT_UNWRITTEN),
        extent(600, 1000, 150, FIEMAP_EXTENT_LAST),
    ];
    let mut records: Vec<ReportExtent> = Vec::new();
    let mut offset = 0u64;
    for e in &extents {
        let step = do_scan(offset, 1000, e).unwrap();
        if let Some(gap) = step.gap {
            records.push(gap);
        }
        records.push(step.body.record(1));
        if let Some(tail) = step.tail {
            records.push(tail);
        }
        assert!(step.next_offset > offset);
        offset = step.next_offset;
    }
    assert_eq!(offset, 1000);
    let mut expected = 0u64;
    for r in &records {
        assert_eq!(r.destination_offset, expected);
        assert!(r.length > 0);
        expected += r.length;
    }
    assert_eq!(expected, 1000);
    assert_eq!(records.len(), 6);
}

#[test]
fn device_must_hold_the_bytes_of_the_file() {
    let mut fops = FileOps::new(true);
    fops.buf_a[..4].copy_from_slice(b"data");
    fops.buf_b[..4].copy_from_slice(b"data");
    assert_eq!(confirm_chunk(&fops, 4), Ok(()));
    fops.buf_b[3] = b'e';
    assert_eq!(confirm_chunk(&fops, 4), Err(ScanError::DeviceDiffers));
    assert_eq!(confirm_chunk(&fops, 3), Ok(()));
}
