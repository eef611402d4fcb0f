use extent_lift::utils::{
    make_buffer, validate_device_size, ChunkIo, FileOps, SimpleProgress, BUFFER_LENGTH,
};

#[test]
fn buffer_has_its_length_and_is_zeroed() {
    assert_eq!(BUFFER_LENGTH, 128 * 1024);
    let buffer = make_buffer();
    assert_eq!(buffer.len(), 131072);
    assert!(buffer.iter().all(|b| *b == 0));
}

#[test]
fn new_fileops_has_fresh_buffers_and_counters() {
    let fops = FileOps::new(true);
    assert!(fops.dry_run);
    assert_eq!(fops.buf_a.len(), BUFFER_LENGTH);
    assert_eq!(fops.buf_b.len(), BUFFER_LENGTH);
    assert_eq!((fops.read_ops, fops.read_bytes, fops.write_ops, fops.write_bytes), (0, 0, 0, 0));
    assert_eq!(fops.read_average(), None);
    assert_eq!(fops.write_average(), None);
    assert!(!FileOps::new(false).dry_run);
}

#[test]
fn copy_segment_walks_the_region_in_chunks() {
    let mut fops = FileOps::new(false);
    let source = 1000..(1000 + 300_000u64);
    let io = fops.copy_segment(&source, 500_000, 0);
    assert_eq!(
        io,
        ChunkIo { length: 131072, read_a: Some(1000), read_b: None, write_a: Some(500_000), write_b: None }
    );
    let io = fops.copy_segment(&source, 500_000, 131072);
    assert_eq!(
        io,
        ChunkIo {
            length: 131072,
            read_a: Some(1000 + 131072),
            read_b: None,
            write_a: Some(500_000 + 131072),
            write_b: None
        }
    );
    let io = fops.copy_segment(&source, 500_000, 262144);
    assert_eq!(
        io,
        ChunkIo {
            length: 300_000 - 262144,
            read_a: Some(1000 + 262144),
            read_b: None,
            write_a: Some(500_000 + 262144),
            write_b: None
        }
    );
    assert_eq!(fops.read_ops, 3);
    assert_eq!(fops.read_bytes, 300_000);
    assert_eq!(fops.write_ops, 3);
    assert_eq!(fops.write_bytes, 300_000);
    assert_eq!(fops.read_average(), Some(100_000));
    assert_eq!(fops.write_average(), Some(100_000));
}

#[test]
fn dry_run_plans_no_write() {
    let mut fops = FileOps::new(true);
    let io = fops.copy_segment(&(0..10), 20, 0);
    assert_eq!(io, ChunkIo { length: 10, read_a: Some(0), read_b: None, write_a: None, write_b: None });
    let io = fops.swap_segment(&(0..10), 20, 4);
    assert_eq!(io, ChunkIo { length: 6, read_a: Some(4), read_b: Some(24), write_a: None, write_b: None });
    assert_eq!(fops.fill_zeros(&(0..10), 0), None);
    assert_eq!((fops.read_ops, fops.read_bytes), (3, 22));
    assert_eq!((fops.write_ops, fops.write_bytes), (0, 0));
}

#[test]
fn swap_segment_reads_and_writes_both_sides() {
    let mut fops = FileOps::new(false);
    let io = fops.swap_segment(&(100..108), 200, 3);
    assert_eq!(
        io,
        ChunkIo { length: 5, read_a: Some(103), read_b: Some(203), write_a: Some(203), write_b: Some(103) }
    );
    assert_eq!((fops.read_ops, fops.read_bytes, fops.write_ops, fops.write_bytes), (2, 10, 2, 10));
}

#[test]
fn fill_zeros_hands_out_a_zeroed_buffer() {
    let mut fops = FileOps::new(false);
    for b in fops.buf_a.iter_mut() {
        *b = 0xff;
    }
    let io = fops.fill_zeros(&(10..200_000), 10).unwrap();
    assert_eq!(io, ChunkIo { length: 131072, read_a: None, read_b: None, write_a: Some(10), write_b: None });
    assert!(fops.buf_a[..io.length].iter().all(|b| *b == 0));
    let io = fops.fill_zeros(&(10..200_000), 10 + 131072).unwrap();
    assert_eq!(io.length, 200_000 - 10 - 131072);
    assert_eq!(io.write_a, Some(10 + 131072));
    assert_eq!((fops.write_ops, fops.write_bytes), (2, 199_990));
    assert_eq!((fops.read_ops, fops.read_bytes), (0, 0));
}

#[test]
fn validate_checksum_reads_into_the_first_buffer() {
    let mut fops = FileOps::new(false);
    let io = fops.validate_checksum(7, 5, 2);
    assert_eq!(io, ChunkIo { length: 3, read_a: Some(9), read_b: None, write_a: None, write_b: None });
    assert_eq!((fops.read_ops, fops.read_bytes, fops.write_ops), (1, 3, 0));
}

#[test]
fn check_equality_reads_both_files() {
    let mut fops = FileOps::new(true);
    let io = fops.check_equality_and_compute_checksum(0, 4096, 10, 0);
    assert_eq!(io, ChunkIo { length: 10, read_a: Some(0), read_b: Some(4096), write_a: None, write_b: None });
    assert_eq!((fops.read_ops, fops.read_bytes), (2, 20));
    assert!(fops.buffers_match(10));
    fops.buf_b[9] = 1;
    assert!(!fops.buffers_match(10));
    assert!(fops.buffers_match(9));
    assert!(fops.buffers_match(0));
}

#[test]
fn counters_stop_at_the_largest_value() {
    let mut fops = FileOps::new(false);
    fops.read_bytes = u64::MAX - 1;
    fops.read_ops = u64::MAX;
    fops.validate_checksum(0, 8, 0);
    assert_eq!(fops.read_bytes, u64::MAX);
    assert_eq!(fops.read_ops, u64::MAX);
}

#[test]
fn progress_shows_each_percentage_once() {
    let mut progress = SimpleProgress::new(200);
    assert_eq!(progress.update(0), Some(0));
    assert_eq!(progress.update(1), None);
    assert_eq!(progress.update(2), Some(1));
    assert_eq!(progress.update(3), None);
    assert_eq!(progress.update(100), Some(50));
    assert_eq!(progress.update(199), Some(99));
    assert_eq!(progress.update(200), Some(100));
    assert_eq!(progress.update(1_000_000), None);
    assert_eq!(progress.finish(), Some(100));
    assert_eq!(SimpleProgress::new(5).finish(), None);
}

#[test]
fn progress_of_a_huge_span() {
    let mut progress = SimpleProgress::new(u64::MAX);
    assert_eq!(progress.update(u64::MAX), Some(100));
    assert_eq!(progress.update(u64::MAX / 2), Some(49));
    assert_eq!(progress.update(u64::MAX / 2 + 1), Some(50));
}

#[test]
fn device_size_is_probed_at_the_last_byte() {
    assert_eq!(validate_device_size(1), 0);
    assert_eq!(validate_device_size(4096), 4095);
    assert_eq!(validate_device_size(u64::MAX), u64::MAX - 1);
}
