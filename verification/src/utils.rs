//! The positional I/O layer: buffers, chunking, accounting and fingerprints.
//!
//! Every operation on a region of the device runs through a buffer of fixed
//! length, one chunk at a time. The functions here decide, for each chunk,
//! what is read and what is written; the caller performs the reads and writes
//! on the device and comes back for the next chunk.

use std::hash::{DefaultHasher, Hasher};
use std::ops::Range;
use vstd::bytes::{spec_u64_to_le_bytes, u64_to_le_bytes};
use vstd::prelude::*;
use vstd::std_specs::hash::DefaultHasherAdditionalSpecFns;

verus! {

/// The length of an I/O buffer, and so of every chunk but the last of a
/// region. Fingerprints depend on it.
pub const BUFFER_LENGTH: usize = 131072;

/// Creates a buffer of `BUFFER_LENGTH` zero bytes.
pub fn make_buffer() -> (buffer: Vec<u8>)
    ensures
        buffer@.len() == BUFFER_LENGTH,
        forall|i: int| 0 <= i < buffer@.len() ==> buffer@[i] == 0u8,
{
    let mut result = Vec::<u8>::new();
    result.resize(BUFFER_LENGTH, 0u8);
    result
}

/// Structure to own some IO buffers and provide IO operations.
pub struct FileOps {
    /// Whether writes are held back.
    pub dry_run: bool,
    pub buf_a: Vec<u8>,
    pub buf_b: Vec<u8>,
    pub read_ops: u64,
    pub read_bytes: u64,
    pub write_ops: u64,
    pub write_bytes: u64,
}

/// What the caller does on the device for one chunk: first the reads, then
/// the writes. Buffer A is the first buffer of the `FileOps`, buffer B the
/// second; each read fills, and each write sends, the first `length` bytes
/// of its buffer.
#[derive(Debug, Clone, Copy, PartialEq, Eq, Structural)]
pub struct ChunkIo {
    /// The number of bytes of the chunk.
    pub length: usize,
    /// Where to read buffer A from.
    pub read_a: Option<u64>,
    /// Where to read buffer B from.
    pub read_b: Option<u64>,
    /// Where to write buffer A to.
    pub write_a: Option<u64>,
    /// Where to write buffer B to.
    pub write_b: Option<u64>,
}

/// The length of the chunk that follows the first `done` bytes of a region
/// of `length` bytes.
pub open spec fn chunk_length(done: u64, length: u64) -> int {
    if length - done < BUFFER_LENGTH {
        length - done
    } else {
        BUFFER_LENGTH as int
    }
}

/// The sum of two counters, held at the largest value once it is reached.
pub open spec fn tally(count: u64, more: int) -> u64 {
    if count + more > u64::MAX {
        u64::MAX
    } else {
        (count + more) as u64
    }
}

impl FileOps {
    /// The buffers have their full length.
    pub open spec fn wf(&self) -> bool {
        self.buf_a@.len() == BUFFER_LENGTH && self.buf_b@.len() == BUFFER_LENGTH
    }

    /// Fresh buffers and counters.
    pub fn new(dry_run: bool) -> (fops: Self)
        ensures
            fops.wf(),
            fops.dry_run == dry_run,
            forall|i: int| 0 <= i < BUFFER_LENGTH ==> fops.buf_a@[i] == 0u8 && fops.buf_b@[i] == 0u8,
            fops.read_ops == 0,
            fops.read_bytes == 0,
            fops.write_ops == 0,
            fops.write_bytes == 0,
    {
        Self {
            dry_run,
            buf_a: make_buffer(),
            buf_b: make_buffer(),
            read_ops: 0,
            read_bytes: 0,
            write_ops: 0,
            write_bytes: 0,
        }
    }

    /// The length of the next chunk of a region, as a buffer length.
    fn next_chunk_len(done: u64, length: u64) -> (chunk_len: usize)
        requires
            done < length,
        ensures
            chunk_len == chunk_length(done, length),
            0 < chunk_len <= BUFFER_LENGTH,
    {
        if length - done < BUFFER_LENGTH as u64 {
            (length - done) as usize
        } else {
            BUFFER_LENGTH
        }
    }

    /// Counts `ops` reads of `bytes` bytes in all.
    fn count_reads(&mut self, ops: u64, bytes: u64)
        ensures
            final(self).read_ops == tally(old(self).read_ops, ops as int),
            final(self).read_bytes == tally(old(self).read_bytes, bytes as int),
            final(self).write_ops == old(self).write_ops,
            final(self).write_bytes == old(self).write_bytes,
            final(self).dry_run == old(self).dry_run,
            final(self).buf_a == old(self).buf_a,
            final(self).buf_b == old(self).buf_b,
    {
        self.read_ops = self.read_ops.saturating_add(ops);
        self.read_bytes = self.read_bytes.saturating_add(bytes);
    }

    /// Counts `ops` writes of `bytes` bytes in all.
    fn count_writes(&mut self, ops: u64, bytes: u64)
        ensures
            final(self).write_ops == tally(old(self).write_ops, ops as int),
            final(self).write_bytes == tally(old(self).write_bytes, bytes as int),
            final(self).read_ops == old(self).read_ops,
            final(self).read_bytes == old(self).read_bytes,
            final(self).dry_run == old(self).dry_run,
            final(self).buf_a == old(self).buf_a,
            final(self).buf_b == old(self).buf_b,
    {
        self.write_ops = self.write_ops.saturating_add(ops);
        self.write_bytes = self.write_bytes.saturating_add(bytes);
    }

    /// The next chunk of copying `source` to `dest_offset`, after `read`
    /// bytes: read it at the source and, unless writes are held back, write
    /// it at the destination.
    pub fn copy_segment(&mut self, source: &Range<u64>, dest_offset: u64, read: u64) -> (io: ChunkIo)
        requires
            source.start <= source.end,
            read < source.end - source.start,
            dest_offset + (source.end - source.start) <= u64::MAX,
        ensures
            io.length == chunk_length(read, (source.end - source.start) as u64),
            io.read_a == Some((source.start + read) as u64),
            io.read_b is None,
            io.write_a == (if old(self).dry_run {
                None
            } else {
                Some((dest_offset + read) as u64)
            }),
            io.write_b is None,
            accounted(*old(self), io, *final(self)),
    {
        let length = source.end - source.start;
        let chunk_len = Self::next_chunk_len(read, length);
        self.count_reads(1, chunk_len as u64);
        let write_a = if !self.dry_run {
            self.count_writes(1, chunk_len as u64);
            Some(dest_offset + read)
        } else {
            None
        };
        ChunkIo { length: chunk_len, read_a: Some(source.start + read), read_b: None, write_a, write_b: None }
    }

    /// The next chunk of swapping `source` with the region of the same
    /// length at `dest_offset`, after `read` bytes: read both sides and,
    /// unless writes are held back, write each to the place of the other.
    pub fn swap_segment(&mut self, source: &Range<u64>, dest_offset: u64, read: u64) -> (io: ChunkIo)
        requires
            source.start <= source.end,
            read < source.end - source.start,
            dest_offset + (source.end - source.start) <= u64::MAX,
        ensures
            io.length == chunk_length(read, (source.end - source.start) as u64),
            io.read_a == Some((source.start + read) as u64),
            io.read_b == Some((dest_offset + read) as u64),
            io.write_a == (if old(self).dry_run {
                None
            } else {
                Some((dest_offset + read) as u64)
            }),
            io.write_b == (if old(self).dry_run {
                None
            } else {
                Some((source.start + read) as u64)
            }),
            accounted(*old(self), io, *final(self)),
    {
        let length = source.end - source.start;
        let chunk_len = Self::next_chunk_len(read, length);
        self.count_reads(2, 2 * (chunk_len as u64));
        if !self.dry_run {
            self.count_writes(2, 2 * (chunk_len as u64));
            ChunkIo {
                length: chunk_len,
                read_a: Some(source.start + read),
                read_b: Some(dest_offset + read),
                write_a: Some(dest_offset + read),
                write_b: Some(source.start + read),
            }
        } else {
            ChunkIo {
                length: chunk_len,
                read_a: Some(source.start + read),
                read_b: Some(dest_offset + read),
                write_a: None,
                write_b: None,
            }
        }
    }

    /// The next chunk of filling `range` with zeros from `out_offset` on:
    /// buffer A holds the zeros to write there. Nothing is to do while
    /// writes are held back.
    pub fn fill_zeros(&mut self, range: &Range<u64>, out_offset: u64) -> (io: Option<ChunkIo>)
        requires
            old(self).wf(),
            range.start <= out_offset < range.end,
        ensures
            final(self).wf(),
            final(self).dry_run == old(self).dry_run,
            match io {
                None => old(self).dry_run && *final(self) == *old(self),
                Some(io) => {
                    &&& !old(self).dry_run
                    &&& io.length == chunk_length(out_offset, range.end)
                    &&& io.read_a is None
                    &&& io.read_b is None
                    &&& io.write_a == Some(out_offset)
                    &&& io.write_b is None
                    &&& final(self).buf_b == old(self).buf_b
                    &&& final(self).read_ops == old(self).read_ops
                    &&& final(self).read_bytes == old(self).read_bytes
                    &&& final(self).write_ops == tally(old(self).write_ops, 1)
                    &&& final(self).write_bytes == tally(old(self).write_bytes, io.length as int)
                    &&& forall|i: int| 0 <= i < io.length ==> final(self).buf_a@[i] == 0u8
                },
            },
    {
        if self.dry_run {
            return None;
        }
        let chunk_len = Self::next_chunk_len(out_offset, range.end);
        let mut i: usize = 0;
        while i < chunk_len
            invariant
                i <= chunk_len <= BUFFER_LENGTH,
                self.buf_a@.len() == BUFFER_LENGTH,
                self.buf_b == old(self).buf_b,
                self.dry_run == old(self).dry_run,
                self.read_ops == old(self).read_ops,
                self.read_bytes == old(self).read_bytes,
                self.write_ops == old(self).write_ops,
                self.write_bytes == old(self).write_bytes,
                forall|j: int| 0 <= j < i ==> self.buf_a@[j] == 0u8,
            decreases chunk_len - i,
        {
            self.buf_a[i] = 0;
            i += 1;
        }
        self.count_writes(1, chunk_len as u64);
        Some(ChunkIo { length: chunk_len, read_a: None, read_b: None, write_a: Some(out_offset), write_b: None })
    }

    /// The next chunk of fingerprinting the `length` bytes at `offset`,
    /// after `read` bytes: read it into buffer A.
    pub fn validate_checksum(&mut self, offset: u64, length: u64, read: u64) -> (io: ChunkIo)
        requires
            read < length,
            offset + length <= u64::MAX,
        ensures
            io.length == chunk_length(read, length),
            io.read_a == Some((offset + read) as u64),
            io.read_b is None,
            io.write_a is None,
            io.write_b is None,
            accounted(*old(self), io, *final(self)),
    {
        let chunk_len = Self::next_chunk_len(read, length);
        self.count_reads(1, chunk_len as u64);
        ChunkIo { length: chunk_len, read_a: Some(offset + read), read_b: None, write_a: None, write_b: None }
    }

    /// The next chunk of comparing the `length` bytes at `a_offset` of one
    /// file with those at `b_offset` of another, after `read` bytes: read
    /// the first into buffer A and the second into buffer B.
    pub fn check_equality_and_compute_checksum(
        &mut self,
        a_offset: u64,
        b_offset: u64,
        length: u64,
        read: u64,
    ) -> (io: ChunkIo)
        requires
            read < length,
            a_offset + length <= u64::MAX,
            b_offset + length <= u64::MAX,
        ensures
            io.length == chunk_length(read, length),
            io.read_a == Some((a_offset + read) as u64),
            io.read_b == Some((b_offset + read) as u64),
            io.write_a is None,
            io.write_b is None,
            accounted(*old(self), io, *final(self)),
    {
        let chunk_len = Self::next_chunk_len(read, length);
        self.count_reads(2, 2 * (chunk_len as u64));
        ChunkIo {
            length: chunk_len,
            read_a: Some(a_offset + read),
            read_b: Some(b_offset + read),
            write_a: None,
            write_b: None,
        }
    }

    /// Whether the first `length` bytes of the two buffers are the same.
    pub fn buffers_match(&self, length: usize) -> (same: bool)
        requires
            self.wf(),
            length <= BUFFER_LENGTH,
        ensures
            same == (self.buf_a@.take(length as int) == self.buf_b@.take(length as int)),
    {
        let mut i: usize = 0;
        while i < length
            invariant
                i <= length <= BUFFER_LENGTH,
                self.wf(),
                forall|j: int| 0 <= j < i ==> self.buf_a@[j] == self.buf_b@[j],
            decreases length - i,
        {
            if self.buf_a[i] != self.buf_b[i] {
                proof {
                    assert(self.buf_a@.take(length as int)[i as int] != self.buf_b@.take(length as int)[i as int]);
                }
                return false;
            }
            i += 1;
        }
        proof {
            assert(self.buf_a@.take(length as int) =~= self.buf_b@.take(length as int));
        }
        true
    }

    /// The mean number of bytes of a read, if anything was read.
    pub fn read_average(&self) -> (mean: Option<u64>)
        ensures
            mean == (if self.read_ops > 0 {
                Some(self.read_bytes / self.read_ops)
            } else {
                None
            }),
    {
        if self.read_ops > 0 {
            Some(self.read_bytes / self.read_ops)
        } else {
            None
        }
    }

    /// The mean number of bytes of a write, if anything was written.
    pub fn write_average(&self) -> (mean: Option<u64>)
        ensures
            mean == (if self.write_ops > 0 {
                Some(self.write_bytes / self.write_ops)
            } else {
                None
            }),
    {
        if self.write_ops > 0 {
            Some(self.write_bytes / self.write_ops)
        } else {
            None
        }
    }
}

/// The number of reads of a chunk.
pub open spec fn io_reads(io: ChunkIo) -> int {
    (if io.read_a is Some { 1int } else { 0int }) + (if io.read_b is Some { 1int } else { 0int })
}

/// The number of writes of a chunk.
pub open spec fn io_writes(io: ChunkIo) -> int {
    (if io.write_a is Some { 1int } else { 0int }) + (if io.write_b is Some { 1int } else { 0int })
}

/// The number of bytes that a chunk reads.
pub open spec fn io_read_bytes(io: ChunkIo) -> int {
    (if io.read_a is Some { io.length as int } else { 0int }) + (if io.read_b is Some {
        io.length as int
    } else {
        0int
    })
}

/// The number of bytes that a chunk writes.
pub open spec fn io_write_bytes(io: ChunkIo) -> int {
    (if io.write_a is Some { io.length as int } else { 0int }) + (if io.write_b is Some {
        io.length as int
    } else {
        0int
    })
}

/// `after` is `before` with the reads and writes of `io` counted, and with
/// the same buffers and mode.
pub open spec fn accounted(before: FileOps, io: ChunkIo, after: FileOps) -> bool {
    &&& after.dry_run == before.dry_run
    &&& after.buf_a == before.buf_a
    &&& after.buf_b == before.buf_b
    &&& after.read_ops == tally(before.read_ops, io_reads(io))
    &&& after.read_bytes == tally(before.read_bytes, io_read_bytes(io))
    &&& after.write_ops == tally(before.write_ops, io_writes(io))
    &&& after.write_bytes == tally(before.write_bytes, io_write_bytes(io))
}

/// What the hasher is given for one chunk: the length of the chunk as eight
/// bytes, lowest first, and then its bytes.
pub open spec fn chunk_writes(chunk: Seq<u8>) -> Seq<Seq<u8>> {
    seq![spec_u64_to_le_bytes(chunk.len() as u64), chunk]
}

/// What a fresh hasher has been given after it took in `chunks` one by one.
pub open spec fn hasher_state(chunks: Seq<Seq<u8>>) -> Seq<Seq<u8>>
    decreases chunks.len(),
{
    if chunks.len() == 0 {
        Seq::empty()
    } else {
        hasher_state(chunks.drop_last()) + chunk_writes(chunks.last())
    }
}

/// The fingerprint of a stream of chunks. Where the chunks are cut matters.
pub open spec fn fingerprint_of(chunks: Seq<Seq<u8>>) -> u64 {
    DefaultHasher::spec_finish(hasher_state(chunks))
}

/// `bytes` cut into chunks of `BUFFER_LENGTH` bytes, the last one shorter
/// where the length asks for it.
pub open spec fn chunks_of(bytes: Seq<u8>) -> Seq<Seq<u8>>
    decreases bytes.len(),
{
    if bytes.len() == 0 {
        Seq::empty()
    } else if bytes.len() <= BUFFER_LENGTH {
        seq![bytes]
    } else {
        seq![bytes.take(BUFFER_LENGTH as int)] + chunks_of(bytes.skip(BUFFER_LENGTH as int))
    }
}

/// The fingerprint of the `length` bytes of `device` at `offset`.
pub open spec fn range_fingerprint(device: Seq<u8>, offset: int, length: int) -> u64 {
    fingerprint_of(chunks_of(device.subrange(offset, offset + length)))
}

/// The chunks of a region are the chunks that the plan of a fingerprint
/// reads: after `read` bytes of the `length` bytes at `offset`, the chunks
/// still to come are the next chunk of the plan and then the chunks of what
/// follows it.
pub proof fn lemma_chunk_plan_cuts_chunks(device: Seq<u8>, offset: u64, length: u64, read: u64)
    requires
        read < length,
        offset + length <= device.len(),
    ensures
        chunks_of(device.subrange(offset + read, offset + length)) == seq![
            device.subrange(offset + read, offset + read + chunk_length(read, length)),
        ] + chunks_of(
            device.subrange(offset + read + chunk_length(read, length), offset + length),
        ),
{
    let rest = device.subrange(offset + read, offset + length);
    let n = chunk_length(read, length);
    let after = device.subrange(offset + read + n, offset + length);
    if rest.len() <= BUFFER_LENGTH {
        assert(device.subrange(offset + read, offset + read + n) =~= rest);
        assert(after.len() == 0);
        assert(seq![rest] + Seq::<Seq<u8>>::empty() =~= seq![rest]);
    } else {
        assert(rest.take(BUFFER_LENGTH as int) =~= device.subrange(offset + read, offset + read + n));
        assert(rest.skip(BUFFER_LENGTH as int) =~= after);
    }
}

/// A fingerprint in the making: the 64-bit hash that the standard library's
/// default hasher gives of the chunks taken in so far.
pub struct Fingerprint {
    hasher: DefaultHasher,
    chunks: Ghost<Seq<Seq<u8>>>,
}

impl View for Fingerprint {
    type V = Seq<Seq<u8>>;

    /// The chunks taken in so far.
    closed spec fn view(&self) -> Seq<Seq<u8>> {
        self.chunks@
    }
}

impl Fingerprint {
    /// The hasher has taken in the chunks of the view, and nothing else.
    pub closed spec fn wf(&self) -> bool {
        self.hasher@ == hasher_state(self.chunks@)
    }

    /// A fingerprint of no chunks yet.
    pub fn new() -> (fingerprint: Self)
        ensures
            fingerprint.wf(),
            fingerprint@ == Seq::<Seq<u8>>::empty(),
    {
        Fingerprint { hasher: DefaultHasher::new(), chunks: Ghost(Seq::empty()) }
    }

    /// Takes in one more chunk.
    pub fn absorb(&mut self, chunk: &[u8])
        requires
            old(self).wf(),
        ensures
            final(self).wf(),
            final(self)@ == old(self)@.push(chunk@),
    {
        let prefix = u64_to_le_bytes(chunk.len() as u64);
        self.hasher.write(prefix.as_slice());
        self.hasher.write(chunk);
        proof {
            let longer = self.chunks@.push(chunk@);
            assert(longer.drop_last() =~= self.chunks@);
            assert(self.hasher@ =~= hasher_state(self.chunks@) + chunk_writes(chunk@));
            self.chunks@ = longer;
        }
    }

    /// The fingerprint of the chunks taken in.
    pub fn finish(&self) -> (csum: u64)
        requires
            self.wf(),
        ensures
            csum == fingerprint_of(self@),
    {
        self.hasher.finish()
    }

    /// Whether the chunks taken in have the fingerprint `expected_csum`.
    pub fn matches(&self, expected_csum: u64) -> (same: bool)
        requires
            self.wf(),
        ensures
            same == (fingerprint_of(self@) == expected_csum),
    {
        self.finish() == expected_csum
    }
}

impl FileOps {
    /// Takes the first `length` bytes of buffer A into `fingerprint` as one
    /// chunk.
    pub fn hash_buffer(&self, fingerprint: &mut Fingerprint, length: usize)
        requires
            self.wf(),
            length <= BUFFER_LENGTH,
            old(fingerprint).wf(),
        ensures
            final(fingerprint).wf(),
            final(fingerprint)@ == old(fingerprint)@.push(self.buf_a@.take(length as int)),
    {
        let chunk = vstd::slice::slice_subrange(self.buf_a.as_slice(), 0, length);
        proof {
            assert(chunk@ =~= self.buf_a@.take(length as int));
        }
        fingerprint.absorb(chunk);
    }
}

/// Progress through a span of work, in percent.
pub struct SimpleProgress {
    max: u64,
    last: Option<u64>,
}

/// The percentage of `max` that `value` has reached, `value` counting for
/// no more than `max`.
pub open spec fn percent_of(value: u64, max: u64) -> int {
    if value > max {
        100
    } else {
        (value * 100) / (max as int)
    }
}

impl SimpleProgress {
    /// The end of the span.
    pub closed spec fn max(&self) -> u64 {
        self.max
    }

    /// The percentage that was shown last.
    pub closed spec fn last(&self) -> Option<u64> {
        self.last
    }

    /// Progress through a span that ends at `max`, with nothing shown yet.
    pub fn new(max: u64) -> (progress: Self)
        ensures
            progress.max() == max,
            progress.last() is None,
    {
        Self { max, last: None }
    }

    /// Moves to `value`. The result is the percentage to show, if it is not
    /// the one that is shown already.
    pub fn update(&mut self, value: u64) -> (shown: Option<u64>)
        requires
            old(self).max() > 0,
        ensures
            final(self).max() == old(self).max(),
            final(self).last() == Some(percent_of(value, old(self).max()) as u64),
            shown == (if old(self).last() == Some(percent_of(value, old(self).max()) as u64) {
                None
            } else {
                Some(percent_of(value, old(self).max()) as u64)
            }),
    {
        let capped = if value > self.max {
            self.max
        } else {
            value
        };
        let wide = (capped as u128 * 100) / (self.max as u128);
        proof {
            assert((capped as int * 100) / (self.max as int) <= 100) by (nonlinear_arith)
                requires
                    0 <= capped <= self.max,
                    self.max > 0,
            ;
            assert((self.max as int * 100) / (self.max as int) == 100) by (nonlinear_arith)
                requires
                    self.max > 0,
            ;
        }
        let value = wide as u64;
        match self.last {
            Some(v) if v == value => {
                // no change
                None
            },
            _ => {
                self.last = Some(value);
                Some(value)
            },
        }
    }

    /// Ends the progress. The result is the percentage that was shown last.
    pub fn finish(self) -> (shown: Option<u64>)
        ensures
            shown == self.last(),
    {
        self.last
    }
}

/// The offset of the byte to read to learn that a device has at least
/// `minimum_size` bytes: its last.
pub fn validate_device_size(minimum_size: u64) -> (probe: u64)
    requires
        minimum_size >= 1,
    ensures
        probe == minimum_size - 1,
{
    minimum_size - 1
}

/// What a buffer holds after the read of a chunk: the `length` bytes of
/// the device at `at`, or, without a read, what it held before.
pub open spec fn loaded(device: Seq<u8>, at: Option<u64>, buffer: Seq<u8>, length: int) -> Seq<u8> {
    match at {
        Some(offset) => device.subrange(offset as int, offset + length),
        None => buffer.take(length),
    }
}

/// The device after `bytes` were written at `at`, if anything was.
pub open spec fn stored(device: Seq<u8>, at: Option<u64>, bytes: Seq<u8>) -> Seq<u8> {
    match at {
        Some(offset) => Seq::new(
            device.len(),
            |p: int|
                if offset <= p < offset + bytes.len() {
                    bytes[p - offset]
                } else {
                    device[p]
                },
        ),
        None => device,
    }
}

/// The device after the caller has done what `io` asks for, with buffers
/// that held `buf_a` and `buf_b` before.
pub open spec fn chunk_effect(device: Seq<u8>, io: ChunkIo, buf_a: Seq<u8>, buf_b: Seq<u8>) -> Seq<u8> {
    let a = loaded(device, io.read_a, buf_a, io.length as int);
    let b = loaded(device, io.read_b, buf_b, io.length as int);
    stored(stored(device, io.write_a, a), io.write_b, b)
}

/// A chunk without a write leaves the device as it is. Held-back writes
/// plan no write: what a dry run does to the device is nothing.
pub proof fn lemma_chunk_without_write_is_still(
    device: Seq<u8>,
    io: ChunkIo,
    buf_a: Seq<u8>,
    buf_b: Seq<u8>,
)
    requires
        io.write_a is None,
        io.write_b is None,
    ensures
        chunk_effect(device, io, buf_a, buf_b) == device,
{
}

} // verus!
