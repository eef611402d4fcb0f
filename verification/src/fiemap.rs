//! The extent map of a file, as the host reports it.
//!
//! The types hold what the scanner reads of a FIEMAP request and of its
//! answer; the flags are the bits of `linux/fiemap.h`.

use vstd::prelude::*;

verus! {

/// Sync file data before map.
pub const FIEMAP_FLAG_SYNC: u32 = 0x00000001;

/// Map extended attribute tree.
pub const FIEMAP_FLAG_XATTR: u32 = 0x00000002;

/// Request caching of the extents.
pub const FIEMAP_FLAG_CACHE: u32 = 0x00000004;

/// Last extent in file.
pub const FIEMAP_EXTENT_LAST: u32 = 0x00000001;

/// Data location unknown.
pub const FIEMAP_EXTENT_UNKNOWN: u32 = 0x00000002;

/// Location still pending. Sets EXTENT_UNKNOWN.
pub const FIEMAP_EXTENT_DELALLOC: u32 = 0x00000004;

/// Data can not be read while fs is unmounted.
pub const FIEMAP_EXTENT_ENCODED: u32 = 0x00000008;

/// Data is encrypted by fs. Sets EXTENT_NO_BYPASS.
pub const FIEMAP_EXTENT_ENCRYPTED: u32 = 0x00000080;

/// Extent offsets may not be block aligned.
pub const FIEMAP_EXTENT_NOT_ALIGNED: u32 = 0x00000100;

/// Data mixed with metadata. Sets EXTENT_NOT_ALIGNED.
pub const FIEMAP_EXTENT_DATA_INLINE: u32 = 0x00000200;

/// Multiple files in block. Sets EXTENT_NOT_ALIGNED.
pub const FIEMAP_EXTENT_DATA_TAIL: u32 = 0x00000400;

/// Space allocated, but no data (i.e. zero).
pub const FIEMAP_EXTENT_UNWRITTEN: u32 = 0x00000800;

/// File does not natively support extents. Result merged for efficiency.
pub const FIEMAP_EXTENT_MERGED: u32 = 0x00001000;

/// Space shared with other files.
pub const FIEMAP_EXTENT_SHARED: u32 = 0x00002000;

/// Every extent flag that has a meaning.
pub const FIEMAP_EXTENT_KNOWN: u32 = 0x00003f8f;

/// The number of extents that one request can bring.
pub const FIEMAP_EXTENT_SLOTS: usize = 32;

/// The size in bytes of the head of a request as the host lays it out: two
/// fields of eight bytes and four of four.
pub const FIEMAP_REQUEST_SIZE: u64 = 32;

/// One extent of a file.
#[derive(Debug, Clone, Copy)]
pub struct FiemapExtent {
    /// logical offset in bytes for the start of
    /// the extent from the beginning of the file
    pub fe_logical: u64,
    /// physical offset in bytes for the start
    /// of the extent from the beginning of the disk
    pub fe_physical: u64,
    /// length in bytes for this extent
    pub fe_length: u64,
    /// FIEMAP_EXTENT_* flags for this extent
    pub fe_flags: u32,
}

/// The head of a request for the extent map of a file.
#[derive(Debug, Clone, Copy)]
pub struct FiemapRequest {
    /// logical offset (inclusive) at which to start mapping (in)
    pub fm_start: u64,
    /// logical length of mapping which userspace wants (in)
    pub fm_length: u64,
    /// FIEMAP_FLAG_* flags for request (in/out)
    pub fm_flags: u32,
    /// number of extents that were mapped (out)
    pub fm_mapped_extents: u32,
    /// size of fm_extents array (in)
    pub fm_extent_count: u32,
}

/// A request with room for its answer.
#[derive(Debug)]
pub struct FiemapRequestFull {
    pub request: FiemapRequest,
    /// array of mapped extents (out)
    pub fm_extents: [FiemapExtent; 32],
}

impl FiemapRequestFull {
    /// The request for the extents of a file of `file_length` bytes from
    /// `file_offset` on, with file data synced first and no extent mapped yet.
    pub fn new(file_offset: u64, file_length: u64) -> (full: Self)
        requires
            file_offset <= file_length,
        ensures
            full.request.fm_start == file_offset,
            full.request.fm_length == file_length - file_offset,
            full.request.fm_flags == FIEMAP_FLAG_SYNC,
            full.request.fm_mapped_extents == 0,
            full.request.fm_extent_count == FIEMAP_EXTENT_SLOTS,
            forall|i: int|
                0 <= i < FIEMAP_EXTENT_SLOTS ==> (#[trigger] full.fm_extents@[i]) == (FiemapExtent {
                    fe_logical: 0,
                    fe_physical: 0,
                    fe_length: 0,
                    fe_flags: 0,
                }),
    {
        let blank = FiemapExtent { fe_logical: 0, fe_physical: 0, fe_length: 0, fe_flags: 0 };
        FiemapRequestFull {
            request: FiemapRequest {
                fm_start: file_offset,
                fm_length: file_length - file_offset,
                fm_flags: FIEMAP_FLAG_SYNC,
                fm_mapped_extents: 0,
                fm_extent_count: 32,
            },
            fm_extents: [blank; 32],
        }
    }

    /// The number of extents of the answer, if the answer fits the request.
    pub fn mapped(&self) -> (count: Option<usize>)
        ensures
            count == (if self.request.fm_mapped_extents <= FIEMAP_EXTENT_SLOTS {
                Some(self.request.fm_mapped_extents as usize)
            } else {
                None
            }),
    {
        if self.request.fm_mapped_extents <= 32 {
            Some(self.request.fm_mapped_extents as usize)
        } else {
            None
        }
    }
}

/// Whether `flags` has every bit of `flag`.
pub open spec fn has_flag(flags: u32, flag: u32) -> bool {
    flags & flag == flag
}

/// Whether `flags` has every bit of `flag`.
pub fn flag_set(flags: u32, flag: u32) -> (set: bool)
    ensures
        set == has_flag(flags, flag),
{
    flags & flag == flag
}

/// Whether every bit of `flags` is an extent flag with a meaning.
pub fn flags_known(flags: u32) -> (known: bool)
    ensures
        known == (flags & !FIEMAP_EXTENT_KNOWN == 0),
{
    flags & !FIEMAP_EXTENT_KNOWN == 0
}

/// The known flags are the named ones, and no others.
pub proof fn lemma_known_flags_are_named()
    ensures
        FIEMAP_EXTENT_KNOWN == FIEMAP_EXTENT_LAST | FIEMAP_EXTENT_UNKNOWN | FIEMAP_EXTENT_DELALLOC
            | FIEMAP_EXTENT_ENCODED | FIEMAP_EXTENT_ENCRYPTED | FIEMAP_EXTENT_NOT_ALIGNED
            | FIEMAP_EXTENT_DATA_INLINE | FIEMAP_EXTENT_DATA_TAIL | FIEMAP_EXTENT_UNWRITTEN
            | FIEMAP_EXTENT_MERGED | FIEMAP_EXTENT_SHARED,
{
    assert(0x00003f8fu32 == 0x1u32 | 0x2u32 | 0x4u32 | 0x8u32 | 0x80u32 | 0x100u32 | 0x200u32
        | 0x400u32 | 0x800u32 | 0x1000u32 | 0x2000u32) by (bit_vector);
}

/// The value of FS_IOC_FIEMAP constant: a read-write request of type `f`,
/// number 11, for the head of a request.
pub fn fs_ioc_fiemap() -> (code: u64)
    ensures
        code == 0xC020660B,
{
    let code = (0b11u64 << 30) | ((FIEMAP_REQUEST_SIZE & 0x3FFF) << 16) | (0x66u64 << 8) | 11u64;
    assert(((0b11u64 << 30) | ((32u64 & 0x3FFF) << 16) | (0x66u64 << 8) | 11u64) == 0xC020660Bu64)
        by (bit_vector);
    code
}

} // verus!
