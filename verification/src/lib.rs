//! In-place relocation of a file's extents onto the block device that hosts it.
//!
//! The crate holds the decision logic of the lift: interval arithmetic, the
//! interval index of pending copy operations, the planner that turns a scan
//! report into work queues, the shuffler that drains the copy queue, and the
//! chunking and fingerprinting rules of the positional I/O layer. Device I/O
//! itself is performed by the caller, one action at a time.

pub mod fiemap;
pub mod lift;
pub mod range;
pub mod report;
pub mod scan;
pub mod utils;
