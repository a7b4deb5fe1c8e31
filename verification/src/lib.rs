//! A page server core: a versioned in-memory index of page modifications,
//! fed by write-ahead-log ingestion and serving page images as of a
//! requested log position.

use vstd::prelude::*;

pub mod buf;
pub mod filepath;
pub mod page_cache;
pub mod redo;
pub mod restore;
pub mod xlog;

verus! {

/// A log sequence number: a monotonic 64-bit position in the write-ahead log.
pub type Lsn = u64;

/// Size of one page, in bytes.
pub const PAGE_SZ: usize = 8192;

/// Size of one write-ahead-log segment file, in bytes.
pub const WAL_SEG_SIZE: usize = 16 * 1024 * 1024;

} // verus!
