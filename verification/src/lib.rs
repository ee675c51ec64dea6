//! Content-based duplicate detection for document files.
//!
//! The pipeline narrows candidates in phases: directory names are filtered
//! (`filter`), surviving files are bucketed by exact byte length (`group`),
//! buckets are pruned by a digest of a bounded head/tail window (`plan`,
//! `digest`), and survivors are confirmed by a digest of the whole content.
//! The caller performs the traversal and the reads; every decision about
//! what to read and how results are grouped is made here.

use vstd::prelude::*;

pub mod digest;
pub mod filter;
pub mod group;
pub mod laws;
pub mod plan;

verus! {

/// Number of bytes read from the head of a candidate file, and from its tail
/// when the file is long enough to get a tail chunk.
pub const CHUNK_SIZE: u64 = 4096;

/// Files strictly longer than this threshold are fingerprinted from a head
/// chunk and a tail chunk; files of this length or shorter get no tail chunk.
pub const TAIL_THRESHOLD: u64 = 8192;

/// A regular file met during traversal: its path, its exact byte length, and
/// its last-modification time in milliseconds since the epoch (0 when the
/// platform could not provide one).
pub struct FileEntry {
    pub path: String,
    pub size: u64,
    pub modified_at_millis: i64,
}

/// Prepares a scan for logging. The pipeline itself never depends on
/// logging, and installing a platform logger is the embedding layer's
/// concern, so there is nothing to set up here.
pub fn init_logging() {
}

} // verus!
