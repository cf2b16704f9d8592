//! Content-based comparison of two directory trees.
//!
//! The library holds the decisions of the comparison pipeline: hashing a
//! file's bytes chunk by chunk, deriving relative-path keys, scheduling work
//! for the hashing workers, reconciling the digests of both sides, and
//! rendering the result files. Walking the file system, reading files,
//! threads and channels live with the caller.
use vstd::prelude::*;

pub mod digest;
pub mod types;
pub mod paths;
pub mod merge;
pub mod schedule;
pub mod report;
