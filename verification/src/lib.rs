//! Verified core of a CSV splitting tool.
//!
//! The library partitions the body records of a delimited text file into
//! contiguous batches of at most `max_rows` records each, derives a
//! deterministic output filename for every batch, and renders each output
//! file's exact byte content (header line followed by the batch's records).
//! All file reading and writing is left to the surrounding program; the
//! library works on plain byte vectors.

pub mod batch;
pub mod filename;
pub mod render;
pub mod sequential;
pub mod split;

use vstd::prelude::*;

verus! {

/// The record delimiter written after the header and after every record.
pub const LF: u8 = 10;

} // verus!
