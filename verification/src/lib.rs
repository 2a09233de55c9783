//! Finds groups of files with byte-identical content.
//!
//! A scan runs in stages, and each stage is a verified function on plain
//! values:
//!
//! - [`listing`] reduces what a directory walk found to the regular,
//!   non-empty files;
//! - [`size_filter`] lets a file through only once a second file of its size
//!   has been seen, so that a file whose size is unique is never hashed;
//! - [`digest`] fingerprints the bytes of a file;
//! - [`aggregate`] merges the fingerprints into one group per fingerprint;
//! - [`duplicates`] keeps the groups of two or more;
//! - [`report`] lays the groups out as lines.
//!
//! Walking directories, reading files and running the workers is left to the
//! caller; [`pool`] says how many workers to run. [`laws`] states what holds
//! of the stages taken together.

pub mod aggregate;
pub mod digest;
pub mod duplicates;
pub mod laws;
pub mod listing;
pub mod pool;
pub mod report;
pub mod seq_facts;
pub mod size_filter;

pub use crate::aggregate::{
    group_files_by_checksum, Aggregator, FingerprintGroup, HashOutcome, HashResult,
};
pub use crate::digest::{blake3_checksum, Digest};
pub use crate::duplicates::duplicated_files;
pub use crate::listing::{walk_files, WalkEntry};
pub use crate::pool::pool_size;
pub use crate::report::{report_lines, ReportLine};
pub use crate::size_filter::{group_files_by_size, SizeFilter};
