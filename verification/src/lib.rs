//! Core engine for splitting a large archive file into fixed-size numbered
//! parts and reassembling the parts back into the original file.
//!
//! The library is pure logic on byte sequences, sizes and file names: which
//! bytes go into which part, what each part is called, in which order parts
//! are concatenated, and how progress is accounted. All file and terminal
//! I/O lives outside the library and hands it plain values.

use vstd::prelude::*;

pub mod chunking;
pub mod naming;
pub mod ordering;
pub mod plan;
pub mod progress;

verus! {

/// The error kinds an operation can surface.
///
/// `NotFound` and `IoError` arise at the filesystem boundary; `InvalidInput`
/// and `EmptyInput` are produced by the engine itself (an unusable file name,
/// a part count past the naming scheme's range, or a combine with no
/// qualifying parts).
#[derive(Debug, Clone, Copy, PartialEq, Eq, Structural)]
pub enum PartError {
    /// The source file or part directory does not exist.
    NotFound,
    /// A file name cannot be used by the naming scheme.
    InvalidInput,
    /// No qualifying part files were found to combine.
    EmptyInput,
    /// A read, write, create or flush failed.
    IoError,
}

} // verus!
