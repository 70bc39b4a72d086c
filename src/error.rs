//! The failures that the library reports.
use vstd::prelude::*;

verus! {

/// Why an operation on a manifest failed.
#[derive(Clone, Copy, Debug, PartialEq, Eq, Structural)]
pub enum ManifestError {
    /// The directory to track is missing or is not a directory.
    NotADirectory,
    /// The manifest's path holds something other than a regular file.
    UnexpectedFileType,
    /// The metadata of an entry, or the target of a symlink, could not be read.
    MetadataUnavailable,
    /// A manifest line is not in the manifest's line format.
    MalformedLine,
    /// The manifest file could not be opened, created or written.
    WriteFailed,
}

} // verus!
