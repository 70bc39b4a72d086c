//! Acquiring the manifest file: what is found on disk decides whether the
//! file may be opened (or created) in place.
use vstd::prelude::*;
use crate::error::ManifestError;

verus! {

/// What a metadata query found at a path.
#[derive(Clone, Copy, Debug, PartialEq, Eq, Structural)]
pub enum PathState {
    /// Nothing is there.
    Missing,
    Directory,
    File,
    /// A symlink, socket, device or the like.
    Other,
    /// The query failed for another reason than absence.
    Unreadable,
}

/// The outcome of acquiring the manifest file, given what was found at the
/// tracked directory (following links) and at the manifest's path (not
/// following them).
pub open spec fn acquire_outcome(dir: PathState, target: PathState) -> Result<(), ManifestError> {
    if dir != PathState::Directory {
        Err(ManifestError::NotADirectory)
    } else {
        match target {
            PathState::Missing | PathState::File => Ok(()),
            PathState::Unreadable => Err(ManifestError::MetadataUnavailable),
            _ => Err(ManifestError::UnexpectedFileType),
        }
    }
}

/// Decides whether the manifest file may be opened or created: the tracked
/// path must be a directory, and the manifest's path must be absent or a
/// regular file. Opening never truncates; only an explicit write of a
/// listing replaces the content.
pub fn acquire_target(dir: PathState, target: PathState) -> (r: Result<(), ManifestError>)
    ensures
        r == acquire_outcome(dir, target),
{
    if dir != PathState::Directory {
        return Err(ManifestError::NotADirectory);
    }
    match target {
        PathState::Missing | PathState::File => Ok(()),
        PathState::Unreadable => Err(ManifestError::MetadataUnavailable),
        _ => Err(ManifestError::UnexpectedFileType),
    }
}

} // verus!
