//! Deterministic, lossless snapshots of a directory tree as a text manifest:
//! one line per node, with its path, type, size, modification time, mode and
//! link target, aligned in columns and sorted byte-wise.

pub mod args;
pub mod codec;
pub mod decimal;
pub mod entry;
pub mod error;
pub mod json;
pub mod manifest;
pub mod store;
pub mod text;
pub mod walk;

pub use args::{Command, ProgramArgs};
pub use codec::{decode_path, encode_path};
pub use entry::{mtime_ns, FileMeta, FileTime, ManifestEntry, NodeInfo, NodeType};
pub use error::ManifestError;
pub use store::{acquire_target, PathState};
pub use walk::{build_manifest, is_listed, is_under, should_descend, FoundNode, TRACKING_FILENAME};
