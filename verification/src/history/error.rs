//! Failure conditions of the undo-file subsystem.

use vstd::prelude::*;

verus! {

/// Everything that can go wrong while persisting, loading or reconciling an
/// undo history.
#[derive(Debug)]
pub enum StateError {
    /// The digest stored in the undo file no longer matches the live
    /// document: the history is stale and must not be trusted.
    Outdated,
    /// The magic tag or the format version byte is not the supported one.
    InvalidHeader,
    /// An index computed while merging or walking a snapshot chain fell out
    /// of range: an internal invariant was violated.
    InvalidOffset,
    /// A structural violation was found while reconstructing a tree, with a
    /// short description of it.
    InvalidData(String),
    /// A snapshot chain node's digest does not match the parent checkpoint
    /// this session recorded.
    InvalidHash,
    /// The input ended early or held a byte that no encoder produces.
    Io,
}

impl StateError {
    /// A short description of the failure.
    pub fn message(&self) -> String {
        match self {
            StateError::Outdated => "Outdated file".to_owned(),
            StateError::InvalidHeader => "Invalid undofile header".to_owned(),
            StateError::InvalidOffset => "Invalid merge offset".to_owned(),
            StateError::InvalidData(msg) => msg.clone(),
            StateError::InvalidHash => "invalid hash for undofile itself".to_owned(),
            StateError::Io => "unreadable undofile".to_owned(),
        }
    }
}

} // verus!
