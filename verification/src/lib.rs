//! Persistence and reconciliation of per-document undo histories.
//!
//! A `History` is a flat revision tree: an append-only sequence of revisions,
//! each holding a forward edit, its inverse and a parent index. The codec in
//! `history::format` gives the tree a binary on-disk form whose header is
//! guarded by a content digest of the document it describes, and
//! `History::merge` grafts the divergent suffix of one tree onto another.

pub mod combinators;
pub mod hash;
pub mod transaction;
pub mod history;
pub mod undofile;
