//! Typed failures of the tree engine.

use vstd::prelude::*;

verus! {

/// Why a store operation was rejected. Every rejection leaves the store
/// exactly as it was.
#[derive(Clone, Copy, Debug, PartialEq, Eq, Structural)]
pub enum ChapterError {
    /// A referenced chapter (or parent chapter) does not exist.
    NotFound,
    /// A chapter handed to a group operation does not belong to the expected
    /// `(book_id, parent_id)` scope, or a parent lies in another book.
    ScopeMismatch,
    /// The requested re-parenting would make a chapter its own ancestor.
    CycleDetected,
}

} // verus!
