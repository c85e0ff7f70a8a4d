//! The chapter record and its mathematical model.

use vstd::prelude::*;

verus! {

/// A chapter row: identity, metadata, tree position, and the two derived
/// fields `level` and `path`.
pub struct Chapter {
    /// Unique positive identifier, assigned at creation, immutable.
    pub id: i32,
    /// Non-empty display title.
    pub title: String,
    /// Optional free text.
    pub description: Option<String>,
    /// Owning book; chapters never move between books.
    pub book_id: i32,
    /// Parent chapter in the same book; `None` marks a root chapter.
    pub parent_id: Option<i32>,
    /// Sibling ordering key within the `(book_id, parent_id)` group.
    pub sort_order: i32,
    /// Number of ancestors: 0 for roots, parent's level plus one otherwise.
    /// Derived; never set by callers.
    pub level: i64,
    /// Ancestor ids from the root down to this chapter, joined by `/`.
    /// Derived; never set by callers.
    pub path: String,
    /// Creation instant, as the caller's clock value.
    pub created_at: i64,
    /// Refreshed on every mutation that touches this row.
    pub updated_at: i64,
}

/// The ghost image of a [`Chapter`]: every field as a mathematical value.
#[verifier::ext_equal]
pub ghost struct ChapterModel {
    pub id: int,
    pub title: Seq<char>,
    pub description: Option<Seq<char>>,
    pub book_id: int,
    pub parent_id: Option<int>,
    pub sort_order: int,
    pub level: int,
    pub path: Seq<char>,
    pub created_at: int,
    pub updated_at: int,
}

pub open spec fn opt_view(d: Option<String>) -> Option<Seq<char>> {
    match d {
        Some(s) => Some(s@),
        None => None,
    }
}

pub open spec fn opt_int(p: Option<i32>) -> Option<int> {
    match p {
        Some(v) => Some(v as int),
        None => None,
    }
}

impl View for Chapter {
    type V = ChapterModel;

    open spec fn view(&self) -> ChapterModel {
        ChapterModel {
            id: self.id as int,
            title: self.title@,
            description: opt_view(self.description),
            book_id: self.book_id as int,
            parent_id: opt_int(self.parent_id),
            sort_order: self.sort_order as int,
            level: self.level as int,
            path: self.path@,
            created_at: self.created_at as int,
            updated_at: self.updated_at as int,
        }
    }
}

/// Equality of two optional chapter references.
pub fn opt_id_eq(a: Option<i32>, b: Option<i32>) -> (r: bool)
    ensures
        r == (opt_int(a) == opt_int(b)),
{
    match (a, b) {
        (None, None) => true,
        (Some(x), Some(y)) => x == y,
        _ => false,
    }
}

} // verus!
