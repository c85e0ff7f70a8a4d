//! Plain request parameters for attaching media items to chapters. The
//! media files themselves — upload, storage, probing — live outside this
//! library; these records carry only the values its callers exchange.

use vstd::prelude::*;

verus! {

/// Parameters for registering a media item under a book, optionally
/// attached to a chapter.
pub struct CreateMediaParams {
    pub title: String,
    pub description: Option<String>,
    pub book_id: i32,
    pub chapter_id: Option<i32>,
}

/// Parameters for editing a media item; every field is optional and only
/// the given ones change.
pub struct UpdateMediaParams {
    pub title: Option<String>,
    pub description: Option<String>,
    pub is_public: Option<bool>,
    pub chapter_id: Option<i32>,
}

} // verus!
