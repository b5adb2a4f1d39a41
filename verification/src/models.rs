//! The stored bookmark row and the value a caller supplies to create one.

use vstd::prelude::*;

verus! {

/// A point in time as the `time` crate holds it. The library stores and
/// copies such values and never looks inside one.
#[verifier::external_type_specification]
#[verifier::external_body]
pub struct ExOffsetDateTime(time::OffsetDateTime);

/// One bookmark row. `deleted_at`, when set, marks the row as soft-deleted.
#[derive(Debug)]
pub struct Bookmark {
    pub id: i32,
    pub title: String,
    pub url: String,
    pub created_at: time::OffsetDateTime,
    pub updated_at: time::OffsetDateTime,
    pub deleted_at: Option<time::OffsetDateTime>,
}

/// The mathematical content of a bookmark row.
pub struct BookmarkView {
    pub id: int,
    pub title: Seq<char>,
    pub url: Seq<char>,
    pub created_at: time::OffsetDateTime,
    pub updated_at: time::OffsetDateTime,
    pub deleted_at: Option<time::OffsetDateTime>,
}

impl BookmarkView {
    /// A row is live until it is soft-deleted.
    pub open spec fn live(self) -> bool {
        self.deleted_at is None
    }
}

impl View for Bookmark {
    type V = BookmarkView;

    open spec fn view(&self) -> BookmarkView {
        BookmarkView {
            id: self.id as int,
            title: self.title@,
            url: self.url@,
            created_at: self.created_at,
            updated_at: self.updated_at,
            deleted_at: self.deleted_at,
        }
    }
}

impl Clone for Bookmark {
    /// A copy of the row, field for field.
    fn clone(&self) -> (r: Bookmark)
        ensures
            r@ == self@,
    {
        Bookmark {
            id: self.id,
            title: self.title.clone(),
            url: self.url.clone(),
            created_at: self.created_at,
            updated_at: self.updated_at,
            deleted_at: self.deleted_at,
        }
    }
}

/// What a caller supplies to create a bookmark; the store assigns the rest.
#[derive(Debug)]
pub struct NewBookmark {
    pub title: String,
    pub url: String,
}

} // verus!
