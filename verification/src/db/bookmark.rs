//! The bookmark rows: creation, field updates and soft deletion.
//!
//! An update is aimed at a row by its id alone: a soft-deleted row is updated
//! like any other.

use vstd::prelude::*;
use crate::db::store::{ints, Store, StoreError, StoreView, ID_LIMIT};
use crate::models::{Bookmark, BookmarkView, NewBookmark};
use crate::seqs::lemma_take_step_contains;

verus! {

/// The fields of a bookmark that an update may change. A field that is
/// `None` is left as it is.
#[derive(Debug)]
pub struct ModifyBookmark {
    pub title: Option<String>,
    pub url: Option<String>,
}

/// The text that an optional field holds, if any.
pub open spec fn text_of(field: Option<String>) -> Option<Seq<char>> {
    match field {
        Some(s) => Some(s@),
        None => None,
    }
}

/// `row` with the fields of the patch that are present, and `updated_at`
/// set to `now`.
pub open spec fn patched(
    row: BookmarkView,
    title: Option<Seq<char>>,
    url: Option<Seq<char>>,
    now: time::OffsetDateTime,
) -> BookmarkView {
    BookmarkView {
        title: match title {
            Some(t) => t,
            None => row.title,
        },
        url: match url {
            Some(u) => u,
            None => row.url,
        },
        updated_at: now,
        ..row
    }
}

/// `row` marked as soft-deleted at `now`, which is also its latest change.
pub open spec fn retired(row: BookmarkView, now: time::OffsetDateTime) -> BookmarkView {
    BookmarkView { deleted_at: Some(now), updated_at: now, ..row }
}

impl StoreView {
    /// The row table can take one more row.
    pub open spec fn has_room(self) -> bool {
        self.bookmarks.len() < ID_LIMIT
    }

    /// The id that the next new row gets.
    pub open spec fn next_id(self) -> int {
        self.bookmarks.len() as int + 1
    }

    /// The row that `create` appends.
    pub open spec fn created(
        self,
        title: Seq<char>,
        url: Seq<char>,
        now: time::OffsetDateTime,
    ) -> BookmarkView {
        BookmarkView {
            id: self.next_id(),
            title,
            url,
            created_at: now,
            updated_at: now,
            deleted_at: None,
        }
    }

    /// The store after a bookmark has been created at `now`: a live row with
    /// the next id is appended.
    pub open spec fn create(
        self,
        title: Seq<char>,
        url: Seq<char>,
        now: time::OffsetDateTime,
    ) -> StoreView {
        StoreView { bookmarks: self.bookmarks.push(self.created(title, url, now)), ..self }
    }

    /// The store after the row `id` has been patched at `now`; the store
    /// itself where no row has that id.
    pub open spec fn update(
        self,
        id: int,
        title: Option<Seq<char>>,
        url: Option<Seq<char>>,
        now: time::OffsetDateTime,
    ) -> StoreView {
        if self.has_bookmark(id) {
            StoreView {
                bookmarks: self.bookmarks.update(id - 1, patched(self.row(id), title, url, now)),
                ..self
            }
        } else {
            self
        }
    }

    /// The store after `updated_at` of the row `id` has been set to `now`.
    pub open spec fn touch(self, id: int, now: time::OffsetDateTime) -> StoreView {
        self.update(id, None, None, now)
    }

    /// The store after the rows named in `ids` have been soft-deleted at
    /// `now`: each live row among them gets `deleted_at = now` and
    /// `updated_at = now`; rows that were soft-deleted before stay as they
    /// are, and no row is removed.
    pub open spec fn soft_delete(self, ids: Seq<int>, now: time::OffsetDateTime) -> StoreView {
        StoreView {
            bookmarks: Seq::new(
                self.bookmarks.len(),
                |i: int|
                    if ids.contains(i + 1) && self.bookmarks[i].live() {
                        retired(self.bookmarks[i], now)
                    } else {
                        self.bookmarks[i]
                    },
            ),
            ..self
        }
    }

    /// The number of live rows that `ids` names, a row named twice counted
    /// once.
    pub open spec fn soft_delete_count(self, ids: Seq<int>) -> nat
        decreases ids.len(),
    {
        if ids.len() == 0 {
            0
        } else {
            let rest = ids.drop_last();
            let id = ids.last();
            self.soft_delete_count(rest) + if self.is_live(id) && !rest.contains(id) {
                1nat
            } else {
                0nat
            }
        }
    }
}

/// Creating a bookmark keeps the store well-formed, and the new row is live.
pub proof fn lemma_create(s: StoreView, title: Seq<char>, url: Seq<char>, now: time::OffsetDateTime)
    requires
        s.wf(),
        s.has_room(),
    ensures
        s.create(title, url, now).wf(),
        s.create(title, url, now).is_live(s.next_id()),
        s.create(title, url, now).row(s.next_id()) == s.created(title, url, now),
{
}

/// Updating a row keeps the store well-formed, changes no other row, and
/// neither deletes nor revives the row.
pub proof fn lemma_update(
    s: StoreView,
    id: int,
    title: Option<Seq<char>>,
    url: Option<Seq<char>>,
    now: time::OffsetDateTime,
)
    requires
        s.wf(),
    ensures
        s.update(id, title, url, now).wf(),
        s.update(id, title, url, now).bookmarks.len() == s.bookmarks.len(),
        forall|other: int|
            other != id && s.has_bookmark(other) ==> #[trigger] s.update(id, title, url, now).row(
                other,
            ) == s.row(other),
        forall|other: int| #[trigger] s.update(id, title, url, now).is_live(other) == s.is_live(other),
        s.has_bookmark(id) ==> s.update(id, title, url, now).row(id) == patched(
            s.row(id),
            title,
            url,
            now,
        ),
{
}

/// Soft deletion keeps the store well-formed and every row in its place;
/// the rows that it names are not live afterwards, and the others are as
/// they were.
pub proof fn lemma_soft_delete(s: StoreView, ids: Seq<int>, now: time::OffsetDateTime)
    requires
        s.wf(),
    ensures
        s.soft_delete(ids, now).wf(),
        s.soft_delete(ids, now).bookmarks.len() == s.bookmarks.len(),
        forall|id: int| ids.contains(id) ==> !#[trigger] s.soft_delete(ids, now).is_live(id),
        forall|id: int|
            !ids.contains(id) && s.has_bookmark(id) ==> #[trigger] s.soft_delete(ids, now).row(id)
                == s.row(id),
        forall|id: int| #[trigger] s.soft_delete(ids, now).is_live(id) ==> s.is_live(id),
{
}

/// The ids that `ids` names and that belong to live rows.
pub open spec fn live_among(s: StoreView, ids: Seq<int>) -> Set<int> {
    ids.to_set().filter(|id: int| s.is_live(id))
}

/// The count of a soft deletion is the number of different live rows that
/// `ids` names.
pub proof fn lemma_soft_delete_count(s: StoreView, ids: Seq<int>)
    ensures
        live_among(s, ids).finite(),
        s.soft_delete_count(ids) == live_among(s, ids).len(),
    decreases ids.len(),
{
    vstd::seq_lib::seq_to_set_is_finite(ids);
    vstd::set_lib::lemma_set_subset_finite(ids.to_set(), live_among(s, ids));
    if ids.len() == 0 {
        assert(live_among(s, ids) =~= Set::empty());
    } else {
        let rest = ids.drop_last();
        let id = ids.last();
        lemma_soft_delete_count(s, rest);
        assert forall|x: int| ids.contains(x) <==> rest.contains(x) || x == id by {
            if ids.contains(x) {
                let i = choose|i: int| 0 <= i < ids.len() && ids[i] == x;
                if i < rest.len() {
                    assert(rest[i] == x);
                }
            }
            if rest.contains(x) {
                let i = choose|i: int| 0 <= i < rest.len() && rest[i] == x;
                assert(ids[i] == x);
            }
            assert(ids[ids.len() - 1] == id);
        }
        if s.is_live(id) && !rest.contains(id) {
            assert(live_among(s, ids) =~= live_among(s, rest).insert(id));
        } else {
            assert(live_among(s, ids) =~= live_among(s, rest));
        }
    }
}

/// Nothing is counted where no named row is live.
pub proof fn lemma_nothing_to_delete(s: StoreView, ids: Seq<int>)
    requires
        forall|i: int| 0 <= i < ids.len() ==> !s.is_live(#[trigger] ids[i]),
    ensures
        s.soft_delete_count(ids) == 0,
    decreases ids.len(),
{
    if ids.len() > 0 {
        let rest = ids.drop_last();
        assert forall|i: int| 0 <= i < rest.len() implies !s.is_live(#[trigger] rest[i]) by {
            assert(rest[i] == ids[i]);
        }
        lemma_nothing_to_delete(s, rest);
        assert(ids.last() == ids[ids.len() - 1]);
    }
}

/// Soft deletion is idempotent: deleting the same rows again changes
/// nothing, whatever the time, and counts no row.
pub proof fn lemma_soft_delete_again(
    s: StoreView,
    ids: Seq<int>,
    now: time::OffsetDateTime,
    later: time::OffsetDateTime,
)
    requires
        s.wf(),
    ensures
        s.soft_delete(ids, now).soft_delete(ids, later) == s.soft_delete(ids, now),
        s.soft_delete(ids, now).soft_delete_count(ids) == 0,
{
    let once = s.soft_delete(ids, now);
    lemma_soft_delete(s, ids, now);
    assert(once.soft_delete(ids, later).bookmarks =~= once.bookmarks);
    assert forall|i: int| 0 <= i < ids.len() implies !once.is_live(#[trigger] ids[i]) by {
        assert(ids.contains(ids[i]));
    }
    lemma_nothing_to_delete(once, ids);
}

/// Deleting one row counts 1 when the row is live and 0 otherwise.
pub proof fn lemma_soft_delete_one(s: StoreView, id: int)
    ensures
        s.soft_delete_count(seq![id]) == if s.is_live(id) {
            1nat
        } else {
            0nat
        },
{
    assert(seq![id].drop_last() =~= Seq::empty());
    assert(s.soft_delete_count(seq![id].drop_last()) == 0);
    assert(seq![id].last() == id);
}

/// Creates a bookmark with `created_at = updated_at = now` and no deletion
/// stamp, and returns its row.
///
/// Fails with [`StoreError::Storage`], and changes nothing, when the row ids
/// are used up.
pub fn create_bookmark(db: &mut Store, new_bookmark: NewBookmark, now: time::OffsetDateTime) -> (r:
    Result<Bookmark, StoreError>)
    requires
        old(db)@.wf(),
    ensures
        final(db)@.wf(),
        r is Ok <==> old(db)@.has_room(),
        r is Ok ==> final(db)@ == old(db)@.create(new_bookmark.title@, new_bookmark.url@, now)
            && r->Ok_0@ == old(db)@.created(new_bookmark.title@, new_bookmark.url@, now),
        r is Err ==> r->Err_0 == StoreError::Storage && final(db)@ == old(db)@,
{
    let count: usize = db.bookmark_count();
    if count >= ID_LIMIT {
        return Err(StoreError::Storage);
    }
    let row = Bookmark {
        id: (count + 1) as i32,
        title: new_bookmark.title,
        url: new_bookmark.url,
        created_at: now,
        updated_at: now,
        deleted_at: None,
    };
    let out = row.clone();
    db.push_bookmark(row);
    Ok(out)
}

/// Applies the fields of `patch` that are present to the row `id`, sets its
/// `updated_at` to `now`, and returns the row as it then stands. Returns
/// `None`, and changes nothing, when no row has that id.
pub fn update_bookmark(
    db: &mut Store,
    id: i32,
    patch: ModifyBookmark,
    now: time::OffsetDateTime,
) -> (r: Option<Bookmark>)
    requires
        old(db)@.wf(),
    ensures
        final(db)@.wf(),
        r is Some <==> old(db)@.has_bookmark(id as int),
        final(db)@ == old(db)@.update(id as int, text_of(patch.title), text_of(patch.url), now),
        r is Some ==> r->0@ == final(db)@.row(id as int),
        r is None ==> final(db)@ == old(db)@,
{
    let count: usize = db.bookmark_count();
    if id < 1 || id as usize > count {
        return None;
    }
    let at: usize = (id - 1) as usize;
    let old_row = db.bookmark_at(at).clone();
    let row = Bookmark {
        id,
        title: match patch.title {
            Some(t) => t,
            None => old_row.title,
        },
        url: match patch.url {
            Some(u) => u,
            None => old_row.url,
        },
        created_at: old_row.created_at,
        updated_at: now,
        deleted_at: old_row.deleted_at,
    };
    let out = row.clone();
    db.put_bookmark(at, row);
    Some(out)
}

/// Sets `updated_at` of the row `id` to `now`; changes nothing where no row
/// has that id.
pub fn touch_bookmark(db: &mut Store, id: i32, now: time::OffsetDateTime)
    requires
        old(db)@.wf(),
    ensures
        final(db)@.wf(),
        final(db)@ == old(db)@.touch(id as int, now),
{
    let count: usize = db.bookmark_count();
    if id < 1 || id as usize > count {
        return;
    }
    let at: usize = (id - 1) as usize;
    let old_row = db.bookmark_at(at).clone();
    let row = Bookmark { updated_at: now, ..old_row };
    db.put_bookmark(at, row);
}

/// Soft-deletes the rows named in `ids` at `now` and returns how many rows
/// went from live to soft-deleted. An id that names no row, or a row that is
/// soft-deleted already, changes nothing and counts for nothing.
pub fn delete_bookmarks(db: &mut Store, ids: Vec<i32>, now: time::OffsetDateTime) -> (count: usize)
    requires
        old(db)@.wf(),
    ensures
        final(db)@.wf(),
        final(db)@ == old(db)@.soft_delete(ints(ids@), now),
        count == old(db)@.soft_delete_count(ints(ids@)),
{
    let ghost pre = db@;
    let ghost all = ints(ids@);
    let rows: usize = db.bookmark_count();
    let n: usize = ids.len();
    let mut count: usize = 0;
    let mut k: usize = 0;
    proof {
        assert(all.take(0) =~= Seq::empty());
        assert(pre.soft_delete(all.take(0), now).bookmarks =~= pre.bookmarks);
    }
    while k < n
        invariant
            k <= n,
            n == ids@.len(),
            all == ints(ids@),
            rows == pre.bookmarks.len(),
            pre.wf(),
            db@.wf(),
            db@ == pre.soft_delete(all.take(k as int), now),
            count == pre.soft_delete_count(all.take(k as int)),
            count <= k,
        decreases n - k,
    {
        let id: i32 = ids[k];
        proof {
            lemma_take_step_contains(all, k as int);
            assert(all.take(k + 1).drop_last() =~= all.take(k as int));
            assert(all.take(k + 1).last() == id as int);
            assert(all[k as int] == id as int);
        }
        if id >= 1 && id as usize <= rows {
            let at: usize = (id - 1) as usize;
            let row = db.bookmark_at(at);
            if row.deleted_at.is_none() {
                let gone = Bookmark {
                    id: row.id,
                    title: row.title.clone(),
                    url: row.url.clone(),
                    created_at: row.created_at,
                    updated_at: now,
                    deleted_at: Some(now),
                };
                db.put_bookmark(at, gone);
                count += 1;
            }
        }
        assert(db@.bookmarks =~= pre.soft_delete(all.take(k + 1), now).bookmarks);
        k += 1;
    }
    assert(all.take(n as int) =~= all);
    count
}

} // verus!
