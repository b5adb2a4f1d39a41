//! Creating, searching, deleting and updating bookmarks, as a request layer
//! sees them: each operation takes the store, plain values and the current
//! time, and returns the bookmark with its tag names or a typed error.

use vstd::prelude::*;
use vstd::string::*;
use itertools::Itertools;
use crate::db::bookmark::{text_of, ModifyBookmark};
use crate::db::reconcile::{can_name, update_bookmark_tags};
use crate::db::search::{get_tags_per_bookmark, with_tags};
use crate::db::store::{ints, row_views, tag_views, texts, Store, Tag, TagView, ID_LIMIT};
use crate::models::{BookmarkView, NewBookmark};

verus! {

/// What a caller sends to create a bookmark.
#[derive(Debug)]
pub struct CreateBookmarkPayload {
    pub title: String,
    pub url: String,
    pub tags: Vec<String>,
}

/// A bookmark as it is shown to a caller: the row and the names of its tags.
#[derive(Debug)]
pub struct Bookmark {
    pub id: i32,
    pub title: String,
    pub url: String,
    pub tags: Vec<String>,
    pub created_at: time::OffsetDateTime,
    pub deleted_at: Option<time::OffsetDateTime>,
    pub updated_at: time::OffsetDateTime,
}

impl Bookmark {
    /// This value shows the row `row` with the tag names `tags`.
    pub open spec fn shows(&self, row: BookmarkView, tags: Seq<Seq<char>>) -> bool {
        &&& self.id == row.id
        &&& self.title@ == row.title
        &&& self.url@ == row.url
        &&& texts(self.tags@) == tags
        &&& self.created_at == row.created_at
        &&& self.updated_at == row.updated_at
        &&& self.deleted_at == row.deleted_at
    }
}

/// Why an operation gave no bookmark.
#[derive(Debug)]
pub enum Error {
    /// No bookmark answers to the id; the text says so.
    NotFound(String),
    /// The store could not hold the write; the text says so.
    Storage(String),
}

/// The verb of a request.
#[derive(Debug, Clone, Copy, PartialEq, Eq, Structural)]
pub enum Method {
    Get,
    Post,
    Put,
    Delete,
}

/// The operation that answers a route.
#[derive(Debug, Clone, Copy, PartialEq, Eq, Structural)]
pub enum Handler {
    CreateBookmark,
    SearchBookmarks,
    DeleteBookmark,
    UpdateBookmark,
}

/// One line of the route table: which requests an operation answers.
#[derive(Debug, Clone, Copy)]
pub struct Route {
    pub method: Method,
    /// The path below the mount point, with `<name>` for a path segment and
    /// `?<name>&..` for query parameters that the operation takes.
    pub uri: &'static str,
    /// The media type that the request body must have, if it has a body.
    pub format: Option<&'static str>,
    pub handler: Handler,
}

/// The names of `tags`.
pub open spec fn names_of(tags: Seq<TagView>) -> Seq<Seq<char>> {
    tags.map_values(|t: TagView| t.name)
}

/// The texts of `v` as character sequences.
pub open spec fn strs(v: Seq<&str>) -> Seq<Seq<char>> {
    v.map_values(|s: &str| s@)
}

/// The title filter of a search request: the empty text where none is given.
pub open spec fn title_or_empty(title: Option<&str>) -> Seq<char> {
    match title {
        Some(t) => t@,
        None => Seq::empty(),
    }
}

/// The cursor of a search request: 0, which bounds nothing, where none is
/// given.
pub open spec fn before_or_none(before: Option<i32>) -> int {
    match before {
        Some(b) => b as int,
        None => 0,
    }
}

/// The page size of a search request: 10 where none is given.
pub open spec fn limit_or_default(limit: Option<i64>) -> int {
    match limit {
        Some(l) => l as int,
        None => 10,
    }
}

/// An owned copy of a text.
pub fn owned(s: &str) -> (r: String)
    ensures
        r@ == s@,
{
    s.to_owned()
}

/// The texts of `tag` as owned strings, gathered by `Itertools::collect_vec`.
/// That method collects the items of an iterator into a `Vec`, in the
/// iterator's order; here the iterator yields `owned` of each text in turn.
#[verifier::external_body]
fn owned_names(tag: Vec<&str>) -> (names: Vec<String>)
    ensures
        texts(names@) == strs(tag@),
{
    tag.into_iter().map(owned).collect_vec()
}

/// The names of `tags`, in their order.
pub fn tag_names(tags: &Vec<Tag>) -> (names: Vec<String>)
    ensures
        texts(names@) == names_of(tag_views(tags@)),
{
    let mut names: Vec<String> = Vec::new();
    let n: usize = tags.len();
    let mut i: usize = 0;
    while i < n
        invariant
            i <= n,
            n == tags@.len(),
            names@.len() == i,
            forall|j: int| 0 <= j < i ==> (#[trigger] names@[j])@ == tags@[j].name@,
        decreases n - i,
    {
        names.push(tags[i].name.clone());
        i += 1;
    }
    assert(texts(names@) =~= names_of(tag_views(tags@)));
    names
}

/// The bookmark `m` with the tag names `tags`, as it is shown to a caller.
pub fn describe(m: crate::models::Bookmark, tags: Vec<String>) -> (r: Bookmark)
    ensures
        r.shows(m@, texts(tags@)),
{
    Bookmark {
        id: m.id,
        title: m.title,
        url: m.url,
        tags,
        created_at: m.created_at,
        updated_at: m.updated_at,
        deleted_at: m.deleted_at,
    }
}

/// Creates a bookmark from `payload` at `now` and gives it the tags that the
/// payload names. The answer shows the new row and the payload's tag names
/// as they were sent.
///
/// Fails with [`Error::Storage`], and changes nothing, when the row ids are
/// used up or the tag ids do not suffice for the new names.
pub fn create_bookmark(db: &mut Store, payload: CreateBookmarkPayload, now: time::OffsetDateTime) -> (r:
    Result<Bookmark, Error>)
    requires
        old(db)@.wf(),
    ensures
        final(db)@.wf(),
        r is Ok <==> old(db)@.has_room() && old(db)@.can_name(texts(payload.tags@)),
        r is Ok ==> final(db)@ == old(db)@.create(payload.title@, payload.url@, now).reconcile(
            old(db)@.next_id(),
            texts(payload.tags@),
            now,
        ),
        r is Ok ==> r->Ok_0.shows(
            old(db)@.created(payload.title@, payload.url@, now),
            texts(payload.tags@),
        ),
        r is Err ==> final(db)@ == old(db)@,
        r is Err ==> r->Err_0 is Storage && r->Err_0->Storage_0@ == "Bookmark not saved"@,
{
    if db.bookmark_count() >= ID_LIMIT || !can_name(db, &payload.tags) {
        return Err(Error::Storage(String::from_str("Bookmark not saved")));
    }
    let ghost pre = db@;
    let tags = payload.tags;
    let new_bookmark = NewBookmark { title: payload.title, url: payload.url };
    let created = crate::db::bookmark::create_bookmark(db, new_bookmark, now);
    let m = created.unwrap();
    assert(db@.names() == pre.names());
    assert(db@.is_live(m.id as int));
    let tagged = update_bookmark_tags(db, &m, &tags, now);
    assert(tagged is Ok);
    Ok(describe(m, tags))
}

/// The live bookmarks that pass the filters of the request, newest first,
/// one page of them, each with the names of its tags in the order in which
/// they were associated with it. A request without a title filters by no
/// title, one without a cursor starts at the newest bookmark, and one
/// without a page size gets pages of 10.
pub fn search_bookmarks(
    db: &Store,
    title: Option<&str>,
    tag: Vec<&str>,
    before: Option<i32>,
    limit: Option<i64>,
) -> (out: Vec<Bookmark>)
    requires
        db@.wf(),
    ensures
        out@.len() == db@.search(
            title_or_empty(title),
            strs(tag@),
            before_or_none(before),
            limit_or_default(limit),
        ).len(),
        forall|i: int|
            0 <= i < out@.len() ==> {
                let row = db@.search(
                    title_or_empty(title),
                    strs(tag@),
                    before_or_none(before),
                    limit_or_default(limit),
                )[i];
                (#[trigger] out@[i]).shows(row, names_of(db@.tags_of(row.id)))
            },
{
    let wanted_title: &str = match title {
        Some(t) => t,
        None => {
            proof {
                reveal_strlit("");
            }
            assert(""@ =~= Seq::<char>::empty());
            ""
        },
    };
    let names = owned_names(tag);
    let cursor: i32 = match before {
        Some(b) => b,
        None => 0,
    };
    let size: i64 = match limit {
        Some(l) => l,
        None => 10,
    };
    let rv = crate::db::search::search_bookmarks(db, wanted_title, &names, cursor, size);
    let ghost page = db@.search(wanted_title@, texts(names@), cursor as int, size as int);
    let mut out: Vec<Bookmark> = Vec::new();
    let n: usize = rv.len();
    let mut i: usize = 0;
    while i < n
        invariant
            i <= n,
            n == rv@.len(),
            with_tags(db@, page, rv@),
            out@.len() == i,
            forall|j: int|
                0 <= j < i ==> (#[trigger] out@[j]).shows(page[j], names_of(db@.tags_of(page[j].id))),
        decreases n - i,
    {
        let m = rv[i].0.clone();
        let tags = tag_names(&rv[i].1);
        out.push(describe(m, tags));
        i += 1;
    }
    out
}

/// Soft-deletes the bookmark `id` at `now`. Succeeds when the bookmark was
/// live; a bookmark that does not exist or was soft-deleted before is
/// reported as not found, and nothing changes.
pub fn delete_bookmark(db: &mut Store, id: i32, now: time::OffsetDateTime) -> (r: Result<
    &'static str,
    Error,
>)
    requires
        old(db)@.wf(),
    ensures
        final(db)@.wf(),
        r is Ok <==> old(db)@.is_live(id as int),
        final(db)@ == old(db)@.soft_delete(seq![id as int], now),
        r is Ok ==> r->Ok_0@ == "Deleted"@,
        r is Err ==> final(db)@ == old(db)@,
        r is Err ==> r->Err_0 is NotFound && r->Err_0->NotFound_0@ == "Bookmark not found"@,
{
    let ghost pre = db@;
    let ids: Vec<i32> = vec![id];
    proof {
        let one = ints(ids@);
        assert(one =~= seq![id as int]);
        assert(one.drop_last() =~= Seq::empty());
        assert(pre.soft_delete_count(one.drop_last()) == 0);
    }
    let effected = crate::db::bookmark::delete_bookmarks(db, ids, now) == 1;
    proof {
        if !pre.is_live(id as int) {
            assert(db@.bookmarks =~= pre.bookmarks);
        }
    }
    if effected {
        Ok("Deleted")
    } else {
        Err(Error::NotFound(String::from_str("Bookmark not found")))
    }
}

/// Applies the fields of `payload` that are present to the bookmark `id`
/// and sets its `updated_at` to `now`, whether or not the bookmark is
/// soft-deleted. The answer shows the row as it then stands, with the names
/// of its tags; for a soft-deleted bookmark it shows no tags.
///
/// Fails with [`Error::NotFound`], and changes nothing, when no bookmark has
/// that id.
pub fn update_bookmark(db: &mut Store, id: i32, payload: ModifyBookmark, now: time::OffsetDateTime) -> (r:
    Result<Bookmark, Error>)
    requires
        old(db)@.wf(),
    ensures
        final(db)@.wf(),
        r is Ok <==> old(db)@.has_bookmark(id as int),
        final(db)@ == old(db)@.update(id as int, text_of(payload.title), text_of(payload.url), now),
        r is Ok ==> r->Ok_0.shows(
            final(db)@.row(id as int),
            if final(db)@.is_live(id as int) {
                names_of(final(db)@.tags_of(id as int))
            } else {
                Seq::empty()
            },
        ),
        r is Err ==> final(db)@ == old(db)@,
        r is Err ==> r->Err_0 is NotFound && r->Err_0->NotFound_0@ == "Bookmark not found"@,
{
    let m = match crate::db::bookmark::update_bookmark(db, id, payload, now) {
        Some(m) => m,
        None => {
            return Err(Error::NotFound(String::from_str("Bookmark not found")));
        },
    };
    let ghost row = m@;
    let one: Vec<crate::models::Bookmark> = vec![m.clone()];
    proof {
        reveal_with_fuel(Seq::filter, 2);
        assert(row_views(one@) =~= seq![row]);
        assert(seq![row].drop_last() =~= Seq::empty());
        assert(row.id == id);
    }
    let rv = get_tags_per_bookmark(db, one);
    if rv.len() > 0 {
        let tags = tag_names(&rv[0].1);
        return Ok(describe(rv[0].0.clone(), tags));
    }
    let none: Vec<String> = Vec::new();
    assert(texts(none@) =~= Seq::empty());
    Ok(describe(m, none))
}

/// The route table: one line for each operation of this module.
pub fn routes() -> (r: Vec<Route>)
    ensures
        r@.len() == 4,
        r@[0].method == Method::Post && r@[0].uri@ == "/"@ && r@[0].handler
            == Handler::CreateBookmark,
        r@[0].format is Some && r@[0].format->0@ == "application/json"@,
        r@[1].method == Method::Get && r@[1].uri@ == "/?<title>&<tag>&<before>&<limit>"@
            && r@[1].handler == Handler::SearchBookmarks && r@[1].format is None,
        r@[2].method == Method::Delete && r@[2].uri@ == "/<id>"@ && r@[2].handler
            == Handler::DeleteBookmark && r@[2].format is None,
        r@[3].method == Method::Put && r@[3].uri@ == "/<id>"@ && r@[3].handler
            == Handler::UpdateBookmark,
        r@[3].format is Some && r@[3].format->0@ == "application/json"@,
{
    let mut r: Vec<Route> = Vec::new();
    r.push(Route {
        method: Method::Post,
        uri: "/",
        format: Some("application/json"),
        handler: Handler::CreateBookmark,
    });
    r.push(Route {
        method: Method::Get,
        uri: "/?<title>&<tag>&<before>&<limit>",
        format: None,
        handler: Handler::SearchBookmarks,
    });
    r.push(Route {
        method: Method::Delete,
        uri: "/<id>",
        format: None,
        handler: Handler::DeleteBookmark,
    });
    r.push(Route {
        method: Method::Put,
        uri: "/<id>",
        format: Some("application/json"),
        handler: Handler::UpdateBookmark,
    });
    r
}

} // verus!
