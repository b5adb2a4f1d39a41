//! The tables behind the collection: bookmark rows, the arena of uniquely
//! named tags, and the association index from bookmark ids to tag ids.
//!
//! Ids are assigned in sequence from 1, and no row or tag is ever removed, so
//! the row with id `n` is the `n`-th row of its table.

use vstd::prelude::*;
use crate::models::{Bookmark, BookmarkView};

verus! {

/// The greatest id that a row or a tag can have.
pub const ID_LIMIT: usize = 2147483647;

/// Why the store refused an operation.
#[derive(Debug, Clone, Copy, PartialEq, Eq, Structural)]
pub enum StoreError {
    /// No live row has the id that the operation was aimed at.
    NotFound,
    /// The store cannot hold the write: its id space is used up, or the write
    /// refers to a row that does not exist.
    Storage,
}

/// One entry of the tag vocabulary.
#[derive(Debug)]
pub struct Tag {
    pub id: i32,
    pub name: String,
}

/// The mathematical content of a tag.
pub struct TagView {
    pub id: int,
    pub name: Seq<char>,
}

impl View for Tag {
    type V = TagView;

    open spec fn view(&self) -> TagView {
        TagView { id: self.id as int, name: self.name@ }
    }
}

impl Clone for Tag {
    /// A copy of the tag.
    fn clone(&self) -> (r: Tag)
        ensures
            r@ == self@,
    {
        Tag { id: self.id, name: self.name.clone() }
    }
}

/// One association row: the bookmark carries the tag.
#[derive(Debug, Clone, Copy)]
pub struct BookmarkTag {
    pub bookmark_id: i32,
    pub tag_id: i32,
}

/// The mathematical content of an association row.
pub struct Link {
    pub bookmark_id: int,
    pub tag_id: int,
}

impl View for BookmarkTag {
    type V = Link;

    open spec fn view(&self) -> Link {
        Link { bookmark_id: self.bookmark_id as int, tag_id: self.tag_id as int }
    }
}

/// The ids of `v` as mathematical integers.
pub open spec fn ints(v: Seq<i32>) -> Seq<int> {
    v.map_values(|x: i32| x as int)
}

/// The texts of `v` as character sequences.
pub open spec fn texts(v: Seq<String>) -> Seq<Seq<char>> {
    v.map_values(|s: String| s@)
}

/// The rows of `v` by their content.
pub open spec fn row_views(v: Seq<Bookmark>) -> Seq<BookmarkView> {
    v.map_values(|b: Bookmark| b@)
}

/// The tags of `v` by their content.
pub open spec fn tag_views(v: Seq<Tag>) -> Seq<TagView> {
    v.map_values(|t: Tag| t@)
}

/// The association rows of `v` by their content.
pub open spec fn link_views(v: Seq<BookmarkTag>) -> Seq<Link> {
    v.map_values(|l: BookmarkTag| l@)
}

/// The three tables as mathematical sequences, each in insertion order.
pub struct StoreView {
    pub bookmarks: Seq<BookmarkView>,
    pub tags: Seq<TagView>,
    pub links: Seq<Link>,
}

impl StoreView {
    /// The store with nothing in it.
    pub open spec fn empty() -> StoreView {
        StoreView { bookmarks: Seq::empty(), tags: Seq::empty(), links: Seq::empty() }
    }

    /// A bookmark row with this id exists, soft-deleted or not.
    pub open spec fn has_bookmark(self, id: int) -> bool {
        1 <= id <= self.bookmarks.len()
    }

    /// The bookmark row with this id.
    pub open spec fn row(self, id: int) -> BookmarkView
        recommends
            self.has_bookmark(id),
    {
        self.bookmarks[id - 1]
    }

    /// A bookmark row with this id exists and is not soft-deleted.
    pub open spec fn is_live(self, id: int) -> bool {
        self.has_bookmark(id) && self.row(id).live()
    }

    /// A tag with this id exists.
    pub open spec fn has_tag(self, id: int) -> bool {
        1 <= id <= self.tags.len()
    }

    /// The tag with this id.
    pub open spec fn tag(self, id: int) -> TagView
        recommends
            self.has_tag(id),
    {
        self.tags[id - 1]
    }

    /// The names of the vocabulary, in the order in which they were created.
    pub open spec fn names(self) -> Seq<Seq<char>> {
        self.tags.map_values(|t: TagView| t.name)
    }

    /// The integrity rules of the tables: ids run from 1 in sequence and fit
    /// the id type, no two tags share a name, every association row refers to
    /// an existing bookmark and an existing tag, and no pair is stored twice.
    pub open spec fn wf(self) -> bool {
        &&& self.bookmarks.len() <= ID_LIMIT
        &&& forall|i: int| 0 <= i < self.bookmarks.len() ==> (#[trigger] self.bookmarks[i]).id == i + 1
        &&& self.tags.len() <= ID_LIMIT
        &&& forall|i: int| 0 <= i < self.tags.len() ==> (#[trigger] self.tags[i]).id == i + 1
        &&& self.names().no_duplicates()
        &&& forall|k: int|
            0 <= k < self.links.len() ==> self.has_bookmark((#[trigger] self.links[k]).bookmark_id)
                && self.has_tag(self.links[k].tag_id)
        &&& self.links.no_duplicates()
    }
}

/// The collection's state. It changes only through the operations of this
/// crate, each of which keeps the integrity rules of [`StoreView::wf`].
pub struct Store {
    bookmarks: Vec<Bookmark>,
    tags: Vec<Tag>,
    links: Vec<BookmarkTag>,
}

impl View for Store {
    type V = StoreView;

    closed spec fn view(&self) -> StoreView {
        StoreView {
            bookmarks: row_views(self.bookmarks@),
            tags: tag_views(self.tags@),
            links: link_views(self.links@),
        }
    }
}

impl Store {
    /// An empty store.
    pub fn new() -> (s: Store)
        ensures
            s@ == StoreView::empty(),
            s@.wf(),
    {
        let s = Store { bookmarks: Vec::new(), tags: Vec::new(), links: Vec::new() };
        assert(s@.bookmarks =~= Seq::empty());
        assert(s@.tags =~= Seq::empty());
        assert(s@.links =~= Seq::empty());
        assert(s@.names() =~= Seq::empty());
        s
    }

    /// The number of bookmark rows, soft-deleted ones included.
    pub fn bookmark_count(&self) -> (n: usize)
        ensures
            n == self@.bookmarks.len(),
    {
        self.bookmarks.len()
    }

    /// The bookmark row with this id, soft-deleted or not.
    pub fn bookmark(&self, id: i32) -> (r: Option<&Bookmark>)
        ensures
            r is Some <==> self@.has_bookmark(id as int),
            r is Some ==> r->0@ == self@.row(id as int),
    {
        if id < 1 || id as usize > self.bookmarks.len() {
            return None;
        }
        Some(&self.bookmarks[(id - 1) as usize])
    }

    /// The `i`-th bookmark row in order of creation.
    pub(crate) fn bookmark_at(&self, i: usize) -> (r: &Bookmark)
        requires
            i < self@.bookmarks.len(),
        ensures
            r@ == self@.bookmarks[i as int],
    {
        &self.bookmarks[i]
    }

    /// Appends a row that carries the next free id.
    pub(crate) fn push_bookmark(&mut self, row: Bookmark)
        requires
            old(self)@.wf(),
            row.id == old(self)@.bookmarks.len() + 1,
        ensures
            final(self)@ == (StoreView { bookmarks: old(self)@.bookmarks.push(row@), ..old(self)@ }),
            final(self)@.wf(),
    {
        self.bookmarks.push(row);
        assert(self@.bookmarks =~= old(self)@.bookmarks.push(row@));
    }

    /// Replaces the `i`-th row by one with the same id.
    pub(crate) fn put_bookmark(&mut self, i: usize, row: Bookmark)
        requires
            old(self)@.wf(),
            i < old(self)@.bookmarks.len(),
            row.id == i + 1,
        ensures
            final(self)@ == (StoreView {
                bookmarks: old(self)@.bookmarks.update(i as int, row@),
                ..old(self)@
            }),
            final(self)@.wf(),
    {
        self.bookmarks.set(i, row);
        assert(self@.bookmarks =~= old(self)@.bookmarks.update(i as int, row@));
    }

    /// The size of the tag vocabulary.
    pub fn tag_count(&self) -> (n: usize)
        ensures
            n == self@.tags.len(),
    {
        self.tags.len()
    }

    /// The tag with this id.
    pub fn tag(&self, id: i32) -> (r: Option<&Tag>)
        ensures
            r is Some <==> self@.has_tag(id as int),
            r is Some ==> r->0@ == self@.tag(id as int),
    {
        if id < 1 || id as usize > self.tags.len() {
            return None;
        }
        Some(&self.tags[(id - 1) as usize])
    }

    /// The `i`-th tag in order of creation.
    pub(crate) fn tag_at(&self, i: usize) -> (r: &Tag)
        requires
            i < self@.tags.len(),
        ensures
            r@ == self@.tags[i as int],
    {
        &self.tags[i]
    }

    /// Appends a tag that carries the next free id and a name not yet in the
    /// vocabulary.
    pub(crate) fn push_tag(&mut self, tag: Tag)
        requires
            old(self)@.wf(),
            tag.id == old(self)@.tags.len() + 1,
            !old(self)@.names().contains(tag.name@),
        ensures
            final(self)@ == (StoreView { tags: old(self)@.tags.push(tag@), ..old(self)@ }),
            final(self)@.wf(),
    {
        self.tags.push(tag);
        assert(self@.tags =~= old(self)@.tags.push(tag@));
        assert(self@.names() =~= old(self)@.names().push(tag.name@));
    }

    /// The number of association rows.
    pub fn link_count(&self) -> (n: usize)
        ensures
            n == self@.links.len(),
    {
        self.links.len()
    }

    /// The association rows, in order of insertion.
    pub fn links(&self) -> (r: Vec<BookmarkTag>)
        ensures
            link_views(r@) == self@.links,
    {
        let mut r: Vec<BookmarkTag> = Vec::new();
        let n: usize = self.links.len();
        let mut k: usize = 0;
        while k < n
            invariant
                k <= n,
                n == self.links@.len(),
                r@ == self.links@.take(k as int),
            decreases n - k,
        {
            r.push(self.links[k]);
            assert(r@ =~= self.links@.take(k + 1));
            k += 1;
        }
        assert(self.links@.take(n as int) =~= self.links@);
        r
    }

    /// The `k`-th association row in order of insertion.
    pub(crate) fn link_at(&self, k: usize) -> (l: BookmarkTag)
        requires
            k < self@.links.len(),
        ensures
            l@ == self@.links[k as int],
    {
        self.links[k]
    }

    /// Appends an association row between an existing bookmark and an
    /// existing tag that are not yet associated.
    pub(crate) fn push_link(&mut self, link: BookmarkTag)
        requires
            old(self)@.wf(),
            old(self)@.has_bookmark(link.bookmark_id as int),
            old(self)@.has_tag(link.tag_id as int),
            !old(self)@.links.contains(link@),
        ensures
            final(self)@ == (StoreView { links: old(self)@.links.push(link@), ..old(self)@ }),
            final(self)@.wf(),
    {
        self.links.push(link);
        assert(self@.links =~= old(self)@.links.push(link@));
    }

    /// Replaces the association table by `links`.
    pub(crate) fn set_links(&mut self, links: Vec<BookmarkTag>)
        requires
            old(self)@.wf(),
            (StoreView { links: link_views(links@), ..old(self)@ }).wf(),
        ensures
            final(self)@ == (StoreView { links: link_views(links@), ..old(self)@ }),
            final(self)@.wf(),
    {
        self.links = links;
    }
}

} // verus!
