//! Search over the live bookmarks: by title, by tags that a bookmark must
//! all carry, below an id cursor, newest first, and cut to a page.
//!
//! A title matches when the wanted text occurs in it, character by character
//! and with case respected. A page size of zero or less gives an empty page.

use vstd::prelude::*;
use crate::db::store::{row_views, tag_views, texts, Link, Store, StoreView, Tag};
use crate::db::tag::{find_tag, is_linked, tags_of};
use crate::models::{Bookmark, BookmarkView};
use crate::seqs::{lemma_filter_member, lemma_filter_step};
use crate::text::{chars_of, contains_chars, is_infix};

verus! {

impl StoreView {
    /// The row passes every filter of a search: it is live, its title holds
    /// `title`, its id lies below the cursor `before` unless that is 0, and it
    /// carries a tag of each name of `tags`.
    pub open spec fn matches(
        self,
        row: BookmarkView,
        title: Seq<char>,
        tags: Seq<Seq<char>>,
        before: int,
    ) -> bool {
        &&& row.live()
        &&& is_infix(title, row.title)
        &&& (before != 0 ==> row.id < before)
        &&& forall|k: int| 0 <= k < tags.len() ==> self.has_tag_named(row.id, #[trigger] tags[k])
    }

    /// The filter of a search, as a predicate on rows.
    pub open spec fn matching(self, title: Seq<char>, tags: Seq<Seq<char>>, before: int) -> spec_fn(
        BookmarkView,
    ) -> bool {
        |row: BookmarkView| self.matches(row, title, tags, before)
    }

    /// Every row that passes the filters, newest first.
    pub open spec fn hits(self, title: Seq<char>, tags: Seq<Seq<char>>, before: int) -> Seq<
        BookmarkView,
    > {
        self.bookmarks.filter(self.matching(title, tags, before)).reverse()
    }

    /// The page that a search returns: the first `limit` hits.
    pub open spec fn search(
        self,
        title: Seq<char>,
        tags: Seq<Seq<char>>,
        before: int,
        limit: int,
    ) -> Seq<BookmarkView> {
        let hits = self.hits(title, tags, before);
        if limit <= 0 {
            Seq::empty()
        } else if limit >= hits.len() {
            hits
        } else {
            hits.take(limit)
        }
    }

    /// The filter of the tag lookup: the row's id names a live row.
    pub open spec fn live_row(self) -> spec_fn(BookmarkView) -> bool {
        |row: BookmarkView| self.is_live(row.id)
    }
}

/// The rows of `found` with the tags of each.
pub open spec fn with_tags(s: StoreView, found: Seq<BookmarkView>, out: Seq<(Bookmark, Vec<Tag>)>) -> bool {
    &&& out.len() == found.len()
    &&& forall|i: int|
        0 <= i < found.len() ==> (#[trigger] out[i]).0@ == found[i] && tag_views(out[i].1@)
            == s.tags_of(found[i].id)
}

/// The tag ids of `names`, or `None` when the vocabulary lacks one of them.
pub fn resolve_names(db: &Store, names: &Vec<String>) -> (r: Option<Vec<i32>>)
    requires
        db@.wf(),
    ensures
        r is Some <==> forall|k: int| 0 <= k < names@.len() ==> db@.has_name(#[trigger] texts(names@)[k]),
        r is Some ==> r->0@.len() == names@.len(),
        r is Some ==> forall|k: int|
            0 <= k < names@.len() ==> (#[trigger] r->0@[k]) == db@.tag_id_of(texts(names@)[k]),
{
    let mut ids: Vec<i32> = Vec::new();
    let n: usize = names.len();
    let mut i: usize = 0;
    while i < n
        invariant
            i <= n,
            n == names@.len(),
            db@.wf(),
            ids@.len() == i,
            forall|k: int| 0 <= k < i ==> db@.has_name(#[trigger] texts(names@)[k]),
            forall|k: int| 0 <= k < i ==> (#[trigger] ids@[k]) == db@.tag_id_of(texts(names@)[k]),
        decreases n - i,
    {
        match find_tag(db, &names[i]) {
            Some(id) => {
                ids.push(id);
            },
            None => {
                assert(!db@.has_name(texts(names@)[i as int]));
                return None;
            },
        }
        i += 1;
    }
    Some(ids)
}

/// Whether the bookmark is associated with every tag of `tag_ids`.
pub fn has_all_tags(db: &Store, bookmark_id: i32, tag_ids: &Vec<i32>) -> (b: bool)
    ensures
        b == forall|k: int|
            0 <= k < tag_ids@.len() ==> db@.links.contains(
                Link {
                    bookmark_id: bookmark_id as int,
                    tag_id: (#[trigger] tag_ids@[k]) as int,
                },
            ),
{
    let n: usize = tag_ids.len();
    let mut k: usize = 0;
    while k < n
        invariant
            k <= n,
            n == tag_ids@.len(),
            forall|j: int|
                0 <= j < k ==> db@.links.contains(
                    Link {
                        bookmark_id: bookmark_id as int,
                        tag_id: (#[trigger] tag_ids@[j]) as int,
                    },
                ),
        decreases n - k,
    {
        if !is_linked(db, bookmark_id, tag_ids[k]) {
            return false;
        }
        k += 1;
    }
    true
}

/// Pairs each bookmark of `bookmarks` whose id names a live row with the
/// tags of that row, in the order in which they were associated with it.
/// A bookmark whose id names no row, or a soft-deleted one, is left out. The
/// tags of all of them are looked up in this one call.
pub fn get_tags_per_bookmark(db: &Store, bookmarks: Vec<Bookmark>) -> (out: Vec<(Bookmark, Vec<Tag>)>)
    requires
        db@.wf(),
    ensures
        with_tags(db@, row_views(bookmarks@).filter(db@.live_row()), out@),
{
    let ghost all = row_views(bookmarks@);
    let ghost keep = db@.live_row();
    let rows: usize = db.bookmark_count();
    let mut out: Vec<(Bookmark, Vec<Tag>)> = Vec::new();
    let n: usize = bookmarks.len();
    let mut i: usize = 0;
    proof {
        reveal(Seq::filter);
        assert(all.take(0) =~= Seq::empty());
    }
    while i < n
        invariant
            i <= n,
            n == bookmarks@.len(),
            rows == db@.bookmarks.len(),
            db@.wf(),
            all == row_views(bookmarks@),
            keep == db@.live_row(),
            with_tags(db@, all.take(i as int).filter(keep), out@),
        decreases n - i,
    {
        let b = &bookmarks[i];
        proof {
            lemma_filter_step(all, keep, i as int);
            assert(all[i as int] == b@);
        }
        let id: i32 = b.id;
        if id >= 1 && id as usize <= rows && db.bookmark_at((id - 1) as usize).deleted_at.is_none() {
            let tags = tags_of(db, id);
            out.push((b.clone(), tags));
        }
        i += 1;
    }
    assert(all.take(n as int) =~= all);
    out
}

/// A filter that every element passes keeps the sequence as it is.
proof fn lemma_filter_all<A>(s: Seq<A>, keep: spec_fn(A) -> bool)
    requires
        forall|i: int| 0 <= i < s.len() ==> keep(#[trigger] s[i]),
    ensures
        s.filter(keep) == s,
    decreases s.len(),
{
    reveal(Seq::filter);
    if s.len() > 0 {
        let rest = s.drop_last();
        assert forall|i: int| 0 <= i < rest.len() implies keep(#[trigger] rest[i]) by {
            assert(rest[i] == s[i]);
        }
        lemma_filter_all(rest, keep);
        assert(rest.push(s.last()) =~= s);
    }
}

/// A filter that no element passes keeps nothing.
proof fn lemma_filter_none<A>(s: Seq<A>, keep: spec_fn(A) -> bool)
    requires
        forall|i: int| 0 <= i < s.len() ==> !keep(#[trigger] s[i]),
    ensures
        s.filter(keep) == Seq::<A>::empty(),
    decreases s.len(),
{
    reveal(Seq::filter);
    if s.len() > 0 {
        let rest = s.drop_last();
        assert forall|i: int| 0 <= i < rest.len() implies !keep(#[trigger] rest[i]) by {
            assert(rest[i] == s[i]);
        }
        lemma_filter_none(rest, keep);
    }
}

/// The rows from position `from` on that pass the filter, newest first,
/// grow at their end when the scan steps down to an older row.
proof fn lemma_scan_step<A>(s: Seq<A>, keep: spec_fn(A) -> bool, from: int)
    requires
        0 < from <= s.len(),
    ensures
        s.subrange(from - 1, s.len() as int).filter(keep).reverse() == if keep(s[from - 1]) {
            s.subrange(from, s.len() as int).filter(keep).reverse().push(s[from - 1])
        } else {
            s.subrange(from, s.len() as int).filter(keep).reverse()
        },
{
    let tail = s.subrange(from, s.len() as int);
    let x = s[from - 1];
    assert(s.subrange(from - 1, s.len() as int) =~= seq![x] + tail);
    tail.lemma_filter_prepend(x, keep);
    if keep(x) {
        assert((seq![x] + tail.filter(keep)).reverse() =~= tail.filter(keep).reverse().push(x));
    } else {
        assert(Seq::<A>::empty() + tail.filter(keep) =~= tail.filter(keep));
    }
}

/// The newest hits are those of the newest rows: the hits among the rows
/// from position `from` on, newest first, open the list of all hits.
proof fn lemma_scan_prefix<A>(s: Seq<A>, keep: spec_fn(A) -> bool, from: int)
    requires
        0 <= from <= s.len(),
    ensures
        s.subrange(from, s.len() as int).filter(keep).reverse().len() <= s.filter(keep).reverse().len(),
        s.filter(keep).reverse().take(
            s.subrange(from, s.len() as int).filter(keep).reverse().len() as int,
        ) == s.subrange(from, s.len() as int).filter(keep).reverse(),
{
    let head = s.subrange(0, from);
    let tail = s.subrange(from, s.len() as int);
    assert(s =~= head + tail);
    Seq::filter_distributes_over_add(head, tail, keep);
    let a = head.filter(keep);
    let b = tail.filter(keep);
    assert((a + b).reverse() =~= b.reverse() + a.reverse());
    assert((b.reverse() + a.reverse()).take(b.reverse().len() as int) =~= b.reverse());
}

/// Rows in ascending order of id stay so under a filter.
proof fn lemma_filter_ascending(rows: Seq<BookmarkView>, keep: spec_fn(BookmarkView) -> bool)
    requires
        forall|i: int, j: int|
            #![trigger rows[i], rows[j]]
            0 <= i < j < rows.len() ==> rows[i].id < rows[j].id,
    ensures
        forall|i: int, j: int|
            #![trigger rows.filter(keep)[i], rows.filter(keep)[j]]
            0 <= i < j < rows.filter(keep).len() ==> rows.filter(keep)[i].id < rows.filter(
                keep,
            )[j].id,
    decreases rows.len(),
{
    reveal(Seq::filter);
    if rows.len() > 0 {
        let rest = rows.drop_last();
        let last = rows.last();
        assert forall|i: int, j: int|
            #![trigger rest[i], rest[j]]
            0 <= i < j < rest.len() implies rest[i].id < rest[j].id by {
            assert(rest[i] == rows[i] && rest[j] == rows[j]);
        }
        lemma_filter_ascending(rest, keep);
        let kept = rows.filter(keep);
        let before = rest.filter(keep);
        assert forall|i: int, j: int|
            #![trigger kept[i], kept[j]]
            0 <= i < j < kept.len() implies kept[i].id < kept[j].id by {
            if j < before.len() {
                assert(kept[i] == before[i] && kept[j] == before[j]);
            } else {
                assert(kept[j] == last);
                assert(kept[i] == before[i]);
                assert(before.contains(before[i]));
                rest.lemma_filter_contains_rev(keep, before[i]);
                let m = choose|m: int| 0 <= m < rest.len() && rest[m] == before[i];
                assert(rows[m] == before[i]);
                assert(rows[rows.len() - 1] == last);
            }
        }
    }
}

/// What a search returns: rows of the store that pass every filter, so live
/// rows that carry all the wanted tags; at most `limit` of them; in
/// descending order of id; and the newest of those that pass, so that a row
/// that passes and is missing from the page is older than the whole page,
/// which is then full.
pub proof fn lemma_search(
    s: StoreView,
    title: Seq<char>,
    tags: Seq<Seq<char>>,
    before: int,
    limit: int,
)
    requires
        s.wf(),
    ensures
        s.search(title, tags, before, limit).len() <= if limit > 0 {
            limit
        } else {
            0
        },
        forall|i: int|
            0 <= i < s.search(title, tags, before, limit).len() ==> {
                let row = #[trigger] s.search(title, tags, before, limit)[i];
                s.has_bookmark(row.id) && s.row(row.id) == row && s.matches(row, title, tags, before)
            },
        forall|i: int, j: int|
            #![trigger s.search(title, tags, before, limit)[i], s.search(title, tags, before, limit)[j]]
            0 <= i < j < s.search(title, tags, before, limit).len() ==> s.search(
                title,
                tags,
                before,
                limit,
            )[i].id > s.search(title, tags, before, limit)[j].id,
        forall|id: int|
            #![trigger s.row(id)]
            limit > 0 && s.has_bookmark(id) && s.matches(s.row(id), title, tags, before) ==> {
                let page = s.search(title, tags, before, limit);
                page.contains(s.row(id)) || (page.len() == limit && id < page[limit - 1].id)
            },
{
    let keep = s.matching(title, tags, before);
    let kept = s.bookmarks.filter(keep);
    let hits = s.hits(title, tags, before);
    let page = s.search(title, tags, before, limit);
    lemma_filter_member(s.bookmarks, keep);
    lemma_filter_ascending(s.bookmarks, keep);
    assert(hits.len() == kept.len());
    assert forall|i: int| 0 <= i < hits.len() implies hits[i] == kept[kept.len() - 1 - i] by {}
    assert forall|i: int| 0 <= i < page.len() implies page[i] == hits[i] by {}
    assert forall|i: int| 0 <= i < page.len() implies {
        let row = #[trigger] page[i];
        s.has_bookmark(row.id) && s.row(row.id) == row && s.matches(row, title, tags, before)
    } by {
        let row = page[i];
        assert(row == kept[kept.len() - 1 - i]);
        assert(kept.contains(row));
        let m = choose|m: int| 0 <= m < s.bookmarks.len() && s.bookmarks[m] == row;
        assert(s.bookmarks[m].id == m + 1);
        assert(keep(row));
    }
    assert forall|i: int, j: int|
        #![trigger page[i], page[j]]
        0 <= i < j < page.len() implies page[i].id > page[j].id by {
        assert(page[i] == kept[kept.len() - 1 - i]);
        assert(page[j] == kept[kept.len() - 1 - j]);
    }
    assert forall|id: int|
        #![trigger s.row(id)]
        limit > 0 && s.has_bookmark(id) && s.matches(s.row(id), title, tags, before) implies (
        page.contains(s.row(id)) || (page.len() == limit && id < page[limit - 1].id)) by {
        let row = s.row(id);
        assert(s.bookmarks[id - 1] == row);
        assert(s.bookmarks.contains(row));
        assert(keep(row));
        assert(kept.contains(row));
        let m = choose|m: int| 0 <= m < kept.len() && kept[m] == row;
        let at = kept.len() - 1 - m;
        assert(hits[at] == row);
        if at < page.len() {
            assert(page[at] == row);
        } else {
            assert(page.len() == limit);
            assert(page[limit - 1] == kept[kept.len() - limit]);
            assert(kept[m].id < kept[kept.len() - limit].id);
        }
    }
}

/// Where a second filter passes exactly the rows that pass the first and
/// have an id below `cursor`, it keeps, of rows in ascending order of id, a
/// prefix of what the first keeps: the kept rows below the cursor.
proof fn lemma_filter_below(
    rows: Seq<BookmarkView>,
    keep: spec_fn(BookmarkView) -> bool,
    below: spec_fn(BookmarkView) -> bool,
    cursor: int,
)
    requires
        forall|i: int, j: int|
            #![trigger rows[i], rows[j]]
            0 <= i < j < rows.len() ==> rows[i].id < rows[j].id,
        forall|i: int|
            0 <= i < rows.len() ==> (below(#[trigger] rows[i]) <==> keep(rows[i]) && rows[i].id
                < cursor),
    ensures
        rows.filter(below).len() <= rows.filter(keep).len(),
        rows.filter(below) == rows.filter(keep).take(rows.filter(below).len() as int),
        forall|j: int|
            rows.filter(below).len() <= j < rows.filter(keep).len() ==> (#[trigger] rows.filter(
                keep,
            )[j]).id >= cursor,
        forall|j: int|
            0 <= j < rows.filter(below).len() ==> (#[trigger] rows.filter(keep)[j]).id < cursor,
    decreases rows.len(),
{
    reveal(Seq::filter);
    if rows.len() == 0 {
        assert(rows.filter(below) =~= rows.filter(keep).take(0));
    } else {
        let rest = rows.drop_last();
        let last = rows.last();
        assert(last == rows[rows.len() - 1]);
        assert forall|i: int, j: int|
            #![trigger rest[i], rest[j]]
            0 <= i < j < rest.len() implies rest[i].id < rest[j].id by {
            assert(rest[i] == rows[i] && rest[j] == rows[j]);
        }
        assert forall|i: int| 0 <= i < rest.len() implies (below(#[trigger] rest[i]) <==> keep(
            rest[i],
        ) && rest[i].id < cursor) by {
            assert(rest[i] == rows[i]);
        }
        lemma_filter_below(rest, keep, below, cursor);
        let kept = rest.filter(keep);
        let low = rest.filter(below);
        if below(last) {
            if low.len() < kept.len() {
                let r = kept[low.len() as int];
                assert(kept.contains(r));
                rest.lemma_filter_contains_rev(keep, r);
                let m = choose|m: int| 0 <= m < rest.len() && rest[m] == r;
                assert(rows[m] == r);
                assert(false);
            }
            assert(low =~= kept);
            assert(rows.filter(below) =~= rows.filter(keep).take(rows.filter(below).len() as int));
        } else {
            assert(rows.filter(below) =~= rows.filter(keep).take(rows.filter(below).len() as int));
        }
    }
}

/// Pages follow one another without a gap or a repeat: a search whose
/// cursor is the id of the last row of a page returns what comes next in
/// the list of hits.
pub proof fn lemma_next_page(
    s: StoreView,
    title: Seq<char>,
    tags: Seq<Seq<char>>,
    before: int,
    limit: int,
)
    requires
        s.wf(),
        limit > 0,
        s.search(title, tags, before, limit).len() > 0,
    ensures
        ({
            let page = s.search(title, tags, before, limit);
            let cursor = page.last().id;
            &&& s.hits(title, tags, cursor) == s.hits(title, tags, before).skip(page.len() as int)
            &&& s.search(title, tags, cursor, limit) == s.search(
                title,
                tags,
                before,
                page.len() + limit,
            ).skip(page.len() as int)
        }),
{
    let keep = s.matching(title, tags, before);
    let kept = s.bookmarks.filter(keep);
    let hits = s.hits(title, tags, before);
    let page = s.search(title, tags, before, limit);
    let p = page.len() as int;
    let cursor = page.last().id;
    let below = s.matching(title, tags, cursor);
    let low = s.bookmarks.filter(below);
    lemma_search(s, title, tags, before, limit);
    lemma_filter_ascending(s.bookmarks, keep);
    assert(page[p - 1] == page.last());
    assert(page[p - 1] == hits[p - 1]);
    assert(hits[p - 1] == kept[kept.len() - p]);
    assert(s.has_bookmark(cursor));
    assert(s.matches(page[p - 1], title, tags, before));
    assert forall|i: int| 0 <= i < s.bookmarks.len() implies (below(#[trigger] s.bookmarks[i])
        <==> keep(s.bookmarks[i]) && s.bookmarks[i].id < cursor) by {}
    lemma_filter_below(s.bookmarks, keep, below, cursor);
    let k = low.len() as int;
    assert(k == kept.len() - p) by {
        if kept.len() - p < k {
            assert(kept[kept.len() - p].id < cursor);
        }
        if kept.len() - p > k {
            assert(kept[kept.len() - p - 1].id >= cursor);
            assert(kept[kept.len() - p - 1].id < kept[kept.len() - p].id);
        }
    }
    let next = s.hits(title, tags, cursor);
    assert(next =~= hits.skip(p));
    assert(s.search(title, tags, cursor, limit) =~= s.search(title, tags, before, p + limit).skip(p));
}

/// A soft-deleted bookmark is found by no search, while every row stays in
/// the store.
pub proof fn lemma_deleted_not_found(
    s: StoreView,
    ids: Seq<int>,
    now: time::OffsetDateTime,
    id: int,
    title: Seq<char>,
    tags: Seq<Seq<char>>,
    before: int,
    limit: int,
)
    requires
        s.wf(),
        ids.contains(id),
    ensures
        s.soft_delete(ids, now).bookmarks.len() == s.bookmarks.len(),
        forall|i: int|
            0 <= i < s.soft_delete(ids, now).search(title, tags, before, limit).len() ==> (
            #[trigger] s.soft_delete(ids, now).search(title, tags, before, limit)[i]).id != id,
{
    let post = s.soft_delete(ids, now);
    crate::db::bookmark::lemma_soft_delete(s, ids, now);
    lemma_search(post, title, tags, before, limit);
    let page = post.search(title, tags, before, limit);
    assert forall|i: int| 0 <= i < page.len() implies (#[trigger] page[i]).id != id by {
        let row = page[i];
        assert(post.row(row.id) == row);
        if row.id == id {
            assert(!post.is_live(id));
        }
    }
}

/// A bookmark without tags is found by no search that asks for a tag.
pub proof fn lemma_untagged_not_found(
    s: StoreView,
    b: int,
    title: Seq<char>,
    tags: Seq<Seq<char>>,
    before: int,
    limit: int,
)
    requires
        s.wf(),
        tags.len() > 0,
        forall|n: Seq<char>| !#[trigger] s.has_tag_named(b, n),
    ensures
        forall|i: int|
            0 <= i < s.search(title, tags, before, limit).len() ==> (#[trigger] s.search(
                title,
                tags,
                before,
                limit,
            )[i]).id != b,
{
    lemma_search(s, title, tags, before, limit);
    let page = s.search(title, tags, before, limit);
    assert forall|i: int| 0 <= i < page.len() implies (#[trigger] page[i]).id != b by {
        let row = page[i];
        assert(s.matches(row, title, tags, before));
        assert(s.has_tag_named(row.id, tags[0]));
    }
}

/// Searches the live bookmarks and returns one page of them, newest first,
/// each with its tags in the order in which they were associated with it.
///
/// A bookmark is a hit when its title holds `title` (the empty text is held
/// by every title), it carries a tag of each name of `tags` (a name that the
/// vocabulary lacks is carried by no bookmark), and, unless `before` is 0,
/// its id is less than `before`. The page holds the first `limit` hits, or
/// all of them where they are fewer, and nothing where `limit` is not
/// positive.
pub fn search_bookmarks(db: &Store, title: &str, tags: &Vec<String>, before: i32, limit: i64) -> (out:
    Vec<(Bookmark, Vec<Tag>)>)
    requires
        db@.wf(),
    ensures
        with_tags(db@, db@.search(title@, texts(tags@), before as int, limit as int), out@),
{
    let ghost keep = db@.matching(title@, texts(tags@), before as int);
    let ghost rows = db@.bookmarks;
    if limit <= 0 {
        return Vec::new();
    }
    let wanted = match resolve_names(db, tags) {
        Some(ids) => ids,
        None => {
            proof {
                let k = choose|k: int| 0 <= k < tags@.len() && !db@.has_name(#[trigger] texts(tags@)[k]);
                assert forall|i: int| 0 <= i < rows.len() implies !keep(#[trigger] rows[i]) by {
                    assert(!db@.has_tag_named(rows[i].id, texts(tags@)[k]));
                }
                lemma_filter_none(rows, keep);
                assert(rows.filter(keep).reverse() =~= Seq::empty());
            }
            return Vec::new();
        },
    };
    let needle = chars_of(title);
    let n: usize = db.bookmark_count();
    let mut found: Vec<Bookmark> = Vec::new();
    let mut i: usize = n;
    proof {
        reveal(Seq::filter);
        assert(rows.subrange(n as int, n as int) =~= Seq::empty());
        assert(rows.subrange(n as int, n as int).filter(keep).reverse() =~= Seq::empty());
        assert(row_views(found@) =~= Seq::empty());
    }
    while i > 0 && (found.len() as i64) < limit
        invariant
            i <= n,
            n == rows.len(),
            rows == db@.bookmarks,
            db@.wf(),
            limit > 0,
            needle@ == title@,
            keep == db@.matching(title@, texts(tags@), before as int),
            wanted@.len() == tags@.len(),
            forall|k: int| 0 <= k < tags@.len() ==> db@.has_name(#[trigger] texts(tags@)[k]),
            forall|k: int|
                0 <= k < tags@.len() ==> (#[trigger] wanted@[k]) == db@.tag_id_of(texts(tags@)[k]),
            found@.len() <= limit,
            found@.len() <= n - i,
            row_views(found@) == rows.subrange(i as int, n as int).filter(keep).reverse(),
        decreases i,
    {
        let row = db.bookmark_at(i - 1);
        proof {
            lemma_scan_step(rows, keep, i as int);
        }
        let hay = chars_of(row.title.as_str());
        let hit = row.deleted_at.is_none() && (before == 0 || row.id < before) && contains_chars(
            &hay,
            &needle,
        ) && has_all_tags(db, row.id, &wanted);
        proof {
            let r = rows[i - 1];
            assert(r == row@);
            assert(r.id == i);
            if hit {
                assert forall|k: int| 0 <= k < texts(tags@).len() implies db@.has_tag_named(
                    r.id,
                    #[trigger] texts(tags@)[k],
                ) by {
                    assert(wanted@[k] == db@.tag_id_of(texts(tags@)[k]));
                }
            } else if row.deleted_at.is_none() && (before == 0 || row.id < before) && is_infix(
                title@,
                r.title,
            ) {
                let k = choose|k: int|
                    0 <= k < wanted@.len() && !db@.links.contains(
                        Link {
                            bookmark_id: row.id as int,
                            tag_id: (#[trigger] wanted@[k]) as int,
                        },
                    );
                assert(wanted@[k] == db@.tag_id_of(texts(tags@)[k]));
                assert(!db@.has_tag_named(r.id, texts(tags@)[k]));
            }
            assert(hit == keep(r));
        }
        if hit {
            let ghost before_push = row_views(found@);
            found.push(row.clone());
            assert(row_views(found@) =~= before_push.push(row@));
        }
        i -= 1;
    }
    proof {
        let hits = db@.hits(title@, texts(tags@), before as int);
        lemma_scan_prefix(rows, keep, i as int);
        if i == 0 {
            assert(rows.subrange(0, n as int) =~= rows);
        } else {
            assert(found@.len() == limit);
        }
        assert(row_views(found@) == db@.search(title@, texts(tags@), before as int, limit as int));
        lemma_filter_member(rows, keep);
        assert forall|j: int| 0 <= j < row_views(found@).len() implies (db@.live_row())(
            #[trigger] row_views(found@)[j],
        ) by {
            let r = row_views(found@)[j];
            let part = rows.subrange(i as int, n as int).filter(keep);
            assert(part.reverse()[j] == part[part.len() - 1 - j]);
            assert(part.contains(part[part.len() - 1 - j]));
            rows.subrange(i as int, n as int).lemma_filter_contains_rev(keep, r);
            lemma_filter_member(rows.subrange(i as int, n as int), keep);
            let m = choose|m: int|
                0 <= m < rows.subrange(i as int, n as int).len() && rows.subrange(i as int, n as int)[m]
                    == r;
            assert(rows[i + m] == r);
            assert(keep(r));
        }
        lemma_filter_all(row_views(found@), db@.live_row());
    }
    get_tags_per_bookmark(db, found)
}

} // verus!
