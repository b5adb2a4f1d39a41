//! The tag vocabulary and the association of bookmarks with tags.
//!
//! Tag names are compared character by character, with case respected and
//! nothing trimmed.

use vstd::prelude::*;
use crate::db::store::{
    ints, link_views, tag_views, texts, BookmarkTag, Link, Store, StoreError, StoreView, Tag,
    TagView, ID_LIMIT,
};
use crate::seqs::{
    fresh, lemma_extend_fresh, lemma_filter_member, lemma_filter_no_duplicates,
    lemma_filter_step, lemma_fresh, lemma_fresh_step,
};

verus! {

impl StoreView {
    /// The vocabulary holds a tag of this name.
    pub open spec fn has_name(self, name: Seq<char>) -> bool {
        self.names().contains(name)
    }

    /// The id of the tag of this name.
    pub open spec fn tag_id_of(self, name: Seq<char>) -> int
        recommends
            self.has_name(name),
    {
        self.names().index_of(name) + 1
    }

    /// The tags that a vocabulary of `self.tags` gets for the new names
    /// `added`: ids continue the sequence.
    pub open spec fn new_tags(self, added: Seq<Seq<char>>) -> Seq<TagView> {
        Seq::new(added.len(), |k: int| TagView { id: self.tags.len() + k + 1, name: added[k] })
    }

    /// The vocabulary can take the names of `names` that it lacks: the tag
    /// ids suffice for them.
    pub open spec fn can_name(self, names: Seq<Seq<char>>) -> bool {
        self.tags.len() + fresh(self.names(), names).len() <= ID_LIMIT
    }

    /// The store after every name of `names` has been given a tag: the names
    /// that the vocabulary lacks are appended, each once, in the order in
    /// which `names` first holds them.
    pub open spec fn ensure_tags(self, names: Seq<Seq<char>>) -> StoreView {
        StoreView { tags: self.tags + self.new_tags(fresh(self.names(), names)), ..self }
    }
}

/// In a well-formed store a name belongs to at most one tag, and
/// `tag_id_of` finds it.
pub proof fn lemma_tag_id_of(s: StoreView, t: int)
    requires
        s.wf(),
        s.has_tag(t),
    ensures
        s.has_name(s.tag(t).name),
        s.tag_id_of(s.tag(t).name) == t,
        s.tag(t).id == t,
{
    let name = s.tag(t).name;
    assert(s.names()[t - 1] == name);
    let i = s.names().index_of(name);
    assert(s.names()[i] == name);
}

/// A name of the vocabulary is the name of the tag that `tag_id_of` gives.
pub proof fn lemma_has_name(s: StoreView, name: Seq<char>)
    requires
        s.has_name(name),
    ensures
        s.has_tag(s.tag_id_of(name)),
        s.tag(s.tag_id_of(name)).name == name,
{
    let i = s.names().index_of(name);
    assert(s.names()[i] == name);
}

/// Giving tags to `names` keeps the store well-formed as long as the ids
/// suffice, keeps every earlier tag, and leaves every name of `names` in the
/// vocabulary.
pub proof fn lemma_ensure_tags(s: StoreView, names: Seq<Seq<char>>)
    requires
        s.wf(),
        s.can_name(names),
    ensures
        s.ensure_tags(names).wf(),
        s.ensure_tags(names).names() == s.names() + fresh(s.names(), names),
        forall|n: Seq<char>| #[trigger]
            s.ensure_tags(names).has_name(n) <==> s.has_name(n) || names.contains(n),
        forall|n: Seq<char>|
            s.has_name(n) ==> #[trigger] s.ensure_tags(names).tag_id_of(n) == s.tag_id_of(n),
{
    let added = fresh(s.names(), names);
    let post = s.ensure_tags(names);
    lemma_fresh(s.names(), names);
    assert(post.names() =~= s.names() + added);
    assert(post.names().no_duplicates()) by {
        assert forall|i: int, j: int|
            0 <= i < post.names().len() && 0 <= j < post.names().len() && i != j implies post.names()[i]
            != post.names()[j] by {
            if i < s.names().len() && j >= s.names().len() {
                assert(added.contains(added[j - s.names().len()]));
                assert(s.names().contains(s.names()[i]));
            }
            if j < s.names().len() && i >= s.names().len() {
                assert(added.contains(added[i - s.names().len()]));
                assert(s.names().contains(s.names()[j]));
            }
        }
    }
    assert forall|n: Seq<char>| #[trigger]
        post.has_name(n) <==> s.has_name(n) || names.contains(n) by {
        if post.has_name(n) {
            let i = choose|i: int| 0 <= i < post.names().len() && post.names()[i] == n;
            if i < s.names().len() {
                assert(s.names()[i] == n);
            } else {
                assert(added[i - s.names().len()] == n);
                assert(added.contains(n));
            }
        }
        if s.has_name(n) {
            let i = choose|i: int| 0 <= i < s.names().len() && s.names()[i] == n;
            assert(post.names()[i] == n);
        }
        if names.contains(n) && !s.has_name(n) {
            assert(added.contains(n));
            let i = choose|i: int| 0 <= i < added.len() && added[i] == n;
            assert(post.names()[s.names().len() + i] == n);
        }
    }
    assert forall|n: Seq<char>| s.has_name(n) implies #[trigger] post.tag_id_of(n) == s.tag_id_of(
        n,
    ) by {
        let i = s.names().index_of(n);
        assert(s.names()[i] == n);
        assert(post.names()[i] == n);
        let j = post.names().index_of(n);
        assert(post.names()[j] == n);
    }
}

/// Once every name of `names` has a tag, giving tags to names among them
/// creates nothing: however often and by whomever tags are asked for, a name
/// has one tag.
pub proof fn lemma_ensure_tags_again(s: StoreView, names: Seq<Seq<char>>, again: Seq<Seq<char>>)
    requires
        s.wf(),
        s.can_name(names),
        forall|i: int| 0 <= i < again.len() ==> names.contains(#[trigger] again[i]),
    ensures
        s.ensure_tags(names).can_name(again),
        s.ensure_tags(names).ensure_tags(again) == s.ensure_tags(names),
        s.ensure_tags(names).names().no_duplicates(),
        forall|i: int| 0 <= i < names.len() ==> s.ensure_tags(names).has_name(#[trigger] names[i]),
{
    let post = s.ensure_tags(names);
    lemma_ensure_tags(s, names);
    lemma_fresh(post.names(), again);
    let added = fresh(post.names(), again);
    if added.len() > 0 {
        assert(added.contains(added[0]));
        let i = choose|i: int| 0 <= i < again.len() && again[i] == added[0];
        assert(names.contains(again[i]));
        assert(post.has_name(added[0]));
    }
    assert(post.new_tags(added) =~= Seq::empty());
    assert(post.tags + Seq::<TagView>::empty() =~= post.tags);
    assert forall|i: int| 0 <= i < names.len() implies post.has_name(#[trigger] names[i]) by {
        assert(names.contains(names[i]));
    }
}

/// Looks a tag up by its name.
pub fn find_tag(db: &Store, name: &String) -> (r: Option<i32>)
    requires
        db@.wf(),
    ensures
        r is Some <==> db@.has_name(name@),
        r is Some ==> r->0 == db@.tag_id_of(name@),
{
    let n: usize = db.tag_count();
    let mut i: usize = 0;
    while i < n
        invariant
            i <= n,
            n == db@.tags.len(),
            db@.wf(),
            forall|j: int| 0 <= j < i ==> db@.names()[j] != name@,
        decreases n - i,
    {
        let tag = db.tag_at(i);
        if tag.name == *name {
            proof {
                assert(db@.names()[i as int] == name@);
                lemma_tag_id_of(db@, i + 1);
            }
            return Some(tag.id);
        }
        i += 1;
    }
    None
}

/// Whether `names` holds the text `name`.
pub fn holds_name(names: &Vec<String>, name: &String) -> (b: bool)
    ensures
        b == texts(names@).contains(name@),
{
    let n: usize = names.len();
    let mut i: usize = 0;
    while i < n
        invariant
            i <= n,
            n == names@.len(),
            forall|j: int| 0 <= j < i ==> texts(names@)[j] != name@,
        decreases n - i,
    {
        if names[i] == *name {
            assert(texts(names@)[i as int] == name@);
            return true;
        }
        i += 1;
    }
    false
}

/// The names of `names` that the vocabulary lacks, each once, in order of
/// first occurrence.
pub fn missing_names(db: &Store, names: &Vec<String>) -> (added: Vec<String>)
    requires
        db@.wf(),
    ensures
        texts(added@) == fresh(db@.names(), texts(names@)),
{
    let mut added: Vec<String> = Vec::new();
    let n: usize = names.len();
    let mut i: usize = 0;
    assert(texts(names@).take(0) =~= Seq::empty());
    assert(texts(added@) =~= Seq::empty());
    while i < n
        invariant
            i <= n,
            n == names@.len(),
            db@.wf(),
            texts(added@) == fresh(db@.names(), texts(names@).take(i as int)),
        decreases n - i,
    {
        let name = &names[i];
        proof {
            lemma_fresh_step(db@.names(), texts(names@), i as int);
        }
        let known = find_tag(db, name).is_some();
        if !known && !holds_name(&added, name) {
            let ghost before = texts(added@);
            added.push(name.clone());
            assert(texts(added@) =~= before.push(name@));
        }
        i += 1;
    }
    assert(texts(names@).take(n as int) =~= texts(names@));
    added
}

/// Gives every name of `names` a tag: a name that the vocabulary knows keeps
/// its tag, and one that it lacks gets a new tag. The result holds, for each
/// name of `names` in turn, its tag.
///
/// Fails with [`StoreError::Storage`], and changes nothing, when the tag ids
/// do not suffice for the new names.
pub fn ensure_tags(db: &mut Store, names: &Vec<String>) -> (r: Result<Vec<Tag>, StoreError>)
    requires
        old(db)@.wf(),
    ensures
        final(db)@.wf(),
        r is Ok <==> old(db)@.can_name(texts(names@)),
        r is Ok ==> final(db)@ == old(db)@.ensure_tags(texts(names@)),
        r is Ok ==> r->Ok_0@.len() == names@.len(),
        r is Ok ==> forall|i: int|
            0 <= i < names@.len() ==> (#[trigger] r->Ok_0@[i])@ == final(db)@.tag(
                final(db)@.tag_id_of(names@[i]@),
            ),
        r is Err ==> r->Err_0 == StoreError::Storage && final(db)@ == old(db)@,
{
    let added = missing_names(db, names);
    let have: usize = db.tag_count();
    if added.len() > ID_LIMIT - have {
        return Err(StoreError::Storage);
    }
    let ghost pre = db@;
    let ghost fresh_names = texts(added@);
    proof {
        lemma_fresh(pre.names(), texts(names@));
        lemma_ensure_tags(pre, texts(names@));
    }
    let count: usize = added.len();
    let mut k: usize = 0;
    assert(pre.new_tags(fresh_names.take(0)) =~= Seq::empty());
    assert(pre.tags + Seq::<TagView>::empty() =~= pre.tags);
    while k < count
        invariant
            k <= count,
            count == added@.len(),
            have == pre.tags.len(),
            have + count <= ID_LIMIT,
            pre.wf(),
            db@.wf(),
            fresh_names == texts(added@),
            fresh_names == fresh(pre.names(), texts(names@)),
            fresh_names.no_duplicates(),
            forall|x: Seq<char>| #[trigger] fresh_names.contains(x) ==> !pre.names().contains(x),
            db@ == (StoreView { tags: pre.tags + pre.new_tags(fresh_names.take(k as int)), ..pre }),
        decreases count - k,
    {
        let name = added[k].clone();
        let id: i32 = (have + k + 1) as i32;
        proof {
            let sofar = fresh_names.take(k as int);
            assert(db@.names() =~= pre.names() + sofar);
            assert(fresh_names.contains(fresh_names[k as int]));
            if db@.names().contains(name@) {
                let j = choose|j: int| 0 <= j < db@.names().len() && db@.names()[j] == name@;
                if j < pre.names().len() {
                    assert(pre.names()[j] == name@);
                    assert(pre.names().contains(name@));
                } else {
                    assert(fresh_names[j - pre.names().len()] == fresh_names[k as int]);
                }
                assert(false);
            }
        }
        db.push_tag(Tag { id, name });
        proof {
            assert(pre.tags + pre.new_tags(fresh_names.take(k + 1)) =~= (pre.tags + pre.new_tags(
                fresh_names.take(k as int),
            )).push(TagView { id: id as int, name: fresh_names[k as int] }));
        }
        k += 1;
    }
    assert(fresh_names.take(count as int) =~= fresh_names);
    let mut out: Vec<Tag> = Vec::new();
    let n: usize = names.len();
    let mut i: usize = 0;
    while i < n
        invariant
            i <= n,
            n == names@.len(),
            db@.wf(),
            db@ == pre.ensure_tags(texts(names@)),
            forall|x: Seq<char>| #[trigger]
                db@.has_name(x) <==> pre.has_name(x) || texts(names@).contains(x),
            out@.len() == i,
            forall|j: int|
                0 <= j < i ==> (#[trigger] out@[j])@ == db@.tag(db@.tag_id_of(names@[j]@)),
        decreases n - i,
    {
        let name = &names[i];
        assert(texts(names@)[i as int] == name@);
        assert(texts(names@).contains(name@));
        assert(db@.has_name(name@));
        let found = find_tag(db, name);
        let id: i32 = found.unwrap();
        proof {
            lemma_has_name(db@, name@);
            lemma_tag_id_of(db@, id as int);
        }
        out.push(Tag { id, name: name.clone() });
        i += 1;
    }
    Ok(out)
}

/// The association rows of bookmark `b`.
pub open spec fn of_bookmark(b: int) -> spec_fn(Link) -> bool {
    |l: Link| l.bookmark_id == b
}

/// The association rows that stay when bookmark `b` loses the tags `ts`.
pub open spec fn kept_without(b: int, ts: Seq<int>) -> spec_fn(Link) -> bool {
    |l: Link| !(l.bookmark_id == b && ts.contains(l.tag_id))
}

/// The association rows between bookmark `b` and each tag of `ts` in turn.
pub open spec fn pairs(b: int, ts: Seq<int>) -> Seq<Link> {
    ts.map_values(|t: int| Link { bookmark_id: b, tag_id: t })
}

impl StoreView {
    /// Every pair between `b` and a tag of `ts` refers to an existing
    /// bookmark and an existing tag.
    pub open spec fn can_link(self, b: int, ts: Seq<int>) -> bool {
        forall|i: int| 0 <= i < ts.len() ==> self.has_bookmark(b) && self.has_tag(#[trigger] ts[i])
    }

    /// The store after bookmark `b` has been associated with the tags `ts`:
    /// the pairs that the table lacks are appended, each once, in the order
    /// of `ts`; the pairs that it holds stay where they are.
    pub open spec fn associate(self, b: int, ts: Seq<int>) -> StoreView {
        StoreView { links: self.links + fresh(self.links, pairs(b, ts)), ..self }
    }

    /// The store after the pairs between bookmark `b` and the tags `ts` have
    /// been removed; every other association row stays, in its order.
    pub open spec fn dissociate(self, b: int, ts: Seq<int>) -> StoreView {
        StoreView { links: self.links.filter(kept_without(b, ts)), ..self }
    }

    /// The ids of the tags of bookmark `b`, in the order in which they were
    /// associated with it.
    pub open spec fn tag_ids_of(self, b: int) -> Seq<int> {
        self.links.filter(of_bookmark(b)).map_values(|l: Link| l.tag_id)
    }

    /// The tags of bookmark `b`, in the order in which they were associated
    /// with it.
    pub open spec fn tags_of(self, b: int) -> Seq<TagView> {
        self.tag_ids_of(b).map_values(|t: int| self.tag(t))
    }

    /// Bookmark `b` is associated with a tag of this name.
    pub open spec fn has_tag_named(self, b: int, name: Seq<char>) -> bool {
        self.has_name(name) && self.links.contains(
            Link { bookmark_id: b, tag_id: self.tag_id_of(name) },
        )
    }
}

/// Associating a bookmark with tags that exist keeps the store well-formed
/// and adds exactly the named pairs to the pairs that were there.
pub proof fn lemma_associate(s: StoreView, b: int, ts: Seq<int>)
    requires
        s.wf(),
        s.can_link(b, ts),
    ensures
        s.associate(b, ts).wf(),
        forall|l: Link| #[trigger]
            s.associate(b, ts).links.contains(l) <==> s.links.contains(l) || (l.bookmark_id == b
                && ts.contains(l.tag_id)),
{
    let want = pairs(b, ts);
    let post = s.associate(b, ts);
    lemma_extend_fresh(s.links, want);
    assert forall|l: Link| want.contains(l) <==> (l.bookmark_id == b && ts.contains(l.tag_id)) by {
        if want.contains(l) {
            let i = choose|i: int| 0 <= i < want.len() && want[i] == l;
            assert(ts[i] == l.tag_id);
        }
        if l.bookmark_id == b && ts.contains(l.tag_id) {
            let i = choose|i: int| 0 <= i < ts.len() && ts[i] == l.tag_id;
            assert(want[i] == l);
        }
    }
    assert forall|k: int| 0 <= k < post.links.len() implies post.has_bookmark(
        (#[trigger] post.links[k]).bookmark_id,
    ) && post.has_tag(post.links[k].tag_id) by {
        let l = post.links[k];
        assert(post.links.contains(l));
        if s.links.contains(l) {
            let i = choose|i: int| 0 <= i < s.links.len() && s.links[i] == l;
            assert(s.has_bookmark(s.links[i].bookmark_id));
        } else {
            let i = choose|i: int| 0 <= i < ts.len() && ts[i] == l.tag_id;
            assert(s.has_tag(ts[i]));
        }
    }
}

/// Taking tags from a bookmark keeps the store well-formed and removes
/// exactly the named pairs.
pub proof fn lemma_dissociate(s: StoreView, b: int, ts: Seq<int>)
    requires
        s.wf(),
    ensures
        s.dissociate(b, ts).wf(),
        forall|l: Link| #[trigger]
            s.dissociate(b, ts).links.contains(l) <==> s.links.contains(l) && !(l.bookmark_id == b
                && ts.contains(l.tag_id)),
{
    let keep = kept_without(b, ts);
    let post = s.dissociate(b, ts);
    lemma_filter_member(s.links, keep);
    lemma_filter_no_duplicates(s.links, keep);
    assert forall|k: int| 0 <= k < post.links.len() implies post.has_bookmark(
        (#[trigger] post.links[k]).bookmark_id,
    ) && post.has_tag(post.links[k].tag_id) by {
        assert(post.links.contains(post.links[k]));
        let i = choose|i: int| 0 <= i < s.links.len() && s.links[i] == post.links[k];
        assert(s.has_bookmark(s.links[i].bookmark_id));
    }
}

/// The tag ids of a bookmark are the tags that it is associated with.
pub proof fn lemma_tag_ids_of(s: StoreView, b: int)
    ensures
        forall|t: int| #[trigger]
            s.tag_ids_of(b).contains(t) <==> s.links.contains(Link { bookmark_id: b, tag_id: t }),
        s.links.no_duplicates() ==> s.tag_ids_of(b).no_duplicates(),
{
    let mine = s.links.filter(of_bookmark(b));
    lemma_filter_member(s.links, of_bookmark(b));
    assert forall|t: int| #[trigger]
        s.tag_ids_of(b).contains(t) <==> s.links.contains(Link { bookmark_id: b, tag_id: t }) by {
        let l = Link { bookmark_id: b, tag_id: t };
        if s.tag_ids_of(b).contains(t) {
            let i = choose|i: int| 0 <= i < s.tag_ids_of(b).len() && s.tag_ids_of(b)[i] == t;
            assert(mine.contains(mine[i]));
            assert(mine[i] == l);
        }
        if s.links.contains(l) {
            assert(mine.contains(l));
            let i = choose|i: int| 0 <= i < mine.len() && mine[i] == l;
            assert(s.tag_ids_of(b)[i] == t);
        }
    }
    if s.links.no_duplicates() {
        lemma_filter_no_duplicates(s.links, of_bookmark(b));
        assert forall|i: int, j: int|
            0 <= i < s.tag_ids_of(b).len() && 0 <= j < s.tag_ids_of(b).len() && i != j implies s.tag_ids_of(
            b,
        )[i] != s.tag_ids_of(b)[j] by {
            assert(mine.contains(mine[i]));
            assert(mine.contains(mine[j]));
            assert(mine[i] != mine[j]);
        }
    }
}

/// Whether `ids` holds `id`.
pub fn holds_id(ids: &Vec<i32>, id: i32) -> (b: bool)
    ensures
        b == ints(ids@).contains(id as int),
{
    let n: usize = ids.len();
    let mut i: usize = 0;
    while i < n
        invariant
            i <= n,
            n == ids@.len(),
            forall|j: int| 0 <= j < i ==> ints(ids@)[j] != id,
        decreases n - i,
    {
        if ids[i] == id {
            assert(ints(ids@)[i as int] == id);
            return true;
        }
        i += 1;
    }
    false
}

/// Whether the bookmark is associated with the tag.
pub fn is_linked(db: &Store, bookmark_id: i32, tag_id: i32) -> (b: bool)
    ensures
        b == db@.links.contains(Link { bookmark_id: bookmark_id as int, tag_id: tag_id as int }),
{
    let n: usize = db.link_count();
    let mut k: usize = 0;
    while k < n
        invariant
            k <= n,
            n == db@.links.len(),
            forall|j: int|
                0 <= j < k ==> db@.links[j] != (Link {
                    bookmark_id: bookmark_id as int,
                    tag_id: tag_id as int,
                }),
        decreases n - k,
    {
        let l = db.link_at(k);
        if l.bookmark_id == bookmark_id && l.tag_id == tag_id {
            assert(db@.links[k as int] == (Link {
                bookmark_id: bookmark_id as int,
                tag_id: tag_id as int,
            }));
            return true;
        }
        k += 1;
    }
    false
}

/// Whether every pair between the bookmark and a tag of `tag_ids` refers to
/// rows that exist.
pub fn can_link(db: &Store, bookmark_id: i32, tag_ids: &Vec<i32>) -> (b: bool)
    ensures
        b == db@.can_link(bookmark_id as int, ints(tag_ids@)),
{
    let n: usize = tag_ids.len();
    if n == 0 {
        return true;
    }
    let rows: usize = db.bookmark_count();
    let tags: usize = db.tag_count();
    if bookmark_id < 1 || bookmark_id as usize > rows {
        assert(!db@.has_bookmark(bookmark_id as int));
        assert(ints(tag_ids@)[0] == tag_ids@[0]);
        return false;
    }
    let mut i: usize = 0;
    while i < n
        invariant
            i <= n,
            n == tag_ids@.len(),
            tags == db@.tags.len(),
            db@.has_bookmark(bookmark_id as int),
            forall|j: int| 0 <= j < i ==> db@.has_tag(#[trigger] ints(tag_ids@)[j]),
        decreases n - i,
    {
        let t: i32 = tag_ids[i];
        if t < 1 || t as usize > tags {
            assert(!db@.has_tag(ints(tag_ids@)[i as int]));
            return false;
        }
        i += 1;
    }
    true
}

/// Associates the bookmark with each tag of `tag_ids`: a missing pair is
/// inserted, a pair that is already there is left untouched.
///
/// Fails with [`StoreError::Storage`], and changes nothing, when a pair
/// would refer to a bookmark or a tag that does not exist.
pub fn associate(db: &mut Store, bookmark_id: i32, tag_ids: &Vec<i32>) -> (r: Result<
    (),
    StoreError,
>)
    requires
        old(db)@.wf(),
    ensures
        final(db)@.wf(),
        r is Ok <==> old(db)@.can_link(bookmark_id as int, ints(tag_ids@)),
        r is Ok ==> final(db)@ == old(db)@.associate(bookmark_id as int, ints(tag_ids@)),
        r is Err ==> r->Err_0 == StoreError::Storage && final(db)@ == old(db)@,
{
    if !can_link(db, bookmark_id, tag_ids) {
        return Err(StoreError::Storage);
    }
    let ghost pre = db@;
    let ghost b = bookmark_id as int;
    let ghost want = pairs(b, ints(tag_ids@));
    let n: usize = tag_ids.len();
    let mut i: usize = 0;
    assert(want.take(0) =~= Seq::empty());
    assert(pre.links + Seq::<Link>::empty() =~= pre.links);
    while i < n
        invariant
            i <= n,
            n == tag_ids@.len(),
            b == bookmark_id as int,
            want == pairs(b, ints(tag_ids@)),
            pre.wf(),
            pre.can_link(b, ints(tag_ids@)),
            db@.wf(),
            db@ == (StoreView { links: pre.links + fresh(pre.links, want.take(i as int)), ..pre }),
        decreases n - i,
    {
        let t: i32 = tag_ids[i];
        proof {
            lemma_fresh_step(pre.links, want, i as int);
            assert(want[i as int] == Link { bookmark_id: b, tag_id: t as int });
            assert(pre.has_tag(ints(tag_ids@)[i as int]));
            let sofar = fresh(pre.links, want.take(i as int));
            let l = want[i as int];
            if (pre.links + sofar).contains(l) {
                let j = choose|j: int| 0 <= j < (pre.links + sofar).len() && (pre.links + sofar)[j] == l;
                if j < pre.links.len() {
                    assert(pre.links[j] == l);
                } else {
                    assert(sofar[j - pre.links.len()] == l);
                }
            }
            if pre.links.contains(l) {
                let j = choose|j: int| 0 <= j < pre.links.len() && pre.links[j] == l;
                assert((pre.links + sofar)[j] == l);
            }
            if sofar.contains(l) {
                let j = choose|j: int| 0 <= j < sofar.len() && sofar[j] == l;
                assert((pre.links + sofar)[pre.links.len() + j] == l);
            }
        }
        if !is_linked(db, bookmark_id, t) {
            db.push_link(BookmarkTag { bookmark_id, tag_id: t });
            assert(db@.links =~= pre.links + fresh(pre.links, want.take(i + 1)));
        }
        i += 1;
    }
    assert(want.take(n as int) =~= want);
    Ok(())
}

/// Removes the pairs between the bookmark and each tag of `tag_ids`; a pair
/// that is not there is passed over.
pub fn dissociate(db: &mut Store, bookmark_id: i32, tag_ids: &Vec<i32>)
    requires
        old(db)@.wf(),
    ensures
        final(db)@.wf(),
        final(db)@ == old(db)@.dissociate(bookmark_id as int, ints(tag_ids@)),
{
    let ghost pre = db@;
    let ghost keep = kept_without(bookmark_id as int, ints(tag_ids@));
    let mut kept: Vec<BookmarkTag> = Vec::new();
    let n: usize = db.link_count();
    let mut k: usize = 0;
    proof {
        reveal(Seq::filter);
        assert(pre.links.take(0) =~= Seq::empty());
        assert(link_views(kept@) =~= pre.links.take(0).filter(keep));
    }
    while k < n
        invariant
            k <= n,
            n == pre.links.len(),
            db@ == pre,
            keep == kept_without(bookmark_id as int, ints(tag_ids@)),
            link_views(kept@) == pre.links.take(k as int).filter(keep),
        decreases n - k,
    {
        let l = db.link_at(k);
        proof {
            lemma_filter_step(pre.links, keep, k as int);
        }
        if !(l.bookmark_id == bookmark_id && holds_id(tag_ids, l.tag_id)) {
            let ghost before = link_views(kept@);
            kept.push(l);
            assert(link_views(kept@) =~= before.push(l@));
        }
        k += 1;
    }
    proof {
        assert(pre.links.take(n as int) =~= pre.links);
        lemma_filter_member(pre.links, keep);
        lemma_filter_no_duplicates(pre.links, keep);
        let post = StoreView { links: link_views(kept@), ..pre };
        assert forall|j: int| 0 <= j < post.links.len() implies post.has_bookmark(
            (#[trigger] post.links[j]).bookmark_id,
        ) && post.has_tag(post.links[j].tag_id) by {
            assert(post.links.contains(post.links[j]));
            let i = choose|i: int| 0 <= i < pre.links.len() && pre.links[i] == post.links[j];
            assert(pre.has_bookmark(pre.links[i].bookmark_id));
        }
    }
    db.set_links(kept);
}

/// The ids of the bookmark's tags, in the order in which they were
/// associated with it.
pub fn tag_ids_of(db: &Store, bookmark_id: i32) -> (ids: Vec<i32>)
    ensures
        ints(ids@) == db@.tag_ids_of(bookmark_id as int),
{
    let ghost mine = of_bookmark(bookmark_id as int);
    let mut ids: Vec<i32> = Vec::new();
    let n: usize = db.link_count();
    let mut k: usize = 0;
    proof {
        reveal(Seq::filter);
        assert(db@.links.take(0) =~= Seq::empty());
        assert(ints(ids@) =~= db@.links.take(0).filter(mine).map_values(|l: Link| l.tag_id));
    }
    while k < n
        invariant
            k <= n,
            n == db@.links.len(),
            mine == of_bookmark(bookmark_id as int),
            ints(ids@) == db@.links.take(k as int).filter(mine).map_values(|l: Link| l.tag_id),
        decreases n - k,
    {
        let l = db.link_at(k);
        proof {
            lemma_filter_step(db@.links, mine, k as int);
        }
        if l.bookmark_id == bookmark_id {
            let ghost before = ints(ids@);
            ids.push(l.tag_id);
            assert(ints(ids@) =~= before.push(l.tag_id as int));
            assert(ints(ids@) =~= db@.links.take(k + 1).filter(mine).map_values(|l: Link| l.tag_id));
        }
        k += 1;
    }
    assert(db@.links.take(n as int) =~= db@.links);
    ids
}

/// The bookmark's tags, in the order in which they were associated with it.
pub fn tags_of(db: &Store, bookmark_id: i32) -> (tags: Vec<Tag>)
    requires
        db@.wf(),
    ensures
        tag_views(tags@) == db@.tags_of(bookmark_id as int),
{
    let ids = tag_ids_of(db, bookmark_id);
    let mut tags: Vec<Tag> = Vec::new();
    let n: usize = ids.len();
    let mut i: usize = 0;
    proof {
        lemma_tag_ids_of(db@, bookmark_id as int);
    }
    while i < n
        invariant
            i <= n,
            n == ids@.len(),
            db@.wf(),
            ints(ids@) == db@.tag_ids_of(bookmark_id as int),
            forall|t: int| #[trigger]
                db@.tag_ids_of(bookmark_id as int).contains(t) <==> db@.links.contains(
                    Link { bookmark_id: bookmark_id as int, tag_id: t },
                ),
            tags@.len() == i,
            forall|j: int| 0 <= j < i ==> (#[trigger] tags@[j])@ == db@.tag(ints(ids@)[j]),
        decreases n - i,
    {
        let t: i32 = ids[i];
        proof {
            assert(ints(ids@)[i as int] == t);
            assert(db@.tag_ids_of(bookmark_id as int).contains(t as int));
            let l = Link { bookmark_id: bookmark_id as int, tag_id: t as int };
            let k = choose|k: int| 0 <= k < db@.links.len() && db@.links[k] == l;
            assert(db@.has_tag(db@.links[k].tag_id));
        }
        let tag = db.tag_at((t - 1) as usize).clone();
        tags.push(tag);
        i += 1;
    }
    assert(tag_views(tags@) =~= db@.tags_of(bookmark_id as int));
    tags
}

} // verus!
