//! Tag reconciliation: making the tags of a bookmark equal to a wanted list
//! of names with as few insertions and removals as that takes.
//!
//! Only a live bookmark can be reconciled: reconciliation leaves the
//! associations of a soft-deleted bookmark as they are.

use vstd::prelude::*;
use crate::db::bookmark::touch_bookmark;
use crate::db::store::{
    ints, tag_views, texts, Link, Store, StoreError, StoreView, Tag, TagView, ID_LIMIT,
};
use crate::db::tag::{
    associate, dissociate, ensure_tags, holds_id, holds_name, lemma_associate, lemma_dissociate,
    lemma_ensure_tags, lemma_has_name, lemma_tag_id_of, lemma_tag_ids_of, missing_names,
    tag_ids_of,
};
use crate::models::Bookmark;
use crate::seqs::{
    fresh, lemma_filter_member, lemma_filter_step, lemma_fresh, lemma_fresh_step,
};

verus! {

/// The ids that `ids` lacks.
pub open spec fn not_among(ids: Seq<int>) -> spec_fn(int) -> bool {
    |t: int| !ids.contains(t)
}

/// The elements of `a` that `b` lacks, in the order of `a`.
pub open spec fn minus(a: Seq<int>, b: Seq<int>) -> Seq<int> {
    a.filter(not_among(b))
}

/// The names of `names`, each once, in order of first occurrence.
pub open spec fn distinct(names: Seq<Seq<char>>) -> Seq<Seq<char>> {
    fresh(Seq::empty(), names)
}

impl StoreView {
    /// The tag ids of `names`, in their order.
    pub open spec fn ids_named(self, names: Seq<Seq<char>>) -> Seq<int> {
        names.map_values(|n: Seq<char>| self.tag_id_of(n))
    }

    /// The store after the tags of bookmark `b` have been made equal to
    /// `names` at `now`. Every wanted name gets a tag; the bookmark is
    /// associated with the wanted tags that it lacks and loses the tags that
    /// are not wanted; the pairs that are wanted and present stay untouched.
    /// Where a pair was inserted or removed, the row's `updated_at` becomes
    /// `now`.
    pub open spec fn reconcile(
        self,
        b: int,
        names: Seq<Seq<char>>,
        now: time::OffsetDateTime,
    ) -> StoreView {
        let named = self.ensure_tags(names);
        let desired = named.ids_named(distinct(names));
        let current = named.tag_ids_of(b);
        let to_add = minus(desired, current);
        let to_remove = minus(current, desired);
        let linked = named.associate(b, to_add).dissociate(b, to_remove);
        if to_add.len() > 0 || to_remove.len() > 0 {
            linked.touch(b, now)
        } else {
            linked
        }
    }
}

/// Names that occur more than once give no further fresh names.
pub proof fn lemma_fresh_of_distinct<A>(have: Seq<A>, want: Seq<A>)
    ensures
        fresh(have, fresh(Seq::empty(), want)) == fresh(have, want),
    decreases want.len(),
{
    let empty = Seq::<A>::empty();
    if want.len() > 0 {
        let rest = want.drop_last();
        let x = want.last();
        lemma_fresh_of_distinct(have, rest);
        lemma_fresh(empty, rest);
        lemma_fresh(have, rest);
        let once = fresh(empty, rest);
        if once.contains(x) {
            assert(rest.contains(x));
        } else {
            assert(!empty.contains(x));
            assert(fresh(empty, want) == once.push(x));
            assert(once.push(x).drop_last() =~= once);
            assert(once.push(x).last() == x);
        }
    }
}

/// What reconciliation leaves: a well-formed store in which the bookmark
/// carries exactly the wanted names, every other bookmark carries what it
/// carried, no row is added, removed, deleted or revived, and the
/// vocabulary has lost nothing.
pub proof fn lemma_reconcile(s: StoreView, b: int, names: Seq<Seq<char>>, now: time::OffsetDateTime)
    requires
        s.wf(),
        s.has_bookmark(b),
        s.can_name(names),
    ensures
        s.reconcile(b, names, now).wf(),
        forall|n: Seq<char>| #[trigger]
            s.reconcile(b, names, now).has_tag_named(b, n) <==> names.contains(n),
        forall|other: int, n: Seq<char>|
            other != b ==> (#[trigger] s.reconcile(b, names, now).has_tag_named(other, n)
                <==> s.has_tag_named(other, n)),
        s.reconcile(b, names, now).bookmarks.len() == s.bookmarks.len(),
        forall|id: int| #[trigger] s.reconcile(b, names, now).is_live(id) == s.is_live(id),
        forall|n: Seq<char>| s.has_name(n) ==> #[trigger] s.reconcile(b, names, now).has_name(n),
        names.len() == 0 ==> s.reconcile(b, names, now).tag_ids_of(b) == Seq::<int>::empty(),
        names.len() == 0 ==> s.reconcile(b, names, now).tags == s.tags,
{
    let post = s.reconcile(b, names, now);
    let named = s.ensure_tags(names);
    let wanted = distinct(names);
    let desired = named.ids_named(wanted);
    let current = named.tag_ids_of(b);
    let to_add = minus(desired, current);
    let to_remove = minus(current, desired);
    let added = named.associate(b, to_add);
    let linked = added.dissociate(b, to_remove);
    lemma_ensure_tags(s, names);
    lemma_fresh(Seq::empty(), names);
    lemma_tag_ids_of(named, b);
    lemma_filter_member(desired, not_among(current));
    lemma_filter_member(current, not_among(desired));
    assert forall|t: int| desired.contains(t) implies named.has_tag(t) && named.has_name(
        named.tag(t).name,
    ) && names.contains(named.tag(t).name) && named.tag_id_of(named.tag(t).name) == t by {
        let i = choose|i: int| 0 <= i < desired.len() && desired[i] == t;
        let n = wanted[i];
        assert(wanted.contains(n));
        assert(named.has_name(n));
        lemma_has_name(named, n);
    }
    assert forall|n: Seq<char>| names.contains(n) implies desired.contains(named.tag_id_of(n)) by {
        assert(wanted.contains(n));
        let i = choose|i: int| 0 <= i < wanted.len() && wanted[i] == n;
        assert(desired[i] == named.tag_id_of(n));
    }
    assert(named.can_link(b, to_add)) by {
        assert forall|i: int| 0 <= i < to_add.len() implies named.has_bookmark(b) && named.has_tag(
            #[trigger] to_add[i],
        ) by {
            assert(to_add.contains(to_add[i]));
        }
    }
    lemma_associate(named, b, to_add);
    lemma_dissociate(added, b, to_remove);
    crate::db::bookmark::lemma_update(linked, b, None, None, now);
    assert(post.links == linked.links);
    assert(post.tags == named.tags);
    assert(post.names() == named.names());
    assert forall|l: Link| #[trigger]
        post.links.contains(l) <==> if l.bookmark_id == b {
            desired.contains(l.tag_id)
        } else {
            s.links.contains(l)
        } by {
        if l.bookmark_id == b {
            assert(current.contains(l.tag_id) <==> named.links.contains(l));
        }
    }
    assert forall|n: Seq<char>| #[trigger] post.has_name(n) == named.has_name(n) by {}
    assert forall|n: Seq<char>| #[trigger] post.tag_id_of(n) == named.tag_id_of(n) by {}
    assert forall|n: Seq<char>| s.has_name(n) implies #[trigger] post.has_name(n) by {
        assert(named.has_name(n));
    }
    assert forall|n: Seq<char>| #[trigger] post.has_tag_named(b, n) <==> names.contains(n) by {
        let t = named.tag_id_of(n);
        let l = Link { bookmark_id: b, tag_id: t };
        assert(post.tag_id_of(n) == t);
        assert(post.links.contains(l) <==> desired.contains(t));
        if post.has_tag_named(b, n) {
            assert(named.has_name(n));
            assert(desired.contains(t));
            lemma_has_name(named, n);
            assert(named.tag(t).name == n);
            assert(names.contains(n));
        }
        if names.contains(n) {
            assert(named.has_name(n));
            assert(desired.contains(t));
            assert(post.has_name(n));
        }
    }
    assert forall|other: int, n: Seq<char>| other != b implies (#[trigger] post.has_tag_named(
        other,
        n,
    ) <==> s.has_tag_named(other, n)) by {
        let t = named.tag_id_of(n);
        let l = Link { bookmark_id: other, tag_id: t };
        assert(post.tag_id_of(n) == t);
        assert(post.links.contains(l) <==> s.links.contains(l));
        if s.has_name(n) {
            assert(named.has_name(n));
            assert(t == s.tag_id_of(n));
        } else if post.has_tag_named(other, n) {
            assert(named.has_name(n));
            assert(s.links.contains(l));
            let k = choose|k: int| 0 <= k < s.links.len() && s.links[k] == l;
            assert(s.has_tag(s.links[k].tag_id));
            lemma_has_name(named, n);
            assert(named.tags[t - 1] == s.tags[t - 1]);
            assert(s.names()[t - 1] == n);
            assert(false);
        }
    }
    if names.len() == 0 {
        lemma_tag_ids_of(post, b);
        assert(wanted =~= Seq::empty());
        assert(desired =~= Seq::empty());
        if post.tag_ids_of(b).len() > 0 {
            let t = post.tag_ids_of(b)[0];
            assert(post.tag_ids_of(b).contains(t));
            assert(post.links.contains(Link { bookmark_id: b, tag_id: t }));
        }
        assert(post.tag_ids_of(b) =~= Seq::empty());
        assert(fresh(s.names(), names) =~= Seq::empty());
        assert(s.new_tags(fresh(s.names(), names)) =~= Seq::empty());
        assert(post.tags =~= s.tags);
    }
}

/// Reconciliation converges: after the tags of a live bookmark have been
/// reconciled with one list of names and then with another, the bookmark
/// carries exactly the names of the second list, whatever the two lists
/// share.
pub proof fn lemma_reconcile_converges(
    s: StoreView,
    b: int,
    first: Seq<Seq<char>>,
    second: Seq<Seq<char>>,
    now: time::OffsetDateTime,
    later: time::OffsetDateTime,
)
    requires
        s.wf(),
        s.is_live(b),
        s.can_name(first),
        s.reconcile(b, first, now).can_name(second),
    ensures
        s.reconcile(b, first, now).is_live(b),
        forall|n: Seq<char>| #[trigger]
            s.reconcile(b, first, now).reconcile(b, second, later).has_tag_named(b, n)
                <==> second.contains(n),
{
    lemma_reconcile(s, b, first, now);
    lemma_reconcile(s.reconcile(b, first, now), b, second, later);
}

/// Reconciling a bookmark with no names takes every tag from it, and
/// creates no tag.
pub proof fn lemma_reconcile_empty(s: StoreView, b: int, now: time::OffsetDateTime)
    requires
        s.wf(),
        s.is_live(b),
    ensures
        s.can_name(Seq::empty()),
        s.reconcile(b, Seq::empty(), now).wf(),
        s.reconcile(b, Seq::empty(), now).tag_ids_of(b) == Seq::<int>::empty(),
        s.reconcile(b, Seq::empty(), now).tags == s.tags,
        forall|n: Seq<char>| !#[trigger] s.reconcile(b, Seq::empty(), now).has_tag_named(b, n),
{
    let none = Seq::<Seq<char>>::empty();
    assert(fresh(s.names(), none) =~= Seq::empty());
    lemma_reconcile(s, b, none, now);
    assert forall|n: Seq<char>| !#[trigger] s.reconcile(b, none, now).has_tag_named(b, n) by {
        assert(!none.contains(n));
    }
}

/// The names of `names`, each once, in order of first occurrence.
pub fn distinct_names(names: &Vec<String>) -> (out: Vec<String>)
    ensures
        texts(out@) == distinct(texts(names@)),
{
    let mut out: Vec<String> = Vec::new();
    let n: usize = names.len();
    let mut i: usize = 0;
    let ghost empty = Seq::<Seq<char>>::empty();
    assert(texts(names@).take(0) =~= Seq::empty());
    assert(texts(out@) =~= Seq::empty());
    while i < n
        invariant
            i <= n,
            n == names@.len(),
            empty == Seq::<Seq<char>>::empty(),
            texts(out@) == fresh(empty, texts(names@).take(i as int)),
        decreases n - i,
    {
        let name = &names[i];
        proof {
            lemma_fresh_step(empty, texts(names@), i as int);
            assert(!empty.contains(name@));
        }
        if !holds_name(&out, name) {
            let ghost before = texts(out@);
            out.push(name.clone());
            assert(texts(out@) =~= before.push(name@));
        }
        i += 1;
    }
    assert(texts(names@).take(n as int) =~= texts(names@));
    out
}

/// The ids of `a` that `b` lacks, in the order of `a`.
pub fn difference(a: &Vec<i32>, b: &Vec<i32>) -> (out: Vec<i32>)
    ensures
        ints(out@) == minus(ints(a@), ints(b@)),
{
    let ghost keep = not_among(ints(b@));
    let mut out: Vec<i32> = Vec::new();
    let n: usize = a.len();
    let mut i: usize = 0;
    proof {
        reveal(Seq::filter);
        assert(ints(a@).take(0) =~= Seq::empty());
        assert(ints(out@) =~= ints(a@).take(0).filter(keep));
    }
    while i < n
        invariant
            i <= n,
            n == a@.len(),
            keep == not_among(ints(b@)),
            ints(out@) == ints(a@).take(i as int).filter(keep),
        decreases n - i,
    {
        let t: i32 = a[i];
        proof {
            lemma_filter_step(ints(a@), keep, i as int);
            assert(ints(a@)[i as int] == t);
        }
        if !holds_id(b, t) {
            let ghost before = ints(out@);
            out.push(t);
            assert(ints(out@) =~= before.push(t as int));
        }
        i += 1;
    }
    assert(ints(a@).take(n as int) =~= ints(a@));
    out
}

/// What reconciliation has to do for a bookmark that carries the tags
/// `current` and is to carry the tags `desired`: the tags to associate it
/// with, and the tags to take from it.
pub fn tag_diff(current: &Vec<i32>, desired: &Vec<i32>) -> (r: (Vec<i32>, Vec<i32>))
    ensures
        ints(r.0@) == minus(ints(desired@), ints(current@)),
        ints(r.1@) == minus(ints(current@), ints(desired@)),
{
    (difference(desired, current), difference(current, desired))
}

/// Whether the vocabulary can take the names of `names` that it lacks.
pub fn can_name(db: &Store, names: &Vec<String>) -> (b: bool)
    requires
        db@.wf(),
    ensures
        b == db@.can_name(texts(names@)),
{
    let added = missing_names(db, names);
    added.len() <= ID_LIMIT - db.tag_count()
}

/// Whether a row with this id exists and is not soft-deleted.
pub fn is_live(db: &Store, id: i32) -> (b: bool)
    ensures
        b == db@.is_live(id as int),
{
    let rows: usize = db.bookmark_count();
    if id < 1 || id as usize > rows {
        return false;
    }
    db.bookmark_at((id - 1) as usize).deleted_at.is_none()
}

/// The ids of `tags`, in their order.
fn ids_of(tags: &Vec<Tag>) -> (ids: Vec<i32>)
    ensures
        ints(ids@) == tag_views(tags@).map_values(|t: TagView| t.id),
{
    let mut ids: Vec<i32> = Vec::new();
    let n: usize = tags.len();
    let mut i: usize = 0;
    while i < n
        invariant
            i <= n,
            n == tags@.len(),
            ids@.len() == i,
            forall|j: int| 0 <= j < i ==> ids@[j] == tags@[j].id,
        decreases n - i,
    {
        ids.push(tags[i].id);
        i += 1;
    }
    assert(ints(ids@) =~= tag_views(tags@).map_values(|t: TagView| t.id));
    ids
}

/// Makes the tags of `bookmark` equal to the names of `tags`: repeated names
/// count once, a name that the vocabulary lacks gets a tag, the bookmark is
/// associated with the wanted tags that it lacks, and loses the tags that
/// are not wanted. An empty `tags` takes every tag from the bookmark. Where
/// an association was inserted or removed, the row's `updated_at` becomes
/// `now`.
///
/// Fails, and changes nothing, with [`StoreError::NotFound`] when no live
/// row has the bookmark's id, and with [`StoreError::Storage`] when the tag
/// ids do not suffice for the new names.
pub fn update_bookmark_tags(
    db: &mut Store,
    bookmark: &Bookmark,
    tags: &Vec<String>,
    now: time::OffsetDateTime,
) -> (r: Result<(), StoreError>)
    requires
        old(db)@.wf(),
    ensures
        final(db)@.wf(),
        r is Ok <==> old(db)@.is_live(bookmark.id as int) && old(db)@.can_name(texts(tags@)),
        r is Ok ==> final(db)@ == old(db)@.reconcile(bookmark.id as int, texts(tags@), now),
        r is Err ==> final(db)@ == old(db)@,
        r is Err ==> r->Err_0 == if old(db)@.is_live(bookmark.id as int) {
            StoreError::Storage
        } else {
            StoreError::NotFound
        },
{
    let id: i32 = bookmark.id;
    if !is_live(db, id) {
        return Err(StoreError::NotFound);
    }
    let ghost pre = db@;
    let ghost names = texts(tags@);
    let wanted = distinct_names(tags);
    proof {
        lemma_fresh_of_distinct(pre.names(), names);
        lemma_fresh(Seq::empty(), names);
    }
    let rows = match ensure_tags(db, &wanted) {
        Ok(rows) => rows,
        Err(_) => {
            return Err(StoreError::Storage);
        },
    };
    let ghost named = db@;
    assert(named == pre.ensure_tags(names));
    let desired = ids_of(&rows);
    let current = tag_ids_of(db, id);
    let (to_add, to_remove) = tag_diff(&current, &desired);
    proof {
        lemma_ensure_tags(pre, texts(wanted@));
        assert(ints(desired@).len() == rows@.len());
        assert(rows@.len() == wanted@.len());
        assert(texts(wanted@).len() == wanted@.len());
        assert(ints(desired@) =~= named.ids_named(distinct(names))) by {
            assert forall|i: int| 0 <= i < desired@.len() implies ints(desired@)[i]
                == named.ids_named(distinct(names))[i] by {
                let n = texts(wanted@)[i];
                assert(texts(wanted@).contains(n));
                assert(named.has_name(n));
                lemma_has_name(named, n);
                lemma_tag_id_of(named, named.tag_id_of(n));
                assert(rows@[i]@ == named.tag(named.tag_id_of(wanted@[i]@)));
            }
        }
        lemma_filter_member(ints(desired@), not_among(ints(current@)));
        assert forall|i: int| 0 <= i < ints(to_add@).len() implies named.has_bookmark(id as int)
            && named.has_tag(#[trigger] ints(to_add@)[i]) by {
            let t = ints(to_add@)[i];
            assert(ints(to_add@).contains(t));
            assert(ints(desired@).contains(t));
            let j = choose|j: int| 0 <= j < ints(desired@).len() && ints(desired@)[j] == t;
            let n = texts(wanted@)[j];
            assert(texts(wanted@).contains(n));
            assert(named.has_name(n));
            lemma_has_name(named, n);
        }
    }
    let linked = associate(db, id, &to_add);
    assert(linked is Ok);
    dissociate(db, id, &to_remove);
    if to_add.len() > 0 || to_remove.len() > 0 {
        touch_bookmark(db, id, now);
    }
    Ok(())
}

} // verus!
