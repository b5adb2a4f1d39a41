//! Facts about sequences that the store's operations share.

use vstd::prelude::*;

verus! {

/// The elements of `want` that `have` lacks, each once, in the order in which
/// `want` first names them.
pub open spec fn fresh<A>(have: Seq<A>, want: Seq<A>) -> Seq<A>
    decreases want.len(),
{
    if want.len() == 0 {
        Seq::empty()
    } else {
        let before = fresh(have, want.drop_last());
        let x = want.last();
        if have.contains(x) || before.contains(x) {
            before
        } else {
            before.push(x)
        }
    }
}

/// `fresh(have, want)` holds no element twice, holds exactly the elements of
/// `want` that `have` lacks, and is no longer than `want`.
pub proof fn lemma_fresh<A>(have: Seq<A>, want: Seq<A>)
    ensures
        fresh(have, want).no_duplicates(),
        forall|x: A| #[trigger] fresh(have, want).contains(x) <==> want.contains(x) && !have.contains(x),
        fresh(have, want).len() <= want.len(),
    decreases want.len(),
{
    if want.len() > 0 {
        let rest = want.drop_last();
        let before = fresh(have, rest);
        let last = want.last();
        lemma_fresh(have, rest);
        assert forall|x: A| #[trigger] fresh(have, want).contains(x) <==> want.contains(x) && !have.contains(x) by {
            if want.contains(x) {
                let i = choose|i: int| 0 <= i < want.len() && want[i] == x;
                if i < want.len() - 1 {
                    assert(rest[i] == x);
                    assert(rest.contains(x));
                } else {
                    assert(x == last);
                }
            }
            if rest.contains(x) {
                let i = choose|i: int| 0 <= i < rest.len() && rest[i] == x;
                assert(want[i] == x);
            }
            assert(want[want.len() - 1] == last);
            if fresh(have, want).contains(x) && !before.contains(x) {
                let i = choose|i: int| 0 <= i < fresh(have, want).len() && fresh(have, want)[i] == x;
                assert(x == last);
            }
            if before.contains(x) && !(have.contains(last) || before.contains(last)) {
                let i = choose|i: int| 0 <= i < before.len() && before[i] == x;
                assert(before.push(last)[i] == x);
            }
            if x == last && !(have.contains(last) || before.contains(last)) {
                assert(before.push(last)[before.len() as int] == x);
            }
        }
    }
}

/// A sequence extended by what it lacks of `want` holds what it held and the
/// elements of `want`, and nothing twice if it held nothing twice.
pub proof fn lemma_extend_fresh<A>(have: Seq<A>, want: Seq<A>)
    ensures
        forall|x: A| #[trigger]
            (have + fresh(have, want)).contains(x) <==> have.contains(x) || want.contains(x),
        have.no_duplicates() ==> (have + fresh(have, want)).no_duplicates(),
{
    let added = fresh(have, want);
    let all = have + added;
    lemma_fresh(have, want);
    assert forall|x: A| #[trigger] all.contains(x) <==> have.contains(x) || want.contains(x) by {
        if all.contains(x) {
            let i = choose|i: int| 0 <= i < all.len() && all[i] == x;
            if i < have.len() {
                assert(have[i] == x);
            } else {
                assert(added[i - have.len()] == x);
                assert(added.contains(x));
            }
        }
        if have.contains(x) {
            let i = choose|i: int| 0 <= i < have.len() && have[i] == x;
            assert(all[i] == x);
        }
        if want.contains(x) && !have.contains(x) {
            assert(added.contains(x));
            let i = choose|i: int| 0 <= i < added.len() && added[i] == x;
            assert(all[have.len() + i] == x);
        }
    }
    if have.no_duplicates() {
        assert forall|i: int, j: int| 0 <= i < have.len() && 0 <= j < added.len() implies have[i]
            != added[j] by {
            assert(added.contains(added[j]));
            assert(have.contains(have[i]));
        }
        vstd::seq_lib::lemma_no_dup_in_concat(have, added);
    }
}

/// Taking one more element of `want` extends `fresh` by that element exactly
/// when it is new.
pub proof fn lemma_fresh_step<A>(have: Seq<A>, want: Seq<A>, k: int)
    requires
        0 <= k < want.len(),
    ensures
        fresh(have, want.take(k + 1)) == if have.contains(want[k]) || fresh(
            have,
            want.take(k),
        ).contains(want[k]) {
            fresh(have, want.take(k))
        } else {
            fresh(have, want.take(k)).push(want[k])
        },
{
    assert(want.take(k + 1).drop_last() =~= want.take(k));
    assert(want.take(k + 1).last() == want[k]);
}

/// A sequence extended by one element holds what it held and that element.
pub proof fn lemma_take_step_contains<A>(s: Seq<A>, k: int)
    requires
        0 <= k < s.len(),
    ensures
        forall|x: A| #[trigger] s.take(k + 1).contains(x) <==> s.take(k).contains(x) || x == s[k],
{
    let more = s.take(k + 1);
    let less = s.take(k);
    assert forall|x: A| #[trigger] more.contains(x) <==> less.contains(x) || x == s[k] by {
        if more.contains(x) {
            let i = choose|i: int| 0 <= i < more.len() && more[i] == x;
            if i < k {
                assert(less[i] == x);
            }
        }
        if less.contains(x) {
            let i = choose|i: int| 0 <= i < less.len() && less[i] == x;
            assert(more[i] == x);
        }
        if x == s[k] {
            assert(more[k] == x);
        }
    }
}

/// What a filter keeps: the elements of the sequence that meet the predicate.
pub proof fn lemma_filter_member<A>(s: Seq<A>, keep: spec_fn(A) -> bool)
    ensures
        forall|x: A| #[trigger] s.filter(keep).contains(x) <==> s.contains(x) && keep(x),
{
    assert forall|x: A| #[trigger] s.filter(keep).contains(x) <==> s.contains(x) && keep(x) by {
        if s.filter(keep).contains(x) {
            s.lemma_filter_contains_rev(keep, x);
            let i = choose|i: int| 0 <= i < s.filter(keep).len() && s.filter(keep)[i] == x;
            s.lemma_filter_pred(keep, i);
        }
        if s.contains(x) && keep(x) {
            let i = choose|i: int| 0 <= i < s.len() && s[i] == x;
            s.lemma_filter_contains(keep, i);
        }
    }
}

/// A filter of a sequence without repeats has no repeats.
pub proof fn lemma_filter_no_duplicates<A>(s: Seq<A>, keep: spec_fn(A) -> bool)
    requires
        s.no_duplicates(),
    ensures
        s.filter(keep).no_duplicates(),
    decreases s.len(),
{
    reveal(Seq::filter);
    if s.len() > 0 {
        let rest = s.drop_last();
        lemma_filter_no_duplicates(rest, keep);
        if keep(s.last()) {
            if rest.filter(keep).contains(s.last()) {
                rest.lemma_filter_contains_rev(keep, s.last());
                let i = choose|i: int| 0 <= i < rest.len() && rest[i] == s.last();
                assert(s[i] == s[s.len() - 1]);
            }
        }
    }
}

/// Taking one more element of `s` extends its filter by that element exactly
/// when the predicate holds of it.
pub proof fn lemma_filter_step<A>(s: Seq<A>, keep: spec_fn(A) -> bool, k: int)
    requires
        0 <= k < s.len(),
    ensures
        s.take(k + 1).filter(keep) == if keep(s[k]) {
            s.take(k).filter(keep).push(s[k])
        } else {
            s.take(k).filter(keep)
        },
{
    assert(s.take(k + 1) =~= s.take(k).push(s[k]));
    s.take(k).lemma_filter_push(s[k], keep);
}

} // verus!
