//! Text matching for the title filter.

use vstd::prelude::*;

verus! {

/// `needle` occurs in `hay` as a contiguous run of characters.
/// The empty needle occurs in every text.
pub open spec fn is_infix(needle: Seq<char>, hay: Seq<char>) -> bool {
    exists|i: int|
        0 <= i && i + needle.len() <= hay.len() && #[trigger] hay.subrange(i, i + needle.len())
            == needle
}

/// The characters of `s`, in order.
pub fn chars_of(s: &str) -> (v: Vec<char>)
    ensures
        v@ == s@,
{
    let mut v: Vec<char> = Vec::new();
    for c in it: s.chars()
        invariant
            it.seq() == s@,
            v@ == it.seq().take(it.index() as int),
    {
        v.push(c);
    }
    v
}

/// Whether `needle` stands in `hay` at offset `at`.
pub fn occurs_at(hay: &Vec<char>, needle: &Vec<char>, at: usize) -> (b: bool)
    ensures
        b == (at + needle@.len() <= hay@.len() && hay@.subrange(at as int, at + needle@.len())
            == needle@),
{
    let width: usize = needle.len();
    let total: usize = hay.len();
    if at > total || width > total - at {
        return false;
    }
    let mut k: usize = 0;
    while k < width
        invariant
            k <= width,
            width == needle@.len(),
            total == hay@.len(),
            at + width <= total,
            forall|j: int| 0 <= j < k ==> hay@[at + j] == needle@[j],
        decreases width - k,
    {
        if hay[at + k] != needle[k] {
            assert(hay@.subrange(at as int, at + needle@.len())[k as int] != needle@[k as int]);
            return false;
        }
        k += 1;
    }
    assert(hay@.subrange(at as int, at + needle@.len()) =~= needle@);
    true
}

/// Whether `needle` occurs anywhere in `hay`.
pub fn contains_chars(hay: &Vec<char>, needle: &Vec<char>) -> (b: bool)
    ensures
        b == is_infix(needle@, hay@),
{
    let width: usize = needle.len();
    let total: usize = hay.len();
    if width == 0 {
        proof {
            assert(needle@ =~= Seq::<char>::empty());
            lemma_empty_is_infix(hay@);
        }
        return true;
    }
    if width > total {
        return false;
    }
    let last: usize = total - width;
    let mut i: usize = 0;
    while i <= last
        invariant
            i <= last + 1,
            last < total,
            width == needle@.len(),
            total == hay@.len(),
            last == total - width,
            forall|j: int| 0 <= j < i ==> #[trigger] hay@.subrange(j, j + needle@.len()) != needle@,
        decreases last + 1 - i,
    {
        if occurs_at(hay, needle, i) {
            return true;
        }
        i += 1;
    }
    false
}

/// Whether the text `needle` occurs anywhere in the text `hay`, character by
/// character and with case respected.
pub fn contains_text(hay: &str, needle: &str) -> (b: bool)
    ensures
        b == is_infix(needle@, hay@),
{
    let h = chars_of(hay);
    let n = chars_of(needle);
    contains_chars(&h, &n)
}

/// The empty text occurs in every text.
pub proof fn lemma_empty_is_infix(hay: Seq<char>)
    ensures
        is_infix(Seq::<char>::empty(), hay),
{
    assert(hay.subrange(0, 0int + Seq::<char>::empty().len()) =~= Seq::<char>::empty());
}

} // verus!
