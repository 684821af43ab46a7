//! Rearrangements of a region of a sequence that keep its elements.
use vstd::multiset::*;
use vstd::prelude::*;
use vstd::seq_lib::group_to_multiset_ensures;
use vstd::seq_lib::to_multiset_update;

verus! {

/// `b` is `a` with the elements of positions `lo..hi` rearranged among
/// themselves, and every other position untouched.
pub open spec fn permutes<T>(a: Seq<T>, b: Seq<T>, lo: int, hi: int) -> bool {
    &&& a.len() == b.len()
    &&& 0 <= lo <= hi <= a.len()
    &&& forall|i: int| 0 <= i < a.len() && !(lo <= i < hi) ==> b[i] == a[i]
    &&& b.subrange(lo, hi).to_multiset() == a.subrange(lo, hi).to_multiset()
}

/// The sequence `s` with the elements at `i` and `j` exchanged.
pub open spec fn swapped<T>(s: Seq<T>, i: int, j: int) -> Seq<T> {
    s.update(i, s[j]).update(j, s[i])
}

pub proof fn lemma_permutes_refl<T>(a: Seq<T>, lo: int, hi: int)
    requires
        0 <= lo <= hi <= a.len(),
    ensures
        permutes(a, a, lo, hi),
{
}

pub proof fn lemma_permutes_trans<T>(a: Seq<T>, b: Seq<T>, c: Seq<T>, lo: int, hi: int)
    requires
        permutes(a, b, lo, hi),
        permutes(b, c, lo, hi),
    ensures
        permutes(a, c, lo, hi),
{
}

/// Exchanging two positions inside a region rearranges that region.
pub proof fn lemma_swap_permutes<T>(s: Seq<T>, i: int, j: int, lo: int, hi: int)
    requires
        0 <= lo <= i < hi <= s.len(),
        lo <= j < hi,
    ensures
        permutes(s, swapped(s, i, j), lo, hi),
{
    broadcast use group_multiset_properties, group_to_multiset_ensures;

    let t = swapped(s, i, j);
    let sub = s.subrange(lo, hi);
    let s1 = s.update(i, s[j]);
    assert(s1.subrange(lo, hi) =~= sub.update(i - lo, s[j]));
    assert(t.subrange(lo, hi) =~= s1.subrange(lo, hi).update(j - lo, s[i]));
    to_multiset_update(sub, i - lo, s[j]);
    to_multiset_update(s1.subrange(lo, hi), j - lo, s[i]);
    let m = sub.to_multiset();
    assert(sub[i - lo] == s[i]);
    assert(s1.subrange(lo, hi)[j - lo] == s1[j]);
    if i == j {
        assert(t =~= s);
    } else {
        assert(s1[j] == s[j]);
        assert(m.count(s[i]) > 0) by {
            assert(sub.contains(s[i]));
        }
        assert(m.insert(s[j]).remove(s[i]).insert(s[i]).remove(s[j]) =~= m);
    }
}

} // verus!
