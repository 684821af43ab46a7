//! The implicit tree layout, its check, and median selection on one axis.
use crate::perm::{lemma_permutes_refl, lemma_permutes_trans, lemma_swap_permutes, permutes, swapped};
use crate::point::coord;
use vstd::prelude::*;

verus! {

/// The position of the node that stands for the region `lo..hi`.
pub open spec fn mid(lo: int, hi: int) -> int {
    lo + (hi - lo) / 2
}

/// The splitting axis one level below a node split on axis `a`.
pub open spec fn next_axis(a: int, k: int) -> int {
    if a + 1 < k {
        a + 1
    } else {
        0
    }
}

/// The region `lo..hi` of `s` is a balanced k-d tree whose root splits on
/// axis `a`: the root sits at the middle, everything before it is not
/// greater on `a`, everything after it is not smaller, and both halves are
/// trees of the same kind splitting on the next axis.
pub open spec fn kd_ok<const K: usize>(s: Seq<[i32; K]>, lo: int, hi: int, a: int) -> bool
    decreases hi - lo,
{
    if lo >= hi {
        true
    } else {
        let m = mid(lo, hi);
        &&& forall|i: int| lo <= i < m ==> coord(#[trigger] s[i], a) <= coord(s[m], a)
        &&& forall|i: int| m < i < hi ==> coord(#[trigger] s[i], a) >= coord(s[m], a)
        &&& kd_ok(s, lo, m, next_axis(a, K as int))
        &&& kd_ok(s, m + 1, hi, next_axis(a, K as int))
    }
}

/// Whether a region is a tree depends only on the coordinates of the items
/// in it.
pub proof fn lemma_kd_frame<const K: usize>(s: Seq<[i32; K]>, t: Seq<[i32; K]>, lo: int, hi: int, a: int)
    requires
        kd_ok(s, lo, hi, a),
        0 <= lo,
        hi <= s.len(),
        hi <= t.len(),
        forall|i: int| lo <= i < hi ==> s[i]@ == t[i]@,
    ensures
        kd_ok(t, lo, hi, a),
    decreases hi - lo,
{
    if lo < hi {
        let m = mid(lo, hi);
        lemma_kd_frame(s, t, lo, m, next_axis(a, K as int));
        lemma_kd_frame(s, t, m + 1, hi, next_axis(a, K as int));
    }
}

/// Whether a region is a tree does not depend on where it stands.
pub proof fn lemma_kd_shift<const K: usize>(s: Seq<[i32; K]>, t: Seq<[i32; K]>, lo: int, hi: int, d: int, a: int)
    requires
        kd_ok(s, lo, hi, a),
        0 <= lo,
        hi <= s.len(),
        0 <= lo + d,
        hi + d <= t.len(),
        forall|i: int| lo <= i < hi ==> t[i + d] == s[i],
    ensures
        kd_ok(t, lo + d, hi + d, a),
    decreases hi - lo,
{
    if lo < hi {
        let m = mid(lo, hi);
        assert(mid(lo + d, hi + d) == m + d);
        assert(t[m + d] == s[m]);
        assert forall|i: int| lo + d <= i < m + d implies coord(#[trigger] t[i], a) <= coord(t[m + d], a) by {
            assert(t[(i - d) + d] == s[i - d]);
        }
        assert forall|i: int| m + d < i < hi + d implies coord(#[trigger] t[i], a) >= coord(t[m + d], a) by {
            assert(t[(i - d) + d] == s[i - d]);
        }
        lemma_kd_shift(s, t, lo, m, d, next_axis(a, K as int));
        lemma_kd_shift(s, t, m + 1, hi, d, next_axis(a, K as int));
    }
}

/// One partition pass over `s[l..r]` around the pivot at `r - 1`, resumed
/// at position `i` with `s[l..st]` holding the items found smaller than the
/// pivot on axis `a`: the rearranged sequence and where the pivot lands.
pub open spec fn partition_from<const K: usize>(s: Seq<[i32; K]>, l: int, r: int, i: int, st: int, a: int) -> (Seq<[i32; K]>, int)
    decreases r - 1 - i,
{
    if i >= r - 1 {
        (swapped(s, st, r - 1), st)
    } else if coord(s[i], a) < coord(s[r - 1], a) {
        partition_from(swapped(s, i, st), l, r, i + 1, st + 1, a)
    } else {
        partition_from(s, l, r, i + 1, st, a)
    }
}

/// The sequence that selecting position `t` of `s[l..r]` on axis `a`
/// leaves: the middle item is moved to the end as pivot, the region is
/// partitioned around it, and the side holding `t` is selected in turn.
pub open spec fn select_result<const K: usize>(s: Seq<[i32; K]>, l: int, r: int, t: int, a: int) -> Seq<[i32; K]>
    decreases r - l,
{
    if !(l <= t < r) {
        s
    } else {
        let pm = l + (r - l) / 2;
        let (s3, st) = partition_from(swapped(s, pm, r - 1), l, r, l, l, a);
        if st == t || !(l <= st < r) {
            s3
        } else if t < st {
            select_result(s3, l, st, t, a)
        } else {
            select_result(s3, st + 1, r, t, a)
        }
    }
}

fn swap_items<const K: usize>(v: &mut Vec<[i32; K]>, i: usize, j: usize)
    requires
        i < old(v).len(),
        j < old(v).len(),
    ensures
        final(v)@ == swapped(old(v)@, i as int, j as int),
{
    let x = v[i];
    let y = v[j];
    v.set(i, y);
    v.set(j, x);
}

/// Rearranges `v[lo..hi]` so that the element at `target` has, on axis
/// `ax`, nothing greater before it and nothing smaller after it within the
/// region (a quickselect with the middle element as pivot).
pub fn select<const K: usize>(v: &mut Vec<[i32; K]>, lo: usize, hi: usize, target: usize, ax: usize)
    requires
        lo <= target < hi <= old(v).len(),
        ax < K,
    ensures
        permutes(old(v)@, final(v)@, lo as int, hi as int),
        final(v)@ == select_result(old(v)@, lo as int, hi as int, target as int, ax as int),
        forall|i: int|
            lo <= i < target ==> coord(#[trigger] final(v)@[i], ax as int) <= coord(
                final(v)@[target as int],
                ax as int,
            ),
        forall|i: int|
            target < i < hi ==> coord(#[trigger] final(v)@[i], ax as int) >= coord(
                final(v)@[target as int],
                ax as int,
            ),
{
    let ghost s0 = v@;
    let ghost a = ax as int;
    let ghost mut lb: int = i32::MIN as int;
    let ghost mut ub: int = i32::MAX as int;
    let mut l: usize = lo;
    let mut r: usize = hi;
    proof {
        lemma_permutes_refl(s0, lo as int, hi as int);
    }
    loop
        invariant
            lo <= l <= target < r <= hi <= v.len(),
            s0 == old(v)@,
            select_result(v@, l as int, r as int, target as int, ax as int) == select_result(
                s0,
                lo as int,
                hi as int,
                target as int,
                ax as int,
            ),
            ax < K,
            a == ax,
            permutes(s0, v@, lo as int, hi as int),
            forall|i: int| lo <= i < l ==> coord(#[trigger] v@[i], a) <= lb,
            forall|i: int| l <= i < r ==> lb <= coord(#[trigger] v@[i], a) <= ub,
            forall|i: int| r <= i < hi ==> coord(#[trigger] v@[i], a) >= ub,
        decreases r - l,
    {
        let pm = l + (r - l) / 2;
        proof {
            lemma_swap_permutes(v@, pm as int, r - 1, lo as int, hi as int);
            lemma_permutes_trans(s0, v@, swapped(v@, pm as int, r - 1), lo as int, hi as int);
        }
        let ghost sl = v@;
        swap_items(v, pm, r - 1);
        let ghost sp = v@;
        let pv = v[r - 1][ax];
        let mut st: usize = l;
        let mut i: usize = l;
        while i < r - 1
            invariant
                lo <= l <= st <= i <= r - 1,
                l <= target < r <= hi <= v.len(),
                ax < K,
                a == ax,
                coord(v@[r - 1], a) == pv,
                partition_from(v@, l as int, r as int, i as int, st as int, a) == partition_from(
                    sp,
                    l as int,
                    r as int,
                    l as int,
                    l as int,
                    a,
                ),
                permutes(s0, v@, lo as int, hi as int),
                forall|j: int| lo <= j < l ==> coord(#[trigger] v@[j], a) <= lb,
                forall|j: int| l <= j < r ==> lb <= coord(#[trigger] v@[j], a) <= ub,
                forall|j: int| r <= j < hi ==> coord(#[trigger] v@[j], a) >= ub,
                forall|j: int| l <= j < st ==> coord(#[trigger] v@[j], a) < pv,
                forall|j: int| st <= j < i ==> coord(#[trigger] v@[j], a) >= pv,
            decreases r - 1 - i,
        {
            if v[i][ax] < pv {
                proof {
                    lemma_swap_permutes(v@, i as int, st as int, lo as int, hi as int);
                    lemma_permutes_trans(s0, v@, swapped(v@, i as int, st as int), lo as int, hi as int);
                }
                swap_items(v, i, st);
                st = st + 1;
            }
            i = i + 1;
        }
        proof {
            lemma_swap_permutes(v@, st as int, r - 1, lo as int, hi as int);
            lemma_permutes_trans(s0, v@, swapped(v@, st as int, r - 1), lo as int, hi as int);
        }
        swap_items(v, st, r - 1);
        assert(coord(v@[st as int], a) == pv);
        assert(sp == swapped(sl, pm as int, r - 1));
        assert(partition_from(sp, l as int, r as int, l as int, l as int, a) == (v@, st as int));
        if st == target {
            return;
        } else if target < st {
            proof {
                ub = pv as int;
            }
            r = st;
        } else {
            proof {
                lb = pv as int;
            }
            l = st + 1;
        }
    }
}

/// Whether `v[lo..hi]` is a balanced k-d tree whose root splits on axis
/// `ax`.
pub fn is_kd_region<const K: usize>(v: &Vec<[i32; K]>, lo: usize, hi: usize, ax: usize) -> (r: bool)
    requires
        lo <= hi <= v.len(),
        ax < K,
    ensures
        r == kd_ok(v@, lo as int, hi as int, ax as int),
    decreases hi - lo,
{
    if lo == hi {
        return true;
    }
    let m = lo + (hi - lo) / 2;
    assert(mid(lo as int, hi as int) == m);
    let c = v[m][ax];
    let ghost a = ax as int;
    let mut i: usize = lo;
    while i < m
        invariant
            lo <= i <= m < hi <= v.len(),
            mid(lo as int, hi as int) == m,
            a == ax,
            ax < K,
            c as int == coord(v@[m as int], a),
            forall|j: int| lo <= j < i ==> coord(#[trigger] v@[j], a) <= coord(v@[m as int], a),
        decreases m - i,
    {
        if v[i][ax] > c {
            assert(coord(v@[i as int], a) > coord(v@[m as int], a));
            return false;
        }
        i = i + 1;
    }
    let mut i: usize = m + 1;
    while i < hi
        invariant
            m < i <= hi <= v.len(),
            lo <= m,
            mid(lo as int, hi as int) == m,
            a == ax,
            ax < K,
            c as int == coord(v@[m as int], a),
            forall|j: int| m < j < i ==> coord(#[trigger] v@[j], a) >= coord(v@[m as int], a),
        decreases hi - i,
    {
        if v[i][ax] < c {
            assert(coord(v@[i as int], a) < coord(v@[m as int], a));
            return false;
        }
        i = i + 1;
    }
    let na: usize = if ax + 1 < K {
        ax + 1
    } else {
        0
    };
    if !is_kd_region(v, lo, m, na) {
        return false;
    }
    is_kd_region(v, m + 1, hi, na)
}

} // verus!
