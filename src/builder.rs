//! Construction of the tree layout, sequential or with the two halves of
//! large regions built concurrently.
use crate::layout::{
    kd_ok, lemma_kd_frame, lemma_kd_shift, mid, next_axis, select, select_result,
};
use crate::point::coord;
use vstd::multiset::group_multiset_properties;
use vstd::prelude::*;
use vstd::seq_lib::{group_to_multiset_ensures, lemma_multiset_commutative};

verus! {

/// A vector of points with `K` coordinates.
pub type Points<const K: usize> = Vec<[i32; K]>;

/// Regions of at most this many items are built on the calling thread.
pub const FAN_OUT: usize = 256;

/// Relies on rayon::join: runs both closures, possibly at the same time on
/// two threads, and returns both results once both have finished.
#[verifier::external_body]
fn join<A, B, RA, RB>(oper_a: A, oper_b: B) -> (r: (RA, RB)) where
    A: FnOnce() -> RA + Send,
    B: FnOnce() -> RB + Send,
    RA: Send,
    RB: Send,

    requires
        oper_a.requires(()),
        oper_b.requires(()),
    ensures
        oper_a.ensures((), r.0),
        oper_b.ensures((), r.1),
{
    rayon::join(oper_a, oper_b)
}

/// A bound on axis `a` that holds of every item of `s` holds of every item
/// of `t` when both hold the same items.
proof fn lemma_same_items_bound<const K: usize>(s: Seq<[i32; K]>, t: Seq<[i32; K]>, a: int, c: int, below: bool)
    requires
        t.to_multiset() == s.to_multiset(),
        below ==> forall|i: int| 0 <= i < s.len() ==> coord(#[trigger] s[i], a) <= c,
        !below ==> forall|i: int| 0 <= i < s.len() ==> coord(#[trigger] s[i], a) >= c,
    ensures
        below ==> forall|i: int| 0 <= i < t.len() ==> coord(#[trigger] t[i], a) <= c,
        !below ==> forall|i: int| 0 <= i < t.len() ==> coord(#[trigger] t[i], a) >= c,
{
    broadcast use group_to_multiset_ensures;

    assert forall|i: int| 0 <= i < t.len() implies (below ==> coord(#[trigger] t[i], a) <= c) && (
    !below ==> coord(t[i], a) >= c) by {
        assert(t.contains(t[i]));
        assert(s.to_multiset().count(t[i]) > 0);
        assert(s.contains(t[i]));
        let j = choose|j: int| 0 <= j < s.len() && s[j] == t[i];
        assert(coord(s[j], a) == coord(t[i], a));
    }
}

/// The tree layout that building `s` with root axis `a` gives: the median
/// is selected into the middle, then each side is laid out in turn with the
/// next axis.
pub open spec fn kd_layout<const K: usize>(s: Seq<[i32; K]>, a: int) -> Seq<[i32; K]>
    decreases s.len(),
{
    if s.len() == 0 {
        s
    } else {
        let n = s.len() as int;
        let m = n / 2;
        let s1 = select_result(s, 0, n, m, a);
        if s1.len() == n {
            kd_layout(s1.subrange(0, m), next_axis(a, K as int)) + seq![s1[m]] + kd_layout(
                s1.subrange(m + 1, n),
                next_axis(a, K as int),
            )
        } else {
            s
        }
    }
}

/// Arranges `v` into a balanced k-d tree whose root splits on axis `ax`:
/// the median on `ax` is selected into the middle, and the items on either
/// side are moved out and arranged the same way with the next axis.  With
/// `parallel`, the two sides of each region larger than `FAN_OUT` are built
/// as two independent units of work; the result is the same either way.
pub fn build_vec<const K: usize>(v: Vec<[i32; K]>, ax: usize, parallel: bool) -> (r: Vec<[i32; K]>)
    requires
        ax < K,
    ensures
        r@ == kd_layout(v@, ax as int),
        r@.len() == v@.len(),
        r@.to_multiset() == v@.to_multiset(),
        kd_ok(r@, 0, r@.len() as int, ax as int),
    decreases v@.len(),
{
    let mut v = v;
    let n = v.len();
    if n == 0 {
        return v;
    }
    let ghost s0 = v@;
    let m = n / 2;
    select(&mut v, 0, n, m, ax);
    let ghost s1 = v@;
    let right = v.split_off(m + 1);
    let pivot = v[m];
    let mut left = v;
    left.truncate(m);
    let ghost ls = left@;
    let ghost rs = right@;
    let na: usize = if ax + 1 < K {
        ax + 1
    } else {
        0
    };
    let (l, r) = if parallel && n > FAN_OUT {
        join(
            (move || -> (b: Points<K>)
                requires
                    na < K,
                    left@ == ls,
                ensures
                    b@ == kd_layout(ls, na as int),
                    b@.len() == ls.len(),
                    b@.to_multiset() == ls.to_multiset(),
                    kd_ok(b@, 0, b@.len() as int, na as int),
                { build_vec(left, na, true) }),
            (move || -> (b: Points<K>)
                requires
                    na < K,
                    right@ == rs,
                ensures
                    b@ == kd_layout(rs, na as int),
                    b@.len() == rs.len(),
                    b@.to_multiset() == rs.to_multiset(),
                    kd_ok(b@, 0, b@.len() as int, na as int),
                { build_vec(right, na, true) }),
        )
    } else {
        (build_vec(left, na, parallel), build_vec(right, na, parallel))
    };
    let ghost lb = l@;
    let ghost rb = r@;
    let mut out = l;
    out.push(pivot);
    let mut r = r;
    out.append(&mut r);
    proof {
        broadcast use group_multiset_properties;

        let o = out@;
        let a = ax as int;
        let c = coord(pivot, a);
        assert(o =~= lb + seq![pivot] + rb);
        assert(s1 =~= ls + seq![pivot] + rs);
        assert(ls =~= s1.subrange(0, m as int));
        assert(rs =~= s1.subrange(m + 1, n as int));
        assert(s1.subrange(0, n as int) =~= s1);
        assert(s0.subrange(0, n as int) =~= s0);
        assert(mid(0, n as int) == m);
        assert(pivot == s1[m as int]);
        assert(o == kd_layout(s0, a));
        assert forall|i: int| 0 <= i < ls.len() implies coord(#[trigger] ls[i], a) <= c by {
            assert(ls[i] == s1[i]);
        }
        assert forall|i: int| 0 <= i < rs.len() implies coord(#[trigger] rs[i], a) >= c by {
            assert(rs[i] == s1[i + m + 1]);
        }
        lemma_same_items_bound(ls, lb, a, c, true);
        lemma_same_items_bound(rs, rb, a, c, false);
        assert forall|i: int| 0 <= i < m implies coord(#[trigger] o[i], a) <= c by {
            assert(o[i] == lb[i]);
        }
        assert forall|i: int| m < i < n implies coord(#[trigger] o[i], a) >= c by {
            assert(o[i] == rb[i - m - 1]);
        }
        lemma_kd_frame(lb, o, 0, m as int, na as int);
        lemma_kd_shift(rb, o, 0, rb.len() as int, m + 1, na as int);
        assert(o[m as int] == pivot);
        lemma_multiset_commutative(lb, seq![pivot]);
        lemma_multiset_commutative(lb + seq![pivot], rb);
        lemma_multiset_commutative(ls, seq![pivot]);
        lemma_multiset_commutative(ls + seq![pivot], rs);
    }
    out
}

} // verus!
