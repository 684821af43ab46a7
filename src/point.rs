//! Points with `K` integer coordinates and their squared distances.
use vstd::prelude::*;

verus! {

/// The largest value one squared coordinate difference can take.
pub const MAX_AXIS_SQ: u128 = 18446744065119617025;

/// The coordinate of `p` on axis `a`, as a mathematical integer.
pub open spec fn coord<const K: usize>(p: [i32; K], a: int) -> int {
    p@[a] as int
}

/// Sum of the squared coordinate differences over the first `n` axes.
pub open spec fn dist_upto<const K: usize>(p: [i32; K], q: [i32; K], n: int) -> int
    decreases n,
{
    if n <= 0 {
        0
    } else {
        dist_upto(p, q, n - 1) + (coord(p, n - 1) - coord(q, n - 1)) * (coord(p, n - 1) - coord(
            q,
            n - 1,
        ))
    }
}

/// The squared Euclidean distance between two points.
pub open spec fn sq_dist<const K: usize>(p: [i32; K], q: [i32; K]) -> int {
    dist_upto(p, q, K as int)
}

proof fn lemma_square_monotone(x: int, y: int)
    requires
        0 <= x <= y,
    ensures
        x * x <= y * y,
{
    assert(x * x <= y * y) by (nonlinear_arith)
        requires
            0 <= x <= y,
    ;
}

/// A partial sum is never negative and grows with the number of axes.
pub proof fn lemma_dist_upto_monotone<const K: usize>(p: [i32; K], q: [i32; K], m: int, n: int)
    requires
        0 <= m <= n,
    ensures
        0 <= dist_upto(p, q, m) <= dist_upto(p, q, n),
    decreases n,
{
    if n > m {
        let d = coord(p, n - 1) - coord(q, n - 1);
        assert(d * d >= 0) by (nonlinear_arith);
        lemma_dist_upto_monotone(p, q, m, n - 1);
    } else if n > 0 {
        lemma_dist_upto_monotone(p, q, 0, n - 1);
        let d = coord(p, n - 1) - coord(q, n - 1);
        assert(d * d >= 0) by (nonlinear_arith);
    }
}

/// The squared distance is at least the squared difference on any one axis.
pub proof fn lemma_dist_ge_axis<const K: usize>(p: [i32; K], q: [i32; K], a: int)
    requires
        0 <= a < K,
    ensures
        (coord(p, a) - coord(q, a)) * (coord(p, a) - coord(q, a)) <= sq_dist(p, q),
{
    lemma_dist_upto_monotone(p, q, 0, a);
    lemma_dist_upto_monotone(p, q, a + 1, K as int);
}

/// A point whose coordinate on axis `a` lies beyond `c` as seen from `q`
/// is at least as far from `q` as the plane through `c` across that axis.
pub proof fn lemma_plane_bound<const K: usize>(p: [i32; K], q: [i32; K], a: int, c: int)
    requires
        0 <= a < K,
        (coord(q, a) <= c <= coord(p, a)) || (coord(p, a) <= c <= coord(q, a)),
    ensures
        (c - coord(q, a)) * (c - coord(q, a)) <= sq_dist(p, q),
{
    lemma_dist_ge_axis(p, q, a);
    let e = coord(p, a) - coord(q, a);
    assert(e * e >= 0) by (nonlinear_arith);
    let f = c - coord(q, a);
    if f == 0 {
        assert(f * f == 0) by (nonlinear_arith)
            requires
                f == 0,
        ;
    } else if coord(q, a) < c {
        lemma_square_monotone(c - coord(q, a), coord(p, a) - coord(q, a));
    } else {
        lemma_square_monotone(coord(q, a) - c, coord(q, a) - coord(p, a));
        assert((c - coord(q, a)) * (c - coord(q, a)) == (coord(q, a) - c) * (coord(q, a) - c))
            by (nonlinear_arith);
        assert((coord(p, a) - coord(q, a)) * (coord(p, a) - coord(q, a)) == (coord(q, a) - coord(
            p,
            a,
        )) * (coord(q, a) - coord(p, a))) by (nonlinear_arith);
    }
}

/// The squared difference of two `i32` values.
pub fn axis_sq_diff(x: i32, y: i32) -> (r: u128)
    ensures
        r as int == (x as int - y as int) * (x as int - y as int),
        r <= MAX_AXIS_SQ,
{
    let d: i64 = x as i64 - y as i64;
    let m: u64 = if d < 0 {
        (-d) as u64
    } else {
        d as u64
    };
    assert(m <= 4294967295u64);
    assert((m as int) * (m as int) <= MAX_AXIS_SQ as int) by (nonlinear_arith)
        requires
            m <= 4294967295u64,
    ;
    let r: u128 = (m as u128) * (m as u128);
    assert(r as int == (x as int - y as int) * (x as int - y as int)) by (nonlinear_arith)
        requires
            m as int == d || m as int == -d,
            d == x as int - y as int,
            r == m as int * m as int,
    ;
    assert(r <= MAX_AXIS_SQ) by (nonlinear_arith)
        requires
            m <= 4294967295u64,
            r == m as int * m as int,
    ;
    r
}

/// The squared Euclidean distance between two points.
pub fn squared_distance<const K: usize>(p: &[i32; K], q: &[i32; K]) -> (r: u128)
    ensures
        r as int == sq_dist(*p, *q),
{
    let mut acc: u128 = 0;
    let mut i: usize = 0;
    while i < K
        invariant
            i <= K,
            acc as int == dist_upto(*p, *q, i as int),
            acc as int <= i as int * MAX_AXIS_SQ as int,
        decreases K - i,
    {
        let t = axis_sq_diff(p[i], q[i]);
        assert(acc as int + t as int <= (i as int + 1) * MAX_AXIS_SQ as int) by (nonlinear_arith)
            requires
                acc as int <= i as int * MAX_AXIS_SQ as int,
                t <= MAX_AXIS_SQ,
        ;
        assert((i as int + 1) * (MAX_AXIS_SQ as int) <= 18446744073709551616 * (
        MAX_AXIS_SQ as int)) by (nonlinear_arith)
            requires
                i < K,
                K <= usize::MAX,
        ;
        acc = acc + t;
        i = i + 1;
    }
    acc
}

} // verus!
