//! Bookkeeping of the k nearest items found so far.
use crate::point::sq_dist;
use crate::tree::{entry_ok, Neighbor};
use vstd::prelude::*;

verus! {

/// Entries in non-decreasing order of squared distance.
pub open spec fn sorted_by_dist<const K: usize>(r: Seq<Neighbor<K>>) -> bool {
    forall|i: int, j: int|
        0 <= i < j < r.len() ==> #[trigger] r[i].squared_distance <= #[trigger] r[j].squared_distance
}

/// No two entries name the same position.
pub open spec fn distinct_indices<const K: usize>(r: Seq<Neighbor<K>>) -> bool {
    forall|i: int, j: int| 0 <= i < j < r.len() ==> #[trigger] r[i].index != #[trigger] r[j].index
}

/// Some entry names position `j`.
pub open spec fn has_index<const K: usize>(r: Seq<Neighbor<K>>, j: int) -> bool {
    exists|t: int| 0 <= t < r.len() && #[trigger] r[t].index == j
}

/// Every entry is a stored item with its true squared distance to `q`.
pub open spec fn all_ok<const K: usize>(s: Seq<[i32; K]>, q: [i32; K], r: Seq<Neighbor<K>>) -> bool {
    forall|t: int| 0 <= t < r.len() ==> entry_ok(s, q, #[trigger] r[t])
}

/// The smaller of two integers.
pub open spec fn min_int(a: int, b: int) -> int {
    if a <= b {
        a
    } else {
        b
    }
}

/// `old` is a valid list of at most `k` best entries, none of which lies
/// in `lo..hi`.
pub open spec fn kpre<const K: usize>(
    s: Seq<[i32; K]>,
    q: [i32; K],
    k: int,
    old: Seq<Neighbor<K>>,
    lo: int,
    hi: int,
) -> bool {
    &&& 0 < k
    &&& old.len() <= k
    &&& sorted_by_dist(old)
    &&& distinct_indices(old)
    &&& all_ok(s, q, old)
    &&& forall|t: int| 0 <= t < old.len() ==> !(lo <= #[trigger] old[t].index < hi)
}

/// `new` is what keeping the `k` best of `old` and of the items at
/// positions `lo..hi` gives: sorted, without repeats, as long as `k`
/// allows, and every item left out (an entry of `old`, or one of the
/// region) is no closer than the last entry kept.
pub open spec fn kstep<const K: usize>(
    s: Seq<[i32; K]>,
    q: [i32; K],
    k: int,
    old: Seq<Neighbor<K>>,
    new: Seq<Neighbor<K>>,
    lo: int,
    hi: int,
) -> bool {
    &&& sorted_by_dist(new)
    &&& distinct_indices(new)
    &&& all_ok(s, q, new)
    &&& new.len() == min_int(k, old.len() + hi - lo)
    &&& forall|t: int|
        0 <= t < new.len() ==> old.contains(#[trigger] new[t]) || lo <= new[t].index < hi
    &&& forall|u: int|
        0 <= u < old.len() ==> new.contains(#[trigger] old[u]) || (new.len() == k
            && old[u].squared_distance >= new.last().squared_distance)
    &&& forall|j: int|
        lo <= j < hi ==> #[trigger] has_index(new, j) || (new.len() == k && sq_dist(s[j], q)
            >= new.last().squared_distance)
    &&& old.len() == k ==> new.len() == k && new.last().squared_distance
        <= old.last().squared_distance
}

/// A region with nothing in it leaves the list as it is.
pub proof fn lemma_kstep_skip<const K: usize>(
    s: Seq<[i32; K]>,
    q: [i32; K],
    k: int,
    old: Seq<Neighbor<K>>,
    lo: int,
    hi: int,
)
    requires
        kpre(s, q, k, old, lo, hi),
        lo <= hi,
        lo == hi || (old.len() == k && forall|j: int|
            lo <= j < hi ==> sq_dist(#[trigger] s[j], q) >= old.last().squared_distance),
    ensures
        kstep(s, q, k, old, old, lo, hi),
{
    assert forall|u: int| 0 <= u < old.len() implies old.contains(#[trigger] old[u]) by {}
    assert forall|j: int| lo <= j < hi implies #[trigger] has_index(old, j) || (old.len() == k
        && sq_dist(s[j], q) >= old.last().squared_distance) by {
        assert(sq_dist(s[j], q) >= old.last().squared_distance);
    }
}

/// A list ready for a region is ready for any part of it.
pub proof fn lemma_kpre_sub<const K: usize>(
    s: Seq<[i32; K]>,
    q: [i32; K],
    k: int,
    old: Seq<Neighbor<K>>,
    lo: int,
    hi: int,
    lo2: int,
    hi2: int,
)
    requires
        kpre(s, q, k, old, lo, hi),
        lo <= lo2,
        hi2 <= hi,
    ensures
        kpre(s, q, k, old, lo2, hi2),
{
}

/// After one region, the list is ready for a region that does not meet it.
pub proof fn lemma_kpre_next<const K: usize>(
    s: Seq<[i32; K]>,
    q: [i32; K],
    k: int,
    old: Seq<Neighbor<K>>,
    r1: Seq<Neighbor<K>>,
    lo: int,
    hi: int,
    a1: int,
    a2: int,
    b1: int,
    b2: int,
)
    requires
        kpre(s, q, k, old, lo, hi),
        kstep(s, q, k, old, r1, a1, a2),
        lo <= a1 <= a2 <= hi,
        lo <= b1 <= b2 <= hi,
        a2 <= b1 || b2 <= a1,
    ensures
        kpre(s, q, k, r1, b1, b2),
{
    assert forall|t: int| 0 <= t < r1.len() implies !(b1 <= #[trigger] r1[t].index < b2) by {
        if old.contains(r1[t]) {
            let u = choose|u: int| 0 <= u < old.len() && old[u] == r1[t];
            assert(!(lo <= old[u].index < hi));
        }
    }
}

/// Two steps over adjacent regions are one step over their union.
pub proof fn lemma_kstep_compose<const K: usize>(
    s: Seq<[i32; K]>,
    q: [i32; K],
    k: int,
    old: Seq<Neighbor<K>>,
    r1: Seq<Neighbor<K>>,
    r2: Seq<Neighbor<K>>,
    a1: int,
    a2: int,
    b1: int,
    b2: int,
    lo: int,
    hi: int,
)
    requires
        kpre(s, q, k, old, lo, hi),
        kstep(s, q, k, old, r1, a1, a2),
        kstep(s, q, k, r1, r2, b1, b2),
        a1 <= a2,
        b1 <= b2,
        (b1 == a2 && lo == a1 && hi == b2) || (b2 == a1 && lo == b1 && hi == a2),
    ensures
        kstep(s, q, k, old, r2, lo, hi),
{
    assert forall|t: int| 0 <= t < r2.len() implies old.contains(#[trigger] r2[t]) || lo
        <= r2[t].index < hi by {
        if r1.contains(r2[t]) {
            let t1 = choose|t1: int| 0 <= t1 < r1.len() && r1[t1] == r2[t];
            assert(old.contains(r1[t1]) || a1 <= r1[t1].index < a2);
        }
    }
    assert forall|u: int| 0 <= u < old.len() implies r2.contains(#[trigger] old[u]) || (r2.len()
        == k && old[u].squared_distance >= r2.last().squared_distance) by {
        if r1.contains(old[u]) {
            let t1 = choose|t1: int| 0 <= t1 < r1.len() && r1[t1] == old[u];
            assert(r2.contains(r1[t1]) || (r2.len() == k && r1[t1].squared_distance
                >= r2.last().squared_distance));
        }
    }
    assert forall|j: int| lo <= j < hi implies #[trigger] has_index(r2, j) || (r2.len() == k
        && sq_dist(s[j], q) >= r2.last().squared_distance) by {
        if a1 <= j < a2 {
            if has_index(r1, j) {
                let t1 = choose|t1: int| 0 <= t1 < r1.len() && #[trigger] r1[t1].index == j;
                assert(entry_ok(s, q, r1[t1]));
                if r2.contains(r1[t1]) {
                    let t2 = choose|t2: int| 0 <= t2 < r2.len() && r2[t2] == r1[t1];
                    assert(r2[t2].index == j);
                } else {
                    assert(r2.len() == k && r1[t1].squared_distance
                        >= r2.last().squared_distance);
                }
            }
        }
    }
}

/// Inserting at a position where the order holds keeps a list sorted.
proof fn lemma_insert_sorted<const K: usize>(o: Seq<Neighbor<K>>, e: Neighbor<K>, p: int)
    requires
        sorted_by_dist(o),
        0 <= p <= o.len(),
        forall|t: int| 0 <= t < p ==> #[trigger] o[t].squared_distance <= e.squared_distance,
        p < o.len() ==> e.squared_distance < o[p].squared_distance,
    ensures
        sorted_by_dist(o.insert(p, e)),
{
    let r1 = o.insert(p, e);
    assert forall|i: int, j: int| 0 <= i < j < r1.len() implies #[trigger] r1[i].squared_distance
        <= #[trigger] r1[j].squared_distance by {
        if i < p && j > p {
            assert(o[i].squared_distance <= e.squared_distance);
            assert(r1[j] == o[j - 1]);
        } else if j > p && i > p {
            assert(r1[j] == o[j - 1]);
            assert(r1[i] == o[i - 1]);
        } else if i == p && j > p {
            assert(r1[j] == o[j - 1]);
            assert(o[p].squared_distance <= o[j - 1].squared_distance);
        }
    }
}

/// Where each entry of the list after an insertion came from.
proof fn lemma_insert_shape<const K: usize>(o: Seq<Neighbor<K>>, e: Neighbor<K>, p: int, r2: Seq<Neighbor<K>>)
    requires
        0 <= p <= o.len(),
        r2.len() <= o.len() + 1,
        p < r2.len(),
        forall|t: int| 0 <= t < r2.len() ==> r2[t] == o.insert(p, e)[t],
    ensures
        r2[p] == e,
        forall|t: int| 0 <= t < p ==> #[trigger] r2[t] == o[t],
        forall|t: int| p < t < r2.len() ==> #[trigger] r2[t] == o[t - 1],
{
}

/// The shape of the list after an offer that inserted `e` at `p`.
pub open spec fn offered<const K: usize>(o: Seq<Neighbor<K>>, e: Neighbor<K>, p: int, k: int) -> Seq<Neighbor<K>> {
    if o.len() + 1 > k {
        o.insert(p, e).drop_last()
    } else {
        o.insert(p, e)
    }
}

/// Which entries an insertion kept and which it dropped.
#[verifier::rlimit(40)]
proof fn lemma_offer_members<const K: usize>(
    s: Seq<[i32; K]>,
    q: [i32; K],
    k: int,
    o: Seq<Neighbor<K>>,
    e: Neighbor<K>,
    p: int,
)
    requires
        kpre(s, q, k, o, e.index as int, e.index + 1),
        entry_ok(s, q, e),
        0 <= p <= o.len(),
        sorted_by_dist(o.insert(p, e)),
        o.len() == k ==> p < o.len(),
    ensures
        ({
            let r2 = offered(o, e, p, k);
            &&& r2.len() == min_int(k, o.len() + 1int)
            &&& forall|t: int|
                0 <= t < r2.len() ==> o.contains(#[trigger] r2[t]) || e.index <= r2[t].index < e.index + 1
            &&& forall|u: int|
                0 <= u < o.len() ==> r2.contains(#[trigger] o[u]) || (r2.len() == k
                    && o[u].squared_distance >= r2.last().squared_distance)
            &&& has_index(r2, e.index as int)
        }),
{
    let r1 = o.insert(p, e);
    let r2 = offered(o, e, p, k);
    let n = o.len() as int;
    lemma_insert_shape(o, e, p, r2);
    assert forall|t: int| 0 <= t < r2.len() implies o.contains(#[trigger] r2[t]) || e.index
        <= r2[t].index < e.index + 1 by {
        if t < p {
            assert(r2[t] == o[t]);
        } else if t > p {
            assert(r2[t] == o[t - 1]);
        }
    }
    assert forall|u: int| 0 <= u < o.len() implies r2.contains(#[trigger] o[u]) || (r2.len()
        == k && o[u].squared_distance >= r2.last().squared_distance) by {
        if u < p {
            assert(r2[u] == o[u]);
        } else if u + 1 < r2.len() {
            assert(r2[u + 1] == o[u]);
        } else {
            assert(u == n - 1);
            assert(r1[n] == o[u]);
            assert(r2.last() == r1[r2.len() - 1]);
        }
    }
    assert(has_index(r2, e.index as int)) by {
        assert(r2[p].index == e.index);
    }
}

/// An insertion keeps the list sorted, free of repeats and true.
#[verifier::rlimit(40)]
proof fn lemma_offer_valid<const K: usize>(
    s: Seq<[i32; K]>,
    q: [i32; K],
    k: int,
    o: Seq<Neighbor<K>>,
    e: Neighbor<K>,
    p: int,
)
    requires
        kpre(s, q, k, o, e.index as int, e.index + 1),
        entry_ok(s, q, e),
        0 <= p <= o.len(),
        sorted_by_dist(o.insert(p, e)),
        o.len() == k ==> p < o.len(),
    ensures
        sorted_by_dist(offered(o, e, p, k)),
        distinct_indices(offered(o, e, p, k)),
        all_ok(s, q, offered(o, e, p, k)),
        o.len() == k ==> offered(o, e, p, k).last().squared_distance <= o.last().squared_distance,
{
    let r1 = o.insert(p, e);
    let r2 = offered(o, e, p, k);
    lemma_insert_shape(o, e, p, r2);
    assert forall|i: int, j: int| 0 <= i < j < r2.len() implies #[trigger] r2[i].index
        != #[trigger] r2[j].index by {
        if i < p && j > p {
            assert(r2[j] == o[j - 1]);
            assert(r2[i] == o[i]);
        } else if j > p && i > p {
            assert(r2[j] == o[j - 1]);
            assert(r2[i] == o[i - 1]);
        } else if i == p {
            assert(r2[j] == o[j - 1]);
        } else if j == p {
            assert(r2[i] == o[i]);
        } else {
            assert(r2[i] == o[i]);
            assert(r2[j] == o[j]);
        }
    }
    assert forall|t: int| 0 <= t < r2.len() implies entry_ok(s, q, #[trigger] r2[t]) by {
        if t < p {
            assert(r2[t] == o[t]);
        } else if t > p {
            assert(r2[t] == o[t - 1]);
        }
    }
    assert forall|i: int, j: int| 0 <= i < j < r2.len() implies #[trigger] r2[i].squared_distance
        <= #[trigger] r2[j].squared_distance by {
        assert(r2[i] == r1[i]);
        assert(r2[j] == r1[j]);
    }
    if o.len() == k {
        assert(r2.last() == r1[k - 1]);
        if p < k - 1 {
            assert(r1[k - 1] == o[k - 2]);
            assert(o[k - 2].squared_distance <= o[k - 1].squared_distance);
        } else {
            assert(r1[k - 1] == e);
            assert(r1[k] == o[k - 1]);
            assert(r1[k - 1].squared_distance <= r1[k].squared_distance);
        }
    }
}

/// Offers one more entry to a sorted list of at most `k` best entries.
pub(crate) fn offer<const K: usize>(
    res: &mut Vec<Neighbor<K>>,
    k: usize,
    e: Neighbor<K>,
    Ghost(s): Ghost<Seq<[i32; K]>>,
    Ghost(q): Ghost<[i32; K]>,
)
    requires
        kpre(s, q, k as int, old(res)@, e.index as int, e.index + 1),
        entry_ok(s, q, e),
    ensures
        kstep(s, q, k as int, old(res)@, final(res)@, e.index as int, e.index + 1),
{
    let ghost o = res@;
    let n = res.len();
    if n == k && e.squared_distance >= res[n - 1].squared_distance {
        proof {
            assert forall|u: int| 0 <= u < o.len() implies o.contains(#[trigger] o[u]) by {}
            assert(!has_index(o, e.index as int) ==> (o.len() == k && sq_dist(
                s[e.index as int],
                q,
            ) >= o.last().squared_distance));
        }
        return;
    }
    let mut p: usize = 0;
    while p < n && res[p].squared_distance <= e.squared_distance
        invariant
            p <= n,
            n == res@.len(),
            res@ == o,
            forall|t: int| 0 <= t < p ==> #[trigger] o[t].squared_distance <= e.squared_distance,
        decreases n - p,
    {
        p = p + 1;
    }
    proof {
        lemma_insert_sorted(o, e, p as int);
        if n == k {
            assert(o[n - 1].squared_distance > e.squared_distance);
            assert(p < n);
        }
    }
    res.insert(p, e);
    if res.len() > k {
        res.pop();
    }
    proof {
        assert(res@ == offered(o, e, p as int, k as int));
        lemma_offer_members(s, q, k as int, o, e, p as int);
        lemma_offer_valid(s, q, k as int, o, e, p as int);
    }
}

} // verus!
