//! The k-d tree and its queries.
use crate::builder::{build_vec, kd_layout};
use crate::codec::{json_of_rows, rows_from_json, rows_of_json, rows_to_json};
use crate::knn::{
    all_ok, distinct_indices, has_index, kpre, kstep, lemma_kpre_next, lemma_kpre_sub,
    lemma_kstep_compose, lemma_kstep_skip, min_int, offer, sorted_by_dist,
};
use crate::layout::{is_kd_region, kd_ok, lemma_kd_frame, mid};
use crate::point::{axis_sq_diff, coord, lemma_plane_bound, sq_dist, squared_distance};
use crate::report::{lemma_reports_empty, lemma_reports_join, lemma_reports_node, reports};
use vstd::prelude::*;

verus! {

/// A stored item found by a neighbour query, with its position in the
/// tree's storage and its squared distance to the query point.
#[derive(Clone, Copy, Debug)]
pub struct Neighbor<const K: usize> {
    pub index: usize,
    pub item: [i32; K],
    pub squared_distance: u128,
}

/// `e` names the item of `s` at `e.index` and its squared distance to `q`.
pub open spec fn entry_ok<const K: usize>(s: Seq<[i32; K]>, q: [i32; K], e: Neighbor<K>) -> bool {
    &&& e.index < s.len()
    &&& e.item == s[e.index as int]
    &&& e.squared_distance == sq_dist(e.item, q)
}

/// Whether `p` lies in the box with corners `bx[0]` and `bx[1]`, bounds
/// included.
pub open spec fn in_box<const K: usize>(p: [i32; K], bx: [[i32; K]; 2]) -> bool {
    forall|a: int|
        0 <= a < K ==> coord(bx@[0], a) <= #[trigger] coord(p, a) && coord(p, a) <= coord(
            bx@[1],
            a,
        )
}

/// Selects the positions of `s` whose item lies in the box.
pub open spec fn box_sel<const K: usize>(s: Seq<[i32; K]>, bx: [[i32; K]; 2]) -> spec_fn(
    int,
) -> bool {
    |i: int| in_box(s[i], bx)
}

/// Selects the positions of `s` whose item is closer to `q` than `radius`.
pub open spec fn ball_sel<const K: usize>(s: Seq<[i32; K]>, q: [i32; K], radius: int) -> spec_fn(
    int,
) -> bool {
    |i: int| sq_dist(s[i], q) < radius * radius
}

/// The coordinate lists of a sequence of points.
pub open spec fn rows_of<const K: usize>(s: Seq<[i32; K]>) -> Seq<Seq<i32>> {
    Seq::new(s.len(), |i: int| s[i]@)
}

/// Every list has `K` entries.
pub open spec fn rows_fit<const K: usize>(rows: Seq<Seq<i32>>) -> bool {
    forall|i: int| 0 <= i < rows.len() ==> (#[trigger] rows[i]).len() == K
}

/// A static k-d tree over points with `K` integer coordinates, stored as
/// one flat sequence in implicit-tree order.
#[derive(Debug)]
pub struct KdTree<const K: usize> {
    items: Vec<[i32; K]>,
}

impl<const K: usize> View for KdTree<K> {
    type V = Seq<[i32; K]>;

    closed spec fn view(&self) -> Seq<[i32; K]> {
        self.items@
    }
}

impl<const K: usize> KdTree<K> {
    /// The stored sequence is a balanced k-d tree whose root splits on the
    /// first axis.
    pub open spec fn wf(&self) -> bool {
        K > 0 && kd_ok(self@, 0, self@.len() as int, 0)
    }

    /// Builds a tree from `items`, rearranging them into tree order.
    pub fn build(items: Vec<[i32; K]>) -> (r: Self)
        requires
            K > 0,
        ensures
            r.wf(),
            r@ == kd_layout(items@, 0),
            r@.len() == items@.len(),
            r@.to_multiset() == items@.to_multiset(),
    {
        KdTree { items: build_vec(items, 0, false) }
    }

    /// Builds a tree from `items` as `build` does, building the two halves
    /// of each large region concurrently.
    pub fn par_build(items: Vec<[i32; K]>) -> (r: Self)
        requires
            K > 0,
        ensures
            r.wf(),
            r@ == kd_layout(items@, 0),
            r@.len() == items@.len(),
            r@.to_multiset() == items@.to_multiset(),
    {
        KdTree { items: build_vec(items, 0, true) }
    }

    /// Takes `items` as a tree already built, without rearranging them;
    /// `None` where they are not in tree order.
    pub fn from_layout(items: Vec<[i32; K]>) -> (r: Option<Self>)
        requires
            K > 0,
        ensures
            r is Some <==> kd_ok(items@, 0, items@.len() as int, 0),
            r is Some ==> r.unwrap()@ == items@ && r.unwrap().wf(),
    {
        let n = items.len();
        if is_kd_region(&items, 0, n, 0) {
            Some(KdTree { items })
        } else {
            None
        }
    }

    /// The JSON text of the stored items as a list of coordinate lists, in
    /// tree order.
    pub fn to_json(&self) -> (r: String)
        ensures
            r@ == json_of_rows(rows_of(self@)),
    {
        let mut rows: Vec<Vec<i32>> = Vec::new();
        let n = self.items.len();
        let mut i: usize = 0;
        while i < n
            invariant
                i <= n,
                n == self@.len(),
                rows@.len() == i,
                forall|j: int| 0 <= j < i ==> (#[trigger] rows@[j])@ == self@[j]@,
            decreases n - i,
        {
            let p = self.items[i];
            let mut row: Vec<i32> = Vec::new();
            let mut a: usize = 0;
            while a < K
                invariant
                    a <= K,
                    row@ == p@.subrange(0, a as int),
                decreases K - a,
            {
                row.push(p[a]);
                a = a + 1;
                assert(row@ =~= p@.subrange(0, a as int));
            }
            assert(row@ =~= p@);
            rows.push(row);
            i = i + 1;
        }
        proof {
            assert forall|j: int| 0 <= j < n implies (#[trigger] rows@[j]).deep_view() == rows@[j]@ by {
                assert(rows@[j].deep_view() =~= rows@[j]@);
            }
            assert(rows.deep_view() =~= rows_of(self@));
        }
        match rows_to_json(&rows) {
            Some(text) => text,
            None => {
                assert(false);
                String::new()
            },
        }
    }

    /// Reads a tree from the JSON text of its items, taken as already in
    /// tree order.  `None` where the text is not a list of lists of `K`
    /// numbers, or where those points are not in tree order.
    pub fn from_json(text: &str) -> (r: Option<Self>)
        requires
            K > 0,
        ensures
            r is Some ==> rows_of_json(text@) is Some && r.unwrap().wf() && rows_of(r.unwrap()@)
                == rows_of_json(text@).unwrap(),
            r is None ==> rows_of_json(text@) is None || !rows_fit::<K>(rows_of_json(text@).unwrap())
                || forall|s: Seq<[i32; K]>|
                rows_of(s) == rows_of_json(text@).unwrap() ==> !#[trigger] kd_ok(s, 0, s.len() as int, 0),
    {
        let rows = match rows_from_json(text) {
            Some(rows) => rows,
            None => {
                return None;
            },
        };
        let ghost dv = rows.deep_view();
        let n = rows.len();
        let mut items: Vec<[i32; K]> = Vec::new();
        let mut i: usize = 0;
        while i < n
            invariant
                i <= n,
                n == rows@.len(),
                dv == rows.deep_view(),
                rows_of_json(text@) == Some(dv),
                items@.len() == i,
                forall|j: int| 0 <= j < i ==> (#[trigger] items@[j])@ == dv[j],
                forall|j: int| 0 <= j < i ==> (#[trigger] dv[j]).len() == K,
            decreases n - i,
        {
            let row = &rows[i];
            assert(dv[i as int] == row.deep_view());
            assert(row.deep_view() =~= row@);
            if row.len() != K {
                assert(!rows_fit::<K>(dv));
                return None;
            }
            let mut p: [i32; K] = [0i32; K];
            let mut a: usize = 0;
            while a < K
                invariant
                    a <= K,
                    row@.len() == K,
                    forall|b: int| 0 <= b < a ==> p@[b] == row@[b],
                decreases K - a,
            {
                p[a] = row[a];
                a = a + 1;
            }
            assert(p@ =~= row@);
            items.push(p);
            i = i + 1;
        }
        proof {
            assert(rows_of(items@) =~= dv);
            assert forall|s: Seq<[i32; K]>| rows_of(s) == dv implies !#[trigger] kd_ok(s, 0, s.len() as int, 0) || kd_ok(items@, 0, n as int, 0) by {
                if kd_ok(s, 0, s.len() as int, 0) {
                    assert forall|j: int| 0 <= j < n implies s[j]@ == items@[j]@ by {
                        assert(rows_of(s)[j] == s[j]@);
                        assert(rows_of(items@)[j] == items@[j]@);
                    }
                    lemma_kd_frame(s, items@, 0, n as int, 0);
                }
            }
        }
        Self::from_layout(items)
    }

    /// The stored items, in tree order.
    pub fn items(&self) -> (r: &Vec<[i32; K]>)
        ensures
            r@ == self@,
    {
        &self.items
    }

    /// The number of stored items.
    pub fn len(&self) -> (r: usize)
        ensures
            r == self@.len(),
    {
        self.items.len()
    }

    /// Whether the tree holds no item.
    pub fn is_empty(&self) -> (r: bool)
        ensures
            r == (self@.len() == 0),
    {
        self.items.len() == 0
    }

    fn nearest_in(&self, q: &[i32; K], lo: usize, hi: usize, ax: usize, best: Option<Neighbor<K>>) -> (r: Option<Neighbor<K>>)
        requires
            kd_ok(self@, lo as int, hi as int, ax as int),
            lo <= hi <= self@.len(),
            ax < K,
            best is Some ==> entry_ok(self@, *q, best.unwrap()),
        ensures
            r is None <==> (best is None && lo == hi),
            r is Some ==> entry_ok(self@, *q, r.unwrap()),
            r is Some ==> forall|j: int|
                lo <= j < hi ==> r.unwrap().squared_distance <= sq_dist(#[trigger] self@[j], *q),
            r is Some && best is Some ==> r.unwrap().squared_distance <= best.unwrap().squared_distance,
        decreases hi - lo,
    {
        if lo == hi {
            return best;
        }
        let m = lo + (hi - lo) / 2;
        assert(mid(lo as int, hi as int) == m);
        let p = self.items[m];
        let d = squared_distance(&p, q);
        let better = match best {
            Some(b) => d < b.squared_distance,
            None => true,
        };
        let cur = if better {
            Some(Neighbor { index: m, item: p, squared_distance: d })
        } else {
            best
        };
        let na: usize = if ax + 1 < K {
            ax + 1
        } else {
            0
        };
        let left_first = q[ax] < p[ax];
        let (near_lo, near_hi, far_lo, far_hi) = if left_first {
            (lo, m, m + 1, hi)
        } else {
            (m + 1, hi, lo, m)
        };
        let cur = self.nearest_in(q, near_lo, near_hi, na, cur);
        let bound = match cur {
            Some(b) => b.squared_distance,
            None => 0,
        };
        let perp = axis_sq_diff(p[ax], q[ax]);
        if perp < bound {
            self.nearest_in(q, far_lo, far_hi, na, cur)
        } else {
            proof {
                let a = ax as int;
                let c = coord(p, a);
                assert forall|j: int| far_lo <= j < far_hi implies bound <= sq_dist(
                    #[trigger] self@[j],
                    *q,
                ) by {
                    lemma_plane_bound(self@[j], *q, a, c);
                }
            }
            cur
        }
    }

    /// The stored item nearest to `q`; `None` exactly when the tree is
    /// empty.  Among items at the same distance any one may be returned.
    pub fn nearest(&self, q: &[i32; K]) -> (r: Option<Neighbor<K>>)
        requires
            self.wf(),
        ensures
            r is None <==> self@.len() == 0,
            r is Some ==> entry_ok(self@, *q, r.unwrap()),
            r is Some ==> forall|j: int|
                0 <= j < self@.len() ==> r.unwrap().squared_distance <= sq_dist(
                    #[trigger] self@[j],
                    *q,
                ),
    {
        self.nearest_in(q, 0, self.items.len(), 0, None)
    }

    fn nearests_in(&self, q: &[i32; K], k: usize, lo: usize, hi: usize, ax: usize, res: &mut Vec<Neighbor<K>>)
        requires
            kd_ok(self@, lo as int, hi as int, ax as int),
            lo <= hi <= self@.len(),
            ax < K,
            kpre(self@, *q, k as int, old(res)@, lo as int, hi as int),
        ensures
            kstep(self@, *q, k as int, old(res)@, final(res)@, lo as int, hi as int),
        decreases hi - lo,
    {
        let ghost s = self@;
        let ghost o = res@;
        if lo == hi {
            proof {
                lemma_kstep_skip(s, *q, k as int, o, lo as int, hi as int);
            }
            return;
        }
        let m = lo + (hi - lo) / 2;
        assert(mid(lo as int, hi as int) == m);
        let p = self.items[m];
        let d = squared_distance(&p, q);
        offer(res, k, Neighbor { index: m, item: p, squared_distance: d }, Ghost(s), Ghost(*q));
        let ghost r1 = res@;
        let na: usize = if ax + 1 < K {
            ax + 1
        } else {
            0
        };
        let left_first = q[ax] < p[ax];
        let (near_lo, near_hi, far_lo, far_hi) = if left_first {
            (lo, m, m + 1, hi)
        } else {
            (m + 1, hi, lo, m)
        };
        let ghost (u_lo, u_hi) = if left_first {
            (lo as int, m + 1)
        } else {
            (m as int, hi as int)
        };
        proof {
            lemma_kpre_next(s, *q, k as int, o, r1, lo as int, hi as int, m as int, m + 1, near_lo as int, near_hi as int);
        }
        self.nearests_in(q, k, near_lo, near_hi, na, res);
        let ghost r2 = res@;
        proof {
            lemma_kpre_sub(s, *q, k as int, o, lo as int, hi as int, u_lo, u_hi);
            lemma_kstep_compose(s, *q, k as int, o, r1, r2, m as int, m + 1, near_lo as int, near_hi as int, u_lo, u_hi);
            lemma_kpre_next(s, *q, k as int, o, r2, lo as int, hi as int, u_lo, u_hi, far_lo as int, far_hi as int);
        }
        let n = res.len();
        let perp = axis_sq_diff(p[ax], q[ax]);
        if n < k || perp < res[n - 1].squared_distance {
            self.nearests_in(q, k, far_lo, far_hi, na, res);
        } else {
            proof {
                let a = ax as int;
                assert forall|j: int| far_lo <= j < far_hi implies sq_dist(#[trigger] s[j], *q)
                    >= r2.last().squared_distance by {
                    lemma_plane_bound(s[j], *q, a, coord(p, a));
                }
                lemma_kstep_skip(s, *q, k as int, r2, far_lo as int, far_hi as int);
            }
        }
        proof {
            lemma_kstep_compose(s, *q, k as int, o, r2, res@, u_lo, u_hi, far_lo as int, far_hi as int, lo as int, hi as int);
        }
    }

    /// The `k` stored items nearest to `q` (all of them where fewer are
    /// stored), each once, in non-decreasing order of squared distance; no
    /// item left out is closer than the last one returned.  Among items at
    /// the same distance any may be chosen.
    pub fn nearests(&self, q: &[i32; K], k: usize) -> (r: Vec<Neighbor<K>>)
        requires
            self.wf(),
        ensures
            r@.len() == min_int(k as int, self@.len() as int),
            sorted_by_dist(r@),
            distinct_indices(r@),
            all_ok(self@, *q, r@),
            forall|j: int|
                0 <= j < self@.len() && !#[trigger] has_index(r@, j) ==> r@.len() == k && (k > 0
                    ==> sq_dist(self@[j], *q) >= r@.last().squared_distance),
    {
        let mut res: Vec<Neighbor<K>> = Vec::new();
        if k == 0 {
            return res;
        }
        self.nearests_in(q, k, 0, self.items.len(), 0, &mut res);
        res
    }

    fn within_in(&self, bx: &[[i32; K]; 2], lo: usize, hi: usize, ax: usize, out: &mut Vec<usize>)
        requires
            kd_ok(self@, lo as int, hi as int, ax as int),
            lo <= hi <= self@.len(),
            ax < K,
        ensures
            final(out)@.len() >= old(out)@.len(),
            final(out)@.subrange(0, old(out)@.len() as int) == old(out)@,
            reports(
                final(out)@.subrange(old(out)@.len() as int, final(out)@.len() as int),
                lo as int,
                hi as int,
                box_sel(self@, *bx),
            ),
        decreases hi - lo,
    {
        let ghost sel = box_sel(self@, *bx);
        let ghost o0 = out@;
        if lo == hi {
            proof {
                lemma_reports_empty(lo as int, hi as int, sel);
                assert(out@.subrange(0, o0.len() as int) =~= o0);
                assert(out@.subrange(o0.len() as int, out@.len() as int) =~= Seq::<usize>::empty());
            }
            return;
        }
        let m = lo + (hi - lo) / 2;
        assert(mid(lo as int, hi as int) == m);
        let p = self.items[m];
        let inside = point_in_box(&p, bx);
        if inside {
            out.push(m);
        }
        let ghost o1 = out@;
        proof {
            lemma_reports_node(m, sel);
            assert(sel(m as int) == in_box(p, *bx));
            if inside {
                assert(o1.subrange(o0.len() as int, o1.len() as int) =~= seq![m]);
            } else {
                assert(o1.subrange(o0.len() as int, o1.len() as int) =~= Seq::<usize>::empty());
            }
        }
        let na: usize = if ax + 1 < K {
            ax + 1
        } else {
            0
        };
        let ghost a = ax as int;
        if bx[0][ax] <= p[ax] {
            self.within_in(bx, lo, m, na, out);
        } else {
            proof {
                assert forall|i: int| lo <= i < m implies !#[trigger] sel(i) by {
                    assert(coord(self@[i], a) <= coord(p, a));
                    assert(coord(bx@[0], a) > coord(self@[i], a));
                }
                lemma_reports_empty(lo as int, m as int, sel);
                assert(out@.subrange(o1.len() as int, out@.len() as int) =~= Seq::<usize>::empty());
            }
        }
        let ghost o2 = out@;
        if p[ax] <= bx[1][ax] {
            self.within_in(bx, m + 1, hi, na, out);
        } else {
            proof {
                assert forall|i: int| m < i < hi implies !#[trigger] sel(i) by {
                    assert(coord(self@[i], a) >= coord(p, a));
                    assert(coord(bx@[1], a) < coord(self@[i], a));
                }
                lemma_reports_empty(m + 1, hi as int, sel);
                assert(out@.subrange(o2.len() as int, out@.len() as int) =~= Seq::<usize>::empty());
            }
        }
        proof {
            let o3 = out@;
            let sa = o3.subrange(o0.len() as int, o1.len() as int);
            let sb = o3.subrange(o1.len() as int, o2.len() as int);
            let sc = o3.subrange(o2.len() as int, o3.len() as int);
            assert(o3.subrange(0, o2.len() as int) == o2);
            assert(o2.subrange(0, o1.len() as int) == o1);
            assert(sa =~= o1.subrange(o0.len() as int, o1.len() as int));
            assert(sb =~= o2.subrange(o1.len() as int, o2.len() as int));
            lemma_reports_join(sa, sb, sc, lo as int, m as int, hi as int, sel);
            assert(o3.subrange(o0.len() as int, o3.len() as int) =~= sa + sb + sc);
            assert(o3.subrange(0, o0.len() as int) =~= o1.subrange(0, o0.len() as int));
        }
    }

    /// The positions of the stored items that lie in the box with corners
    /// `bx[0]` and `bx[1]`, bounds included, each once and in no particular
    /// order.  A box with `bx[0]` above `bx[1]` on some axis holds no item.
    pub fn within(&self, bx: &[[i32; K]; 2]) -> (r: Vec<usize>)
        requires
            self.wf(),
        ensures
            r@.no_duplicates(),
            forall|i: usize| #[trigger]
                r@.contains(i) <==> (i < self@.len() && in_box(self@[i as int], *bx)),
            self@.len() == 0 ==> r@.len() == 0,
    {
        let mut out: Vec<usize> = Vec::new();
        self.within_in(bx, 0, self.items.len(), 0, &mut out);
        proof {
            assert(out@.subrange(0, out@.len() as int) =~= out@);
            let sel = box_sel(self@, *bx);
            assert forall|i: usize| #[trigger]
                out@.contains(i) implies (i < self@.len() && in_box(self@[i as int], *bx)) by {
                let k = choose|k: int| 0 <= k < out@.len() && out@[k] == i;
                assert(sel(out@[k] as int));
            }
            assert forall|i: usize| (i < self@.len() && in_box(self@[i as int], *bx)) implies #[trigger]
                out@.contains(i) by {
                assert(sel(i as int));
            }
            if out@.len() > 0 {
                assert(out@.contains(out@[0]));
            }
        }
        out
    }

    fn within_radius_in(&self, q: &[i32; K], r2: u128, lo: usize, hi: usize, ax: usize, out: &mut Vec<usize>)
        requires
            kd_ok(self@, lo as int, hi as int, ax as int),
            lo <= hi <= self@.len(),
            ax < K,
        ensures
            final(out)@.len() >= old(out)@.len(),
            final(out)@.subrange(0, old(out)@.len() as int) == old(out)@,
            reports(
                final(out)@.subrange(old(out)@.len() as int, final(out)@.len() as int),
                lo as int,
                hi as int,
                |i: int| sq_dist(self@[i], *q) < r2,
            ),
        decreases hi - lo,
    {
        let ghost sel = |i: int| sq_dist(self@[i], *q) < r2;
        let ghost o0 = out@;
        if lo == hi {
            proof {
                lemma_reports_empty(lo as int, hi as int, sel);
                assert(out@.subrange(0, o0.len() as int) =~= o0);
                assert(out@.subrange(o0.len() as int, out@.len() as int) =~= Seq::<usize>::empty());
            }
            return;
        }
        let m = lo + (hi - lo) / 2;
        assert(mid(lo as int, hi as int) == m);
        let p = self.items[m];
        let d = squared_distance(&p, q);
        if d < r2 {
            out.push(m);
        }
        let ghost o1 = out@;
        proof {
            lemma_reports_node(m, sel);
            if d < r2 {
                assert(o1.subrange(o0.len() as int, o1.len() as int) =~= seq![m]);
            } else {
                assert(o1.subrange(o0.len() as int, o1.len() as int) =~= Seq::<usize>::empty());
            }
        }
        let na: usize = if ax + 1 < K {
            ax + 1
        } else {
            0
        };
        let ghost a = ax as int;
        let perp = axis_sq_diff(p[ax], q[ax]);
        let left_near = q[ax] < p[ax];
        if left_near || perp < r2 {
            self.within_radius_in(q, r2, lo, m, na, out);
        } else {
            proof {
                assert forall|i: int| lo <= i < m implies !#[trigger] sel(i) by {
                    lemma_plane_bound(self@[i], *q, a, coord(p, a));
                }
                lemma_reports_empty(lo as int, m as int, sel);
                assert(out@.subrange(o1.len() as int, out@.len() as int) =~= Seq::<usize>::empty());
            }
        }
        let ghost o2 = out@;
        if !left_near || perp < r2 {
            self.within_radius_in(q, r2, m + 1, hi, na, out);
        } else {
            proof {
                assert forall|i: int| m < i < hi implies !#[trigger] sel(i) by {
                    lemma_plane_bound(self@[i], *q, a, coord(p, a));
                }
                lemma_reports_empty(m + 1, hi as int, sel);
                assert(out@.subrange(o2.len() as int, out@.len() as int) =~= Seq::<usize>::empty());
            }
        }
        proof {
            let o3 = out@;
            let sa = o3.subrange(o0.len() as int, o1.len() as int);
            let sb = o3.subrange(o1.len() as int, o2.len() as int);
            let sc = o3.subrange(o2.len() as int, o3.len() as int);
            assert(o3.subrange(0, o2.len() as int) == o2);
            assert(o2.subrange(0, o1.len() as int) == o1);
            assert(sa =~= o1.subrange(o0.len() as int, o1.len() as int));
            assert(sb =~= o2.subrange(o1.len() as int, o2.len() as int));
            lemma_reports_join(sa, sb, sc, lo as int, m as int, hi as int, sel);
            assert(o3.subrange(o0.len() as int, o3.len() as int) =~= sa + sb + sc);
            assert(o3.subrange(0, o0.len() as int) =~= o1.subrange(0, o0.len() as int));
        }
    }

    /// The positions of the stored items whose squared distance to `q` is
    /// strictly less than `radius * radius`, each once and in no particular
    /// order.
    pub fn within_radius(&self, q: &[i32; K], radius: u64) -> (r: Vec<usize>)
        requires
            self.wf(),
        ensures
            r@.no_duplicates(),
            forall|i: usize| #[trigger]
                r@.contains(i) <==> (i < self@.len() && sq_dist(self@[i as int], *q) < radius as int
                    * radius as int),
    {
        assert((radius as int) * (radius as int) <= u128::MAX) by (nonlinear_arith)
            requires
                radius <= u64::MAX,
        ;
        let r2: u128 = (radius as u128) * (radius as u128);
        let mut out: Vec<usize> = Vec::new();
        self.within_radius_in(q, r2, 0, self.items.len(), 0, &mut out);
        proof {
            assert(out@.subrange(0, out@.len() as int) =~= out@);
            let sel = |i: int| sq_dist(self@[i], *q) < r2;
            assert forall|i: usize| #[trigger]
                out@.contains(i) implies (i < self@.len() && sq_dist(self@[i as int], *q) < radius as int
                    * radius as int) by {
                let k = choose|k: int| 0 <= k < out@.len() && out@[k] == i;
                assert(sel(out@[k] as int));
            }
            assert forall|i: usize| (i < self@.len() && sq_dist(self@[i as int], *q) < radius as int
                * radius as int) implies #[trigger] out@.contains(i) by {
                assert(sel(i as int));
            }
        }
        out
    }
}

/// Whether `p` lies in the box with corners `bx[0]` and `bx[1]`.
pub fn point_in_box<const K: usize>(p: &[i32; K], bx: &[[i32; K]; 2]) -> (r: bool)
    ensures
        r == in_box(*p, *bx),
{
    let lower = &bx[0];
    let upper = &bx[1];
    let mut a: usize = 0;
    while a < K
        invariant
            a <= K,
            *lower == bx@[0],
            *upper == bx@[1],
            forall|b: int| 0 <= b < a ==> coord(bx@[0], b) <= #[trigger] coord(*p, b) && coord(*p, b) <= coord(
                bx@[1],
                b,
            ),
        decreases K - a,
    {
        if p[a] < lower[a] || upper[a] < p[a] {
            assert(coord(bx@[0], a as int) > coord(*p, a as int) || coord(*p, a as int) > coord(
                bx@[1],
                a as int,
            ));
            return false;
        }
        a = a + 1;
    }
    true
}

/// Building in parallel lays the items out exactly as building
/// sequentially does: two trees built from the same items, one by `build`
/// and one by `par_build`, store them in the same order.
pub proof fn lemma_par_build_matches_build<const K: usize>(
    items: Seq<[i32; K]>,
    sequential: KdTree<K>,
    parallel: KdTree<K>,
)
    requires
        sequential@ == kd_layout(items, 0),
        parallel@ == kd_layout(items, 0),
    ensures
        sequential@ == parallel@,
{
}

impl<const K: usize> PartialEq for KdTree<K> {
    /// Two trees are equal when they store the same items in the same order.
    fn eq(&self, other: &Self) -> (r: bool) {
        let n = self.items.len();
        if n != other.items.len() {
            return false;
        }
        let mut i: usize = 0;
        while i < n
            invariant
                i <= n,
                n == self@.len(),
                n == other@.len(),
                forall|j: int| 0 <= j < i ==> #[trigger] self@[j] == other@[j],
            decreases n - i,
        {
            let p = self.items[i];
            let q = other.items[i];
            let mut a: usize = 0;
            while a < K
                invariant
                    a <= K,
                    i < n,
                    n == self@.len(),
                    n == other@.len(),
                    p == self@[i as int],
                    q == other@[i as int],
                    forall|j: int| 0 <= j < i ==> #[trigger] self@[j] == other@[j],
                    forall|b: int| 0 <= b < a ==> p@[b] == q@[b],
                decreases K - a,
            {
                if p[a] != q[a] {
                    assert(self@[i as int]@[a as int] != other@[i as int]@[a as int]);
                    return false;
                }
                a = a + 1;
            }
            assert(p =~= q);
            i = i + 1;
        }
        assert(self@ =~= other@);
        true
    }
}

impl<const K: usize> vstd::std_specs::cmp::PartialEqSpecImpl for KdTree<K> {
    open spec fn obeys_eq_spec() -> bool {
        true
    }

    open spec fn eq_spec(&self, other: &Self) -> bool {
        self@ == other@
    }
}

} // verus!
