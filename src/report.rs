//! Lists of item positions that report exactly the selected part of a region.
use vstd::prelude::*;

verus! {

/// `seg` lists, each once, exactly the positions `i` in `lo..hi` for which
/// `sel(i)` holds.
pub open spec fn reports(seg: Seq<usize>, lo: int, hi: int, sel: spec_fn(int) -> bool) -> bool {
    &&& forall|k: int| 0 <= k < seg.len() ==> lo <= #[trigger] seg[k] < hi && sel(seg[k] as int)
    &&& seg.no_duplicates()
    &&& forall|i: int| lo <= i < hi && #[trigger] sel(i) ==> seg.contains(i as usize)
}

/// An empty list reports a region where nothing is selected.
pub proof fn lemma_reports_empty(lo: int, hi: int, sel: spec_fn(int) -> bool)
    requires
        forall|i: int| lo <= i < hi ==> !#[trigger] sel(i),
    ensures
        reports(Seq::<usize>::empty(), lo, hi, sel),
{
}

/// The report of a single position.
pub proof fn lemma_reports_node(m: usize, sel: spec_fn(int) -> bool)
    ensures
        sel(m as int) ==> reports(seq![m], m as int, m + 1, sel),
        !sel(m as int) ==> reports(Seq::<usize>::empty(), m as int, m + 1, sel),
{
    if sel(m as int) {
        assert(seq![m][0] == m);
        assert forall|i: int| m <= i < m + 1 && #[trigger] sel(i) implies seq![m].contains(
            i as usize,
        ) by {
            assert(seq![m][0] == i as usize);
        }
    }
}

/// Reports of a node and of the regions on either side of it join into a
/// report of the whole region.
pub proof fn lemma_reports_join(
    a: Seq<usize>,
    b: Seq<usize>,
    c: Seq<usize>,
    lo: int,
    m: int,
    hi: int,
    sel: spec_fn(int) -> bool,
)
    requires
        lo <= m < hi,
        reports(a, m, m + 1, sel),
        reports(b, lo, m, sel),
        reports(c, m + 1, hi, sel),
    ensures
        reports(a + b + c, lo, hi, sel),
{
    let s = a + b + c;
    assert forall|k: int| 0 <= k < s.len() implies lo <= #[trigger] s[k] < hi && sel(
        s[k] as int,
    ) by {
        if k < a.len() {
            assert(s[k] == a[k]);
        } else if k < a.len() + b.len() {
            assert(s[k] == b[k - a.len()]);
        } else {
            assert(s[k] == c[k - a.len() - b.len()]);
        }
    }
    assert forall|k1: int, k2: int| 0 <= k1 < s.len() && 0 <= k2 < s.len() && k1 != k2 implies s[k1]
        != s[k2] by {
        if k1 < a.len() {
            assert(s[k1] == a[k1]);
        } else if k1 < a.len() + b.len() {
            assert(s[k1] == b[k1 - a.len()]);
        } else {
            assert(s[k1] == c[k1 - a.len() - b.len()]);
        }
        if k2 < a.len() {
            assert(s[k2] == a[k2]);
        } else if k2 < a.len() + b.len() {
            assert(s[k2] == b[k2 - a.len()]);
        } else {
            assert(s[k2] == c[k2 - a.len() - b.len()]);
        }
    }
    assert forall|i: int| lo <= i < hi && #[trigger] sel(i) implies s.contains(i as usize) by {
        if i < m {
            let k = choose|k: int| 0 <= k < b.len() && b[k] == i as usize;
            assert(s[a.len() + k] == b[k]);
        } else if i == m {
            let k = choose|k: int| 0 <= k < a.len() && a[k] == i as usize;
            assert(s[k] == a[k]);
        } else {
            let k = choose|k: int| 0 <= k < c.len() && c[k] == i as usize;
            assert(s[a.len() + b.len() + k] == c[k]);
        }
    }
}

} // verus!
