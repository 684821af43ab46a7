//! A static k-d tree over integer points with nearest, k-nearest, box and
//! radius queries.
use vstd::prelude::*;

pub mod builder;
pub mod codec;
pub mod knn;
pub mod layout;
pub mod perm;
pub mod point;
pub mod report;
pub mod tree;

pub use point::squared_distance;
pub use tree::{KdTree, Neighbor};

verus! {

/// Collects `f(0), f(1), ..., f(count - 1)` into a vector.
pub fn vec<T, F: Fn(usize) -> T>(count: usize, f: F) -> (r: Vec<T>)
    requires
        forall|i: usize| i < count ==> f.requires((i,)),
    ensures
        r@.len() == count,
        forall|i: int| 0 <= i < count ==> f.ensures((i as usize,), #[trigger] r@[i]),
{
    let mut items: Vec<T> = Vec::with_capacity(count);
    let mut i: usize = 0;
    while i < count
        invariant
            i <= count,
            items@.len() == i,
            forall|j: usize| j < count ==> f.requires((j,)),
            forall|j: int| 0 <= j < i ==> f.ensures((j as usize,), #[trigger] items@[j]),
        decreases count - i,
    {
        let x = f(i);
        items.push(x);
        i = i + 1;
    }
    items
}

} // verus!
