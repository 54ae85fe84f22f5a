//! Depths of the nodes of a breadth-first search, counted along the links
//! from each node to the node it was reached from.

use vstd::prelude::*;

verus! {

/// The number of links from node `k` back to the first node, where node
/// `k` was reached from node `parents[k]`, an earlier one.
pub open spec fn bfs_depth(parents: Seq<usize>, k: int) -> nat
    decreases k,
{
    if 0 < k < parents.len() && parents[k] < k {
        bfs_depth(parents, parents[k] as int) + 1
    } else {
        0
    }
}

/// Adding a node leaves the depths of the nodes before it as they were.
pub proof fn lemma_bfs_depth_push(parents: Seq<usize>, x: usize, k: int)
    requires
        0 <= k < parents.len(),
    ensures
        bfs_depth(parents.push(x), k) == bfs_depth(parents, k),
    decreases k,
{
    assert(parents.push(x)[k] == parents[k]);
    if 0 < k && parents[k] < k {
        lemma_bfs_depth_push(parents, x, parents[k] as int);
    }
}

} // verus!
