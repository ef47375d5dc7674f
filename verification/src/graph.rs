//! The graph view the engine consumes: a node count and a list of undirected,
//! non-negatively weighted edges over dense node indices `0 .. n`.

use vstd::prelude::*;

verus! {

/// An undirected edge joining nodes `u` and `v` with weight `w`.
#[derive(Clone, Copy, PartialEq, Eq, Structural, Debug)]
pub struct Edge {
    /// One endpoint.
    pub u: usize,
    /// The other endpoint.
    pub v: usize,
    /// The non-negative weight.
    pub w: usize,
}

/// True when edge `e` joins the two distinct nodes `i` and `j`, in either
/// direction: the graph is undirected.
pub open spec fn edge_connects(e: Edge, i: int, j: int) -> bool {
    i != j && ((e.u == i && e.v == j) || (e.u == j && e.v == i))
}

/// Every endpoint in `edges` is a valid node index below `n`.
pub open spec fn edges_in_bounds(edges: Seq<Edge>, n: int) -> bool {
    forall|t: int|
        0 <= t < edges.len() ==> (#[trigger] edges[t]).u < n && edges[t].v < n
}

/// The direct (single-hop) distance between `i` and `j`: the minimum weight
/// among all edges joining them, or `None` when no edge does. A self-loop
/// joins nothing: a node's distance to itself is always zero.
pub open spec fn direct(edges: Seq<Edge>, i: int, j: int) -> Option<nat>
    decreases edges.len(),
{
    if edges.len() == 0 {
        None
    } else {
        let rest = direct(edges.drop_last(), i, j);
        let e = edges.last();
        if edge_connects(e, i, j) {
            match rest {
                None => Some(e.w as nat),
                Some(d) => if e.w < d {
                    Some(e.w as nat)
                } else {
                    Some(d)
                },
            }
        } else {
            rest
        }
    }
}

/// The direct distance does not depend on the order of the pair.
pub proof fn lemma_direct_symmetric(edges: Seq<Edge>, i: int, j: int)
    ensures
        direct(edges, i, j) == direct(edges, j, i),
    decreases edges.len(),
{
    if edges.len() > 0 {
        lemma_direct_symmetric(edges.drop_last(), i, j);
    }
}

/// A direct distance is the weight of some edge, so it fits in `usize`.
pub proof fn lemma_direct_bounded(edges: Seq<Edge>, i: int, j: int)
    ensures
        direct(edges, i, j) is Some ==> direct(edges, i, j)->0 <= usize::MAX,
    decreases edges.len(),
{
    if edges.len() > 0 {
        lemma_direct_bounded(edges.drop_last(), i, j);
    }
}

/// A node is never directly connected to itself.
pub proof fn lemma_direct_irreflexive(edges: Seq<Edge>, i: int)
    ensures
        direct(edges, i, i) is None,
    decreases edges.len(),
{
    if edges.len() > 0 {
        lemma_direct_irreflexive(edges.drop_last(), i);
    }
}

/// How one more edge changes the direct distances: it lowers the distance of
/// the one pair it joins to its weight, if that improves it, and leaves every
/// other pair alone.
pub proof fn lemma_direct_push(edges: Seq<Edge>, e: Edge, i: int, j: int)
    ensures
        direct(edges.push(e), i, j) == (if edge_connects(e, i, j) {
            match direct(edges, i, j) {
                Option::None => Option::Some(e.w as nat),
                Option::Some(d) => if e.w < d {
                    Option::Some(e.w as nat)
                } else {
                    Option::Some(d)
                },
            }
        } else {
            direct(edges, i, j)
        }),
{
    assert(edges.push(e).drop_last() =~= edges);
    assert(edges.push(e).last() == e);
}

} // verus!
