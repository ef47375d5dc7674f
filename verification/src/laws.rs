//! The laws of the computed solution: every path the engine records really
//! walks along edges of the graph and sums to the recorded distance, the
//! final distances obey the triangle inequality, and adding an edge never
//! lengthens any distance.

use vstd::prelude::*;

use crate::engine::fw;
use crate::engine::fw_improves;
use crate::engine::fw_path;
use crate::engine::fw_seg;
use crate::engine::lemma_fw_bounded;
use crate::engine::lemma_fw_step;
use crate::engine::lemma_fw_symmetric;
use crate::engine::sat_add;
use crate::graph::direct;
use crate::graph::lemma_direct_bounded;
use crate::graph::lemma_direct_symmetric;
use crate::graph::Edge;

verus! {

/// The full node sequence of a route from `i` to `j` with the intermediate
/// nodes `p` in between.
pub open spec fn route_nodes(i: int, p: Seq<int>, j: int) -> Seq<int> {
    seq![i] + p + seq![j]
}

/// True when every consecutive hop of the node sequence `s` is joined by an
/// edge of the graph.
pub open spec fn is_walk(es: Seq<Edge>, s: Seq<int>) -> bool {
    forall|t: int| 0 <= t < s.len() - 1 ==> direct(es, #[trigger] s[t], s[t + 1]) is Some
}

/// The saturating sum of the hop weights along the node sequence `s`, each
/// hop weighing the lightest edge that joins its two nodes.
pub open spec fn walk_weight(es: Seq<Edge>, s: Seq<int>) -> nat
    decreases s.len(),
{
    if s.len() <= 1 {
        0
    } else {
        sat_add(direct(es, s[0], s[1])->0, walk_weight(es, s.skip(1)))
    }
}

/// A walk's weight never exceeds the largest representable distance.
proof fn lemma_walk_weight_bounded(es: Seq<Edge>, s: Seq<int>)
    ensures
        walk_weight(es, s) <= usize::MAX,
{
    if s.len() <= 1 {
    }
}

/// Appending one node to a walk adds the weight of the one new hop.
proof fn lemma_walk_weight_snoc(es: Seq<Edge>, s: Seq<int>, x: int)
    requires
        s.len() >= 1,
    ensures
        walk_weight(es, s.push(x)) == sat_add(
            walk_weight(es, s),
            direct(es, s.last(), x)->0,
        ),
    decreases s.len(),
{
    lemma_direct_bounded(es, s.last(), x);
    lemma_walk_weight_bounded(es, s);
    if s.len() == 1 {
        assert(s.push(x).skip(1) =~= seq![x]);
        assert(walk_weight(es, seq![x]) == 0);
    } else {
        assert(s.push(x).skip(1) =~= s.skip(1).push(x));
        lemma_walk_weight_snoc(es, s.skip(1), x);
        assert(s.skip(1).last() == s.last());
        lemma_walk_weight_bounded(es, s.skip(1));
    }
}

/// The reverse of a walk is a walk of the same weight: the graph is
/// undirected. A recorded path walks from the smaller endpoint to the larger;
/// this carries its consistency to the opposite traversal.
pub proof fn lemma_walk_reverse(es: Seq<Edge>, s: Seq<int>)
    requires
        is_walk(es, s),
    ensures
        is_walk(es, s.reverse()),
        walk_weight(es, s.reverse()) == walk_weight(es, s),
    decreases s.len(),
{
    if s.len() <= 1 {
        assert(s.reverse() =~= s);
    } else {
        let r = s.skip(1);
        assert(is_walk(es, r)) by {
            assert forall|t: int| 0 <= t < r.len() - 1 implies direct(
                es,
                #[trigger] r[t],
                r[t + 1],
            ) is Some by {
                assert(direct(es, s[t + 1], s[t + 2]) is Some);
            }
        }
        lemma_walk_reverse(es, r);
        assert(s.reverse() =~= r.reverse().push(s[0]));
        assert(is_walk(es, r.reverse().push(s[0]))) by {
            let rr = r.reverse().push(s[0]);
            assert forall|t: int| 0 <= t < rr.len() - 1 implies direct(
                es,
                #[trigger] rr[t],
                rr[t + 1],
            ) is Some by {
                if t < rr.len() - 2 {
                    assert(direct(es, r.reverse()[t], r.reverse()[t + 1]) is Some);
                } else {
                    assert(rr[t] == s[1] && rr[t + 1] == s[0]);
                    assert(direct(es, s[0], s[1]) is Some);
                    lemma_direct_symmetric(es, s[0], s[1]);
                }
            }
        }
        lemma_walk_weight_snoc(es, r.reverse(), s[0]);
        assert(r.reverse().last() == s[1]);
        lemma_direct_symmetric(es, s[0], s[1]);
        lemma_walk_weight_bounded(es, r);
        lemma_direct_bounded(es, s[0], s[1]);
    }
}

/// Two walks that share their meeting node splice into one walk whose weight
/// is the saturating sum of the parts.
proof fn lemma_walk_concat(es: Seq<Edge>, s1: Seq<int>, s2: Seq<int>)
    requires
        is_walk(es, s1),
        is_walk(es, s2),
        s1.len() >= 1,
        s2.len() >= 1,
        s1.last() == s2.first(),
    ensures
        is_walk(es, s1 + s2.skip(1)),
        walk_weight(es, s1 + s2.skip(1)) == sat_add(walk_weight(es, s1), walk_weight(es, s2)),
    decreases s1.len(),
{
    lemma_walk_weight_bounded(es, s2);
    if s1.len() == 1 {
        assert(s1 + s2.skip(1) =~= s2);
    } else {
        let r1 = s1.skip(1);
        assert(is_walk(es, r1)) by {
            assert forall|t: int| 0 <= t < r1.len() - 1 implies direct(
                es,
                #[trigger] r1[t],
                r1[t + 1],
            ) is Some by {
                assert(direct(es, s1[t + 1], s1[t + 2]) is Some);
            }
        }
        assert(r1.last() == s1.last());
        lemma_walk_concat(es, r1, s2);
        let joined = s1 + s2.skip(1);
        assert(joined.skip(1) =~= r1 + s2.skip(1));
        assert(is_walk(es, joined)) by {
            assert forall|t: int| 0 <= t < joined.len() - 1 implies direct(
                es,
                #[trigger] joined[t],
                joined[t + 1],
            ) is Some by {
                if t == 0 {
                    assert(joined[0] == s1[0] && joined[1] == s1[1]);
                    assert(direct(es, s1[0], s1[1]) is Some);
                } else {
                    let x = r1 + s2.skip(1);
                    assert(joined[t] == x[t - 1] && joined[t + 1] == x[t]);
                    assert(direct(es, x[t - 1], x[t]) is Some);
                }
            }
        }
        assert(joined[0] == s1[0] && joined[1] == s1[1]);
        lemma_walk_weight_bounded(es, r1);
        lemma_direct_bounded(es, s1[0], s1[1]);
    }
}

/// Every path the engine records is a walk along edges of the graph, and the
/// saturating sum of its hop weights is exactly the recorded distance
/// (path-length consistency). In particular, with no saturation the recorded
/// distance is the plain sum of the edge weights along the route.
pub proof fn lemma_fw_path_consistent(es: Seq<Edge>, i: int, j: int, k: int)
    requires
        i < j,
        k >= 0,
        fw(es, i, j, k) is Some,
    ensures
        is_walk(es, route_nodes(i, fw_path(es, i, j, k), j)),
        walk_weight(es, route_nodes(i, fw_path(es, i, j, k), j)) == fw(es, i, j, k)->0,
    decreases k,
{
    if k == 0 {
        let s = route_nodes(i, fw_path(es, i, j, k), j);
        assert(s =~= seq![i, j]);
        assert(direct(es, s[0], s[1]) is Some);
        assert(s.skip(1) =~= seq![j]);
        assert(walk_weight(es, seq![j]) == 0);
        lemma_direct_bounded(es, i, j);
    } else {
        lemma_fw_step(es, i, j, k);
        if fw_improves(es, i, j, k) {
            let m = k - 1;
            let a = fw(es, i, m, m)->0;
            let b = fw(es, m, j, m)->0;
            lemma_fw_bounded(es, i, m, m);
            lemma_fw_bounded(es, m, j, m);
            // The left leg, walked from i to m.
            let s1 = route_nodes(i, fw_seg(es, i, m, m), m);
            assert(is_walk(es, s1) && walk_weight(es, s1) == a) by {
                if i < m {
                    lemma_fw_path_consistent(es, i, m, m);
                } else {
                    lemma_fw_symmetric(es, i, m, m);
                    lemma_fw_path_consistent(es, m, i, m);
                    let s0 = route_nodes(m, fw_path(es, m, i, m), i);
                    lemma_walk_reverse(es, s0);
                    assert(s0.reverse() =~= s1);
                }
            }
            // The right leg, walked from m to j.
            let s2 = route_nodes(m, fw_seg(es, m, j, m), j);
            assert(is_walk(es, s2) && walk_weight(es, s2) == b) by {
                if m < j {
                    lemma_fw_path_consistent(es, m, j, m);
                } else {
                    lemma_fw_symmetric(es, m, j, m);
                    lemma_fw_path_consistent(es, j, m, m);
                    let s0 = route_nodes(j, fw_path(es, j, m, m), m);
                    lemma_walk_reverse(es, s0);
                    assert(s0.reverse() =~= s2);
                }
            }
            assert(s1.last() == m && s2.first() == m);
            lemma_walk_concat(es, s1, s2);
            assert(s1 + s2.skip(1) =~= route_nodes(i, fw_path(es, i, j, k), j));
        } else {
            lemma_fw_path_consistent(es, i, j, k - 1);
        }
    }
}

/// Triangle inequality of the distances: whenever both legs through a node
/// `h` exist, the pair `(i, j)` is itself connected, and no farther apart
/// than the two legs together.
pub proof fn lemma_fw_triangle(es: Seq<Edge>, i: int, j: int, h: int, k: int)
    requires
        0 <= h < k,
        fw(es, i, h, k) is Some,
        fw(es, h, j, k) is Some,
    ensures
        fw(es, i, j, k) is Some,
        fw(es, i, j, k)->0 <= sat_add(fw(es, i, h, k)->0, fw(es, h, j, k)->0),
    decreases k,
{
    lemma_fw_bounded(es, i, h, k);
    lemma_fw_bounded(es, h, j, k);
    lemma_fw_bounded(es, i, j, k);
    if i == j {
    } else if h == i {
        assert(fw(es, i, h, k) == Some(0 as nat));
    } else if h == j {
        assert(fw(es, h, j, k) == Some(0 as nat));
    } else {
        let m = k - 1;
        lemma_fw_step(es, i, h, k);
        lemma_fw_step(es, h, j, k);
        if h == m {
            // The pass for m == h itself: both legs end in h, so they are the
            // level-m legs, and the pass offered exactly their splice to the
            // pair (i, j).
            assert(fw(es, i, h, k) == fw(es, i, m, m));
            assert(fw(es, h, j, k) == fw(es, m, j, m));
        } else {
            // h < m: peel one pass off every term and use the inequality at
            // level m.
            let pih = fw(es, i, h, m);
            let phj = fw(es, h, j, m);
            let pim = fw(es, i, m, m);
            let pmj = fw(es, m, j, m);
            let pmh = fw(es, m, h, m);
            let phm = fw(es, h, m, m);
            lemma_fw_bounded(es, i, h, m);
            lemma_fw_bounded(es, h, j, m);
            lemma_fw_bounded(es, i, m, m);
            lemma_fw_bounded(es, m, j, m);
            lemma_fw_bounded(es, m, h, m);
            lemma_fw_bounded(es, h, m, m);
            lemma_fw_symmetric(es, m, h, m);
            let left_spliced = pim is Some && pmh is Some && (pih is None || sat_add(
                pim->0,
                pmh->0,
            ) < pih->0);
            let right_spliced = phm is Some && pmj is Some && (phj is None || sat_add(
                phm->0,
                pmj->0,
            ) < phj->0);
            if left_spliced {
                if right_spliced {
                    // Both legs route through m: so does the pair.
                } else {
                    // fw(h, j, k) kept its level-m value phj.
                    lemma_fw_triangle(es, m, j, h, m);
                }
            } else {
                if right_spliced {
                    lemma_fw_triangle(es, i, m, h, m);
                } else {
                    lemma_fw_triangle(es, i, j, h, m);
                }
            }
        }
    }
}

/// `a` is at least as good a distance as `b`: whenever `b` exists, `a`
/// exists too and is no larger.
pub open spec fn dist_le(a: Option<nat>, b: Option<nat>) -> bool {
    b is Some ==> a is Some && a->0 <= b->0
}

/// The recurrence is monotone: a graph whose every direct distance is at
/// least as good yields distances that are at least as good, at every level.
pub proof fn lemma_fw_monotone(es1: Seq<Edge>, es2: Seq<Edge>, i: int, j: int, k: int)
    requires
        forall|p: int, q: int| dist_le(#[trigger] direct(es2, p, q), direct(es1, p, q)),
    ensures
        dist_le(fw(es2, i, j, k), fw(es1, i, j, k)),
    decreases k,
{
    if i == j {
    } else if k <= 0 {
        assert(dist_le(direct(es2, i, j), direct(es1, i, j)));
    } else {
        let m = k - 1;
        lemma_fw_monotone(es1, es2, i, j, m);
        lemma_fw_monotone(es1, es2, i, m, m);
        lemma_fw_monotone(es1, es2, m, j, m);
    }
}

/// Adding one edge to the graph never lengthens any computed distance
/// (reachability monotonicity): every connected pair stays connected, at a
/// distance no larger than before, at every level of the recurrence.
pub proof fn lemma_add_edge_monotone(es: Seq<Edge>, e: Edge, i: int, j: int, k: int)
    ensures
        dist_le(fw(es.push(e), i, j, k), fw(es, i, j, k)),
{
    assert forall|p: int, q: int| dist_le(
        #[trigger] direct(es.push(e), p, q),
        direct(es, p, q),
    ) by {
        crate::graph::lemma_direct_push(es, e, p, q);
    }
    lemma_fw_monotone(es, es.push(e), i, j, k);
}

/// Allowing more intermediate nodes never lengthens a distance: the levels of
/// the recurrence only improve.
pub proof fn lemma_fw_level_le(es: Seq<Edge>, i: int, j: int, k1: int, k2: int)
    requires
        0 <= k2 <= k1,
    ensures
        dist_le(fw(es, i, j, k1), fw(es, i, j, k2)),
    decreases k1 - k2,
{
    if k1 > k2 {
        lemma_fw_level_le(es, i, j, k1 - 1, k2);
        assert(dist_le(fw(es, i, j, k1), fw(es, i, j, k1 - 1)));
    }
}

/// The computed distances are optimal: no walk whose intermediate nodes lie
/// below `k` is shorter than the level-`k` distance of its endpoints. At
/// level `n`, together with path-length consistency, this makes the recorded
/// distance the true shortest-path length of every reachable pair.
pub proof fn lemma_fw_optimal(es: Seq<Edge>, s: Seq<int>, k: int)
    requires
        is_walk(es, s),
        s.len() >= 1,
        k >= 0,
        forall|t: int| 1 <= t < s.len() - 1 ==> 0 <= #[trigger] s[t] < k,
    ensures
        fw(es, s[0], s.last(), k) is Some,
        fw(es, s[0], s.last(), k)->0 <= walk_weight(es, s),
    decreases s.len(),
{
    let i = s[0];
    let j = s.last();
    if s.len() == 1 {
        assert(fw(es, i, j, k) == Some(0 as nat));
    } else if s.len() == 2 {
        // One hop: its edge exists, so the direct distance does, and every
        // level is at least as good as level zero.
        assert(s[1] == j);
        assert(direct(es, s[0], s[1]) is Some);
        crate::graph::lemma_direct_irreflexive(es, i);
        lemma_direct_bounded(es, i, j);
        lemma_fw_level_le(es, i, j, k, 0);
        assert(s.skip(1) =~= seq![j]);
        assert(walk_weight(es, seq![j]) == 0);
    } else {
        // Split off the first hop and route the rest by induction; the
        // triangle inequality splices the two.
        let x = s[1];
        let rest = s.skip(1);
        assert(is_walk(es, rest)) by {
            assert forall|t: int| 0 <= t < rest.len() - 1 implies direct(
                es,
                #[trigger] rest[t],
                rest[t + 1],
            ) is Some by {
                assert(direct(es, s[t + 1], s[t + 2]) is Some);
            }
        }
        assert(rest[0] == x && rest.last() == j);
        lemma_fw_optimal(es, rest, k);
        assert(direct(es, i, x) is Some);
        lemma_direct_bounded(es, i, x);
        lemma_fw_level_le(es, i, x, k, 0);
        lemma_fw_triangle(es, i, j, x, k);
        lemma_walk_weight_bounded(es, rest);
    }
}

/// A pair the engine reports unconnected truly has no route: no walk at all
/// joins its endpoints within the nodes the recurrence has considered.
pub proof fn lemma_unreachable_has_no_walk(es: Seq<Edge>, s: Seq<int>, k: int)
    requires
        s.len() >= 1,
        k >= 0,
        forall|t: int| 1 <= t < s.len() - 1 ==> 0 <= #[trigger] s[t] < k,
        fw(es, s[0], s.last(), k) is None,
    ensures
        !is_walk(es, s),
{
    if is_walk(es, s) {
        lemma_fw_optimal(es, s, k);
    }
}

/// Both orders of a pair observe one record: the matrix is symmetric.
pub proof fn lemma_matrix_symmetric<T>(m: crate::matrices::PathMatrix<T>, i: int, j: int)
    ensures
        m.entry(i, j) == m.entry(j, i),
{
}

} // verus!
