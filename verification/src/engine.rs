//! The Floyd-Warshall engine: the mathematical recurrence that defines what
//! the algorithm computes, and the executable relaxation loop that computes
//! exactly it.
//!
//! `fw(edges, i, j, k)` is the best distance between `i` and `j` over routes
//! whose intermediate nodes all lie below `k`; `fw_path(edges, i, j, k)` is
//! the sequence of intermediate nodes the engine records for it. The engine's
//! contract ties every matrix slot to these two functions at level `n`.

use vstd::prelude::*;

use crate::graph::direct;
use crate::graph::edges_in_bounds;
use crate::graph::lemma_direct_bounded;
use crate::graph::lemma_direct_symmetric;
use crate::graph::Edge;
use crate::matrices::tri;
use crate::matrices::PathMatrix;
use crate::matrices::PathModel;

verus! {

/// Addition that saturates at the largest representable distance, so that a
/// huge route never wraps around into a falsely short one.
pub open spec fn sat_add(a: nat, b: nat) -> nat {
    if a + b > usize::MAX {
        usize::MAX as nat
    } else {
        a + b
    }
}

/// The Floyd-Warshall recurrence. `fw(edges, i, j, k)` is the distance the
/// algorithm knows between `i` and `j` once every node below `k` has been
/// considered as an intermediate: `None` while no route is known, and the
/// saturating sum of the route's edge weights otherwise. Level `0` holds the
/// direct edges; level `k` improves a pair by routing it through node `k - 1`
/// whenever that is strictly shorter.
pub open spec fn fw(edges: Seq<Edge>, i: int, j: int, k: int) -> Option<nat>
    decreases k,
{
    if i == j {
        Some(0 as nat)
    } else if k <= 0 {
        direct(edges, i, j)
    } else {
        let m = k - 1;
        let prev = fw(edges, i, j, m);
        let left = fw(edges, i, m, m);
        let right = fw(edges, m, j, m);
        if left is Some && right is Some {
            let c = sat_add(left->0, right->0);
            match prev {
                Option::None => Some(c),
                Option::Some(p) => if c < p {
                    Some(c)
                } else {
                    Some(p)
                },
            }
        } else {
            prev
        }
    }
}

/// True when the pass for intermediate node `k - 1` strictly improves the
/// pair `(i, j)`, which is exactly when the engine rewrites its distance and
/// its recorded path.
pub open spec fn fw_improves(edges: Seq<Edge>, i: int, j: int, k: int) -> bool {
    let m = k - 1;
    let prev = fw(edges, i, j, m);
    let left = fw(edges, i, m, m);
    let right = fw(edges, m, j, m);
    &&& i != j
    &&& m != i
    &&& m != j
    &&& left is Some
    &&& right is Some
    &&& (prev is None || sat_add(left->0, right->0) < prev->0)
}

/// The intermediate nodes (as node indices, endpoints excluded) of the path
/// the engine records for the canonical pair `(i, j)` with `i < j` once every
/// node below `k` has been considered, in walking order from `i` to `j`.
pub open spec fn fw_path(edges: Seq<Edge>, i: int, j: int, k: int) -> Seq<int>
    decreases k, 0int,
{
    if k <= 0 {
        Seq::empty()
    } else if fw_improves(edges, i, j, k) {
        let m = k - 1;
        fw_seg(edges, i, m, m) + seq![m] + fw_seg(edges, m, j, m)
    } else {
        fw_path(edges, i, j, k - 1)
    }
}

/// The recorded intermediate nodes read in walking order from `a` to `b`: the
/// canonical pair's path, reversed when the walk runs from the larger
/// endpoint to the smaller.
pub open spec fn fw_seg(edges: Seq<Edge>, a: int, b: int, k: int) -> Seq<int>
    decreases k, 1int,
{
    if a < b {
        fw_path(edges, a, b, k)
    } else {
        fw_path(edges, b, a, k).reverse()
    }
}

/// Every distance the recurrence produces fits in `usize`.
pub proof fn lemma_fw_bounded(edges: Seq<Edge>, i: int, j: int, k: int)
    ensures
        fw(edges, i, j, k) is Some ==> fw(edges, i, j, k)->0 <= usize::MAX,
    decreases k,
{
    if i == j {
    } else if k <= 0 {
        lemma_direct_bounded(edges, i, j);
    } else {
        lemma_fw_bounded(edges, i, j, k - 1);
    }
}

/// One pass of the recurrence, resolved: when the pass through node `k - 1`
/// improves the pair, the new distance is the saturating sum of the two legs;
/// otherwise the level-`k` distance is the level-`k - 1` one. In particular a
/// pair one of whose endpoints is `k - 1` itself is never changed by the pass.
pub proof fn lemma_fw_step(edges: Seq<Edge>, i: int, j: int, k: int)
    requires
        k >= 1,
        i != j,
    ensures
        fw_improves(edges, i, j, k) ==> fw(edges, i, j, k) == Some(
            sat_add(fw(edges, i, k - 1, k - 1)->0, fw(edges, k - 1, j, k - 1)->0),
        ),
        !fw_improves(edges, i, j, k) ==> fw(edges, i, j, k) == fw(edges, i, j, k - 1),
{
    let m = k - 1;
    let prev = fw(edges, i, j, m);
    lemma_fw_bounded(edges, i, j, m);
    if m == i {
        assert(fw(edges, i, m, m) == Some(0 as nat));
        assert(fw(edges, m, j, m) == prev);
        if prev is Some {
            assert(sat_add(0, prev->0) == prev->0);
        }
    } else if m == j {
        assert(fw(edges, m, j, m) == Some(0 as nat));
        assert(fw(edges, i, m, m) == prev);
        if prev is Some {
            assert(sat_add(prev->0, 0) == prev->0);
        }
    }
}

/// The record every pair starts from: nothing found yet.
pub open spec fn initial_model<T>() -> PathModel<T> {
    PathModel { nodes: Seq::<T>::empty(), len: usize::MAX as nat, found: false }
}

/// The record of a node paired with itself: distance zero, no intermediates.
pub open spec fn diag_model<T>() -> PathModel<T> {
    PathModel { nodes: Seq::<T>::empty(), len: 0 as nat, found: true }
}

/// The matrix agrees with the recurrence at level `k` on the distance of the
/// pair `(i, j)`.
pub open spec fn dist_matches<T>(m: PathMatrix<T>, edges: Seq<Edge>, i: int, j: int, k: int) -> bool {
    &&& m.entry(i, j).found == (fw(edges, i, j, k) is Some)
    &&& (fw(edges, i, j, k) is Some ==> m.entry(i, j).len == fw(edges, i, j, k)->0)
}

/// The materialization of a node index as its label.
pub open spec fn label_of<T>(labels: Seq<T>) -> spec_fn(int) -> T {
    |v: int| labels[v]
}

/// The matrix records, for the canonical pair `(i, j)`, exactly the level-`k`
/// path of the recurrence, with each node index materialized as its label.
pub open spec fn path_matches<T>(
    m: PathMatrix<T>,
    edges: Seq<Edge>,
    labels: Seq<T>,
    i: int,
    j: int,
    k: int,
) -> bool {
    m.entry(i, j).nodes == fw_path(edges, i, j, k).map_values(label_of(labels))
}

/// The recurrence is symmetric in its endpoints: the graph is undirected.
pub proof fn lemma_fw_symmetric(edges: Seq<Edge>, i: int, j: int, k: int)
    ensures
        fw(edges, i, j, k) == fw(edges, j, i, k),
    decreases k,
{
    if i != j && k <= 0 {
        lemma_direct_symmetric(edges, i, j);
    } else if i != j && k > 0 {
        let m = k - 1;
        lemma_fw_symmetric(edges, i, j, m);
        lemma_fw_symmetric(edges, i, m, m);
        lemma_fw_symmetric(edges, m, j, m);
    }
}

/// Mapping a concatenation maps each part.
proof fn lemma_map_values_concat<T>(a: Seq<int>, b: Seq<int>, f: spec_fn(int) -> T)
    ensures
        (a + b).map_values(f) == a.map_values(f) + b.map_values(f),
{
    assert((a + b).map_values(f) =~= a.map_values(f) + b.map_values(f));
}

/// Mapping commutes with reversal.
proof fn lemma_map_values_reverse<T>(a: Seq<int>, f: spec_fn(int) -> T)
    ensures
        a.reverse().map_values(f) == a.map_values(f).reverse(),
{
    assert(a.reverse().map_values(f) =~= a.map_values(f).reverse());
}

/// A pair one of whose endpoints is `k` is not changed by the relaxation pass
/// for intermediate node `k`: a route cannot improve by passing through its
/// own endpoint.
proof fn lemma_k_pair_stable(edges: Seq<Edge>, a: int, k: int)
    requires
        a != k,
        k >= 0,
    ensures
        !fw_improves(edges, a, k, k + 1),
        !fw_improves(edges, k, a, k + 1),
        fw(edges, a, k, k + 1) == fw(edges, a, k, k),
        fw(edges, k, a, k + 1) == fw(edges, k, a, k),
        fw_path(edges, a, k, k + 1) == fw_path(edges, a, k, k),
        fw_path(edges, k, a, k + 1) == fw_path(edges, k, a, k),
{
    lemma_fw_step(edges, a, k, k + 1);
    lemma_fw_step(edges, k, a, k + 1);
}

/// Copies the elements of `sl` onto the end of `out`, in order or reversed.
fn extend_with_slice<T: Copy>(out: &mut Vec<T>, sl: &[T], rev: bool)
    ensures
        final(out)@ == old(out)@ + (if rev {
            sl@.reverse()
        } else {
            sl@
        }),
{
    let n = sl.len();
    if rev {
        let mut t: usize = 0;
        while t < n
            invariant
                t <= n,
                n == sl@.len(),
                out@ == old(out)@ + sl@.subrange(n - t, n as int).reverse(),
            decreases n - t,
        {
            out.push(sl[n - 1 - t]);
            t = t + 1;
            proof {
                assert(out@ =~= old(out)@ + sl@.subrange(n - t, n as int).reverse());
            }
        }
        proof {
            assert(sl@.subrange(0, n as int) =~= sl@);
            assert(out@ =~= old(out)@ + sl@.reverse());
        }
    } else {
        let mut t: usize = 0;
        while t < n
            invariant
                t <= n,
                n == sl@.len(),
                out@ == old(out)@ + sl@.take(t as int),
            decreases n - t,
        {
            out.push(sl[t]);
            t = t + 1;
            proof {
                assert(out@ =~= old(out)@ + sl@.take(t as int));
            }
        }
        proof {
            assert(out@ =~= old(out)@ + sl@);
        }
    }
}

/// One relaxation step: if routing the pair `(n1, n2)` through the
/// intermediate node `k` is strictly shorter than everything recorded so far,
/// adopt the new distance and rebuild the recorded path by splicing the two
/// legs around `k`, each read in walking order. Exactly realizes one level-
/// `k + 1` entry of the recurrence; every other pair is untouched.
fn relax<T: Copy>(
    m: &mut PathMatrix<T>,
    n: usize,
    edges: &Vec<Edge>,
    labels: &Vec<T>,
    k: usize,
    n1: usize,
    n2: usize,
)
    requires
        old(m).wf(),
        old(m).dim() == n,
        labels@.len() == n,
        n1 < n2,
        n2 < n,
        k < n,
        n1 != k,
        n2 != k,
        dist_matches(*old(m), edges@, n1 as int, k as int, k as int),
        dist_matches(*old(m), edges@, k as int, n2 as int, k as int),
        dist_matches(*old(m), edges@, n1 as int, n2 as int, k as int),
        path_matches(*old(m), edges@, labels@, n1 as int, n2 as int, k as int),
        (if n1 < k {
            path_matches(*old(m), edges@, labels@, n1 as int, k as int, k as int)
        } else {
            path_matches(*old(m), edges@, labels@, k as int, n1 as int, k as int)
        }),
        (if k < n2 {
            path_matches(*old(m), edges@, labels@, k as int, n2 as int, k as int)
        } else {
            path_matches(*old(m), edges@, labels@, n2 as int, k as int, k as int)
        }),
    ensures
        final(m).wf(),
        final(m).dim() == n,
        dist_matches(*final(m), edges@, n1 as int, n2 as int, k as int + 1),
        path_matches(*final(m), edges@, labels@, n1 as int, n2 as int, k as int + 1),
        forall|p: int, q: int|
            0 <= p < n && 0 <= q < n && !crate::matrices::same_pair(p, q, n1 as int, n2 as int)
                ==> #[trigger] final(m).entry(p, q) == old(m).entry(p, q),
{
    let ghost es = edges@;
    let ghost ki = k as int;
    let ghost i = n1 as int;
    let ghost j = n2 as int;
    let ghost f = label_of::<T>(labels@);
    proof {
        lemma_fw_symmetric(es, i, ki, ki);
        lemma_fw_symmetric(es, ki, j, ki);
        lemma_fw_bounded(es, i, ki, ki);
        lemma_fw_bounded(es, ki, j, ki);
        lemma_fw_bounded(es, i, j, ki);
    }
    let e1 = m.does_path_exist(n1, k);
    let e2 = m.does_path_exist(k, n2);
    if e1 && e2 {
        let part1 = m.get_path_len(n1, k);
        let part2 = m.get_path_len(k, n2);
        let cand = part1.saturating_add(part2);
        proof {
            assert(fw(es, i, ki, ki) == Some(part1 as nat));
            assert(fw(es, ki, j, ki) == Some(part2 as nat));
            assert(cand as nat == sat_add(part1 as nat, part2 as nat));
        }
        let improve = if m.does_path_exist(n1, n2) {
            cand < m.get_path_len(n1, n2)
        } else {
            true
        };
        proof {
            assert(improve == fw_improves(es, i, j, ki + 1));
            lemma_fw_step(es, i, j, ki + 1);
        }
        if improve {
            m.set_path_len(n1, n2, cand);
            let mut nodes: Vec<T> = Vec::new();
            let sl1 = m.get_path(n1, k).get_slice();
            extend_with_slice(&mut nodes, sl1, n1 > k);
            proof {
                if n1 < k {
                    assert(nodes@ == fw_seg(es, i, ki, ki).map_values(f));
                } else {
                    lemma_map_values_reverse(fw_path(es, ki, i, ki), f);
                    assert(nodes@ == fw_seg(es, i, ki, ki).map_values(f));
                }
            }
            nodes.push(labels[k]);
            let ghost first_leg = nodes@;
            proof {
                lemma_map_values_concat(fw_seg(es, i, ki, ki), seq![ki], f);
                assert(seq![ki].map_values(f) =~= seq![labels@[ki]]);
                assert(first_leg == (fw_seg(es, i, ki, ki) + seq![ki]).map_values(f));
            }
            let sl2 = m.get_path(k, n2).get_slice();
            extend_with_slice(&mut nodes, sl2, k > n2);
            proof {
                if ki < j {
                    assert(nodes@ == first_leg + fw_seg(es, ki, j, ki).map_values(f));
                } else {
                    lemma_map_values_reverse(fw_path(es, j, ki, ki), f);
                    assert(nodes@ == first_leg + fw_seg(es, ki, j, ki).map_values(f));
                }
                lemma_map_values_concat(
                    fw_seg(es, i, ki, ki) + seq![ki],
                    fw_seg(es, ki, j, ki),
                    f,
                );
                assert(nodes@ == (fw_seg(es, i, ki, ki) + seq![ki] + fw_seg(es, ki, j, ki))
                    .map_values(f));
                assert(fw_path(es, i, j, ki + 1) == fw_seg(es, i, ki, ki) + seq![ki] + fw_seg(
                    es,
                    ki,
                    j,
                    ki,
                ));
            }
            let p = m.get_path_mut(n1, n2);
            p.set_vector(nodes);
        } else {
            proof {
                assert(fw_path(es, i, j, ki + 1) == fw_path(es, i, j, ki));
            }
        }
    } else {
        proof {
            assert(!fw_improves(es, i, j, ki + 1));
            lemma_fw_step(es, i, j, ki + 1);
            assert(fw_path(es, i, j, ki + 1) == fw_path(es, i, j, ki));
        }
    }
}

/// The pair `(i, j)` holds exactly its level-`k` record: distance and path.
pub open spec fn pair_at_level<T>(
    m: PathMatrix<T>,
    es: Seq<Edge>,
    ls: Seq<T>,
    i: int,
    j: int,
    k: int,
) -> bool {
    dist_matches(m, es, i, j, k) && path_matches(m, es, ls, i, j, k)
}

/// After seeding, a pair holds its direct distance and no intermediate nodes.
pub open spec fn seed_matches<T>(m: PathMatrix<T>, es: Seq<Edge>, i: int, j: int) -> bool {
    dist_matches(m, es, i, j, 0) && m.entry(i, j).nodes == Seq::<T>::empty()
}

/// Whether the inner double loop of one relaxation pass has already handled
/// the canonical pair `(i, j)`, given its counters `(n1, n2)`.
pub open spec fn pair_done(i: int, j: int, n1: int, n2: int) -> bool {
    i < n1 || (i == n1 && j < n2)
}

/// The state of the matrix in the middle of the pass for intermediate node
/// `k`, with the loop counters at `(n1, n2)`: every canonical pair the pass
/// has already handled holds its level-`k + 1` record, every other pair still
/// holds its level-`k` record.
pub open spec fn pass_inv<T>(
    m: PathMatrix<T>,
    es: Seq<Edge>,
    ls: Seq<T>,
    n: int,
    k: int,
    n1: int,
    n2: int,
) -> bool {
    &&& forall|i: int, j: int|
        0 <= i < j < n && pair_done(i, j, n1, n2) ==> #[trigger] pair_at_level(
            m,
            es,
            ls,
            i,
            j,
            k + 1,
        )
    &&& forall|i: int, j: int|
        0 <= i < j < n && !pair_done(i, j, n1, n2) ==> #[trigger] pair_at_level(m, es, ls, i, j, k)
}

/// A skipped iteration of the inner loop keeps the pass state: either the
/// counters name no canonical pair, or the pair has `k` as an endpoint, which
/// the pass for `k` never changes.
proof fn lemma_pass_skip<T>(
    m: PathMatrix<T>,
    es: Seq<Edge>,
    ls: Seq<T>,
    n: int,
    k: int,
    n1: int,
    n2: int,
)
    requires
        pass_inv(m, es, ls, n, k, n1, n2),
        0 <= k < n,
        0 <= n1 < n,
        0 <= n2 < n,
        n1 < n2 ==> n1 == k || n2 == k,
    ensures
        pass_inv(m, es, ls, n, k, n1, n2 + 1),
{
    assert forall|i: int, j: int| 0 <= i < j < n && pair_done(i, j, n1, n2 + 1) implies #[trigger]
        pair_at_level(m, es, ls, i, j, k + 1) by {
        if pair_done(i, j, n1, n2) {
            assert(pair_at_level(m, es, ls, i, j, k + 1));
        } else {
            // The pair of this iteration: i == n1, j == n2, and k is one of
            // its endpoints.
            assert(pair_at_level(m, es, ls, i, j, k));
            lemma_k_pair_stable(es, if i == k { j } else { i }, k);
        }
    }
    assert forall|i: int, j: int| 0 <= i < j < n && !pair_done(i, j, n1, n2 + 1) implies #[trigger]
        pair_at_level(m, es, ls, i, j, k) by {
        assert(!pair_done(i, j, n1, n2));
        assert(pair_at_level(m, es, ls, i, j, k));
    }
}

/// A relaxation of the pair `(n1, n2)` advances the pass state by one: the
/// relaxed pair now holds its level-`k + 1` record and nothing else moved.
proof fn lemma_pass_relaxed<T>(
    m0: PathMatrix<T>,
    m: PathMatrix<T>,
    es: Seq<Edge>,
    ls: Seq<T>,
    n: int,
    k: int,
    n1: int,
    n2: int,
)
    requires
        pass_inv(m0, es, ls, n, k, n1, n2),
        0 <= k < n,
        0 <= n1 < n2 < n,
        n1 != k,
        n2 != k,
        dist_matches(m, es, n1, n2, k + 1),
        path_matches(m, es, ls, n1, n2, k + 1),
        forall|p: int, q: int|
            0 <= p < n && 0 <= q < n && !crate::matrices::same_pair(p, q, n1, n2)
                ==> #[trigger] m.entry(p, q) == m0.entry(p, q),
    ensures
        pass_inv(m, es, ls, n, k, n1, n2 + 1),
{
    assert forall|i: int, j: int| 0 <= i < j < n && pair_done(i, j, n1, n2 + 1) implies #[trigger]
        pair_at_level(m, es, ls, i, j, k + 1) by {
        if i == n1 && j == n2 {
            assert(pair_at_level(m, es, ls, i, j, k + 1));
        } else {
            assert(pair_done(i, j, n1, n2));
            assert(pair_at_level(m0, es, ls, i, j, k + 1));
            assert(m.entry(i, j) == m0.entry(i, j));
        }
    }
    assert forall|i: int, j: int| 0 <= i < j < n && !pair_done(i, j, n1, n2 + 1) implies #[trigger]
        pair_at_level(m, es, ls, i, j, k) by {
        assert(!pair_done(i, j, n1, n2));
        assert(pair_at_level(m0, es, ls, i, j, k));
        assert(m.entry(i, j) == m0.entry(i, j));
    }
}

/// In the middle of a pass, the slots of the legs `(n1, k)`, `(k, n2)` and of
/// the pair `(n1, n2)` itself all still hold level-`k` records: the pair is
/// not yet handled, and a pair with endpoint `k` is never changed by the pass.
proof fn lemma_relax_pre<T>(
    m: PathMatrix<T>,
    es: Seq<Edge>,
    ls: Seq<T>,
    n: int,
    k: int,
    n1: int,
    n2: int,
)
    requires
        pass_inv(m, es, ls, n, k, n1, n2),
        0 <= k < n,
        0 <= n1 < n2 < n,
        n1 != k,
        n2 != k,
    ensures
        dist_matches(m, es, n1, k, k),
        dist_matches(m, es, k, n2, k),
        dist_matches(m, es, n1, n2, k),
        path_matches(m, es, ls, n1, n2, k),
        n1 < k ==> path_matches(m, es, ls, n1, k, k),
        k < n1 ==> path_matches(m, es, ls, k, n1, k),
        k < n2 ==> path_matches(m, es, ls, k, n2, k),
        n2 < k ==> path_matches(m, es, ls, n2, k, k),
{
    lemma_k_pair_stable(es, n1, k);
    lemma_k_pair_stable(es, n2, k);
    lemma_fw_symmetric(es, n1, k, k);
    lemma_fw_symmetric(es, k, n2, k);
    if n1 < k {
        if pair_done(n1, k, n1, n2) {
            assert(pair_at_level(m, es, ls, n1, k, k + 1));
        } else {
            assert(pair_at_level(m, es, ls, n1, k, k));
        }
        assert(dist_matches(m, es, n1, k, k));
        assert(path_matches(m, es, ls, n1, k, k));
    } else {
        assert(pair_done(k, n1, n1, n2));
        assert(pair_at_level(m, es, ls, k, n1, k + 1));
        assert(dist_matches(m, es, n1, k, k));
        assert(path_matches(m, es, ls, k, n1, k));
    }
    if k < n2 {
        if pair_done(k, n2, n1, n2) {
            assert(pair_at_level(m, es, ls, k, n2, k + 1));
        } else {
            assert(pair_at_level(m, es, ls, k, n2, k));
        }
        assert(dist_matches(m, es, k, n2, k));
        assert(path_matches(m, es, ls, k, n2, k));
    } else {
        assert(!pair_done(n2, k, n1, n2));
        assert(pair_at_level(m, es, ls, n2, k, k));
        assert(dist_matches(m, es, k, n2, k));
        assert(path_matches(m, es, ls, n2, k, k));
    }
    assert(!pair_done(n1, n2, n1, n2));
    assert(pair_at_level(m, es, ls, n1, n2, k));
}

/// When the inner loop has walked all of `0 .. n`, the handled pairs of row
/// `n1` are exactly the handled pairs at the start of row `n1 + 1`.
proof fn lemma_pass_row_end<T>(m: PathMatrix<T>, es: Seq<Edge>, ls: Seq<T>, n: int, k: int, n1: int)
    requires
        pass_inv(m, es, ls, n, k, n1, n),
    ensures
        pass_inv(m, es, ls, n, k, n1 + 1, 0),
{
    assert forall|i: int, j: int| 0 <= i < j < n && pair_done(i, j, n1 + 1, 0) implies #[trigger]
        pair_at_level(m, es, ls, i, j, k + 1) by {
        assert(pair_done(i, j, n1, n));
        assert(pair_at_level(m, es, ls, i, j, k + 1));
    }
    assert forall|i: int, j: int| 0 <= i < j < n && !pair_done(i, j, n1 + 1, 0) implies #[trigger]
        pair_at_level(m, es, ls, i, j, k) by {
        assert(!pair_done(i, j, n1, n));
        assert(pair_at_level(m, es, ls, i, j, k));
    }
}

/// When the outer row loop has walked all of `0 .. n`, the pass for `k` is
/// complete: every pair holds its level-`k + 1` record, which is the starting
/// state of the pass for `k + 1`.
proof fn lemma_pass_end<T>(m: PathMatrix<T>, es: Seq<Edge>, ls: Seq<T>, n: int, k: int)
    requires
        pass_inv(m, es, ls, n, k, n, 0),
    ensures
        pass_inv(m, es, ls, n, k + 1, 0, 0),
{
    assert forall|i: int, j: int| 0 <= i < j < n && !pair_done(i, j, 0, 0) implies #[trigger]
        pair_at_level(m, es, ls, i, j, k + 1) by {
        assert(pair_done(i, j, n, 0));
        assert(pair_at_level(m, es, ls, i, j, k + 1));
    }
}

/// Computes the all-pairs shortest paths of the undirected graph with nodes
/// `0 .. n` and the given weighted edges, by the Floyd-Warshall algorithm in
/// O(n^3) runtime.
///
/// The returned matrix holds, for every node pair, exactly the distance of
/// the recurrence [`fw`] and the intermediate nodes of the recorded path
/// [`fw_path`] at level `n`, each node materialized as its label: a node's
/// distance to itself is zero, and a pair is marked connected if and only if
/// some route joins it. Where several edges join one pair the lightest wins,
/// and self-loops are ignored: they never shorten a route.
pub fn floyd_warshall<T: Copy>(n: usize, edges: &Vec<Edge>, labels: &Vec<T>) -> (m: PathMatrix<T>)
    requires
        labels@.len() == n,
        edges_in_bounds(edges@, n as int),
        tri(n as int) <= usize::MAX,
    ensures
        m.wf(),
        m.dim() == n,
        forall|v: int| 0 <= v < n ==> #[trigger] m.entry(v, v) == diag_model::<T>(),
        forall|i: int, j: int|
            0 <= i < n && 0 <= j < n && i != j ==> #[trigger] dist_matches(
                m,
                edges@,
                i,
                j,
                n as int,
            ),
        forall|i: int, j: int|
            0 <= i < j < n ==> #[trigger] path_matches(m, edges@, labels@, i, j, n as int),
{
    let ghost es = edges@;
    let ghost ls = labels@;
    let mut m = PathMatrix::<T>::new(n);

    // Each node has a distance of zero to itself.
    let mut v: usize = 0;
    while v < n
        invariant
            m.wf(),
            m.dim() == n,
            v <= n,
            tri(n as int) <= usize::MAX,
            forall|x: int| 0 <= x < v ==> #[trigger] m.entry(x, x) == diag_model::<T>(),
            forall|i: int, j: int|
                0 <= i < n && 0 <= j < n && !(i == j && i < v) ==> #[trigger] m.entry(i, j)
                    == initial_model::<T>(),
        decreases n - v,
    {
        m.set_path_len(v, v, 0);
        v = v + 1;
    }

    // Record the direct edges; where several edges join one pair, the
    // lightest wins, and self-loops are ignored.
    let mut t: usize = 0;
    while t < edges.len()
        invariant
            m.wf(),
            m.dim() == n,
            t <= es.len(),
            es == edges@,
            edges_in_bounds(es, n as int),
            tri(n as int) <= usize::MAX,
            forall|x: int| 0 <= x < n ==> #[trigger] m.entry(x, x) == diag_model::<T>(),
            forall|i: int, j: int|
                0 <= i < n && 0 <= j < n && i != j ==> #[trigger] seed_matches(
                    m,
                    es.take(t as int),
                    i,
                    j,
                ),
        decreases es.len() - t,
    {
        let ghost m0 = m;
        let ghost t0 = t as int;
        let e = edges[t];
        if e.u != e.v {
            let better = if m.does_path_exist(e.u, e.v) {
                e.w < m.get_path_len(e.u, e.v)
            } else {
                true
            };
            if better {
                m.set_path_len(e.u, e.v, e.w);
            }
        }
        t = t + 1;
        proof {
            assert(es.take(t0 + 1) =~= es.take(t0).push(e));
            assert forall|i: int, j: int| 0 <= i < n && 0 <= j < n && i != j implies #[trigger]
                seed_matches(m, es.take(t0 + 1), i, j) by {
                assert(seed_matches(m0, es.take(t0), i, j));
                crate::graph::lemma_direct_push(es.take(t0), e, i, j);
                if !crate::matrices::same_pair(i, j, e.u as int, e.v as int) {
                    assert(m.entry(i, j) == m0.entry(i, j));
                }
            }
        }
    }
    proof {
        assert(es.take(es.len() as int) =~= es);
        assert(Seq::<int>::empty().map_values(label_of::<T>(ls)) =~= Seq::<T>::empty());
        assert forall|i: int, j: int| 0 <= i < j < n && !pair_done(i, j, 0, 0) implies #[trigger]
            pair_at_level(m, es, ls, i, j, 0) by {
            assert(seed_matches(m, es.take(es.len() as int), i, j));
            assert(fw_path(es, i, j, 0) == Seq::<int>::empty());
        }
        assert(pass_inv(m, es, ls, n as int, 0, 0, 0));
    }

    // k is the intermediate node which is currently considered: after its
    // pass, every pair's record is the recurrence at level k + 1.
    let mut k: usize = 0;
    while k < n
        invariant
            m.wf(),
            m.dim() == n,
            k <= n,
            es == edges@,
            ls == labels@,
            ls.len() == n,
            edges_in_bounds(es, n as int),
            tri(n as int) <= usize::MAX,
            forall|x: int| 0 <= x < n ==> #[trigger] m.entry(x, x) == diag_model::<T>(),
            pass_inv(m, es, ls, n as int, k as int, 0, 0),
        decreases n - k,
    {
        let mut n1: usize = 0;
        while n1 < n
            invariant
                m.wf(),
                m.dim() == n,
                k < n,
                n1 <= n,
                es == edges@,
                ls == labels@,
                ls.len() == n,
                edges_in_bounds(es, n as int),
                tri(n as int) <= usize::MAX,
                forall|x: int| 0 <= x < n ==> #[trigger] m.entry(x, x) == diag_model::<T>(),
                pass_inv(m, es, ls, n as int, k as int, n1 as int, 0),
            decreases n - n1,
        {
            let mut n2: usize = 0;
            while n2 < n
                invariant
                    m.wf(),
                    m.dim() == n,
                    k < n,
                    n1 < n,
                    n2 <= n,
                    es == edges@,
                    ls == labels@,
                    ls.len() == n,
                    edges_in_bounds(es, n as int),
                    tri(n as int) <= usize::MAX,
                    forall|x: int| 0 <= x < n ==> #[trigger] m.entry(x, x) == diag_model::<T>(),
                    pass_inv(m, es, ls, n as int, k as int, n1 as int, n2 as int),
                decreases n - n2,
            {
                let ghost m0 = m;
                if n1 < n2 && n1 != k && n2 != k {
                    proof {
                        lemma_relax_pre(m, es, ls, n as int, k as int, n1 as int, n2 as int);
                    }
                    relax(&mut m, n, edges, labels, k, n1, n2);
                    proof {
                        lemma_pass_relaxed(
                            m0,
                            m,
                            es,
                            ls,
                            n as int,
                            k as int,
                            n1 as int,
                            n2 as int,
                        );
                        assert forall|x: int| 0 <= x < n implies #[trigger] m.entry(x, x)
                            == diag_model::<T>() by {
                            assert(m0.entry(x, x) == diag_model::<T>());
                        }
                    }
                } else {
                    proof {
                        lemma_pass_skip(m, es, ls, n as int, k as int, n1 as int, n2 as int);
                    }
                }
                n2 = n2 + 1;
            }
            proof {
                lemma_pass_row_end(m, es, ls, n as int, k as int, n1 as int);
            }
            n1 = n1 + 1;
        }
        proof {
            lemma_pass_end(m, es, ls, n as int, k as int);
        }
        k = k + 1;
    }

    // The matrix is symmetric, so both orders of every pair agree with the
    // recurrence.
    proof {
        assert forall|i: int, j: int| 0 <= i < j < n implies #[trigger] path_matches(
            m,
            es,
            ls,
            i,
            j,
            n as int,
        ) by {
            assert(!pair_done(i, j, 0, 0));
            assert(pair_at_level(m, es, ls, i, j, n as int));
        }
        assert forall|i: int, j: int| 0 <= i < n && 0 <= j < n && i != j implies #[trigger]
            dist_matches(m, es, i, j, n as int) by {
            if i < j {
                assert(pair_at_level(m, es, ls, i, j, n as int));
            } else {
                assert(pair_at_level(m, es, ls, j, i, n as int));
                lemma_fw_symmetric(es, i, j, n as int);
            }
        }
    }
    m
}

} // verus!
