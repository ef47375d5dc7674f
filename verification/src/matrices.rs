//! Triangular-packed symmetric matrix of shortest-path records.
//!
//! An n x n symmetric matrix is stored in `tri(n) == n * (n + 1) / 2` slots,
//! one per unordered node pair: the pair `(i, j)` with `i <= j` lives at
//! offset `tri_idx(i, j) == tri(j) + i`, and a query for `(j, i)` is
//! canonicalized to the same slot. The packing is a bijection between the
//! canonical pairs below `n` and the offsets `0 .. tri(n)`.

use vstd::prelude::*;

verus! {

/// The number of slots a packed symmetric matrix of dimension `n` needs:
/// the `n`-th triangular number `n * (n + 1) / 2`.
pub open spec fn tri(n: int) -> int
    decreases n,
{
    if n <= 0 {
        0
    } else {
        tri(n - 1) + n
    }
}

/// The packed offset of the canonical pair `(i, j)` with `0 <= i <= j`:
/// column `j` occupies the `j + 1` offsets `tri(j) .. tri(j + 1)`.
pub open spec fn tri_idx(i: int, j: int) -> int {
    tri(j) + i
}

/// The packed offset of an arbitrary pair: both orders of a pair map to the
/// slot of its canonical form.
pub open spec fn pair_idx(i: int, j: int) -> int {
    if i <= j {
        tri_idx(i, j)
    } else {
        tri_idx(j, i)
    }
}

/// True when `(i, j)` and `(p, q)` denote the same unordered node pair.
pub open spec fn same_pair(i: int, j: int, p: int, q: int) -> bool {
    (i == p && j == q) || (i == q && j == p)
}

/// Both orders of a pair are packed into the same offset.
pub proof fn lemma_pair_idx_symmetric(i: int, j: int)
    ensures
        pair_idx(i, j) == pair_idx(j, i),
{
}

pub proof fn lemma_tri_nonneg(n: int)
    ensures
        tri(n) >= 0,
    decreases n,
{
    if n > 0 {
        lemma_tri_nonneg(n - 1);
    }
}

/// `tri` is monotonic.
pub proof fn lemma_tri_monotonic(a: int, b: int)
    requires
        a <= b,
    ensures
        tri(a) <= tri(b),
    decreases b - a,
{
    if a < b {
        lemma_tri_monotonic(a, b - 1);
        if b > 0 {
        } else {
        }
    }
}

/// Twice the triangular number is the product `n * (n + 1)`; this ties the
/// recursive definition to its closed form.
pub proof fn lemma_tri_closed_form(n: int)
    requires
        n >= 0,
    ensures
        2 * tri(n) == n * (n + 1),
    decreases n,
{
    if n > 0 {
        lemma_tri_closed_form(n - 1);
        let t1 = tri(n - 1);
        assert(2 * t1 == (n - 1) * n);
        assert(tri(n) == t1 + n);
        assert(2 * (t1 + n) == 2 * t1 + 2 * n);
        assert((n - 1) * n + 2 * n == n * (n + 1)) by (nonlinear_arith);
        assert(2 * tri(n) == n * (n + 1));
    } else {
        assert(n * (n + 1) == 0) by (nonlinear_arith)
            requires n == 0;
    }
}

/// Every canonical pair below `n` is packed into `0 .. tri(n)`.
pub proof fn lemma_tri_idx_in_range(i: int, j: int, n: int)
    requires
        0 <= i <= j < n,
    ensures
        0 <= tri_idx(i, j) < tri(n),
{
    lemma_tri_nonneg(j);
    assert(tri(j + 1) == tri(j) + j + 1);
    lemma_tri_monotonic(j + 1, n);
}

/// Distinct canonical pairs are packed into distinct offsets.
pub proof fn lemma_tri_idx_injective(i1: int, j1: int, i2: int, j2: int)
    requires
        0 <= i1 <= j1,
        0 <= i2 <= j2,
        tri_idx(i1, j1) == tri_idx(i2, j2),
    ensures
        i1 == i2 && j1 == j2,
{
    if j1 < j2 {
        lemma_tri_idx_in_range(i1, j1, j2);
        lemma_tri_nonneg(j2);
        assert(false);
    } else if j2 < j1 {
        lemma_tri_idx_in_range(i2, j2, j1);
        lemma_tri_nonneg(j1);
        assert(false);
    }
}

/// Every offset below `tri(n)` is the image of some canonical pair below `n`.
pub proof fn lemma_tri_idx_surjective(t: int, n: int)
    requires
        0 <= t < tri(n),
    ensures
        exists|i: int, j: int| 0 <= i <= j < n && tri_idx(i, j) == t,
    decreases n,
{
    if n > 0 {
        if t < tri(n - 1) {
            lemma_tri_idx_surjective(t, n - 1);
            let (i, j) = choose|i: int, j: int| 0 <= i <= j < n - 1 && tri_idx(i, j) == t;
            assert(0 <= i <= j < n && tri_idx(i, j) == t);
        } else {
            lemma_tri_nonneg(n - 1);
            let i = t - tri(n - 1);
            assert(0 <= i <= n - 1 < n && tri_idx(i, n - 1) == t);
        }
    } else {
        lemma_tri_nonneg(n);
    }
}

/// The model of one matrix slot: the recorded intermediate nodes of the best
/// known path for the pair (walking from the smaller endpoint to the larger),
/// its cached length, and whether any path has been recorded at all.
pub struct PathModel<T> {
    /// The intermediate nodes on the path, excluding the two endpoints.
    pub nodes: Seq<T>,
    /// The cached length: the sum of edge weights along the best known route.
    pub len: nat,
    /// Whether a route has been recorded; while `false`, `len` is the sentinel.
    pub found: bool,
}

/// A sequence of intermediate nodes together with a cached length; when
/// `found` is `false` the record means "no path found yet" and the length
/// holds the maximal sentinel.
#[derive(Clone, Debug)]
pub struct Path<T> {
    v: Vec<T>,
    len: usize,
    found: bool,
}

impl<T> View for Path<T> {
    type V = PathModel<T>;

    closed spec fn view(&self) -> PathModel<T> {
        PathModel { nodes: self.v@, len: self.len as nat, found: self.found }
    }
}

impl<T> Path<T> {
    /// Replaces the recorded intermediate nodes, keeping length and existence.
    pub(crate) fn set_vector(&mut self, t: Vec<T>)
        ensures
            final(self)@ == (PathModel { nodes: t@, ..old(self)@ }),
    {
        self.v = t;
    }

    /// Returns the intermediate nodes on this path as a slice.
    pub fn get_slice<'a>(&'a self) -> (r: &'a [T])
        ensures
            r@ == self@.nodes,
    {
        self.v.as_slice()
    }

    /// Returns the intermediate nodes on this path as an owned vector, in the
    /// same canonical order as [`Path::get_slice`].
    pub fn iter(&self) -> (r: Vec<T>) where T: Copy
        ensures
            r@ == self@.nodes,
    {
        let mut r: Vec<T> = Vec::new();
        let sl = self.v.as_slice();
        let mut t: usize = 0;
        while t < sl.len()
            invariant
                t <= sl.len(),
                sl@ == self@.nodes,
                r@ == sl@.take(t as int),
            decreases sl.len() - t,
        {
            r.push(sl[t]);
            t = t + 1;
            assert(r@ =~= sl@.take(t as int));
        }
        assert(r@ =~= sl@);
        r
    }

    /// Returns the cached length of this path. The path must exist.
    pub fn len(&self) -> (r: usize)
        requires
            self@.found,
        ensures
            r == self@.len,
    {
        self.len
    }

    /// Updates the cached length of this path, and marks the path as existing.
    pub(crate) fn set_len(&mut self, v: usize)
        ensures
            final(self)@ == (PathModel { len: v as nat, found: true, ..old(self)@ }),
    {
        self.len = v;
        self.found = true;
    }

    /// Has this path finite length?
    pub fn does_exist(&self) -> (r: bool)
        ensures
            r == self@.found,
    {
        self.found
    }
}

impl<T> Default for Path<T> {
    /// The initial record: no intermediate nodes, the maximal length sentinel,
    /// and no path found yet.
    fn default() -> (p: Self)
        ensures
            p@ == (PathModel { nodes: Seq::<T>::empty(), len: usize::MAX as nat, found: false }),
    {
        let p = Path { v: Vec::new(), len: usize::MAX, found: false };
        proof {
            assert(p@.nodes =~= Seq::<T>::empty());
        }
        p
    }
}

/// A solution to the all-pairs-shortest-paths problem: for every unordered
/// node pair it holds the best known distance and the intermediate nodes of
/// one shortest path, in one triangular-packed slot per pair.
#[derive(Debug)]
pub struct PathMatrix<T> {
    m: Vec<Path<T>>,
    n: usize,
}

impl<T> PathMatrix<T> {
    /// The dimension `n`: node identifiers range over `0 .. n`.
    pub closed spec fn dim(&self) -> nat {
        self.n as nat
    }

    /// The models of the packed slots, in offset order.
    pub closed spec fn slots(&self) -> Seq<PathModel<T>> {
        self.m@.map_values(|p: Path<T>| p@)
    }

    /// Structural invariant: exactly one slot per unordered pair below `dim()`.
    pub open spec fn wf(&self) -> bool {
        &&& self.slots().len() == tri(self.dim() as int)
        &&& tri(self.dim() as int) <= usize::MAX
    }

    /// The record stored for the pair `(i, j)`; both orders of a pair observe
    /// the same record, whose `nodes` walk from the smaller endpoint to the
    /// larger one.
    pub open spec fn entry(&self, i: int, j: int) -> PathModel<T> {
        self.slots()[pair_idx(i, j)]
    }

    /// Computes the exact triangular number `tri(j)` without overflow.
    fn triangular(j: usize) -> (t: usize)
        requires
            tri(j as int) <= usize::MAX,
        ensures
            t == tri(j as int),
    {
        proof {
            lemma_tri_closed_form(j as int);
            lemma_tri_nonneg(j as int);
        }
        if j % 2 == 0 {
            let h = j / 2;
            proof {
                assert(2 * (h as int) == j as int);
                assert(2 * ((h as int) * (j as int + 1)) == (j as int) * (j as int + 1))
                    by (nonlinear_arith)
                    requires 2 * (h as int) == j as int;
            }
            h * (j + 1)
        } else {
            let h = (j - 1) / 2 + 1;
            proof {
                assert(2 * (h as int) == j as int + 1);
                assert(2 * ((j as int) * (h as int)) == (j as int) * (j as int + 1))
                    by (nonlinear_arith)
                    requires 2 * (h as int) == j as int + 1;
            }
            j * h
        }
    }

    /// Creates a new `PathMatrix` with the given dimension, where no paths
    /// were found yet: every pair holds the default (non-existing) record.
    pub fn new(n: usize) -> (m: PathMatrix<T>)
        requires
            tri(n as int) <= usize::MAX,
        ensures
            m.wf(),
            m.dim() == n,
            forall|i: int, j: int|
                0 <= i < n && 0 <= j < n ==> #[trigger] m.entry(i, j) == (PathModel {
                    nodes: Seq::<T>::empty(),
                    len: usize::MAX as nat,
                    found: false,
                }),
    {
        let n_elems = Self::triangular(n);
        let mut m: Vec<Path<T>> = Vec::new();
        while m.len() < n_elems
            invariant
                m@.len() <= n_elems,
                forall|t: int|
                    0 <= t < m@.len() ==> #[trigger] m@[t]@ == (PathModel {
                        nodes: Seq::<T>::empty(),
                        len: usize::MAX as nat,
                        found: false,
                    }),
            decreases n_elems - m.len(),
        {
            m.push(Path::default());
        }
        let r = PathMatrix { m, n };
        proof {
            assert forall|i: int, j: int| 0 <= i < n && 0 <= j < n implies #[trigger] r.entry(i, j)
                == (PathModel { nodes: Seq::<T>::empty(), len: usize::MAX as nat, found: false })
            by {
                if i <= j {
                    lemma_tri_idx_in_range(i, j, n as int);
                } else {
                    lemma_tri_idx_in_range(j, i, n as int);
                }
            }
        }
        r
    }

    /// Computes the packed offset of the slot shared by `(i, j)` and `(j, i)`.
    fn idx(&self, i: usize, j: usize) -> (r: usize)
        requires
            self.wf(),
            i < self.dim(),
            j < self.dim(),
        ensures
            r == pair_idx(i as int, j as int),
            r < tri(self.dim() as int),
    {
        let (a, b) = if i > j {
            (j, i)
        } else {
            (i, j)
        };
        proof {
            lemma_tri_idx_in_range(a as int, b as int, self.dim() as int);
            lemma_tri_monotonic(b as int, self.dim() as int);
            lemma_tri_nonneg(b as int);
        }
        let t = Self::triangular(b);
        t + a
    }

    /// This method returns the distance recorded for the pair `(i, j)`.
    /// The pair must have a recorded path.
    pub fn get_path_len(&self, i: usize, j: usize) -> (r: usize)
        requires
            self.wf(),
            i < self.dim(),
            j < self.dim(),
            self.entry(i as int, j as int).found,
        ensures
            r == self.entry(i as int, j as int).len,
    {
        let idx = self.idx(i, j);
        self.m[idx].len()
    }

    /// This method returns the record for the pair `(i, j)`; its intermediate
    /// nodes walk from the smaller endpoint to the larger one.
    pub fn get_path(&self, i: usize, j: usize) -> (r: &Path<T>)
        requires
            self.wf(),
            i < self.dim(),
            j < self.dim(),
        ensures
            r@ == self.entry(i as int, j as int),
    {
        let idx = self.idx(i, j);
        &self.m[idx]
    }

    /// This method returns the intermediate nodes for the pair `(i, j)` as an
    /// owned vector, in the canonical smaller-to-larger walking order; a
    /// caller traversing from the larger endpoint must reverse it.
    pub fn get_path_iter(&self, i: usize, j: usize) -> (r: Vec<T>) where T: Copy
        requires
            self.wf(),
            i < self.dim(),
            j < self.dim(),
        ensures
            r@ == self.entry(i as int, j as int).nodes,
    {
        let idx = self.idx(i, j);
        self.m[idx].iter()
    }

    /// If the matrix contains a path between `i` and `j` (which means, it has
    /// a set length), this returns true.
    pub fn does_path_exist(&self, i: usize, j: usize) -> (r: bool)
        requires
            self.wf(),
            i < self.dim(),
            j < self.dim(),
        ensures
            r == self.entry(i as int, j as int).found,
    {
        let idx = self.idx(i, j);
        self.m[idx].does_exist()
    }

    /// Returns a mutable reference to the path record for the pair `(i, j)`;
    /// every other pair keeps its record.
    pub(crate) fn get_path_mut(&mut self, i: usize, j: usize) -> (r: &mut Path<T>)
        requires
            old(self).wf(),
            i < old(self).dim(),
            j < old(self).dim(),
        ensures
            final(self).wf(),
            final(self).dim() == old(self).dim(),
            r@ == old(self).entry(i as int, j as int),
            final(self).entry(i as int, j as int) == final(r)@,
            forall|p: int, q: int|
                0 <= p < old(self).dim() && 0 <= q < old(self).dim() && !same_pair(
                    p,
                    q,
                    i as int,
                    j as int,
                ) ==> #[trigger] final(self).entry(p, q) == old(self).entry(p, q),
    {
        let idx = self.idx(i, j);
        proof {
            lemma_pair_idx_separates(i as int, j as int, self.dim() as int);
        }
        &mut self.m[idx]
    }

    /// This method updates the distance recorded for the pair `(i, j)` and
    /// marks the pair as connected; the recorded intermediate nodes and every
    /// other pair are untouched.
    pub fn set_path_len(&mut self, i: usize, j: usize, v: usize)
        requires
            old(self).wf(),
            i < old(self).dim(),
            j < old(self).dim(),
        ensures
            final(self).wf(),
            final(self).dim() == old(self).dim(),
            final(self).entry(i as int, j as int) == (PathModel {
                len: v as nat,
                found: true,
                ..old(self).entry(i as int, j as int)
            }),
            forall|p: int, q: int|
                0 <= p < old(self).dim() && 0 <= q < old(self).dim() && !same_pair(
                    p,
                    q,
                    i as int,
                    j as int,
                ) ==> #[trigger] final(self).entry(p, q) == old(self).entry(p, q),
    {
        let r = self.get_path_mut(i, j);
        r.set_len(v);
    }
}

/// Writing the slot of the pair `(i, j)` leaves the slot of every pair that is
/// not `(i, j)` or `(j, i)` untouched, because the packing is injective.
proof fn lemma_pair_idx_separates(i: int, j: int, n: int)
    requires
        0 <= i < n,
        0 <= j < n,
    ensures
        forall|p: int, q: int|
            0 <= p < n && 0 <= q < n && !same_pair(p, q, i, j) ==> #[trigger] pair_idx(p, q)
                != pair_idx(i, j),
        forall|p: int, q: int| 0 <= p < n && 0 <= q < n ==> 0 <= #[trigger] pair_idx(p, q) < tri(
            n,
        ),
{
    let ci = if i <= j { i } else { j };
    let cj = if i <= j { j } else { i };
    lemma_tri_idx_in_range(ci, cj, n);
    assert forall|p: int, q: int| 0 <= p < n && 0 <= q < n implies 0 <= #[trigger] pair_idx(p, q)
        < tri(n) by {
        let cp = if p <= q { p } else { q };
        let cq = if p <= q { q } else { p };
        lemma_tri_idx_in_range(cp, cq, n);
    }
    assert forall|p: int, q: int|
        0 <= p < n && 0 <= q < n && !same_pair(p, q, i, j) implies #[trigger] pair_idx(p, q)
        != pair_idx(i, j) by {
        let cp = if p <= q { p } else { q };
        let cq = if p <= q { q } else { p };
        if pair_idx(p, q) == pair_idx(i, j) {
            lemma_tri_idx_injective(cp, cq, ci, cj);
        }
    }
}

} // verus!
