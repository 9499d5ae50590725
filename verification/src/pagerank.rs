//! `TensorPageRank` — the link graph that PageRank's power iteration runs over.
//!
//! PageRank is the stationary distribution of the "random surfer" Markov chain on
//! a graph. The ranking itself is a floating-point power iteration; the graph it
//! runs over — nodes and out-links — is kept here, together with the link counts
//! that the column-stochastic transition matrix is built from (column `from` of
//! that matrix spreads one unit of mass over `from`'s out-links, or uniformly over
//! all nodes when `from` has none).

use crate::geometry::Geometry;
use vstd::prelude::*;

verus! {

/// How many times `x` occurs in `s`.
pub open spec fn count_occ(s: Seq<usize>, x: usize) -> nat
    decreases s.len(),
{
    if s.len() == 0 {
        0
    } else {
        count_occ(s.drop_last(), x) + (if s.last() == x { 1nat } else { 0nat })
    }
}

/// A value occurs at most as often as the sequence is long.
proof fn lemma_count_occ_le(s: Seq<usize>, x: usize)
    ensures
        count_occ(s, x) <= s.len(),
    decreases s.len(),
{
    if s.len() > 0 {
        lemma_count_occ_le(s.drop_last(), x);
    }
}

/// Cell `(t, f)` of an `n x n` grid sits at `t * n + f`, and distinct cells apart.
proof fn lemma_grid_cell(t: int, f: int, n: int)
    requires
        0 <= t < n,
        0 <= f < n,
    ensures
        0 <= t * n + f < n * n,
        forall|t2: int, f2: int| 0 <= t2 < n && 0 <= f2 < n && (t2 != t || f2 != f) ==> #[trigger] (t2 * n + f2) != t * n + f,
{
    assert(0 <= t * n + f < n * n) by (nonlinear_arith)
        requires 0 <= t < n, 0 <= f < n;
    assert forall|t2: int, f2: int| 0 <= t2 < n && 0 <= f2 < n && (t2 != t || f2 != f) implies #[trigger] (t2 * n + f2) != t * n + f by {
        if t2 == t {
        } else if t2 < t {
            assert(t2 * n + f2 < t * n + f) by (nonlinear_arith)
                requires t2 < t, 0 <= f2 < n, 0 <= f;
        } else {
            assert(t * n + f < t2 * n + f2) by (nonlinear_arith)
                requires t < t2, 0 <= f < n, 0 <= f2;
        }
    }
}

/// PageRank over a directed graph, by power iteration.
#[derive(Clone, Debug)]
pub struct TensorPageRank {
    n: usize,
    geom: Geometry,
    out: Vec<Vec<usize>>,
}

impl TensorPageRank {
    /// The invariant: one out-link list per node, every link to a node.
    pub closed spec fn wf(&self) -> bool {
        &&& self.out@.len() == self.n
        &&& self.geom == Geometry::tpu_v_spec()
        &&& forall|f: int, j: int| 0 <= f < self.n && 0 <= j < self.out@[f]@.len() ==> #[trigger] self.out@[f]@[j] < self.n
    }

    /// Number of nodes.
    pub closed spec fn spec_nodes(&self) -> usize {
        self.n
    }

    /// The out-links of each node, in insertion order (duplicates kept).
    pub closed spec fn spec_links(&self) -> Seq<Seq<usize>> {
        Seq::new(self.out@.len(), |i: int| self.out@[i]@)
    }

    /// The tile geometry used for the power-iteration matmuls.
    pub closed spec fn spec_geometry(&self) -> Geometry {
        self.geom
    }

    /// A well-formed engine holds one out-link list per node, and every link points
    /// at a node.
    pub proof fn lemma_links_shape(&self)
        requires
            self.wf(),
        ensures
            self.spec_links().len() == self.spec_nodes(),
            forall|f: int, j: int|
                0 <= f < self.spec_nodes() && 0 <= j < self.spec_links()[f].len() ==> #[trigger] self.spec_links()[f][j]
                    < self.spec_nodes(),
    {
        assert forall|f: int, j: int| 0 <= f < self.spec_nodes() && 0 <= j < self.spec_links()[f].len() implies #[trigger] self.spec_links()[f][j]
            < self.spec_nodes() by {
            assert(self.spec_links()[f] == self.out@[f]@);
        }
    }

    /// Create an `n`-node graph with no links.
    pub fn new(n: usize) -> (r: Self)
        ensures
            r.wf(),
            r.spec_nodes() == n,
            r.spec_links() == Seq::new(n as nat, |_i: int| Seq::<usize>::empty()),
            r.spec_geometry() == Geometry::tpu_v_spec(),
    {
        let mut out: Vec<Vec<usize>> = Vec::with_capacity(n);
        let mut i: usize = 0;
        while i < n
            invariant
                i <= n,
                out@.len() == i,
                forall|j: int| 0 <= j < i ==> (#[trigger] out@[j])@ == Seq::<usize>::empty(),
            decreases n - i,
        {
            out.push(Vec::new());
            i = i + 1;
        }
        let r = TensorPageRank { n, geom: Geometry::tpu_v(), out };
        proof {
            assert(r.spec_links() =~= Seq::new(n as nat, |_i: int| Seq::<usize>::empty()));
        }
        r
    }

    /// Number of nodes.
    pub fn nodes(&self) -> (r: usize)
        ensures
            r == self.spec_nodes(),
    {
        self.n
    }

    /// The tile geometry used for the power-iteration matmuls.
    pub fn geometry(&self) -> (g: Geometry)
        ensures
            g == self.spec_geometry(),
    {
        self.geom
    }

    /// The out-links of `from`, in insertion order.
    pub fn links(&self, from: usize) -> (r: &Vec<usize>)
        requires
            self.wf(),
            from < self.spec_nodes(),
        ensures
            r@ == self.spec_links()[from as int],
    {
        &self.out[from]
    }

    /// Add a directed link `from → to`.
    pub fn add_link(&mut self, from: usize, to: usize)
        requires
            old(self).wf(),
            from < old(self).spec_nodes() && to < old(self).spec_nodes(),
        ensures
            final(self).wf(),
            final(self).spec_nodes() == old(self).spec_nodes(),
            final(self).spec_geometry() == old(self).spec_geometry(),
            final(self).spec_links() == old(self).spec_links().update(
                from as int,
                old(self).spec_links()[from as int].push(to),
            ),
    {
        self.out[from].push(to);
        proof {
            assert(self.spec_links() =~= old(self).spec_links().update(
                from as int,
                old(self).spec_links()[from as int].push(to),
            ));
        }
    }

    /// The link counts behind the transition matrix, as an `n x n` row-major grid:
    /// entry `to * n + from` is how many of `from`'s out-links point at `to`.
    pub fn link_counts(&self) -> (counts: Vec<usize>)
        requires
            self.wf(),
            self.spec_nodes() * self.spec_nodes() <= usize::MAX,
        ensures
            counts@.len() == self.spec_nodes() * self.spec_nodes(),
            forall|to: int, from: int|
                0 <= to < self.spec_nodes() && 0 <= from < self.spec_nodes() ==> #[trigger] counts@[to * self.spec_nodes() + from]
                    == count_occ(self.spec_links()[from], to as usize),
    {
        let n = self.n;
        let mut counts: Vec<usize> = Vec::with_capacity(n * n);
        let mut z: usize = 0;
        while z < n * n
            invariant
                z <= n * n,
                n * n <= usize::MAX,
                counts@ == Seq::new(z as nat, |_q: int| 0usize),
            decreases n * n - z,
        {
            counts.push(0);
            z = z + 1;
        }
        proof {
            assert forall|t: int, g: int| 0 <= t < n && 0 <= g < n implies #[trigger] counts@[t * n + g] == 0 by {
                lemma_grid_cell(t, g, n as int);
            }
        }
        let mut f: usize = 0;
        while f < n
            invariant
                self.wf(),
                n == self.n,
                n * n <= usize::MAX,
                f <= n,
                counts@.len() == n * n,
                forall|t: int, g: int|
                    0 <= t < n && 0 <= g < n ==> #[trigger] counts@[t * n + g] == (if g < f {
                        count_occ(self.out@[g]@, t as usize)
                    } else {
                        0
                    }),
            decreases n - f,
        {
            let links = &self.out[f];
            let mut j: usize = 0;
            while j < links.len()
                invariant
                    self.wf(),
                    n == self.n,
                    n * n <= usize::MAX,
                    f < n,
                    links@ == self.out@[f as int]@,
                    j <= links@.len(),
                    counts@.len() == n * n,
                    forall|t: int, g: int|
                        0 <= t < n && 0 <= g < n ==> #[trigger] counts@[t * n + g] == (if g < f {
                            count_occ(self.out@[g]@, t as usize)
                        } else if g == f {
                            count_occ(links@.take(j as int), t as usize)
                        } else {
                            0
                        }),
                decreases links@.len() - j,
            {
                let t0 = links[j];
                proof {
                    lemma_grid_cell(t0 as int, f as int, n as int);
                    lemma_count_occ_le(links@.take(j as int), t0);
                    assert(counts@[t0 * n + f] == count_occ(links@.take(j as int), t0));
                }
                let idx = t0 * n + f;
                let c = counts[idx];
                counts.set(idx, c + 1);
                proof {
                    assert(links@.take(j as int + 1).drop_last() =~= links@.take(j as int));
                    assert forall|t: int, g: int| 0 <= t < n && 0 <= g < n implies #[trigger] counts@[t * n + g] == (if g < f {
                        count_occ(self.out@[g]@, t as usize)
                    } else if g == f {
                        count_occ(links@.take(j as int + 1), t as usize)
                    } else {
                        0
                    }) by {
                        lemma_grid_cell(t, g, n as int);
                    }
                }
                j = j + 1;
            }
            proof {
                assert(links@.take(links@.len() as int) =~= links@);
            }
            f = f + 1;
        }
        proof {
            assert forall|to: int, from: int| 0 <= to < n && 0 <= from < n implies #[trigger] counts@[to * n + from]
                == count_occ(self.spec_links()[from], to as usize) by {
                assert(self.spec_links()[from] == self.out@[from]@);
            }
        }
        counts
    }
}

} // verus!
