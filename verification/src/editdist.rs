//! `TensorEditDistance` — Levenshtein distance as a tropical (min-plus) matmul.
//!
//! Edit distance is a shortest path. Lay the two strings out as a grid where node
//! `(i, j)` means "aligned `a[..i]` with `b[..j]`", and add edges:
//!
//! - `(i, j) → (i+1, j)` cost 1 (delete `a[i]`),
//! - `(i, j) → (i, j+1)` cost 1 (insert `b[j]`),
//! - `(i, j) → (i+1, j+1)` cost 0 if `a[i] == b[j]` else 1 (match / substitute).
//!
//! The edit distance is then the shortest path from `(0,0)` to `(m,n)`. Shortest
//! paths over the tropical semiring (`⊕ = min`, `⊗ = +`) are matrix products, so
//! relaxing the whole grid is a sequence of tropical vector–matrix matmuls
//! ([`crate::semiring`]) — Bellman–Ford expressed as min-plus GEMV.

use crate::geometry::Geometry;
use crate::lattice::PaddedTileLattice;
use crate::semiring::{dot, matmul_spec, sat_add, semiring_matmul, Semiring, Tropical};
use crate::shape::{lemma_shape_fits_mono, shape_fits};
use vstd::arithmetic::div_mod::*;
use vstd::prelude::*;
use vstd::string::StringSliceAdditionalSpecFns;

verus! {

broadcast use PaddedTileLattice::lemma_view_dims;

/// The smallest of three naturals.
pub open spec fn min3(x: nat, y: nat, z: nat) -> nat {
    if x <= y && x <= z {
        x
    } else if y <= z {
        y
    } else {
        z
    }
}

/// The Levenshtein distance between the prefixes `a[..i]` and `b[..j]`: the least
/// number of single-byte deletions, insertions and substitutions turning one into
/// the other.
pub open spec fn lev(a: Seq<u8>, b: Seq<u8>, i: nat, j: nat) -> nat
    decreases i + j,
{
    if i == 0 {
        j
    } else if j == 0 {
        i
    } else {
        min3(
            lev(a, b, (i - 1) as nat, j) + 1,
            lev(a, b, i, (j - 1) as nat) + 1,
            lev(a, b, (i - 1) as nat, (j - 1) as nat) + (if a[i - 1] == b[j - 1] { 0nat } else { 1nat }),
        )
    }
}

/// The Levenshtein distance between `a` and `b`.
pub open spec fn levenshtein(a: Seq<u8>, b: Seq<u8>) -> nat {
    lev(a, b, a.len(), b.len())
}

/// Prefix distances are symmetric: turning `a[..i]` into `b[..j]` costs what
/// turning `b[..j]` into `a[..i]` does.
proof fn lemma_lev_symmetric(a: Seq<u8>, b: Seq<u8>, i: nat, j: nat)
    ensures
        lev(a, b, i, j) == lev(b, a, j, i),
    decreases i + j,
{
    if i > 0 && j > 0 {
        lemma_lev_symmetric(a, b, (i - 1) as nat, j);
        lemma_lev_symmetric(a, b, i, (j - 1) as nat);
        lemma_lev_symmetric(a, b, (i - 1) as nat, (j - 1) as nat);
    }
}

/// The symmetry law: the edit distance from `a` to `b` is the edit distance from
/// `b` to `a`.
pub proof fn lemma_levenshtein_symmetric(a: Seq<u8>, b: Seq<u8>)
    ensures
        levenshtein(a, b) == levenshtein(b, a),
{
    lemma_lev_symmetric(a, b, a.len(), b.len());
}

/// The cost of the alignment-grid edge from node `u` to node `v` (nodes numbered
/// `i * cols + j`): `0` to stay put, `1` to delete or insert, `0` or `1` to match
/// or substitute, and `+∞` where there is no edge.
pub open spec fn edge_cost_spec(a: Seq<u8>, b: Seq<u8>, cols: int, u: int, v: int) -> u64 {
    let ui = u / cols;
    let uj = u % cols;
    let vi = v / cols;
    let vj = v % cols;
    if u == v {
        0
    } else if vi == ui + 1 && vj == uj + 1 {
        if a[ui] == b[uj] {
            0
        } else {
            1
        }
    } else if (vi == ui + 1 && vj == uj) || (vi == ui && vj == uj + 1) {
        1
    } else {
        u64::MAX
    }
}

/// The tropical adjacency matrix of the alignment grid of `a` and `b`.
pub open spec fn grid_adjacency(a: Seq<u8>, b: Seq<u8>) -> Seq<Seq<u64>> {
    let cols: int = (b.len() + 1) as int;
    let nodes: int = (a.len() + 1) as int * cols;
    Seq::new(nodes as nat, |u: int| Seq::new(nodes as nat, |v: int| edge_cost_spec(a, b, cols, u, v)))
}

/// One Bellman–Ford relaxation: `d ⊗ adj` over min-plus.
pub open spec fn relax(d: Seq<u64>, adj: Seq<Seq<u64>>) -> Seq<u64> {
    Seq::new(d.len(), |v: int| dot::<Tropical>(seq![d], adj, 0, v, d.len()))
}

/// The distance vector after `t` relaxations from the source node `0`.
pub open spec fn relaxed(a: Seq<u8>, b: Seq<u8>, t: nat) -> Seq<u64>
    decreases t,
{
    if t == 0 {
        let nodes = (a.len() + 1) * (b.len() + 1);
        Seq::new(nodes as nat, |v: int| if v == 0 { 0u64 } else { u64::MAX })
    } else {
        relax(relaxed(a, b, (t - 1) as nat), grid_adjacency(a, b))
    }
}

/// A min-plus dot product is no larger than any of its terms.
proof fn lemma_dot_le(a: Seq<Seq<u64>>, b: Seq<Seq<u64>>, v: int, k: nat, q: int)
    requires
        0 <= q < k,
    ensures
        dot::<Tropical>(a, b, 0, v, k) <= sat_add(a[0][q], b[q][v]),
    decreases k,
{
    if q < k - 1 {
        lemma_dot_le(a, b, v, (k - 1) as nat, q);
    }
}

/// A min-plus dot product whose every term is at least `lo` is at least `lo`.
proof fn lemma_dot_ge(a: Seq<Seq<u64>>, b: Seq<Seq<u64>>, v: int, k: nat, lo: int)
    requires
        lo <= u64::MAX,
        forall|q: int| 0 <= q < k ==> sat_add(a[0][q], #[trigger] b[q][v]) >= lo,
    ensures
        dot::<Tropical>(a, b, 0, v, k) >= lo,
    decreases k,
{
    if k > 0 {
        lemma_dot_ge(a, b, v, (k - 1) as nat, lo);
    }
}

/// Node `i * cols + j` decodes back to `(i, j)`.
proof fn lemma_node(i: int, j: int, cols: int)
    requires
        0 <= i,
        0 <= j < cols,
    ensures
        (i * cols + j) / cols == i,
        (i * cols + j) % cols == j,
        0 <= i * cols + j,
{
    lemma_fundamental_div_mod_converse(i * cols + j, cols, i, j);
    assert(0 <= i * cols) by (nonlinear_arith)
        requires
            0 <= i,
            0 < cols,
    ;
}

/// A node below `rows * cols` decodes to a grid coordinate.
proof fn lemma_node_range(u: int, rows: int, cols: int)
    requires
        0 <= u < rows * cols,
        cols > 0,
    ensures
        0 <= u / cols < rows,
        0 <= u % cols < cols,
        u == (u / cols) * cols + u % cols,
{
    lemma_fundamental_div_mod(u, cols);
    lemma_mod_pos_bound(u, cols);
    lemma_div_pos_is_pos(u, cols);
    assert(u / cols < rows) by (nonlinear_arith)
        requires
            u == cols * (u / cols) + u % cols,
            0 <= u % cols,
            u < rows * cols,
            cols > 0,
    ;
    assert(u == (u / cols) * cols + u % cols) by (nonlinear_arith)
        requires
            u == cols * (u / cols) + u % cols,
    ;
}

/// Each grid step changes the edit distance by at most its edge cost, and the
/// distance is bounded by `i + j`.
proof fn lemma_lev_steps(a: Seq<u8>, b: Seq<u8>, i: nat, j: nat)
    ensures
        lev(a, b, i, j) <= i + j,
        lev(a, b, i + 1, j) <= lev(a, b, i, j) + 1,
        lev(a, b, i, j + 1) <= lev(a, b, i, j) + 1,
        lev(a, b, i + 1, j + 1) <= lev(a, b, i, j) + (if a[i as int] == b[j as int] { 0nat } else { 1nat }),
    decreases i + j,
{
    if i > 0 && j > 0 {
        lemma_lev_steps(a, b, (i - 1) as nat, j);
    } else if i > 0 {
        lemma_lev_steps(a, b, (i - 1) as nat, j);
    } else if j > 0 {
        lemma_lev_steps(a, b, i, (j - 1) as nat);
    }
}

/// Every relaxation has the full node count.
proof fn lemma_relaxed_len(a: Seq<u8>, b: Seq<u8>, t: nat)
    ensures
        relaxed(a, b, t).len() == (a.len() + 1) * (b.len() + 1),
    decreases t,
{
    if t > 0 {
        lemma_relaxed_len(a, b, (t - 1) as nat);
    }
}

/// Lower bound: no relaxation ever reports less than the edit distance.
proof fn lemma_relaxed_lower(a: Seq<u8>, b: Seq<u8>, t: nat, v: int)
    requires
        a.len() + b.len() < u64::MAX,
        0 <= v < (a.len() + 1) * (b.len() + 1),
    ensures
        relaxed(a, b, t)[v] >= lev(a, b, (v / ((b.len() + 1) as int)) as nat, (v % ((b.len() + 1) as int)) as nat),
    decreases t,
{
    let cols: int = (b.len() + 1) as int;
    let rows: int = (a.len() + 1) as int;
    let nodes: int = rows * cols;
    lemma_node_range(v, rows, cols);
    let vi = v / cols;
    let vj = v % cols;
    lemma_lev_steps(a, b, vi as nat, vj as nat);
    lemma_relaxed_len(a, b, t);
    if t == 0 {
        if v == 0 {
            lemma_node(0, 0, cols);
        }
    } else {
        let prev = relaxed(a, b, (t - 1) as nat);
        let adj = grid_adjacency(a, b);
        lemma_relaxed_len(a, b, (t - 1) as nat);
        let target = lev(a, b, vi as nat, vj as nat);
        lemma_lev_steps(a, b, vi as nat, vj as nat);
        assert forall|q: int| 0 <= q < nodes implies sat_add(seq![prev][0][q], #[trigger] adj[q][v])
            >= target by {
            lemma_node_range(q, rows, cols);
            let qi = q / cols;
            let qj = q % cols;
            lemma_relaxed_lower(a, b, (t - 1) as nat, q);
            lemma_lev_steps(a, b, qi as nat, qj as nat);
            if q == v {
            } else if vi == qi + 1 && vj == qj + 1 {
            } else if vi == qi + 1 && vj == qj {
            } else if vi == qi && vj == qj + 1 {
            }
        }
        lemma_dot_ge(seq![prev], adj, v, prev.len(), target as int);
    }
}

/// Relaxing never increases a distance (every node has a zero-cost self loop).
proof fn lemma_relaxed_mono(a: Seq<u8>, b: Seq<u8>, t: nat, v: int)
    requires
        0 <= v < (a.len() + 1) * (b.len() + 1),
    ensures
        relaxed(a, b, t + 1)[v] <= relaxed(a, b, t)[v],
{
    lemma_relaxed_len(a, b, t);
    lemma_dot_le(seq![relaxed(a, b, t)], grid_adjacency(a, b), v, relaxed(a, b, t).len(), v);
}

/// The source stays at distance zero.
proof fn lemma_relaxed_source(a: Seq<u8>, b: Seq<u8>, t: nat)
    ensures
        relaxed(a, b, t)[0] == 0,
    decreases t,
{
    assert(0 < (a.len() + 1) * (b.len() + 1)) by (nonlinear_arith);
    if t > 0 {
        lemma_relaxed_source(a, b, (t - 1) as nat);
        lemma_relaxed_mono(a, b, (t - 1) as nat, 0);
    }
}

/// Upper bound: after `i + j` relaxations node `(i, j)` has found a path as short
/// as the edit distance.
proof fn lemma_relaxed_upper(a: Seq<u8>, b: Seq<u8>, i: nat, j: nat, t: nat)
    requires
        i <= a.len(),
        j <= b.len(),
        t >= i + j,
    ensures
        relaxed(a, b, t)[(i * (b.len() + 1) + j) as int] <= lev(a, b, i, j),
    decreases i + j,
{
    let cols: int = (b.len() + 1) as int;
    let rows: int = (a.len() + 1) as int;
    let nodes: int = rows * cols;
    let v: int = i * cols + j;
    lemma_node(i as int, j as int, cols as int);
    assert(v < nodes) by (nonlinear_arith)
        requires
            v == i * cols + j,
            i < rows,
            j < cols,
            nodes == rows * cols,
    ;
    if i == 0 && j == 0 {
        lemma_relaxed_source(a, b, t);
    } else {
        let prev = relaxed(a, b, (t - 1) as nat);
        let adj = grid_adjacency(a, b);
        lemma_relaxed_len(a, b, (t - 1) as nat);
        // The predecessor that realises the minimum in the recurrence for lev.
        let (pi, pj) = if i == 0 {
            (0nat, (j - 1) as nat)
        } else if j == 0 {
            ((i - 1) as nat, 0nat)
        } else {
            let del = lev(a, b, (i - 1) as nat, j) + 1;
            let ins = lev(a, b, i, (j - 1) as nat) + 1;
            let sub = lev(a, b, (i - 1) as nat, (j - 1) as nat) + (if a[i - 1] == b[j - 1] { 0nat } else { 1nat });
            if del <= ins && del <= sub {
                ((i - 1) as nat, j)
            } else if ins <= sub {
                (i, (j - 1) as nat)
            } else {
                ((i - 1) as nat, (j - 1) as nat)
            }
        };
        let q: int = pi * cols + pj;
        lemma_node(pi as int, pj as int, cols as int);
        assert(q < nodes) by (nonlinear_arith)
            requires
                q == pi * cols + pj,
                pi < rows,
                pj < cols,
                nodes == rows * cols,
        ;
        lemma_relaxed_upper(a, b, pi, pj, (t - 1) as nat);
        lemma_lev_steps(a, b, pi, pj);
        lemma_dot_le(seq![prev], adj, v, prev.len(), q);
        assert(q != v);
    }
}

/// The edit distance is reached once every grid path fits in the relaxation count.
proof fn lemma_relaxed_exact(a: Seq<u8>, b: Seq<u8>, t: nat)
    requires
        a.len() + b.len() < u64::MAX,
        t >= a.len() + b.len(),
    ensures
        relaxed(a, b, t)[(a.len() * (b.len() + 1) + b.len()) as int] == levenshtein(a, b),
{
    lemma_relaxed_upper(a, b, a.len(), b.len(), t);
    let cols: int = (b.len() + 1) as int;
    let v: int = a.len() * cols + b.len();
    lemma_node(a.len() as int, b.len() as int, cols as int);
    assert(v < (a.len() + 1) * cols) by (nonlinear_arith)
        requires
            v == a.len() * cols + b.len(),
            b.len() < cols,
    ;
    lemma_relaxed_lower(a, b, t, v);
}

/// A fixed point of relaxation stays fixed.
proof fn lemma_relaxed_fixed(a: Seq<u8>, b: Seq<u8>, t: nat, t2: nat)
    requires
        relaxed(a, b, t + 1) == relaxed(a, b, t),
        t <= t2,
    ensures
        relaxed(a, b, t2) == relaxed(a, b, t),
    decreases t2 - t,
{
    if t2 > t {
        lemma_relaxed_fixed(a, b, t, (t2 - 1) as nat);
    }
}

/// Levenshtein edit distance computed by tropical matrix multiply.
#[derive(Clone, Copy, Debug)]
pub struct TensorEditDistance {
    geom: Geometry,
}

impl Default for TensorEditDistance {
    fn default() -> (r: Self)
        ensures
            r.spec_geometry() == Geometry::tpu_v_spec(),
    {
        TensorEditDistance { geom: Geometry::tpu_v() }
    }
}

/// The cost of the grid edge `u → v`, as [`edge_cost_spec`] states it.
fn edge_cost(a: &[u8], b: &[u8], cols: usize, u: usize, v: usize) -> (c: u64)
    requires
        cols == b@.len() + 1,
        (a@.len() + 1) * cols <= usize::MAX,
        u < (a@.len() + 1) * cols,
        v < (a@.len() + 1) * cols,
    ensures
        c == edge_cost_spec(a@, b@, cols as int, u as int, v as int),
{
    proof {
        lemma_node_range(u as int, (a@.len() + 1) as int, cols as int);
        lemma_node_range(v as int, (a@.len() + 1) as int, cols as int);
    }
    let ui = u / cols;
    let uj = u % cols;
    let vi = v / cols;
    let vj = v % cols;
    if u == v {
        0
    } else if vi == ui + 1 && vj == uj + 1 {
        if a[ui] == b[uj] {
            0
        } else {
            1
        }
    } else if (vi == ui + 1 && vj == uj) || (vi == ui && vj == uj + 1) {
        1
    } else {
        u64::MAX
    }
}

/// Whether two vectors hold the same elements.
fn same_vec(x: &Vec<u64>, y: &Vec<u64>) -> (r: bool)
    ensures
        r == (x@ == y@),
{
    if x.len() != y.len() {
        return false;
    }
    let mut i: usize = 0;
    while i < x.len()
        invariant
            i <= x@.len(),
            x@.len() == y@.len(),
            forall|k: int| 0 <= k < i ==> x@[k] == y@[k],
        decreases x@.len() - i,
    {
        if x[i] != y[i] {
            return false;
        }
        i = i + 1;
    }
    assert(x@ =~= y@);
    true
}

impl TensorEditDistance {
    /// The tile geometry used for the matmuls.
    pub closed spec fn spec_geometry(&self) -> Geometry {
        self.geom
    }

    /// Create an edit-distance engine with the default tile geometry.
    pub fn new() -> (r: Self)
        ensures
            r.spec_geometry() == Geometry::tpu_v_spec(),
    {
        TensorEditDistance::default()
    }

    /// The Levenshtein distance between `a` and `b`, as the shortest path through
    /// the alignment grid, found by iterating a tropical (min-plus) matmul.
    pub fn distance(&self, a: &[u8], b: &[u8]) -> (d: usize)
        requires
            self.spec_geometry().wf(),
            shape_fits(
                ((a@.len() + 1) * (b@.len() + 1)) as int,
                ((a@.len() + 1) * (b@.len() + 1)) as int,
                self.spec_geometry(),
            ),
        ensures
            d == levenshtein(a@, b@),
    {
        let m = a.len();
        let n = b.len();
        let ghost nodes_i = (m + 1) * (n + 1);
        proof {
            assert(nodes_i >= 1 && m + 1 <= nodes_i && n + 1 <= nodes_i) by (nonlinear_arith)
                requires nodes_i == (m + 1) * (n + 1);
            lemma_shape_fits_mono(1, nodes_i, nodes_i, nodes_i, self.geom);
            crate::shape::lemma_shape_fits(nodes_i, nodes_i, self.geom);
            assert(nodes_i <= nodes_i * nodes_i) by (nonlinear_arith)
                requires nodes_i >= 1;
            assert(m + n + 1 <= nodes_i) by (nonlinear_arith)
                requires nodes_i == (m + 1) * (n + 1);
            assert(nodes_i <= u64::MAX);
        }
        let rows = m + 1;
        let cols = n + 1;
        let nodes = rows * cols;
        let ghost adj_spec = grid_adjacency(a@, b@);

        // Tropical adjacency: diagonal 0 (a node relaxes itself), edges as above.
        let mut adj: Vec<u64> = Vec::new();
        let mut u: usize = 0;
        while u < nodes
            invariant
                u <= nodes,
                nodes == nodes_i,
                cols == n + 1,
                n == b@.len(),
                m == a@.len(),
                nodes_i * nodes_i <= usize::MAX,
                nodes_i <= usize::MAX,
                nodes_i == (m + 1) * cols,
                adj_spec == grid_adjacency(a@, b@),
                adj_spec.len() == nodes,
                adj@.len() == u * nodes,
                forall|p: int, q: int|
                    0 <= p < u && 0 <= q < nodes ==> adj@[p * nodes + q] == #[trigger] adj_spec[p][q],
            decreases nodes - u,
        {
            let mut v: usize = 0;
            while v < nodes
                invariant
                    u < nodes,
                    v <= nodes,
                    nodes == nodes_i,
                    cols == n + 1,
                    n == b@.len(),
                    m == a@.len(),
                    nodes_i * nodes_i <= usize::MAX,
                    nodes_i <= usize::MAX,
                    nodes_i == (m + 1) * cols,
                    adj_spec == grid_adjacency(a@, b@),
                    adj_spec.len() == nodes,
                    adj@.len() == u * nodes + v,
                    forall|p: int, q: int|
                        (0 <= p < u && 0 <= q < nodes) || (p == u && 0 <= q < v) ==> adj@[p * nodes + q]
                            == #[trigger] adj_spec[p][q],
                decreases nodes - v,
            {
                proof {
                    assert(u * nodes + v < nodes * nodes) by (nonlinear_arith)
                        requires
                            u < nodes,
                            v < nodes,
                    ;
                }
                let c = edge_cost(a, b, cols, u, v);
                adj.push(c);
                proof {
                    assert(adj_spec[u as int][v as int] == c);
                    assert(adj@[u * nodes + v] == c);
                    assert forall|p: int, q: int|
                        (0 <= p < u && 0 <= q < nodes) || (p == u && 0 <= q < v + 1)
                            implies adj@[p * nodes + q] == #[trigger] adj_spec[p][q] by {
                        if p < u {
                            assert(p * nodes + q < u * nodes) by (nonlinear_arith)
                                requires
                                    p < u,
                                    q < nodes,
                            ;
                        }
                    }
                }
                v = v + 1;
            }
            proof {
                assert((u + 1) * nodes == u * nodes + nodes) by (nonlinear_arith);
            }
            u = u + 1;
        }
        let adj_lat = PaddedTileLattice::from_dense(nodes, nodes, adj.as_slice(), self.geom).unwrap();
        proof {
            assert(adj_lat@ =~= adj_spec) by {
                assert forall|p: int| 0 <= p < nodes implies #[trigger] adj_lat@[p] =~= adj_spec[p] by {
                    assert forall|q: int| 0 <= q < nodes implies #[trigger] adj_lat@[p][q] == adj_spec[p][q] by {
                        assert(adj_lat@[p][q] == adj@[p * nodes + q]);
                    }
                }
            }
        }

        // Single-source tropical Bellman–Ford from (0,0): dist ⊗ adj, repeated.
        let mut dist: Vec<u64> = Vec::new();
        let mut k: usize = 0;
        while k < nodes
            invariant
                k <= nodes,
                dist@ == Seq::new(k as nat, |w: int| if w == 0 { 0u64 } else { u64::MAX }),
            decreases nodes - k,
        {
            dist.push(if k == 0 { 0 } else { u64::MAX });
            k = k + 1;
        }
        proof {
            assert(dist@ =~= relaxed(a@, b@, 0));
        }
        // The longest simple path in the DAG is m + n edges; that many relaxations
        // is enough to converge.
        let steps = m + n;
        let mut t: usize = 0;
        let mut done = false;
        while t < steps && !done
            invariant
                t <= steps,
                steps == m + n,
                nodes == nodes_i,
                m == a@.len(),
                n == b@.len(),
                adj_lat.wf(),
                adj_lat.spec_rows() == nodes,
                adj_lat.spec_cols() == nodes,
                adj_lat.spec_geometry() == self.geom,
                adj_lat@ == adj_spec,
                adj_spec == grid_adjacency(a@, b@),
                shape_fits(1, nodes as int, self.geom),
                self.geom.wf(),
                done ==> dist@ == relaxed(a@, b@, (m + n) as nat),
                !done ==> dist@ == relaxed(a@, b@, t as nat),
            decreases (steps - t) as int + (if done { 0int } else { 1int }),
        {
            proof {
                lemma_relaxed_len(a@, b@, t as nat);
            }
            let d_lat = PaddedTileLattice::from_dense(1, nodes, dist.as_slice(), self.geom).unwrap();
            proof {
                assert(d_lat@ =~= seq![dist@]) by {
                    assert(d_lat@[0] =~= dist@) by {
                        assert forall|q: int| 0 <= q < nodes implies #[trigger] d_lat@[0][q] == dist@[q] by {
                            assert(d_lat@[0][q] == dist@[0 * nodes + q]);
                        }
                    }
                }
            }
            // (1 × N) · (N × N) over min-plus: new[j] = min_k dist[k] + adj[k][j].
            let next = semiring_matmul::<Tropical>(&d_lat, &adj_lat).unwrap().to_dense();
            proof {
                assert(next@ =~= relaxed(a@, b@, (t + 1) as nat)) by {
                    assert forall|q: int| 0 <= q < nodes implies #[trigger] next@[q] == relaxed(a@, b@, (t + 1) as nat)[q] by {
                        assert(next@[0 * nodes + q] == matmul_spec::<Tropical>(d_lat@, adj_lat@, 1, nodes as nat, nodes as nat)[0][q]);
                    }
                }
            }
            if same_vec(&next, &dist) {
                proof {
                    lemma_relaxed_fixed(a@, b@, t as nat, (m + n) as nat);
                }
                done = true;
            } else {
                dist = next;
                t = t + 1;
            }
        }
        let ghost final_t: nat = if done { (m + n) as nat } else { t as nat };
        proof {
            lemma_relaxed_exact(a@, b@, final_t);
            lemma_node(m as int, n as int, cols as int);
            lemma_relaxed_len(a@, b@, final_t);
            lemma_lev_steps(a@, b@, m as nat, n as nat);
            assert(m * cols + n < nodes) by (nonlinear_arith)
                requires
                    nodes == (m + 1) * cols,
                    cols == n + 1,
            ;
        }
        let target = dist[m * cols + n];
        if target != u64::MAX {
            target as usize
        } else {
            if m > n { m } else { n }
        }
    }

    /// Convenience wrapper for `&str` inputs (compares raw bytes).
    pub fn distance_str(&self, a: &str, b: &str) -> (d: usize)
        requires
            self.spec_geometry().wf(),
            shape_fits(
                ((a.spec_bytes().len() + 1) * (b.spec_bytes().len() + 1)) as int,
                ((a.spec_bytes().len() + 1) * (b.spec_bytes().len() + 1)) as int,
                self.spec_geometry(),
            ),
        ensures
            d == levenshtein(a.spec_bytes(), b.spec_bytes()),
    {
        self.distance(a.as_bytes(), b.as_bytes())
    }
}

} // verus!
