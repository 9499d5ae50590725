//! `TensorGraph` — a directed weighted graph whose algorithms are matrix powers.
//!
//! Classic graph questions are answered by raising an adjacency lattice to a power
//! over the right semiring ([`crate::semiring`]):
//!
//! - **Reachability / transitive closure**: boolean matrix powers.
//! - **All-pairs shortest paths**: tropical (min-plus) matrix powers.
//! - **Walk counting**: ordinary matrix powers.
//!
//! Each closure is computed by repeated squaring, so a graph of `n` nodes needs
//! only `⌈log₂ n⌉` dense matmuls. Edge weights are non-negative integers.

use crate::geometry::Geometry;
use crate::lattice::{is_default, is_matrix, PaddedTileLattice};
use crate::semiring::{
    dot, matmul_spec, sat_add, semiring_matmul, word_modulus, Boolean, Counting, Semiring, Tropical,
};
use crate::shape::{lemma_shape_fits, shape_fits};
use vstd::arithmetic::div_mod::{lemma_add_mod_noop, lemma_mod_twice, lemma_small_mod};
use vstd::prelude::*;
use vstd::relations::injective_on;
use vstd::set_lib::lemma_map_size;

verus! {

broadcast use PaddedTileLattice::lemma_view_dims;

/// Some edge of `edges` runs `u → v`.
pub open spec fn has_edge(edges: Seq<(usize, usize, u64)>, u: int, v: int) -> bool {
    exists|e: int| 0 <= e < edges.len() && #[trigger] edges[e].0 == u && edges[e].1 == v
}

/// The reflexive boolean adjacency: `true` on the diagonal and along every edge.
pub open spec fn reflexive_boolean_spec(n: nat, edges: Seq<(usize, usize, u64)>) -> Seq<Seq<bool>> {
    Seq::new(n, |u: int| Seq::new(n, |v: int| u == v || has_edge(edges, u, v)))
}

/// The lightest of the first `k` edges `u → v`, starting from `init`.
pub open spec fn lightest(edges: Seq<(usize, usize, u64)>, u: int, v: int, init: u64, k: nat) -> u64
    decreases k,
{
    if k == 0 {
        init
    } else {
        let w = lightest(edges, u, v, init, (k - 1) as nat);
        let e = edges[k - 1];
        if e.0 == u && e.1 == v && e.2 < w {
            e.2
        } else {
            w
        }
    }
}

/// The tropical adjacency: `0` on the diagonal, the lightest edge weight
/// elsewhere, `+∞` (`u64::MAX`) where there is no edge.
pub open spec fn tropical_adjacency_spec(n: nat, edges: Seq<(usize, usize, u64)>) -> Seq<Seq<u64>> {
    Seq::new(
        n,
        |u: int| Seq::new(n, |v: int| lightest(edges, u, v, if u == v { 0u64 } else { u64::MAX }, edges.len())),
    )
}

/// The `0/1` adjacency with no self-loops added.
pub open spec fn plain_adjacency_spec(n: nat, edges: Seq<(usize, usize, u64)>) -> Seq<Seq<u64>> {
    Seq::new(n, |u: int| Seq::new(n, |v: int| if has_edge(edges, u, v) { 1u64 } else { 0u64 }))
}

/// `m` squared `s` times over `S`.
pub open spec fn squared<S: Semiring>(m: Seq<Seq<S::Elem>>, n: nat, s: nat) -> Seq<Seq<S::Elem>>
    decreases s,
{
    if s == 0 {
        m
    } else {
        let h = squared::<S>(m, n, (s - 1) as nat);
        matmul_spec::<S>(h, h, n, n, n)
    }
}

/// The `n x n` identity over the counting semiring.
pub open spec fn identity_spec(n: nat) -> Seq<Seq<u64>> {
    Seq::new(n, |u: int| Seq::new(n, |v: int| if u == v { 1u64 } else { 0u64 }))
}

/// `m` raised to the `k`-th power over the counting semiring (`m^0 = I`).
pub open spec fn power_spec(m: Seq<Seq<u64>>, n: nat, k: nat) -> Seq<Seq<u64>>
    decreases k,
{
    if k == 0 {
        identity_spec(n)
    } else if k == 1 {
        m
    } else {
        matmul_spec::<Counting>(power_spec(m, n, (k - 1) as nat), m, n, n, n)
    }
}

/// `2^s`.
pub open spec fn pow2(s: nat) -> nat
    decreases s,
{
    if s == 0 {
        1
    } else {
        2 * pow2((s - 1) as nat)
    }
}

/// `p` is a walk from `u` to `v` along the edges: a non-empty node sequence
/// starting at `u`, ending at `v`, each step an edge.
pub open spec fn is_walk(edges: Seq<(usize, usize, u64)>, p: Seq<int>, u: int, v: int) -> bool {
    &&& p.len() >= 1
    &&& p[0] == u
    &&& p[p.len() - 1] == v
    &&& forall|i: int| 0 <= i < p.len() - 1 ==> #[trigger] has_edge(edges, p[i], p[i + 1])
}

/// `v` is reachable from `u`: some walk leads from `u` to `v` (every node reaches
/// itself by the empty walk).
pub open spec fn graph_reachable(edges: Seq<(usize, usize, u64)>, u: int, v: int) -> bool {
    exists|p: Seq<int>| #[trigger] is_walk(edges, p, u, v)
}

/// Some walk from `u` to `v` takes at most `l` steps.
pub open spec fn reachable_within(edges: Seq<(usize, usize, u64)>, u: int, v: int, l: nat) -> bool {
    exists|p: Seq<int>| #[trigger] is_walk(edges, p, u, v) && p.len() <= l + 1
}

/// Every edge joins two of the first `n` nodes.
pub open spec fn edges_within(edges: Seq<(usize, usize, u64)>, n: nat) -> bool {
    forall|e: int| 0 <= e < edges.len() ==> (#[trigger] edges[e]).0 < n && edges[e].1 < n
}

/// A boolean dot product is true exactly when some contraction index links the
/// row to the column.
proof fn lemma_bool_dot(a: Seq<Seq<bool>>, b: Seq<Seq<bool>>, u: int, v: int, k: nat)
    ensures
        dot::<Boolean>(a, b, u, v, k) <==> exists|w: int| 0 <= w < k && #[trigger] a[u][w] && b[w][v],
    decreases k,
{
    if k > 0 {
        lemma_bool_dot(a, b, u, v, (k - 1) as nat);
        if exists|w: int| 0 <= w < k && #[trigger] a[u][w] && b[w][v] {
            let w = choose|w: int| 0 <= w < k && #[trigger] a[u][w] && b[w][v];
            if w < k - 1 {
                assert(exists|w2: int| 0 <= w2 < k - 1 && #[trigger] a[u][w2] && b[w2][v]);
            }
        }
    }
}

/// The nodes of a walk from a node of the graph are nodes of the graph.
proof fn lemma_walk_nodes(edges: Seq<(usize, usize, u64)>, n: nat, p: Seq<int>, u: int, v: int)
    requires
        edges_within(edges, n),
        is_walk(edges, p, u, v),
        0 <= u < n,
    ensures
        forall|i: int| 0 <= i < p.len() ==> 0 <= #[trigger] p[i] < n,
{
    assert forall|i: int| 0 <= i < p.len() implies 0 <= #[trigger] p[i] < n by {
        if i > 0 {
            assert(has_edge(edges, p[i - 1], p[i - 1 + 1]));
            let e = choose|e: int| 0 <= e < edges.len() && #[trigger] edges[e].0 == p[i - 1] && edges[e].1 == p[i];
        }
    }
}

/// Walks concatenate.
proof fn lemma_walk_concat(edges: Seq<(usize, usize, u64)>, p1: Seq<int>, p2: Seq<int>, u: int, w: int, v: int)
    requires
        is_walk(edges, p1, u, w),
        is_walk(edges, p2, w, v),
    ensures
        is_walk(edges, p1 + p2.drop_first(), u, v),
        (p1 + p2.drop_first()).len() == p1.len() + p2.len() - 1,
{
    let q = p1 + p2.drop_first();
    assert forall|i: int| 0 <= i < q.len() - 1 implies #[trigger] has_edge(edges, q[i], q[i + 1]) by {
        if i < p1.len() - 1 {
            assert(has_edge(edges, p1[i], p1[i + 1]));
        } else {
            let j = i - (p1.len() - 1);
            assert(q[i] == p2[j]);
            assert(q[i + 1] == p2[j + 1]);
            assert(has_edge(edges, p2[j], p2[j + 1]));
        }
    }
    if p2.len() == 1 {
        assert(q[q.len() - 1] == p1[p1.len() - 1]);
    } else {
        assert(q[q.len() - 1] == p2[p2.len() - 1]);
    }
}

/// A walk splits at any of its nodes.
proof fn lemma_walk_split(edges: Seq<(usize, usize, u64)>, p: Seq<int>, u: int, v: int, k: int)
    requires
        is_walk(edges, p, u, v),
        0 <= k < p.len(),
    ensures
        is_walk(edges, p.subrange(0, k + 1), u, p[k]),
        is_walk(edges, p.subrange(k, p.len() as int), p[k], v),
{
    let a = p.subrange(0, k + 1);
    let b = p.subrange(k, p.len() as int);
    assert forall|i: int| 0 <= i < a.len() - 1 implies #[trigger] has_edge(edges, a[i], a[i + 1]) by {
        assert(has_edge(edges, p[i], p[i + 1]));
    }
    assert forall|i: int| 0 <= i < b.len() - 1 implies #[trigger] has_edge(edges, b[i], b[i + 1]) by {
        assert(has_edge(edges, p[k + i], p[k + i + 1]));
    }
}

/// Squaring the reflexive adjacency `s` times answers "reachable in at most `2^s`
/// steps".
proof fn lemma_squared_reach(edges: Seq<(usize, usize, u64)>, n: nat, s: nat, u: int, v: int)
    requires
        edges_within(edges, n),
        0 <= u < n,
        0 <= v < n,
    ensures
        is_matrix(squared::<Boolean>(reflexive_boolean_spec(n, edges), n, s), n as int, n as int),
        squared::<Boolean>(reflexive_boolean_spec(n, edges), n, s)[u][v] == reachable_within(edges, u, v, pow2(s)),
    decreases s,
{
    let r = reflexive_boolean_spec(n, edges);
    if s == 0 {
        if r[u][v] {
            if u == v {
                let p = seq![u];
                assert(is_walk(edges, p, u, v));
            } else {
                let p = seq![u, v];
                assert(has_edge(edges, p[0], p[0int + 1]));
                assert(is_walk(edges, p, u, v));
            }
        }
        if reachable_within(edges, u, v, 1) {
            let p = choose|p: Seq<int>| #[trigger] is_walk(edges, p, u, v) && p.len() <= 2;
            if p.len() == 2 {
                assert(has_edge(edges, p[0], p[0int + 1]));
            }
        }
    } else {
        let h = squared::<Boolean>(r, n, (s - 1) as nat);
        let l = pow2((s - 1) as nat);
        assert forall|x: int, y: int| 0 <= x < n && 0 <= y < n implies #[trigger] h[x][y] == reachable_within(edges, x, y, l) by {
            lemma_squared_reach(edges, n, (s - 1) as nat, x, y);
        }
        lemma_squared_reach(edges, n, (s - 1) as nat, u, v);
        lemma_bool_dot(h, h, u, v, n);
        let sq = squared::<Boolean>(r, n, s);
        assert(sq[u][v] == dot::<Boolean>(h, h, u, v, n));
        if sq[u][v] {
            let w = choose|w: int| 0 <= w < n && #[trigger] h[u][w] && h[w][v];
            assert(h[u][w] && h[w][v]);
            let p1 = choose|p: Seq<int>| #[trigger] is_walk(edges, p, u, w) && p.len() <= l + 1;
            let p2 = choose|p: Seq<int>| #[trigger] is_walk(edges, p, w, v) && p.len() <= l + 1;
            lemma_walk_concat(edges, p1, p2, u, w, v);
            assert(is_walk(edges, p1 + p2.drop_first(), u, v));
        }
        if reachable_within(edges, u, v, pow2(s)) {
            let p = choose|p: Seq<int>| #[trigger] is_walk(edges, p, u, v) && p.len() <= pow2(s) + 1;
            lemma_walk_nodes(edges, n, p, u, v);
            let k: int = if p.len() <= l + 1 { p.len() - 1 } else { l as int };
            lemma_walk_split(edges, p, u, v, k);
            let w = p[k];
            let p1 = p.subrange(0, k + 1);
            let p2 = p.subrange(k, p.len() as int);
            assert(is_walk(edges, p1, u, w) && p1.len() <= l + 1);
            assert(is_walk(edges, p2, w, v) && p2.len() <= l + 1);
            assert(h[u][w] && h[w][v]);
        }
    }
}

/// A sequence of more than `n` nodes below `n` repeats a node.
proof fn lemma_pigeonhole(p: Seq<int>, n: nat)
    requires
        p.len() > n,
        forall|i: int| 0 <= i < p.len() ==> 0 <= #[trigger] p[i] < n,
    ensures
        !p.no_duplicates(),
{
    if p.no_duplicates() {
        p.unique_seq_to_set();
        vstd::set_lib::lemma_int_range(0, n as int);
        assert(p.to_set().subset_of(vstd::set_lib::set_int_range(0, n as int)));
        vstd::set_lib::lemma_len_subset(p.to_set(), vstd::set_lib::set_int_range(0, n as int));
    }
}

/// Any walk can be shortened to one of at most `n` nodes by cutting out cycles.
proof fn lemma_walk_shorten(edges: Seq<(usize, usize, u64)>, n: nat, p: Seq<int>, u: int, v: int)
    requires
        edges_within(edges, n),
        is_walk(edges, p, u, v),
        0 <= u < n,
    ensures
        exists|q: Seq<int>| #[trigger] is_walk(edges, q, u, v) && q.len() <= n,
    decreases p.len(),
{
    if p.len() <= n {
        assert(is_walk(edges, p, u, v) && p.len() <= n);
    } else {
        lemma_walk_nodes(edges, n, p, u, v);
        lemma_pigeonhole(p, n);
        let (i, j) = choose|i: int, j: int| 0 <= i < p.len() && 0 <= j < p.len() && i != j && p[i] == p[j];
        let (lo, hi) = if i < j { (i, j) } else { (j, i) };
        lemma_walk_split(edges, p, u, v, lo);
        lemma_walk_split(edges, p, u, v, hi);
        let p1 = p.subrange(0, lo + 1);
        let p2 = p.subrange(hi, p.len() as int);
        lemma_walk_concat(edges, p1, p2, u, p[lo], v);
        lemma_walk_shorten(edges, n, p1 + p2.drop_first(), u, v);
    }
}

/// The reachability law: after `⌈log₂ n⌉` squarings of the reflexive adjacency,
/// entry `(u, v)` is set exactly when `v` is reachable from `u`.
pub proof fn lemma_closure_reachable(edges: Seq<(usize, usize, u64)>, n: nat, s: nat, u: int, v: int)
    requires
        edges_within(edges, n),
        pow2(s) >= n,
        0 <= u < n,
        0 <= v < n,
    ensures
        squared::<Boolean>(reflexive_boolean_spec(n, edges), n, s)[u][v] == graph_reachable(edges, u, v),
{
    lemma_squared_reach(edges, n, s, u, v);
    if graph_reachable(edges, u, v) {
        let p = choose|p: Seq<int>| #[trigger] is_walk(edges, p, u, v);
        lemma_walk_shorten(edges, n, p, u, v);
        let q = choose|q: Seq<int>| #[trigger] is_walk(edges, q, u, v) && q.len() <= n;
        assert(is_walk(edges, q, u, v) && q.len() <= pow2(s) + 1);
    }
    if reachable_within(edges, u, v, pow2(s)) {
        let p = choose|p: Seq<int>| #[trigger] is_walk(edges, p, u, v) && p.len() <= pow2(s) + 1;
        assert(is_walk(edges, p, u, v));
    }
}

/// `p` is a route from `u` to `v` through the first `n` nodes: a non-empty node
/// sequence starting at `u` and ending at `v`.
pub open spec fn is_route(p: Seq<int>, u: int, v: int, n: nat) -> bool {
    &&& p.len() >= 1
    &&& p[0] == u
    &&& p[p.len() - 1] == v
    &&& forall|i: int| 0 <= i < p.len() ==> 0 <= #[trigger] p[i] < n
}

/// The cost of a route under step costs `t`: the saturating sum of `t[a][b]` over
/// its steps `a → b` (`+∞` = `u64::MAX` absorbs).
pub open spec fn route_cost(t: Seq<Seq<u64>>, p: Seq<int>) -> u64
    decreases p.len(),
{
    if p.len() <= 1 {
        0
    } else {
        sat_add(route_cost(t, p.drop_last()), t[p[p.len() - 2]][p[p.len() - 1]])
    }
}

/// `d` is the cost of a cheapest route from `u` to `v` under step costs `t`.
pub open spec fn is_min_route_cost(t: Seq<Seq<u64>>, u: int, v: int, n: nat, d: u64) -> bool {
    &&& exists|p: Seq<int>| #[trigger] is_route(p, u, v, n) && route_cost(t, p) == d
    &&& forall|p: Seq<int>| #[trigger] is_route(p, u, v, n) ==> d <= route_cost(t, p)
}

/// Route costs add up over concatenation.
proof fn lemma_route_concat(t: Seq<Seq<u64>>, p1: Seq<int>, p2: Seq<int>)
    requires
        p1.len() >= 1,
        p2.len() >= 1,
        p1[p1.len() - 1] == p2[0],
    ensures
        route_cost(t, p1 + p2.drop_first()) == sat_add(route_cost(t, p1), route_cost(t, p2)),
    decreases p2.len(),
{
    let q = p1 + p2.drop_first();
    if p2.len() == 1 {
        assert(q =~= p1);
    } else {
        let p2s = p2.drop_last();
        lemma_route_concat(t, p1, p2s);
        assert(q.drop_last() =~= p1 + p2s.drop_first());
        assert(q[q.len() - 1] == p2[p2.len() - 1]);
        if p2.len() == 2 {
            assert(q[q.len() - 2] == p1[p1.len() - 1]);
        } else {
            assert(q[q.len() - 2] == p2[p2.len() - 2]);
        }
        assert(route_cost(t, p2s.drop_last()) == route_cost(t, p2.drop_last().drop_last()));
        Tropical::lemma_mul_associative(route_cost(t, p1), route_cost(t, p2s), t[p2[p2.len() - 2]][p2[p2.len() - 1]]);
    }
}

/// Route costs of a suffix never exceed the cost of the whole route.
proof fn lemma_route_suffix_le(t: Seq<Seq<u64>>, p: Seq<int>, k: int)
    requires
        0 <= k < p.len(),
    ensures
        route_cost(t, p.subrange(k, p.len() as int)) <= route_cost(t, p),
        route_cost(t, p) == sat_add(route_cost(t, p.subrange(0, k + 1)), route_cost(t, p.subrange(k, p.len() as int))),
{
    let a = p.subrange(0, k + 1);
    let b = p.subrange(k, p.len() as int);
    assert(a + b.drop_first() =~= p);
    lemma_route_concat(t, a, b);
}

/// A tropical dot product lies below each of its terms and, over at least one
/// term, equals one of them.
proof fn lemma_trop_dot(a: Seq<Seq<u64>>, b: Seq<Seq<u64>>, u: int, v: int, k: nat)
    ensures
        forall|w: int| 0 <= w < k ==> dot::<Tropical>(a, b, u, v, k) <= #[trigger] sat_add(a[u][w], b[w][v]),
        k > 0 ==> exists|w: int| 0 <= w < k && dot::<Tropical>(a, b, u, v, k) == #[trigger] sat_add(a[u][w], b[w][v]),
    decreases k,
{
    if k > 0 {
        lemma_trop_dot(a, b, u, v, (k - 1) as nat);
        let last = sat_add(a[u][k - 1], b[k - 1][v]);
        if k > 1 {
            let w0 = choose|w: int| 0 <= w < k - 1 && dot::<Tropical>(a, b, u, v, (k - 1) as nat) == #[trigger] sat_add(a[u][w], b[w][v]);
            if dot::<Tropical>(a, b, u, v, (k - 1) as nat) < last {
                assert(0 <= w0 < k && dot::<Tropical>(a, b, u, v, k) == sat_add(a[u][w0], b[w0][v]));
            } else {
                assert(dot::<Tropical>(a, b, u, v, k) == sat_add(a[u][k - 1], b[k - 1][v]));
            }
        } else {
            assert(dot::<Tropical>(a, b, u, v, 0) == u64::MAX);
            assert(dot::<Tropical>(a, b, u, v, k) == sat_add(a[u][k - 1], b[k - 1][v]));
        }
    }
}

/// Squaring the step costs `s` times gives, for each pair, the cheapest route of
/// exactly `2^s` steps.
proof fn lemma_squared_routes(t: Seq<Seq<u64>>, n: nat, s: nat, u: int, v: int)
    requires
        is_matrix(t, n as int, n as int),
        0 <= u < n,
        0 <= v < n,
    ensures
        is_matrix(squared::<Tropical>(t, n, s), n as int, n as int),
        exists|p: Seq<int>| #[trigger] is_route(p, u, v, n) && p.len() == pow2(s) + 1
            && route_cost(t, p) == squared::<Tropical>(t, n, s)[u][v],
        forall|p: Seq<int>| #[trigger] is_route(p, u, v, n) && p.len() == pow2(s) + 1
            ==> squared::<Tropical>(t, n, s)[u][v] <= route_cost(t, p),
    decreases s,
{
    if s == 0 {
        let p = seq![u, v];
        assert(p.drop_last() =~= seq![u]);
        assert(route_cost(t, p.drop_last()) == 0);
        assert(p[p.len() - 2] == u && p[p.len() - 1] == v);
        assert(route_cost(t, p) == sat_add(0, t[u][v]));
        assert(pow2(0) == 1);
        assert(squared::<Tropical>(t, n, 0) == t);
        assert(is_route(p, u, v, n)) by {
            assert forall|x: int| 0 <= x < p.len() implies 0 <= #[trigger] p[x] < n by {
                if x == 0 {
                    assert(p[x] == u);
                } else {
                    assert(p[x] == v);
                }
            }
        }
        assert(is_route(p, u, v, n) && p.len() == pow2(s) + 1 && route_cost(t, p) == t[u][v]);
        assert forall|p: Seq<int>| #[trigger] is_route(p, u, v, n) && p.len() == pow2(s) + 1 implies squared::<Tropical>(t, n, s)[u][v] <= route_cost(t, p) by {
            assert(p.drop_last().len() == 1);
        }
    } else {
        let h = squared::<Tropical>(t, n, (s - 1) as nat);
        let l = pow2((s - 1) as nat);
        assert(pow2(s) == 2 * l);
        lemma_squared_routes(t, n, (s - 1) as nat, u, v);
        assert forall|x: int, y: int| #![trigger h[x][y]] 0 <= x < n && 0 <= y < n implies
            (exists|p: Seq<int>| #[trigger] is_route(p, x, y, n) && p.len() == l + 1 && route_cost(t, p) == h[x][y])
            && (forall|p: Seq<int>| #[trigger] is_route(p, x, y, n) && p.len() == l + 1 ==> h[x][y] <= route_cost(t, p)) by {
            lemma_squared_routes(t, n, (s - 1) as nat, x, y);
        }
        lemma_trop_dot(h, h, u, v, n);
        let sq = squared::<Tropical>(t, n, s);
        assert(sq[u][v] == dot::<Tropical>(h, h, u, v, n));
        // Witness: the cheapest midpoint.
        let w = choose|w: int| 0 <= w < n && dot::<Tropical>(h, h, u, v, n) == #[trigger] sat_add(h[u][w], h[w][v]);
        let p1 = choose|p: Seq<int>| #[trigger] is_route(p, u, w, n) && p.len() == l + 1 && route_cost(t, p) == h[u][w];
        let p2 = choose|p: Seq<int>| #[trigger] is_route(p, w, v, n) && p.len() == l + 1 && route_cost(t, p) == h[w][v];
        lemma_route_concat(t, p1, p2);
        let q = p1 + p2.drop_first();
        assert(is_route(q, u, v, n)) by {
            assert forall|i: int| 0 <= i < q.len() implies 0 <= #[trigger] q[i] < n by {
                if i < p1.len() {
                    assert(q[i] == p1[i]);
                } else {
                    assert(q[i] == p2[i - p1.len() + 1]);
                }
            }
            if p2.len() == 1 {
            } else {
                assert(q[q.len() - 1] == p2[p2.len() - 1]);
            }
        }
        assert(is_route(q, u, v, n) && q.len() == pow2(s) + 1 && route_cost(t, q) == sq[u][v]);
        // Lower bound: split any route at its midpoint.
        assert forall|p: Seq<int>| #[trigger] is_route(p, u, v, n) && p.len() == pow2(s) + 1 implies sq[u][v] <= route_cost(t, p) by {
            let k = l as int;
            lemma_route_suffix_le(t, p, k);
            let a = p.subrange(0, k + 1);
            let b = p.subrange(k, p.len() as int);
            let m = p[k];
            assert(is_route(a, u, m, n)) by {
                assert forall|i: int| 0 <= i < a.len() implies 0 <= #[trigger] a[i] < n by {
                    assert(a[i] == p[i]);
                }
            }
            assert(is_route(b, m, v, n)) by {
                assert forall|i: int| 0 <= i < b.len() implies 0 <= #[trigger] b[i] < n by {
                    assert(b[i] == p[k + i]);
                }
            }
            assert(h[u][m] <= route_cost(t, a));
            assert(h[m][v] <= route_cost(t, b));
            assert(sat_add(h[u][m], h[m][v]) <= sat_add(route_cost(t, a), route_cost(t, b)));
        }
    }
}

/// Staying put is free in the tropical adjacency.
proof fn lemma_lightest_le(edges: Seq<(usize, usize, u64)>, u: int, v: int, init: u64, k: nat)
    ensures
        lightest(edges, u, v, init, k) <= init,
    decreases k,
{
    if k > 0 {
        lemma_lightest_le(edges, u, v, init, (k - 1) as nat);
    }
}

/// Every route of more than `n` nodes revisits a node; cutting out the cycle
/// costs nothing extra (step costs are non-negative), so some route of at most
/// `n` nodes costs no more.
proof fn lemma_route_shorten(t: Seq<Seq<u64>>, n: nat, p: Seq<int>, u: int, v: int)
    requires
        is_route(p, u, v, n),
    ensures
        exists|q: Seq<int>| #[trigger] is_route(q, u, v, n) && q.len() <= n && route_cost(t, q) <= route_cost(t, p),
    decreases p.len(),
{
    if p.len() > n {
        lemma_pigeonhole(p, n);
        let (i, j) = choose|i: int, j: int| 0 <= i < p.len() && 0 <= j < p.len() && i != j && p[i] == p[j];
        let (lo, hi) = if i < j { (i, j) } else { (j, i) };
        let a = p.subrange(0, lo + 1);
        let b = p.subrange(hi, p.len() as int);
        lemma_route_suffix_le(t, p, lo);
        let mid = p.subrange(lo, p.len() as int);
        lemma_route_suffix_le(t, mid, hi - lo);
        assert(mid.subrange(hi - lo, mid.len() as int) =~= b);
        lemma_route_concat(t, a, b);
        let q = a + b.drop_first();
        assert(is_route(q, u, v, n)) by {
            assert forall|x: int| 0 <= x < q.len() implies 0 <= #[trigger] q[x] < n by {
                if x < a.len() {
                    assert(q[x] == p[x]);
                } else {
                    assert(q[x] == p[hi + x - a.len() + 1]);
                }
            }
            if b.len() == 1 {
                assert(q[q.len() - 1] == p[lo]);
            } else {
                assert(q[q.len() - 1] == b[b.len() - 1]);
            }
        }
        lemma_route_shorten(t, n, q, u, v);
        let r = choose|r: Seq<int>| #[trigger] is_route(r, u, v, n) && r.len() <= n && route_cost(t, r) <= route_cost(t, q);
        assert(is_route(r, u, v, n) && r.len() <= n && route_cost(t, r) <= route_cost(t, p));
    } else {
        assert(is_route(p, u, v, n) && p.len() <= n && route_cost(t, p) <= route_cost(t, p));
    }
}

/// A route of at most `l + 1` nodes can be padded to exactly `l + 1` nodes at no
/// cost, by staying at its last node (staying put is free in the tropical
/// adjacency).
proof fn lemma_route_pad(edges: Seq<(usize, usize, u64)>, n: nat, l: nat, p: Seq<int>, u: int, v: int)
    requires
        is_route(p, u, v, n),
        p.len() <= l + 1,
    ensures
        exists|q: Seq<int>| #[trigger] is_route(q, u, v, n) && q.len() == l + 1
            && route_cost(tropical_adjacency_spec(n, edges), q) == route_cost(tropical_adjacency_spec(n, edges), p),
    decreases l + 1 - p.len(),
{
    let t = tropical_adjacency_spec(n, edges);
    if p.len() < l + 1 {
        let q = p.push(v);
        assert(q.drop_last() =~= p);
        lemma_lightest_le(edges, v, v, 0, edges.len());
        assert(t[v][v] == 0);
        assert(q[q.len() - 2] == v);
        assert(route_cost(t, q) == sat_add(route_cost(t, p), 0));
        assert(route_cost(t, q) == route_cost(t, p));
        assert(is_route(q, u, v, n)) by {
            assert forall|x: int| 0 <= x < q.len() implies 0 <= #[trigger] q[x] < n by {
                if x < p.len() {
                    assert(q[x] == p[x]);
                }
            }
        }
        lemma_route_pad(edges, n, l, q, u, v);
        let r = choose|r: Seq<int>| #[trigger] is_route(r, u, v, n) && r.len() == l + 1 && route_cost(t, r) == route_cost(t, q);
        assert(is_route(r, u, v, n) && r.len() == l + 1 && route_cost(t, r) == route_cost(t, p));
    } else {
        assert(is_route(p, u, v, n) && p.len() == l + 1 && route_cost(t, p) == route_cost(t, p));
    }
}

/// The shortest-path law: after `⌈log₂ n⌉` squarings of the tropical adjacency,
/// entry `(u, v)` is the cost of a cheapest route from `u` to `v`, where a step
/// costs the lightest edge weight, staying put is free, and a missing edge is `+∞`.
pub proof fn lemma_closure_shortest(edges: Seq<(usize, usize, u64)>, n: nat, s: nat, u: int, v: int)
    requires
        pow2(s) >= n,
        0 <= u < n,
        0 <= v < n,
    ensures
        is_min_route_cost(
            tropical_adjacency_spec(n, edges),
            u,
            v,
            n,
            squared::<Tropical>(tropical_adjacency_spec(n, edges), n, s)[u][v],
        ),
{
    let t = tropical_adjacency_spec(n, edges);
    lemma_squared_routes(t, n, s, u, v);
    let d = squared::<Tropical>(t, n, s)[u][v];
    assert forall|p: Seq<int>| #[trigger] is_route(p, u, v, n) implies d <= route_cost(t, p) by {
        lemma_route_shorten(t, n, p, u, v);
        let r = choose|r: Seq<int>| #[trigger] is_route(r, u, v, n) && r.len() <= n && route_cost(t, r) <= route_cost(t, p);
        lemma_route_pad(edges, n, pow2(s), r, u, v);
        let q = choose|q: Seq<int>| #[trigger] is_route(q, u, v, n) && q.len() == pow2(s) + 1 && route_cost(t, q) == route_cost(t, r);
        assert(d <= route_cost(t, q));
    }
    let w = choose|p: Seq<int>| #[trigger] is_route(p, u, v, n) && p.len() == pow2(s) + 1 && route_cost(t, p) == d;
    assert(is_route(w, u, v, n) && route_cost(t, w) == d);
}

/// The walks of exactly `k` edges from `u` to `v`.
pub open spec fn walks(edges: Seq<(usize, usize, u64)>, u: int, v: int, k: nat) -> Set<Seq<int>> {
    Set::new(|p: Seq<int>| is_walk(edges, p, u, v) && p.len() == k + 1)
}

/// The walks of `k >= 1` edges from `u` to `v` whose last step leaves a node below `m`.
spec fn walks_through_below(edges: Seq<(usize, usize, u64)>, u: int, v: int, k: nat, m: int) -> Set<Seq<int>> {
    Set::new(|p: Seq<int>| walks(edges, u, v, k).contains(p) && p[k - 1] < m)
}

/// `Σ_{w < m, w → v} |walks(u, w, k − 1)|`.
spec fn walk_sum(edges: Seq<(usize, usize, u64)>, u: int, v: int, k: nat, m: nat) -> nat
    decreases m,
{
    if m == 0 {
        0
    } else {
        walk_sum(edges, u, v, k, (m - 1) as nat) + (if has_edge(edges, m - 1, v) {
            walks(edges, u, m - 1, (k - 1) as nat).len()
        } else {
            0
        })
    }
}

/// Walks of no edge: the one-node walk, when `u == v`.
proof fn lemma_walks_zero(edges: Seq<(usize, usize, u64)>, u: int, v: int)
    ensures
        walks(edges, u, v, 0).finite(),
        walks(edges, u, v, 0).len() == (if u == v { 1nat } else { 0nat }),
{
    let w = walks(edges, u, v, 0);
    if u == v {
        assert(is_walk(edges, seq![u], u, v));
        assert(w =~= Set::empty().insert(seq![u])) by {
            assert forall|p: Seq<int>| w.contains(p) implies p =~= seq![u] by {}
        }
    } else {
        assert(w =~= Set::empty());
    }
}

/// Splitting off the last step: the walks of `k >= 1` edges to `v` whose
/// second-to-last node is below `m` number `walk_sum(m)`.
proof fn lemma_walks_last_step(edges: Seq<(usize, usize, u64)>, n: nat, u: int, v: int, k: nat, m: nat)
    requires
        k >= 1,
        m <= n,
        edges_within(edges, n),
        forall|w: int| 0 <= w < n ==> #[trigger] walks(edges, u, w, (k - 1) as nat).finite(),
    ensures
        walks_through_below(edges, u, v, k, m as int).finite(),
        walks_through_below(edges, u, v, k, m as int).len() == walk_sum(edges, u, v, k, m),
    decreases m,
{
    let part = walks_through_below(edges, u, v, k, m as int);
    if m == 0 {
        assert forall|p: Seq<int>| part.contains(p) implies false by {
            assert(has_edge(edges, p[k - 1], p[k - 1 + 1]));
            let e = choose|e: int| 0 <= e < edges.len() && #[trigger] edges[e].0 == p[k - 1] && edges[e].1 == p[k as int];
        }
        assert(part =~= Set::empty());
    } else {
        let w = m - 1;
        lemma_walks_last_step(edges, n, u, v, k, w as nat);
        let prev = walks_through_below(edges, u, v, k, w);
        let last = Set::new(|p: Seq<int>| walks(edges, u, v, k).contains(p) && p[k - 1] == w);
        assert(part =~= prev + last);
        assert(prev.disjoint(last));
        let from = walks(edges, u, w, (k - 1) as nat);
        let push_v = |q: Seq<int>| q.push(v);
        if has_edge(edges, w, v) {
            assert(from.map(push_v) =~= last) by {
                assert forall|p: Seq<int>| last.contains(p) implies #[trigger] from.map(push_v).contains(p) by {
                    let q = p.drop_last();
                    assert(is_walk(edges, q, u, w)) by {
                        assert forall|i: int| 0 <= i < q.len() - 1 implies #[trigger] has_edge(edges, q[i], q[i + 1]) by {
                            assert(has_edge(edges, p[i], p[i + 1]));
                        }
                    }
                    assert(from.contains(q));
                    assert(q.push(v) =~= p);
                }
                assert forall|p: Seq<int>| from.map(push_v).contains(p) implies #[trigger] last.contains(p) by {
                    let q = choose|q: Seq<int>| from.contains(q) && push_v(q) == p;
                    assert(p == q.push(v));
                    assert(is_walk(edges, p, u, v)) by {
                        assert forall|i: int| 0 <= i < p.len() - 1 implies #[trigger] has_edge(edges, p[i], p[i + 1]) by {
                            if i < q.len() - 1 {
                                assert(has_edge(edges, q[i], q[i + 1]));
                            } else {
                                assert(p[i] == w && p[i + 1] == v);
                            }
                        }
                    }
                }
            }
            assert(injective_on(push_v, from)) by {
                assert forall|q1: Seq<int>, q2: Seq<int>| from.contains(q1) && from.contains(q2) && #[trigger] push_v(q1) == #[trigger] push_v(q2) implies q1 == q2 by {
                    assert(q1 =~= push_v(q1).drop_last());
                    assert(q2 =~= push_v(q2).drop_last());
                }
            }
            lemma_map_size(from, last, push_v);
        } else {
            assert forall|p: Seq<int>| last.contains(p) implies false by {
                assert(has_edge(edges, p[k - 1], p[k - 1 + 1]));
            }
            assert(last =~= Set::empty());
        }
        vstd::set_lib::lemma_set_disjoint_lens(prev, last);
    }
}

/// A counting dot product of the walk counts against the adjacency column of `v`
/// is the walk sum, modulo `2^64`.
proof fn lemma_walk_dot(edges: Seq<(usize, usize, u64)>, n: nat, p: Seq<Seq<u64>>, u: int, v: int, k: nat, m: nat)
    requires
        k >= 1,
        m <= n,
        0 <= v < n,
        forall|w: int| 0 <= w < n ==> #[trigger] p[u][w] == walks(edges, u, w, (k - 1) as nat).len() as int % word_modulus(),
    ensures
        dot::<Counting>(p, plain_adjacency_spec(n, edges), u, v, m) == walk_sum(edges, u, v, k, m) as int % word_modulus(),
    decreases m,
{
    let big = word_modulus();
    if m == 0 {
        lemma_small_mod(0, big as nat);
    } else {
        let w = m - 1;
        lemma_walk_dot(edges, n, p, u, v, k, (m - 1) as nat);
        let a = plain_adjacency_spec(n, edges);
        let prev = walk_sum(edges, u, v, k, (m - 1) as nat);
        let c = walks(edges, u, w, (k - 1) as nat).len();
        let term: int = if has_edge(edges, w, v) { c as int } else { 0 };
        assert(p[u][w] == c as int % big);
        assert(a[w][v] == (if has_edge(edges, w, v) { 1u64 } else { 0u64 }));
        assert(((p[u][w] * a[w][v]) % big) == term % big) by {
            if has_edge(edges, w, v) {
                lemma_mod_twice(c as int, big);
            } else {
                lemma_small_mod(0, big as nat);
            }
        }
        lemma_add_mod_noop(prev as int, term, big);
        lemma_mod_twice(prev as int, big);
        lemma_mod_twice(term, big);
    }
}

/// The walk-counting law: the `k`-th power of the adjacency over the counting
/// semiring holds, at `(u, v)`, the number of distinct walks of exactly `k` edges
/// from `u` to `v` (modulo `2^64`).
pub proof fn lemma_walk_counts(edges: Seq<(usize, usize, u64)>, n: nat, k: nat)
    requires
        edges_within(edges, n),
    ensures
        forall|u: int, v: int|
            0 <= u < n && 0 <= v < n ==> #[trigger] walks(edges, u, v, k).finite()
                && power_spec(plain_adjacency_spec(n, edges), n, k)[u][v] == walks(edges, u, v, k).len() as int % word_modulus(),
    decreases k,
{
    let a = plain_adjacency_spec(n, edges);
    let big = word_modulus();
    if k == 0 {
        assert forall|u: int, v: int| 0 <= u < n && 0 <= v < n implies #[trigger] walks(edges, u, v, k).finite()
            && power_spec(a, n, k)[u][v] == walks(edges, u, v, k).len() as int % big by {
            lemma_walks_zero(edges, u, v);
            lemma_small_mod(walks(edges, u, v, k).len(), big as nat);
        }
    } else {
        lemma_walk_counts(edges, n, (k - 1) as nat);
        let prev = power_spec(a, n, (k - 1) as nat);
        assert forall|u: int, v: int| 0 <= u < n && 0 <= v < n implies #[trigger] walks(edges, u, v, k).finite()
            && power_spec(a, n, k)[u][v] == walks(edges, u, v, k).len() as int % big by {
            assert forall|w: int| 0 <= w < n implies #[trigger] walks(edges, u, w, (k - 1) as nat).finite() by {
                assert(walks(edges, u, w, (k - 1) as nat).finite() && prev[u][w] == walks(edges, u, w, (k - 1) as nat).len() as int % big);
            }
            assert forall|w: int| 0 <= w < n implies #[trigger] prev[u][w] == walks(edges, u, w, (k - 1) as nat).len() as int % big by {
                assert(walks(edges, u, w, (k - 1) as nat).finite() && prev[u][w] == walks(edges, u, w, (k - 1) as nat).len() as int % big);
            }
            lemma_walks_last_step(edges, n, u, v, k, n);
            assert(walks_through_below(edges, u, v, k, n as int) =~= walks(edges, u, v, k)) by {
                assert forall|p: Seq<int>| walks(edges, u, v, k).contains(p) implies p[k - 1] < n by {
                    assert(has_edge(edges, p[k - 1], p[k - 1 + 1]));
                    let e = choose|e: int| 0 <= e < edges.len() && #[trigger] edges[e].0 == p[k - 1] && edges[e].1 == p[k as int];
                    assert(edges[e].0 < n);
                }
            }
            if k > 1 {
                lemma_walk_dot(edges, n, prev, u, v, k, n);
            }
            if k == 1 {
                let w1 = walks(edges, u, v, 1);
                if has_edge(edges, u, v) {
                    assert(is_walk(edges, seq![u, v], u, v));
                    assert(w1 =~= Set::empty().insert(seq![u, v])) by {
                        assert forall|p: Seq<int>| w1.contains(p) implies p =~= seq![u, v] by {}
                    }
                } else {
                    assert forall|p: Seq<int>| w1.contains(p) implies false by {
                        assert(has_edge(edges, p[0], p[0int + 1]));
                    }
                    assert(w1 =~= Set::empty());
                }
                lemma_small_mod(w1.len(), big as nat);
            }
        }
    }
}

/// `⌈log₂ t⌉` for `t >= 1` (and `0` for `t <= 1`).
pub open spec fn log2_ceil(t: nat) -> nat
    decreases t,
{
    if t <= 1 {
        0
    } else {
        1 + log2_ceil(((t + 1) / 2) as nat)
    }
}

/// `log2_ceil(t)` is the least `s` with `2^s >= max(t, 1)`.
pub proof fn lemma_log2_ceil(t: nat)
    ensures
        pow2(log2_ceil(t)) >= (if t > 1 { t } else { 1 }),
        log2_ceil(t) == 0 || pow2((log2_ceil(t) - 1) as nat) < (if t > 1 { t } else { 1 }),
    decreases t,
{
    if t > 1 {
        let h = ((t + 1) / 2) as nat;
        lemma_log2_ceil(h);
        let lh = log2_ceil(h);
        if lh > 0 {
            assert(pow2(lh) == 2 * pow2((lh - 1) as nat));
        }
    }
}

/// A directed, weighted graph backed by a dense adjacency lattice.
#[derive(Clone, Debug)]
pub struct TensorGraph {
    n: usize,
    geom: Geometry,
    edges: Vec<(usize, usize, u64)>,
}

impl TensorGraph {
    /// The graph invariant: every edge joins two nodes of the graph.
    pub closed spec fn wf(&self) -> bool {
        &&& self.geom == Geometry::tpu_v_spec()
        &&& forall|e: int| 0 <= e < self.edges@.len() ==> (#[trigger] self.edges@[e]).0 < self.n && self.edges@[e].1 < self.n
    }

    /// Number of nodes.
    pub closed spec fn spec_nodes(&self) -> usize {
        self.n
    }

    /// The edges added so far, in order, as `(from, to, weight)`.
    pub closed spec fn spec_edges(&self) -> Seq<(usize, usize, u64)> {
        self.edges@
    }

    /// The tile geometry used for the matmuls.
    pub closed spec fn spec_geometry(&self) -> Geometry {
        self.geom
    }

    /// The number of squarings the closures use: `⌈log₂(max(1, n))⌉`.
    pub open spec fn spec_squarings(&self) -> nat {
        log2_ceil(self.spec_nodes() as nat)
    }

    /// An `n x n` lattice over the graph's nodes fits in memory, as every closure
    /// and power needs.
    pub open spec fn fits_lattice(&self) -> bool {
        shape_fits(self.spec_nodes() as int, self.spec_nodes() as int, self.spec_geometry())
    }

    /// Create an `n`-node graph with no edges.
    pub fn new(n: usize) -> (g: Self)
        ensures
            g.wf(),
            g.spec_nodes() == n,
            g.spec_edges() == Seq::<(usize, usize, u64)>::empty(),
            g.spec_geometry() == Geometry::tpu_v_spec(),
    {
        TensorGraph { n, geom: Geometry::tpu_v(), edges: Vec::new() }
    }

    /// Number of nodes.
    pub fn nodes(&self) -> (r: usize)
        ensures
            r == self.spec_nodes(),
    {
        self.n
    }

    /// Number of edges added.
    pub fn edge_count(&self) -> (r: usize)
        ensures
            r == self.spec_edges().len(),
    {
        self.edges.len()
    }

    /// Add a weighted directed edge `u → v`.
    pub fn add_edge(&mut self, u: usize, v: usize, weight: u64)
        requires
            old(self).wf(),
            u < old(self).spec_nodes() && v < old(self).spec_nodes(),
        ensures
            final(self).wf(),
            final(self).spec_nodes() == old(self).spec_nodes(),
            final(self).spec_geometry() == old(self).spec_geometry(),
            final(self).spec_edges() == old(self).spec_edges().push((u, v, weight)),
    {
        self.edges.push((u, v, weight));
    }

    /// Add an unweighted directed edge `u → v` (weight `1`).
    pub fn add_edge_unweighted(&mut self, u: usize, v: usize)
        requires
            old(self).wf(),
            u < old(self).spec_nodes() && v < old(self).spec_nodes(),
        ensures
            final(self).wf(),
            final(self).spec_nodes() == old(self).spec_nodes(),
            final(self).spec_geometry() == old(self).spec_geometry(),
            final(self).spec_edges() == old(self).spec_edges().push((u, v, 1u64)),
    {
        self.add_edge(u, v, 1);
    }

    /// Build the boolean adjacency lattice (`true` where an edge exists), with the
    /// diagonal set so the closure is reflexive.
    fn reflexive_boolean(&self) -> (l: PaddedTileLattice<bool>)
        requires
            self.wf(),
            self.fits_lattice(),
        ensures
            l.wf(),
            l.spec_rows() == self.n,
            l.spec_cols() == self.n,
            l.spec_geometry() == self.geom,
            l@ == reflexive_boolean_spec(self.n as nat, self.edges@),
            exists|d: bool| is_default(d) && l.padding_is(d),
    {
        let n = self.n;
        proof {
            lemma_shape_fits(n as int, n as int, self.geom);
        }
        let mut dense: Vec<bool> = Vec::with_capacity(n * n);
        let mut u: usize = 0;
        while u < n
            invariant
                u <= n,
                n * n <= usize::MAX,
                dense@.len() == u * n,
                forall|p: int, q: int| 0 <= p < u && 0 <= q < n ==> #[trigger] dense@[p * n + q] == (p == q),
            decreases n - u,
        {
            proof {
                assert((u + 1) * n <= n * n) by (nonlinear_arith)
                    requires u < n;
                assert((u + 1) * n == u * n + n) by (nonlinear_arith);
            }
            let mut v: usize = 0;
            while v < n
                invariant
                    u < n,
                    v <= n,
                    n * n <= usize::MAX,
                    (u + 1) * n <= n * n,
                    dense@.len() == u * n + v,
                    forall|p: int, q: int| ((0 <= p < u && 0 <= q < n) || (p == u && 0 <= q < v)) ==> #[trigger] dense@[p * n + q] == (p == q),
                decreases n - v,
            {
                dense.push(u == v);
                proof {
                    assert forall|p: int, q: int| ((0 <= p < u && 0 <= q < n) || (p == u && 0 <= q < v + 1)) implies #[trigger] dense@[p * n + q] == (p == q) by {
                        if p < u {
                            assert(p * n + q < u * n) by (nonlinear_arith)
                                requires p < u, q < n;
                        }
                    }
                }
                v = v + 1;
            }
            u = u + 1;
        }
        let mut e: usize = 0;
        while e < self.edges.len()
            invariant
                self.wf(),
                n == self.n,
                n * n <= usize::MAX,
                e <= self.edges@.len(),
                dense@.len() == n * n,
                forall|p: int, q: int| 0 <= p < n && 0 <= q < n ==> #[trigger] dense@[p * n + q] == (p == q
                    || exists|k: int| 0 <= k < e && #[trigger] self.edges@[k].0 == p && self.edges@[k].1 == q),
            decreases self.edges@.len() - e,
        {
            let (a, b, _) = self.edges[e];
            proof {
                lemma_cell_n(a as int, b as int, n as int);
            }
            dense.set(a * n + b, true);
            proof {
                assert forall|p: int, q: int| 0 <= p < n && 0 <= q < n implies #[trigger] dense@[p * n + q] == (p == q
                    || exists|k: int| 0 <= k < e + 1 && #[trigger] self.edges@[k].0 == p && self.edges@[k].1 == q) by {
                    lemma_cell_n(p, q, n as int);
                    if p == a && q == b {
                        assert(self.edges@[e as int].0 == p && self.edges@[e as int].1 == q);
                    } else {
                        if exists|k: int| 0 <= k < e + 1 && #[trigger] self.edges@[k].0 == p && self.edges@[k].1 == q {
                            let k = choose|k: int| 0 <= k < e + 1 && #[trigger] self.edges@[k].0 == p && self.edges@[k].1 == q;
                            assert(k != e);
                        }
                    }
                }
            }
            e = e + 1;
        }
        let l = PaddedTileLattice::from_dense(n, n, dense.as_slice(), self.geom).unwrap();
        proof {
            assert forall|p: int| 0 <= p < n implies #[trigger] l@[p] =~= reflexive_boolean_spec(n as nat, self.edges@)[p] by {
                assert forall|q: int| 0 <= q < n implies #[trigger] l@[p][q] == reflexive_boolean_spec(n as nat, self.edges@)[p][q] by {
                    assert(l@[p][q] == dense@[p * n + q]);
                }
            }
            assert(l@ =~= reflexive_boolean_spec(n as nat, self.edges@));
        }
        l
    }

    /// Build the tropical adjacency lattice: edge weights off-diagonal, `0` on the
    /// diagonal, `+∞` where there is no edge; parallel edges keep the lightest.
    fn tropical_adjacency(&self) -> (l: PaddedTileLattice<u64>)
        requires
            self.wf(),
            self.fits_lattice(),
        ensures
            l.wf(),
            l.spec_rows() == self.n,
            l.spec_cols() == self.n,
            l.spec_geometry() == self.geom,
            l@ == tropical_adjacency_spec(self.n as nat, self.edges@),
            exists|d: u64| is_default(d) && l.padding_is(d),
    {
        let n = self.n;
        proof {
            lemma_shape_fits(n as int, n as int, self.geom);
        }
        let mut dense: Vec<u64> = Vec::with_capacity(n * n);
        let mut u: usize = 0;
        while u < n
            invariant
                u <= n,
                n * n <= usize::MAX,
                dense@.len() == u * n,
                forall|p: int, q: int| 0 <= p < u && 0 <= q < n ==> #[trigger] dense@[p * n + q] == (if p == q { 0u64 } else { u64::MAX }),
            decreases n - u,
        {
            proof {
                assert((u + 1) * n <= n * n) by (nonlinear_arith)
                    requires u < n;
                assert((u + 1) * n == u * n + n) by (nonlinear_arith);
            }
            let mut v: usize = 0;
            while v < n
                invariant
                    u < n,
                    v <= n,
                    n * n <= usize::MAX,
                    (u + 1) * n <= n * n,
                    dense@.len() == u * n + v,
                    forall|p: int, q: int| ((0 <= p < u && 0 <= q < n) || (p == u && 0 <= q < v)) ==> #[trigger] dense@[p * n + q] == (if p == q { 0u64 } else { u64::MAX }),
                decreases n - v,
            {
                dense.push(if u == v { 0 } else { u64::MAX });
                proof {
                    assert forall|p: int, q: int| ((0 <= p < u && 0 <= q < n) || (p == u && 0 <= q < v + 1)) implies #[trigger] dense@[p * n + q] == (if p == q { 0u64 } else { u64::MAX }) by {
                        if p < u {
                            assert(p * n + q < u * n) by (nonlinear_arith)
                                requires p < u, q < n;
                        }
                    }
                }
                v = v + 1;
            }
            u = u + 1;
        }
        let mut e: usize = 0;
        while e < self.edges.len()
            invariant
                self.wf(),
                n == self.n,
                n * n <= usize::MAX,
                e <= self.edges@.len(),
                dense@.len() == n * n,
                forall|p: int, q: int| 0 <= p < n && 0 <= q < n ==> #[trigger] dense@[p * n + q] == lightest(
                    self.edges@,
                    p,
                    q,
                    if p == q { 0u64 } else { u64::MAX },
                    e as nat,
                ),
            decreases self.edges@.len() - e,
        {
            let (a, b, w) = self.edges[e];
            proof {
                lemma_cell_n(a as int, b as int, n as int);
            }
            let slot = dense[a * n + b];
            dense.set(a * n + b, if w < slot { w } else { slot });
            proof {
                assert forall|p: int, q: int| 0 <= p < n && 0 <= q < n implies #[trigger] dense@[p * n + q] == lightest(
                    self.edges@,
                    p,
                    q,
                    if p == q { 0u64 } else { u64::MAX },
                    (e + 1) as nat,
                ) by {
                    lemma_cell_n(p, q, n as int);
                }
            }
            e = e + 1;
        }
        let l = PaddedTileLattice::from_dense(n, n, dense.as_slice(), self.geom).unwrap();
        proof {
            assert forall|p: int| 0 <= p < n implies #[trigger] l@[p] =~= tropical_adjacency_spec(n as nat, self.edges@)[p] by {
                assert forall|q: int| 0 <= q < n implies #[trigger] l@[p][q] == tropical_adjacency_spec(n as nat, self.edges@)[p][q] by {
                    assert(l@[p][q] == dense@[p * n + q]);
                }
            }
            assert(l@ =~= tropical_adjacency_spec(n as nat, self.edges@));
        }
        l
    }

    /// Build the `0/1` adjacency lattice with no self-loops, for walk counting.
    fn plain_adjacency(&self) -> (l: PaddedTileLattice<u64>)
        requires
            self.wf(),
            self.fits_lattice(),
        ensures
            l.wf(),
            l.spec_rows() == self.n,
            l.spec_cols() == self.n,
            l.spec_geometry() == self.geom,
            l@ == plain_adjacency_spec(self.n as nat, self.edges@),
            exists|d: u64| is_default(d) && l.padding_is(d),
    {
        let n = self.n;
        proof {
            lemma_shape_fits(n as int, n as int, self.geom);
        }
        let mut dense: Vec<u64> = Vec::with_capacity(n * n);
        let mut z: usize = 0;
        while z < n * n
            invariant
                z <= n * n,
                n * n <= usize::MAX,
                dense@ == Seq::new(z as nat, |_q: int| 0u64),
            decreases n * n - z,
        {
            dense.push(0);
            z = z + 1;
        }
        proof {
            assert forall|p: int, q: int| 0 <= p < n && 0 <= q < n implies #[trigger] dense@[p * n + q] == 0u64 by {
                lemma_cell_n(p, q, n as int);
            }
        }
        let mut e: usize = 0;
        while e < self.edges.len()
            invariant
                self.wf(),
                n == self.n,
                n * n <= usize::MAX,
                e <= self.edges@.len(),
                dense@.len() == n * n,
                forall|p: int, q: int| 0 <= p < n && 0 <= q < n ==> #[trigger] dense@[p * n + q] == (if exists|k: int| 0 <= k < e && #[trigger] self.edges@[k].0 == p && self.edges@[k].1 == q {
                    1u64
                } else {
                    0u64
                }),
            decreases self.edges@.len() - e,
        {
            let (a, b, _) = self.edges[e];
            proof {
                lemma_cell_n(a as int, b as int, n as int);
            }
            dense.set(a * n + b, 1);
            proof {
                assert forall|p: int, q: int| 0 <= p < n && 0 <= q < n implies #[trigger] dense@[p * n + q] == (if exists|k: int| 0 <= k < e + 1 && #[trigger] self.edges@[k].0 == p && self.edges@[k].1 == q {
                    1u64
                } else {
                    0u64
                }) by {
                    lemma_cell_n(p, q, n as int);
                    if p == a && q == b {
                        assert(self.edges@[e as int].0 == p && self.edges@[e as int].1 == q);
                    } else {
                        if exists|k: int| 0 <= k < e + 1 && #[trigger] self.edges@[k].0 == p && self.edges@[k].1 == q {
                            let k = choose|k: int| 0 <= k < e + 1 && #[trigger] self.edges@[k].0 == p && self.edges@[k].1 == q;
                            assert(k != e);
                        }
                    }
                }
            }
            e = e + 1;
        }
        let l = PaddedTileLattice::from_dense(n, n, dense.as_slice(), self.geom).unwrap();
        proof {
            assert forall|p: int| 0 <= p < n implies #[trigger] l@[p] =~= plain_adjacency_spec(n as nat, self.edges@)[p] by {
                assert forall|q: int| 0 <= q < n implies #[trigger] l@[p][q] == plain_adjacency_spec(n as nat, self.edges@)[p][q] by {
                    assert(l@[p][q] == dense@[p * n + q]);
                }
            }
            assert(l@ =~= plain_adjacency_spec(n as nat, self.edges@));
        }
        l
    }

    /// Number of squarings needed to reach any path length up to `n`:
    /// `⌈log₂(max(1, n))⌉`.
    fn squarings(&self) -> (s: u32)
        requires
            self.wf(),
            self.fits_lattice(),
        ensures
            pow2(s as nat) >= (if self.n > 1 { self.n as nat } else { 1 }),
            s == 0 || pow2((s - 1) as nat) < (if self.n > 1 { self.n as nat } else { 1 }),
            s as nat == self.spec_squarings(),
    {
        let target = if self.n > 1 { self.n } else { 1 };
        proof {
            lemma_shape_fits(self.n as int, self.n as int, self.geom);
            assert(target <= usize::MAX / 2 + 1) by (nonlinear_arith)
                requires
                    target <= self.n || target == 1,
                    self.n * self.n <= usize::MAX,
                    target >= 1,
            ;
        }
        let mut steps: u32 = 0;
        let mut reach: usize = 1;
        while reach < target
            invariant
                1 <= target <= usize::MAX / 2 + 1,
                reach == pow2(steps as nat),
                steps == 0 || pow2((steps - 1) as nat) < target,
                reach <= 2 * target,
                reach >= 1,
                steps < 64,
                reach <= usize::MAX,
            decreases 2 * target - reach,
        {
            reach = reach * 2;
            steps = steps + 1;
            proof {
                lemma_pow2_small(steps as nat);
            }
        }
        proof {
            let spec_n: nat = if self.n > 1 { self.n as nat } else { 1 };
            assert(target == spec_n);
            lemma_log2_ceil(self.n as nat);
            lemma_squarings_unique(steps as nat, self.spec_squarings(), spec_n);
        }
        steps
    }

    /// Raise a lattice to its closure power over semiring `S` by repeated squaring.
    fn close<S: Semiring>(&self, m: PaddedTileLattice<S::Elem>) -> (r: PaddedTileLattice<S::Elem>)
        requires
            self.wf(),
            self.fits_lattice(),
            m.wf(),
            m.spec_rows() == self.n,
            m.spec_cols() == self.n,
            m.spec_geometry() == self.geom,
            exists|d: S::Elem| is_default(d) && m.padding_is(d),
        ensures
            r.wf(),
            r.spec_rows() == self.n,
            r.spec_cols() == self.n,
            r.spec_geometry() == self.geom,
            r@ == squared::<S>(m@, self.n as nat, self.spec_squarings()),
            exists|d: S::Elem| is_default(d) && r.padding_is(d),
    {
        let steps = self.squarings();
        let ghost m0 = m@;
        let mut m = m;
        let mut i: u32 = 0;
        while i < steps
            invariant
                self.wf(),
                self.fits_lattice(),
                i <= steps,
                m.wf(),
                m.spec_rows() == self.n,
                m.spec_cols() == self.n,
                m.spec_geometry() == self.geom,
                m@ == squared::<S>(m0, self.n as nat, i as nat),
                exists|d: S::Elem| is_default(d) && m.padding_is(d),
            decreases steps - i,
        {
            m = semiring_matmul::<S>(&m, &m).unwrap();
            i = i + 1;
        }
        m
    }

    /// The reflexive-transitive closure, computed as boolean matrix powers:
    /// the reflexive adjacency squared `⌈log₂ n⌉` times.
    pub fn reachability(&self) -> (r: PaddedTileLattice<bool>)
        requires
            self.wf(),
            self.fits_lattice(),
        ensures
            r.wf(),
            // Padding slots hold the default value.
            exists|d: bool| is_default(d) && r.padding_is(d),
            r.spec_rows() == self.spec_nodes(),
            r.spec_cols() == self.spec_nodes(),
            r.spec_geometry() == self.spec_geometry(),
            r@ == squared::<Boolean>(
                reflexive_boolean_spec(self.spec_nodes() as nat, self.spec_edges()),
                self.spec_nodes() as nat,
                self.spec_squarings(),
            ),
            forall|u: int, v: int|
                0 <= u < self.spec_nodes() && 0 <= v < self.spec_nodes() ==> #[trigger] r@[u][v] == graph_reachable(self.spec_edges(), u, v),
    {
        let r = self.close::<Boolean>(self.reflexive_boolean());
        proof {
            lemma_log2_ceil(self.n as nat);
            assert forall|u: int, v: int| 0 <= u < self.n && 0 <= v < self.n implies #[trigger] r@[u][v] == graph_reachable(self.edges@, u, v) by {
                lemma_closure_reachable(self.edges@, self.n as nat, self.spec_squarings(), u, v);
            }
        }
        r
    }

    /// True if `v` is reachable from `u` (including `u == v`).
    pub fn reachable(&self, u: usize, v: usize) -> (r: bool)
        requires
            self.wf(),
            self.fits_lattice(),
            u < self.spec_nodes() && v < self.spec_nodes(),
        ensures
            r == squared::<Boolean>(
                reflexive_boolean_spec(self.spec_nodes() as nat, self.spec_edges()),
                self.spec_nodes() as nat,
                self.spec_squarings(),
            )[u as int][v as int],
            r == graph_reachable(self.spec_edges(), u as int, v as int),
    {
        proof {
            lemma_log2_ceil(self.n as nat);
            lemma_closure_reachable(self.edges@, self.n as nat, self.spec_squarings(), u as int, v as int);
        }
        *self.reachability().get(u, v).unwrap()
    }

    /// All-pairs shortest path distances, computed as tropical matrix powers.
    /// Unreachable pairs hold `+∞` (`u64::MAX`).
    pub fn shortest_paths(&self) -> (r: PaddedTileLattice<u64>)
        requires
            self.wf(),
            self.fits_lattice(),
        ensures
            r.wf(),
            // Padding slots hold the default value.
            exists|d: u64| is_default(d) && r.padding_is(d),
            r.spec_rows() == self.spec_nodes(),
            r.spec_cols() == self.spec_nodes(),
            r.spec_geometry() == self.spec_geometry(),
            r@ == squared::<Tropical>(
                tropical_adjacency_spec(self.spec_nodes() as nat, self.spec_edges()),
                self.spec_nodes() as nat,
                self.spec_squarings(),
            ),
            forall|u: int, v: int|
                0 <= u < self.spec_nodes() && 0 <= v < self.spec_nodes() ==> is_min_route_cost(
                    tropical_adjacency_spec(self.spec_nodes() as nat, self.spec_edges()),
                    u,
                    v,
                    self.spec_nodes() as nat,
                    #[trigger] r@[u][v],
                ),
    {
        let r = self.close::<Tropical>(self.tropical_adjacency());
        proof {
            lemma_log2_ceil(self.n as nat);
            assert forall|u: int, v: int| 0 <= u < self.n && 0 <= v < self.n implies is_min_route_cost(
                tropical_adjacency_spec(self.n as nat, self.edges@),
                u,
                v,
                self.n as nat,
                #[trigger] r@[u][v],
            ) by {
                lemma_closure_shortest(self.edges@, self.n as nat, self.spec_squarings(), u, v);
            }
        }
        r
    }

    /// The shortest-path distance from `u` to `v`, or `None` if unreachable.
    pub fn distance(&self, u: usize, v: usize) -> (r: Option<u64>)
        requires
            self.wf(),
            self.fits_lattice(),
            u < self.spec_nodes() && v < self.spec_nodes(),
        ensures
            ({
                let d = squared::<Tropical>(
                    tropical_adjacency_spec(self.spec_nodes() as nat, self.spec_edges()),
                    self.spec_nodes() as nat,
                    self.spec_squarings(),
                )[u as int][v as int];
                r == (if d != u64::MAX { Some(d) } else { None::<u64> })
            }),
            // The distance is the cost of a cheapest route; `None` when every route
            // costs `+∞`.
            r matches Some(d) ==> d != u64::MAX && is_min_route_cost(
                tropical_adjacency_spec(self.spec_nodes() as nat, self.spec_edges()),
                u as int,
                v as int,
                self.spec_nodes() as nat,
                d,
            ),
            r is None ==> is_min_route_cost(
                tropical_adjacency_spec(self.spec_nodes() as nat, self.spec_edges()),
                u as int,
                v as int,
                self.spec_nodes() as nat,
                u64::MAX,
            ),
    {
        let d = *self.shortest_paths().get(u, v).unwrap();
        if d != u64::MAX {
            Some(d)
        } else {
            None
        }
    }

    /// The number of distinct walks of exactly `k` edges from `u` to `v` (modulo
    /// `2^64`), as the `k`-th ordinary matrix power of the adjacency.
    pub fn walk_counts(&self, k: usize) -> (r: PaddedTileLattice<u64>)
        requires
            self.wf(),
            self.fits_lattice(),
        ensures
            r.wf(),
            // Padding slots hold the default value.
            exists|d: u64| is_default(d) && r.padding_is(d),
            r.spec_rows() == self.spec_nodes(),
            r.spec_cols() == self.spec_nodes(),
            r.spec_geometry() == self.spec_geometry(),
            r@ == power_spec(
                plain_adjacency_spec(self.spec_nodes() as nat, self.spec_edges()),
                self.spec_nodes() as nat,
                k as nat,
            ),
            // Entry `(u, v)` counts the walks of exactly `k` edges from `u` to `v`.
            forall|u: int, v: int|
                0 <= u < self.spec_nodes() && 0 <= v < self.spec_nodes() ==> walks(self.spec_edges(), u, v, k as nat).finite()
                    && #[trigger] r@[u][v] == walks(self.spec_edges(), u, v, k as nat).len() as int % word_modulus(),
    {
        proof {
            lemma_walk_counts(self.edges@, self.n as nat, k as nat);
        }
        let n = self.n;
        let adj = self.plain_adjacency();
        if k == 0 {
            // The 0th power is the identity.
            proof {
                lemma_shape_fits(n as int, n as int, self.geom);
            }
            let mut dense: Vec<u64> = Vec::with_capacity(n * n);
            let mut u: usize = 0;
            while u < n
                invariant
                    u <= n,
                    n * n <= usize::MAX,
                    dense@.len() == u * n,
                    forall|p: int, q: int| 0 <= p < u && 0 <= q < n ==> #[trigger] dense@[p * n + q] == (if p == q { 1u64 } else { 0u64 }),
                decreases n - u,
            {
                proof {
                    assert((u + 1) * n <= n * n) by (nonlinear_arith)
                        requires u < n;
                    assert((u + 1) * n == u * n + n) by (nonlinear_arith);
                }
                let mut v: usize = 0;
                while v < n
                    invariant
                        u < n,
                        v <= n,
                        n * n <= usize::MAX,
                        (u + 1) * n <= n * n,
                        dense@.len() == u * n + v,
                        forall|p: int, q: int| ((0 <= p < u && 0 <= q < n) || (p == u && 0 <= q < v)) ==> #[trigger] dense@[p * n + q] == (if p == q { 1u64 } else { 0u64 }),
                    decreases n - v,
                {
                    dense.push(if u == v { 1 } else { 0 });
                    proof {
                        assert forall|p: int, q: int| ((0 <= p < u && 0 <= q < n) || (p == u && 0 <= q < v + 1)) implies #[trigger] dense@[p * n + q] == (if p == q { 1u64 } else { 0u64 }) by {
                            if p < u {
                                assert(p * n + q < u * n) by (nonlinear_arith)
                                    requires p < u, q < n;
                            }
                        }
                    }
                    v = v + 1;
                }
                u = u + 1;
            }
            let l = PaddedTileLattice::from_dense(n, n, dense.as_slice(), self.geom).unwrap();
            proof {
                assert forall|p: int| 0 <= p < n implies #[trigger] l@[p] =~= identity_spec(n as nat)[p] by {
                    assert forall|q: int| 0 <= q < n implies #[trigger] l@[p][q] == identity_spec(n as nat)[p][q] by {
                        assert(l@[p][q] == dense@[p * n + q]);
                    }
                }
                assert(l@ =~= identity_spec(n as nat));
                assert forall|u: int, v: int| 0 <= u < n && 0 <= v < n implies walks(self.edges@, u, v, k as nat).finite()
                    && #[trigger] l@[u][v] == walks(self.edges@, u, v, k as nat).len() as int % word_modulus() by {
                    assert(walks(self.edges@, u, v, k as nat).finite());
                }
            }
            return l;
        }
        let ghost a = adj@;
        let mut acc = self.plain_adjacency();
        let mut i: usize = 1;
        while i < k
            invariant
                self.wf(),
                self.fits_lattice(),
                n == self.n,
                1 <= i <= k,
                adj.wf(),
                adj.spec_rows() == n,
                adj.spec_cols() == n,
                adj.spec_geometry() == self.geom,
                adj@ == a,
                a == plain_adjacency_spec(n as nat, self.edges@),
                acc.wf(),
                acc.spec_rows() == n,
                acc.spec_cols() == n,
                acc.spec_geometry() == self.geom,
                acc@ == power_spec(a, n as nat, i as nat),
                exists|d: u64| is_default(d) && acc.padding_is(d),
            decreases k - i,
        {
            acc = semiring_matmul::<Counting>(&acc, &adj).unwrap();
            i = i + 1;
        }
        proof {
            lemma_walk_counts(self.edges@, n as nat, k as nat);
            assert forall|u: int, v: int| 0 <= u < n && 0 <= v < n implies walks(self.edges@, u, v, k as nat).finite()
                && #[trigger] acc@[u][v] == walks(self.edges@, u, v, k as nat).len() as int % word_modulus() by {
                assert(walks(self.edges@, u, v, k as nat).finite());
            }
        }
        acc
    }
}

/// The squaring count is unique: the least `s` with `2^s >= target`.
proof fn lemma_squarings_unique(s1: nat, s2: nat, target: nat)
    requires
        pow2(s1) >= target,
        s1 == 0 || pow2((s1 - 1) as nat) < target,
        pow2(s2) >= target,
        s2 == 0 || pow2((s2 - 1) as nat) < target,
    ensures
        s1 == s2,
{
    if s1 < s2 {
        lemma_pow2_mono(s1, (s2 - 1) as nat);
    } else if s2 < s1 {
        lemma_pow2_mono(s2, (s1 - 1) as nat);
    }
}

/// `2^s` fits in a machine word only for `s < 64`.
proof fn lemma_pow2_small(s: nat)
    requires
        pow2(s) <= usize::MAX,
    ensures
        s < 64,
{
    if s >= 64 {
        lemma_pow2_mono(64, s);
        assert(pow2(64) == 0x1_0000_0000_0000_0000) by {
            reveal_with_fuel(pow2, 65);
        }
    }
}

proof fn lemma_pow2_mono(a: nat, b: nat)
    requires
        a <= b,
    ensures
        pow2(a) <= pow2(b),
    decreases b,
{
    if a < b {
        lemma_pow2_mono(a, (b - 1) as nat);
    }
}

/// Cell `(p, q)` of an `n x n` grid sits at `p * n + q`, inside the grid, and
/// distinct cells have distinct offsets.
proof fn lemma_cell_n(p: int, q: int, n: int)
    requires
        0 <= p < n,
        0 <= q < n,
    ensures
        0 <= p * n + q < n * n,
        forall|p2: int, q2: int| 0 <= p2 && 0 <= q2 < n && #[trigger] (p2 * n + q2) == p * n + q ==> p2 == p && q2 == q,
{
    assert(0 <= p * n + q < n * n) by (nonlinear_arith)
        requires
            0 <= p < n,
            0 <= q < n,
    ;
    assert forall|p2: int, q2: int| 0 <= p2 && 0 <= q2 < n && #[trigger] (p2 * n + q2) == p * n + q implies p2 == p && q2 == q by {
        vstd::arithmetic::div_mod::lemma_fundamental_div_mod_converse(p * n + q, n, p, q);
        vstd::arithmetic::div_mod::lemma_fundamental_div_mod_converse(p2 * n + q2, n, p2, q2);
    }
}

} // verus!
