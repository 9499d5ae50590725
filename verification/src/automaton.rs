//! `TensorAutomaton` — a finite-state machine whose execution is matrix multiply.
//!
//! A deterministic finite automaton is usually run with a branch: "look at the
//! current state and the next symbol, jump to the next state." Branches are what a
//! systolic accelerator is bad at, so the machine is represented as tensors:
//!
//! - the current state is a **one-hot row vector** `s` of width `Q`;
//! - each input symbol `a` has a **transition matrix** `T_a` of shape `Q × Q`,
//!   where `T_a[i, j] = 1` iff reading `a` in state `i` moves to state `j`;
//! - one step is the matmul `s' = s · T_a`, which lands one-hot on the next state.
//!
//! Running a string is a chain of these matmuls. A whole batch of strings advances
//! with `|alphabet|` masked matmuls per position, independent of the batch size.
//! See [`TensorAutomaton::mod_k`]: divisibility by `k` decided purely by matmuls.

use crate::geometry::Geometry;
use crate::lattice::{is_default, PaddedTileLattice};
use crate::semiring::{lemma_dot_select, matmul_spec, semiring_matmul, word_modulus, Counting};
use crate::shape::{lemma_shape_fits, lemma_shape_fits_mono, shape_fits};
use vstd::arithmetic::div_mod::*;
use vstd::prelude::*;

verus! {

broadcast use PaddedTileLattice::lemma_view_dims;

/// The state reached from `s` after reading `input`, by the transition table
/// `table[state][symbol]`.
pub open spec fn run_spec(table: Seq<Seq<usize>>, s: usize, input: Seq<usize>) -> usize
    decreases input.len(),
{
    if input.len() == 0 {
        s
    } else {
        table[run_spec(table, s, input.drop_last()) as int][input.last() as int]
    }
}

/// The one-hot vector of width `n` with its `1` at `c`.
pub open spec fn one_hot(n: nat, c: int) -> Seq<u64> {
    Seq::new(n, |j: int| if j == c { 1u64 } else { 0u64 })
}

/// `i` is the first index holding the maximum of `row` (`0` for an empty row).
pub open spec fn is_first_argmax(row: Seq<u64>, i: int) -> bool {
    if row.len() == 0 {
        i == 0
    } else {
        &&& 0 <= i < row.len()
        &&& forall|j: int| 0 <= j < row.len() ==> row[j] <= row[i]
        &&& forall|j: int| 0 <= j < i ==> row[j] < row[i]
    }
}

/// Every symbol of `input` is below `n`.
pub open spec fn symbols_below(input: Seq<usize>, n: usize) -> bool {
    forall|t: int| 0 <= t < input.len() ==> #[trigger] input[t] < n
}

/// A table whose every row has `syms` entries, each a state below `states`.
pub open spec fn table_ok(table: Seq<Seq<usize>>, states: usize, syms: usize) -> bool {
    &&& table.len() == states
    &&& forall|s: int| 0 <= s < states ==> #[trigger] table[s].len() == syms
    &&& forall|s: int, a: int| 0 <= s < states && 0 <= a < syms ==> #[trigger] table[s][a] < states
}

/// Running a table that stays in range stays in range.
pub proof fn lemma_run_in_range(table: Seq<Seq<usize>>, states: usize, syms: usize, s: usize, input: Seq<usize>)
    requires
        table_ok(table, states, syms),
        s < states,
        symbols_below(input, syms),
    ensures
        run_spec(table, s, input) < states,
    decreases input.len(),
{
    if input.len() > 0 {
        lemma_run_in_range(table, states, syms, s, input.drop_last());
        assert(input.last() < syms);
    }
}

/// The value of a binary string read most significant bit first.
pub open spec fn bits_value(input: Seq<usize>) -> int
    decreases input.len(),
{
    if input.len() == 0 {
        0
    } else {
        2 * bits_value(input.drop_last()) + input.last()
    }
}

/// The divisibility law: running the mod-`k` transition table over a binary
/// string lands on the string's value modulo `k`.
pub proof fn lemma_mod_k_run(table: Seq<Seq<usize>>, k: usize, input: Seq<usize>)
    requires
        k > 0,
        table.len() == k,
        forall|q: int| 0 <= q < k ==> #[trigger] table[q] == seq![((2 * q) % (k as int)) as usize, ((2 * q + 1) % (k as int)) as usize],
        symbols_below(input, 2),
    ensures
        run_spec(table, 0, input) == bits_value(input) % (k as int),
        0 <= bits_value(input),
    decreases input.len(),
{
    if input.len() == 0 {
        lemma_small_mod(0, k as nat);
    } else {
        let prefix = input.drop_last();
        assert(symbols_below(prefix, 2)) by {
            assert forall|t: int| 0 <= t < prefix.len() implies #[trigger] prefix[t] < 2 by {
                assert(prefix[t] == input[t]);
            }
        }
        lemma_mod_k_run(table, k, prefix);
        let v = bits_value(prefix);
        let s = run_spec(table, 0, prefix) as int;
        let b = input.last() as int;
        assert(input.last() < 2);
        lemma_mod_bound(v, k as int);
        // (2 (v mod k) + b) mod k == (2 v + b) mod k
        lemma_add_mod_noop(2 * v, b, k as int);
        lemma_add_mod_noop(2 * s, b, k as int);
        lemma_mul_mod_noop_right(2, v, k as int);
        lemma_mod_bound(2 * s + b, k as int);
        if b == 0 {
            assert(table[s][0] == ((2 * s) % (k as int)) as usize);
            lemma_small_mod(b as nat, k as nat);
        } else {
            assert(table[s][1] == ((2 * s + 1) % (k as int)) as usize);
        }
        assert((2 * s + b) % (k as int) == (2 * v + b) % (k as int)) by {
            lemma_mod_bound(b, k as int);
            lemma_mod_mod(2 * v, k as int, 1);
        }
        lemma_mod_bound(2 * s, k as int);
        lemma_mod_bound(2 * s + 1, k as int);
    }
}

/// `v` holds `b` rows of width `q`, row `i` one-hot at `cs[i]` (a row whose hot
/// position is out of range is all zeros).
pub open spec fn rows_one_hot(v: Seq<u64>, b: int, q: int, cs: Seq<int>) -> bool {
    &&& v.len() == b * q
    &&& cs.len() == b
    &&& forall|i: int, j: int| 0 <= i < b && 0 <= j < q ==> #[trigger] v[i * q + j] == (if j == cs[i] { 1u64 } else { 0u64 })
}

/// The state string `input` has reached after its first `t` symbols (all of it
/// once `t` passes its end).
pub open spec fn state_at(table: Seq<Seq<usize>>, start: usize, input: Seq<usize>, t: int) -> usize {
    run_spec(table, start, input.subrange(0, if t < input.len() { t } else { input.len() as int }))
}

/// One more position moves a string's state by its next symbol, or not at all
/// once the string has ended.
pub proof fn lemma_state_step(table: Seq<Seq<usize>>, start: usize, input: Seq<usize>, t: int)
    requires
        0 <= t,
    ensures
        state_at(table, start, input, t + 1) == (if t < input.len() {
            table[state_at(table, start, input, t) as int][input[t] as int]
        } else {
            state_at(table, start, input, t)
        }),
{
    if t < input.len() {
        assert(input.subrange(0, t + 1).drop_last() =~= input.subrange(0, t));
    }
}

/// A deterministic finite automaton executed as matrix multiplies.
#[derive(Clone)]
pub struct TensorAutomaton {
    num_states: usize,
    num_symbols: usize,
    start: usize,
    accept: Vec<bool>,
    geom: Geometry,
    /// `matrices[a]` is the `Q × Q` transition matrix for symbol `a`.
    matrices: Vec<PaddedTileLattice<u64>>,
    table: Ghost<Seq<Seq<usize>>>,
}

/// The index of the first largest entry of a row (`0` for an empty row).
fn argmax_row(row: &[u64]) -> (i: usize)
    ensures
        is_first_argmax(row@, i as int),
{
    if row.len() == 0 {
        return 0;
    }
    let mut best: usize = 0;
    let mut i: usize = 1;
    while i < row.len()
        invariant
            1 <= i <= row@.len(),
            best < i,
            forall|j: int| 0 <= j < i ==> row@[j] <= row@[best as int],
            forall|j: int| 0 <= j < best ==> row@[j] < row@[best as int],
        decreases row@.len() - i,
    {
        if row[i] > row[best] {
            best = i;
        }
        i = i + 1;
    }
    best
}

/// The first argmax of a one-hot row is its hot position.
proof fn lemma_argmax_one_hot(n: nat, c: int, i: int)
    requires
        0 <= c < n,
        is_first_argmax(one_hot(n, c), i),
    ensures
        i == c,
{
    let row = one_hot(n, c);
    assert(row[c] == 1u64);
    if i != c {
        assert(row[c] <= row[i]);
    }
}

impl TensorAutomaton {
    /// The automaton invariant: one `Q × Q` transition matrix per symbol, each the
    /// 0/1 image of the transition table.
    pub closed spec fn wf(&self) -> bool {
        &&& self.num_states > 0
        &&& self.accept@.len() == self.num_states
        &&& self.matrices@.len() == self.num_symbols
        &&& self.geom == Geometry::tpu_v_spec()
        &&& shape_fits(self.num_states as int, self.num_states as int, self.geom)
        &&& table_ok(self.table@, self.num_states, self.num_symbols)
        &&& forall|a: int|
            0 <= a < self.num_symbols ==> {
                &&& (#[trigger] self.matrices@[a]).wf()
                &&& self.matrices@[a].spec_rows() == self.num_states
                &&& self.matrices@[a].spec_cols() == self.num_states
                &&& self.matrices@[a].spec_geometry() == self.geom
                &&& exists|d: u64| is_default(d) && self.matrices@[a].padding_is(d)
                &&& forall|s: int, j: int|
                    0 <= s < self.num_states && 0 <= j < self.num_states ==> #[trigger] self.matrices@[a]@[s][j]
                        == (if j == self.table@[s][a] { 1u64 } else { 0u64 })
            }
    }

    /// Number of states `Q`.
    pub closed spec fn spec_num_states(&self) -> usize {
        self.num_states
    }

    /// Alphabet size.
    pub closed spec fn spec_num_symbols(&self) -> usize {
        self.num_symbols
    }

    /// The start state.
    pub closed spec fn spec_start(&self) -> usize {
        self.start
    }

    /// The accepting flag of each state.
    pub closed spec fn spec_accept(&self) -> Seq<bool> {
        self.accept@
    }

    /// The transition table: `spec_table()[state][symbol]` is the next state.
    pub closed spec fn spec_table(&self) -> Seq<Seq<usize>> {
        self.table@
    }

    /// The transition matrices.
    pub closed spec fn spec_matrices(&self) -> Seq<PaddedTileLattice<u64>> {
        self.matrices@
    }

    /// The state reached after reading `input` from the start state.
    pub open spec fn spec_run(&self, input: Seq<usize>) -> usize {
        run_spec(self.spec_table(), self.spec_start(), input)
    }

    /// Whether `input` is accepted.
    pub open spec fn spec_accepts(&self, input: Seq<usize>) -> bool {
        self.spec_accept()[self.spec_run(input) as int]
    }

    /// Build an automaton from an explicit transition table: `trans[state][symbol]`
    /// is the next state. The alphabet is the width of the first row.
    pub fn new(start: usize, accept: Vec<bool>, trans: Vec<Vec<usize>>) -> (r: Self)
        requires
            trans@.len() > 0,
            accept@.len() == trans@.len(),
            forall|s: int| 0 <= s < trans@.len() ==> #[trigger] trans@[s]@.len() >= trans@[0]@.len(),
            forall|s: int, a: int|
                0 <= s < trans@.len() && 0 <= a < trans@[0]@.len() ==> #[trigger] trans@[s]@[a] < trans@.len(),
            shape_fits(trans@.len() as int, trans@.len() as int, Geometry::tpu_v_spec()),
        ensures
            r.wf(),
            r.spec_num_states() == trans@.len(),
            r.spec_num_symbols() == trans@[0]@.len(),
            r.spec_start() == start,
            r.spec_accept() == accept@,
            r.spec_table() == Seq::new(
                trans@.len(),
                |s: int| trans@[s]@.subrange(0, trans@[0]@.len() as int),
            ),
    {
        let num_states = trans.len();
        let num_symbols = trans[0].len();
        let geom = Geometry::tpu_v();
        let ghost table = Seq::new(num_states as nat, |s: int| trans@[s]@.subrange(0, num_symbols as int));
        proof {
            lemma_shape_fits(num_states as int, num_states as int, geom);
        }
        let total = num_states * num_states;
        let mut matrices: Vec<PaddedTileLattice<u64>> = Vec::new();
        let mut a: usize = 0;
        while a < num_symbols
            invariant
                a <= num_symbols,
                num_states == trans@.len(),
                num_symbols == trans@[0]@.len(),
                total == num_states * num_states,
                geom == Geometry::tpu_v_spec(),
                shape_fits(num_states as int, num_states as int, geom),
                table == Seq::new(num_states as nat, |s: int| trans@[s]@.subrange(0, num_symbols as int)),
                forall|s: int| 0 <= s < trans@.len() ==> #[trigger] trans@[s]@.len() >= trans@[0]@.len(),
                forall|s: int, b: int|
                    0 <= s < trans@.len() && 0 <= b < trans@[0]@.len() ==> #[trigger] trans@[s]@[b] < trans@.len(),
                matrices@.len() == a,
                forall|b: int|
                    0 <= b < a ==> {
                        &&& (#[trigger] matrices@[b]).wf()
                        &&& matrices@[b].spec_rows() == num_states
                        &&& matrices@[b].spec_cols() == num_states
                        &&& matrices@[b].spec_geometry() == geom
                        &&& exists|d: u64| is_default(d) && matrices@[b].padding_is(d)
                        &&& forall|s: int, j: int|
                            0 <= s < num_states && 0 <= j < num_states ==> #[trigger] matrices@[b]@[s][j]
                                == (if j == table[s][b] { 1u64 } else { 0u64 })
                    },
            decreases num_symbols - a,
        {
            let mut dense: Vec<u64> = Vec::with_capacity(total);
            let mut z: usize = 0;
            while z < total
                invariant
                    z <= total,
                    dense@ == Seq::new(z as nat, |_q: int| 0u64),
                decreases total - z,
            {
                dense.push(0);
                z = z + 1;
            }
            proof {
                assert forall|s: int, j: int| 0 <= s < num_states && 0 <= j < num_states implies #[trigger] dense@[s * num_states + j] == 0u64 by {
                    lemma_cell_of(s, j, num_states as int, num_states as int);
                }
            }
            let mut s: usize = 0;
            while s < num_states
                invariant
                    a < num_symbols,
                    s <= num_states,
                    num_states == trans@.len(),
                    num_symbols == trans@[0]@.len(),
                    total == num_states * num_states,
                    dense@.len() == total,
                    forall|s2: int| 0 <= s2 < trans@.len() ==> #[trigger] trans@[s2]@.len() >= trans@[0]@.len(),
                    forall|s2: int, b: int|
                        0 <= s2 < trans@.len() && 0 <= b < trans@[0]@.len() ==> #[trigger] trans@[s2]@[b] < trans@.len(),
                    forall|s2: int, j: int|
                        0 <= s2 < num_states && 0 <= j < num_states ==> #[trigger] dense@[s2 * num_states + j] == (if s2 < s && j == trans@[s2]@[a as int] {
                            1u64
                        } else {
                            0u64
                        }),
                decreases num_states - s,
            {
                let next = trans[s][a];
                proof {
                    lemma_cell_of(s as int, next as int, num_states as int, num_states as int);
                }
                dense.set(s * num_states + next, 1);
                proof {
                    assert forall|s2: int, j: int| 0 <= s2 < num_states && 0 <= j < num_states implies #[trigger] dense@[s2 * num_states + j] == (if s2 < s + 1 && j == trans@[s2]@[a as int] {
                        1u64
                    } else {
                        0u64
                    }) by {
                        lemma_cell_of(s2, j, num_states as int, num_states as int);
                        if s2 * num_states + j == s * num_states + next {
                            assert(s2 == s && j == next);
                        }
                    }
                }
                s = s + 1;
            }
            let lat = PaddedTileLattice::from_dense(num_states, num_states, dense.as_slice(), geom).unwrap();
            proof {
                assert forall|s2: int, j: int| 0 <= s2 < num_states && 0 <= j < num_states implies #[trigger] lat@[s2][j]
                    == (if j == table[s2][a as int] { 1u64 } else { 0u64 }) by {
                    assert(lat@[s2][j] == dense@[s2 * num_states + j]);
                }
            }
            matrices.push(lat);
            a = a + 1;
        }
        let r = TensorAutomaton { num_states, num_symbols, start, accept, geom, matrices, table: Ghost(table) };
        proof {
            assert(table_ok(table, num_states, num_symbols)) by {
                assert forall|s: int, b: int| 0 <= s < num_states && 0 <= b < num_symbols implies #[trigger] table[s][b] < num_states by {
                    assert(table[s][b] == trans@[s]@[b]);
                }
            }
        }
        r
    }

    /// The automaton over alphabet `{0, 1}` that accepts binary strings (most
    /// significant bit first) whose value is divisible by `k`. State `s` is the
    /// running value mod `k`; reading bit `b` goes to `(2s + b) mod k`.
    pub fn mod_k(k: usize) -> (r: Self)
        requires
            k > 0,
            shape_fits(k as int, k as int, Geometry::tpu_v_spec()),
        ensures
            r.wf(),
            r.spec_num_states() == k,
            r.spec_num_symbols() == 2,
            r.spec_start() == 0,
            forall|input: Seq<usize>| #[trigger] symbols_below(input, 2) ==> r.spec_run(input) == bits_value(input) % (k as int),
            forall|input: Seq<usize>| #[trigger] symbols_below(input, 2) ==> (r.spec_accepts(input) <==> bits_value(input) % (k as int) == 0),
    {
        proof {
            lemma_shape_fits(k as int, k as int, Geometry::tpu_v_spec());
            assert(2 * k <= k * k || k == 1) by (nonlinear_arith)
                requires
                    k > 0,
            ;
        }
        let mut trans: Vec<Vec<usize>> = Vec::with_capacity(k);
        let mut accept: Vec<bool> = Vec::with_capacity(k);
        let mut s: usize = 0;
        while s < k
            invariant
                s <= k,
                k > 0,
                2 * k <= usize::MAX,
                trans@.len() == s,
                accept@.len() == s,
                forall|q: int| 0 <= q < s ==> #[trigger] trans@[q]@ == seq![((2 * q) % (k as int)) as usize, ((2 * q + 1) % (k as int)) as usize],
                forall|q: int| 0 <= q < s ==> #[trigger] accept@[q] == (q == 0),
            decreases k - s,
        {
            let mut row: Vec<usize> = Vec::with_capacity(2);
            row.push((2 * s) % k);
            row.push((2 * s + 1) % k);
            proof {
                assert(row@ =~= seq![((2 * s) % (k as int)) as usize, ((2 * s + 1) % (k as int)) as usize]);
            }
            trans.push(row);
            accept.push(s == 0);
            s = s + 1;
        }
        proof {
            assert forall|q: int, a: int| 0 <= q < k && 0 <= a < trans@[0]@.len() implies #[trigger] trans@[q]@[a] < trans@.len() by {
                assert(trans@[q]@ == seq![((2 * q) % (k as int)) as usize, ((2 * q + 1) % (k as int)) as usize]);
                lemma_mod_bound(2 * q, k as int);
                lemma_mod_bound(2 * q + 1, k as int);
            }
        }
        let ghost tr = trans@;
        let r = TensorAutomaton::new(0, accept, trans);
        proof {
            assert forall|q: int| 0 <= q < k implies #[trigger] r.spec_table()[q] == seq![((2 * q) % (k as int)) as usize, ((2 * q + 1) % (k as int)) as usize] by {
                assert(tr[q]@ == seq![((2 * q) % (k as int)) as usize, ((2 * q + 1) % (k as int)) as usize]);
                assert(r.spec_table()[q] =~= tr[q]@.subrange(0, 2));
                assert(tr[q]@.subrange(0, 2) =~= tr[q]@);
            }
            assert forall|input: Seq<usize>| #[trigger] symbols_below(input, 2) implies r.spec_run(input) == bits_value(input) % (k as int) by {
                lemma_mod_k_run(r.spec_table(), k, input);
            }
            assert forall|input: Seq<usize>| #[trigger] symbols_below(input, 2) implies (r.spec_accepts(input) <==> bits_value(input) % (k as int) == 0) by {
                lemma_mod_k_run(r.spec_table(), k, input);
                lemma_mod_bound(bits_value(input), k as int);
            }
        }
        r
    }

    /// The rows of `states` whose string reads `a` at position `t`, others zeroed.
    fn masked_rows(
        &self,
        states: &Vec<u64>,
        inputs: &[&[usize]],
        t: usize,
        a: usize,
        Ghost(cs): Ghost<Seq<int>>,
    ) -> (r: (Vec<u64>, bool))
        requires
            self.wf(),
            inputs@.len() * self.num_states <= usize::MAX,
            rows_one_hot(states@, inputs@.len() as int, self.num_states as int, cs),
        ensures
            rows_one_hot(
                r.0@,
                inputs@.len() as int,
                self.num_states as int,
                Seq::new(inputs@.len(), |i: int| if t < inputs@[i]@.len() && inputs@[i]@[t as int] == a { cs[i] } else { -1 }),
            ),
            r.1 == exists|i: int| 0 <= i < inputs@.len() && t < inputs@[i]@.len() && #[trigger] inputs@[i]@[t as int] == a,
    {
        let b = inputs.len();
        let q = self.num_states;
        let ghost ms = Seq::new(b as nat, |i: int| if t < inputs@[i]@.len() && inputs@[i]@[t as int] == a { cs[i] } else { -1 });
        let mut masked: Vec<u64> = Vec::with_capacity(b * q);
        let mut any = false;
        let mut i: usize = 0;
        while i < b
            invariant
                self.wf(),
                q == self.num_states,
                b == inputs@.len(),
                b * q <= usize::MAX,
                i <= b,
                rows_one_hot(states@, b as int, q as int, cs),
                ms == Seq::new(b as nat, |i: int| if t < inputs@[i]@.len() && inputs@[i]@[t as int] == a { cs[i] } else { -1 }),
                masked@.len() == i * q,
                forall|i2: int, j: int| 0 <= i2 < i && 0 <= j < q ==> #[trigger] masked@[i2 * q + j] == (if j == ms[i2] { 1u64 } else { 0u64 }),
                any == exists|i2: int| 0 <= i2 < i && t < inputs@[i2]@.len() && #[trigger] inputs@[i2]@[t as int] == a,
            decreases b - i,
        {
            let reads = t < inputs[i].len() && inputs[i][t] == a;
            if reads {
                any = true;
            }
            proof {
                assert((i + 1) * q == i * q + q) by (nonlinear_arith);
                assert((i + 1) * q <= b * q) by (nonlinear_arith)
                    requires i < b;
            }
            let mut j: usize = 0;
            while j < q
                invariant
                    self.wf(),
                    q == self.num_states,
                    b == inputs@.len(),
                    b * q <= usize::MAX,
                    i < b,
                    j <= q,
                    (i + 1) * q <= b * q,
                    rows_one_hot(states@, b as int, q as int, cs),
                    ms == Seq::new(b as nat, |i: int| if t < inputs@[i]@.len() && inputs@[i]@[t as int] == a { cs[i] } else { -1 }),
                    reads == (t < inputs@[i as int]@.len() && inputs@[i as int]@[t as int] == a),
                    masked@.len() == i * q + j,
                    forall|i2: int, j2: int| ((0 <= i2 < i && 0 <= j2 < q) || (i2 == i && 0 <= j2 < j)) ==> #[trigger] masked@[i2 * q + j2] == (if j2 == ms[i2] { 1u64 } else { 0u64 }),
                decreases q - j,
            {
                proof {
                    lemma_cell_of(i as int, j as int, b as int, q as int);
                }
                let v = if reads { states[i * q + j] } else { 0 };
                masked.push(v);
                proof {
                    assert forall|i2: int, j2: int| ((0 <= i2 < i && 0 <= j2 < q) || (i2 == i && 0 <= j2 < j + 1)) implies #[trigger] masked@[i2 * q + j2] == (if j2 == ms[i2] { 1u64 } else { 0u64 }) by {
                        if i2 < i {
                            assert(i2 * q + j2 < i * q) by (nonlinear_arith)
                                requires i2 < i, j2 < q;
                        }
                    }
                }
                j = j + 1;
            }
            i = i + 1;
        }
        (masked, any)
    }

    /// Advance masked one-hot rows through `T_a` with one matmul.
    fn advance(&self, masked: &Vec<u64>, b: usize, a: usize, Ghost(ms): Ghost<Seq<int>>) -> (adv: Vec<u64>)
        requires
            self.wf(),
            b > 0,
            a < self.num_symbols,
            shape_fits(b as int, self.num_states as int, self.geom),
            rows_one_hot(masked@, b as int, self.num_states as int, ms),
            forall|i: int| 0 <= i < b ==> #[trigger] ms[i] == -1 || 0 <= ms[i] < self.num_states,
        ensures
            rows_one_hot(
                adv@,
                b as int,
                self.num_states as int,
                Seq::new(b as nat, |i: int| if ms[i] >= 0 { self.table@[ms[i]][a as int] as int } else { -1 }),
            ),
    {
        let q = self.num_states;
        let m = PaddedTileLattice::from_dense(b, q, masked.as_slice(), self.geom).unwrap();
        let t_a = &self.matrices[a];
        let prod = semiring_matmul::<Counting>(&m, t_a).unwrap();
        let adv = prod.to_dense();
        proof {
            lemma_shape_fits(b as int, q as int, self.geom);
            let target = Seq::new(b as nat, |i: int| if ms[i] >= 0 { self.table@[ms[i]][a as int] as int } else { -1 });
            assert forall|i: int, j: int| 0 <= i < b && 0 <= j < q implies #[trigger] adv@[i * q + j] == (if j == target[i] { 1u64 } else { 0u64 }) by {
                assert(adv@[i * q + j] == prod@[i][j]);
                assert forall|p: int| 0 <= p < q implies #[trigger] m@[i][p] == (if p == ms[i] { 1u64 } else { 0u64 }) by {
                    assert(m@[i][p] == masked@[i * q + p]);
                }
                lemma_dot_select(m@, t_a@, i, j, ms[i], q as nat);
            }
        }
        adv
    }

    /// Run a whole batch of strings, advancing every string at position `t` with
    /// `|alphabet|` masked matmuls — independent of how many strings there are.
    /// Returns the final state of each string.
    pub fn run_batch(&self, inputs: &[&[usize]]) -> (r: Vec<usize>)
        requires
            self.wf(),
            inputs@.len() > 0 ==> self.spec_start() < self.spec_num_states(),
            forall|i: int| 0 <= i < inputs@.len() ==> symbols_below(#[trigger] inputs@[i]@, self.spec_num_symbols()),
            shape_fits(inputs@.len() as int, self.spec_num_states() as int, Geometry::tpu_v_spec()),
        ensures
            r@.len() == inputs@.len(),
            forall|i: int| 0 <= i < inputs@.len() ==> #[trigger] r@[i] == self.spec_run(inputs@[i]@),
    {
        let b = inputs.len();
        let q = self.num_states;
        if b == 0 {
            return Vec::new();
        }
        proof {
            lemma_shape_fits(b as int, q as int, self.geom);
        }
        let mut max_len: usize = 0;
        let mut i: usize = 0;
        while i < b
            invariant
                i <= b,
                b == inputs@.len(),
                forall|i2: int| 0 <= i2 < i ==> #[trigger] inputs@[i2]@.len() <= max_len,
            decreases b - i,
        {
            if inputs[i].len() > max_len {
                max_len = inputs[i].len();
            }
            i = i + 1;
        }
        let ghost table = self.table@;
        let ghost start = self.start;
        // One-hot start state per string.
        let mut states: Vec<u64> = Vec::with_capacity(b * q);
        let mut i: usize = 0;
        while i < b
            invariant
                q == self.num_states,
                start == self.start,
                start < q,
                b * q <= usize::MAX,
                i <= b,
                states@.len() == i * q,
                forall|i2: int, j: int| 0 <= i2 < i && 0 <= j < q ==> #[trigger] states@[i2 * q + j] == (if j == start { 1u64 } else { 0u64 }),
            decreases b - i,
        {
            proof {
                assert((i + 1) * q <= b * q) by (nonlinear_arith)
                    requires i < b;
                assert((i + 1) * q == i * q + q) by (nonlinear_arith);
            }
            let mut j: usize = 0;
            while j < q
                invariant
                    q == self.num_states,
                    start == self.start,
                    b * q <= usize::MAX,
                    i < b,
                    j <= q,
                    (i + 1) * q <= b * q,
                    states@.len() == i * q + j,
                    forall|i2: int, j2: int| ((0 <= i2 < i && 0 <= j2 < q) || (i2 == i && 0 <= j2 < j)) ==> #[trigger] states@[i2 * q + j2] == (if j2 == start { 1u64 } else { 0u64 }),
                decreases q - j,
            {
                states.push(if j == self.start { 1 } else { 0 });
                proof {
                    assert forall|i2: int, j2: int| ((0 <= i2 < i && 0 <= j2 < q) || (i2 == i && 0 <= j2 < j + 1)) implies #[trigger] states@[i2 * q + j2] == (if j2 == start { 1u64 } else { 0u64 }) by {
                        if i2 < i {
                            assert(i2 * q + j2 < i * q) by (nonlinear_arith)
                                requires i2 < i, j2 < q;
                        }
                    }
                }
                j = j + 1;
            }
            i = i + 1;
        }
        proof {
            assert(rows_one_hot(states@, b as int, q as int, Seq::new(b as nat, |i: int| state_at(table, start, inputs@[i]@, 0) as int))) by {
                assert forall|i2: int| 0 <= i2 < b implies #[trigger] state_at(table, start, inputs@[i2]@, 0) == start by {
                    assert(inputs@[i2]@.subrange(0, 0) =~= Seq::<usize>::empty());
                }
            }
        }
        let mut t: usize = 0;
        while t < max_len
            invariant
                self.wf(),
                q == self.num_states,
                table == self.table@,
                start == self.start,
                start < q,
                b == inputs@.len(),
                b > 0,
                b * q <= usize::MAX,
                shape_fits(b as int, q as int, self.geom),
                t <= max_len,
                forall|i2: int| 0 <= i2 < b ==> symbols_below(#[trigger] inputs@[i2]@, self.num_symbols),
                forall|i2: int| 0 <= i2 < b ==> #[trigger] inputs@[i2]@.len() <= max_len,
                rows_one_hot(states@, b as int, q as int, Seq::new(b as nat, |i: int| state_at(table, start, inputs@[i]@, t as int) as int)),
            decreases max_len - t,
        {
            let ghost cs = Seq::new(b as nat, |i: int| state_at(table, start, inputs@[i]@, t as int) as int);
            proof {
                assert forall|i2: int| 0 <= i2 < b implies 0 <= #[trigger] cs[i2] < q by {
                    let len = inputs@[i2]@.len();
                    let pre = inputs@[i2]@.subrange(0, if t < len { t as int } else { len as int });
                    assert(symbols_below(pre, self.num_symbols)) by {
                        assert forall|k: int| 0 <= k < pre.len() implies #[trigger] pre[k] < self.num_symbols by {
                            assert(pre[k] == inputs@[i2]@[k]);
                        }
                    }
                    lemma_run_in_range(table, q, self.num_symbols, start, pre);
                }
            }
            // Strings that have ended carry their state unchanged.
            let mut next: Vec<u64> = Vec::with_capacity(b * q);
            let mut i: usize = 0;
            while i < b
                invariant
                    b == inputs@.len(),
                    b * q <= usize::MAX,
                    i <= b,
                    rows_one_hot(states@, b as int, q as int, cs),
                    next@.len() == i * q,
                    forall|i2: int, j: int| 0 <= i2 < i && 0 <= j < q ==> #[trigger] next@[i2 * q + j] == (if t >= inputs@[i2]@.len() && j == cs[i2] { 1u64 } else { 0u64 }),
                decreases b - i,
            {
                let ended = t >= inputs[i].len();
                proof {
                    assert((i + 1) * q <= b * q) by (nonlinear_arith)
                        requires i < b;
                    assert((i + 1) * q == i * q + q) by (nonlinear_arith);
                }
                let mut j: usize = 0;
                while j < q
                    invariant
                        b == inputs@.len(),
                        b * q <= usize::MAX,
                        i < b,
                        j <= q,
                        (i + 1) * q <= b * q,
                        ended == (t >= inputs@[i as int]@.len()),
                        rows_one_hot(states@, b as int, q as int, cs),
                        next@.len() == i * q + j,
                        forall|i2: int, j2: int| ((0 <= i2 < i && 0 <= j2 < q) || (i2 == i && 0 <= j2 < j)) ==> #[trigger] next@[i2 * q + j2] == (if t >= inputs@[i2]@.len() && j2 == cs[i2] { 1u64 } else { 0u64 }),
                    decreases q - j,
                {
                    proof {
                        lemma_cell_of(i as int, j as int, b as int, q as int);
                    }
                    let v = if ended { states[i * q + j] } else { 0 };
                    next.push(v);
                    proof {
                        assert forall|i2: int, j2: int| ((0 <= i2 < i && 0 <= j2 < q) || (i2 == i && 0 <= j2 < j + 1)) implies #[trigger] next@[i2 * q + j2] == (if t >= inputs@[i2]@.len() && j2 == cs[i2] { 1u64 } else { 0u64 }) by {
                            if i2 < i {
                                assert(i2 * q + j2 < i * q) by (nonlinear_arith)
                                    requires i2 < i, j2 < q;
                            }
                        }
                    }
                    j = j + 1;
                }
                i = i + 1;
            }
            // For each symbol, advance exactly the rows reading that symbol at t.
            let mut a: usize = 0;
            while a < self.num_symbols
                invariant
                    self.wf(),
                    q == self.num_states,
                    table == self.table@,
                    b == inputs@.len(),
                    b > 0,
                    b * q <= usize::MAX,
                    shape_fits(b as int, q as int, self.geom),
                    a <= self.num_symbols,
                    rows_one_hot(states@, b as int, q as int, cs),
                    forall|i2: int| 0 <= i2 < b ==> 0 <= #[trigger] cs[i2] < q,
                    next@.len() == b * q,
                    forall|i2: int, j: int| 0 <= i2 < b && 0 <= j < q ==> #[trigger] next@[i2 * q + j] == (if t >= inputs@[i2]@.len() {
                        if j == cs[i2] { 1u64 } else { 0u64 }
                    } else if inputs@[i2]@[t as int] < a {
                        if j == table[cs[i2]][inputs@[i2]@[t as int] as int] { 1u64 } else { 0u64 }
                    } else {
                        0u64
                    }),
                decreases self.num_symbols - a,
            {
                let (masked, any) = self.masked_rows(&states, inputs, t, a, Ghost(cs));
                if any {
                    let ghost ms = Seq::new(b as nat, |i: int| if t < inputs@[i]@.len() && inputs@[i]@[t as int] == a { cs[i] } else { -1 });
                    let adv = self.advance(&masked, b, a, Ghost(ms));
                    let ghost before = next@;
                    let mut i: usize = 0;
                    while i < b
                        invariant
                            q == self.num_states,
                            b == inputs@.len(),
                            b * q <= usize::MAX,
                            i <= b,
                            next@.len() == b * q,
                            before.len() == b * q,
                            rows_one_hot(
                                adv@,
                                b as int,
                                q as int,
                                Seq::new(b as nat, |i: int| if ms[i] >= 0 { table[ms[i]][a as int] as int } else { -1 }),
                            ),
                            forall|i2: int, j: int| 0 <= i2 < b && 0 <= j < q ==> #[trigger] before[i2 * q + j] + adv@[i2 * q + j] <= 1,
                            forall|i2: int, j: int| 0 <= i2 < b && 0 <= j < q ==> #[trigger] next@[i2 * q + j] == (if i2 < i {
                                (before[i2 * q + j] + adv@[i2 * q + j]) as u64
                            } else {
                                before[i2 * q + j]
                            }),
                        decreases b - i,
                    {
                        let mut j: usize = 0;
                        while j < q
                            invariant
                                q == self.num_states,
                                b == inputs@.len(),
                                b * q <= usize::MAX,
                                i < b,
                                j <= q,
                                next@.len() == b * q,
                                before.len() == b * q,
                                adv@.len() == b * q,
                                forall|i2: int, j2: int| 0 <= i2 < b && 0 <= j2 < q ==> #[trigger] before[i2 * q + j2] + adv@[i2 * q + j2] <= 1,
                                forall|i2: int, j2: int| 0 <= i2 < b && 0 <= j2 < q ==> #[trigger] next@[i2 * q + j2] == (if i2 < i || (i2 == i && j2 < j) {
                                    (before[i2 * q + j2] + adv@[i2 * q + j2]) as u64
                                } else {
                                    before[i2 * q + j2]
                                }),
                            decreases q - j,
                        {
                            proof {
                                lemma_cell_of(i as int, j as int, b as int, q as int);
                            }
                            let v = next[i * q + j] + adv[i * q + j];
                            next.set(i * q + j, v);
                            proof {
                                assert forall|i2: int, j2: int| 0 <= i2 < b && 0 <= j2 < q implies #[trigger] next@[i2 * q + j2] == (if i2 < i || (i2 == i && j2 < j + 1) {
                                    (before[i2 * q + j2] + adv@[i2 * q + j2]) as u64
                                } else {
                                    before[i2 * q + j2]
                                }) by {
                                    lemma_cell_of(i2, j2, b as int, q as int);
                                }
                            }
                            j = j + 1;
                        }
                        i = i + 1;
                    }
                    proof {
                        assert forall|i2: int, j: int| 0 <= i2 < b && 0 <= j < q implies #[trigger] next@[i2 * q + j] == (if t >= inputs@[i2]@.len() {
                            if j == cs[i2] { 1u64 } else { 0u64 }
                        } else if inputs@[i2]@[t as int] < a + 1 {
                            if j == table[cs[i2]][inputs@[i2]@[t as int] as int] { 1u64 } else { 0u64 }
                        } else {
                            0u64
                        }) by {
                            assert(before[i2 * q + j] + adv@[i2 * q + j] <= 1);
                        }
                    }
                } else {
                    proof {
                        assert forall|i2: int, j: int| 0 <= i2 < b && 0 <= j < q implies #[trigger] next@[i2 * q + j] == (if t >= inputs@[i2]@.len() {
                            if j == cs[i2] { 1u64 } else { 0u64 }
                        } else if inputs@[i2]@[t as int] < a + 1 {
                            if j == table[cs[i2]][inputs@[i2]@[t as int] as int] { 1u64 } else { 0u64 }
                        } else {
                            0u64
                        }) by {
                            if t < inputs@[i2]@.len() {
                                assert(inputs@[i2]@[t as int] != a);
                            }
                        }
                    }
                }
                a = a + 1;
            }
            proof {
                let ns = Seq::new(b as nat, |i: int| state_at(table, start, inputs@[i]@, (t + 1) as int) as int);
                assert forall|i2: int, j: int| 0 <= i2 < b && 0 <= j < q implies #[trigger] next@[i2 * q + j] == (if j == ns[i2] { 1u64 } else { 0u64 }) by {
                    lemma_state_step(table, start, inputs@[i2]@, t as int);
                    if t < inputs@[i2]@.len() {
                        assert(inputs@[i2]@[t as int] < self.num_symbols);
                    }
                }
            }
            states = next;
            t = t + 1;
        }
        let mut out: Vec<usize> = Vec::with_capacity(b);
        let mut i: usize = 0;
        while i < b
            invariant
                q == self.num_states,
                table == self.table@,
                start == self.start,
                b == inputs@.len(),
                b * q <= usize::MAX,
                i <= b,
                forall|i2: int| 0 <= i2 < b ==> #[trigger] inputs@[i2]@.len() <= max_len,
                rows_one_hot(states@, b as int, q as int, Seq::new(b as nat, |i: int| state_at(table, start, inputs@[i]@, max_len as int) as int)),
                self.wf(),
                start < q,
                forall|i2: int| 0 <= i2 < b ==> symbols_below(#[trigger] inputs@[i2]@, self.num_symbols),
                out@.len() == i,
                forall|i2: int| 0 <= i2 < i ==> #[trigger] out@[i2] == self.spec_run(inputs@[i2]@),
            decreases b - i,
        {
            proof {
                assert((i + 1) * q <= b * q) by (nonlinear_arith)
                    requires i < b;
                assert((i + 1) * q == i * q + q) by (nonlinear_arith);
            }
            let row = &states.as_slice()[i * q..(i + 1) * q];
            let ghost c = state_at(table, start, inputs@[i as int]@, max_len as int) as int;
            proof {
                let len = inputs@[i as int]@.len();
                assert(inputs@[i as int]@.subrange(0, len as int) =~= inputs@[i as int]@);
                assert(c == self.spec_run(inputs@[i as int]@));
                lemma_run_in_range(table, q, self.num_symbols, start, inputs@[i as int]@);
                assert forall|j: int| 0 <= j < q implies #[trigger] row@[j] == one_hot(q as nat, c)[j] by {
                    assert(row@[j] == states@[i * q + j]);
                }
                assert(row@ =~= one_hot(q as nat, c));
            }
            let r = argmax_row(row);
            proof {
                lemma_argmax_one_hot(q as nat, c, r as int);
            }
            out.push(r);
            i = i + 1;
        }
        out
    }

    /// Accept/reject every string in a batch.
    pub fn batch_accepts(&self, inputs: &[&[usize]]) -> (r: Vec<bool>)
        requires
            self.wf(),
            inputs@.len() > 0 ==> self.spec_start() < self.spec_num_states(),
            forall|i: int| 0 <= i < inputs@.len() ==> symbols_below(#[trigger] inputs@[i]@, self.spec_num_symbols()),
            shape_fits(inputs@.len() as int, self.spec_num_states() as int, Geometry::tpu_v_spec()),
        ensures
            r@.len() == inputs@.len(),
            forall|i: int| 0 <= i < inputs@.len() ==> #[trigger] r@[i] == self.spec_accepts(inputs@[i]@),
    {
        let finals = self.run_batch(inputs);
        let mut out: Vec<bool> = Vec::with_capacity(finals.len());
        let mut i: usize = 0;
        while i < finals.len()
            invariant
                self.wf(),
                inputs@.len() > 0 ==> self.spec_start() < self.spec_num_states(),
                forall|i2: int| 0 <= i2 < inputs@.len() ==> symbols_below(#[trigger] inputs@[i2]@, self.spec_num_symbols()),
                finals@.len() == inputs@.len(),
                forall|i2: int| 0 <= i2 < inputs@.len() ==> #[trigger] finals@[i2] == self.spec_run(inputs@[i2]@),
                i <= finals@.len(),
                out@.len() == i,
                forall|i2: int| 0 <= i2 < i ==> #[trigger] out@[i2] == self.spec_accepts(inputs@[i2]@),
            decreases finals@.len() - i,
        {
            proof {
                lemma_run_in_range(self.table@, self.num_states, self.num_symbols, self.start, inputs@[i as int]@);
            }
            out.push(self.accept[finals[i]]);
            i = i + 1;
        }
        out
    }

    /// Number of states `Q`.
    pub fn num_states(&self) -> (r: usize)
        ensures
            r == self.spec_num_states(),
    {
        self.num_states
    }

    /// Alphabet size.
    pub fn num_symbols(&self) -> (r: usize)
        ensures
            r == self.spec_num_symbols(),
    {
        self.num_symbols
    }

    /// True if `state` is an accepting state.
    pub fn is_accepting(&self, state: usize) -> (r: bool)
        requires
            self.wf(),
            state < self.spec_num_states(),
        ensures
            r == self.spec_accept()[state as int],
    {
        self.accept[state]
    }

    /// The transition matrix for `symbol` (a `Q × Q` lattice).
    pub fn transition(&self, symbol: usize) -> (m: &PaddedTileLattice<u64>)
        requires
            self.wf(),
            symbol < self.spec_num_symbols(),
        ensures
            *m == self.spec_matrices()[symbol as int],
            m.wf(),
            // Padding slots hold the default value.
            exists|d: u64| is_default(d) && m.padding_is(d),
            forall|s: int, j: int|
                0 <= s < self.spec_num_states() && 0 <= j < self.spec_num_states() ==> #[trigger] m@[s][j]
                    == (if j == self.spec_table()[s][symbol as int] { 1u64 } else { 0u64 }),
    {
        &self.matrices[symbol]
    }

    /// One matmul step: the one-hot state `s` times `T_symbol` is the one-hot
    /// successor.
    fn step(&self, state: &Vec<u64>, symbol: usize, Ghost(s): Ghost<usize>) -> (next: Vec<u64>)
        requires
            self.wf(),
            symbol < self.num_symbols,
            s < self.num_states,
            state@ == one_hot(self.num_states as nat, s as int),
        ensures
            next@ == one_hot(self.num_states as nat, self.table@[s as int][symbol as int] as int),
    {
        let q = self.num_states;
        proof {
            lemma_shape_fits_mono(1, q as int, q as int, q as int, self.geom);
        }
        let s_lat = PaddedTileLattice::from_dense(1, q, state.as_slice(), self.geom).unwrap();
        let m = &self.matrices[symbol];
        let prod = semiring_matmul::<Counting>(&s_lat, m).unwrap();
        let next = prod.to_dense();
        proof {
            let t = self.table@[s as int][symbol as int];
            assert forall|p: int| 0 <= p < q implies #[trigger] s_lat@[0][p] == (if p == s { 1u64 } else { 0u64 }) by {
                assert(s_lat@[0][p] == state@[0 * q + p]);
            }
            assert forall|j: int| 0 <= j < q implies #[trigger] next@[j] == one_hot(q as nat, t as int)[j] by {
                assert(next@[0 * q + j] == prod@[0][j]);
                lemma_dot_select(s_lat@, m@, 0, j, s as int, q as nat);
            }
            assert(next@ =~= one_hot(q as nat, t as int));
        }
        next
    }

    /// Run `input` from the start state and return the final state, advancing one
    /// matmul per symbol.
    pub fn run(&self, input: &[usize]) -> (r: usize)
        requires
            self.wf(),
            self.spec_start() < self.spec_num_states(),
            symbols_below(input@, self.spec_num_symbols()),
        ensures
            r == self.spec_run(input@),
    {
        let q = self.num_states;
        let mut state: Vec<u64> = Vec::with_capacity(q);
        let mut z: usize = 0;
        while z < q
            invariant
                z <= q,
                state@ == Seq::new(z as nat, |_j: int| 0u64),
            decreases q - z,
        {
            state.push(0);
            z = z + 1;
        }
        state.set(self.start, 1);
        proof {
            assert(state@ =~= one_hot(q as nat, self.start as int));
            assert(input@.subrange(0, 0) =~= Seq::<usize>::empty());
        }
        let mut t: usize = 0;
        while t < input.len()
            invariant
                self.wf(),
                q == self.num_states,
                self.start < q,
                symbols_below(input@, self.num_symbols),
                t <= input@.len(),
                run_spec(self.table@, self.start, input@.subrange(0, t as int)) < q,
                state@ == one_hot(q as nat, run_spec(self.table@, self.start, input@.subrange(0, t as int)) as int),
            decreases input@.len() - t,
        {
            let sym = input[t];
            let ghost cur = run_spec(self.table@, self.start, input@.subrange(0, t as int));
            state = self.step(&state, sym, Ghost(cur));
            proof {
                assert(input@.subrange(0, t + 1).drop_last() =~= input@.subrange(0, t as int));
                assert(sym < self.num_symbols);
            }
            t = t + 1;
        }
        proof {
            assert(input@.subrange(0, input@.len() as int) =~= input@);
        }
        let r = argmax_row(state.as_slice());
        proof {
            lemma_argmax_one_hot(q as nat, self.spec_run(input@) as int, r as int);
        }
        r
    }

    /// True if `input` is accepted.
    pub fn accepts(&self, input: &[usize]) -> (r: bool)
        requires
            self.wf(),
            self.spec_start() < self.spec_num_states(),
            symbols_below(input@, self.spec_num_symbols()),
        ensures
            r == self.spec_accepts(input@),
    {
        let s = self.run(input);
        proof {
            lemma_run_in_range(self.table@, self.num_states, self.num_symbols, self.start, input@);
        }
        self.accept[s]
    }
}

/// Cell `(r, c)` of a `rows x cols` grid sits at `r * cols + c`, inside the grid,
/// and distinct cells have distinct offsets.
proof fn lemma_cell_of(r: int, c: int, rows: int, cols: int)
    requires
        0 <= r < rows,
        0 <= c < cols,
    ensures
        0 <= r * cols + c < rows * cols,
        forall|r2: int, c2: int| 0 <= r2 && 0 <= c2 < cols && #[trigger] (r2 * cols + c2) == r * cols + c ==> r2 == r && c2 == c,
{
    assert(0 <= r * cols + c < rows * cols) by (nonlinear_arith)
        requires
            0 <= r < rows,
            0 <= c < cols,
    ;
    assert forall|r2: int, c2: int| 0 <= r2 && 0 <= c2 < cols && #[trigger] (r2 * cols + c2) == r * cols + c implies r2 == r && c2 == c by {
        lemma_fundamental_div_mod_converse(r * cols + c, cols, r, c);
        lemma_fundamental_div_mod_converse(r2 * cols + c2, cols, r2, c2);
    }
}

} // verus!
