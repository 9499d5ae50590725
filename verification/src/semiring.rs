//! Semirings, and matrix multiply over them.
//!
//! A matrix multiply is `C[i,j] = Σ_k A[i,k] · B[k,j]` — but "Σ" and "·" need not
//! be ordinary plus and times. Swap them for a different semiring and the *same*
//! dense matmul computes something else entirely:
//!
//! - **Boolean** (`∨`, `∧`): powers of an adjacency matrix give reachability.
//! - **Tropical / min-plus** (`min`, `+`): powers give shortest paths.
//! - **Counting** (`+`, `×`): powers count walks.
//!
//! Elements are integers: Boolean over `bool`, Tropical over `u64` with `u64::MAX`
//! standing for `+∞` (so `⊗` saturates there), Counting over `u64` modulo `2^64`.
//! Each is a semiring exactly, and each instance proves the semiring laws.

use crate::error::LatticeError;
use crate::lattice::{is_default, is_matrix, PaddedTileLattice};
use crate::shape::shape_fits;
use vstd::arithmetic::div_mod::*;
use vstd::arithmetic::mul::*;
use vstd::prelude::*;

verus! {

broadcast use PaddedTileLattice::lemma_view_dims;

/// A semiring: an additive monoid (`⊕`, `zero`) and a multiplicative monoid
/// (`⊗`, `one`), with `⊗` distributing over `⊕` and `zero` annihilating.
pub trait Semiring {
    /// The carrier.
    type Elem: Copy + Default;

    /// The additive identity `0̄`.
    spec fn zero_spec() -> Self::Elem;

    /// The multiplicative identity `1̄`.
    spec fn one_spec() -> Self::Elem;

    /// `a ⊕ b`.
    spec fn add_spec(a: Self::Elem, b: Self::Elem) -> Self::Elem;

    /// `a ⊗ b`.
    spec fn mul_spec(a: Self::Elem, b: Self::Elem) -> Self::Elem;

    /// The additive identity `0̄` (also the annihilator for `⊗`).
    fn zero() -> (r: Self::Elem)
        ensures
            r == Self::zero_spec(),
    ;

    /// The multiplicative identity `1̄`.
    fn one() -> (r: Self::Elem)
        ensures
            r == Self::one_spec(),
    ;

    /// The additive operation `⊕`.
    fn add(a: Self::Elem, b: Self::Elem) -> (r: Self::Elem)
        ensures
            r == Self::add_spec(a, b),
    ;

    /// The multiplicative operation `⊗`.
    fn mul(a: Self::Elem, b: Self::Elem) -> (r: Self::Elem)
        ensures
            r == Self::mul_spec(a, b),
    ;

    /// `⊕` is associative.
    proof fn lemma_add_associative(a: Self::Elem, b: Self::Elem, c: Self::Elem)
        ensures
            Self::add_spec(Self::add_spec(a, b), c) == Self::add_spec(a, Self::add_spec(b, c)),
    ;

    /// `⊕` is commutative.
    proof fn lemma_add_commutative(a: Self::Elem, b: Self::Elem)
        ensures
            Self::add_spec(a, b) == Self::add_spec(b, a),
    ;

    /// `0̄` is the identity of `⊕`.
    proof fn lemma_add_zero(a: Self::Elem)
        ensures
            Self::add_spec(Self::zero_spec(), a) == a,
            Self::add_spec(a, Self::zero_spec()) == a,
    ;

    /// `⊗` is associative.
    proof fn lemma_mul_associative(a: Self::Elem, b: Self::Elem, c: Self::Elem)
        ensures
            Self::mul_spec(Self::mul_spec(a, b), c) == Self::mul_spec(a, Self::mul_spec(b, c)),
    ;

    /// `1̄` is the identity of `⊗`.
    proof fn lemma_mul_one(a: Self::Elem)
        ensures
            Self::mul_spec(Self::one_spec(), a) == a,
            Self::mul_spec(a, Self::one_spec()) == a,
    ;

    /// `⊗` distributes over `⊕` on both sides.
    proof fn lemma_distributive(a: Self::Elem, b: Self::Elem, c: Self::Elem)
        ensures
            Self::mul_spec(a, Self::add_spec(b, c)) == Self::add_spec(
                Self::mul_spec(a, b),
                Self::mul_spec(a, c),
            ),
            Self::mul_spec(Self::add_spec(a, b), c) == Self::add_spec(
                Self::mul_spec(a, c),
                Self::mul_spec(b, c),
            ),
    ;

    /// `0̄` annihilates under `⊗`.
    proof fn lemma_mul_zero(a: Self::Elem)
        ensures
            Self::mul_spec(Self::zero_spec(), a) == Self::zero_spec(),
            Self::mul_spec(a, Self::zero_spec()) == Self::zero_spec(),
    ;
}

/// Boolean semiring: `⊕ = OR`, `⊗ = AND`.
pub struct Boolean;

impl Semiring for Boolean {
    type Elem = bool;

    open spec fn zero_spec() -> bool {
        false
    }

    open spec fn one_spec() -> bool {
        true
    }

    open spec fn add_spec(a: bool, b: bool) -> bool {
        a || b
    }

    open spec fn mul_spec(a: bool, b: bool) -> bool {
        a && b
    }

    fn zero() -> (r: bool) {
        false
    }

    fn one() -> (r: bool) {
        true
    }

    fn add(a: bool, b: bool) -> (r: bool) {
        a || b
    }

    fn mul(a: bool, b: bool) -> (r: bool) {
        a && b
    }

    proof fn lemma_add_associative(a: bool, b: bool, c: bool) {
    }

    proof fn lemma_add_commutative(a: bool, b: bool) {
    }

    proof fn lemma_add_zero(a: bool) {
    }

    proof fn lemma_mul_associative(a: bool, b: bool, c: bool) {
    }

    proof fn lemma_mul_one(a: bool) {
    }

    proof fn lemma_distributive(a: bool, b: bool, c: bool) {
    }

    proof fn lemma_mul_zero(a: bool) {
    }
}

/// Saturating addition: `a + b`, or `+∞` when the sum reaches `u64::MAX`.
pub open spec fn sat_add(a: u64, b: u64) -> u64 {
    if a + b >= u64::MAX {
        u64::MAX
    } else {
        (a + b) as u64
    }
}

/// Tropical (min-plus) semiring: `⊕ = min`, `⊗ = +`, `zero = +∞` (`u64::MAX`),
/// `one = 0`.
pub struct Tropical;

impl Semiring for Tropical {
    type Elem = u64;

    open spec fn zero_spec() -> u64 {
        u64::MAX
    }

    open spec fn one_spec() -> u64 {
        0
    }

    open spec fn add_spec(a: u64, b: u64) -> u64 {
        if a < b {
            a
        } else {
            b
        }
    }

    open spec fn mul_spec(a: u64, b: u64) -> u64 {
        sat_add(a, b)
    }

    fn zero() -> (r: u64) {
        u64::MAX
    }

    fn one() -> (r: u64) {
        0
    }

    fn add(a: u64, b: u64) -> (r: u64) {
        if a < b {
            a
        } else {
            b
        }
    }

    fn mul(a: u64, b: u64) -> (r: u64) {
        a.saturating_add(b)
    }

    proof fn lemma_add_associative(a: u64, b: u64, c: u64) {
    }

    proof fn lemma_add_commutative(a: u64, b: u64) {
    }

    proof fn lemma_add_zero(a: u64) {
    }

    proof fn lemma_mul_associative(a: u64, b: u64, c: u64) {
    }

    proof fn lemma_mul_one(a: u64) {
    }

    proof fn lemma_distributive(a: u64, b: u64, c: u64) {
    }

    proof fn lemma_mul_zero(a: u64) {
    }
}

/// `2^64`, the modulus of the counting semiring.
pub open spec fn word_modulus() -> int {
    0x1_0000_0000_0000_0000
}

/// Counting semiring: ordinary `⊕ = +`, `⊗ = ×`, modulo `2^64`. Powers of an
/// adjacency matrix count walks.
pub struct Counting;

impl Semiring for Counting {
    type Elem = u64;

    open spec fn zero_spec() -> u64 {
        0
    }

    open spec fn one_spec() -> u64 {
        1
    }

    open spec fn add_spec(a: u64, b: u64) -> u64 {
        ((a + b) % word_modulus()) as u64
    }

    open spec fn mul_spec(a: u64, b: u64) -> u64 {
        ((a * b) % word_modulus()) as u64
    }

    fn zero() -> (r: u64) {
        0
    }

    fn one() -> (r: u64) {
        1
    }

    fn add(a: u64, b: u64) -> (r: u64) {
        proof {
            let m = word_modulus();
            if a + b < m {
                lemma_small_mod((a + b) as nat, m as nat);
            } else {
                lemma_fundamental_div_mod_converse(a + b, m, 1, a + b - m);
            }
        }
        a.wrapping_add(b)
    }

    fn mul(a: u64, b: u64) -> (r: u64) {
        a.wrapping_mul(b)
    }

    proof fn lemma_add_associative(a: u64, b: u64, c: u64) {
        let m = word_modulus();
        lemma_add_mod_noop_right(a as int, (b + c) as int, m);
        lemma_add_mod_noop_right(c as int, (a + b) as int, m);
        assert(((a + b) % m + c) % m == (c + (a + b) % m) % m);
        assert(a + (b + c) == c + (a + b));
    }

    proof fn lemma_add_commutative(a: u64, b: u64) {
    }

    proof fn lemma_add_zero(a: u64) {
        lemma_small_mod(a as nat, word_modulus() as nat);
    }

    proof fn lemma_mul_associative(a: u64, b: u64, c: u64) {
        let m = word_modulus();
        lemma_mul_mod_noop_left((a * b) as int, c as int, m);
        lemma_mul_mod_noop_right(a as int, (b * c) as int, m);
        lemma_mul_is_associative(a as int, b as int, c as int);
    }

    proof fn lemma_mul_one(a: u64) {
        lemma_small_mod(a as nat, word_modulus() as nat);
    }

    proof fn lemma_distributive(a: u64, b: u64, c: u64) {
        let m = word_modulus();
        lemma_mul_mod_noop_right(a as int, (b + c) as int, m);
        lemma_mul_is_distributive_add(a as int, b as int, c as int);
        lemma_add_mod_noop((a * b) as int, (a * c) as int, m);
        lemma_mul_mod_noop_left((a + b) as int, c as int, m);
        lemma_mul_is_distributive_add(c as int, a as int, b as int);
        lemma_add_mod_noop((a * c) as int, (b * c) as int, m);
        assert((a + b) * c == a * c + b * c) by (nonlinear_arith);
        assert(a * (b + c) == a * b + a * c) by (nonlinear_arith);
        assert(0 <= a * b && 0 <= a * c && 0 <= b * c) by (nonlinear_arith);
    }

    proof fn lemma_mul_zero(a: u64) {
    }
}

/// The `(i, j)` entry of `a · b` over `S`, folding the first `k` terms of the
/// contraction: `(…((0̄ ⊕ a[i][0]⊗b[0][j]) ⊕ a[i][1]⊗b[1][j]) …)`.
pub open spec fn dot<S: Semiring>(a: Seq<Seq<S::Elem>>, b: Seq<Seq<S::Elem>>, i: int, j: int, k: nat) -> S::Elem
    decreases k,
{
    if k == 0 {
        S::zero_spec()
    } else {
        S::add_spec(
            dot::<S>(a, b, i, j, (k - 1) as nat),
            S::mul_spec(a[i][k - 1], b[k - 1][j]),
        )
    }
}

/// The `m x n` product over `S` of an `m x k` matrix and a `k x n` matrix.
pub open spec fn matmul_spec<S: Semiring>(
    a: Seq<Seq<S::Elem>>,
    b: Seq<Seq<S::Elem>>,
    m: nat,
    k: nat,
    n: nat,
) -> Seq<Seq<S::Elem>> {
    Seq::new(m, |i: int| Seq::new(n, |j: int| dot::<S>(a, b, i, j, k)))
}

/// A counting dot product against a one-hot row picks out one entry of the
/// other operand (and a row that selects nothing in range gives `0`).
pub proof fn lemma_dot_select(a: Seq<Seq<u64>>, b: Seq<Seq<u64>>, i: int, j: int, c: int, n: nat)
    requires
        n < word_modulus(),
        forall|p: int| 0 <= p < n ==> #[trigger] a[i][p] == (if p == c { 1u64 } else { 0u64 }),
    ensures
        dot::<Counting>(a, b, i, j, n) == (if 0 <= c < n { b[c][j] } else { 0u64 }),
    decreases n,
{
    if n > 0 {
        lemma_dot_select(a, b, i, j, c, (n - 1) as nat);
        let p = n - 1;
        assert(a[i][p] == (if p == c { 1u64 } else { 0u64 }));
        lemma_small_mod(b[p][j] as nat, word_modulus() as nat);
        lemma_small_mod(0, word_modulus() as nat);
        if p == c {
            assert(a[i][p] == 1u64);
            assert(a[i][p] * b[p][j] == b[p][j]) by (nonlinear_arith)
                requires a[i][p] == 1u64;
        } else {
            assert(a[i][p] == 0u64);
            assert(a[i][p] * b[p][j] == 0) by (nonlinear_arith)
                requires a[i][p] == 0u64;
        }
        if 0 <= c < n - 1 {
            lemma_small_mod(b[c][j] as nat, word_modulus() as nat);
        }
    }
}

/// Multiply two lattices over the semiring `S`. Shapes must contract
/// (`a.cols() == b.rows()`, checked first) and the geometries must match.
pub fn semiring_matmul<S: Semiring>(
    a: &PaddedTileLattice<S::Elem>,
    b: &PaddedTileLattice<S::Elem>,
) -> (r: Result<PaddedTileLattice<S::Elem>, LatticeError>)
    requires
        a.wf(),
        b.wf(),
        a.spec_geometry() == b.spec_geometry() ==> shape_fits(
            a.spec_rows() as int,
            b.spec_cols() as int,
            a.spec_geometry(),
        ),
    ensures
        a.spec_cols() != b.spec_rows() ==> r == Err::<PaddedTileLattice<S::Elem>, LatticeError>(
            LatticeError::ContractionMismatch { lhs_cols: a.spec_cols(), rhs_rows: b.spec_rows() },
        ),
        a.spec_cols() == b.spec_rows() && a.spec_geometry() != b.spec_geometry() ==> r == Err::<
            PaddedTileLattice<S::Elem>,
            LatticeError,
        >(LatticeError::GeometryMismatch),
        a.spec_cols() == b.spec_rows() && a.spec_geometry() == b.spec_geometry() ==> (r matches Ok(
            out,
        ) && out.wf() && out.spec_rows() == a.spec_rows() && out.spec_cols() == b.spec_cols()
            && out.spec_geometry() == a.spec_geometry() && out@ == matmul_spec::<S>(
            a@,
            b@,
            a.spec_rows() as nat,
            a.spec_cols() as nat,
            b.spec_cols() as nat,
        ) && exists|d: S::Elem| is_default(d) && out.padding_is(d)),
{
    if a.cols() != b.rows() {
        return Err(LatticeError::ContractionMismatch { lhs_cols: a.cols(), rhs_rows: b.rows() });
    }
    if a.geometry() != b.geometry() {
        return Err(LatticeError::GeometryMismatch);
    }
    let m = a.rows();
    let k = a.cols();
    let n = b.cols();
    let mut out = PaddedTileLattice::<S::Elem>::zeroed(m, n, *a.geometry()).unwrap();
    let ghost d = choose|d: S::Elem| is_default(d) && out.padding_is(d);
    let mut i: usize = 0;
    while i < m
        invariant
            is_default(d),
            out.padding_is(d),
            i <= m,
            a.wf(),
            b.wf(),
            m == a.spec_rows(),
            k == a.spec_cols(),
            k == b.spec_rows(),
            n == b.spec_cols(),
            out.wf(),
            out.spec_rows() == m,
            out.spec_cols() == n,
            out.spec_geometry() == a.spec_geometry(),
            forall|p: int, q: int|
                0 <= p < i && 0 <= q < n ==> #[trigger] out@[p][q] == dot::<S>(a@, b@, p, q, k as nat),
        decreases m - i,
    {
        let mut j: usize = 0;
        while j < n
            invariant
                is_default(d),
                out.padding_is(d),
                i < m,
                j <= n,
                a.wf(),
                b.wf(),
                m == a.spec_rows(),
                k == a.spec_cols(),
                k == b.spec_rows(),
                n == b.spec_cols(),
                out.wf(),
                out.spec_rows() == m,
                out.spec_cols() == n,
                out.spec_geometry() == a.spec_geometry(),
                forall|p: int, q: int|
                    (0 <= p < i && 0 <= q < n) || (p == i && 0 <= q < j) ==> #[trigger] out@[p][q]
                        == dot::<S>(a@, b@, p, q, k as nat),
            decreases n - j,
        {
            let mut acc = S::zero();
            let mut kk: usize = 0;
            while kk < k
                invariant
                    i < m,
                    j < n,
                    kk <= k,
                    a.wf(),
                    b.wf(),
                    m == a.spec_rows(),
                    k == a.spec_cols(),
                    k == b.spec_rows(),
                    n == b.spec_cols(),
                    acc == dot::<S>(a@, b@, i as int, j as int, kk as nat),
                decreases k - kk,
            {
                let x = *a.get(i, kk).unwrap();
                let y = *b.get(kk, j).unwrap();
                acc = S::add(acc, S::mul(x, y));
                kk = kk + 1;
            }
            out.set(i, j, acc).unwrap();
            j = j + 1;
        }
        i = i + 1;
    }
    proof {
        assert(out@ =~= matmul_spec::<S>(a@, b@, m as nat, k as nat, n as nat)) by {
            assert forall|p: int| 0 <= p < m implies #[trigger] out@[p] =~= matmul_spec::<S>(
                a@,
                b@,
                m as nat,
                k as nat,
                n as nat,
            )[p] by {
                assert forall|q: int| 0 <= q < n implies #[trigger] out@[p][q] == matmul_spec::<S>(
                    a@,
                    b@,
                    m as nat,
                    k as nat,
                    n as nat,
                )[p][q] by {}
            }
        }
    }
    Ok(out)
}

} // verus!
