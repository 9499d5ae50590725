//! The integer side of hyperdimensional algebra: the hash that draws atoms (and
//! Bloom positions and sketch columns), the sign pattern of an atomic
//! hypervector, and the permutation `ρ` that protects a hypervector's role.
//!
//! SplitMix64 is a tiny, fast, well-distributed integer hash used to draw
//! deterministic pseudo-random choices without any external dependency: the same
//! seed always yields the same output. The coordinates of a hypervector are real
//! numbers; the permutation only moves them, so it is stated for any element type.

use vstd::arithmetic::div_mod::{lemma_mod_sub_multiples_vanish, lemma_small_mod};
use vstd::prelude::*;

verus! {

/// SplitMix64 of `seed`, written with the wrapping operations it is defined by.
pub open spec fn spec_splitmix64(seed: u64) -> u64 {
    let z0 = seed.wrapping_add(0x9E37_79B9_7F4A_7C15u64);
    let z1 = (z0 ^ (z0 >> 30u64)).wrapping_mul(0xBF58_476D_1CE4_E5B9u64);
    let z2 = (z1 ^ (z1 >> 27u64)).wrapping_mul(0x94D0_49BB_1331_11EBu64);
    z2 ^ (z2 >> 31u64)
}

/// SplitMix64: a tiny, fast, well-distributed integer hash.
pub fn splitmix64(seed: u64) -> (r: u64)
    ensures
        r == spec_splitmix64(seed),
{
    let mut z = seed.wrapping_add(0x9E37_79B9_7F4A_7C15u64);
    z = (z ^ (z >> 30u64)).wrapping_mul(0xBF58_476D_1CE4_E5B9u64);
    z = (z ^ (z >> 27u64)).wrapping_mul(0x94D0_49BB_1331_11EBu64);
    z ^ (z >> 31u64)
}

/// The per-atom base hash: the seed mixed with the symbol id.
pub open spec fn atom_base(seed: u64, id: u64) -> u64 {
    spec_splitmix64(seed ^ id.wrapping_mul(0xD1B5_4A32_D192_ED03u64))
}

/// Coordinate `p` of atom `id` in codebook `seed` is `+1` exactly when the top bit
/// of its hash is set.
pub open spec fn atom_sign(seed: u64, id: u64, p: int) -> bool {
    spec_splitmix64(atom_base(seed, id).wrapping_add(p as u64)) >> 63u64 == 1u64
}

/// The signs of a deterministic bipolar atomic hypervector: `true` is `+1`,
/// `false` is `-1`. The same `(dim, seed, id)` always yields the same pattern, so
/// no stored table is needed to regenerate a symbol.
pub fn atom_signs(dim: usize, seed: u64, id: u64) -> (r: Vec<bool>)
    ensures
        r@.len() == dim,
        forall|p: int| 0 <= p < dim ==> #[trigger] r@[p] == atom_sign(seed, id, p),
{
    let base = splitmix64(seed ^ id.wrapping_mul(0xD1B5_4A32_D192_ED03u64));
    let mut r: Vec<bool> = Vec::with_capacity(dim);
    let mut p: usize = 0;
    while p < dim
        invariant
            p <= dim,
            base == atom_base(seed, id),
            r@.len() == p,
            forall|q: int| 0 <= q < p ==> #[trigger] r@[q] == atom_sign(seed, id, q),
        decreases dim - p,
    {
        let h = splitmix64(base.wrapping_add(p as u64));
        r.push(h >> 63u64 == 1u64);
        p = p + 1;
    }
    r
}

/// The cyclic rotation right by `shift`: coordinate `i` moves to `(i + shift) mod n`.
/// The empty vector is its own rotation.
pub open spec fn spec_permute<T>(v: Seq<T>, shift: nat) -> Seq<T> {
    if v.len() == 0 {
        v
    } else {
        let n = v.len() as int;
        let s = (shift % v.len()) as int;
        Seq::new(v.len(), |j: int| v[(j + n - s) % n])
    }
}

/// The rotation that undoes [`spec_permute`] by the same shift.
pub open spec fn spec_inverse_permute<T>(v: Seq<T>, shift: nat) -> Seq<T> {
    if v.len() == 0 {
        v
    } else {
        spec_permute(v, (v.len() - shift % v.len()) as nat)
    }
}

/// Reduction of a value below `2n` modulo `n`.
proof fn lemma_mod_below_twice(x: int, n: int)
    requires
        n > 0,
        0 <= x < 2 * n,
    ensures
        x % n == (if x < n { x } else { x - n }),
{
    if x < n {
        lemma_small_mod(x as nat, n as nat);
    } else {
        lemma_mod_sub_multiples_vanish(x, n);
        lemma_small_mod((x - n) as nat, n as nat);
    }
}

/// Where coordinate `i` lands under the rotation.
pub proof fn lemma_permute_moves<T>(v: Seq<T>, shift: nat, i: int)
    requires
        0 <= i < v.len(),
    ensures
        spec_permute(v, shift)[(i + shift % v.len()) % (v.len() as int)] == v[i],
{
    let n = v.len() as int;
    let s = (shift % v.len()) as int;
    lemma_mod_below_twice(i + s, n);
    let j = (i + s) % n;
    lemma_mod_below_twice(j + n - s, n);
}

/// The rotation law: rotating back by the same shift restores the hypervector, in
/// either order.
pub proof fn lemma_permute_inverse<T>(v: Seq<T>, shift: nat)
    ensures
        spec_inverse_permute(spec_permute(v, shift), shift) == v,
        spec_permute(spec_inverse_permute(v, shift), shift) == v,
{
    if v.len() > 0 {
        let n = v.len() as int;
        let s1 = (shift % v.len()) as int;
        let s2 = ((n - s1) as nat % v.len()) as int;
        lemma_mod_below_twice(n - s1, n);
        let u = spec_permute(v, shift);
        let w = spec_permute(u, (n - s1) as nat);
        assert forall|j: int| 0 <= j < n implies #[trigger] w[j] == v[j] by {
            lemma_mod_below_twice(j + n - s2, n);
            let a = (j + n - s2) % n;
            lemma_mod_below_twice(a + n - s1, n);
        }
        assert(w =~= v);
        let x = spec_permute(v, (n - s1) as nat);
        let y = spec_permute(x, shift);
        assert forall|j: int| 0 <= j < n implies #[trigger] y[j] == v[j] by {
            lemma_mod_below_twice(j + n - s1, n);
            let a = (j + n - s1) % n;
            lemma_mod_below_twice(a + n - s2, n);
        }
        assert(y =~= v);
    }
}

/// Cyclically rotate the coordinates right by `shift`, the permutation `ρ`.
pub fn permute<T: Copy>(v: &[T], shift: usize) -> (out: Vec<T>)
    ensures
        out@ == spec_permute(v@, shift as nat),
{
    let n = v.len();
    let mut out: Vec<T> = Vec::with_capacity(n);
    if n == 0 {
        proof {
            assert(out@ =~= v@);
        }
        return out;
    }
    let s = shift % n;
    let mut j: usize = 0;
    while j < n
        invariant
            n == v@.len(),
            n > 0,
            s == shift % n,
            j <= n,
            out@.len() == j,
            forall|q: int| 0 <= q < j ==> #[trigger] out@[q] == v@[(q + n - s) % (n as int)],
        decreases n - j,
    {
        proof {
            lemma_mod_below_twice(j + n - s, n as int);
        }
        let src = if j >= s { j - s } else { j + (n - s) };
        out.push(v[src]);
        j = j + 1;
    }
    proof {
        assert(out@ =~= spec_permute(v@, shift as nat));
    }
    out
}

/// Undo [`permute`]: rotate left by `shift`.
pub fn inverse_permute<T: Copy>(v: &[T], shift: usize) -> (out: Vec<T>)
    ensures
        out@ == spec_inverse_permute(v@, shift as nat),
{
    let n = v.len();
    if n == 0 {
        let out: Vec<T> = Vec::new();
        proof {
            assert(out@ =~= v@);
        }
        return out;
    }
    permute(v, n - shift % n)
}

} // verus!
