//! `HoloClassifier` — classification where training is addition and inference is
//! a dot product against every class prototype.
//!
//! - **Encode** a sample by binding each feature's *position* atom to the *level*
//!   hypervector of its quantised value, bundling, and taking the sign.
//! - **Train** by adding the encoding into its class's prototype.
//! - **Infer** by scoring the encoding against every prototype (the product
//!   `(batch × dim) · (dim × classes)`) and taking the first best class.
//!
//! Every value involved is an integer: atoms and encodings are `±1`, prototypes
//! are sums of `±1`, scores are sums of products of the two. Here `±1` is held as
//! a sign (`true` is `+1`).
//!
//! The level hypervectors must make adjacent levels similar and the extremes
//! near-orthogonal. They are built from one atom `L0` by flipping a growing prefix
//! of a pseudo-random coordinate order: level `i` flips the first
//! `⌊(dim / 2) · i / (n_levels − 1)⌋` coordinates of that order, so the extreme
//! level differs from `L0` in half of its coordinates.

use crate::geometry::Geometry;
use crate::hyper::{atom_sign, atom_signs, spec_splitmix64, splitmix64};
use vstd::arithmetic::div_mod::{lemma_div_by_multiple, lemma_div_is_ordered};
use vstd::prelude::*;

verus! {

/// `o` is a permutation of `0 .. n`: `n` distinct entries, each below `n`.
pub open spec fn is_permutation(o: Seq<usize>, n: nat) -> bool {
    &&& o.len() == n
    &&& forall|p: int| 0 <= p < n ==> #[trigger] o[p] < n
    &&& forall|p: int, q: int| 0 <= p < n && 0 <= q < n && p != q ==> #[trigger] o[p] != #[trigger] o[q]
}

/// `o` with the entries at `i` and `j` exchanged.
pub open spec fn swapped(o: Seq<usize>, i: int, j: int) -> Seq<usize> {
    o.update(i, o[j]).update(j, o[i])
}

/// The order and the hash state after `t` steps of the Fisher–Yates shuffle of
/// `0 .. dim` driven by SplitMix64 from `state0`. Step `t` draws the next state and
/// swaps position `dim − t` with a position at or below it.
pub open spec fn shuffle_state(dim: nat, state0: u64, t: nat) -> (Seq<usize>, u64)
    decreases t,
{
    if t == 0 {
        (Seq::new(dim, |p: int| p as usize), state0)
    } else {
        let prev = shuffle_state(dim, state0, (t - 1) as nat);
        let i = dim - t;
        let st = spec_splitmix64(prev.1);
        let j = ((st as usize) as int) % (i + 1);
        (swapped(prev.0, i, j), st)
    }
}

/// The coordinate flip order of the levels built from `seed`: the full shuffle of
/// `0 .. dim` (no steps when `dim <= 1`).
pub open spec fn spec_flip_order(dim: nat, seed: u64) -> Seq<usize> {
    if dim <= 1 {
        Seq::new(dim, |p: int| p as usize)
    } else {
        shuffle_state(dim, seed ^ 0xABCDu64, (dim - 1) as nat).0
    }
}

/// How many coordinates level `i` of `n_levels` flips.
pub open spec fn level_flip_count(dim: nat, n_levels: nat, i: nat) -> nat {
    if n_levels <= 1 {
        0
    } else {
        ((dim / 2) * i / ((n_levels - 1) as nat)) as nat
    }
}

/// Coordinate `p` is among the first `f` entries of `order`.
pub open spec fn flipped_within(order: Seq<usize>, f: nat, p: int) -> bool {
    exists|t: int| 0 <= t < f && #[trigger] order[t] == p
}

/// The sign of coordinate `p` of level `i` (`true` is `+1`): the base atom's sign,
/// negated where the level flips it.
pub open spec fn level_sign(dim: nat, n_levels: nat, seed: u64, i: nat, p: int) -> bool {
    atom_sign(seed, 0, p) != flipped_within(spec_flip_order(dim, seed), level_flip_count(dim, n_levels, i), p)
}

/// Each shuffle step keeps a permutation.
proof fn lemma_shuffle_permutation(dim: nat, state0: u64, t: nat)
    requires
        t < dim,
        dim <= usize::MAX,
    ensures
        is_permutation(shuffle_state(dim, state0, t).0, dim),
    decreases t,
{
    if t == 0 {
        let o = shuffle_state(dim, state0, 0).0;
        assert forall|p: int| 0 <= p < dim implies #[trigger] o[p] == p by {}
    } else {
        lemma_shuffle_permutation(dim, state0, (t - 1) as nat);
        let prev = shuffle_state(dim, state0, (t - 1) as nat);
        let i = dim - t;
        let st = spec_splitmix64(prev.1);
        let j = ((st as usize) as int) % (i + 1);
        let o = swapped(prev.0, i, j);
        assert(o == shuffle_state(dim, state0, t).0);
        assert(0 <= j <= i < dim);
        assert forall|p: int, q: int| 0 <= p < dim && 0 <= q < dim && p != q implies #[trigger] o[p] != #[trigger] o[q] by {
            let src = |x: int| if x == j { i } else if x == i { j } else { x };
            assert(o[p] == prev.0[src(p)]);
            assert(o[q] == prev.0[src(q)]);
        }
    }
}

/// The flip order is a permutation of the coordinates.
pub proof fn lemma_flip_order_permutation(dim: nat, seed: u64)
    requires
        dim <= usize::MAX,
    ensures
        is_permutation(spec_flip_order(dim, seed), dim),
{
    if dim > 1 {
        lemma_shuffle_permutation(dim, seed ^ 0xABCDu64, (dim - 1) as nat);
    } else {
        let o = spec_flip_order(dim, seed);
        assert forall|p: int| 0 <= p < dim implies #[trigger] o[p] == p by {}
    }
}

/// The pseudo-random coordinate order in which the levels flip, a permutation of
/// `0 .. dim` drawn by a SplitMix64-driven Fisher–Yates shuffle.
pub fn flip_order(dim: usize, seed: u64) -> (order: Vec<usize>)
    ensures
        order@ == spec_flip_order(dim as nat, seed),
        is_permutation(order@, dim as nat),
{
    let mut order: Vec<usize> = Vec::with_capacity(dim);
    let mut p: usize = 0;
    while p < dim
        invariant
            p <= dim,
            order@.len() == p,
            forall|q: int| 0 <= q < p ==> #[trigger] order@[q] == q as usize,
        decreases dim - p,
    {
        order.push(p);
        p = p + 1;
    }
    proof {
        assert(order@ =~= shuffle_state(dim as nat, seed ^ 0xABCDu64, 0).0);
    }
    let mut state = seed ^ 0xABCDu64;
    let mut i = dim;
    if dim > 1 {
        while i > 1
            invariant
                dim > 1,
                1 <= i <= dim,
                order@.len() == dim,
                (order@, state) == shuffle_state(dim as nat, seed ^ 0xABCDu64, (dim - i) as nat),
            decreases i,
        {
            let ghost prev = (order@, state);
            i = i - 1;
            state = splitmix64(state);
            let j = (state as usize) % (i + 1);
            let a = order[i];
            let b = order[j];
            order.set(i, b);
            order.set(j, a);
            proof {
                let t = (dim - i) as nat;
                assert(prev == shuffle_state(dim as nat, seed ^ 0xABCDu64, (t - 1) as nat));
                assert(i == dim - t);
                assert(j as int == ((state as usize) as int) % (i + 1));
                assert(order@ =~= swapped(prev.0, i as int, j as int));
            }
        }
    }
    proof {
        lemma_flip_order_permutation(dim as nat, seed);
    }
    order
}

/// Flip counts grow with the level, from none at level `0` to half of the
/// coordinates at the last level.
pub proof fn lemma_flip_counts(dim: nat, n_levels: nat, i: nat, j: nat)
    requires
        i <= j < n_levels,
    ensures
        level_flip_count(dim, n_levels, i) <= level_flip_count(dim, n_levels, j) <= dim / 2,
        level_flip_count(dim, n_levels, 0) == 0,
        n_levels > 1 ==> level_flip_count(dim, n_levels, (n_levels - 1) as nat) == dim / 2,
{
    if n_levels > 1 {
        let h = (dim / 2) as int;
        let d = (n_levels - 1) as int;
        assert(h * i <= h * j) by (nonlinear_arith)
            requires i <= j, h >= 0;
        assert(h * j <= h * d) by (nonlinear_arith)
            requires j <= d, h >= 0;
        assert(0 <= h * i) by (nonlinear_arith)
            requires i >= 0, h >= 0;
        lemma_div_is_ordered(h * i, h * j, d);
        lemma_div_is_ordered(h * j, h * d, d);
        lemma_div_by_multiple(h, d);
        assert(h * 0 == 0);
    }
}

/// The level law: levels `i <= j` differ exactly on the coordinates at positions
/// `level_flip_count(i) .. level_flip_count(j)` of the flip order, so adjacent
/// levels are close and level `0` is the base atom.
pub proof fn lemma_levels_differ(dim: nat, n_levels: nat, seed: u64, i: nat, j: nat, p: int)
    requires
        dim <= usize::MAX,
        i <= j < n_levels,
        0 <= p < dim,
    ensures
        level_sign(dim, n_levels, seed, 0, p) == atom_sign(seed, 0, p),
        (level_sign(dim, n_levels, seed, i, p) != level_sign(dim, n_levels, seed, j, p)) <==> exists|t: int|
            level_flip_count(dim, n_levels, i) <= t < level_flip_count(dim, n_levels, j)
                && #[trigger] spec_flip_order(dim, seed)[t] == p,
{
    lemma_flip_counts(dim, n_levels, i, j);
    lemma_flip_order_permutation(dim, seed);
    let o = spec_flip_order(dim, seed);
    let fi = level_flip_count(dim, n_levels, i);
    let fj = level_flip_count(dim, n_levels, j);
    assert(!flipped_within(o, 0, p));
    if flipped_within(o, fi, p) {
        let t0 = choose|t: int| 0 <= t < fi && #[trigger] o[t] == p;
        assert(flipped_within(o, fj, p));
        assert forall|t: int| fi <= t < fj implies #[trigger] o[t] != p by {
            assert(o[t] != o[t0]);
        }
    } else if flipped_within(o, fj, p) {
        let t0 = choose|t: int| 0 <= t < fj && #[trigger] o[t] == p;
        assert(fi <= t0 < fj);
    }
}

/// The sign patterns of all `n_levels` level hypervectors (`true` is `+1`): level
/// `i` is the atom `L0` of `seed` with its first `level_flip_count(i)` coordinates
/// in flip order negated.
pub fn level_signs(dim: usize, n_levels: usize, seed: u64) -> (levels: Vec<Vec<bool>>)
    requires
        (dim / 2) * n_levels <= usize::MAX,
    ensures
        levels@.len() == n_levels,
        forall|i: int| 0 <= i < n_levels ==> (#[trigger] levels@[i])@.len() == dim,
        forall|i: int, p: int|
            0 <= i < n_levels && 0 <= p < dim ==> #[trigger] levels@[i]@[p] == level_sign(
                dim as nat,
                n_levels as nat,
                seed,
                i as nat,
                p,
            ),
{
    let base = atom_signs(dim, seed, 0);
    let mut levels: Vec<Vec<bool>> = Vec::with_capacity(n_levels);
    if n_levels == 1 {
        proof {
            assert forall|p: int| 0 <= p < dim implies #[trigger] base@[p] == level_sign(dim as nat, 1, seed, 0, p) by {
                assert(!flipped_within(spec_flip_order(dim as nat, seed), 0, p));
            }
        }
        levels.push(base);
        return levels;
    }
    let order = flip_order(dim, seed);
    let total = dim / 2;
    let mut i: usize = 0;
    while i < n_levels
        invariant
            i <= n_levels,
            n_levels != 1,
            total == dim / 2,
            total * n_levels <= usize::MAX,
            base@.len() == dim,
            forall|p: int| 0 <= p < dim ==> #[trigger] base@[p] == atom_sign(seed, 0, p),
            order@ == spec_flip_order(dim as nat, seed),
            is_permutation(order@, dim as nat),
            levels@.len() == i,
            forall|a: int| 0 <= a < i ==> (#[trigger] levels@[a])@.len() == dim,
            forall|a: int, p: int|
                0 <= a < i && 0 <= p < dim ==> #[trigger] levels@[a]@[p] == level_sign(
                    dim as nat,
                    n_levels as nat,
                    seed,
                    a as nat,
                    p,
                ),
        decreases n_levels - i,
    {
        proof {
            lemma_flip_counts(dim as nat, n_levels as nat, i as nat, i as nat);
            assert(total * i <= total * n_levels) by (nonlinear_arith)
                requires i <= n_levels;
        }
        let nflip = total * i / (n_levels - 1);
        assert(nflip == level_flip_count(dim as nat, n_levels as nat, i as nat));
        let mut v: Vec<bool> = Vec::with_capacity(dim);
        let mut p: usize = 0;
        while p < dim
            invariant
                p <= dim,
                base@.len() == dim,
                v@.len() == p,
                forall|q: int| 0 <= q < p ==> #[trigger] v@[q] == base@[q],
            decreases dim - p,
        {
            v.push(base[p]);
            p = p + 1;
        }
        let mut t: usize = 0;
        while t < nflip
            invariant
                nflip <= dim / 2,
                t <= nflip,
                base@.len() == dim,
                is_permutation(order@, dim as nat),
                v@.len() == dim,
                forall|q: int| 0 <= q < dim ==> #[trigger] v@[q] == (base@[q] != flipped_within(order@, t as nat, q)),
            decreases nflip - t,
        {
            let q = order[t];
            let old_v = v[q];
            v.set(q, !old_v);
            proof {
                assert forall|x: int| 0 <= x < dim implies #[trigger] v@[x] == (base@[x] != flipped_within(order@, (t + 1) as nat, x)) by {
                    if x == q as int {
                        assert(order@[t as int] == x);
                        if flipped_within(order@, t as nat, x) {
                            let t0 = choose|t0: int| 0 <= t0 < t && #[trigger] order@[t0] == x;
                            assert(order@[t0] != order@[t as int]);
                        }
                    } else {
                        if flipped_within(order@, (t + 1) as nat, x) {
                            let t0 = choose|t0: int| 0 <= t0 < t + 1 && #[trigger] order@[t0] == x;
                            assert(t0 != t);
                        }
                    }
                }
            }
            t = t + 1;
        }
        levels.push(v);
        proof {
            assert forall|a: int, p: int|
                0 <= a < i + 1 && 0 <= p < dim implies #[trigger] levels@[a]@[p] == level_sign(
                    dim as nat,
                    n_levels as nat,
                    seed,
                    a as nat,
                    p,
                ) by {
                if a == i {
                    assert(levels@[a]@[p] == v@[p]);
                }
            }
        }
        i = i + 1;
    }
    levels
}

/// `+1` for `true`, `-1` for `false`.
pub open spec fn pm(b: bool) -> int {
    if b {
        1
    } else {
        -1
    }
}

/// The seed of the classifier's level hypervectors.
pub open spec fn level_seed(seed: u64) -> u64 {
    seed ^ 0x1E_5E15u64
}

/// The sign of coordinate `p` of the position atom of feature `f`.
pub open spec fn position_sign(seed: u64, f: int, p: int) -> bool {
    atom_sign(seed ^ 0x9051u64, f as u64, p)
}

/// How many of the first `k` features bind to `+1` at coordinate `p`: position and
/// level signs agree.
pub open spec fn agree_count(dim: nat, n_levels: nat, seed: u64, features: Seq<usize>, p: int, k: nat) -> nat
    decreases k,
{
    if k == 0 {
        0
    } else {
        agree_count(dim, n_levels, seed, features, p, (k - 1) as nat) + (if position_sign(seed, k - 1, p)
            == level_sign(dim, n_levels, level_seed(seed), features[k - 1] as nat, p) {
            1nat
        } else {
            0nat
        })
    }
}

/// The sign of coordinate `p` of a sample's encoding: the bundle of its bound
/// position/level pairs, `agree − (F − agree)`, is non-negative (ties go to `+1`).
pub open spec fn encode_sign(dim: nat, n_levels: nat, seed: u64, features: Seq<usize>, p: int) -> bool {
    2 * agree_count(dim, n_levels, seed, features, p, features.len()) >= features.len()
}

/// The score of an encoding against a prototype over the first `k` coordinates:
/// `Σ enc[p] · proto[p]`.
pub open spec fn score_spec(enc: Seq<bool>, proto: Seq<i64>, k: nat) -> int
    decreases k,
{
    if k == 0 {
        0
    } else {
        score_spec(enc, proto, (k - 1) as nat) + pm(enc[k - 1]) * proto[k - 1]
    }
}

/// `i` is the first class among the first `n` with the highest score.
pub open spec fn is_best_class(protos: Seq<Seq<i64>>, enc: Seq<bool>, dim: nat, n: int, i: int) -> bool {
    &&& 0 <= i < n
    &&& forall|j: int| 0 <= j < n ==> #[trigger] score_spec(enc, protos[j], dim) <= score_spec(enc, protos[i], dim)
    &&& forall|j: int| 0 <= j < i ==> #[trigger] score_spec(enc, protos[j], dim) < score_spec(enc, protos[i], dim)
}

/// A score over `k` coordinates is bounded by `k` times the bound on the prototype.
proof fn lemma_score_bound(enc: Seq<bool>, proto: Seq<i64>, k: nat, bound: int)
    requires
        forall|p: int| 0 <= p < k ==> -bound <= #[trigger] proto[p] <= bound,
    ensures
        -(k * bound) <= score_spec(enc, proto, k) <= k * bound,
    decreases k,
{
    if k > 0 {
        lemma_score_bound(enc, proto, (k - 1) as nat, bound);
        assert(k * bound == (k - 1) * bound + bound) by (nonlinear_arith);
    }
}

/// A train-by-bundling, infer-by-scoring hyperdimensional classifier.
#[derive(Clone, Debug)]
pub struct HoloClassifier {
    dim: usize,
    n_features: usize,
    n_levels: usize,
    seed: u64,
    geom: Geometry,
    levels: Vec<Vec<bool>>,
    prototypes: Vec<Vec<i64>>,
    counts: Vec<usize>,
}

impl HoloClassifier {
    /// The classifier invariant: one level hypervector per level as built from the
    /// seed, one prototype of `dim` sums per class, each sum bounded by the number
    /// of samples trained into that class.
    pub closed spec fn wf(&self) -> bool {
        &&& self.n_levels >= 1
        &&& (self.dim / 2) * self.n_levels <= usize::MAX
        &&& self.geom == Geometry::tpu_v_spec()
        &&& self.levels@.len() == self.n_levels
        &&& forall|i: int| 0 <= i < self.n_levels ==> (#[trigger] self.levels@[i])@.len() == self.dim
        &&& forall|i: int, p: int|
            0 <= i < self.n_levels && 0 <= p < self.dim ==> #[trigger] self.levels@[i]@[p] == level_sign(
                self.dim as nat,
                self.n_levels as nat,
                level_seed(self.seed),
                i as nat,
                p,
            )
        &&& self.prototypes@.len() == self.counts@.len()
        &&& forall|c: int| 0 <= c < self.counts@.len() ==> #[trigger] self.counts@[c] <= i64::MAX
        &&& forall|c: int| 0 <= c < self.prototypes@.len() ==> (#[trigger] self.prototypes@[c])@.len() == self.dim
        &&& forall|c: int, p: int|
            0 <= c < self.prototypes@.len() && 0 <= p < self.dim ==> -(self.counts@[c] as int) <= #[trigger] self.prototypes@[c]@[p]
                <= self.counts@[c]
    }

    /// Hypervector dimensionality.
    pub closed spec fn spec_dim(&self) -> usize {
        self.dim
    }

    /// Number of features per sample.
    pub closed spec fn spec_n_features(&self) -> usize {
        self.n_features
    }

    /// Number of quantisation levels per feature.
    pub closed spec fn spec_n_levels(&self) -> usize {
        self.n_levels
    }

    /// The seed of the position and level atoms.
    pub closed spec fn spec_seed(&self) -> u64 {
        self.seed
    }

    /// The class prototypes: prototype `c` is the sum of the encodings trained
    /// into class `c`.
    pub closed spec fn spec_prototypes(&self) -> Seq<Seq<i64>> {
        Seq::new(self.prototypes@.len(), |c: int| self.prototypes@[c]@)
    }

    /// How many samples have been trained into each class.
    pub closed spec fn spec_counts(&self) -> Seq<usize> {
        self.counts@
    }

    /// A sample is one level index below `n_levels` for each feature.
    pub open spec fn valid_sample(&self, features: Seq<usize>) -> bool {
        &&& features.len() == self.spec_n_features()
        &&& forall|f: int| 0 <= f < features.len() ==> #[trigger] features[f] < self.spec_n_levels()
    }

    /// The encoding of a sample, as signs.
    pub open spec fn spec_encode(&self, features: Seq<usize>) -> Seq<bool> {
        Seq::new(
            self.spec_dim() as nat,
            |p: int| encode_sign(self.spec_dim() as nat, self.spec_n_levels() as nat, self.spec_seed(), features, p),
        )
    }

    /// A classifier over `n_features` features quantised to `n_levels` levels, with
    /// `n_classes` classes and no training yet.
    pub fn new(dim: usize, n_features: usize, n_levels: usize, n_classes: usize, seed: u64) -> (r: Self)
        requires
            n_levels >= 1,
            (dim / 2) * n_levels <= usize::MAX,
        ensures
            r.wf(),
            r.spec_dim() == dim,
            r.spec_n_features() == n_features,
            r.spec_n_levels() == n_levels,
            r.spec_seed() == seed,
            r.spec_counts() == Seq::new(n_classes as nat, |_c: int| 0usize),
            r.spec_prototypes() == Seq::new(n_classes as nat, |_c: int| Seq::new(dim as nat, |_p: int| 0i64)),
    {
        let levels = level_signs(dim, n_levels, seed ^ 0x1E_5E15u64);
        let mut prototypes: Vec<Vec<i64>> = Vec::with_capacity(n_classes);
        let mut counts: Vec<usize> = Vec::with_capacity(n_classes);
        let mut c: usize = 0;
        while c < n_classes
            invariant
                c <= n_classes,
                prototypes@.len() == c,
                counts@ == Seq::new(c as nat, |_c: int| 0usize),
                forall|k: int| 0 <= k < c ==> (#[trigger] prototypes@[k])@ == Seq::new(dim as nat, |_p: int| 0i64),
            decreases n_classes - c,
        {
            let mut zero: Vec<i64> = Vec::with_capacity(dim);
            let mut p: usize = 0;
            while p < dim
                invariant
                    p <= dim,
                    zero@ == Seq::new(p as nat, |_p: int| 0i64),
                decreases dim - p,
            {
                zero.push(0);
                p = p + 1;
            }
            prototypes.push(zero);
            counts.push(0);
            c = c + 1;
        }
        let r = HoloClassifier { dim, n_features, n_levels, seed, geom: Geometry::tpu_v(), levels, prototypes, counts };
        proof {
            assert(r.spec_prototypes() =~= Seq::new(n_classes as nat, |_c: int| Seq::new(dim as nat, |_p: int| 0i64)));
        }
        r
    }

    /// Hypervector dimensionality.
    pub fn dim(&self) -> (r: usize)
        ensures
            r == self.spec_dim(),
    {
        self.dim
    }

    /// Number of features per sample.
    pub fn n_features(&self) -> (r: usize)
        ensures
            r == self.spec_n_features(),
    {
        self.n_features
    }

    /// Number of quantisation levels per feature.
    pub fn n_levels(&self) -> (r: usize)
        ensures
            r == self.spec_n_levels(),
    {
        self.n_levels
    }

    /// Number of classes.
    pub fn n_classes(&self) -> (r: usize)
        requires
            self.wf(),
        ensures
            r == self.spec_prototypes().len(),
    {
        self.prototypes.len()
    }

    /// Number of training samples seen for `class`.
    pub fn class_count(&self, class: usize) -> (r: usize)
        requires
            self.wf(),
            class < self.spec_counts().len(),
        ensures
            r == self.spec_counts()[class as int],
    {
        self.counts[class]
    }

    /// Encode a sample (one level index per feature) into a bipolar hypervector:
    /// the sign of the bundle of `position(f) ⊛ level(features[f])`.
    #[verifier::rlimit(40)]
    pub fn encode(&self, features: &[usize]) -> (enc: Vec<bool>)
        requires
            self.wf(),
            self.valid_sample(features@),
        ensures
            enc@ == self.spec_encode(features@),
    {
        let dim = self.dim;
        let nf = features.len();
        let mut plus: Vec<usize> = Vec::with_capacity(dim);
        let mut p: usize = 0;
        while p < dim
            invariant
                p <= dim,
                plus@ == Seq::new(p as nat, |_p: int| 0usize),
            decreases dim - p,
        {
            plus.push(0);
            p = p + 1;
        }
        let mut f: usize = 0;
        while f < nf
            invariant
                self.wf(),
                dim == self.dim,
                nf == features@.len(),
                self.valid_sample(features@),
                f <= nf,
                plus@.len() == dim,
                forall|q: int| 0 <= q < dim ==> #[trigger] plus@[q] == agree_count(
                    dim as nat,
                    self.n_levels as nat,
                    self.seed,
                    features@,
                    q,
                    f as nat,
                ),
                forall|q: int| 0 <= q < dim ==> #[trigger] plus@[q] <= f,
            decreases nf - f,
        {
            let pos = atom_signs(dim, self.seed ^ 0x9051u64, f as u64);
            let level = &self.levels[features[f]];
            let mut q: usize = 0;
            while q < dim
                invariant
                    self.wf(),
                    dim == self.dim,
                    nf == features@.len(),
                    self.valid_sample(features@),
                    f < nf,
                    q <= dim,
                    pos@.len() == dim,
                    forall|x: int| 0 <= x < dim ==> #[trigger] pos@[x] == position_sign(self.seed, f as int, x),
                    level@ == self.levels@[features@[f as int] as int]@,
                    plus@.len() == dim,
                    forall|x: int| 0 <= x < dim ==> #[trigger] plus@[x] == agree_count(
                        dim as nat,
                        self.n_levels as nat,
                        self.seed,
                        features@,
                        x,
                        if x < q { (f + 1) as nat } else { f as nat },
                    ),
                    forall|x: int| 0 <= x < dim ==> #[trigger] plus@[x] <= if x < q { f + 1 } else { f as int },
                decreases dim - q,
            {
                if pos[q] == level[q] {
                    let v = plus[q];
                    plus.set(q, v + 1);
                }
                q = q + 1;
            }
            f = f + 1;
        }
        let mut enc: Vec<bool> = Vec::with_capacity(dim);
        let mut q: usize = 0;
        while q < dim
            invariant
                self.wf(),
                dim == self.dim,
                nf == features@.len(),
                q <= dim,
                plus@.len() == dim,
                forall|x: int| 0 <= x < dim ==> #[trigger] plus@[x] == agree_count(
                    dim as nat,
                    self.n_levels as nat,
                    self.seed,
                    features@,
                    x,
                    nf as nat,
                ),
                forall|x: int| 0 <= x < dim ==> #[trigger] plus@[x] <= nf,
                enc@.len() == q,
                forall|x: int| 0 <= x < q ==> #[trigger] enc@[x] == encode_sign(
                    dim as nat,
                    self.n_levels as nat,
                    self.seed,
                    features@,
                    x,
                ),
            decreases dim - q,
        {
            let a = plus[q];
            enc.push(a >= nf - a);
            q = q + 1;
        }
        proof {
            assert(enc@ =~= self.spec_encode(features@));
        }
        enc
    }

    /// The score of an encoding against the prototype of class `c`.
    fn score(&self, enc: &Vec<bool>, c: usize) -> (s: i128)
        requires
            self.wf(),
            enc@.len() == self.spec_dim(),
            c < self.spec_prototypes().len(),
        ensures
            s == score_spec(enc@, self.spec_prototypes()[c as int], self.spec_dim() as nat),
    {
        let proto = &self.prototypes[c];
        let ghost k = self.counts@[c as int] as int;
        let mut acc: i128 = 0;
        let mut p: usize = 0;
        while p < self.dim
            invariant
                self.wf(),
                c < self.prototypes@.len(),
                proto@ == self.prototypes@[c as int]@,
                enc@.len() == self.dim,
                k == self.counts@[c as int],
                0 <= k <= i64::MAX,
                p <= self.dim,
                acc == score_spec(enc@, proto@, p as nat),
            decreases self.dim - p,
        {
            proof {
                assert forall|x: int| 0 <= x < p + 1 implies -k <= #[trigger] proto@[x] <= k by {
                    assert(-k <= self.prototypes@[c as int]@[x] <= k);
                }
                lemma_score_bound(enc@, proto@, (p + 1) as nat, k);
                assert((p + 1) * k <= 0x7fff_ffff_ffff_ffff_ffff_ffff_ffff_ffff) by (nonlinear_arith)
                    requires p + 1 <= 0xffff_ffff_ffff_ffff, 0 <= k <= 0x7fff_ffff_ffff_ffff;
            }
            let v = proto[p] as i128;
            if enc[p] {
                acc = acc + v;
            } else {
                acc = acc - v;
            }
            p = p + 1;
        }
        proof {
            assert(self.spec_prototypes()[c as int] == proto@);
        }
        acc
    }

    /// Train on one labelled sample by adding its encoding into the prototype of
    /// its class.
    pub fn train(&mut self, features: &[usize], class: usize)
        requires
            old(self).wf(),
            old(self).valid_sample(features@),
            class < old(self).spec_counts().len(),
            old(self).spec_counts()[class as int] < i64::MAX,
            old(self).spec_counts()[class as int] < usize::MAX,
        ensures
            final(self).wf(),
            final(self).spec_dim() == old(self).spec_dim(),
            final(self).spec_n_features() == old(self).spec_n_features(),
            final(self).spec_n_levels() == old(self).spec_n_levels(),
            final(self).spec_seed() == old(self).spec_seed(),
            final(self).spec_counts() == old(self).spec_counts().update(
                class as int,
                (old(self).spec_counts()[class as int] + 1) as usize,
            ),
            final(self).spec_prototypes() == old(self).spec_prototypes().update(
                class as int,
                Seq::new(
                    old(self).spec_dim() as nat,
                    |p: int| (old(self).spec_prototypes()[class as int][p] + pm(old(self).spec_encode(features@)[p])) as i64,
                ),
            ),
    {
        let enc = self.encode(features);
        let dim = self.dim;
        let mut proto = self.prototypes[class].clone();
        let ghost before = proto@;
        let ghost k = self.counts@[class as int] as int;
        let mut p: usize = 0;
        while p < dim
            invariant
                dim == self.dim,
                enc@.len() == dim,
                before.len() == dim,
                proto@.len() == dim,
                0 <= k < i64::MAX,
                forall|x: int| 0 <= x < dim ==> -k <= #[trigger] before[x] <= k,
                p <= dim,
                forall|x: int| 0 <= x < dim ==> #[trigger] proto@[x] == if x < p {
                    (before[x] + pm(enc@[x])) as i64
                } else {
                    before[x]
                },
            decreases dim - p,
        {
            let v = proto[p];
            if enc[p] {
                proto.set(p, v + 1);
            } else {
                proto.set(p, v - 1);
            }
            p = p + 1;
        }
        let ghost old_protos = self.prototypes@;
        self.prototypes.set(class, proto);
        let n = self.counts[class];
        self.counts.set(class, n + 1);
        proof {
            assert(before == old(self).spec_prototypes()[class as int]);
            assert(self.spec_prototypes() =~= old(self).spec_prototypes().update(
                class as int,
                Seq::new(
                    old(self).spec_dim() as nat,
                    |p: int| (old(self).spec_prototypes()[class as int][p] + pm(old(self).spec_encode(features@)[p])) as i64,
                ),
            )) by {
                assert forall|c: int| 0 <= c < self.prototypes@.len() implies #[trigger] self.spec_prototypes()[c]
                    =~= old(self).spec_prototypes().update(
                    class as int,
                    Seq::new(
                        old(self).spec_dim() as nat,
                        |p: int| (old(self).spec_prototypes()[class as int][p] + pm(old(self).spec_encode(features@)[p])) as i64,
                    ),
                )[c] by {
                    if c != class {
                        assert(self.prototypes@[c] == old_protos[c]);
                    }
                }
            }
        }
    }

    /// The first best class for an encoding.
    fn best_class(&self, enc: &Vec<bool>) -> (best: usize)
        requires
            self.wf(),
            enc@.len() == self.spec_dim(),
            self.spec_prototypes().len() > 0,
        ensures
            is_best_class(self.spec_prototypes(), enc@, self.spec_dim() as nat, self.spec_prototypes().len() as int, best as int),
    {
        let n = self.prototypes.len();
        let mut best: usize = 0;
        let mut best_score = self.score(enc, 0);
        let mut c: usize = 1;
        while c < n
            invariant
                self.wf(),
                n == self.spec_prototypes().len(),
                enc@.len() == self.spec_dim(),
                1 <= c <= n,
                best_score == score_spec(enc@, self.spec_prototypes()[best as int], self.spec_dim() as nat),
                is_best_class(self.spec_prototypes(), enc@, self.spec_dim() as nat, c as int, best as int),
            decreases n - c,
        {
            let s = self.score(enc, c);
            if s > best_score {
                best = c;
                best_score = s;
            }
            c = c + 1;
        }
        best
    }

    /// Classify a single sample: the first class whose prototype scores highest
    /// against the sample's encoding.
    pub fn classify(&self, features: &[usize]) -> (class: usize)
        requires
            self.wf(),
            self.valid_sample(features@),
            self.spec_prototypes().len() > 0,
        ensures
            is_best_class(
                self.spec_prototypes(),
                self.spec_encode(features@),
                self.spec_dim() as nat,
                self.spec_prototypes().len() as int,
                class as int,
            ),
    {
        let enc = self.encode(features);
        self.best_class(&enc)
    }

    /// Classify a batch of samples; each verdict is that of [`HoloClassifier::classify`].
    pub fn classify_batch(&self, samples: &[&[usize]]) -> (classes: Vec<usize>)
        requires
            self.wf(),
            forall|i: int| 0 <= i < samples@.len() ==> self.valid_sample(#[trigger] samples@[i]@),
            samples@.len() > 0 ==> self.spec_prototypes().len() > 0,
        ensures
            classes@.len() == samples@.len(),
            forall|i: int|
                0 <= i < samples@.len() ==> is_best_class(
                    self.spec_prototypes(),
                    self.spec_encode(samples@[i]@),
                    self.spec_dim() as nat,
                    self.spec_prototypes().len() as int,
                    #[trigger] classes@[i] as int,
                ),
    {
        let mut classes: Vec<usize> = Vec::with_capacity(samples.len());
        let mut i: usize = 0;
        while i < samples.len()
            invariant
                self.wf(),
                forall|j: int| 0 <= j < samples@.len() ==> self.valid_sample(#[trigger] samples@[j]@),
                samples@.len() > 0 ==> self.spec_prototypes().len() > 0,
                i <= samples@.len(),
                classes@.len() == i,
                forall|j: int|
                    0 <= j < i ==> is_best_class(
                        self.spec_prototypes(),
                        self.spec_encode(samples@[j]@),
                        self.spec_dim() as nat,
                        self.spec_prototypes().len() as int,
                        #[trigger] classes@[j] as int,
                    ),
            decreases samples@.len() - i,
        {
            let c = self.classify(samples[i]);
            classes.push(c);
            i = i + 1;
        }
        classes
    }
}

} // verus!
