//! `TensorBloom` — a counting Bloom filter whose membership test is a matmul.
//!
//! A Bloom filter hashes each item to `k` positions in an `m`-slot array. Insertion
//! bumps those slots; a query checks whether all of an item's slots are set. The
//! matmul-native form: encode an item as a 0/1 **signature** vector of length `m`,
//! and testing a batch of `b` items is one matmul:
//!
//! ```text
//! counts = Sigs (b × m) · present(filter) (m × 1)
//! item i is present  ⟺  counts[i] == (number of set bits in Sigs[i])
//! ```
//!
//! Like any Bloom filter it answers "definitely not present" or "probably present"
//! — false positives, never false negatives. Keeping counts (rather than bits) also
//! lets it support removal.

use crate::geometry::Geometry;
use crate::hyper::{spec_splitmix64, splitmix64};
use crate::lattice::PaddedTileLattice;
use crate::semiring::{dot, matmul_spec, semiring_matmul, word_modulus, Counting, Semiring};
use crate::shape::{lemma_shape_fits_mono, shape_fits};
use vstd::arithmetic::div_mod::*;
use vstd::prelude::*;

verus! {

broadcast use PaddedTileLattice::lemma_view_dims;

/// `x` rotated left by 32 bits.
pub open spec fn rotl32(x: u64) -> u64 {
    (x << 32u64) | (x >> 32u64)
}

/// The `i`-th slot (by double hashing) of `item` in a filter of `m` slots.
pub open spec fn bloom_pos(seed: u64, m: usize, item: u64, i: int) -> usize {
    let h1 = spec_splitmix64(item ^ seed);
    let h2 = spec_splitmix64(item ^ rotl32(seed) ^ 0xDEAD_BEEFu64);
    (h1.wrapping_add((i as u64).wrapping_mul(h2)) % (m as u64)) as usize
}

/// Rotating by 32 bits swaps the two halves of the word.
pub proof fn lemma_rotl32_swaps_halves(x: u64)
    ensures
        rotl32(x) as int == (x as int % 0x1_0000_0000) * 0x1_0000_0000 + x as int / 0x1_0000_0000,
{
    assert(((x << 32u64) | (x >> 32u64)) == (x % 0x1_0000_0000u64) * 0x1_0000_0000u64 + x / 0x1_0000_0000u64)
        by (bit_vector);
}

/// The double-hashing law: the `i`-th slot of `item` is `(h1 + i·h2) mod 2^64`,
/// reduced modulo the slot count, where `h1` is the SplitMix64 hash of the item
/// mixed with the seed and `h2` that of the item mixed with the rotated seed. So
/// the first slot is `h1 mod m` and each further slot steps by `h2`.
pub proof fn lemma_bloom_pos_double_hash(seed: u64, m: usize, item: u64, i: int)
    requires
        m > 0,
        0 <= i < 0x1_0000_0000_0000_0000,
    ensures
        bloom_pos(seed, m, item, i) as int == ((spec_splitmix64(item ^ seed) as int + i * (spec_splitmix64(
            item ^ rotl32(seed) ^ 0xDEAD_BEEFu64,
        ) as int)) % 0x1_0000_0000_0000_0000) % (m as int),
        i == 0 ==> bloom_pos(seed, m, item, i) as int == (spec_splitmix64(item ^ seed) as int) % (m as int),
{
    let h1 = spec_splitmix64(item ^ seed);
    let h2 = spec_splitmix64(item ^ rotl32(seed) ^ 0xDEAD_BEEFu64);
    let big: int = 0x1_0000_0000_0000_0000;
    let iu = i as u64;
    assert(iu as int == i);
    let w = iu.wrapping_mul(h2);
    assert(w as int == (i * (h2 as int)) % big);
    let x = h1.wrapping_add(w);
    lemma_mod_bound(i * (h2 as int), big);
    if h1 as int + w as int > u64::MAX {
        lemma_mod_sub_multiples_vanish(h1 as int + w as int, big);
        lemma_small_mod((h1 as int + w as int - big) as nat, big as nat);
        assert(x as int == (h1 as int + w as int) % big);
    } else {
        lemma_small_mod((h1 as int + w as int) as nat, big as nat);
        assert(x as int == (h1 as int + w as int) % big);
    }
    lemma_add_mod_noop_right(h1 as int, i * (h2 as int), big);
    assert(x as int == (h1 as int + i * (h2 as int)) % big);
    lemma_mod_bound(x as int, m as int);
    if i == 0 {
        assert(i * (h2 as int) == 0) by (nonlinear_arith)
            requires i == 0;
        lemma_small_mod(h1 as nat, big as nat);
    }
}

/// Slot `p` is one of the `k` slots of `item`.
pub open spec fn is_slot(seed: u64, m: usize, k: usize, item: u64, p: int) -> bool {
    exists|i: int| 0 <= i < k && bloom_pos(seed, m, item, i) == p
}

/// Every one of `item`'s slots is non-empty in `counts`.
pub open spec fn all_slots_set(counts: Seq<u64>, seed: u64, m: usize, k: usize, item: u64) -> bool {
    forall|i: int| 0 <= i < k ==> counts[bloom_pos(seed, m, item, i) as int] > 0
}

/// `counts` after inserting `item`: each of its distinct slots bumped once.
pub open spec fn counts_after_insert(counts: Seq<u64>, seed: u64, m: usize, k: usize, item: u64) -> Seq<u64> {
    Seq::new(
        counts.len(),
        |p: int|
            if is_slot(seed, m, k, item, p) {
                if counts[p] == u64::MAX {
                    counts[p]
                } else {
                    (counts[p] + 1) as u64
                }
            } else {
                counts[p]
            },
    )
}

/// `counts` after removing `item`: each of its distinct non-empty slots lowered once.
pub open spec fn counts_after_remove(counts: Seq<u64>, seed: u64, m: usize, k: usize, item: u64) -> Seq<u64> {
    Seq::new(
        counts.len(),
        |p: int|
            if is_slot(seed, m, k, item, p) && counts[p] > 0 {
                (counts[p] - 1) as u64
            } else {
                counts[p]
            },
    )
}

/// The deletion law of a counting filter: removing an item right after inserting
/// it restores every counter, as long as none of its counters was saturated.
pub proof fn lemma_remove_undoes_insert(counts: Seq<u64>, seed: u64, m: usize, k: usize, item: u64)
    requires
        forall|p: int| 0 <= p < counts.len() && #[trigger] is_slot(seed, m, k, item, p) ==> counts[p] < u64::MAX,
    ensures
        counts_after_remove(counts_after_insert(counts, seed, m, k, item), seed, m, k, item) == counts,
{
    let after = counts_after_remove(counts_after_insert(counts, seed, m, k, item), seed, m, k, item);
    assert(after =~= counts);
}

/// How many slots below `n` belong to `d`.
pub open spec fn cnt_all(d: Seq<usize>, n: nat) -> nat
    decreases n,
{
    if n == 0 {
        0
    } else {
        cnt_all(d, (n - 1) as nat) + (if d.contains((n - 1) as usize) { 1nat } else { 0nat })
    }
}

/// How many slots below `n` belong to `d` and are non-empty in `counts`.
pub open spec fn cnt_hit(d: Seq<usize>, counts: Seq<u64>, n: nat) -> nat
    decreases n,
{
    if n == 0 {
        0
    } else {
        cnt_hit(d, counts, (n - 1) as nat) + (if d.contains((n - 1) as usize) && counts[n - 1] > 0 {
            1nat
        } else {
            0nat
        })
    }
}

proof fn lemma_cnt_push(d: Seq<usize>, x: usize, n: nat)
    requires
        !d.contains(x),
        n <= usize::MAX,
    ensures
        cnt_all(d.push(x), n) == cnt_all(d, n) + (if x < n { 1nat } else { 0nat }),
    decreases n,
{
    if n > 0 {
        lemma_cnt_push(d, x, (n - 1) as nat);
        let y = (n - 1) as usize;
        assert(d.push(x).contains(y) <==> d.contains(y) || x == y) by {
            if d.push(x).contains(y) {
                let j = choose|j: int| 0 <= j < d.push(x).len() && d.push(x)[j] == y;
                if j < d.len() {
                    assert(d[j] == y);
                }
            }
            if d.contains(y) {
                let j = choose|j: int| 0 <= j < d.len() && d[j] == y;
                assert(d.push(x)[j] == y);
            }
            if x == y {
                assert(d.push(x)[d.len() as int] == y);
            }
        }
    }
}

/// A duplicate-free list of slots below `m` has exactly as many members below `m`
/// as it has elements.
proof fn lemma_cnt_all_len(d: Seq<usize>, m: nat)
    requires
        m <= usize::MAX,
        d.no_duplicates(),
        forall|j: int| 0 <= j < d.len() ==> d[j] < m,
    ensures
        cnt_all(d, m) == d.len(),
    decreases d.len(),
{
    if d.len() == 0 {
        assert forall|n: nat| n <= m implies cnt_all(d, n) == 0 by {
            lemma_cnt_empty(d, n);
        }
    } else {
        let x = d.last();
        let rest = d.drop_last();
        assert(d =~= rest.push(x));
        assert(!rest.contains(x)) by {
            if rest.contains(x) {
                let j = choose|j: int| 0 <= j < rest.len() && rest[j] == x;
                assert(d[j] == d[d.len() - 1]);
            }
        }
        lemma_cnt_all_len(rest, m);
        lemma_cnt_push(rest, x, m);
    }
}

proof fn lemma_cnt_empty(d: Seq<usize>, n: nat)
    requires
        d.len() == 0,
    ensures
        cnt_all(d, n) == 0,
    decreases n,
{
    if n > 0 {
        lemma_cnt_empty(d, (n - 1) as nat);
    }
}

/// Hits never exceed members, and equal them exactly when every member slot is
/// non-empty.
proof fn lemma_cnt_hit(d: Seq<usize>, counts: Seq<u64>, n: nat)
    ensures
        cnt_hit(d, counts, n) <= cnt_all(d, n),
        cnt_hit(d, counts, n) <= n,
        cnt_hit(d, counts, n) == cnt_all(d, n) <==> forall|p: int|
            0 <= p < n && d.contains(p as usize) ==> counts[p] > 0,
    decreases n,
{
    if n > 0 {
        lemma_cnt_hit(d, counts, (n - 1) as nat);
        if cnt_hit(d, counts, n) == cnt_all(d, n) {
            assert forall|p: int| 0 <= p < n && d.contains(p as usize) implies counts[p] > 0 by {
                if p < n - 1 {
                } else {
                }
            }
        }
    }
}

/// The counting matmul of a 0/1 signature row with a 0/1 presence column counts
/// the signature's non-empty slots.
proof fn lemma_dot_counts(
    sig: Seq<Seq<u64>>,
    pres: Seq<Seq<u64>>,
    i: int,
    d: Seq<usize>,
    counts: Seq<u64>,
    n: nat,
)
    requires
        n < word_modulus(),
        forall|p: int| 0 <= p < n ==> #[trigger] sig[i][p] == (if d.contains(p as usize) { 1u64 } else { 0u64 }),
        forall|p: int| 0 <= p < n ==> #[trigger] pres[p][0] == (if counts[p] > 0 { 1u64 } else { 0u64 }),
    ensures
        dot::<Counting>(sig, pres, i, 0, n) == cnt_hit(d, counts, n),
    decreases n,
{
    if n > 0 {
        lemma_dot_counts(sig, pres, i, d, counts, (n - 1) as nat);
        lemma_cnt_hit(d, counts, n);
        let p = n - 1;
        assert(sig[i][p] * pres[p][0] == (if d.contains(p as usize) && counts[p] > 0 { 1int } else { 0int })) by {
            assert(sig[i][p] == (if d.contains(p as usize) { 1u64 } else { 0u64 }));
            assert(pres[p][0] == (if counts[p] > 0 { 1u64 } else { 0u64 }));
        }
        lemma_small_mod(cnt_hit(d, counts, n), word_modulus() as nat);
        lemma_small_mod(sig[i][p] as nat, word_modulus() as nat);
    }
}

/// A counting Bloom filter with a matmul membership test.
#[derive(Clone, Debug)]
pub struct TensorBloom {
    m: usize,
    k: usize,
    seed: u64,
    geom: Geometry,
    counts: Vec<u64>,
    inserted: usize,
}

impl TensorBloom {
    /// The filter invariant.
    pub closed spec fn wf(&self) -> bool {
        &&& self.m > 0
        &&& self.k > 0
        &&& self.counts@.len() == self.m
        &&& self.geom == Geometry::tpu_v_spec()
        &&& shape_fits(self.m as int, 1, self.geom)
    }

    /// Number of slots.
    pub closed spec fn spec_slots(&self) -> usize {
        self.m
    }

    /// Number of hash functions.
    pub closed spec fn spec_hashes(&self) -> usize {
        self.k
    }

    /// The hashing seed.
    pub closed spec fn spec_seed(&self) -> u64 {
        self.seed
    }

    /// Number of insertions performed (less removals, never below zero).
    pub closed spec fn spec_inserted(&self) -> usize {
        self.inserted
    }

    /// The slot counters.
    pub closed spec fn spec_counts(&self) -> Seq<u64> {
        self.counts@
    }

    /// The tile geometry used for the membership matmul.
    pub closed spec fn spec_geometry(&self) -> Geometry {
        self.geom
    }

    /// The scalar membership verdict for `item`.
    pub open spec fn spec_contains(&self, item: u64) -> bool {
        all_slots_set(self.spec_counts(), self.spec_seed(), self.spec_slots(), self.spec_hashes(), item)
    }

    /// Create a filter with `m` slots and `k` hash functions.
    pub fn new(m: usize, k: usize, seed: u64) -> (r: Self)
        requires
            m > 0 && k > 0,
            shape_fits(m as int, 1, Geometry::tpu_v_spec()),
        ensures
            r.wf(),
            r.spec_slots() == m,
            r.spec_hashes() == k,
            r.spec_seed() == seed,
            r.spec_inserted() == 0,
            r.spec_counts() == Seq::new(m as nat, |_p: int| 0u64),
            r.spec_geometry() == Geometry::tpu_v_spec(),
    {
        let mut counts: Vec<u64> = Vec::new();
        let mut i: usize = 0;
        while i < m
            invariant
                i <= m,
                counts@ == Seq::new(i as nat, |_p: int| 0u64),
            decreases m - i,
        {
            counts.push(0);
            i = i + 1;
        }
        TensorBloom { m, k, seed, geom: Geometry::tpu_v(), counts, inserted: 0 }
    }

    /// Number of slots.
    pub fn slots(&self) -> (r: usize)
        ensures
            r == self.spec_slots(),
    {
        self.m
    }

    /// Number of hash functions.
    pub fn hashes(&self) -> (r: usize)
        ensures
            r == self.spec_hashes(),
    {
        self.k
    }

    /// Number of insertions performed.
    pub fn inserted(&self) -> (r: usize)
        ensures
            r == self.spec_inserted(),
    {
        self.inserted
    }

    /// The `k` (possibly colliding) slot positions for an item, by double hashing.
    fn positions(&self, item: u64) -> (r: Vec<usize>)
        requires
            self.wf(),
        ensures
            r@.len() == self.k,
            forall|i: int| 0 <= i < self.k ==> r@[i] == bloom_pos(self.seed, self.m, item, i),
    {
        let h1 = splitmix64(item ^ self.seed);
        let rot = (self.seed << 32u64) | (self.seed >> 32u64);
        let h2 = splitmix64(item ^ rot ^ 0xDEAD_BEEFu64);
        let mut out: Vec<usize> = Vec::with_capacity(self.k);
        let mut i: usize = 0;
        while i < self.k
            invariant
                self.wf(),
                i <= self.k,
                h1 == spec_splitmix64(item ^ self.seed),
                h2 == spec_splitmix64(item ^ rotl32(self.seed) ^ 0xDEAD_BEEFu64),
                out@.len() == i,
                forall|j: int| 0 <= j < i ==> out@[j] == bloom_pos(self.seed, self.m, item, j),
            decreases self.k - i,
        {
            let iu = i as u64;
            let p = (h1.wrapping_add(iu.wrapping_mul(h2)) % (self.m as u64)) as usize;
            out.push(p);
            i = i + 1;
        }
        out
    }

    /// The distinct slot positions for an item (collisions removed).
    fn distinct_positions(&self, item: u64) -> (r: Vec<usize>)
        requires
            self.wf(),
        ensures
            r@.no_duplicates(),
            forall|j: int| 0 <= j < r@.len() ==> r@[j] < self.m,
            forall|p: int| 0 <= p < self.m ==> (r@.contains(p as usize) <==> is_slot(self.seed, self.m, self.k, item, p)),
            r@.len() <= self.k,
    {
        let all = self.positions(item);
        let mut out: Vec<usize> = Vec::new();
        let mut i: usize = 0;
        while i < all.len()
            invariant
                self.wf(),
                i <= all@.len(),
                all@.len() == self.k,
                forall|j: int| 0 <= j < self.k ==> all@[j] == bloom_pos(self.seed, self.m, item, j),
                out@.no_duplicates(),
                out@.len() <= i,
                forall|j: int| 0 <= j < out@.len() ==> out@[j] < self.m,
                forall|p: usize| out@.contains(p) <==> exists|j: int| 0 <= j < i && all@[j] == p,
            decreases all@.len() - i,
        {
            let p = all[i];
            proof {
                lemma_mod_bound(
                    spec_splitmix64(item ^ self.seed).wrapping_add(
                        (i as u64).wrapping_mul(spec_splitmix64(item ^ rotl32(self.seed) ^ 0xDEAD_BEEFu64)),
                    ) as int,
                    self.m as int,
                );
            }
            let mut found = false;
            let mut j: usize = 0;
            while j < out.len()
                invariant
                    j <= out@.len(),
                    found <==> exists|q: int| 0 <= q < j && out@[q] == p,
                decreases out@.len() - j,
            {
                if out[j] == p {
                    found = true;
                }
                j = j + 1;
            }
            let ghost before = out@;
            if !found {
                out.push(p);
                proof {
                    assert forall|q: usize| out@.contains(q) <==> exists|j: int| 0 <= j < i + 1 && all@[j] == q by {
                        if out@.contains(q) {
                            let t = choose|t: int| 0 <= t < out@.len() && out@[t] == q;
                            if t < before.len() {
                                assert(before.contains(q));
                            }
                        }
                        if exists|j: int| 0 <= j < i + 1 && all@[j] == q {
                            let t = choose|t: int| 0 <= t < i + 1 && all@[t] == q;
                            if t < i {
                                assert(before.contains(q));
                                let w = choose|w: int| 0 <= w < before.len() && before[w] == q;
                                assert(out@[w] == q);
                            } else {
                                assert(out@[before.len() as int] == q);
                            }
                        }
                    }
                }
            } else {
                proof {
                    assert forall|q: usize| out@.contains(q) <==> exists|j: int| 0 <= j < i + 1 && all@[j] == q by {
                        if exists|j: int| 0 <= j < i + 1 && all@[j] == q {
                            let t = choose|t: int| 0 <= t < i + 1 && all@[t] == q;
                            if t == i {
                                let w = choose|w: int| 0 <= w < j && out@[w] == p;
                                assert(out@[w] == q);
                            }
                        }
                    }
                }
            }
            i = i + 1;
        }
        proof {
            assert forall|p: int| 0 <= p < self.m implies (out@.contains(p as usize) <==> is_slot(self.seed, self.m, self.k, item, p)) by {
                if out@.contains(p as usize) {
                    let t = choose|t: int| 0 <= t < self.k && all@[t] == p as usize;
                    assert(bloom_pos(self.seed, self.m, item, t) == p);
                }
                if is_slot(self.seed, self.m, self.k, item, p) {
                    let t = choose|t: int| 0 <= t < self.k && bloom_pos(self.seed, self.m, item, t) == p;
                    assert(all@[t] == p as usize);
                }
            }
        }
        out
    }

    /// Insert an item: each of its distinct slots is bumped once.
    pub fn insert(&mut self, item: u64)
        requires
            old(self).wf(),
            old(self).spec_inserted() < usize::MAX,
        ensures
            final(self).wf(),
            final(self).spec_slots() == old(self).spec_slots(),
            final(self).spec_hashes() == old(self).spec_hashes(),
            final(self).spec_seed() == old(self).spec_seed(),
            final(self).spec_geometry() == old(self).spec_geometry(),
            final(self).spec_inserted() == old(self).spec_inserted() + 1,
            final(self).spec_counts() == counts_after_insert(
                old(self).spec_counts(),
                old(self).spec_seed(),
                old(self).spec_slots(),
                old(self).spec_hashes(),
                item,
            ),
            // No false negatives: the item just inserted is reported present ...
            final(self).spec_contains(item),
            // ... and insertion never makes another item absent.
            forall|y: u64| old(self).spec_contains(y) ==> #[trigger] final(self).spec_contains(y),
    {
        let ps = self.distinct_positions(item);
        let ghost orig = self.counts@;
        let mut t: usize = 0;
        while t < ps.len()
            invariant
                self.wf(),
                self.m == old(self).m,
                self.k == old(self).k,
                self.seed == old(self).seed,
                self.geom == old(self).geom,
                self.inserted == old(self).inserted,
                orig == old(self).counts@,
                t <= ps@.len(),
                ps@.no_duplicates(),
                forall|j: int| 0 <= j < ps@.len() ==> ps@[j] < self.m,
                forall|p: int| 0 <= p < self.m ==> (ps@.contains(p as usize) <==> is_slot(self.seed, self.m, self.k, item, p)),
                forall|p: int|
                    0 <= p < self.m ==> #[trigger] self.counts@[p] == (if exists|j: int| 0 <= j < t && ps@[j] == p {
                        if orig[p] == u64::MAX { orig[p] } else { (orig[p] + 1) as u64 }
                    } else {
                        orig[p]
                    }),
            decreases ps@.len() - t,
        {
            let pos = ps[t];
            let c = self.counts[pos];
            self.counts.set(pos, c.saturating_add(1));
            proof {
                assert forall|p: int| 0 <= p < self.m implies #[trigger] self.counts@[p] == (if exists|j: int| 0 <= j < t + 1 && ps@[j] == p {
                    if orig[p] == u64::MAX { orig[p] } else { (orig[p] + 1) as u64 }
                } else {
                    orig[p]
                }) by {
                    if p == pos as int {
                        assert(ps@[t as int] == p);
                        assert(!exists|j: int| 0 <= j < t && ps@[j] == p) by {
                            if exists|j: int| 0 <= j < t && ps@[j] == p {
                                let j = choose|j: int| 0 <= j < t && ps@[j] == p;
                                assert(ps@[j] == ps@[t as int]);
                            }
                        }
                    } else {
                        if exists|j: int| 0 <= j < t + 1 && ps@[j] == p {
                            let j = choose|j: int| 0 <= j < t + 1 && ps@[j] == p;
                            assert(j < t);
                        }
                    }
                }
            }
            t = t + 1;
        }
        self.inserted = self.inserted + 1;
        proof {
            assert(self.counts@ =~= counts_after_insert(orig, self.seed, self.m, self.k, item)) by {
                assert forall|p: int| 0 <= p < self.m implies #[trigger] self.counts@[p]
                    == counts_after_insert(orig, self.seed, self.m, self.k, item)[p] by {
                    if is_slot(self.seed, self.m, self.k, item, p) {
                        assert(ps@.contains(p as usize));
                        let j = choose|j: int| 0 <= j < ps@.len() && ps@[j] == p as usize;
                        assert(exists|j: int| 0 <= j < ps@.len() && ps@[j] == p);
                    } else {
                        assert(!ps@.contains(p as usize));
                        if exists|j: int| 0 <= j < ps@.len() && ps@[j] == p {
                            let j = choose|j: int| 0 <= j < ps@.len() && ps@[j] == p;
                            assert(ps@.contains(p as usize));
                        }
                    }
                }
            }
            assert forall|i: int| 0 <= i < self.k implies self.counts@[bloom_pos(self.seed, self.m, item, i) as int] > 0 by {
                let p = bloom_pos(self.seed, self.m, item, i) as int;
                lemma_bloom_pos_bound(self.seed, self.m, item, i);
                assert(is_slot(self.seed, self.m, self.k, item, p));
            }
            assert forall|y: u64| old(self).spec_contains(y) implies #[trigger] self.spec_contains(y) by {
                assert forall|i: int| 0 <= i < self.k implies self.counts@[bloom_pos(self.seed, self.m, y, i) as int] > 0 by {
                    lemma_bloom_pos_bound(self.seed, self.m, y, i);
                }
            }
        }
    }

    /// Remove an item (counting filters support deletion): each of its distinct
    /// non-empty slots is lowered once.
    pub fn remove(&mut self, item: u64)
        requires
            old(self).wf(),
        ensures
            final(self).wf(),
            final(self).spec_slots() == old(self).spec_slots(),
            final(self).spec_hashes() == old(self).spec_hashes(),
            final(self).spec_seed() == old(self).spec_seed(),
            final(self).spec_geometry() == old(self).spec_geometry(),
            final(self).spec_inserted() == if old(self).spec_inserted() == 0 {
                0
            } else {
                (old(self).spec_inserted() - 1) as usize
            },
            final(self).spec_counts() == counts_after_remove(
                old(self).spec_counts(),
                old(self).spec_seed(),
                old(self).spec_slots(),
                old(self).spec_hashes(),
                item,
            ),
    {
        let ps = self.distinct_positions(item);
        let ghost orig = self.counts@;
        let mut t: usize = 0;
        while t < ps.len()
            invariant
                self.wf(),
                self.m == old(self).m,
                self.k == old(self).k,
                self.seed == old(self).seed,
                self.geom == old(self).geom,
                self.inserted == old(self).inserted,
                orig == old(self).counts@,
                t <= ps@.len(),
                ps@.no_duplicates(),
                forall|j: int| 0 <= j < ps@.len() ==> ps@[j] < self.m,
                forall|p: int|
                    0 <= p < self.m ==> #[trigger] self.counts@[p] == (if (exists|j: int| 0 <= j < t && ps@[j] == p) && orig[p] > 0 {
                        (orig[p] - 1) as u64
                    } else {
                        orig[p]
                    }),
            decreases ps@.len() - t,
        {
            let pos = ps[t];
            let c = self.counts[pos];
            if c > 0 {
                self.counts.set(pos, c - 1);
            }
            proof {
                assert forall|p: int| 0 <= p < self.m implies #[trigger] self.counts@[p] == (if (exists|j: int| 0 <= j < t + 1 && ps@[j] == p) && orig[p] > 0 {
                    (orig[p] - 1) as u64
                } else {
                    orig[p]
                }) by {
                    if p == pos as int {
                        assert(ps@[t as int] == p);
                        assert(!exists|j: int| 0 <= j < t && ps@[j] == p) by {
                            if exists|j: int| 0 <= j < t && ps@[j] == p {
                                let j = choose|j: int| 0 <= j < t && ps@[j] == p;
                                assert(ps@[j] == ps@[t as int]);
                            }
                        }
                    } else {
                        if exists|j: int| 0 <= j < t + 1 && ps@[j] == p {
                            let j = choose|j: int| 0 <= j < t + 1 && ps@[j] == p;
                            assert(j < t);
                        }
                    }
                }
            }
            t = t + 1;
        }
        self.inserted = self.inserted.saturating_sub(1);
        proof {
            assert(self.counts@ =~= counts_after_remove(orig, self.seed, self.m, self.k, item)) by {
                assert forall|p: int| 0 <= p < self.m implies #[trigger] self.counts@[p]
                    == counts_after_remove(orig, self.seed, self.m, self.k, item)[p] by {
                    if is_slot(self.seed, self.m, self.k, item, p) {
                        assert(ps@.contains(p as usize));
                        let j = choose|j: int| 0 <= j < ps@.len() && ps@[j] == p as usize;
                        assert(exists|j: int| 0 <= j < ps@.len() && ps@[j] == p);
                    } else {
                        assert(!ps@.contains(p as usize));
                        if exists|j: int| 0 <= j < ps@.len() && ps@[j] == p {
                            let j = choose|j: int| 0 <= j < ps@.len() && ps@[j] == p;
                            assert(ps@.contains(p as usize));
                        }
                    }
                }
            }
        }
    }

    /// Scalar membership test: probably-present (`true`) or definitely-absent.
    pub fn contains(&self, item: u64) -> (r: bool)
        requires
            self.wf(),
        ensures
            r == self.spec_contains(item),
    {
        let ps = self.distinct_positions(item);
        let mut t: usize = 0;
        while t < ps.len()
            invariant
                self.wf(),
                t <= ps@.len(),
                forall|j: int| 0 <= j < ps@.len() ==> ps@[j] < self.m,
                forall|p: int| 0 <= p < self.m ==> (ps@.contains(p as usize) <==> is_slot(self.seed, self.m, self.k, item, p)),
                forall|j: int| 0 <= j < t ==> self.counts@[ps@[j] as int] > 0,
            decreases ps@.len() - t,
        {
            if !(self.counts[ps[t]] > 0) {
                proof {
                    let p = ps@[t as int] as int;
                    assert(ps@.contains(p as usize));
                    assert(is_slot(self.seed, self.m, self.k, item, p));
                    let i = choose|i: int| 0 <= i < self.k && bloom_pos(self.seed, self.m, item, i) == p;
                    assert(!(self.counts@[bloom_pos(self.seed, self.m, item, i) as int] > 0));
                }
                return false;
            }
            t = t + 1;
        }
        proof {
            assert forall|i: int| 0 <= i < self.k implies self.counts@[bloom_pos(self.seed, self.m, item, i) as int] > 0 by {
                let p = bloom_pos(self.seed, self.m, item, i) as int;
                lemma_bloom_pos_bound(self.seed, self.m, item, i);
                assert(is_slot(self.seed, self.m, self.k, item, p));
                assert(ps@.contains(p as usize));
                let j = choose|j: int| 0 <= j < ps@.len() && ps@[j] == p as usize;
            }
        }
        true
    }
    /// The boolean presence vector (`1` where a slot is non-empty) as an `m × 1`
    /// lattice — the right operand of the membership matmul.
    fn present_vector(&self) -> (l: PaddedTileLattice<u64>)
        requires
            self.wf(),
        ensures
            l.wf(),
            l.spec_rows() == self.m,
            l.spec_cols() == 1,
            l.spec_geometry() == self.geom,
            forall|p: int| 0 <= p < self.m ==> #[trigger] l@[p][0] == (if self.counts@[p] > 0 { 1u64 } else { 0u64 }),
    {
        let mut present: Vec<u64> = Vec::with_capacity(self.m);
        let mut p: usize = 0;
        while p < self.m
            invariant
                self.wf(),
                p <= self.m,
                present@.len() == p,
                forall|q: int| 0 <= q < p ==> present@[q] == (if self.counts@[q] > 0 { 1u64 } else { 0u64 }),
            decreases self.m - p,
        {
            present.push(if self.counts[p] > 0 { 1 } else { 0 });
            p = p + 1;
        }
        let l = PaddedTileLattice::from_dense(self.m, 1, present.as_slice(), self.geom).unwrap();
        proof {
            assert forall|q: int| 0 <= q < self.m implies #[trigger] l@[q][0] == (if self.counts@[q] > 0 { 1u64 } else { 0u64 }) by {
                assert(l@[q][0] == present@[q * 1 + 0]);
            }
        }
        l
    }

    /// Test a batch of items with a single matmul of their signatures against the
    /// filter's presence vector. Each verdict equals the scalar [`TensorBloom::contains`].
    pub fn batch_contains(&self, items: &[u64]) -> (r: Vec<bool>)
        requires
            self.wf(),
            shape_fits(items@.len() as int, self.spec_slots() as int, self.spec_geometry()),
        ensures
            r@.len() == items@.len(),
            forall|i: int| 0 <= i < items@.len() ==> #[trigger] r@[i] == self.spec_contains(items@[i]),
    {
        let b = items.len();
        if b == 0 {
            return Vec::new();
        }
        let m = self.m;
        proof {
            crate::shape::lemma_shape_fits(b as int, m as int, self.geom);
            lemma_shape_fits_mono(b as int, 1, b as int, m as int, self.geom);
        }
        let total = b * m;
        let mut sigs: Vec<u64> = Vec::with_capacity(total);
        let mut z: usize = 0;
        while z < total
            invariant
                z <= total,
                sigs@ == Seq::new(z as nat, |_q: int| 0u64),
            decreases total - z,
        {
            sigs.push(0);
            z = z + 1;
        }
        proof {
            assert forall|j: int, p: int| 0 <= j < b && 0 <= p < m implies #[trigger] sigs@[j * m + p] == 0u64 by {
                lemma_flat_lt(j, p, b as int, m as int);
            }
        }
        let mut needed: Vec<u64> = Vec::with_capacity(b);
        let ghost mut ds: Seq<Seq<usize>> = Seq::empty();
        let mut i: usize = 0;
        while i < b
            invariant
                self.wf(),
                m == self.m,
                b == items@.len(),
                i <= b,
                b * m <= usize::MAX,
                sigs@.len() == b * m,
                needed@.len() == i,
                ds.len() == i,
                forall|j: int| 0 <= j < i ==> #[trigger] needed@[j] == ds[j].len(),
                forall|j: int| 0 <= j < i ==> (#[trigger] ds[j]).no_duplicates(),
                forall|j: int, q: int| 0 <= j < i && 0 <= q < ds[j].len() ==> #[trigger] ds[j][q] < m,
                forall|j: int, p: int|
                    0 <= j < i && 0 <= p < m ==> (ds[j].contains(p as usize) <==> #[trigger] is_slot(self.seed, self.m, self.k, items@[j], p)),
                forall|j: int, p: int|
                    0 <= j < b && 0 <= p < m ==> #[trigger] sigs@[j * m + p] == (if j < i && ds[j].contains(p as usize) { 1u64 } else { 0u64 }),
            decreases b - i,
        {
            let positions = self.distinct_positions(items[i]);
            needed.push(positions.len() as u64);
            let mut t: usize = 0;
            while t < positions.len()
                invariant
                    self.wf(),
                    m == self.m,
                    b == items@.len(),
                    i < b,
                    b * m <= usize::MAX,
                    sigs@.len() == b * m,
                    t <= positions@.len(),
                    forall|q: int| 0 <= q < positions@.len() ==> positions@[q] < m,
                    forall|j: int, p: int|
                        0 <= j < b && 0 <= p < m ==> #[trigger] sigs@[j * m + p] == (if j < i && ds[j].contains(p as usize) {
                            1u64
                        } else if j == i && positions@.subrange(0, t as int).contains(p as usize) {
                            1u64
                        } else {
                            0u64
                        }),
                decreases positions@.len() - t,
            {
                let pos = positions[t];
                proof {
                    lemma_flat_lt(i as int, pos as int, b as int, m as int);
                }
                let ghost before = sigs@;
                sigs.set(i * m + pos, 1);
                proof {
                    assert forall|j: int, p: int| 0 <= j < b && 0 <= p < m implies #[trigger] sigs@[j * m + p] == (if j < i && ds[j].contains(p as usize) {
                        1u64
                    } else if j == i && positions@.subrange(0, t + 1).contains(p as usize) {
                        1u64
                    } else {
                        0u64
                    }) by {
                        lemma_flat_lt(j, p, b as int, m as int);
                        lemma_flat_injective(j, p, i as int, pos as int, m as int);
                        if j == i {
                            let old_sub = positions@.subrange(0, t as int);
                            let new_sub = positions@.subrange(0, t + 1);
                            assert(new_sub =~= old_sub.push(pos));
                            assert(new_sub.contains(p as usize) <==> old_sub.contains(p as usize) || p == pos) by {
                                if new_sub.contains(p as usize) {
                                    let w = choose|w: int| 0 <= w < new_sub.len() && new_sub[w] == p as usize;
                                    if w < t {
                                        assert(old_sub[w] == p as usize);
                                    }
                                }
                                if old_sub.contains(p as usize) {
                                    let w = choose|w: int| 0 <= w < old_sub.len() && old_sub[w] == p as usize;
                                    assert(new_sub[w] == p as usize);
                                }
                                if p == pos {
                                    assert(new_sub[t as int] == p as usize);
                                }
                            }
                        }
                    }
                }
                t = t + 1;
            }
            proof {
                assert(positions@.subrange(0, positions@.len() as int) =~= positions@);
                ds = ds.push(positions@);
                assert forall|j: int, p: int| 0 <= j < b && 0 <= p < m implies #[trigger] sigs@[j * m + p] == (if j < i + 1 && ds[j].contains(p as usize) { 1u64 } else { 0u64 }) by {
                    if j == i {
                        assert(ds[j] == positions@);
                    }
                }
                assert forall|j: int| 0 <= j < i + 1 implies #[trigger] needed@[j] == ds[j].len() by {
                }
            }
            i = i + 1;
        }
        let sig_lat = PaddedTileLattice::from_dense(b, m, sigs.as_slice(), self.geom).unwrap();
        let pres = self.present_vector();
        // (b × m) · (m × 1) → (b × 1): how many of each item's slots are set.
        let prod = semiring_matmul::<Counting>(&sig_lat, &pres).unwrap();
        let counts = prod.to_dense();
        proof {
            assert forall|j: int, p: int| 0 <= j < b && 0 <= p < m implies #[trigger] sig_lat@[j][p] == (if ds[j].contains(p as usize) { 1u64 } else { 0u64 }) by {
                assert(sig_lat@[j][p] == sigs@[j * m + p]);
            }
            assert forall|j: int| 0 <= j < b implies #[trigger] counts@[j] == dot::<Counting>(sig_lat@, pres@, j, 0, m as nat) by {
                assert(counts@[j * 1 + 0] == prod@[j][0]);
            }
        }
        let mut out: Vec<bool> = Vec::with_capacity(b);
        let mut i: usize = 0;
        while i < b
            invariant
                self.wf(),
                m == self.m,
                b == items@.len(),
                i <= b,
                counts@.len() == b * 1,
                needed@.len() == b,
                ds.len() == b,
                sig_lat.spec_rows() == b,
                sig_lat.spec_cols() == m,
                pres.spec_rows() == m,
                pres.spec_cols() == 1,
                forall|j: int| 0 <= j < b ==> #[trigger] needed@[j] == ds[j].len(),
                forall|j: int| 0 <= j < b ==> (#[trigger] ds[j]).no_duplicates(),
                forall|j: int, q: int| 0 <= j < b && 0 <= q < ds[j].len() ==> #[trigger] ds[j][q] < m,
                forall|j: int, p: int|
                    0 <= j < b && 0 <= p < m ==> (ds[j].contains(p as usize) <==> #[trigger] is_slot(self.seed, self.m, self.k, items@[j], p)),
                forall|j: int, p: int| 0 <= j < b && 0 <= p < m ==> #[trigger] sig_lat@[j][p] == (if ds[j].contains(p as usize) { 1u64 } else { 0u64 }),
                forall|p: int| 0 <= p < m ==> #[trigger] pres@[p][0] == (if self.counts@[p] > 0 { 1u64 } else { 0u64 }),
                forall|j: int| 0 <= j < b ==> #[trigger] counts@[j] == dot::<Counting>(sig_lat@, pres@, j, 0, m as nat),
                out@.len() == i,
                forall|j: int| 0 <= j < i ==> #[trigger] out@[j] == self.spec_contains(items@[j]),
            decreases b - i,
        {
            let got = counts[i];
            let need = needed[i];
            proof {
                let d = ds[i as int];
                lemma_dot_counts(sig_lat@, pres@, i as int, d, self.counts@, m as nat);
                lemma_cnt_all_len(d, m as nat);
                lemma_cnt_hit(d, self.counts@, m as nat);
                let item = items@[i as int];
                assert((forall|p: int| 0 <= p < m && d.contains(p as usize) ==> self.counts@[p] > 0)
                    <==> self.spec_contains(item)) by {
                    if forall|p: int| 0 <= p < m && d.contains(p as usize) ==> self.counts@[p] > 0 {
                        assert forall|q: int| 0 <= q < self.k implies self.counts@[bloom_pos(self.seed, self.m, item, q) as int] > 0 by {
                            let p = bloom_pos(self.seed, self.m, item, q) as int;
                            lemma_bloom_pos_bound(self.seed, self.m, item, q);
                            assert(is_slot(self.seed, self.m, self.k, item, p));
                            assert(d.contains(p as usize));
                        }
                    }
                    if self.spec_contains(item) {
                        assert forall|p: int| 0 <= p < m && d.contains(p as usize) implies self.counts@[p] > 0 by {
                            assert(is_slot(self.seed, self.m, self.k, item, p));
                            let q = choose|q: int| 0 <= q < self.k && bloom_pos(self.seed, self.m, item, q) == p;
                        }
                    }
                }
            }
            out.push(got >= need);
            i = i + 1;
        }
        proof {
            assert(counts@.len() == b);
        }
        out
    }

}

/// Row-major flat indices of an `rows x cols` grid stay inside it.
proof fn lemma_flat_lt(i: int, p: int, rows: int, cols: int)
    requires
        0 <= i < rows,
        0 <= p < cols,
    ensures
        0 <= i * cols + p < rows * cols,
{
    assert(0 <= i * cols + p < rows * cols) by (nonlinear_arith)
        requires
            0 <= i < rows,
            0 <= p < cols,
    ;
}

/// Distinct grid coordinates have distinct row-major flat indices.
proof fn lemma_flat_injective(i: int, p: int, i2: int, p2: int, cols: int)
    requires
        0 <= i,
        0 <= i2,
        0 <= p < cols,
        0 <= p2 < cols,
    ensures
        i * cols + p == i2 * cols + p2 ==> i == i2 && p == p2,
{
    if i * cols + p == i2 * cols + p2 {
        lemma_fundamental_div_mod_converse(i * cols + p, cols, i, p);
        lemma_fundamental_div_mod_converse(i2 * cols + p2, cols, i2, p2);
    }
}

/// Every slot position lies in `0..m`.
proof fn lemma_bloom_pos_bound(seed: u64, m: usize, item: u64, i: int)
    requires
        m > 0,
    ensures
        bloom_pos(seed, m, item, i) < m,
{
    let h1 = spec_splitmix64(item ^ seed);
    let h2 = spec_splitmix64(item ^ rotl32(seed) ^ 0xDEAD_BEEFu64);
    lemma_mod_bound(h1.wrapping_add((i as u64).wrapping_mul(h2)) as int, m as int);
}

} // verus!
