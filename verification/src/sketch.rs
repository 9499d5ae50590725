//! `CountMinSketch` — frequency estimation as a matmul per hash row.
//!
//! A Count-Min sketch keeps a `d × w` table of counters. Each item hashes to one
//! column per row; inserting bumps those `d` counters, and the frequency estimate
//! is the minimum of them (the row least corrupted by collisions). The
//! matmul-native batch query: for each row, encode the batch's chosen columns as a
//! one-hot selection matrix and multiply by that row's counters —
//!
//! ```text
//! row_counts_r = Sel_r (b × w) · counters_r (w × 1)
//! estimate[i]  = min over rows of row_counts_r[i]
//! ```
//!
//! so `d` small matmuls estimate the frequencies of a whole batch. Count-Min never
//! underestimates.

use crate::geometry::Geometry;
use crate::hyper::{spec_splitmix64, splitmix64};
use crate::lattice::PaddedTileLattice;
use crate::semiring::{lemma_dot_select, semiring_matmul, Counting};
use crate::shape::{lemma_shape_fits, lemma_shape_fits_mono, shape_fits};
use vstd::arithmetic::div_mod::*;
use vstd::prelude::*;

verus! {

broadcast use PaddedTileLattice::lemma_view_dims;

/// The column `item` maps to in row `r` of a sketch `w` columns wide.
pub open spec fn cms_column(seed: u64, w: usize, r: int, item: u64) -> int {
    (spec_splitmix64(item ^ seed ^ (r as u64).wrapping_mul(0x9E37_79B9_7F4A_7C15u64)) % (w as u64)) as int
}

/// The smaller of two counters.
pub open spec fn min_u64(x: u64, y: u64) -> u64 {
    if x <= y {
        x
    } else {
        y
    }
}

/// The minimum of `item`'s counters over the first `k` rows (`u64::MAX` for none).
pub open spec fn row_min(table: Seq<u64>, seed: u64, w: usize, item: u64, k: nat) -> u64
    decreases k,
{
    if k == 0 {
        u64::MAX
    } else {
        min_u64(
            row_min(table, seed, w, item, (k - 1) as nat),
            table[(k - 1) * w + cms_column(seed, w, k - 1, item)],
        )
    }
}

/// The minimum over the first `k` rows lies at or below the item's counter in each
/// of those rows, and (for `k > 0`) equals one of them.
proof fn lemma_row_min_is_min(table: Seq<u64>, seed: u64, w: usize, item: u64, k: nat)
    ensures
        forall|r: int| 0 <= r < k ==> row_min(table, seed, w, item, k) <= #[trigger] table[r * w + cms_column(seed, w, r, item)],
        k > 0 ==> exists|r: int| 0 <= r < k && row_min(table, seed, w, item, k) == #[trigger] table[r * w + cms_column(seed, w, r, item)],
    decreases k,
{
    if k > 0 {
        lemma_row_min_is_min(table, seed, w, item, (k - 1) as nat);
        let last = (k - 1) as int;
        if k > 1 {
            let r0 = choose|r: int| 0 <= r < k - 1 && row_min(table, seed, w, item, (k - 1) as nat) == #[trigger] table[r * w + cms_column(seed, w, r, item)];
            if row_min(table, seed, w, item, (k - 1) as nat) <= table[last * w + cms_column(seed, w, last, item)] {
                assert(row_min(table, seed, w, item, k) == table[r0 * w + cms_column(seed, w, r0, item)]);
            } else {
                assert(row_min(table, seed, w, item, k) == table[last * w + cms_column(seed, w, last, item)]);
            }
        } else {
            assert(row_min(table, seed, w, item, k) == table[last * w + cms_column(seed, w, last, item)]);
        }
    }
}

/// The per-row hash law: row `r` maps an item to the SplitMix64 hash of the item
/// mixed with the seed and with `r · φ` (mod 2^64, `φ` the 64-bit golden ratio),
/// reduced modulo the width.
pub proof fn lemma_column_hash(seed: u64, w: usize, r: int, item: u64)
    requires
        w > 0,
        0 <= r < 0x1_0000_0000_0000_0000,
    ensures
        cms_column(seed, w, r, item) == (spec_splitmix64(item ^ seed ^ ((r * 0x9E37_79B9_7F4A_7C15int) % 0x1_0000_0000_0000_0000) as u64) as int)
            % (w as int),
{
    assert((r as u64) as int == r);
}

/// `table` after adding `n` to `item`: its counter in every row grows by `n`
/// (saturating at `u64::MAX`).
pub open spec fn table_after_add(table: Seq<u64>, seed: u64, w: usize, item: u64, n: u64) -> Seq<u64> {
    Seq::new(
        table.len(),
        |q: int|
            if q % (w as int) == cms_column(seed, w, q / (w as int), item) {
                if table[q] + n >= u64::MAX {
                    u64::MAX
                } else {
                    (table[q] + n) as u64
                }
            } else {
                table[q]
            },
    )
}

/// A Count-Min sketch with a matmul batch-estimate.
#[derive(Clone)]
pub struct CountMinSketch {
    d: usize,
    w: usize,
    seed: u64,
    geom: Geometry,
    table: Vec<u64>,
    total: u64,
    freq: Ghost<Map<u64, nat>>,
}

/// Cell `(r, c)` of a table `w` wide sits at `r * w + c`, inside a `d x w` table.
proof fn lemma_cell(r: int, c: int, d: int, w: int)
    requires
        0 <= r < d,
        0 <= c < w,
    ensures
        0 <= r * w + c < d * w,
        (r * w + c) / w == r,
        (r * w + c) % w == c,
{
    assert(0 <= r * w + c < d * w) by (nonlinear_arith)
        requires
            0 <= r < d,
            0 <= c < w,
    ;
    lemma_fundamental_div_mod_converse(r * w + c, w, r, c);
}

proof fn lemma_column_bound(seed: u64, w: usize, r: int, item: u64)
    requires
        w > 0,
    ensures
        0 <= cms_column(seed, w, r, item) < w,
{
    lemma_mod_bound(spec_splitmix64(item ^ seed ^ (r as u64).wrapping_mul(0x9E37_79B9_7F4A_7C15u64)) as int, w as int);
}

/// The minimum over rows is attained by some row and bounded by every row.
proof fn lemma_row_min(table: Seq<u64>, seed: u64, w: usize, item: u64, k: nat, lo: int)
    requires
        forall|r: int| 0 <= r < k ==> table[r * w + cms_column(seed, w, r, item)] >= lo,
        lo <= u64::MAX,
    ensures
        row_min(table, seed, w, item, k) >= lo,
    decreases k,
{
    if k > 0 {
        lemma_row_min(table, seed, w, item, (k - 1) as nat, lo);
    }
}

impl CountMinSketch {
    /// The sketch invariant: the table holds `d x w` counters, no counter exceeds the
    /// total count, and every item's counter in every row is at least the item's
    /// true frequency.
    pub closed spec fn wf(&self) -> bool {
        &&& self.d > 0
        &&& self.w > 0
        &&& self.d * self.w <= usize::MAX
        &&& self.table@.len() == self.d * self.w
        &&& self.geom == Geometry::tpu_v_spec()
        &&& shape_fits(self.w as int, 1, self.geom)
        &&& forall|x: u64| #[trigger] self.frequency(x) <= self.total
        &&& forall|q: int| 0 <= q < self.table@.len() ==> #[trigger] self.table@[q] <= self.total
        &&& forall|x: u64, r: int|
            0 <= r < self.d ==> self.table@[r * self.w + #[trigger] cms_column(self.seed, self.w, r, x)]
                >= self.frequency(x)
    }

    /// Number of hash rows.
    pub closed spec fn spec_rows(&self) -> usize {
        self.d
    }

    /// Number of columns per row.
    pub closed spec fn spec_width(&self) -> usize {
        self.w
    }

    /// The hashing seed.
    pub closed spec fn spec_seed(&self) -> u64 {
        self.seed
    }

    /// Total count inserted across all items.
    pub closed spec fn spec_total(&self) -> u64 {
        self.total
    }

    /// The counter table, row-major.
    pub closed spec fn spec_table(&self) -> Seq<u64> {
        self.table@
    }

    /// The tile geometry used for the batch matmuls.
    pub closed spec fn spec_geometry(&self) -> Geometry {
        self.geom
    }

    /// The true frequency of `item`: the sum of every count added for it.
    pub closed spec fn frequency(&self, item: u64) -> nat {
        if self.freq@.dom().contains(item) {
            self.freq@[item]
        } else {
            0
        }
    }

    /// The estimate the sketch gives for `item`.
    pub open spec fn spec_estimate(&self, item: u64) -> u64 {
        row_min(self.spec_table(), self.spec_seed(), self.spec_width(), item, self.spec_rows() as nat)
    }

    /// Create a sketch with `d` rows (hash functions) and `w` columns per row.
    pub fn new(d: usize, w: usize, seed: u64) -> (s: Self)
        requires
            d > 0 && w > 0,
            d * w <= usize::MAX,
            shape_fits(w as int, 1, Geometry::tpu_v_spec()),
        ensures
            s.wf(),
            s.spec_rows() == d,
            s.spec_width() == w,
            s.spec_seed() == seed,
            s.spec_total() == 0,
            s.spec_table() == Seq::new((d * w) as nat, |_q: int| 0u64),
            s.spec_geometry() == Geometry::tpu_v_spec(),
            forall|x: u64| #[trigger] s.frequency(x) == 0,
    {
        let mut table: Vec<u64> = Vec::new();
        let mut i: usize = 0;
        while i < d * w
            invariant
                i <= d * w,
                d * w <= usize::MAX,
                table@ == Seq::new(i as nat, |_q: int| 0u64),
            decreases d * w - i,
        {
            table.push(0);
            i = i + 1;
        }
        let s = CountMinSketch { d, w, seed, geom: Geometry::tpu_v(), table, total: 0, freq: Ghost(Map::empty()) };
        proof {
            assert forall|x: u64, r: int| 0 <= r < d implies s.table@[r * w + #[trigger] cms_column(seed, w, r, x)] >= s.frequency(x) by {
                lemma_column_bound(seed, w, r, x);
                lemma_cell(r, cms_column(seed, w, r, x), d as int, w as int);
            }
        }
        s
    }

    /// Number of hash rows.
    pub fn rows(&self) -> (r: usize)
        ensures
            r == self.spec_rows(),
    {
        self.d
    }

    /// Number of columns per row.
    pub fn width(&self) -> (r: usize)
        ensures
            r == self.spec_width(),
    {
        self.w
    }

    /// Total count inserted across all items.
    pub fn total(&self) -> (r: u64)
        ensures
            r == self.spec_total(),
    {
        self.total
    }

    /// The column item `item` maps to in row `r`.
    fn column(&self, r: usize, item: u64) -> (c: usize)
        requires
            self.w > 0,
        ensures
            c == cms_column(self.seed, self.w, r as int, item),
            c < self.w,
    {
        proof {
            lemma_column_bound(self.seed, self.w, r as int, item);
        }
        let h = splitmix64(item ^ self.seed ^ (r as u64).wrapping_mul(0x9E37_79B9_7F4A_7C15u64));
        (h % (self.w as u64)) as usize
    }

    /// Add `n` to the count of `item`.
    pub fn add(&mut self, item: u64, n: u64)
        requires
            old(self).wf(),
            old(self).spec_total() + n <= u64::MAX,
        ensures
            final(self).wf(),
            final(self).spec_rows() == old(self).spec_rows(),
            final(self).spec_width() == old(self).spec_width(),
            final(self).spec_seed() == old(self).spec_seed(),
            final(self).spec_geometry() == old(self).spec_geometry(),
            final(self).spec_total() == old(self).spec_total() + n,
            final(self).spec_table() == table_after_add(
                old(self).spec_table(),
                old(self).spec_seed(),
                old(self).spec_width(),
                item,
                n,
            ),
            final(self).frequency(item) == old(self).frequency(item) + n,
            forall|y: u64| y != item ==> #[trigger] final(self).frequency(y) == old(self).frequency(y),
    {
        let ghost orig = self.table@;
        let ghost target = table_after_add(orig, self.seed, self.w, item, n);
        let mut r: usize = 0;
        while r < self.d
            invariant
                old(self).wf(),
                self.d == old(self).d,
                self.w == old(self).w,
                self.seed == old(self).seed,
                self.geom == old(self).geom,
                self.total == old(self).total,
                self.freq == old(self).freq,
                orig == old(self).table@,
                target == table_after_add(orig, self.seed, self.w, item, n),
                r <= self.d,
                self.table@.len() == self.d * self.w,
                forall|q: int| 0 <= q < self.d * self.w ==> #[trigger] self.table@[q] == (if q / (self.w as int) < r { target[q] } else { orig[q] }),
            decreases self.d - r,
        {
            let c = self.column(r, item);
            proof {
                lemma_cell(r as int, c as int, self.d as int, self.w as int);
            }
            let idx = r * self.w + c;
            let v = self.table[idx];
            self.table.set(idx, v.saturating_add(n));
            proof {
                assert forall|q: int| 0 <= q < self.d * self.w implies #[trigger] self.table@[q] == (if q / (self.w as int) < r + 1 { target[q] } else { orig[q] }) by {
                    let qr = q / (self.w as int);
                    let qc = q % (self.w as int);
                    lemma_fundamental_div_mod(q, self.w as int);
                    lemma_mod_bound(q, self.w as int);
                    lemma_div_pos_is_pos(q, self.w as int);
                    if q == idx {
                    } else if qr == r {
                        assert(qc != c) by {
                            if qc == c {
                                assert(q == (self.w as int) * qr + qc);
                                assert(q == r * self.w + c) by (nonlinear_arith)
                                    requires
                                        q == (self.w as int) * qr + qc,
                                        qr == r,
                                        qc == c,
                                ;
                            }
                        }
                    }
                }
            }
            r = r + 1;
        }
        self.total = self.total + n;
        let ghost fx: nat = if self.freq@.dom().contains(item) { self.freq@[item] } else { 0nat };
        self.freq = Ghost(self.freq@.insert(item, (fx + n) as nat));
        proof {
            assert forall|q: int| 0 <= q < self.d * self.w implies #[trigger] self.table@[q] == target[q] by {
                lemma_fundamental_div_mod(q, self.w as int);
                lemma_mod_bound(q, self.w as int);
                assert(q / (self.w as int) < self.d) by (nonlinear_arith)
                    requires
                        q == (self.w as int) * (q / (self.w as int)) + q % (self.w as int),
                        0 <= q % (self.w as int),
                        q < self.d * self.w,
                        self.w > 0,
                ;
            }
            assert(self.table@ =~= target);
            assert forall|q: int| 0 <= q < self.table@.len() implies #[trigger] self.table@[q] <= self.total by {
                assert(orig[q] <= old(self).total);
            }
            assert forall|x: u64| #[trigger] self.frequency(x) <= self.total by {
                assert(old(self).frequency(x) <= old(self).total);
            }
            assert forall|x: u64, rr: int| 0 <= rr < self.d implies self.table@[rr * self.w + #[trigger] cms_column(self.seed, self.w, rr, x)]
                >= self.frequency(x) by {
                let cc = cms_column(self.seed, self.w, rr, x);
                lemma_column_bound(self.seed, self.w, rr, x);
                lemma_cell(rr, cc, self.d as int, self.w as int);
                let q = rr * self.w + cc;
                assert(old(self).table@[q] >= old(self).frequency(x));
                assert(old(self).frequency(x) <= old(self).total);
                assert(target[q] >= orig[q]);
                if x == item {
                    assert(q % (self.w as int) == cms_column(self.seed, self.w, q / (self.w as int), item));
                }
            }
        }
    }

    /// Insert one occurrence of `item`.
    pub fn insert(&mut self, item: u64)
        requires
            old(self).wf(),
            old(self).spec_total() < u64::MAX,
        ensures
            final(self).wf(),
            final(self).spec_rows() == old(self).spec_rows(),
            final(self).spec_width() == old(self).spec_width(),
            final(self).spec_seed() == old(self).spec_seed(),
            final(self).spec_geometry() == old(self).spec_geometry(),
            final(self).spec_total() == old(self).spec_total() + 1,
            final(self).spec_table() == table_after_add(
                old(self).spec_table(),
                old(self).spec_seed(),
                old(self).spec_width(),
                item,
                1,
            ),
            final(self).frequency(item) == old(self).frequency(item) + 1,
            forall|y: u64| y != item ==> #[trigger] final(self).frequency(y) == old(self).frequency(y),
    {
        self.add(item, 1);
    }

    /// The Count-Min law: the estimate of an item is the smallest of its counters
    /// over all `d` rows — at or below the counter in every row, and equal to one
    /// of them.
    pub proof fn lemma_estimate_is_min(&self, item: u64)
        requires
            self.wf(),
        ensures
            forall|r: int|
                0 <= r < self.spec_rows() ==> self.spec_estimate(item) <= #[trigger] self.spec_table()[r
                    * self.spec_width() + cms_column(self.spec_seed(), self.spec_width(), r, item)],
            exists|r: int|
                0 <= r < self.spec_rows() && self.spec_estimate(item) == #[trigger] self.spec_table()[r
                    * self.spec_width() + cms_column(self.spec_seed(), self.spec_width(), r, item)],
    {
        lemma_row_min_is_min(self.table@, self.seed, self.w, item, self.d as nat);
        assert(self.d > 0);
        let r0 = choose|r: int| 0 <= r < self.d && row_min(self.table@, self.seed, self.w, item, self.d as nat)
            == #[trigger] self.table@[r * self.w + cms_column(self.seed, self.w, r, item)];
        assert(0 <= r0 < self.spec_rows() && self.spec_estimate(item) == self.spec_table()[r0 * self.spec_width()
            + cms_column(self.spec_seed(), self.spec_width(), r0, item)]);
    }

    /// Estimate the count of `item`: the minimum of its counters over all rows.
    /// Never an underestimate.
    pub fn estimate(&self, item: u64) -> (e: u64)
        requires
            self.wf(),
        ensures
            e == self.spec_estimate(item),
            self.frequency(item) <= e <= self.spec_total(),
            // The estimate is the smallest of the item's counters over all rows.
            forall|r: int|
                0 <= r < self.spec_rows() ==> e <= #[trigger] self.spec_table()[r * self.spec_width() + cms_column(
                    self.spec_seed(),
                    self.spec_width(),
                    r,
                    item,
                )],
            exists|r: int|
                0 <= r < self.spec_rows() && e == #[trigger] self.spec_table()[r * self.spec_width() + cms_column(
                    self.spec_seed(),
                    self.spec_width(),
                    r,
                    item,
                )],
    {
        let mut best = u64::MAX;
        let mut r: usize = 0;
        while r < self.d
            invariant
                self.wf(),
                r <= self.d,
                best == row_min(self.table@, self.seed, self.w, item, r as nat),
            decreases self.d - r,
        {
            let c = self.column(r, item);
            proof {
                lemma_cell(r as int, c as int, self.d as int, self.w as int);
            }
            let v = self.table[r * self.w + c];
            best = if best <= v { best } else { v };
            r = r + 1;
        }
        proof {
            assert forall|r: int| 0 <= r < self.d implies self.table@[r * self.w + cms_column(self.seed, self.w, r, item)] >= self.frequency(item) by {
            }
            lemma_row_min(self.table@, self.seed, self.w, item, self.d as nat, self.frequency(item) as int);
            let last = (self.d - 1) as int;
            let c = cms_column(self.seed, self.w, last, item);
            lemma_column_bound(self.seed, self.w, last, item);
            lemma_cell(last, c, self.d as int, self.w as int);
            assert(self.table@[last * self.w + c] <= self.total);
            self.lemma_estimate_is_min(item);
        }
        best
    }

    /// This row's counter for each item, found by one counting matmul of a one-hot
    /// selection matrix `(b × w)` against the row `(w × 1)`.
    fn row_counts(&self, items: &[u64], r: usize) -> (counts: Vec<u64>)
        requires
            self.wf(),
            r < self.spec_rows(),
            items@.len() > 0,
            shape_fits(items@.len() as int, self.spec_width() as int, self.spec_geometry()),
            shape_fits(items@.len() as int, 1, self.spec_geometry()),
            items@.len() * self.spec_width() <= usize::MAX,
        ensures
            counts@.len() == items@.len(),
            forall|jj: int| 0 <= jj < items@.len() ==> #[trigger] counts@[jj] == self.table@[r * self.w + cms_column(self.seed, self.w, r as int, items@[jj])],
    {
        let b = items.len();
        let w = self.w;
        let total = b * w;
        // One-hot selection of each item's column in this row.
        let mut sel: Vec<u64> = Vec::with_capacity(total);
        let mut z: usize = 0;
        while z < total
            invariant
                z <= total,
                sel@ == Seq::new(z as nat, |_q: int| 0u64),
            decreases total - z,
        {
            sel.push(0);
            z = z + 1;
        }
        let ghost cols: Seq<int> = Seq::new(b as nat, |j: int| cms_column(self.seed, self.w, r as int, items@[j]));
        proof {
            assert forall|jj: int, p: int| 0 <= jj < b && 0 <= p < w implies #[trigger] sel@[jj * w + p] == 0u64 by {
                lemma_cell(jj, p, b as int, w as int);
            }
        }
        let mut j: usize = 0;
        while j < b
            invariant
                self.wf(),
                w == self.w,
                b == items@.len(),
                r < self.d,
                j <= b,
                total == b * w,
                sel@.len() == total,
                cols == Seq::new(b as nat, |j: int| cms_column(self.seed, self.w, r as int, items@[j])),
                forall|jj: int, p: int| 0 <= jj < b && 0 <= p < w ==> #[trigger] sel@[jj * w + p] == (if jj < j && p == cols[jj] { 1u64 } else { 0u64 }),
            decreases b - j,
        {
            let c = self.column(r, items[j]);
            proof {
                lemma_cell(j as int, c as int, b as int, w as int);
            }
            sel.set(j * w + c, 1);
            proof {
                assert forall|jj: int, p: int| 0 <= jj < b && 0 <= p < w implies #[trigger] sel@[jj * w + p] == (if jj < j + 1 && p == cols[jj] { 1u64 } else { 0u64 }) by {
                    lemma_cell(jj, p, b as int, w as int);
                    if jj * w + p == j * w + c {
                        assert(jj == j && p == c);
                    }
                }
            }
            j = j + 1;
        }
        let sel_lat = PaddedTileLattice::from_dense(b, w, sel.as_slice(), self.geom).unwrap();
        proof {
            lemma_cell(r as int, 0, self.d as int, w as int);
            assert((r + 1) * w <= self.d * w) by (nonlinear_arith)
                requires r < self.d;
            assert((r + 1) * w == r * w + w) by (nonlinear_arith);
        }
        let row = &self.table.as_slice()[r * w..(r + 1) * w];
        let row_lat = PaddedTileLattice::from_dense(w, 1, row, self.geom).unwrap();
        // (b × w) · (w × 1) → (b × 1): this row's counter for each item.
        let prod = semiring_matmul::<Counting>(&sel_lat, &row_lat).unwrap();
        let counts = prod.to_dense();
        proof {
            assert forall|jj: int| 0 <= jj < b implies #[trigger] counts@[jj] == self.table@[r * self.w + cms_column(self.seed, self.w, r as int, items@[jj])] by {
                let c = cms_column(self.seed, self.w, r as int, items@[jj]);
                lemma_column_bound(self.seed, self.w, r as int, items@[jj]);
                assert(counts@[jj * 1 + 0] == prod@[jj][0]);
                assert forall|p: int| 0 <= p < w implies #[trigger] sel_lat@[jj][p] == (if p == c { 1u64 } else { 0u64 }) by {
                    assert(sel_lat@[jj][p] == sel@[jj * w + p]);
                }
                lemma_dot_select(sel_lat@, row_lat@, jj, 0, c, w as nat);
                assert(row_lat@[c][0] == row@[c * 1 + 0]);
            }
        }
        counts
    }

    /// Estimate a batch of items, taking the min over `d` matmuls — one per row.
    /// Each estimate equals the scalar [`CountMinSketch::estimate`].
    pub fn batch_estimate(&self, items: &[u64]) -> (est: Vec<u64>)
        requires
            self.wf(),
            shape_fits(items@.len() as int, self.spec_width() as int, self.spec_geometry()),
        ensures
            est@.len() == items@.len(),
            forall|i: int| 0 <= i < items@.len() ==> #[trigger] est@[i] == self.spec_estimate(items@[i]),
            // Each estimate is the smallest of its item's counters over all rows.
            forall|i: int, r: int|
                0 <= i < items@.len() && 0 <= r < self.spec_rows() ==> #[trigger] est@[i] <= #[trigger] self.spec_table()[r
                    * self.spec_width() + cms_column(self.spec_seed(), self.spec_width(), r, items@[i])],
    {
        let b = items.len();
        if b == 0 {
            return Vec::new();
        }
        let w = self.w;
        proof {
            lemma_shape_fits(b as int, w as int, self.geom);
            lemma_shape_fits_mono(b as int, 1, b as int, w as int, self.geom);
        }
        let mut est: Vec<u64> = Vec::with_capacity(b);
        let mut i: usize = 0;
        while i < b
            invariant
                i <= b,
                est@ == Seq::new(i as nat, |_q: int| u64::MAX),
            decreases b - i,
        {
            est.push(u64::MAX);
            i = i + 1;
        }
        let total = b * w;
        let mut r: usize = 0;
        while r < self.d
            invariant
                self.wf(),
                w == self.w,
                b == items@.len(),
                b > 0,
                total == b * w,
                b * w <= usize::MAX,
                shape_fits(b as int, w as int, self.geom),
                shape_fits(b as int, 1, self.geom),
                r <= self.d,
                est@.len() == b,
                forall|j: int| 0 <= j < b ==> #[trigger] est@[j] == row_min(self.table@, self.seed, self.w, items@[j], r as nat),
            decreases self.d - r,
        {
            let counts = self.row_counts(items, r);
            let ghost prev = est@;
            let mut j: usize = 0;
            while j < b
                invariant
                    self.wf(),
                    w == self.w,
                    b == items@.len(),
                    r < self.d,
                    j <= b,
                    est@.len() == b,
                    counts@.len() == b * 1,
                    prev.len() == b,
                    forall|jj: int| 0 <= jj < b ==> #[trigger] prev[jj] == row_min(self.table@, self.seed, self.w, items@[jj], r as nat),
                    forall|jj: int| 0 <= jj < b ==> #[trigger] counts@[jj] == self.table@[r * w + cms_column(self.seed, self.w, r as int, items@[jj])],
                    forall|jj: int| 0 <= jj < j ==> #[trigger] est@[jj] == row_min(self.table@, self.seed, self.w, items@[jj], (r + 1) as nat),
                    forall|jj: int| j <= jj < b ==> #[trigger] est@[jj] == prev[jj],
                decreases b - j,
            {
                proof {
                    assert(counts@[j as int] == counts@[j as int]);
                }
                let e = est[j];
                let c = counts[j];
                est.set(j, if e <= c { e } else { c });
                j = j + 1;
            }
            r = r + 1;
        }
        proof {
            assert forall|i: int, r: int|
                0 <= i < items@.len() && 0 <= r < self.spec_rows() implies #[trigger] est@[i] <= #[trigger] self.spec_table()[r
                    * self.spec_width() + cms_column(self.spec_seed(), self.spec_width(), r, items@[i])] by {
                self.lemma_estimate_is_min(items@[i]);
            }
        }
        est
    }
}

} // verus!
