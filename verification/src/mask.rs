//! Validity masks.
//!
//! Padding fills out the edge tiles of a lattice with elements that have no
//! logical meaning. A [`Mask`] records, per padded coordinate, whether that slot
//! is a real value or padding. It is the bookkeeping that lets a dense round-trip
//! drop padding.

use crate::shape::Shape;
use vstd::arithmetic::div_mod::*;
use vstd::prelude::*;

verus! {

/// Bit `b` of `w`.
pub open spec fn word_bit(w: u64, b: u64) -> bool {
    (w >> b) & 1u64 == 1u64
}

proof fn lemma_bit_set(w: u64, b: u64, b2: u64)
    requires
        b < 64,
        b2 < 64,
    ensures
        word_bit(w | (1u64 << b), b2) == (b == b2 || word_bit(w, b2)),
{
    assert(((w | (1u64 << b)) >> b2) & 1u64 == 1u64 <==> (b == b2 || (w >> b2) & 1u64 == 1u64))
        by (bit_vector)
        requires
            b < 64,
            b2 < 64,
    ;
}

proof fn lemma_bit_zero(b: u64)
    requires
        b < 64,
    ensures
        !word_bit(0u64, b),
{
    assert((0u64 >> b) & 1u64 != 1u64) by (bit_vector)
        requires
            b < 64,
    ;
}

proof fn lemma_word_index(idx: int, total: int, word_count: int)
    requires
        0 <= idx < total,
        total <= word_count * 64,
    ensures
        0 <= idx / 64 < word_count,
        0 <= idx % 64 < 64,
{
    lemma_fundamental_div_mod(idx, 64);
    lemma_mod_pos_bound(idx, 64);
    assert(0 <= idx / 64 < word_count) by (nonlinear_arith)
        requires
            idx == 64 * (idx / 64) + idx % 64,
            0 <= idx % 64 < 64,
            0 <= idx < total,
            total <= word_count * 64,
    ;
}

proof fn lemma_pc_digits(j: int, pc: int, row: int, col: int)
    requires
        0 <= j,
        pc > 0,
        0 <= col < pc,
        0 <= row,
    ensures
        j == pc * (j / pc) + j % pc,
        0 <= j % pc < pc,
        0 <= j / pc,
        (j / pc == row && j % pc == col) <==> j == pc * row + col,
{
    lemma_fundamental_div_mod(j, pc);
    lemma_mod_pos_bound(j, pc);
    lemma_div_pos_is_pos(j, pc);
    if j == pc * row + col {
        lemma_fundamental_div_mod_converse(j, pc, row, col);
        assert(row * pc == pc * row) by (nonlinear_arith);
    }
}

/// Slot `idx` of a padded grid `pc` columns wide is logical for a `rows x cols`
/// shape.
pub open spec fn slot_is_logical(idx: int, pc: int, rows: int, cols: int) -> bool {
    idx / (pc as int) < rows && idx % (pc as int) < cols
}

/// A dense bitset over the padded coordinate grid marking logical elements.
#[derive(Clone, Debug, PartialEq, Eq)]
pub struct Mask {
    padded_rows: usize,
    padded_cols: usize,
    rows: usize,
    cols: usize,
    words: Vec<u64>,
}

impl Mask {
    /// Whether padded slot `idx` (row-major over the padded grid) is marked.
    pub closed spec fn marked(&self, idx: int) -> bool {
        word_bit(self.words@[idx / 64], (idx % 64) as u64)
    }

    /// This mask marks exactly the logical slots of `shape`.
    pub closed spec fn describes(&self, shape: Shape) -> bool {
        &&& self.rows == shape.rows
        &&& self.cols == shape.cols
        &&& self.padded_rows == shape.padded_rows
        &&& self.padded_cols == shape.padded_cols
        &&& shape.rows <= shape.padded_rows
        &&& shape.cols <= shape.padded_cols
        &&& shape.padded_rows * shape.padded_cols <= usize::MAX
        &&& self.words@.len() * 64 >= shape.padded_rows * shape.padded_cols
        &&& forall|idx: int|
            0 <= idx < shape.padded_rows * shape.padded_cols ==> (#[trigger] self.marked(idx)
                <==> slot_is_logical(idx, shape.padded_cols as int, shape.rows as int, shape.cols as int))
    }

    /// Build a mask from a shape: a slot is valid iff it lies in the logical region.
    pub fn from_shape(shape: &Shape) -> (m: Mask)
        requires
            shape.rows <= shape.padded_rows,
            shape.cols <= shape.padded_cols,
            shape.padded_rows * shape.padded_cols <= usize::MAX,
        ensures
            m.describes(*shape),
    {
        let total = shape.padded_len();
        let word_count = total / 64 + if total % 64 == 0 { 0 } else { 1 };
        let mut words: Vec<u64> = Vec::with_capacity(word_count);
        let mut k: usize = 0;
        while k < word_count
            invariant
                k <= word_count,
                words@ == Seq::new(k as nat, |_i: int| 0u64),
            decreases word_count - k,
        {
            words.push(0u64);
            k = k + 1;
        }
        let pc = shape.padded_cols;
        let rows = shape.rows;
        let cols = shape.cols;
        proof {
            lemma_fundamental_div_mod(total as int, 64);
            assert forall|idx: int| 0 <= idx < total implies !#[trigger] word_bit(words@[idx / 64], (idx % 64) as u64) by {
                lemma_word_index(idx, total as int, word_count as int);
                lemma_bit_zero((idx % 64) as u64);
            }
        }
        proof {
            assert(total > 0 ==> pc > 0) by (nonlinear_arith)
                requires
                    total == shape.padded_rows * shape.padded_cols,
                    pc == shape.padded_cols,
            ;
            assert forall|idx: int| 0 <= idx < total implies (#[trigger] word_bit(words@[idx / 64], (idx % 64) as u64)
                <==> (idx / (pc as int) < 0 && idx % (pc as int) < cols)) by {
                lemma_pc_digits(idx, pc as int, 0, 0);
            }
        }
        let mut row: usize = 0;
        while row < rows
            invariant
                row <= rows,
                rows == shape.rows,
                cols == shape.cols,
                pc == shape.padded_cols,
                total == shape.padded_rows * shape.padded_cols,
                rows <= shape.padded_rows,
                cols <= pc,
                words@.len() == word_count,
                word_count * 64 >= total,
                total > 0 ==> pc > 0,
                forall|idx: int|
                    0 <= idx < total ==> (#[trigger] word_bit(words@[idx / 64], (idx % 64) as u64)
                        <==> (idx / (pc as int) < row && idx % (pc as int) < cols)),
            decreases rows - row,
        {
            proof {
                assert forall|idx: int| 0 <= idx < total implies (#[trigger] word_bit(words@[idx / 64], (idx % 64) as u64)
                    <==> (idx / (pc as int) < row && idx % (pc as int) < cols) || (idx / (pc as int) == row && idx
                    % (pc as int) < 0)) by {
                    lemma_pc_digits(idx, pc as int, 0, 0);
                }
            }
            let mut col: usize = 0;
            while col < cols
                invariant
                    row < rows,
                    col <= cols,
                    rows == shape.rows,
                    cols == shape.cols,
                    pc == shape.padded_cols,
                    total == shape.padded_rows * shape.padded_cols,
                    rows <= shape.padded_rows,
                    cols <= pc,
                    words@.len() == word_count,
                    word_count * 64 >= total,
                    total > 0 ==> pc > 0,
                    forall|idx: int|
                        0 <= idx < total ==> (#[trigger] word_bit(words@[idx / 64], (idx % 64) as u64)
                            <==> (idx / (pc as int) < row && idx % (pc as int) < cols) || (idx / (pc as int) == row && idx
                            % (pc as int) < col)),
                decreases cols - col,
            {
                proof {
                    assert(row * pc + col < total) by (nonlinear_arith)
                        requires
                            row < rows,
                            rows <= shape.padded_rows,
                            col < cols,
                            cols <= pc,
                            total == shape.padded_rows * shape.padded_cols,
                            pc == shape.padded_cols,
                    ;
                }
                let idx = row * pc + col;
                proof {
                    lemma_word_index(idx as int, total as int, word_count as int);
                }
                let w = idx / 64;
                let b = (idx % 64) as u64;
                let ghost before = words@;
                let old_word = words[w];
                words.set(w, old_word | (1u64 << b));
                proof {
                    assert forall|k: int| 0 <= k < total implies #[trigger] word_bit(words@[k / 64], (k % 64) as u64)
                        == (word_bit(before[k / 64], (k % 64) as u64) || k == idx) by {
                        lemma_word_index(k, total as int, word_count as int);
                        lemma_fundamental_div_mod(k, 64);
                        lemma_fundamental_div_mod(idx as int, 64);
                        if k / 64 == w as int {
                            lemma_bit_set(old_word, b, (k % 64) as u64);
                        }
                    }
                    assert forall|k: int| 0 <= k < total implies (#[trigger] word_bit(words@[k / 64], (k % 64) as u64)
                        <==> (k / (pc as int) < row && k % (pc as int) < cols) || (k / (pc as int) == row && k % (pc as int) < col + 1)) by {
                        lemma_pc_digits(k, pc as int, row as int, col as int);
                        assert(idx == pc * row + col) by (nonlinear_arith)
                            requires
                                idx == row * pc + col,
                        ;
                        assert(word_bit(before[k / 64], (k % 64) as u64) <==> (k / (pc as int) < row && k % (pc as int) < cols) || (k / (pc as int) == row && k % (pc as int) < col));
                    }
                }
                col = col + 1;
            }
            proof {
                assert forall|j: int| 0 <= j < total implies (#[trigger] word_bit(words@[j / 64], (j % 64) as u64)
                    <==> (j / (pc as int) < row + 1 && j % (pc as int) < cols)) by {
                }
            }
            row = row + 1;
        }
        let m = Mask { padded_rows: shape.padded_rows, padded_cols: pc, rows, cols, words };
        proof {
            assert forall|idx: int| 0 <= idx < total implies (#[trigger] m.marked(idx)
                <==> slot_is_logical(idx, pc as int, rows as int, cols as int)) by {
                assert(word_bit(m.words@[idx / 64], (idx % 64) as u64) <==> (idx / (pc as int) < rows && idx % (pc as int) < cols));
            }
        }
        m
    }

    /// True if the padded coordinate `(row, col)` holds a logical element.
    pub fn is_valid(&self, row: usize, col: usize, shape: &Shape) -> (v: bool)
        requires
            self.describes(*shape),
            row < shape.padded_rows,
            col < shape.padded_cols,
        ensures
            v == (row < shape.rows && col < shape.cols),
    {
        proof {
            assert(row * shape.padded_cols + col < shape.padded_rows * shape.padded_cols) by (nonlinear_arith)
                requires
                    row < shape.padded_rows,
                    col < shape.padded_cols,
            ;
        }
        let idx = row * self.padded_cols + col;
        proof {
            lemma_fundamental_div_mod_converse(idx as int, shape.padded_cols as int, row as int, col as int);
            lemma_word_index(idx as int, (shape.padded_rows * shape.padded_cols) as int, self.words@.len() as int);
            assert(self.marked(idx as int) == slot_is_logical(idx as int, shape.padded_cols as int, shape.rows as int, shape.cols as int));
        }
        let word = self.words[idx / 64];
        (word >> ((idx % 64) as u64)) & 1u64 == 1u64
    }
}

} // verus!
