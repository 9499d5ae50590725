//! The `PaddedTileLattice`: a dense 2-D tensor stored as a padded grid of
//! hardware tiles in `(sublane, lane)` order.
//!
//! The lattice owns one contiguous buffer whose elements are already in the order
//! a TPU's vector memory wants, plus the [`Shape`] and [`Layout`] needed to present
//! a clean logical view on top of that hardware layout.

use crate::error::LatticeError;
use crate::geometry::Geometry;
use crate::layout::{lemma_offset, Layout};
use crate::mask::Mask;
use crate::shape::{lemma_shape_fits, shape_fits, spec_shape, Shape};
use vstd::arithmetic::div_mod::{lemma_fundamental_div_mod, lemma_fundamental_div_mod_converse};
use vstd::prelude::*;

verus! {

/// `m` is a `rows x cols` matrix: `rows` rows, each of length `cols`.
pub open spec fn is_matrix<T>(m: Seq<Seq<T>>, rows: int, cols: int) -> bool {
    &&& m.len() == rows
    &&& forall|i: int| 0 <= i < rows ==> #[trigger] m[i].len() == cols
}

/// The `rows x cols` matrix whose every element is `v`.
pub open spec fn const_matrix<T>(rows: nat, cols: nat, v: T) -> Seq<Seq<T>> {
    Seq::new(rows, |_i: int| Seq::new(cols, |_j: int| v))
}

/// `d` is a value that `T::default()` returns.
pub open spec fn is_default<T: Default>(d: T) -> bool {
    call_ensures(T::default, (), d)
}

/// The row-major buffer `d` read as a `rows x cols` matrix.
pub open spec fn unflatten<T>(d: Seq<T>, rows: nat, cols: nat) -> Seq<Seq<T>> {
    Seq::new(rows, |i: int| Seq::new(cols, |j: int| d[i * cols + j]))
}

/// The `rows x cols` matrix `m` written out row-major.
pub open spec fn flatten<T>(m: Seq<Seq<T>>, rows: nat, cols: nat) -> Seq<T> {
    Seq::new(rows * cols, |k: int| m[k / (cols as int)][k % (cols as int)])
}

/// Row-major position `i * cols + j` of a `rows x cols` grid, and back.
proof fn lemma_row_major(rows: int, cols: int, k: int)
    requires
        rows >= 0,
        cols >= 0,
        0 <= k < rows * cols,
    ensures
        cols > 0,
        0 <= k / cols < rows,
        0 <= k % cols < cols,
        k == (k / cols) * cols + k % cols,
{
    assert(cols > 0) by (nonlinear_arith)
        requires 0 <= k < rows * cols, rows >= 0, cols >= 0;
    lemma_fundamental_div_mod(k, cols);
    assert(k == (k / cols) * cols + k % cols) by (nonlinear_arith)
        requires k == cols * (k / cols) + k % cols;
    assert(0 <= k / cols < rows) by (nonlinear_arith)
        requires k == (k / cols) * cols + k % cols, 0 <= k % cols < cols, 0 <= k < rows * cols, cols > 0;
}

/// The dense round-trip law: reading a buffer as a matrix and writing it back out
/// gives the buffer, and writing a matrix out and reading it back gives the matrix.
pub proof fn lemma_dense_round_trip<T>(d: Seq<T>, m: Seq<Seq<T>>, rows: nat, cols: nat)
    ensures
        d.len() == rows * cols ==> flatten(unflatten(d, rows, cols), rows, cols) == d,
        is_matrix(m, rows as int, cols as int) ==> unflatten(flatten(m, rows, cols), rows, cols) == m,
{
    if d.len() == rows * cols {
        let f = flatten(unflatten(d, rows, cols), rows, cols);
        assert forall|k: int| 0 <= k < d.len() implies #[trigger] f[k] == d[k] by {
            lemma_row_major(rows as int, cols as int, k);
        }
        assert(f =~= d);
    }
    if is_matrix(m, rows as int, cols as int) {
        let u = unflatten(flatten(m, rows, cols), rows, cols);
        assert forall|i: int| 0 <= i < rows implies #[trigger] u[i] =~= m[i] by {
            assert forall|j: int| 0 <= j < cols implies #[trigger] u[i][j] == m[i][j] by {
                assert(0 <= i * cols + j < rows * cols) by (nonlinear_arith)
                    requires 0 <= i < rows, 0 <= j < cols;
                lemma_fundamental_div_mod_converse(i * cols + j, cols as int, i, j);
            }
        }
        assert(u =~= m);
    }
}

/// The read-after-write law of the logical view: after `set(row, col, v)` (whose
/// contract updates the view at `(row, col)`), `get(row, col)` reads `v`, and every
/// other cell reads what it read before.
pub proof fn lemma_read_after_write<T>(m: Seq<Seq<T>>, rows: int, cols: int, row: int, col: int, v: T, r2: int, c2: int)
    requires
        is_matrix(m, rows, cols),
        0 <= row < rows,
        0 <= col < cols,
        0 <= r2 < rows,
        0 <= c2 < cols,
    ensures
        is_matrix(m.update(row, m[row].update(col, v)), rows, cols),
        m.update(row, m[row].update(col, v))[row][col] == v,
        (r2 != row || c2 != col) ==> m.update(row, m[row].update(col, v))[r2][c2] == m[r2][c2],
{
    let w = m.update(row, m[row].update(col, v));
    assert forall|i: int| 0 <= i < rows implies #[trigger] w[i].len() == cols by {}
}

/// A tensor laid out for systolic hardware: logically `rows x cols`, physically a
/// padded lattice of tiles.
#[derive(Clone, Debug)]
pub struct PaddedTileLattice<T> {
    geom: Geometry,
    shape: Shape,
    layout: Layout,
    mask: Mask,
    data: Vec<T>,
}

/// `n` copies of `v`.
fn repeat<T: Copy>(v: T, n: usize) -> (r: Vec<T>)
    ensures
        r@ == Seq::new(n as nat, |_i: int| v),
{
    let mut r: Vec<T> = Vec::with_capacity(n);
    let mut i: usize = 0;
    while i < n
        invariant
            i <= n,
            r@ == Seq::new(i as nat, |_i: int| v),
        decreases n - i,
    {
        r.push(v);
        i = i + 1;
    }
    r
}

impl<T> PaddedTileLattice<T> {
    /// The lattice invariant: the shape, layout and mask agree with the geometry and
    /// the buffer holds exactly the padded grid.
    pub closed spec fn wf(&self) -> bool {
        &&& shape_fits(self.shape.rows as int, self.shape.cols as int, self.geom)
        &&& self.shape == spec_shape(self.shape.rows as int, self.shape.cols as int, self.geom)
        &&& self.layout.describes(self.shape, self.geom)
        &&& self.mask.describes(self.shape)
        &&& self.data@.len() == self.shape.padded_rows * self.shape.padded_cols
    }

    /// Number of logical rows.
    pub closed spec fn spec_rows(&self) -> usize {
        self.shape.rows
    }

    /// Number of logical columns.
    pub closed spec fn spec_cols(&self) -> usize {
        self.shape.cols
    }

    /// The tile geometry.
    pub closed spec fn spec_geometry(&self) -> Geometry {
        self.geom
    }

    /// The padded shape.
    pub closed spec fn spec_shape(&self) -> Shape {
        self.shape
    }

    /// The address layout.
    pub closed spec fn spec_layout(&self) -> Layout {
        self.layout
    }

    /// The raw storage buffer, padding included, in tiled order.
    pub closed spec fn storage(&self) -> Seq<T> {
        self.data@
    }

    /// Padded coordinate `(r, c)` lies outside the logical region: a padding slot.
    pub open spec fn is_padding(&self, r: int, c: int) -> bool {
        &&& 0 <= r < self.spec_shape().padded_rows
        &&& 0 <= c < self.spec_shape().padded_cols
        &&& !(r < self.spec_rows() && c < self.spec_cols())
    }

    /// Every padding slot of the buffer holds `v`.
    pub open spec fn padding_is(&self, v: T) -> bool {
        forall|r: int, c: int| #[trigger] self.is_padding(r, c) ==> self.storage()[self.spec_layout().offset(r, c)] == v
    }

    /// The element stored for logical `(r, c)`.
    closed spec fn at(&self, r: int, c: int) -> T {
        self.data@[self.layout.offset(r, c)]
    }

    /// The logical matrix: row `r`, column `c` holds the element stored for `(r, c)`.
    pub closed spec fn logical(&self) -> Seq<Seq<T>> {
        Seq::new(
            self.shape.rows as nat,
            |r: int| Seq::new(self.shape.cols as nat, |c: int| self.at(r, c)),
        )
    }

    /// The logical view is a `rows x cols` matrix.
    pub broadcast proof fn lemma_view_dims(&self)
        ensures
            is_matrix(#[trigger] self@, self.spec_rows() as int, self.spec_cols() as int),
    {
    }

    /// Every lattice's shape is the padded shape of its logical dimensions, and it
    /// fits in memory. (A no-op at run time; it states the type's invariant.)
    pub(crate) fn shape_facts(&self)
        requires
            self.wf(),
        ensures
            shape_fits(self.spec_rows() as int, self.spec_cols() as int, self.spec_geometry()),
            self.spec_shape() == spec_shape(
                self.spec_rows() as int,
                self.spec_cols() as int,
                self.spec_geometry(),
            ),
            self.spec_layout().describes(self.spec_shape(), self.spec_geometry()),
            self.storage().len() == self.spec_shape().padded_rows
                * self.spec_shape().padded_cols,
    {
    }

    /// The geometry this lattice was built with.
    pub fn geometry(&self) -> (g: &Geometry)
        requires
            self.wf(),
        ensures
            *g == self.spec_geometry(),
            g.wf(),
    {
        &self.geom
    }

    /// The logical-and-padded shape of this lattice.
    pub fn shape(&self) -> (s: &Shape)
        ensures
            *s == self.spec_shape(),
    {
        &self.shape
    }

    /// The address layout that maps coordinates to storage offsets.
    pub fn layout(&self) -> (l: &Layout)
        ensures
            *l == self.spec_layout(),
    {
        &self.layout
    }

    /// The validity mask over the padded grid.
    pub fn mask(&self) -> (m: &Mask)
        requires
            self.wf(),
        ensures
            m.describes(self.spec_shape()),
    {
        &self.mask
    }

    /// Number of logical rows.
    #[verifier::when_used_as_spec(spec_rows)]
    pub fn rows(&self) -> (r: usize)
        ensures
            r == self.spec_rows(),
    {
        self.shape.rows
    }

    /// Number of logical columns.
    #[verifier::when_used_as_spec(spec_cols)]
    pub fn cols(&self) -> (c: usize)
        ensures
            c == self.spec_cols(),
    {
        self.shape.cols
    }

    /// The storage offset of a logical coordinate.
    fn offset(&self, row: usize, col: usize) -> (o: usize)
        requires
            self.wf(),
            row < self.spec_rows(),
            col < self.spec_cols(),
        ensures
            o == self.layout.offset(row as int, col as int),
            o < self.data@.len(),
    {
        proof {
            self.lemma_coords(row as int, col as int);
        }
        self.layout.offset_of(row, col)
    }

    /// Logical coordinates land in the buffer, at distinct offsets.
    proof fn lemma_coords(&self, r: int, c: int)
        requires
            self.wf(),
            0 <= r < self.shape.rows,
            0 <= c < self.shape.cols,
        ensures
            0 <= self.layout.offset(r, c) < self.data@.len(),
            r < self.layout.tr() * self.layout.sl(),
            c < self.layout.tpr() * self.layout.ln(),
            self.layout.tr() * self.layout.tpr() * (self.layout.sl() * self.layout.ln())
                == self.data@.len(),
            forall|r2: int, c2: int|
                0 <= r2 < self.shape.rows && 0 <= c2 < self.shape.cols && (r2 != r || c2 != c)
                    ==> #[trigger] self.layout.offset(r2, c2) != self.layout.offset(r, c),
    {
        lemma_coords_of(self.layout, self.shape, self.geom, r, c);
    }

    /// Storage slice in tiled `(sublane, lane)` order, padding included. This is
    /// exactly the buffer a host-to-device copy would move.
    pub fn as_storage_slice(&self) -> (s: &[T])
        requires
            self.wf(),
        ensures
            s@ == self.storage(),
            s@.len() == self.spec_shape().padded_rows * self.spec_shape().padded_cols,
            forall|r: int, c: int|
                0 <= r < self.spec_rows() && 0 <= c < self.spec_cols() ==> s@[self.spec_layout().offset(r, c)]
                    == #[trigger] self@[r][c],
    {
        self.data.as_slice()
    }

    /// Borrow the element at logical `(row, col)`.
    pub fn get(&self, row: usize, col: usize) -> (r: Result<&T, LatticeError>)
        requires
            self.wf(),
        ensures
            row < self.spec_rows() && col < self.spec_cols() ==> r == Ok::<&T, LatticeError>(
                &self@[row as int][col as int],
            ),
            !(row < self.spec_rows() && col < self.spec_cols()) ==> r == Err::<&T, LatticeError>(
                LatticeError::IndexOutOfBounds { row, col },
            ),
    {
        if row < self.shape.rows && col < self.shape.cols {
            let o = self.offset(row, col);
            Ok(&self.data[o])
        } else {
            Err(LatticeError::IndexOutOfBounds { row, col })
        }
    }

    /// Overwrite the element at logical `(row, col)`.
    pub fn set(&mut self, row: usize, col: usize, value: T) -> (r: Result<(), LatticeError>)
        requires
            old(self).wf(),
        ensures
            final(self).wf(),
            final(self).spec_rows() == old(self).spec_rows(),
            final(self).spec_cols() == old(self).spec_cols(),
            final(self).spec_geometry() == old(self).spec_geometry(),
            final(self).spec_shape() == old(self).spec_shape(),
            final(self).spec_layout() == old(self).spec_layout(),
            // Padding slots are never written.
            forall|pr: int, pc: int|
                #[trigger] old(self).is_padding(pr, pc) ==> final(self).storage()[old(self).spec_layout().offset(pr, pc)]
                    == old(self).storage()[old(self).spec_layout().offset(pr, pc)],
            forall|v: T| #[trigger] old(self).padding_is(v) ==> final(self).padding_is(v),
            row < old(self).spec_rows() && col < old(self).spec_cols() ==> {
                &&& r == Ok::<(), LatticeError>(())
                &&& final(self)@ == old(self)@.update(
                    row as int,
                    old(self)@[row as int].update(col as int, value),
                )
            },
            !(row < old(self).spec_rows() && col < old(self).spec_cols()) ==> {
                &&& r == Err::<(), LatticeError>(LatticeError::IndexOutOfBounds { row, col })
                &&& final(self)@ == old(self)@
            },
    {
        if row < self.shape.rows && col < self.shape.cols {
            let o = self.offset(row, col);
            proof {
                self.lemma_coords(row as int, col as int);
            }
            let ghost before = self@;
            let ghost before_data = self.data@;
            self.data.set(o, value);
            proof {
                assert(self@ =~= before.update(row as int, before[row as int].update(col as int, value)))
                    by {
                    assert forall|r: int| 0 <= r < self.shape.rows implies #[trigger] self@[r]
                        =~= before.update(row as int, before[row as int].update(col as int, value))[r]
                        by {
                        assert forall|c: int| 0 <= c < self.shape.cols implies #[trigger] self@[r][c]
                            == before.update(row as int, before[row as int].update(col as int, value))[r][c]
                            by {
                            lemma_coords_of(self.layout, self.shape, self.geom, r, c);
                            if r != row || c != col {
                                assert(self.layout.offset(r, c) != self.layout.offset(row as int, col as int));
                            }
                        }
                    }
                }
                assert forall|pr: int, pc: int| #[trigger] old(self).is_padding(pr, pc) implies self.data@[self.layout.offset(pr, pc)]
                    == before_data[self.layout.offset(pr, pc)] by {
                    lemma_shape_fits(self.shape.rows as int, self.shape.cols as int, self.geom);
                    lemma_padded_apart(self.layout, self.shape, self.geom, row as int, col as int, pr, pc);
                    assert(self.layout.offset(pr, pc) != o as int);
                    lemma_padded_apart(self.layout, self.shape, self.geom, pr, pc, pr, pc);
                }
                assert forall|v: T| #[trigger] old(self).padding_is(v) implies self.padding_is(v) by {
                    assert forall|pr: int, pc: int| #[trigger] self.is_padding(pr, pc) implies self.storage()[self.spec_layout().offset(pr, pc)] == v by {
                        assert(old(self).is_padding(pr, pc));
                    }
                }
            }
            Ok(())
        } else {
            Err(LatticeError::IndexOutOfBounds { row, col })
        }
    }
}

/// The coordinate facts behind every lattice access: logical coordinates of a
/// well-formed shape land inside the padded buffer, at pairwise distinct offsets.
proof fn lemma_coords_of(layout: Layout, shape: Shape, geom: Geometry, r: int, c: int)
    requires
        shape_fits(shape.rows as int, shape.cols as int, geom),
        shape == spec_shape(shape.rows as int, shape.cols as int, geom),
        layout.describes(shape, geom),
        0 <= r < shape.rows,
        0 <= c < shape.cols,
    ensures
        0 <= layout.offset(r, c) < shape.padded_rows * shape.padded_cols,
        r < layout.tr() * layout.sl(),
        c < layout.tpr() * layout.ln(),
        layout.tr() * layout.tpr() * (layout.sl() * layout.ln()) == shape.padded_rows
            * shape.padded_cols,
        forall|r2: int, c2: int|
            0 <= r2 < shape.rows && 0 <= c2 < shape.cols && (r2 != r || c2 != c)
                ==> #[trigger] layout.offset(r2, c2) != layout.offset(r, c),
{
    lemma_shape_fits(shape.rows as int, shape.cols as int, geom);
    let sl = layout.sl();
    let ln = layout.ln();
    let tr = layout.tr();
    let tpr = layout.tpr();
    assert(tr * tpr * (sl * ln) == (tr * sl) * (tpr * ln)) by (nonlinear_arith);
    lemma_offset(sl, ln, tr, tpr, r, c);
    assert forall|r2: int, c2: int|
        0 <= r2 < shape.rows && 0 <= c2 < shape.cols && (r2 != r || c2 != c)
            implies #[trigger] layout.offset(r2, c2) != layout.offset(r, c) by {
        lemma_offset(sl, ln, tr, tpr, r2, c2);
    }
}

/// Every padded coordinate of a well-formed shape lands inside the buffer, and
/// distinct padded coordinates land at distinct offsets.
proof fn lemma_padded_apart(layout: Layout, shape: Shape, geom: Geometry, r: int, c: int, r2: int, c2: int)
    requires
        shape_fits(shape.rows as int, shape.cols as int, geom),
        shape == spec_shape(shape.rows as int, shape.cols as int, geom),
        layout.describes(shape, geom),
        0 <= r < shape.padded_rows,
        0 <= c < shape.padded_cols,
        0 <= r2 < shape.padded_rows,
        0 <= c2 < shape.padded_cols,
    ensures
        0 <= layout.offset(r, c) < shape.padded_rows * shape.padded_cols,
        (r2 != r || c2 != c) ==> layout.offset(r2, c2) != layout.offset(r, c),
{
    lemma_shape_fits(shape.rows as int, shape.cols as int, geom);
    let sl = layout.sl();
    let ln = layout.ln();
    let tr = layout.tr();
    let tpr = layout.tpr();
    assert(tr * tpr * (sl * ln) == (tr * sl) * (tpr * ln)) by (nonlinear_arith);
    assert(tr * sl == sl * tr && tpr * ln == ln * tpr) by (nonlinear_arith);
    lemma_offset(sl, ln, tr, tpr, r, c);
    lemma_offset(sl, ln, tr, tpr, r2, c2);
}

impl<T> View for PaddedTileLattice<T> {
    type V = Seq<Seq<T>>;

    closed spec fn view(&self) -> Seq<Seq<T>> {
        self.logical()
    }
}

impl<T: Copy> PaddedTileLattice<T> {
    /// A `rows x cols` lattice whose every logical element is `value`. Fails only
    /// for a geometry with a zero dimension.
    pub fn filled(rows: usize, cols: usize, value: T, geom: Geometry) -> (r: Result<
        Self,
        LatticeError,
    >)
        requires
            geom.wf() ==> shape_fits(rows as int, cols as int, geom),
        ensures
            geom.wf() ==> (r matches Ok(l) && l.wf() && l.spec_rows() == rows && l.spec_cols() == cols
                && l.spec_geometry() == geom && l@ == const_matrix(rows as nat, cols as nat, value)
                && l.storage() == Seq::new(l.storage().len(), |_o: int| value) && l.padding_is(value)),
            !geom.wf() ==> r == Err::<Self, LatticeError>(LatticeError::ZeroTileDimension),
    {
        if geom.sublanes == 0 || geom.lanes == 0 || geom.mxu == 0 {
            return Err(LatticeError::ZeroTileDimension);
        }
        proof {
            lemma_shape_fits(rows as int, cols as int, geom);
        }
        let shape = Shape::new(rows, cols, &geom);
        let layout = Layout::new(&shape, &geom);
        let mask = Mask::from_shape(&shape);
        let data = repeat(value, shape.padded_len());
        let l = PaddedTileLattice { geom, shape, layout, mask, data };
        proof {
            assert forall|r: int| 0 <= r < rows implies #[trigger] l@[r] =~= const_matrix(
                rows as nat,
                cols as nat,
                value,
            )[r] by {
                assert forall|c: int| 0 <= c < cols implies #[trigger] l@[r][c] == value by {
                    lemma_coords_of(layout, shape, geom, r, c);
                }
            }
            assert(l@ =~= const_matrix(rows as nat, cols as nat, value));
            assert forall|pr: int, pc: int| #[trigger] l.is_padding(pr, pc) implies l.storage()[l.spec_layout().offset(pr, pc)] == value by {
                lemma_padded_apart(layout, shape, geom, pr, pc, pr, pc);
            }
        }
        Ok(l)
    }

    /// Build a lattice from a dense row-major buffer of `rows * cols` elements.
    /// Padding slots hold `T::default()`.
    pub fn from_dense(rows: usize, cols: usize, data: &[T], geom: Geometry) -> (r: Result<
        Self,
        LatticeError,
    >) where T: Default
        requires
            geom.wf() ==> shape_fits(rows as int, cols as int, geom),
        ensures
            !geom.wf() ==> r == Err::<Self, LatticeError>(LatticeError::ZeroTileDimension),
            geom.wf() && data@.len() != rows * cols ==> r == Err::<Self, LatticeError>(
                LatticeError::BufferLengthMismatch { expected: (rows * cols) as usize, actual: data@.len() as usize },
            ),
            geom.wf() && data@.len() == rows * cols ==> (r matches Ok(l) && l.wf() && l.spec_rows() == rows
                && l.spec_cols() == cols && l.spec_geometry() == geom
                && l@ == unflatten(data@, rows as nat, cols as nat) && (forall|i: int, j: int|
                0 <= i < rows && 0 <= j < cols ==> #[trigger] l@[i][j] == data@[i * cols + j])
                && exists|d: T| is_default(d) && l.padding_is(d)),
    {
        if geom.sublanes == 0 || geom.lanes == 0 || geom.mxu == 0 {
            return Err(LatticeError::ZeroTileDimension);
        }
        proof {
            lemma_shape_fits(rows as int, cols as int, geom);
        }
        let expected = rows * cols;
        if data.len() != expected {
            return Err(LatticeError::BufferLengthMismatch { expected, actual: data.len() });
        }
        let shape = Shape::new(rows, cols, &geom);
        let layout = Layout::new(&shape, &geom);
        let mask = Mask::from_shape(&shape);
        let d = T::default();
        let mut buf = repeat(d, shape.padded_len());
        proof {
            assert forall|pr: int, pc: int|
                0 <= pr < shape.padded_rows && 0 <= pc < shape.padded_cols && !(pr < rows && pc < cols)
                    implies #[trigger] buf@[layout.offset(pr, pc)] == d by {
                lemma_padded_apart(layout, shape, geom, pr, pc, pr, pc);
            }
        }
        let mut i: usize = 0;
        while i < rows
            invariant
                i <= rows,
                shape_fits(rows as int, cols as int, geom),
                shape == spec_shape(rows as int, cols as int, geom),
                layout.describes(shape, geom),
                buf@.len() == shape.padded_rows * shape.padded_cols,
                data@.len() == rows * cols,
                rows * cols <= usize::MAX,
                is_default(d),
                forall|pr: int, pc: int|
                    0 <= pr < shape.padded_rows && 0 <= pc < shape.padded_cols && !(pr < rows && pc < cols)
                        ==> #[trigger] buf@[layout.offset(pr, pc)] == d,
                forall|a: int, b: int|
                    0 <= a < i && 0 <= b < cols ==> #[trigger] buf@[layout.offset(a, b)]
                        == data@[a * cols + b],
            decreases rows - i,
        {
            let mut j: usize = 0;
            while j < cols
                invariant
                    i < rows,
                    j <= cols,
                    shape_fits(rows as int, cols as int, geom),
                    shape == spec_shape(rows as int, cols as int, geom),
                    layout.describes(shape, geom),
                    buf@.len() == shape.padded_rows * shape.padded_cols,
                    data@.len() == rows * cols,
                    rows * cols <= usize::MAX,
                    is_default(d),
                    forall|pr: int, pc: int|
                        0 <= pr < shape.padded_rows && 0 <= pc < shape.padded_cols && !(pr < rows && pc < cols)
                            ==> #[trigger] buf@[layout.offset(pr, pc)] == d,
                    forall|a: int, b: int|
                        (0 <= a < i && 0 <= b < cols) || (a == i && 0 <= b < j)
                            ==> #[trigger] buf@[layout.offset(a, b)] == data@[a * cols + b],
                decreases cols - j,
            {
                proof {
                    lemma_coords_of(layout, shape, geom, i as int, j as int);
                    assert(i * cols + j < rows * cols) by (nonlinear_arith)
                        requires
                            i < rows,
                            j < cols,
                    ;
                }
                let o = layout.offset_of(i, j);
                let v = data[i * cols + j];
                let ghost prev = buf@;
                buf.set(o, v);
                proof {
                    assert forall|a: int, b: int|
                        (0 <= a < i && 0 <= b < cols) || (a == i && 0 <= b < j + 1)
                            implies #[trigger] buf@[layout.offset(a, b)] == data@[a * cols + b] by {
                        lemma_coords_of(layout, shape, geom, a, b);
                        if a != i || b != j {
                            assert(prev[layout.offset(a, b)] == data@[a * cols + b]);
                        }
                    }
                    assert forall|pr: int, pc: int|
                        0 <= pr < shape.padded_rows && 0 <= pc < shape.padded_cols && !(pr < rows && pc < cols)
                            implies #[trigger] buf@[layout.offset(pr, pc)] == d by {
                        lemma_padded_apart(layout, shape, geom, pr, pc, pr, pc);
                        lemma_padded_apart(layout, shape, geom, pr, pc, i as int, j as int);
                    }
                }
                j = j + 1;
            }
            i = i + 1;
        }
        let l = PaddedTileLattice { geom, shape, layout, mask, data: buf };
        proof {
            assert forall|a: int, b: int| 0 <= a < rows && 0 <= b < cols implies #[trigger] l@[a][b]
                == data@[a * cols + b] by {
                assert(l@[a][b] == buf@[layout.offset(a, b)]);
            }
            assert forall|a: int| 0 <= a < rows implies #[trigger] l@[a] =~= unflatten(
                data@,
                rows as nat,
                cols as nat,
            )[a] by {
                assert forall|b: int| 0 <= b < cols implies #[trigger] l@[a][b] == data@[a * cols + b] by {
                    assert(l@[a][b] == buf@[layout.offset(a, b)]);
                }
            }
            assert(l@ =~= unflatten(data@, rows as nat, cols as nat));
            assert(l.padding_is(d));
        }
        Ok(l)
    }

    /// The logical elements as a dense row-major buffer, padding dropped.
    pub fn to_dense(&self) -> (v: Vec<T>)
        requires
            self.wf(),
        ensures
            v@.len() == self.spec_rows() * self.spec_cols(),
            forall|i: int, j: int|
                0 <= i < self.spec_rows() && 0 <= j < self.spec_cols() ==> v@[i * self.spec_cols() + j]
                    == #[trigger] self@[i][j],
            v@ == flatten(self@, self.spec_rows() as nat, self.spec_cols() as nat),
    {
        proof {
            lemma_shape_fits(self.shape.rows as int, self.shape.cols as int, self.geom);
        }
        let rows = self.shape.rows;
        let cols = self.shape.cols;
        let mut out: Vec<T> = Vec::new();
        let mut i: usize = 0;
        while i < rows
            invariant
                i <= rows,
                rows == self.spec_rows(),
                cols == self.spec_cols(),
                self.wf(),
                rows * cols <= usize::MAX,
                out@.len() == i * cols,
                forall|a: int, b: int|
                    0 <= a < i && 0 <= b < cols ==> out@[a * cols + b] == #[trigger] self@[a][b],
            decreases rows - i,
        {
            let mut j: usize = 0;
            while j < cols
                invariant
                    i < rows,
                    j <= cols,
                    rows == self.spec_rows(),
                    cols == self.spec_cols(),
                    self.wf(),
                    rows * cols <= usize::MAX,
                    out@.len() == i * cols + j,
                    forall|a: int, b: int|
                        (0 <= a < i && 0 <= b < cols) || (a == i && 0 <= b < j) ==> out@[a * cols + b]
                            == #[trigger] self@[a][b],
                decreases cols - j,
            {
                let v = *self.get(i, j).unwrap();
                proof {
                    assert(i * cols + j < rows * cols) by (nonlinear_arith)
                        requires
                            i < rows,
                            j < cols,
                    ;
                }
                out.push(v);
                proof {
                    assert forall|a: int, b: int|
                        (0 <= a < i && 0 <= b < cols) || (a == i && 0 <= b < j + 1)
                            implies out@[a * cols + b] == #[trigger] self@[a][b] by {
                        if a < i {
                            assert(a * cols + b < i * cols) by (nonlinear_arith)
                                requires
                                    a < i,
                                    b < cols,
                            ;
                        }
                    }
                }
                j = j + 1;
            }
            proof {
                assert((i + 1) * cols == i * cols + cols) by (nonlinear_arith);
            }
            i = i + 1;
        }
        proof {
            assert forall|k: int| 0 <= k < rows * cols implies #[trigger] out@[k] == flatten(
                self@,
                rows as nat,
                cols as nat,
            )[k] by {
                lemma_row_major(rows as int, cols as int, k);
                assert(out@[(k / cols as int) * cols + k % (cols as int)] == self@[k / (cols as int)][k % (cols as int)]);
            }
            assert(out@ =~= flatten(self@, rows as nat, cols as nat));
        }
        out
    }

    /// Borrow the contiguous storage slice of one tile by tile coordinate.
    pub fn tile_slice(&self, tile_row: usize, tile_col: usize) -> (s: &[T])
        requires
            self.wf(),
            tile_row < self.spec_layout().tr(),
            tile_col < self.spec_layout().tpr(),
        ensures
            s@ == self.storage().subrange(
                (tile_row * self.spec_layout().tpr() + tile_col) * (self.spec_geometry().sublanes
                    * self.spec_geometry().lanes),
                (tile_row * self.spec_layout().tpr() + tile_col + 1) * (self.spec_geometry().sublanes
                    * self.spec_geometry().lanes),
            ),
    {
        proof {
            lemma_shape_fits(self.shape.rows as int, self.shape.cols as int, self.geom);
            let sl = self.layout.sl();
            let ln = self.layout.ln();
            let tr = self.layout.tr();
            let tpr = self.layout.tpr();
            assert(tr * tpr * (sl * ln) == (tr * sl) * (tpr * ln)) by (nonlinear_arith);
            assert((tile_row * tpr + tile_col + 1) * (sl * ln) == (tile_row * tpr + tile_col) * (
            sl * ln) + sl * ln) by (nonlinear_arith);
        }
        let base = self.layout.tile_base(tile_row, tile_col);
        let len = self.geom.tile_len();
        &self.data.as_slice()[base..base + len]
    }
}

impl<T: Copy + Default> PaddedTileLattice<T> {
    /// A `rows x cols` lattice of `T::default()`, every element the same value.
    pub fn zeroed(rows: usize, cols: usize, geom: Geometry) -> (r: Result<Self, LatticeError>)
        requires
            geom.wf() ==> shape_fits(rows as int, cols as int, geom),
        ensures
            geom.wf() ==> (r matches Ok(l) && l.wf() && l.spec_rows() == rows && l.spec_cols() == cols
                && l.spec_geometry() == geom && exists|d: T| is_default(d) && l@ == const_matrix(rows as nat, cols as nat, d)
                && l.storage() == Seq::new(l.storage().len(), |_o: int| d) && l.padding_is(d)),
            !geom.wf() ==> r == Err::<Self, LatticeError>(LatticeError::ZeroTileDimension),
    {
        let d = T::default();
        let r = PaddedTileLattice::filled(rows, cols, d, geom);
        proof {
            if let Ok(l) = &r {
                assert(is_default(d) && l@ == const_matrix(rows as nat, cols as nat, d)
                    && l.storage() == Seq::new(l.storage().len(), |_o: int| d) && l.padding_is(d));
            }
        }
        r
    }
}

} // verus!
