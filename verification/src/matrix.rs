//! Integer matrices stored in `nalgebra::DMatrix<i64>`.
//!
//! The matrix is opaque to the verifier; its contents are named by
//! `int_matrix_cells` (row by row) and its column count by
//! `int_matrix_ncols`, and every operation the library performs on it goes
//! through one of the small trusted methods below.

use vstd::prelude::*;

verus! {

/// A dense integer matrix backed by `nalgebra::DMatrix<i64>`.
#[verifier::external_body]
pub struct IntMatrix {
    m: nalgebra::DMatrix<i64>,
}

/// The entries of a matrix, row by row.
pub uninterp spec fn int_matrix_cells(m: IntMatrix) -> Seq<Seq<i64>>;

/// The number of columns of a matrix (the width it was made with).
pub uninterp spec fn int_matrix_ncols(m: IntMatrix) -> nat;

/// Every row of `cells` has exactly `ncols` entries.
pub open spec fn is_rectangular(cells: Seq<Seq<i64>>, ncols: nat) -> bool {
    forall|i: int| 0 <= i < cells.len() ==> (#[trigger] cells[i]).len() == ncols
}

/// An `nrows` by `ncols` matrix of `i64` can be allocated: its size in bytes
/// fits in an `isize`.
pub open spec fn fits_in_memory(nrows: int, ncols: int) -> bool {
    nrows * ncols * 8 <= isize::MAX
}

/// `cells` is an `nrows` by `ncols` table whose entry `(i, j)` is `f(i, j)`.
pub open spec fn is_table(cells: Seq<Seq<i64>>, nrows: nat, ncols: nat, f: spec_fn(int, int) -> i64) -> bool {
    &&& cells.len() == nrows
    &&& is_rectangular(cells, ncols)
    &&& forall|i: int, j: int| 0 <= i < nrows && 0 <= j < ncols ==> #[trigger] cells[i][j] == f(i, j)
}

impl View for IntMatrix {
    type V = Seq<Seq<i64>>;

    open spec fn view(&self) -> Seq<Seq<i64>> {
        int_matrix_cells(*self)
    }
}

impl IntMatrix {
    /// The number of rows.
    pub open spec fn spec_nrows(&self) -> nat {
        self@.len()
    }

    /// The number of columns.
    pub open spec fn spec_ncols(&self) -> nat {
        int_matrix_ncols(*self)
    }

    /// Entry `(i, j)`.
    pub open spec fn at(&self, i: int, j: int) -> i64 {
        self@[i][j]
    }

    /// The matrix has the shape `nrows` by `ncols`.
    pub open spec fn has_shape(&self, nrows: nat, ncols: nat) -> bool {
        &&& self.spec_nrows() == nrows
        &&& self.spec_ncols() == ncols
        &&& is_rectangular(self@, ncols)
    }

    /// `nalgebra::DMatrix::zeros`: a matrix of the given shape whose entries are all
    /// zero. Its storage is a `Vec` of `nrows * ncols` entries, whose allocation
    /// panics beyond `isize::MAX` bytes; `requires` leaves that out.
    #[verifier::external_body]
    pub fn zeros(nrows: usize, ncols: usize) -> (res: IntMatrix)
        requires
            fits_in_memory(nrows as int, ncols as int),
        ensures
            int_matrix_ncols(res) == ncols,
            is_table(int_matrix_cells(res), nrows as nat, ncols as nat, |i: int, j: int| 0i64),
    {
        IntMatrix { m: nalgebra::DMatrix::<i64>::zeros(nrows, ncols) }
    }

    /// Indexing `m[(i, j)]`: entry `(i, j)`; nalgebra panics outside the shape, which
    /// `requires` leaves out.
    #[verifier::external_body]
    pub fn get(&self, i: usize, j: usize) -> (v: i64)
        requires
            i < self.spec_nrows(),
            j < self.spec_ncols(),
            is_rectangular(self@, self.spec_ncols()),
        ensures
            v == int_matrix_cells(*self)[i as int][j as int],
    {
        self.m[(i, j)]
    }

    /// Mutable indexing `m[(i, j)] = v`: entry `(i, j)` becomes `v`, the rest and the
    /// shape stay.
    #[verifier::external_body]
    pub fn set(&mut self, i: usize, j: usize, v: i64)
        requires
            i < old(self).spec_nrows(),
            j < old(self).spec_ncols(),
            is_rectangular(old(self)@, old(self).spec_ncols()),
        ensures
            int_matrix_ncols(*final(self)) == int_matrix_ncols(*old(self)),
            int_matrix_cells(*final(self)) == int_matrix_cells(*old(self)).update(
                i as int,
                int_matrix_cells(*old(self))[i as int].update(j as int, v),
            ),
    {
        self.m[(i, j)] = v;
    }

    /// `&a - &b` on two matrices of one shape: the entrywise difference. nalgebra
    /// panics on a shape mismatch and `i64` subtraction on overflow; `requires`
    /// leaves both out.
    #[verifier::external_body]
    pub fn sub(&self, other: &IntMatrix) -> (res: IntMatrix)
        requires
            self.has_shape(other.spec_nrows(), other.spec_ncols()),
            is_rectangular(other@, other.spec_ncols()),
            forall|i: int, j: int|
                #![trigger self.at(i, j), other.at(i, j)]
                0 <= i < self.spec_nrows() && 0 <= j < self.spec_ncols() ==> i64::MIN <= self.at(i, j)
                    - other.at(i, j) <= i64::MAX,
        ensures
            int_matrix_ncols(res) == int_matrix_ncols(*self),
            int_matrix_cells(res).len() == int_matrix_cells(*self).len(),
            is_rectangular(int_matrix_cells(res), int_matrix_ncols(res)),
            forall|i: int, j: int|
                0 <= i < int_matrix_cells(*self).len() && 0 <= j < int_matrix_ncols(*self)
                    ==> #[trigger] int_matrix_cells(res)[i][j] == int_matrix_cells(*self)[i][j]
                    - int_matrix_cells(*other)[i][j],
    {
        IntMatrix { m: &self.m - &other.m }
    }
}

} // verus!
