//! Dense integer matrices: creation, element access, sum and product.
use vstd::prelude::*;

use crate::codec::{in_i32, ParseError};

verus! {

/// Why a matrix operation or a matrix text was refused.
#[derive(Debug, Clone, Copy, PartialEq, Eq, Structural)]
pub enum MatrixError {
    /// The shapes of the two operands do not fit the operation.
    DimensionMismatch,
    /// A row or column index lies outside the matrix.
    IndexOutOfBounds,
    /// A result cell lies outside the range of `i32`.
    Overflow,
    /// The header line does not hold exactly two non-negative integers.
    InvalidDimensions,
    /// A row holds another number of cells than the header says.
    RowLengthMismatch,
    /// The text ends before all the rows that the header announces.
    InsufficientRows,
    /// A cell is no valid base-3 literal.
    InvalidEntry(ParseError),
}

/// A `rows` × `cols` grid of `i32`, stored row by row.
#[derive(Debug, Clone, PartialEq, Eq)]
pub struct TMatrix {
    rows: usize,
    cols: usize,
    data: Vec<Vec<i32>>,
}

/// Whether `c` has `rows` rows of `cols` cells each.
pub open spec fn is_grid(c: Seq<Seq<int>>, rows: nat, cols: nat) -> bool {
    c.len() == rows && forall|i: int| 0 <= i < rows ==> (#[trigger] c[i]).len() == cols
}

/// Whether every cell of `c` is a value of `i32`.
pub open spec fn fits(c: Seq<Seq<int>>) -> bool {
    forall|i: int, j: int| 0 <= i < c.len() && 0 <= j < c[i].len() ==> in_i32(#[trigger] c[i][j])
}

/// The `rows` × `cols` grid of zeros.
pub open spec fn zeros(rows: nat, cols: nat) -> Seq<Seq<int>> {
    Seq::new(rows, |i: int| Seq::new(cols, |j: int| 0int))
}

/// The cell-wise sum of two grids of the same shape as `a`.
pub open spec fn add_cells(a: Seq<Seq<int>>, b: Seq<Seq<int>>) -> Seq<Seq<int>> {
    Seq::new(a.len(), |i: int| Seq::new(a[i].len(), |j: int| a[i][j] + b[i][j]))
}

/// `f(0) + f(1) + ... + f(n - 1)`.
pub open spec fn sum_to(f: spec_fn(int) -> int, n: nat) -> int
    decreases n,
{
    if n == 0 {
        0
    } else {
        sum_to(f, (n - 1) as nat) + f(n - 1)
    }
}

/// `a[i][0] * b[0][j] + ... + a[i][n - 1] * b[n - 1][j]`.
pub open spec fn dot(a: Seq<Seq<int>>, b: Seq<Seq<int>>, i: int, j: int, n: nat) -> int {
    sum_to(|k: int| a[i][k] * b[k][j], n)
}

/// The product of `a` (with `inner` columns) and `b` (with `cols` columns).
pub open spec fn mul_cells(a: Seq<Seq<int>>, b: Seq<Seq<int>>, inner: nat, cols: nat) -> Seq<
    Seq<int>,
> {
    Seq::new(a.len(), |i: int| Seq::new(cols, |j: int| dot(a, b, i, j, inner)))
}

/// The cells of a row, as integers.
pub open spec fn row_cells(r: Vec<i32>) -> Seq<int> {
    r@.map_values(|x: i32| x as int)
}

impl TMatrix {
    /// The number of rows.
    pub closed spec fn n_rows(&self) -> nat {
        self.rows as nat
    }

    /// The number of columns.
    pub closed spec fn n_cols(&self) -> nat {
        self.cols as nat
    }

    /// The cells, row by row.
    pub closed spec fn cells(&self) -> Seq<Seq<int>> {
        self.data@.map_values(|r: Vec<i32>| row_cells(r))
    }

    /// The grid has exactly `n_rows` rows of `n_cols` cells.
    pub closed spec fn wf(&self) -> bool {
        &&& self.data@.len() == self.rows
        &&& forall|i: int| 0 <= i < self.rows ==> (#[trigger] self.data@[i])@.len() == self.cols
    }

    /// Facts that hold of every well-formed matrix.
    pub proof fn lemma_wf(&self)
        requires
            self.wf(),
        ensures
            is_grid(self.cells(), self.n_rows(), self.n_cols()),
            fits(self.cells()),
            self.n_rows() <= usize::MAX,
            self.n_cols() <= usize::MAX,
    {
        assert forall|i: int| 0 <= i < self.n_rows() implies (#[trigger] self.cells()[i]).len()
            == self.n_cols() by {
            assert(self.cells()[i] == row_cells(self.data@[i]));
        }
        assert forall|i: int, j: int|
            0 <= i < self.cells().len() && 0 <= j < self.cells()[i].len() implies in_i32(
            #[trigger] self.cells()[i][j],
        ) by {
            assert(self.cells()[i] == row_cells(self.data@[i]));
        }
    }

    /// Builds a matrix of the given shape from rows that have that shape.
    pub(crate) fn from_rows(rows: usize, cols: usize, data: Vec<Vec<i32>>) -> (m: TMatrix)
        requires
            data@.len() == rows,
            forall|i: int| 0 <= i < rows ==> (#[trigger] data@[i])@.len() == cols,
        ensures
            m.wf(),
            m.n_rows() == rows,
            m.n_cols() == cols,
            m.cells() == data@.map_values(|r: Vec<i32>| row_cells(r)),
    {
        TMatrix { rows, cols, data }
    }

    /// A `rows` × `cols` matrix of zeros.
    pub fn new(rows: usize, cols: usize) -> (m: TMatrix)
        ensures
            m.wf(),
            m.n_rows() == rows,
            m.n_cols() == cols,
            m.cells() == zeros(rows as nat, cols as nat),
    {
        let mut data: Vec<Vec<i32>> = Vec::new();
        let mut i: usize = 0;
        while i < rows
            invariant
                i <= rows,
                data@.len() == i,
                forall|k: int| 0 <= k < i ==> row_cells(#[trigger] data@[k]) == Seq::new(
                    cols as nat,
                    |j: int| 0int,
                ),
            decreases rows - i,
        {
            let mut row: Vec<i32> = Vec::new();
            let mut j: usize = 0;
            while j < cols
                invariant
                    j <= cols,
                    row@.len() == j,
                    forall|k: int| 0 <= k < j ==> row@[k] == 0,
                decreases cols - j,
            {
                row.push(0);
                j = j + 1;
            }
            assert(row_cells(row) == Seq::new(cols as nat, |j: int| 0int));
            data.push(row);
            i = i + 1;
        }
        let m = TMatrix { rows, cols, data };
        assert(m.cells() == zeros(rows as nat, cols as nat));
        m
    }

    /// The number of rows.
    pub fn rows(&self) -> (r: usize)
        ensures
            r == self.n_rows(),
    {
        self.rows
    }

    /// The number of columns.
    pub fn cols(&self) -> (r: usize)
        ensures
            r == self.n_cols(),
    {
        self.cols
    }

    /// The cell at row `r`, column `c`.
    pub fn get(&self, r: usize, c: usize) -> (v: i32)
        requires
            self.wf(),
            r < self.n_rows(),
            c < self.n_cols(),
        ensures
            v as int == self.cells()[r as int][c as int],
    {
        self.data[r][c]
    }

    /// Sets the cell at row `r`, column `c`; an index outside the matrix
    /// is refused and leaves it unchanged.
    pub fn set(&mut self, r: usize, c: usize, value: i32) -> (res: Result<(), MatrixError>)
        requires
            old(self).wf(),
        ensures
            final(self).wf(),
            final(self).n_rows() == old(self).n_rows(),
            final(self).n_cols() == old(self).n_cols(),
            r < old(self).n_rows() && c < old(self).n_cols() ==> res is Ok && final(self).cells()
                == old(self).cells().update(
                r as int,
                old(self).cells()[r as int].update(c as int, value as int),
            ),
            !(r < old(self).n_rows() && c < old(self).n_cols()) ==> res == Err::<(), MatrixError>(
                MatrixError::IndexOutOfBounds,
            ) && *final(self) == *old(self),
    {
        if r >= self.rows || c >= self.cols {
            return Err(MatrixError::IndexOutOfBounds);
        }
        let ghost before = self.cells();
        let ghost old_data = self.data@;
        self.data[r][c] = value;
        assert(self.data@ =~= old_data.update(r as int, self.data@[r as int]));
        assert(self.data@[r as int]@ =~= old_data[r as int]@.update(c as int, value));
        assert(row_cells(self.data@[r as int]) =~= before[r as int].update(c as int, value as int));
        assert(self.cells() =~= before.update(
            r as int,
            before[r as int].update(c as int, value as int),
        ));
        Ok(())
    }

    /// The cell-wise sum of `self` and `other`, which must have the same
    /// shape; a sum outside `i32` is an overflow.
    pub fn add(&self, other: &TMatrix) -> (res: Result<TMatrix, MatrixError>)
        requires
            self.wf(),
            other.wf(),
        ensures
            match res {
                Ok(m) => {
                    &&& self.n_rows() == other.n_rows() && self.n_cols() == other.n_cols()
                    &&& fits(add_cells(self.cells(), other.cells()))
                    &&& m.wf()
                    &&& m.n_rows() == self.n_rows() && m.n_cols() == self.n_cols()
                    &&& m.cells() == add_cells(self.cells(), other.cells())
                },
                Err(e) => {
                    ||| e == MatrixError::DimensionMismatch && !(self.n_rows() == other.n_rows()
                        && self.n_cols() == other.n_cols())
                    ||| e == MatrixError::Overflow && self.n_rows() == other.n_rows()
                        && self.n_cols() == other.n_cols() && !fits(
                        add_cells(self.cells(), other.cells()),
                    )
                },
            },
    {
        if self.rows != other.rows || self.cols != other.cols {
            return Err(MatrixError::DimensionMismatch);
        }
        let ghost sum = add_cells(self.cells(), other.cells());
        proof {
            self.lemma_wf();
            other.lemma_wf();
        }
        let mut data: Vec<Vec<i32>> = Vec::new();
        let mut i: usize = 0;
        while i < self.rows
            invariant
                self.wf(),
                other.wf(),
                self.rows == other.rows,
                self.cols == other.cols,
                is_grid(self.cells(), self.n_rows(), self.n_cols()),
                is_grid(other.cells(), self.n_rows(), self.n_cols()),
                sum == add_cells(self.cells(), other.cells()),
                i <= self.rows,
                data@.len() == i,
                forall|k: int| 0 <= k < i ==> row_cells(#[trigger] data@[k]) == sum[k],
            decreases self.rows - i,
        {
            let mut row: Vec<i32> = Vec::new();
            let mut j: usize = 0;
            while j < self.cols
                invariant
                    self.wf(),
                    other.wf(),
                    self.rows == other.rows,
                    self.cols == other.cols,
                    is_grid(self.cells(), self.n_rows(), self.n_cols()),
                    sum == add_cells(self.cells(), other.cells()),
                    i < self.rows,
                    j <= self.cols,
                    row@.len() == j,
                    forall|k: int| 0 <= k < j ==> row@[k] as int == #[trigger] sum[i as int][k],
                decreases self.cols - j,
            {
                assert(self.cells()[i as int] == row_cells(self.data@[i as int]));
                assert(other.cells()[i as int] == row_cells(other.data@[i as int]));
                let v: i64 = self.data[i][j] as i64 + other.data[i][j] as i64;
                if v < -0x8000_0000 || v > 0x7fff_ffff {
                    assert(!in_i32(sum[i as int][j as int]));
                    return Err(MatrixError::Overflow);
                }
                row.push(v as i32);
                j = j + 1;
            }
            assert(row_cells(row) =~= sum[i as int]);
            data.push(row);
            i = i + 1;
        }
        let m = TMatrix::from_rows(self.rows, self.cols, data);
        assert(m.cells() =~= sum);
        proof {
            m.lemma_wf();
        }
        Ok(m)
    }

    /// The product of `self` and `other`: `self` must have as many columns
    /// as `other` has rows; a cell outside `i32` is an overflow. The sums are
    /// formed exactly, so only the final cells are held to that range.
    pub fn multiply(&self, other: &TMatrix) -> (res: Result<TMatrix, MatrixError>)
        requires
            self.wf(),
            other.wf(),
        ensures
            match res {
                Ok(m) => {
                    &&& self.n_cols() == other.n_rows()
                    &&& fits(mul_cells(self.cells(), other.cells(), self.n_cols(), other.n_cols()))
                    &&& m.wf()
                    &&& m.n_rows() == self.n_rows() && m.n_cols() == other.n_cols()
                    &&& m.cells() == mul_cells(
                        self.cells(),
                        other.cells(),
                        self.n_cols(),
                        other.n_cols(),
                    )
                },
                Err(e) => {
                    ||| e == MatrixError::DimensionMismatch && self.n_cols() != other.n_rows()
                    ||| e == MatrixError::Overflow && self.n_cols() == other.n_rows() && !fits(
                        mul_cells(self.cells(), other.cells(), self.n_cols(), other.n_cols()),
                    )
                },
            },
    {
        if self.cols != other.rows {
            return Err(MatrixError::DimensionMismatch);
        }
        let ghost a = self.cells();
        let ghost b = other.cells();
        let ghost prod = mul_cells(a, b, self.n_cols(), other.n_cols());
        proof {
            self.lemma_wf();
            other.lemma_wf();
        }
        let mut data: Vec<Vec<i32>> = Vec::new();
        let mut i: usize = 0;
        while i < self.rows
            invariant
                self.wf(),
                other.wf(),
                self.cols == other.rows,
                a == self.cells(),
                b == other.cells(),
                is_grid(a, self.n_rows(), self.n_cols()),
                is_grid(b, other.n_rows(), other.n_cols()),
                fits(a),
                fits(b),
                prod == mul_cells(a, b, self.n_cols(), other.n_cols()),
                i <= self.rows,
                data@.len() == i,
                forall|k: int| 0 <= k < i ==> row_cells(#[trigger] data@[k]) == prod[k],
            decreases self.rows - i,
        {
            let mut row: Vec<i32> = Vec::new();
            let mut j: usize = 0;
            while j < other.cols
                invariant
                    self.wf(),
                    other.wf(),
                    self.cols == other.rows,
                    a == self.cells(),
                    b == other.cells(),
                    is_grid(a, self.n_rows(), self.n_cols()),
                    is_grid(b, other.n_rows(), other.n_cols()),
                    fits(a),
                    fits(b),
                    prod == mul_cells(a, b, self.n_cols(), other.n_cols()),
                    i < self.rows,
                    j <= other.cols,
                    row@.len() == j,
                    forall|k: int| 0 <= k < j ==> row@[k] as int == #[trigger] prod[i as int][k],
                decreases other.cols - j,
            {
                let mut acc: i128 = 0;
                let mut k: usize = 0;
                while k < self.cols
                    invariant
                        self.wf(),
                        other.wf(),
                        self.cols == other.rows,
                        a == self.cells(),
                        b == other.cells(),
                        is_grid(a, self.n_rows(), self.n_cols()),
                        is_grid(b, other.n_rows(), other.n_cols()),
                        fits(a),
                        fits(b),
                        i < self.rows,
                        j < other.cols,
                        k <= self.cols,
                        acc as int == dot(a, b, i as int, j as int, k as nat),
                        -(k as int) * 0x4000_0000_0000_0000 <= acc <= (k as int)
                            * 0x4000_0000_0000_0000,
                    decreases self.cols - k,
                {
                    assert(a[i as int] == row_cells(self.data@[i as int]));
                    assert(b[k as int] == row_cells(other.data@[k as int]));
                    let x = self.data[i][k];
                    let y = other.data[k][j];
                    proof {
                        let (xi, yi) = (x as int, y as int);
                        assert(-0x4000_0000_0000_0000 <= xi * yi <= 0x4000_0000_0000_0000)
                            by (nonlinear_arith)
                            requires
                                -0x8000_0000 <= xi <= 0x7fff_ffff,
                                -0x8000_0000 <= yi <= 0x7fff_ffff,
                        ;
                    }
                    acc = acc + (x as i128) * (y as i128);
                    k = k + 1;
                }
                assert(prod[i as int][j as int] == acc);
                if acc < -0x8000_0000 || acc > 0x7fff_ffff {
                    assert(!in_i32(prod[i as int][j as int]));
                    return Err(MatrixError::Overflow);
                }
                row.push(acc as i32);
                j = j + 1;
            }
            assert(row_cells(row) =~= prod[i as int]);
            data.push(row);
            i = i + 1;
        }
        let m = TMatrix::from_rows(self.rows, other.cols, data);
        assert(m.cells() =~= prod);
        proof {
            m.lemma_wf();
        }
        Ok(m)
    }
}

proof fn lemma_sum_ext(f: spec_fn(int) -> int, g: spec_fn(int) -> int, n: nat)
    requires
        forall|x: int| 0 <= x < n ==> #[trigger] f(x) == g(x),
    ensures
        sum_to(f, n) == sum_to(g, n),
    decreases n,
{
    if n > 0 {
        lemma_sum_ext(f, g, (n - 1) as nat);
    }
}

proof fn lemma_sum_add(f: spec_fn(int) -> int, g: spec_fn(int) -> int, n: nat)
    ensures
        sum_to(f, n) + sum_to(g, n) == sum_to(|x: int| f(x) + g(x), n),
    decreases n,
{
    if n > 0 {
        lemma_sum_add(f, g, (n - 1) as nat);
    }
}

proof fn lemma_sum_scale_right(f: spec_fn(int) -> int, c: int, n: nat)
    ensures
        sum_to(f, n) * c == sum_to(|x: int| f(x) * c, n),
    decreases n,
{
    if n > 0 {
        let m = (n - 1) as nat;
        lemma_sum_scale_right(f, c, m);
        assert((sum_to(f, m) + f(m as int)) * c == sum_to(f, m) * c + f(m as int) * c)
            by (nonlinear_arith);
    }
}

proof fn lemma_sum_scale_left(c: int, f: spec_fn(int) -> int, n: nat)
    ensures
        c * sum_to(f, n) == sum_to(|x: int| c * f(x), n),
    decreases n,
{
    if n > 0 {
        let m = (n - 1) as nat;
        lemma_sum_scale_left(c, f, m);
        assert(c * (sum_to(f, m) + f(m as int)) == c * sum_to(f, m) + c * f(m as int))
            by (nonlinear_arith);
    }
}

proof fn lemma_sum_swap(g: spec_fn(int, int) -> int, p: nat, n: nat)
    ensures
        sum_to(|k: int| sum_to(|l: int| g(l, k), n), p) == sum_to(
            |l: int| sum_to(|k: int| g(l, k), p),
            n,
        ),
    decreases p,
{
    if p == 0 {
        lemma_sum_ext(|l: int| sum_to(|k: int| g(l, k), 0), |l: int| 0int, n);
        lemma_sum_zero(n);
    } else {
        let m = (p - 1) as nat;
        lemma_sum_swap(g, m, n);
        let before = |l: int| sum_to(|k: int| g(l, k), m);
        let last = |l: int| g(l, m as int);
        lemma_sum_add(before, last, n);
        lemma_sum_ext(
            |x: int| before(x) + last(x),
            |l: int| sum_to(|k: int| g(l, k), p),
            n,
        );
    }
}

proof fn lemma_sum_zero(n: nat)
    ensures
        sum_to(|l: int| 0int, n) == 0,
    decreases n,
{
    if n > 0 {
        lemma_sum_zero((n - 1) as nat);
    }
}

/// Matrix addition is commutative.
pub proof fn lemma_add_commutative(a: TMatrix, b: TMatrix)
    requires
        a.wf(),
        b.wf(),
        a.n_rows() == b.n_rows(),
        a.n_cols() == b.n_cols(),
    ensures
        add_cells(a.cells(), b.cells()) == add_cells(b.cells(), a.cells()),
{
    a.lemma_wf();
    b.lemma_wf();
    let lhs = add_cells(a.cells(), b.cells());
    let rhs = add_cells(b.cells(), a.cells());
    assert forall|i: int| 0 <= i < lhs.len() implies #[trigger] lhs[i] == rhs[i] by {
        assert(lhs[i] =~= rhs[i]);
    }
    assert(lhs =~= rhs);
}

/// Matrix addition is associative.
pub proof fn lemma_add_associative(a: TMatrix, b: TMatrix, c: TMatrix)
    requires
        a.wf(),
        b.wf(),
        c.wf(),
        a.n_rows() == b.n_rows() && b.n_rows() == c.n_rows(),
        a.n_cols() == b.n_cols() && b.n_cols() == c.n_cols(),
    ensures
        add_cells(add_cells(a.cells(), b.cells()), c.cells()) == add_cells(
            a.cells(),
            add_cells(b.cells(), c.cells()),
        ),
{
    a.lemma_wf();
    b.lemma_wf();
    c.lemma_wf();
    let (x, y, z) = (a.cells(), b.cells(), c.cells());
    let lhs = add_cells(add_cells(x, y), z);
    let rhs = add_cells(x, add_cells(y, z));
    assert forall|i: int| 0 <= i < lhs.len() implies #[trigger] lhs[i] == rhs[i] by {
        assert(lhs[i] =~= rhs[i]);
    }
    assert(lhs =~= rhs);
}

/// Matrix multiplication is associative.
pub proof fn lemma_multiply_associative(a: TMatrix, b: TMatrix, c: TMatrix)
    requires
        a.wf(),
        b.wf(),
        c.wf(),
        a.n_cols() == b.n_rows(),
        b.n_cols() == c.n_rows(),
    ensures
        mul_cells(mul_cells(a.cells(), b.cells(), a.n_cols(), b.n_cols()), c.cells(), b.n_cols(), c.n_cols())
            == mul_cells(a.cells(), mul_cells(b.cells(), c.cells(), b.n_cols(), c.n_cols()), a.n_cols(), c.n_cols()),
{
    a.lemma_wf();
    b.lemma_wf();
    c.lemma_wf();
    let (x, y, z) = (a.cells(), b.cells(), c.cells());
    let (n, p, q) = (a.n_cols(), b.n_cols(), c.n_cols());
    let xy = mul_cells(x, y, n, p);
    let yz = mul_cells(y, z, p, q);
    let lhs = mul_cells(xy, z, p, q);
    let rhs = mul_cells(x, yz, n, q);
    assert forall|i: int| 0 <= i < lhs.len() implies #[trigger] lhs[i] == rhs[i] by {
        assert forall|j: int| 0 <= j < q implies #[trigger] lhs[i][j] == rhs[i][j] by {
            let g = |l: int, k: int| x[i][l] * y[l][k] * z[k][j];
            // left side: push the factor z[k][j] into each inner sum
            assert forall|k: int| 0 <= k < p implies #[trigger] (xy[i][k] * z[k][j]) == sum_to(
                |l: int| g(l, k),
                n,
            ) by {
                lemma_sum_scale_right(|l: int| x[i][l] * y[l][k], z[k][j], n);
                lemma_sum_ext(
                    |l: int| (|l: int| x[i][l] * y[l][k])(l) * z[k][j],
                    |l: int| g(l, k),
                    n,
                );
            }
            lemma_sum_ext(
                |k: int| xy[i][k] * z[k][j],
                |k: int| sum_to(|l: int| g(l, k), n),
                p,
            );
            // right side: push the factor x[i][l] into each inner sum
            assert forall|l: int| 0 <= l < n implies #[trigger] (x[i][l] * yz[l][j]) == sum_to(
                |k: int| g(l, k),
                p,
            ) by {
                lemma_sum_scale_left(x[i][l], |k: int| y[l][k] * z[k][j], p);
                assert forall|k: int| 0 <= k < p implies x[i][l] * (y[l][k] * z[k][j]) == g(
                    l,
                    k,
                ) by {
                    assert(x[i][l] * (y[l][k] * z[k][j]) == x[i][l] * y[l][k] * z[k][j])
                        by (nonlinear_arith);
                }
                lemma_sum_ext(
                    |k: int| x[i][l] * (|k: int| y[l][k] * z[k][j])(k),
                    |k: int| g(l, k),
                    p,
                );
            }
            lemma_sum_ext(
                |l: int| x[i][l] * yz[l][j],
                |l: int| sum_to(|k: int| g(l, k), p),
                n,
            );
            lemma_sum_swap(g, p, n);
        }
        assert(lhs[i] =~= rhs[i]);
    }
    assert(lhs =~= rhs);
}

} // verus!
