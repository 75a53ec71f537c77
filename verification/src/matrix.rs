//! A dense matrix in one owned buffer, and windows into it.
//!
//! A window is a plain record of offsets and extents. It borrows nothing:
//! every operation through it names the matrix it acts on, so two windows
//! over one matrix can be alive at once, and only one of them writes at a
//! time.
use vstd::prelude::*;
use crate::grid::{
    augmented,
    lemma_row_adds_to_one,
    lemma_row_scales_to_one,
    rectangular,
    row_added,
    row_adds_to,
    row_scaled,
    row_scales_to,
    window,
    yields_axpy,
};
use crate::scalar::{deterministic, yields_product, yields_zero, zero_value, Scalar};

verus! {

/// The entry in row `i` and column `j` of a buffer that holds `rows` rows
/// column by column.
spec fn entry<T>(data: Seq<T>, rows: int, i: int, j: int) -> T {
    data[j * rows + i]
}

/// The buffer index of an entry lies inside the buffer.
proof fn lemma_index_in_buffer(rows: int, cols: int, i: int, j: int)
    requires
        0 <= i < rows,
        0 <= j < cols,
    ensures
        0 <= j * rows,
        j * rows + i < (j + 1) * rows <= rows * cols == cols * rows,
{
    assert((j + 1) * rows == j * rows + rows) by (nonlinear_arith);
    assert((j + 1) * rows <= cols * rows) by (nonlinear_arith)
        requires
            j + 1 <= cols,
            0 <= rows,
    ;
    assert(cols * rows == rows * cols) by (nonlinear_arith);
    assert(0 <= j * rows) by (nonlinear_arith)
        requires
            0 <= j,
            0 <= rows,
    ;
}

/// Two entries share a buffer index only if they are the same entry.
proof fn lemma_index_injective(rows: int, i1: int, j1: int, i2: int, j2: int)
    requires
        0 <= i1 < rows,
        0 <= i2 < rows,
        0 <= j1,
        0 <= j2,
        j1 * rows + i1 == j2 * rows + i2,
    ensures
        i1 == i2,
        j1 == j2,
{
    if j1 < j2 {
        assert((j1 + 1) * rows <= j2 * rows) by (nonlinear_arith)
            requires
                j1 + 1 <= j2,
                0 <= rows,
        ;
        assert((j1 + 1) * rows == j1 * rows + rows) by (nonlinear_arith);
    } else if j2 < j1 {
        assert((j2 + 1) * rows <= j1 * rows) by (nonlinear_arith)
            requires
                j2 + 1 <= j1,
                0 <= rows,
        ;
        assert((j2 + 1) * rows == j2 * rows + rows) by (nonlinear_arith);
    }
}

/// A dense matrix, stored column by column in a single buffer.
#[derive(Debug, PartialEq)]
pub struct Matrix<T> {
    rows: usize,
    cols: usize,
    data: Vec<T>,
}

impl<T> View for Matrix<T> {
    type V = Seq<Seq<T>>;

    /// The rows of the matrix, top to bottom.
    closed spec fn view(&self) -> Seq<Seq<T>> {
        Seq::new(
            self.rows as nat,
            |i: int| Seq::new(self.cols as nat, |j: int| entry(self.data@, self.rows as int, i, j)),
        )
    }
}

impl<T> Matrix<T> {
    /// The buffer holds exactly the entries of the matrix.
    pub closed spec fn buffer_fits(&self) -> bool {
        &&& self.rows * self.cols == self.data@.len()
        &&& self.data@.len() <= usize::MAX
    }

    /// The matrix is well formed: its buffer fits, and its view has the
    /// shape that `nrows` and `ncols` give.
    pub open spec fn wf(&self) -> bool {
        &&& self.buffer_fits()
        &&& self@.len() == self.nrows()
        &&& rectangular(self@, self.ncols())
    }

    /// The number of rows.
    pub closed spec fn nrows(&self) -> nat {
        self.rows as nat
    }

    /// The number of columns.
    pub closed spec fn ncols(&self) -> nat {
        self.cols as nat
    }

    /// The number of rows.
    pub fn num_rows(&self) -> (n: usize)
        ensures
            n == self.nrows(),
    {
        self.rows
    }

    /// The number of columns.
    pub fn num_cols(&self) -> (n: usize)
        ensures
            n == self.ncols(),
    {
        self.cols
    }

    /// Whether the matrix has as many rows as columns.
    pub fn is_square(&self) -> (square: bool)
        ensures
            square == (self.nrows() == self.ncols()),
    {
        self.rows == self.cols
    }

    /// A window of `rows` by `cols` entries whose top left corner is the
    /// entry in row `start_row` and column `start_col`.
    pub fn sub_view(&self, start_row: usize, start_col: usize, rows: usize, cols: usize) -> (v:
        MatrixView)
        requires
            start_row + rows <= self.nrows(),
            start_col + cols <= self.ncols(),
        ensures
            v == (MatrixView { start_row, start_col, rows, cols }),
            v.within(self),
    {
        MatrixView { start_row, start_col, rows, cols }
    }
}

/// Appends copies of the entries of `from` to `to`.
fn copy_onto<T: Copy>(to: &mut Vec<T>, from: &Vec<T>)
    requires
        old(to)@.len() + from@.len() <= usize::MAX,
    ensures
        final(to)@ == old(to)@ + from@,
{
    let mut n: usize = 0;
    while n < from.len()
        invariant
            n <= from@.len(),
            to@ == old(to)@ + from@.subrange(0, n as int),
        decreases from@.len() - n,
    {
        to.push(from[n]);
        n += 1;
        assert(to@ =~= old(to)@ + from@.subrange(0, n as int));
    }
    assert(from@.subrange(0, n as int) =~= from@);
}

impl<T: Copy> Clone for Matrix<T> {
    /// A copy with a buffer of its own.
    fn clone(&self) -> (copy: Self)
        ensures
            copy@ == self@,
            copy.nrows() == self.nrows(),
            copy.ncols() == self.ncols(),
            self.wf() ==> copy.wf(),
    {
        let mut data: Vec<T> = Vec::new();
        let _len = self.data.len();
        copy_onto(&mut data, &self.data);
        assert(data@ =~= self.data@);
        Matrix { rows: self.rows, cols: self.cols, data }
    }
}

impl<T: Copy> Matrix<T> {
    /// The entry in row `r` and column `c`.
    pub fn get(&self, r: usize, c: usize) -> (value: T)
        requires
            self.wf(),
            r < self.nrows(),
            c < self.ncols(),
        ensures
            value == self@[r as int][c as int],
    {
        proof {
            lemma_index_in_buffer(self.rows as int, self.cols as int, r as int, c as int);
        }
        self.data[c * self.rows + r]
    }

    /// Overwrites the entry in row `r` and column `c`.
    pub fn set(&mut self, r: usize, c: usize, value: T)
        requires
            old(self).wf(),
            r < old(self).nrows(),
            c < old(self).ncols(),
        ensures
            final(self).wf(),
            final(self).nrows() == old(self).nrows(),
            final(self).ncols() == old(self).ncols(),
            final(self)@ == old(self)@.update(
                r as int,
                old(self)@[r as int].update(c as int, value),
            ),
    {
        proof {
            lemma_index_in_buffer(self.rows as int, self.cols as int, r as int, c as int);
        }
        let at = c * self.rows + r;
        self.data.set(at, value);
        proof {
            let rows = self.rows as int;
            let goal = old(self)@.update(r as int, old(self)@[r as int].update(c as int, value));
            assert forall|i: int| 0 <= i < self.rows implies #[trigger] self@[i] =~= goal[i] by {
                assert forall|j: int| 0 <= j < self.cols implies self@[i][j] == goal[i][j] by {
                    lemma_index_in_buffer(rows, self.cols as int, i, j);
                    if j * rows + i == at {
                        lemma_index_injective(rows, i, j, r as int, c as int);
                    }
                }
            }
            assert(self@ =~= goal);
        }
    }

    /// Appends the columns of `other` on the right.
    pub fn append_columns(&mut self, other: &Matrix<T>)
        requires
            old(self).wf(),
            other.wf(),
            old(self).nrows() == other.nrows(),
            old(self).nrows() * (old(self).ncols() + other.ncols()) <= usize::MAX,
            old(self).ncols() + other.ncols() <= usize::MAX,
        ensures
            final(self).wf(),
            final(self).nrows() == old(self).nrows(),
            final(self).ncols() == old(self).ncols() + other.ncols(),
            final(self)@ == augmented(old(self)@, other@),
    {
        let ghost rows = self.rows as int;
        let ghost left = self.cols as int;
        let ghost right = other.cols as int;
        proof {
            assert(rows * (left + right) == rows * left + rows * right) by (nonlinear_arith);
        }
        copy_onto(&mut self.data, &other.data);
        self.cols = self.cols + other.cols;
        proof {
            let goal = augmented(old(self)@, other@);
            assert forall|i: int| 0 <= i < rows implies #[trigger] self@[i] =~= goal[i] by {
                assert forall|j: int| 0 <= j < left + right implies self@[i][j] == goal[i][j] by {
                    lemma_index_in_buffer(rows, left + right, i, j);
                    if j < left {
                        lemma_index_in_buffer(rows, left, i, j);
                    } else {
                        lemma_index_in_buffer(rows, right, i, j - left);
                        assert(j * rows + i - rows * left == (j - left) * rows + i)
                            by (nonlinear_arith);
                        assert(rows * left <= j * rows) by (nonlinear_arith)
                            requires
                                left <= j,
                                0 <= rows,
                        ;
                    }
                }
            }
            assert(self@ =~= goal);
        }
    }
}

impl<T: Scalar> Matrix<T> {
    /// A matrix of `rows` by `cols` zeros, or `None` if the buffer of a
    /// matrix of that shape cannot be addressed.
    pub fn zeros(rows: usize, cols: usize) -> (made: Option<Matrix<T>>)
        ensures
            made.is_some() <==> rows * cols <= usize::MAX,
            made matches Some(m) ==> {
                &&& m.wf()
                &&& m.nrows() == rows
                &&& m.ncols() == cols
                &&& forall|i: int, j: int|
                    0 <= i < rows && 0 <= j < cols ==> yields_zero(#[trigger] m@[i][j])
                &&& deterministic::<T>() ==> forall|i: int, j: int|
                    0 <= i < rows && 0 <= j < cols ==> #[trigger] m@[i][j] == zero_value::<T>()
            },
    {
        match rows.checked_mul(cols) {
            None => None,
            Some(len) => {
                let mut data: Vec<T> = Vec::new();
                let mut n: usize = 0;
                while n < len
                    invariant
                        n <= len,
                        data@.len() == n,
                        forall|p: int| 0 <= p < n ==> yields_zero(#[trigger] data@[p]),
                    decreases len - n,
                {
                    data.push(T::zero());
                    n += 1;
                }
                let m = Matrix { rows, cols, data };
                proof {
                    assert forall|i: int, j: int|
                        0 <= i < rows && 0 <= j < cols implies yields_zero(
                        #[trigger] m@[i][j],
                    ) by {
                        lemma_index_in_buffer(rows as int, cols as int, i, j);
                        assert(m@[i][j] == m.data@[j * rows + i]);
                    }
                }
                Some(m)
            },
        }
    }
}

/// A rectangular window into a matrix: offsets and extents, nothing borrowed.
#[derive(Clone, Copy, Debug, PartialEq, Eq)]
pub struct MatrixView {
    /// The row of the matrix that is row 0 of the window.
    pub start_row: usize,
    /// The column of the matrix that is column 0 of the window.
    pub start_col: usize,
    /// The number of rows of the window.
    pub rows: usize,
    /// The number of columns of the window.
    pub cols: usize,
}

impl MatrixView {
    /// The window lies inside `m`.
    pub open spec fn within<T>(&self, m: &Matrix<T>) -> bool {
        &&& self.start_row + self.rows <= m.nrows()
        &&& self.start_col + self.cols <= m.ncols()
    }

    /// The number of rows of the window.
    pub fn num_rows(&self) -> (n: usize)
        ensures
            n == self.rows,
    {
        self.rows
    }

    /// The number of columns of the window.
    pub fn num_cols(&self) -> (n: usize)
        ensures
            n == self.cols,
    {
        self.cols
    }

    /// The entry of `m` in row `r` and column `c` of the window.
    pub fn get<T: Copy>(&self, m: &Matrix<T>, r: usize, c: usize) -> (value: T)
        requires
            m.wf(),
            self.within(m),
            r < self.rows,
            c < self.cols,
        ensures
            value == m@[self.start_row + r][self.start_col + c],
    {
        m.get(self.start_row + r, self.start_col + c)
    }

    /// Multiplies row `row` of the window by `factor`, in place.
    ///
    /// The other rows of `m` stay, and so do the entries of the row outside
    /// the window.
    pub fn ero_scale<T: Scalar>(&self, m: &mut Matrix<T>, row: usize, factor: T)
        requires
            old(m).wf(),
            self.within(old(m)),
            row < self.rows,
        ensures
            final(m).wf(),
            final(m).nrows() == old(m).nrows(),
            final(m).ncols() == old(m).ncols(),
            forall|i: int|
                0 <= i < old(m).nrows() && i != self.start_row + row
                    ==> #[trigger] final(m)@[i] == old(m)@[i],
            row_scales_to(
                old(m)@[self.start_row + row],
                factor,
                self.start_col as int,
                self.start_col + self.cols,
                final(m)@[self.start_row + row],
            ),
            deterministic::<T>() ==> final(m)@ == row_scaled(
                old(m)@,
                self.start_row + row,
                factor,
                self.start_col as int,
                self.start_col + self.cols,
            ),
    {
        let ghost before = m.data@;
        let ghost rows = m.rows as int;
        let ghost cols = m.cols as int;
        let r = self.start_row + row;
        let mut c: usize = 0;
        while c < self.cols
            invariant
                c <= self.cols,
                r == self.start_row + row,
                r < rows,
                self.start_col + self.cols <= cols,
                m.rows == rows,
                m.cols == cols,
                m.data@.len() == before.len(),
                rows * cols == before.len() <= usize::MAX,
                forall|i: int, j: int|
                    0 <= i < rows && 0 <= j < cols && !(i == r && self.start_col <= j
                        < self.start_col + c) ==> #[trigger] entry(m.data@, rows, i, j) == entry(
                        before,
                        rows,
                        i,
                        j,
                    ),
                forall|j: int|
                    self.start_col <= j < self.start_col + c ==> yields_product(
                        factor,
                        entry(before, rows, r as int, j),
                        #[trigger] entry(m.data@, rows, r as int, j),
                    ),
            decreases self.cols - c,
        {
            let j = self.start_col + c;
            proof {
                lemma_index_in_buffer(rows, cols, r as int, j as int);
            }
            let at = j * m.rows + r;
            let ghost prev = m.data@;
            assert(prev[at as int] == entry(prev, rows, r as int, j as int));
            let scaled = factor.times(m.data[at]);
            m.data.set(at, scaled);
            proof {
                assert forall|i2: int, j2: int|
                    0 <= i2 < rows && 0 <= j2 < cols && !(i2 == r && j2 == j) implies
                    #[trigger] entry(m.data@, rows, i2, j2) == entry(prev, rows, i2, j2) by {
                    lemma_index_in_buffer(rows, cols, i2, j2);
                    if j2 * rows + i2 == at {
                        lemma_index_injective(rows, i2, j2, r as int, j as int);
                    }
                }
                assert(entry(m.data@, rows, r as int, j as int) == scaled);
            }
            c += 1;
        }
        proof {
            let from = self.start_col as int;
            let to = self.start_col + self.cols;
            assert forall|i: int| 0 <= i < rows && i != r implies #[trigger] m@[i]
                == old(m)@[i] by {
                assert forall|j: int| 0 <= j < cols implies m@[i][j] == old(m)@[i][j] by {
                    assert(entry(m.data@, rows, i, j) == entry(before, rows, i, j));
                }
                assert(m@[i] =~= old(m)@[i]);
            }
            assert forall|j: int| 0 <= j < cols implies if from <= j < to {
                yields_product(factor, old(m)@[r as int][j], #[trigger] m@[r as int][j])
            } else {
                m@[r as int][j] == old(m)@[r as int][j]
            } by {
                assert(m@[r as int][j] == entry(m.data@, rows, r as int, j));
                assert(old(m)@[r as int][j] == entry(before, rows, r as int, j));
            }
            if deterministic::<T>() {
                lemma_row_scales_to_one(old(m)@[r as int], factor, from, to, m@[r as int]);
                assert(m@ =~= row_scaled(old(m)@, r as int, factor, from, to));
            }
        }
    }

    /// Adds `factor` times row `row_src` to row `row_dst`, in place and
    /// across the columns of the window. Both rows are counted from the top
    /// of the window; the source row may lie outside the window, above or
    /// below it.
    ///
    /// The other rows of `m` stay, and so do the entries of the destination
    /// row outside the window.
    pub fn ero_scale_add<T: Scalar>(
        &self,
        m: &mut Matrix<T>,
        row_src: isize,
        row_dst: usize,
        factor: T,
    )
        requires
            old(m).wf(),
            self.within(old(m)),
            row_dst < self.rows,
            0 <= self.start_row + row_src < old(m).nrows(),
        ensures
            final(m).wf(),
            final(m).nrows() == old(m).nrows(),
            final(m).ncols() == old(m).ncols(),
            forall|i: int|
                0 <= i < old(m).nrows() && i != self.start_row + row_dst
                    ==> #[trigger] final(m)@[i] == old(m)@[i],
            row_adds_to(
                old(m)@[self.start_row + row_dst],
                old(m)@[self.start_row + row_src],
                factor,
                self.start_col as int,
                self.start_col + self.cols,
                final(m)@[self.start_row + row_dst],
            ),
            deterministic::<T>() ==> final(m)@ == row_added(
                old(m)@,
                self.start_row + row_src,
                self.start_row + row_dst,
                factor,
                self.start_col as int,
                self.start_col + self.cols,
            ),
    {
        let ghost before = m.data@;
        let ghost rows = m.rows as int;
        let ghost cols = m.cols as int;
        let d = self.start_row + row_dst;
        let s = self.start_row.checked_add_signed(row_src).unwrap();
        let mut c: usize = 0;
        while c < self.cols
            invariant
                c <= self.cols,
                d == self.start_row + row_dst,
                s == self.start_row + row_src,
                d < rows,
                s < rows,
                self.start_col + self.cols <= cols,
                m.rows == rows,
                m.cols == cols,
                m.data@.len() == before.len(),
                rows * cols == before.len() <= usize::MAX,
                forall|i: int, j: int|
                    0 <= i < rows && 0 <= j < cols && !(i == d && self.start_col <= j
                        < self.start_col + c) ==> #[trigger] entry(m.data@, rows, i, j) == entry(
                        before,
                        rows,
                        i,
                        j,
                    ),
                forall|j: int|
                    self.start_col <= j < self.start_col + c ==> yields_axpy(
                        entry(before, rows, d as int, j),
                        factor,
                        entry(before, rows, s as int, j),
                        #[trigger] entry(m.data@, rows, d as int, j),
                    ),
            decreases self.cols - c,
        {
            let j = self.start_col + c;
            proof {
                lemma_index_in_buffer(rows, cols, d as int, j as int);
                lemma_index_in_buffer(rows, cols, s as int, j as int);
            }
            let to = j * m.rows + d;
            let from = j * m.rows + s;
            let ghost prev = m.data@;
            assert(prev[to as int] == entry(prev, rows, d as int, j as int));
            assert(prev[from as int] == entry(prev, rows, s as int, j as int));
            let multiple = factor.times(m.data[from]);
            let added = m.data[to].plus(multiple);
            m.data.set(to, added);
            proof {
                assert forall|i2: int, j2: int|
                    0 <= i2 < rows && 0 <= j2 < cols && !(i2 == d && j2 == j) implies
                    #[trigger] entry(m.data@, rows, i2, j2) == entry(prev, rows, i2, j2) by {
                    lemma_index_in_buffer(rows, cols, i2, j2);
                    if j2 * rows + i2 == to {
                        lemma_index_injective(rows, i2, j2, d as int, j as int);
                    }
                }
                assert(entry(m.data@, rows, d as int, j as int) == added);
                assert(yields_product(factor, entry(before, rows, s as int, j as int), multiple));
                assert(yields_axpy(
                    entry(before, rows, d as int, j as int),
                    factor,
                    entry(before, rows, s as int, j as int),
                    added,
                ));
            }
            c += 1;
        }
        proof {
            let from = self.start_col as int;
            let to = self.start_col + self.cols;
            assert forall|i: int| 0 <= i < rows && i != d implies #[trigger] m@[i]
                == old(m)@[i] by {
                assert forall|j: int| 0 <= j < cols implies m@[i][j] == old(m)@[i][j] by {
                    assert(entry(m.data@, rows, i, j) == entry(before, rows, i, j));
                }
                assert(m@[i] =~= old(m)@[i]);
            }
            assert forall|j: int| 0 <= j < cols implies if from <= j < to {
                yields_axpy(
                    old(m)@[d as int][j],
                    factor,
                    old(m)@[s as int][j],
                    #[trigger] m@[d as int][j],
                )
            } else {
                m@[d as int][j] == old(m)@[d as int][j]
            } by {
                assert(m@[d as int][j] == entry(m.data@, rows, d as int, j));
                assert(old(m)@[d as int][j] == entry(before, rows, d as int, j));
                assert(old(m)@[s as int][j] == entry(before, rows, s as int, j));
            }
            if deterministic::<T>() {
                lemma_row_adds_to_one(
                    old(m)@[d as int],
                    old(m)@[s as int],
                    factor,
                    from,
                    to,
                    m@[d as int],
                );
                assert(m@ =~= row_added(old(m)@, s as int, d as int, factor, from, to));
            }
        }
    }

    /// A matrix of its own that holds what the window shows of `m`.
    pub fn to_matrix<T: Copy>(&self, m: &Matrix<T>) -> (copy: Matrix<T>)
        requires
            m.wf(),
            self.within(m),
        ensures
            copy.wf(),
            copy.nrows() == self.rows,
            copy.ncols() == self.cols,
            copy@ == window(
                m@,
                self.start_row as int,
                self.start_col as int,
                self.rows as int,
                self.cols as int,
            ),
    {
        let ghost rows = self.rows as int;
        let mut data: Vec<T> = Vec::new();
        let mut j: usize = 0;
        while j < self.cols
            invariant
                j <= self.cols,
                m.wf(),
                self.within(m),
                rows == self.rows,
                data@.len() == j * rows,
                forall|i2: int, j2: int|
                    0 <= i2 < rows && 0 <= j2 < j ==> #[trigger] entry(data@, rows, i2, j2)
                        == m@[self.start_row + i2][self.start_col + j2],
            decreases self.cols - j,
        {
            let mut i: usize = 0;
            while i < self.rows
                invariant
                    i <= self.rows,
                    j < self.cols,
                    m.wf(),
                    self.within(m),
                    rows == self.rows,
                    data@.len() == j * rows + i,
                    forall|i2: int, j2: int|
                        0 <= i2 < rows && 0 <= j2 < j ==> #[trigger] entry(data@, rows, i2, j2)
                            == m@[self.start_row + i2][self.start_col + j2],
                    forall|i2: int|
                        0 <= i2 < i ==> #[trigger] entry(data@, rows, i2, j as int)
                            == m@[self.start_row + i2][self.start_col + j],
                decreases self.rows - i,
            {
                let ghost prev = data@;
                let value = m.get(self.start_row + i, self.start_col + j);
                data.push(value);
                proof {
                    assert forall|i2: int, j2: int|
                        0 <= i2 < rows && 0 <= j2 < j implies #[trigger] entry(
                        data@,
                        rows,
                        i2,
                        j2,
                    ) == entry(prev, rows, i2, j2) by {
                        lemma_index_in_buffer(rows, j as int, i2, j2);
                    }
                    assert forall|i2: int| 0 <= i2 < i implies #[trigger] entry(
                        data@,
                        rows,
                        i2,
                        j as int,
                    ) == entry(prev, rows, i2, j as int) by {}
                    assert(entry(data@, rows, i as int, j as int) == value);
                }
                i += 1;
            }
            proof {
                assert((j + 1) * rows == j * rows + rows) by (nonlinear_arith);
            }
            j += 1;
        }
        let _len = data.len();
        proof {
            assert(self.cols * rows == rows * self.cols) by (nonlinear_arith);
        }
        let copy = Matrix { rows: self.rows, cols: self.cols, data };
        proof {
            let goal = window(
                m@,
                self.start_row as int,
                self.start_col as int,
                self.rows as int,
                self.cols as int,
            );
            assert forall|i: int| 0 <= i < rows implies #[trigger] copy@[i] =~= goal[i] by {
                assert forall|c: int| 0 <= c < self.cols implies copy@[i][c] == goal[i][c] by {
                    assert(copy@[i][c] == entry(copy.data@, rows, i, c));
                }
            }
            assert(copy@ =~= goal);
        }
        copy
    }
}

} // verus!
