//! The solver: forward elimination and back substitution on a copy of the
//! coefficients and the right-hand sides side by side.
use vstd::prelude::*;
use crate::grid::{augmented, rectangular, row_adds_to};
use crate::linalg::elimination::{
    backward_yields,
    eliminates_to,
    forward_yields,
    lemma_eliminates_to_one,
    lemma_row_reduces_to_keeps_left,
    row_eliminates_to,
    row_reduces_to,
    row_substitutes_to,
    rows_eliminate_to,
    solution,
    yields_cancelling_factor,
    yields_reciprocal,
};
use crate::matrix::Matrix;
use crate::scalar::{deterministic, yields_one, yields_quotient, Scalar};

verus! {

/// A Gauss elimination problem: the coefficients `a`, square, and the
/// right-hand sides `b`, one column for each system to solve.
pub struct GaussElimination<'a, 'b, T> {
    a: &'a Matrix<T>,
    b: &'b Matrix<T>,
}

impl<'a, 'b, T> GaussElimination<'a, 'b, T> {
    /// The shapes fit, and the augmented matrix can be addressed.
    #[verifier::type_invariant]
    spec fn fits(self) -> bool {
        Self::solvable(self.a, self.b)
    }

    /// `a` is square, `b` has as many rows, and the two side by side fit one
    /// buffer whose rows can be counted with a sign.
    pub open spec fn solvable(a: &Matrix<T>, b: &Matrix<T>) -> bool {
        &&& a.wf()
        &&& b.wf()
        &&& a.nrows() == a.ncols()
        &&& a.nrows() == b.nrows()
        &&& a.nrows() <= isize::MAX
        &&& a.ncols() + b.ncols() <= usize::MAX
        &&& a.nrows() * (a.ncols() + b.ncols()) <= usize::MAX
    }

    /// The coefficient matrix.
    pub closed spec fn coefficients(self) -> Matrix<T> {
        *self.a
    }

    /// The right-hand sides.
    pub closed spec fn right_hand_sides(self) -> Matrix<T> {
        *self.b
    }
}

impl<'a, 'b, T: Scalar> GaussElimination<'a, 'b, T> {
    /// Sets up a new Gauss elimination problem.
    pub fn new(a: &'a Matrix<T>, b: &'b Matrix<T>) -> (problem: GaussElimination<'a, 'b, T>)
        requires
            Self::solvable(a, b),
        ensures
            problem.coefficients() == *a,
            problem.right_hand_sides() == *b,
    {
        GaussElimination { a, b }
    }

    /// The coefficient matrix of the problem.
    pub fn a(&self) -> (a: &'a Matrix<T>)
        ensures
            *a == self.coefficients(),
    {
        self.a
    }

    /// The right-hand sides of the problem.
    pub fn b(&self) -> (b: &'b Matrix<T>)
        ensures
            *b == self.right_hand_sides(),
    {
        self.b
    }

    /// Carries out the procedure of Gauss elimination and returns the
    /// solution, one column for each column of the right-hand sides.
    ///
    /// The coefficients and the right-hand sides are left as they are: the
    /// work is done on a copy of the two side by side. A pivot that is zero
    /// is not an error; what the element type returns for the division is
    /// carried into the result.
    pub fn solve(&self) -> (x: Matrix<T>)
        ensures
            x.wf(),
            x.nrows() == self.right_hand_sides().nrows(),
            x.ncols() == self.right_hand_sides().ncols(),
            eliminates_to(
                self.coefficients()@,
                self.right_hand_sides()@,
                self.right_hand_sides().ncols(),
                x@,
            ),
            deterministic::<T>() ==> x@ == solution(
                self.coefficients()@,
                self.right_hand_sides()@,
                self.right_hand_sides().ncols(),
            ),
    {
        proof {
            use_type_invariant(self);
        }
        let mut m = self.a.clone();
        m.append_columns(self.b);
        let rows = m.num_rows();
        let cols = m.num_cols();
        let ghost start = m@;
        // Forward elimination.
        let mut k: usize = 0;
        while k < rows
            invariant
                k <= rows,
                rows <= cols,
                m.wf(),
                m.nrows() == rows,
                m.ncols() == cols,
                forward_yields(start, k as nat, m@),
            decreases rows - k,
        {
            let pivot = m.get(k, k);
            let lower_right = m.sub_view(k + 1, k, rows - k - 1, cols - k);
            let ghost at_step = m@;
            let mut r: usize = 0;
            while r < lower_right.num_rows()
                invariant
                    r <= lower_right.rows,
                    k < rows,
                    rows <= cols,
                    lower_right.start_row == k + 1,
                    lower_right.start_col == k,
                    lower_right.rows == rows - k - 1,
                    lower_right.cols == cols - k,
                    m.wf(),
                    m.nrows() == rows,
                    m.ncols() == cols,
                    at_step.len() == rows,
                    rectangular(at_step, cols as nat),
                    pivot == at_step[k as int][k as int],
                    forward_yields(start, k as nat, at_step),
                    rows_eliminate_to(at_step, k as int, k + 1 + r, m@),
                decreases lower_right.rows - r,
            {
                let first = lower_right.get(&m, r, 0);
                let factor = first.over(pivot);
                let scale = factor.negated();
                let ghost before = m@;
                lower_right.ero_scale_add(&mut m, -1, r, scale);
                proof {
                    let i = k + 1 + r;
                    assert(before[i] == at_step[i]);
                    assert(before[k as int] == at_step[k as int]);
                    assert(yields_quotient(first, pivot, factor));
                    assert(yields_cancelling_factor(at_step[i][k as int], pivot, scale));
                    assert(row_eliminates_to(at_step, k as int, i, m@[i]));
                    assert forall|i2: int| 0 <= i2 < rows implies if k < i2 < i + 1 {
                        row_eliminates_to(at_step, k as int, i2, #[trigger] m@[i2])
                    } else {
                        m@[i2] == at_step[i2]
                    } by {
                        if i2 != i {
                            assert(m@[i2] == before[i2]);
                        }
                    }
                }
                r += 1;
            }
            proof {
                let steps = (k + 1) as nat;
                assert(rows_eliminate_to(at_step, steps - 1, at_step.len() as int, m@));
                assert(forward_yields(start, steps, m@));
            }
            k += 1;
        }
        // Backward substitution.
        let b = m.sub_view(0, self.a.num_cols(), self.b.num_rows(), self.b.num_cols());
        let ghost echelon = m@;
        let mut r: usize = rows;
        while r > 0
            invariant
                r <= rows,
                rows <= isize::MAX,
                m.wf(),
                m.nrows() == rows,
                m.ncols() == cols,
                echelon.len() == rows,
                b.start_row == 0,
                b.start_col == rows,
                b.rows == rows,
                b.start_col + b.cols == cols,
                backward_yields(echelon, (rows - r) as nat, m@),
            decreases r,
        {
            r -= 1;
            let ghost at_step = m@;
            let pivot = m.get(r, r);
            let unit = T::one();
            let inverse = unit.over(pivot);
            b.ero_scale(&mut m, r, inverse);
            proof {
                assert(yields_one(unit));
                assert(yields_reciprocal(pivot, inverse));
                assert(row_reduces_to(at_step, r as int, r + 1, m@[r as int]));
            }
            let mut j: usize = r + 1;
            while j < rows
                invariant
                    r < j <= rows,
                    rows <= isize::MAX,
                    m.wf(),
                    m.nrows() == rows,
                    m.ncols() == cols,
                    at_step.len() == rows,
                    rectangular(at_step, cols as nat),
                    b.start_row == 0,
                    b.start_col == rows,
                    b.rows == rows,
                    b.start_col + b.cols == cols,
                    pivot == at_step[r as int][r as int],
                    backward_yields(echelon, (rows - r - 1) as nat, at_step),
                    forall|i: int| 0 <= i < rows && i != r ==> #[trigger] m@[i] == at_step[i],
                    row_reduces_to(at_step, r as int, j as int, m@[r as int]),
                decreases rows - j,
            {
                proof {
                    lemma_row_reduces_to_keeps_left(at_step, r as int, j as int, m@[r as int]);
                }
                let entry = m.get(r, j);
                let factor = entry.over(pivot);
                let scale = factor.negated();
                let ghost before = m@;
                b.ero_scale_add(&mut m, j as isize, r, scale);
                proof {
                    assert(before[j as int] == at_step[j as int]);
                    assert(yields_quotient(entry, pivot, factor));
                    assert(yields_cancelling_factor(at_step[r as int][j as int], pivot, scale));
                    let upto = j + 1;
                    assert(row_adds_to(
                        before[r as int],
                        at_step[upto - 1],
                        scale,
                        rows as int,
                        cols as int,
                        m@[r as int],
                    ));
                    assert forall|i: int| 0 <= i < rows && i != r implies #[trigger] m@[i]
                        == at_step[i] by {
                        assert(m@[i] == before[i]);
                    }
                    assert(row_reduces_to(at_step, r as int, upto - 1, before[r as int]));
                    assert(row_reduces_to(at_step, r as int, upto, m@[r as int]));
                }
                j += 1;
            }
            proof {
                assert(row_substitutes_to(at_step, echelon.len() - (rows - r), m@));
                assert(backward_yields(echelon, (rows - r - 1) as nat, at_step));
                assert(backward_yields(echelon, (rows - r) as nat, m@));
            }
        }
        let x = b.to_matrix(&m);
        proof {
            let a = self.coefficients()@;
            let rhs = self.right_hand_sides()@;
            assert(start == augmented(a, rhs));
            assert(backward_yields(echelon, a.len(), m@));
            assert(eliminates_to(a, rhs, self.right_hand_sides().ncols(), x@));
            if deterministic::<T>() {
                lemma_eliminates_to_one(a, rhs, self.right_hand_sides().ncols(), x@);
            }
        }
        x
    }
}

} // verus!
