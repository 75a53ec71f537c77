use gauss_elim::{GaussElimination, Matrix, Scalar};
use num::rational::Rational64;
use num::traits::{One, Zero};

/// A rational number: arithmetic that never rounds.
#[derive(Clone, Copy, Debug, PartialEq)]
struct Fraction(Rational64);

impl Scalar for Fraction {
    fn zero() -> Fraction {
        Fraction(Zero::zero())
    }

    fn one() -> Fraction {
        Fraction(One::one())
    }

    fn plus(self, rhs: Fraction) -> Fraction {
        Fraction(self.0 + rhs.0)
    }

    fn times(self, rhs: Fraction) -> Fraction {
        Fraction(self.0 * rhs.0)
    }

    fn over(self, rhs: Fraction) -> Fraction {
        if rhs.0.is_zero() {
            // There is no quotient; any value answers the call.
            Fraction(Zero::zero())
        } else {
            Fraction(self.0 / rhs.0)
        }
    }

    fn negated(self) -> Fraction {
        Fraction(-self.0)
    }
}

fn fraction(numer: i64, denom: i64) -> Fraction {
    Fraction(Rational64::new(numer, denom))
}

/// A matrix from its entries, row by row.
fn matrix(rows: usize, cols: usize, values: &[Fraction]) -> Matrix<Fraction> {
    assert_eq!(values.len(), rows * cols);
    let mut m = Matrix::zeros(rows, cols).unwrap();
    for r in 0..rows {
        for c in 0..cols {
            m.set(r, c, values[r * cols + c]);
        }
    }
    m
}

fn whole(rows: usize, cols: usize, values: &[i64]) -> Matrix<Fraction> {
    let values: Vec<Fraction> = values.iter().map(|v| fraction(*v, 1)).collect();
    matrix(rows, cols, &values)
}

fn solve(a: &Matrix<Fraction>, b: &Matrix<Fraction>) -> Matrix<Fraction> {
    assert!(a.is_square());
    assert_eq!(a.num_rows(), b.num_rows());
    GaussElimination::new(a, b).solve()
}

/// The product of `a` and `x`, each entry added up from the first term on.
fn times(a: &Matrix<Fraction>, x: &Matrix<Fraction>) -> Matrix<Fraction> {
    let mut out = Matrix::zeros(a.num_rows(), x.num_cols()).unwrap();
    for r in 0..a.num_rows() {
        for c in 0..x.num_cols() {
            let mut acc = Fraction::zero();
            for k in 0..a.num_cols() {
                acc = acc.plus(a.get(r, k).times(x.get(k, c)));
            }
            out.set(r, c, acc);
        }
    }
    out
}

#[test]
fn exact_solution_of_the_two_by_two_system() {
    let a = whole(2, 2, &[2, 1, 1, 3]);
    let b = whole(2, 1, &[3, 5]);
    let x = solve(&a, &b);
    assert_eq!(x, matrix(2, 1, &[fraction(4, 5), fraction(7, 5)]));
}

#[test]
fn exact_arithmetic_leaves_no_residual() {
    // The Hilbert matrix of order four, which rounded arithmetic finds hard.
    let mut entries = Vec::new();
    for r in 0..4 {
        for c in 0..4 {
            entries.push(fraction(1, r + c + 1));
        }
    }
    let a = matrix(4, 4, &entries);
    let b = whole(4, 2, &[1, 0, 2, -1, 3, 5, 4, 7]);
    let x = solve(&a, &b);
    assert_eq!(times(&a, &x), b);
}

#[test]
fn exact_identity_returns_the_right_hand_side() {
    let a = whole(3, 3, &[1, 0, 0, 0, 1, 0, 0, 0, 1]);
    let b = matrix(3, 2, &[
        fraction(1, 3),
        fraction(-2, 7),
        fraction(0, 1),
        fraction(5, 1),
        fraction(9, 4),
        fraction(1, 1),
    ]);
    assert_eq!(solve(&a, &b), b);
}

#[test]
fn exact_columns_are_solved_independently() {
    let a = whole(3, 3, &[4, -2, 1, 3, 6, -4, 2, 1, 8]);
    let b = whole(3, 2, &[12, 1, -25, 0, 32, -7]);
    let x = solve(&a, &b);
    let first = solve(&a, &whole(3, 1, &[12, -25, 32]));
    let second = solve(&a, &whole(3, 1, &[1, 0, -7]));
    for r in 0..3 {
        assert_eq!(x.get(r, 0), first.get(r, 0));
        assert_eq!(x.get(r, 1), second.get(r, 0));
    }
}

#[test]
fn exact_upper_triangular_is_back_substituted() {
    let a = whole(3, 3, &[2, 1, -1, 0, 4, 2, 0, 0, 5]);
    let b = whole(3, 1, &[3, 8, 10]);
    let x = solve(&a, &b);
    // x2 = 10 / 5, x1 = (8 - 2 x2) / 4, x0 = (3 - x1 + x2) / 2.
    assert_eq!(x, whole(3, 1, &[2, 1, 2]));
    assert_eq!(times(&a, &x), b);
}
