use gauss_elim::{GaussElimination, Matrix, Scalar};

#[derive(Clone, Copy, Debug, PartialEq)]
struct Real(f64);

impl Scalar for Real {
    fn zero() -> Real {
        Real(0.0)
    }

    fn one() -> Real {
        Real(1.0)
    }

    fn plus(self, rhs: Real) -> Real {
        Real(self.0 + rhs.0)
    }

    fn times(self, rhs: Real) -> Real {
        Real(self.0 * rhs.0)
    }

    fn over(self, rhs: Real) -> Real {
        Real(self.0 / rhs.0)
    }

    fn negated(self) -> Real {
        Real(-self.0)
    }
}

/// A matrix from its entries, row by row.
fn matrix(rows: usize, cols: usize, values: &[f64]) -> Matrix<Real> {
    assert_eq!(values.len(), rows * cols);
    let mut m = Matrix::zeros(rows, cols).unwrap();
    for r in 0..rows {
        for c in 0..cols {
            m.set(r, c, Real(values[r * cols + c]));
        }
    }
    m
}

fn entries(m: &Matrix<Real>) -> Vec<f64> {
    let mut out = Vec::new();
    for r in 0..m.num_rows() {
        for c in 0..m.num_cols() {
            out.push(m.get(r, c).0);
        }
    }
    out
}

fn solve(a: &Matrix<Real>, b: &Matrix<Real>) -> Matrix<Real> {
    assert!(a.is_square());
    assert_eq!(a.num_rows(), b.num_rows());
    GaussElimination::new(a, b).solve()
}

/// The largest entry of |a x - b|.
fn residual(a: &Matrix<Real>, x: &Matrix<Real>, b: &Matrix<Real>) -> f64 {
    let mut worst: f64 = 0.0;
    for r in 0..b.num_rows() {
        for c in 0..b.num_cols() {
            let mut acc = 0.0;
            for k in 0..a.num_cols() {
                acc += a.get(r, k).0 * x.get(k, c).0;
            }
            worst = worst.max((acc - b.get(r, c).0).abs());
        }
    }
    worst
}

#[test]
fn solves_two_by_two_system() {
    let a = matrix(2, 2, &[2.0, 1.0, 1.0, 3.0]);
    let b = matrix(2, 1, &[3.0, 5.0]);
    let x = solve(&a, &b);
    assert_eq!(x.num_rows(), 2);
    assert_eq!(x.num_cols(), 1);
    assert!((x.get(0, 0).0 - 0.8).abs() < 1e-12);
    assert!((x.get(1, 0).0 - 1.4).abs() < 1e-12);
}

#[test]
fn two_by_two_follows_the_operation_order() {
    // Forward: row 1 -= (1 / 2) * row 0. Backward: 3.5 * (1 / 2.5), then
    // 3 * (1 / 2) - (1 / 2) * 1.4.
    let a = matrix(2, 2, &[2.0, 1.0, 1.0, 3.0]);
    let b = matrix(2, 1, &[3.0, 5.0]);
    let x = solve(&a, &b);
    let x1 = (1.0 / 2.5) * (5.0 + (-(1.0 / 2.0)) * 3.0);
    let x0 = (1.0 / 2.0) * 3.0 + (-(1.0 / 2.0)) * x1;
    assert_eq!(entries(&x), vec![x0, x1]);
}

#[test]
fn inputs_are_left_untouched() {
    let a = matrix(2, 2, &[2.0, 1.0, 1.0, 3.0]);
    let b = matrix(2, 1, &[3.0, 5.0]);
    let _ = solve(&a, &b);
    assert_eq!(entries(&a), vec![2.0, 1.0, 1.0, 3.0]);
    assert_eq!(entries(&b), vec![3.0, 5.0]);
}

#[test]
fn residual_is_small_for_a_nonsingular_system() {
    let a = matrix(3, 3, &[4.0, -2.0, 1.0, 3.0, 6.0, -4.0, 2.0, 1.0, 8.0]);
    let b = matrix(3, 2, &[12.0, 1.0, -25.0, 0.5, 32.0, -7.0]);
    let x = solve(&a, &b);
    assert!(residual(&a, &x, &b) < 64.0 * f64::EPSILON * 32.0);
}

#[test]
fn identity_returns_the_right_hand_side() {
    let a = matrix(3, 3, &[1.0, 0.0, 0.0, 0.0, 1.0, 0.0, 0.0, 0.0, 1.0]);
    let b = matrix(3, 2, &[1.5, -2.0, 0.25, 7.0, 3.0, 1e10]);
    let x = solve(&a, &b);
    assert_eq!(x, b);
}

#[test]
fn columns_are_solved_independently() {
    let a = matrix(3, 3, &[4.0, -2.0, 1.0, 3.0, 6.0, -4.0, 2.0, 1.0, 8.0]);
    let b = matrix(3, 2, &[12.0, 1.0, -25.0, 0.5, 32.0, -7.0]);
    let x = solve(&a, &b);
    let x0 = solve(&a, &matrix(3, 1, &[12.0, -25.0, 32.0]));
    let x1 = solve(&a, &matrix(3, 1, &[1.0, 0.5, -7.0]));
    for r in 0..3 {
        assert_eq!(x.get(r, 0), x0.get(r, 0));
        assert_eq!(x.get(r, 1), x1.get(r, 0));
    }
}

#[test]
fn upper_triangular_input_is_back_substituted() {
    let a = matrix(3, 3, &[2.0, 1.0, -1.0, 0.0, 4.0, 2.0, 0.0, 0.0, 5.0]);
    let b = matrix(3, 1, &[3.0, 8.0, 10.0]);
    let x = solve(&a, &b);
    let x2 = (1.0 / 5.0) * 10.0;
    let x1 = (1.0 / 4.0) * 8.0 + (-(2.0 / 4.0)) * x2;
    let x0 = ((1.0 / 2.0) * 3.0 + (-(1.0 / 2.0)) * x1) + (-(-1.0 / 2.0)) * x2;
    assert_eq!(entries(&x), vec![x0, x1, x2]);
}

#[test]
fn zero_pivot_gives_non_finite_entries() {
    let a = matrix(2, 2, &[0.0, 1.0, 1.0, 1.0]);
    let b = matrix(2, 1, &[1.0, 2.0]);
    let x = solve(&a, &b);
    assert_eq!(x.num_rows(), 2);
    assert_eq!(x.num_cols(), 1);
    assert!(entries(&x).iter().any(|v| v.is_infinite() || v.is_nan()));
}

#[test]
fn empty_system_has_an_empty_solution() {
    let a = matrix(0, 0, &[]);
    let b = matrix(0, 3, &[]);
    let x = solve(&a, &b);
    assert_eq!(x.num_rows(), 0);
    assert_eq!(x.num_cols(), 3);
}

#[test]
fn no_right_hand_side_gives_no_columns() {
    let a = matrix(2, 2, &[2.0, 1.0, 1.0, 3.0]);
    let b = matrix(2, 0, &[]);
    let x = solve(&a, &b);
    assert_eq!(x.num_rows(), 2);
    assert_eq!(x.num_cols(), 0);
}

#[test]
fn one_by_one_system_divides_by_the_pivot() {
    let a = matrix(1, 1, &[4.0]);
    let b = matrix(1, 2, &[2.0, -6.0]);
    let x = solve(&a, &b);
    assert_eq!(entries(&x), vec![(1.0 / 4.0) * 2.0, (1.0 / 4.0) * -6.0]);
}

#[test]
fn residual_is_zero_where_no_operation_rounds() {
    let a = matrix(2, 2, &[2.0, 4.0, 1.0, 4.0]);
    let b = matrix(2, 1, &[8.0, 6.0]);
    let x = solve(&a, &b);
    assert_eq!(entries(&x), vec![2.0, 1.0]);
    assert_eq!(residual(&a, &x, &b), 0.0);
}

#[test]
fn zero_pivot_in_a_later_step_gives_non_finite_entries() {
    // The second pivot becomes 2 - (2 / 1) * 1 = 0.
    let a = matrix(2, 2, &[1.0, 1.0, 2.0, 2.0]);
    let b = matrix(2, 1, &[1.0, 3.0]);
    let x = solve(&a, &b);
    assert!(entries(&x).iter().all(|v| !v.is_finite()));
}

#[test]
fn no_rows_are_exchanged_for_a_larger_pivot() {
    // With the rows exchanged the first factor would be 1e-20, not 1e20.
    let a = matrix(2, 2, &[1e-20, 1.0, 1.0, 1.0]);
    let b = matrix(2, 1, &[1.0, 2.0]);
    let x = solve(&a, &b);
    let factor = 1.0 / 1e-20;
    let last_pivot = 1.0 + (-factor) * 1.0;
    let last_rhs = 2.0 + (-factor) * 1.0;
    let x1 = (1.0 / last_pivot) * last_rhs;
    let x0 = (1.0 / 1e-20) * 1.0 + (-(1.0 / 1e-20)) * x1;
    assert_eq!(entries(&x), vec![x0, x1]);
    assert_eq!(x0, 0.0);
}

#[test]
fn problem_hands_back_its_matrices() {
    let a = matrix(2, 2, &[2.0, 1.0, 1.0, 3.0]);
    let b = matrix(2, 1, &[3.0, 5.0]);
    let problem = GaussElimination::new(&a, &b);
    assert_eq!(problem.a(), &a);
    assert_eq!(problem.b(), &b);
}
