use gauss_elim::{Matrix, MatrixView, Scalar};

#[derive(Clone, Copy, Debug, PartialEq)]
struct Real(f64);

impl Scalar for Real {
    fn zero() -> Real {
        Real(0.0)
    }

    fn one() -> Real {
        Real(1.0)
    }

    fn plus(self, rhs: Real) -> Real {
        Real(self.0 + rhs.0)
    }

    fn times(self, rhs: Real) -> Real {
        Real(self.0 * rhs.0)
    }

    fn over(self, rhs: Real) -> Real {
        Real(self.0 / rhs.0)
    }

    fn negated(self) -> Real {
        Real(-self.0)
    }
}

/// A matrix from its entries, row by row.
fn matrix(rows: usize, cols: usize, values: &[f64]) -> Matrix<Real> {
    assert_eq!(values.len(), rows * cols);
    let mut m = Matrix::zeros(rows, cols).unwrap();
    for r in 0..rows {
        for c in 0..cols {
            m.set(r, c, Real(values[r * cols + c]));
        }
    }
    m
}

#[test]
fn zeros_has_the_shape_asked_for() {
    let m: Matrix<Real> = Matrix::zeros(2, 3).unwrap();
    assert_eq!(m.num_rows(), 2);
    assert_eq!(m.num_cols(), 3);
    assert!(!m.is_square());
    for r in 0..2 {
        for c in 0..3 {
            assert_eq!(m.get(r, c), Real(0.0));
        }
    }
}

#[test]
fn zeros_refuses_a_shape_that_overflows() {
    let m: Option<Matrix<Real>> = Matrix::zeros(usize::MAX, 2);
    assert!(m.is_none());
}

#[test]
fn set_changes_one_entry() {
    let mut m = matrix(2, 2, &[1.0, 2.0, 3.0, 4.0]);
    m.set(1, 0, Real(9.0));
    assert_eq!(m, matrix(2, 2, &[1.0, 2.0, 9.0, 4.0]));
    assert!(m.is_square());
}

#[test]
fn clone_has_storage_of_its_own() {
    let a = matrix(2, 2, &[1.0, 2.0, 3.0, 4.0]);
    let mut b = a.clone();
    b.set(0, 0, Real(7.0));
    assert_eq!(a.get(0, 0), Real(1.0));
    assert_eq!(b.get(0, 0), Real(7.0));
}

#[test]
fn append_columns_puts_them_on_the_right() {
    let mut a = matrix(2, 2, &[1.0, 2.0, 3.0, 4.0]);
    let b = matrix(2, 1, &[5.0, 6.0]);
    a.append_columns(&b);
    assert_eq!(a, matrix(2, 3, &[1.0, 2.0, 5.0, 3.0, 4.0, 6.0]));
}

#[test]
fn view_reads_relative_to_its_corner() {
    let m = matrix(3, 3, &[1.0, 2.0, 3.0, 4.0, 5.0, 6.0, 7.0, 8.0, 9.0]);
    let v = m.sub_view(1, 1, 2, 2);
    assert_eq!(v, MatrixView { start_row: 1, start_col: 1, rows: 2, cols: 2 });
    assert_eq!(v.num_rows(), 2);
    assert_eq!(v.num_cols(), 2);
    assert_eq!(v.get(&m, 0, 0), Real(5.0));
    assert_eq!(v.get(&m, 1, 0), Real(8.0));
    assert_eq!(v.get(&m, 0, 1), Real(6.0));
}

#[test]
fn ero_scale_touches_only_the_window() {
    let mut m = matrix(3, 3, &[1.0, 2.0, 3.0, 4.0, 5.0, 6.0, 7.0, 8.0, 9.0]);
    let v = m.sub_view(1, 1, 2, 2);
    v.ero_scale(&mut m, 0, Real(2.0));
    assert_eq!(m, matrix(3, 3, &[1.0, 2.0, 3.0, 4.0, 10.0, 12.0, 7.0, 8.0, 9.0]));
}

#[test]
fn ero_scale_add_adds_the_source_to_the_destination() {
    let mut m = matrix(3, 3, &[1.0, 2.0, 3.0, 4.0, 5.0, 6.0, 7.0, 8.0, 9.0]);
    let v = m.sub_view(1, 1, 2, 2);
    v.ero_scale_add(&mut m, 0, 1, Real(10.0));
    assert_eq!(m, matrix(3, 3, &[1.0, 2.0, 3.0, 4.0, 5.0, 6.0, 7.0, 58.0, 69.0]));
}

#[test]
fn ero_scale_add_reaches_a_source_above_the_window() {
    let mut m = matrix(3, 3, &[1.0, 2.0, 3.0, 4.0, 5.0, 6.0, 7.0, 8.0, 9.0]);
    let v = m.sub_view(1, 0, 2, 3);
    v.ero_scale_add(&mut m, -1, 0, Real(-4.0));
    assert_eq!(m, matrix(3, 3, &[1.0, 2.0, 3.0, 0.0, -3.0, -6.0, 7.0, 8.0, 9.0]));
}

#[test]
fn ero_scale_add_of_a_row_to_itself_uses_the_old_entries() {
    let mut m = matrix(2, 2, &[1.0, 2.0, 3.0, 4.0]);
    let v = m.sub_view(0, 0, 2, 2);
    v.ero_scale_add(&mut m, 1, 1, Real(2.0));
    assert_eq!(m, matrix(2, 2, &[1.0, 2.0, 9.0, 12.0]));
}

#[test]
fn to_matrix_copies_the_window() {
    let m = matrix(3, 3, &[1.0, 2.0, 3.0, 4.0, 5.0, 6.0, 7.0, 8.0, 9.0]);
    let v = m.sub_view(0, 1, 3, 2);
    assert_eq!(v.to_matrix(&m), matrix(3, 2, &[2.0, 3.0, 5.0, 6.0, 8.0, 9.0]));
}

#[test]
fn to_matrix_of_an_empty_window_is_empty() {
    let m = matrix(2, 2, &[1.0, 2.0, 3.0, 4.0]);
    let v = m.sub_view(2, 0, 0, 2);
    let copy = v.to_matrix(&m);
    assert_eq!(copy.num_rows(), 0);
    assert_eq!(copy.num_cols(), 2);
}
