use gauss_elim::{impulse_vector, Impulse, Matrix, Scalar};

#[derive(Clone, Copy, Debug, PartialEq)]
struct Real(f64);

impl Scalar for Real {
    fn zero() -> Real {
        Real(0.0)
    }

    fn one() -> Real {
        Real(1.0)
    }

    fn plus(self, rhs: Real) -> Real {
        Real(self.0 + rhs.0)
    }

    fn times(self, rhs: Real) -> Real {
        Real(self.0 * rhs.0)
    }

    fn over(self, rhs: Real) -> Real {
        Real(self.0 / rhs.0)
    }

    fn negated(self) -> Real {
        Real(-self.0)
    }
}

/// A column vector with the given entries.
fn vector(values: &[f64]) -> Matrix<Real> {
    let mut v = Matrix::zeros(values.len(), 1).unwrap();
    for (r, value) in values.iter().enumerate() {
        v.set(r, 0, Real(*value));
    }
    v
}

#[test]
fn test_impulse_f64() {
    let mut gen: Impulse<Real> = Impulse::new(0);
    for i in 0..100 {
        let v = gen.next().unwrap();
        println!("v[{}], {}", i, v.0);
        if i == 0 {
            assert_eq!(v.0, 1.);
        } else {
            assert_eq!(v.0, 0.);
        }
    }
}

#[test]
fn test_impulse_vector() {
    let v1 = impulse_vector::<Real>(10, 2);
    let v2 = vector(&[0., 0., 1., 0., 0., 0., 0., 0., 0., 0.]);
    assert_eq!(v1, v2);
}

#[test]
fn impulse_comes_once_at_its_location() {
    let mut gen: Impulse<Real> = Impulse::new(3);
    let samples: Vec<f64> = (0..6).map(|_| gen.next().unwrap().0).collect();
    assert_eq!(samples, vec![0., 0., 0., 1., 0., 0.]);
}

#[test]
fn impulse_one_is_the_unit() {
    let gen: Impulse<Real> = Impulse::new(7);
    assert_eq!(gen.one(), Real(1.0));
}

#[test]
fn impulse_vector_beyond_its_length_is_all_zero() {
    let v = impulse_vector::<Real>(4, 9);
    assert_eq!(v, vector(&[0., 0., 0., 0.]));
}

#[test]
fn impulse_vector_of_no_length_is_empty() {
    let v = impulse_vector::<Real>(0, 0);
    assert_eq!(v.num_rows(), 0);
    assert_eq!(v.num_cols(), 1);
}
