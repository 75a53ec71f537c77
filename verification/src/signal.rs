//! Signal generators.
use vstd::prelude::*;
use crate::matrix::Matrix;
use crate::scalar::{deterministic, one_value, yields_one, yields_zero, zero_value, Scalar};

verus! {

/// The sample of a unit impulse at `location`, taken at `index`: one at the
/// location, zero everywhere else.
pub open spec fn impulse_sample<T: Scalar>(location: int, index: int) -> T {
    if index == location {
        one_value::<T>()
    } else {
        zero_value::<T>()
    }
}

/// `value` may be the sample of a unit impulse at `location`, taken at
/// `index`: what the element type returns for one at the location, and for
/// zero everywhere else.
pub open spec fn yields_impulse_sample<T: Scalar>(location: int, index: int, value: T) -> bool {
    if index == location {
        yields_one(value)
    } else {
        yields_zero(value)
    }
}

/// An endless unit impulse: one sample of value one, at a fixed location,
/// among zeros.
pub struct Impulse<T> {
    /// The location at which the impulse will come.
    location: usize,
    /// The index of the sample that comes next.
    index: usize,
    #[allow(dead_code)]
    dummy: T,
}

impl<T: Scalar> Impulse<T> {
    /// The location at which the impulse comes.
    pub closed spec fn location(&self) -> nat {
        self.location as nat
    }

    /// The number of samples taken so far.
    pub closed spec fn position(&self) -> nat {
        self.index as nat
    }

    /// A generator that has given no sample yet.
    pub fn new(location: usize) -> (generator: Impulse<T>)
        ensures
            generator.location() == location,
            generator.position() == 0,
    {
        Impulse { location, index: 0, dummy: T::zero() }
    }

    /// The value of the impulse where it is not zero.
    pub fn one(&self) -> (value: T)
        ensures
            yields_one(value),
            deterministic::<T>() ==> value == one_value::<T>(),
    {
        let value = T::one();
        assert(yields_one(value));
        value
    }

    /// The next sample. There always is one, until the position no longer
    /// fits the counter.
    pub fn next(&mut self) -> (sample: Option<T>)
        requires
            old(self).position() < usize::MAX,
        ensures
            final(self).location() == old(self).location(),
            final(self).position() == old(self).position() + 1,
            sample matches Some(value) && yields_impulse_sample(
                old(self).location() as int,
                old(self).position() as int,
                value,
            ),
            deterministic::<T>() ==> sample == Some(
                impulse_sample::<T>(old(self).location() as int, old(self).position() as int),
            ),
    {
        let v: T = if self.index == self.location {
            self.one()
        } else {
            T::zero()
        };
        self.index += 1;
        Some(v)
    }
}

/// A column of `length` samples of a unit impulse at `location`.
pub fn impulse_vector<T: Scalar>(length: usize, location: usize) -> (v: Matrix<T>)
    ensures
        v.wf(),
        v.nrows() == length,
        v.ncols() == 1,
        forall|i: int|
            0 <= i < length ==> yields_impulse_sample(location as int, i, #[trigger] v@[i][0]),
        deterministic::<T>() ==> v@ == Seq::new(
            length as nat,
            |i: int| seq![impulse_sample::<T>(location as int, i)],
        ),
{
    let mut generator: Impulse<T> = Impulse::new(location);
    let mut v: Matrix<T> = Matrix::zeros(length, 1).unwrap();
    let mut i: usize = 0;
    while i < length
        invariant
            i <= length,
            v.wf(),
            v.nrows() == length,
            v.ncols() == 1,
            generator.location() == location,
            generator.position() == i,
            forall|r: int|
                0 <= r < i ==> yields_impulse_sample(location as int, r, #[trigger] v@[r][0]),
        decreases length - i,
    {
        let sample = generator.next().unwrap();
        v.set(i, 0, sample);
        i += 1;
    }
    proof {
        if deterministic::<T>() {
            let goal = Seq::new(
                length as nat,
                |i: int| seq![impulse_sample::<T>(location as int, i)],
            );
            assert forall|r: int| 0 <= r < length implies #[trigger] v@[r] =~= goal[r] by {
                assert(yields_impulse_sample(location as int, r, v@[r][0]));
            }
            assert(v@ =~= goal);
        }
    }
    v
}

} // verus!
