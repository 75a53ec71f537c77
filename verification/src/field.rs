//! Exact arithmetic: the laws of a field, as a hypothesis on an element
//! type, and what follows from them.
//!
//! Rounded arithmetic does not obey these laws. They are what a residual of
//! exactly zero takes.
use vstd::prelude::*;
use crate::scalar::{negation, one_value, product, quotient, sum, zero_value, Scalar};

verus! {

/// The operations of `T` obey the laws of a field: addition and
/// multiplication are commutative and associative, zero and one are their
/// identities and differ, every element has a negative, multiplication
/// distributes over addition, and a quotient times its divisor is the
/// dividend unless the divisor is zero.
#[verifier::opaque]
pub open spec fn field<T: Scalar>() -> bool {
    &&& one_value::<T>() != zero_value::<T>()
    &&& forall|a: T, b: T| #[trigger] sum(a, b) == sum(b, a)
    &&& forall|a: T, b: T, c: T| #[trigger] sum(sum(a, b), c) == sum(a, sum(b, c))
    &&& forall|a: T| #[trigger] sum(a, zero_value::<T>()) == a
    &&& forall|a: T| #[trigger] sum(a, negation(a)) == zero_value::<T>()
    &&& forall|a: T, b: T| #[trigger] product(a, b) == product(b, a)
    &&& forall|a: T, b: T, c: T| #[trigger] product(product(a, b), c) == product(a, product(b, c))
    &&& forall|a: T| #[trigger] product(a, one_value::<T>()) == a
    &&& forall|a: T, b: T, c: T| #[trigger]
        product(a, sum(b, c)) == sum(product(a, b), product(a, c))
    &&& forall|a: T, b: T|
        b != zero_value::<T>() ==> #[trigger] product(quotient(a, b), b) == a
}

/// Addition is commutative.
pub proof fn lemma_sum_commutes<T: Scalar>(a: T, b: T)
    requires
        field::<T>(),
    ensures
        sum(a, b) == sum(b, a),
{
    reveal(field);
}

/// Addition is associative.
pub proof fn lemma_sum_associates<T: Scalar>(a: T, b: T, c: T)
    requires
        field::<T>(),
    ensures
        sum(sum(a, b), c) == sum(a, sum(b, c)),
{
    reveal(field);
}

/// Zero is the identity of addition, on either side.
pub proof fn lemma_sum_with_zero<T: Scalar>(a: T)
    requires
        field::<T>(),
    ensures
        sum(a, zero_value::<T>()) == a,
        sum(zero_value::<T>(), a) == a,
{
    reveal(field);
}

/// An element and its negative add up to zero, in either order.
pub proof fn lemma_sum_with_negation<T: Scalar>(a: T)
    requires
        field::<T>(),
    ensures
        sum(a, negation(a)) == zero_value::<T>(),
        sum(negation(a), a) == zero_value::<T>(),
{
    reveal(field);
}

/// Multiplication is commutative.
pub proof fn lemma_product_commutes<T: Scalar>(a: T, b: T)
    requires
        field::<T>(),
    ensures
        product(a, b) == product(b, a),
{
    reveal(field);
}

/// Multiplication is associative.
pub proof fn lemma_product_associates<T: Scalar>(a: T, b: T, c: T)
    requires
        field::<T>(),
    ensures
        product(product(a, b), c) == product(a, product(b, c)),
{
    reveal(field);
}

/// One is the identity of multiplication, on either side.
pub proof fn lemma_product_with_one<T: Scalar>(a: T)
    requires
        field::<T>(),
    ensures
        product(a, one_value::<T>()) == a,
        product(one_value::<T>(), a) == a,
{
    reveal(field);
}

/// Multiplication distributes over addition, from either side.
pub proof fn lemma_product_distributes<T: Scalar>(a: T, b: T, c: T)
    requires
        field::<T>(),
    ensures
        product(a, sum(b, c)) == sum(product(a, b), product(a, c)),
        product(sum(b, c), a) == sum(product(b, a), product(c, a)),
{
    reveal(field);
}

/// A quotient times its divisor is the dividend, in either order.
pub proof fn lemma_quotient_times_divisor<T: Scalar>(a: T, b: T)
    requires
        field::<T>(),
        b != zero_value::<T>(),
    ensures
        product(quotient(a, b), b) == a,
        product(b, quotient(a, b)) == a,
{
    reveal(field);
}

/// Equal sums with an equal second term have equal first terms.
pub proof fn lemma_sum_cancels<T: Scalar>(a: T, b: T, c: T)
    requires
        field::<T>(),
        sum(a, c) == sum(b, c),
    ensures
        a == b,
{
    lemma_sum_associates(a, c, negation(c));
    lemma_sum_associates(b, c, negation(c));
    lemma_sum_with_negation(c);
    lemma_sum_with_zero(a);
    lemma_sum_with_zero(b);
}

/// `(a + b) + (c + d) == (a + c) + (b + d)`.
pub proof fn lemma_sum_interchanges<T: Scalar>(a: T, b: T, c: T, d: T)
    requires
        field::<T>(),
    ensures
        sum(sum(a, b), sum(c, d)) == sum(sum(a, c), sum(b, d)),
{
    lemma_sum_associates(a, b, sum(c, d));
    lemma_sum_associates(b, c, d);
    lemma_sum_commutes(b, c);
    lemma_sum_associates(c, b, d);
    lemma_sum_associates(a, c, sum(b, d));
}

/// A product with zero is zero.
pub proof fn lemma_product_with_zero<T: Scalar>(a: T)
    requires
        field::<T>(),
    ensures
        product(a, zero_value::<T>()) == zero_value::<T>(),
        product(zero_value::<T>(), a) == zero_value::<T>(),
{
    let zero = zero_value::<T>();
    lemma_sum_with_zero(zero);
    lemma_product_distributes(a, zero, zero);
    lemma_sum_with_zero(product(a, zero));
    lemma_sum_cancels(zero, product(a, zero), product(a, zero));
    lemma_product_commutes(a, zero);
}

/// The negative of a factor is the negative of the product.
pub proof fn lemma_product_with_negation<T: Scalar>(a: T, b: T)
    requires
        field::<T>(),
    ensures
        product(negation(a), b) == negation(product(a, b)),
        product(b, negation(a)) == negation(product(a, b)),
{
    lemma_product_distributes(b, negation(a), a);
    lemma_sum_with_negation(a);
    lemma_product_with_zero(b);
    lemma_sum_with_negation(product(a, b));
    lemma_product_commutes(b, a);
    lemma_product_commutes(b, negation(a));
    lemma_sum_cancels(product(negation(a), b), negation(product(a, b)), product(a, b));
}

/// Zero over a divisor that is not zero is zero.
pub proof fn lemma_zero_quotient<T: Scalar>(p: T)
    requires
        field::<T>(),
        p != zero_value::<T>(),
    ensures
        quotient(zero_value::<T>(), p) == zero_value::<T>(),
{
    let q = quotient(zero_value::<T>(), p);
    let inverse = quotient(one_value::<T>(), p);
    lemma_quotient_times_divisor(zero_value::<T>(), p);
    lemma_quotient_times_divisor(one_value::<T>(), p);
    lemma_product_with_one(q);
    lemma_product_associates(q, p, inverse);
    lemma_product_with_zero(inverse);
}

/// One over one is one.
pub proof fn lemma_one_over_one<T: Scalar>()
    requires
        field::<T>(),
    ensures
        quotient(one_value::<T>(), one_value::<T>()) == one_value::<T>(),
{
    reveal(field);
    lemma_quotient_times_divisor(one_value::<T>(), one_value::<T>());
    lemma_product_with_one(quotient(one_value::<T>(), one_value::<T>()));
}

/// The negative of zero is zero.
pub proof fn lemma_negation_of_zero<T: Scalar>()
    requires
        field::<T>(),
    ensures
        negation(zero_value::<T>()) == zero_value::<T>(),
{
    lemma_sum_with_negation(zero_value::<T>());
    lemma_sum_with_zero(negation(zero_value::<T>()));
}

} // verus!
