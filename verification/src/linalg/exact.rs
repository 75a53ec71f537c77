//! Elimination in exact arithmetic: where the element type is a field and
//! no pivot is zero, the result solves the system.
use vstd::prelude::*;
use crate::field::{
    field,
    lemma_negation_of_zero,
    lemma_one_over_one,
    lemma_product_associates,
    lemma_product_distributes,
    lemma_product_with_negation,
    lemma_product_with_one,
    lemma_product_with_zero,
    lemma_quotient_times_divisor,
    lemma_sum_associates,
    lemma_sum_cancels,
    lemma_sum_interchanges,
    lemma_sum_with_negation,
    lemma_sum_with_zero,
    lemma_zero_quotient,
};
use crate::grid::{augmented, partial_dot, rectangular, times, window};
use crate::linalg::elimination::{
    backward,
    eliminate_below,
    elimination_factor,
    forward,
    lemma_reduced_row_keeps_left,
    reduced_row,
    solution,
};
use crate::linalg::laws::{
    identity,
    lemma_backward_shape,
    lemma_forward_shape,
    lemma_identity_returns_right_hand_side,
    lemma_upper_triangular_is_back_substituted,
    upper_triangular,
    zero_multiple_added,
};
use crate::scalar::{negation, one_value, product, quotient, sum, zero_value, Scalar};

verus! {

/// `x` solves the systems that the augmented matrix `m` holds: for every
/// row, the coefficients times column `c` of `x` add up to the entry of the
/// row in column `c` of the right-hand side.
pub open spec fn solves<T: Scalar>(m: Seq<Seq<T>>, x: Seq<Seq<T>>, cols: nat) -> bool {
    forall|i: int, c: int|
        0 <= i < m.len() && 0 <= c < cols ==> #[trigger] partial_dot(
            m[i],
            x,
            c,
            0,
            m.len() as int,
        ) == m[i][m.len() + c]
}

/// No pivot that elimination divides by is zero: the diagonal of the
/// augmented matrix `m`, once forward elimination is through, holds no
/// zero.
pub open spec fn pivots_nonzero<T: Scalar>(m: Seq<Seq<T>>) -> bool {
    forall|k: int|
        0 <= k < m.len() ==> (#[trigger] forward(m, m.len())[k])[k] != zero_value::<T>()
}

/// The entries of `m` below the diagonal are zero in the columns before
/// column `k`.
pub open spec fn zero_below_diagonal<T: Scalar>(m: Seq<Seq<T>>, k: int) -> bool {
    forall|i: int, c: int| 0 <= c < k && c < i < m.len() ==> #[trigger] m[i][c] == zero_value::<T>()
}

/// A sum of products reads only the entries it runs over.
proof fn lemma_partial_dot_agrees<T: Scalar>(
    u: Seq<T>,
    v: Seq<T>,
    x: Seq<Seq<T>>,
    c: int,
    from: int,
    upto: int,
)
    requires
        forall|k: int| from <= k < upto ==> u[k] == v[k],
    ensures
        partial_dot(u, x, c, from, upto) == partial_dot(v, x, c, from, upto),
    decreases upto - from,
{
    if upto > from {
        lemma_partial_dot_agrees(u, v, x, c, from, upto - 1);
    }
}

/// Over coefficients that are zero the sum of products is zero.
proof fn lemma_partial_dot_of_zeros<T: Scalar>(u: Seq<T>, x: Seq<Seq<T>>, c: int, upto: int)
    requires
        field::<T>(),
        forall|k: int| 0 <= k < upto ==> u[k] == zero_value::<T>(),
    ensures
        partial_dot(u, x, c, 0, upto) == zero_value::<T>(),
    decreases upto,
{
    if upto > 0 {
        lemma_partial_dot_of_zeros(u, x, c, upto - 1);
        lemma_product_with_zero(x[upto - 1][c]);
        lemma_sum_with_zero(zero_value::<T>());
    }
}

/// Behind leading zeros the sum of products is the diagonal term plus the
/// sum over what follows it.
proof fn lemma_partial_dot_from_diagonal<T: Scalar>(
    u: Seq<T>,
    x: Seq<Seq<T>>,
    c: int,
    r: int,
    upto: int,
)
    requires
        field::<T>(),
        0 <= r < upto,
        forall|k: int| 0 <= k < r ==> u[k] == zero_value::<T>(),
    ensures
        partial_dot(u, x, c, 0, upto) == sum(
            product(u[r], x[r][c]),
            partial_dot(u, x, c, r + 1, upto),
        ),
    decreases upto,
{
    let head = product(u[r], x[r][c]);
    if upto == r + 1 {
        lemma_partial_dot_of_zeros(u, x, c, r);
        lemma_sum_with_zero(head);
    } else {
        lemma_partial_dot_from_diagonal(u, x, c, r, upto - 1);
        lemma_sum_associates(
            head,
            partial_dot(u, x, c, r + 1, upto - 1),
            product(u[upto - 1], x[upto - 1][c]),
        );
    }
}

/// The sum of products is linear in the coefficients.
proof fn lemma_partial_dot_of_axpy<T: Scalar>(
    u: Seq<T>,
    v: Seq<T>,
    w: Seq<T>,
    f: T,
    x: Seq<Seq<T>>,
    c: int,
    upto: int,
)
    requires
        field::<T>(),
        forall|k: int| 0 <= k < upto ==> w[k] == sum(u[k], product(f, v[k])),
    ensures
        partial_dot(w, x, c, 0, upto) == sum(
            partial_dot(u, x, c, 0, upto),
            product(f, partial_dot(v, x, c, 0, upto)),
        ),
    decreases upto,
{
    if upto <= 0 {
        lemma_product_with_zero(f);
        lemma_sum_with_zero(zero_value::<T>());
    } else {
        let k = upto - 1;
        let xk = x[k][c];
        let du = partial_dot(u, x, c, 0, k);
        let dv = partial_dot(v, x, c, 0, k);
        lemma_partial_dot_of_axpy(u, v, w, f, x, c, k);
        lemma_product_distributes(xk, u[k], product(f, v[k]));
        lemma_product_associates(f, v[k], xk);
        lemma_sum_interchanges(
            du,
            product(f, dv),
            product(u[k], xk),
            product(f, product(v[k], xk)),
        );
        lemma_product_distributes(f, dv, product(v[k], xk));
    }
}

/// Adding to an entry the multiple of a nonzero pivot that elimination
/// picks for it gives zero.
proof fn lemma_entry_cancels<T: Scalar>(x: T, p: T)
    requires
        field::<T>(),
        p != zero_value::<T>(),
    ensures
        sum(x, product(negation(quotient(x, p)), p)) == zero_value::<T>(),
{
    lemma_product_with_negation(quotient(x, p), p);
    lemma_quotient_times_divisor(x, p);
    lemma_sum_with_negation(x);
}

/// Forward elimination is through with a row once it has reached it.
proof fn lemma_forward_row_settles<T: Scalar>(m: Seq<Seq<T>>, cols: nat, k: int, steps: nat)
    requires
        rectangular(m, cols),
        0 <= k < m.len(),
        k <= steps,
    ensures
        forward(m, steps)[k] == forward(m, k as nat)[k],
    decreases steps,
{
    if steps > k {
        lemma_forward_row_settles(m, cols, k, (steps - 1) as nat);
        lemma_forward_shape(m, (steps - 1) as nat, cols);
    }
}

/// With nonzero pivots, forward elimination clears the columns it has
/// passed below the diagonal.
proof fn lemma_forward_clears<T: Scalar>(m: Seq<Seq<T>>, cols: nat, steps: nat)
    requires
        field::<T>(),
        rectangular(m, m.len() + cols),
        pivots_nonzero(m),
        steps <= m.len(),
    ensures
        zero_below_diagonal(forward(m, steps), steps as int),
    decreases steps,
{
    if steps > 0 {
        let k = steps - 1;
        let w = forward(m, k as nat);
        let next = eliminate_below(w, k);
        lemma_forward_clears(m, cols, k as nat);
        lemma_forward_shape(m, k as nat, m.len() + cols);
        lemma_forward_row_settles(m, m.len() + cols, k, m.len());
        assert(forward(m, m.len())[k][k] != zero_value::<T>());
        assert forall|i: int, c: int|
            0 <= c < steps && c < i < next.len() implies #[trigger] next[i][c]
            == zero_value::<T>() by {
            if c < k {
                assert(w[i][c] == zero_value::<T>());
            } else {
                lemma_entry_cancels(w[i][k], w[k][k]);
            }
        }
    }
}

/// What solves the systems after a step of forward elimination solves
/// them as they were before it.
proof fn lemma_solves_before_step<T: Scalar>(w: Seq<Seq<T>>, x: Seq<Seq<T>>, cols: nat, k: int)
    requires
        field::<T>(),
        rectangular(w, w.len() + cols),
        0 <= k < w.len(),
        zero_below_diagonal(w, k),
        solves(eliminate_below(w, k), x, cols),
    ensures
        solves(w, x, cols),
{
    let n = w.len() as int;
    let next = eliminate_below(w, k);
    assert(next.len() == n);
    assert forall|i: int, c: int| 0 <= i < n && 0 <= c < cols implies #[trigger] partial_dot(
        w[i],
        x,
        c,
        0,
        n,
    ) == w[i][n + c] by {
        assert(partial_dot(next[i], x, c, 0, n) == next[i][n + c]);
        if i > k {
            let f = elimination_factor(w, k, i);
            assert(partial_dot(next[k], x, c, 0, n) == next[k][n + c]);
            assert(next[k] == w[k]);
            assert forall|j: int| 0 <= j < n implies next[i][j] == sum(
                w[i][j],
                product(f, w[k][j]),
            ) by {
                if j < k {
                    assert(w[k][j] == zero_value::<T>());
                    lemma_product_with_zero(f);
                    lemma_sum_with_zero(w[i][j]);
                }
            }
            lemma_partial_dot_of_axpy(w[i], w[k], next[i], f, x, c, n);
            lemma_sum_cancels(
                partial_dot(w[i], x, c, 0, n),
                w[i][n + c],
                product(f, w[k][n + c]),
            );
        }
    }
}

/// What solves the systems after forward elimination solves them as they
/// were given.
proof fn lemma_solves_before_forward<T: Scalar>(
    m: Seq<Seq<T>>,
    x: Seq<Seq<T>>,
    cols: nat,
    steps: nat,
)
    requires
        field::<T>(),
        rectangular(m, m.len() + cols),
        pivots_nonzero(m),
        steps <= m.len(),
        solves(forward(m, steps), x, cols),
    ensures
        solves(m, x, cols),
    decreases steps,
{
    if steps > 0 {
        let k = steps - 1;
        let w = forward(m, k as nat);
        lemma_forward_shape(m, k as nat, m.len() + cols);
        lemma_forward_clears(m, cols, k as nat);
        lemma_solves_before_step(w, x, cols, k);
        lemma_solves_before_forward(m, x, cols, k as nat);
    }
}

/// Back substitution leaves the rows it has not reached, and the
/// coefficients of every row.
proof fn lemma_backward_keeps<T: Scalar>(u: Seq<Seq<T>>, cols: nat, steps: nat, j: int)
    requires
        rectangular(u, u.len() + cols),
        steps <= u.len(),
        0 <= j < u.len(),
    ensures
        j < u.len() - steps ==> backward(u, steps)[j] == u[j],
        forall|c: int| 0 <= c < u.len() ==> #[trigger] backward(u, steps)[j][c] == u[j][c],
    decreases steps,
{
    if steps > 0 {
        let before = backward(u, (steps - 1) as nat);
        lemma_backward_keeps(u, cols, (steps - 1) as nat, j);
        lemma_backward_shape(u, (steps - 1) as nat, u.len() + cols);
        lemma_reduced_row_keeps_left(before, u.len() - steps, before.len() as int);
    }
}

/// Back substitution is through with a row once it has reduced it.
proof fn lemma_backward_row_settles<T: Scalar>(u: Seq<Seq<T>>, cols: nat, steps: nat, j: int)
    requires
        rectangular(u, u.len() + cols),
        steps <= u.len(),
        0 <= j < u.len(),
        u.len() - j <= steps,
    ensures
        backward(u, steps)[j] == backward(u, (u.len() - j) as nat)[j],
    decreases steps,
{
    if steps > u.len() - j {
        lemma_backward_row_settles(u, cols, (steps - 1) as nat, j);
        lemma_backward_shape(u, (steps - 1) as nat, u.len() + cols);
    }
}

/// The balance that back substitution keeps while it reduces row `r`: the
/// pivot times the entry so far, plus the terms of the rows already taken
/// off it, is the right-hand side it started from.
proof fn lemma_reduced_row_balance<T: Scalar>(
    s: Seq<Seq<T>>,
    x: Seq<Seq<T>>,
    cols: nat,
    r: int,
    c: int,
    upto: int,
)
    requires
        field::<T>(),
        rectangular(s, s.len() + cols),
        0 <= r < s.len(),
        r + 1 <= upto <= s.len(),
        0 <= c < cols,
        s[r][r] != zero_value::<T>(),
        forall|j: int| r < j < s.len() ==> (#[trigger] s[j])[s.len() + c] == x[j][c],
    ensures
        sum(
            product(s[r][r], reduced_row(s, r, upto)[s.len() + c]),
            partial_dot(s[r], x, c, r + 1, upto),
        ) == s[r][s.len() + c],
    decreases upto,
{
    let n = s.len() as int;
    let p = s[r][r];
    let rhs = s[r][n + c];
    if upto == r + 1 {
        let inverse = quotient(one_value::<T>(), p);
        lemma_product_associates(p, inverse, rhs);
        lemma_quotient_times_divisor(one_value::<T>(), p);
        lemma_product_with_one(rhs);
        lemma_sum_with_zero(rhs);
    } else {
        let j = upto - 1;
        let y = reduced_row(s, r, j)[n + c];
        let q = quotient(s[r][j], p);
        let xj = s[j][n + c];
        let t = product(s[r][j], xj);
        let rest = partial_dot(s[r], x, c, r + 1, j);
        lemma_reduced_row_balance(s, x, cols, r, c, j);
        lemma_reduced_row_keeps_left(s, r, j);
        assert(reduced_row(s, r, upto)[n + c] == sum(y, product(negation(q), xj)));
        lemma_product_distributes(p, y, product(negation(q), xj));
        lemma_product_associates(p, negation(q), xj);
        lemma_product_with_negation(q, p);
        lemma_quotient_times_divisor(s[r][j], p);
        lemma_product_with_negation(s[r][j], xj);
        assert(product(p, reduced_row(s, r, upto)[n + c]) == sum(product(p, y), negation(t)));
        lemma_sum_interchanges(product(p, y), negation(t), rest, t);
        lemma_sum_with_negation(t);
        lemma_sum_with_zero(rhs);
    }
}

/// With zeros below a diagonal without zeros, what back substitution
/// leaves in the right-hand side solves the systems.
proof fn lemma_back_substitution_solves<T: Scalar>(u: Seq<Seq<T>>, cols: nat)
    requires
        field::<T>(),
        rectangular(u, u.len() + cols),
        zero_below_diagonal(u, u.len() as int),
        forall|k: int| 0 <= k < u.len() ==> (#[trigger] u[k])[k] != zero_value::<T>(),
    ensures
        solves(
            u,
            window(backward(u, u.len()), 0, u.len() as int, u.len() as int, cols as int),
            cols,
        ),
{
    let n = u.len() as int;
    let last = backward(u, u.len());
    let x = window(last, 0, n, n, cols as int);
    lemma_backward_shape(u, u.len(), u.len() + cols);
    assert forall|r: int, c: int| 0 <= r < n && 0 <= c < cols implies #[trigger] partial_dot(
        u[r],
        x,
        c,
        0,
        n,
    ) == u[r][n + c] by {
        let s = backward(u, (n - r - 1) as nat);
        lemma_backward_shape(u, (n - r - 1) as nat, u.len() + cols);
        lemma_backward_keeps(u, cols, (n - r - 1) as nat, r);
        lemma_backward_row_settles(u, cols, u.len(), r);
        assert(last[r] == reduced_row(s, r, n));
        assert forall|j: int| r < j < n implies (#[trigger] s[j])[n + c] == x[j][c] by {
            lemma_backward_row_settles(u, cols, (n - r - 1) as nat, j);
            lemma_backward_row_settles(u, cols, u.len(), j);
            assert(x[j][c] == last[j][n + c]);
        }
        assert(u[r][r] != zero_value::<T>());
        lemma_reduced_row_balance(s, x, cols, r, c, n);
        assert(x[r][c] == last[r][n + c]);
        assert forall|k: int| 0 <= k < r implies u[r][k] == zero_value::<T>() by {}
        lemma_partial_dot_from_diagonal(u[r], x, c, r, n);
    }
}

/// In exact arithmetic, and with no pivot zero, elimination returns a
/// solution: the coefficients times the result are the right-hand sides,
/// entry for entry.
pub proof fn lemma_solution_solves_the_system<T: Scalar>(
    a: Seq<Seq<T>>,
    b: Seq<Seq<T>>,
    cols: nat,
)
    requires
        field::<T>(),
        a.len() == b.len(),
        rectangular(a, a.len()),
        rectangular(b, cols),
        pivots_nonzero(augmented(a, b)),
    ensures
        times(a, solution(a, b, cols), cols) == b,
{
    let n = a.len();
    let m = augmented(a, b);
    let u = forward(m, n);
    let x = solution(a, b, cols);
    lemma_forward_shape(m, n, n + cols);
    lemma_forward_clears(m, cols, n);
    assert forall|k: int| 0 <= k < u.len() implies (#[trigger] u[k])[k] != zero_value::<T>() by {
        assert(forward(m, m.len())[k][k] != zero_value::<T>());
    }
    lemma_back_substitution_solves(u, cols);
    lemma_solves_before_forward(m, x, cols, n);
    let ax = times(a, x, cols);
    assert forall|i: int| 0 <= i < n implies #[trigger] ax[i] =~= b[i] by {
        assert forall|c: int| 0 <= c < cols implies ax[i][c] == b[i][c] by {
            lemma_partial_dot_agrees(a[i], m[i], x, c, 0, n as int);
            assert(partial_dot(m[i], x, c, 0, n as int) == m[i][n + c]);
        }
    }
    assert(ax =~= b);
}

/// In a field, adding the multiple of `y` that cancels a zero under a
/// pivot that is not zero leaves `x` as it is.
pub proof fn lemma_zero_multiple_vanishes<T: Scalar>(x: T, p: T, y: T)
    requires
        field::<T>(),
        p != zero_value::<T>(),
    ensures
        zero_multiple_added(x, p, y) == x,
{
    lemma_zero_quotient(p);
    lemma_negation_of_zero::<T>();
    lemma_product_with_zero(y);
    lemma_sum_with_zero(x);
}

/// In exact arithmetic, for coefficients that are upper triangular with no
/// zero on the diagonal, forward elimination changes nothing, and the
/// solution is what back substitution makes of the matrices as they were
/// given.
pub proof fn lemma_upper_triangular_in_a_field<T: Scalar>(
    a: Seq<Seq<T>>,
    b: Seq<Seq<T>>,
    cols: nat,
)
    requires
        field::<T>(),
        a.len() == b.len(),
        rectangular(a, a.len()),
        rectangular(b, cols),
        upper_triangular(a),
        forall|k: int| 0 <= k < a.len() ==> (#[trigger] a[k])[k] != zero_value::<T>(),
    ensures
        forward(augmented(a, b), a.len()) == augmented(a, b),
        solution(a, b, cols) == window(
            backward(augmented(a, b), a.len()),
            0,
            a.len() as int,
            a.len() as int,
            cols as int,
        ),
{
    let m = augmented(a, b);
    assert forall|k: int, i: int, c: int|
        0 <= k < i < m.len() && k <= c < m[i].len() implies #[trigger] zero_multiple_added(
        m[i][c],
        m[k][k],
        m[k][c],
    ) == m[i][c] by {
        assert(m[k][k] == a[k][k]);
        lemma_zero_multiple_vanishes(m[i][c], m[k][k], m[k][c]);
    }
    lemma_upper_triangular_is_back_substituted(a, b, cols);
}

/// In exact arithmetic, for the identity as coefficients the solution is
/// the right-hand side itself.
pub proof fn lemma_identity_in_a_field<T: Scalar>(a: Seq<Seq<T>>, b: Seq<Seq<T>>, cols: nat)
    requires
        field::<T>(),
        a.len() == b.len(),
        rectangular(a, a.len()),
        rectangular(b, cols),
        identity(a),
    ensures
        solution(a, b, cols) == b,
{
    let m = augmented(a, b);
    let one = one_value::<T>();
    assert(one != zero_value::<T>()) by {
        reveal(field);
    }
    assert forall|k: int| 0 <= k < m.len() implies (#[trigger] m[k])[k] == one by {
        assert(m[k][k] == a[k][k]);
    }
    assert forall|k: int, i: int, c: int|
        0 <= k < i < m.len() && k <= c < m[i].len() implies #[trigger] zero_multiple_added(
        m[i][c],
        m[k][k],
        m[k][c],
    ) == m[i][c] by {
        assert(m[k][k] == one);
        lemma_zero_multiple_vanishes(m[i][c], m[k][k], m[k][c]);
    }
    assert forall|r: int, j: int, c: int|
        0 <= r < j < m.len() && m.len() <= c < m[r].len() implies #[trigger] zero_multiple_added(
        m[r][c],
        m[r][r],
        m[j][c],
    ) == m[r][c] by {
        assert(m[r][r] == one);
        lemma_zero_multiple_vanishes(m[r][c], m[r][r], m[j][c]);
    }
    assert forall|r: int, c: int|
        0 <= r < m.len() && m.len() <= c < m[r].len() implies #[trigger] product(
        quotient(one_value::<T>(), m[r][r]),
        m[r][c],
    ) == m[r][c] by {
        assert(m[r][r] == one);
        lemma_one_over_one::<T>();
        lemma_product_with_one(m[r][c]);
    }
    lemma_identity_returns_right_hand_side(a, b, cols);
}

} // verus!
