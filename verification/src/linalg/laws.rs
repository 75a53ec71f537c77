//! What holds of elimination whatever the element type makes of its
//! arithmetic, and what holds once adding a multiple of zero leaves a value
//! as it is.
use vstd::prelude::*;
use crate::grid::{augmented, column, rectangular, window};
use crate::linalg::elimination::{
    backward,
    eliminate_below,
    elimination_factor,
    forward,
    lemma_reduced_row_keeps_left,
    reduced,
    reduced_row,
    solution,
    substitute_row,
};
use crate::scalar::{negation, one_value, product, quotient, sum, zero_value, Scalar};

verus! {

/// A step of forward elimination keeps the shape of the matrix.
pub proof fn lemma_eliminate_below_shape<T: Scalar>(m: Seq<Seq<T>>, k: int, cols: nat)
    requires
        rectangular(m, cols),
    ensures
        eliminate_below(m, k).len() == m.len(),
        rectangular(eliminate_below(m, k), cols),
{
}

/// Forward elimination keeps the shape of the matrix.
pub proof fn lemma_forward_shape<T: Scalar>(m: Seq<Seq<T>>, steps: nat, cols: nat)
    requires
        rectangular(m, cols),
    ensures
        forward(m, steps).len() == m.len(),
        rectangular(forward(m, steps), cols),
    decreases steps,
{
    if steps > 0 {
        lemma_forward_shape(m, (steps - 1) as nat, cols);
        lemma_eliminate_below_shape(forward(m, (steps - 1) as nat), steps - 1, cols);
    }
}

/// Back substitution keeps the shape of the matrix.
pub proof fn lemma_backward_shape<T: Scalar>(m: Seq<Seq<T>>, steps: nat, cols: nat)
    requires
        rectangular(m, cols),
        steps <= m.len(),
    ensures
        backward(m, steps).len() == m.len(),
        rectangular(backward(m, steps), cols),
    decreases steps,
{
    if steps > 0 {
        let before = backward(m, (steps - 1) as nat);
        lemma_backward_shape(m, (steps - 1) as nat, cols);
        lemma_reduced_row_keeps_left(before, m.len() - steps, before.len() as int);
    }
}

/// The `n` coefficient columns of the augmented matrix `m` together with
/// the one right-hand side in column `n + j`.
pub open spec fn single_system<T>(m: Seq<Seq<T>>, n: int, j: int) -> Seq<Seq<T>> {
    Seq::new(m.len(), |i: int| m[i].subrange(0, n).push(m[i][n + j]))
}

/// Picking one right-hand side of the augmented matrix is augmenting with
/// that column alone.
proof fn lemma_single_system_of_augmented<T: Scalar>(
    a: Seq<Seq<T>>,
    b: Seq<Seq<T>>,
    cols: nat,
    j: int,
)
    requires
        a.len() == b.len(),
        rectangular(a, a.len()),
        rectangular(b, cols),
        0 <= j < cols,
    ensures
        single_system(augmented(a, b), a.len() as int, j) == augmented(a, column(b, j)),
{
    assert(single_system(augmented(a, b), a.len() as int, j) =~~= augmented(a, column(b, j)));
}

/// A step of forward elimination treats each right-hand side by itself.
proof fn lemma_single_system_eliminate<T: Scalar>(m: Seq<Seq<T>>, cols: nat, j: int, k: int)
    requires
        rectangular(m, m.len() + cols),
        0 <= j < cols,
        0 <= k < m.len(),
    ensures
        single_system(eliminate_below(m, k), m.len() as int, j) == eliminate_below(
            single_system(m, m.len() as int, j),
            k,
        ),
{
    let n = m.len() as int;
    let one = single_system(m, n, j);
    let left = single_system(eliminate_below(m, k), n, j);
    let right = eliminate_below(one, k);
    assert forall|i: int| 0 <= i < n implies #[trigger] left[i] =~= right[i] by {
        assert(elimination_factor(one, k, i) == elimination_factor(m, k, i));
    }
    assert(left =~= right);
}

/// Forward elimination treats each right-hand side by itself.
proof fn lemma_single_system_forward<T: Scalar>(m: Seq<Seq<T>>, cols: nat, j: int, steps: nat)
    requires
        rectangular(m, m.len() + cols),
        0 <= j < cols,
        steps <= m.len(),
    ensures
        single_system(forward(m, steps), m.len() as int, j) == forward(
            single_system(m, m.len() as int, j),
            steps,
        ),
    decreases steps,
{
    if steps > 0 {
        let before = forward(m, (steps - 1) as nat);
        lemma_single_system_forward(m, cols, j, (steps - 1) as nat);
        lemma_forward_shape(m, (steps - 1) as nat, m.len() + cols);
        lemma_single_system_eliminate(before, cols, j, steps - 1);
    }
}

/// The reduction of a row treats each right-hand side by itself.
proof fn lemma_single_system_reduced_row<T: Scalar>(
    m: Seq<Seq<T>>,
    cols: nat,
    j: int,
    r: int,
    upto: int,
)
    requires
        rectangular(m, m.len() + cols),
        0 <= j < cols,
        0 <= r < m.len(),
        upto <= m.len(),
    ensures
        reduced_row(m, r, upto).len() == m.len() + cols,
        reduced_row(m, r, upto).subrange(0, m.len() as int).push(
            reduced_row(m, r, upto)[m.len() + j],
        ) == reduced_row(single_system(m, m.len() as int, j), r, upto),
    decreases upto - r,
{
    let n = m.len() as int;
    let one = single_system(m, n, j);
    lemma_reduced_row_keeps_left(m, r, upto);
    if upto > r + 1 {
        lemma_single_system_reduced_row(m, cols, j, r, upto - 1);
        lemma_reduced_row_keeps_left(m, r, upto - 1);
        lemma_reduced_row_keeps_left(one, r, upto - 1);
        let inner = reduced_row(m, r, upto - 1);
        let inner_one = reduced_row(one, r, upto - 1);
        assert(inner_one[n] == inner.subrange(0, n).push(inner[n + j])[n]);
    }
    assert(reduced_row(m, r, upto).subrange(0, n).push(reduced_row(m, r, upto)[n + j])
        =~= reduced_row(one, r, upto));
}

/// Back substitution treats each right-hand side by itself.
proof fn lemma_single_system_backward<T: Scalar>(m: Seq<Seq<T>>, cols: nat, j: int, steps: nat)
    requires
        rectangular(m, m.len() + cols),
        0 <= j < cols,
        steps <= m.len(),
    ensures
        single_system(backward(m, steps), m.len() as int, j) == backward(
            single_system(m, m.len() as int, j),
            steps,
        ),
    decreases steps,
{
    if steps > 0 {
        let n = m.len() as int;
        let before = backward(m, (steps - 1) as nat);
        lemma_single_system_backward(m, cols, j, (steps - 1) as nat);
        lemma_backward_shape(m, (steps - 1) as nat, m.len() + cols);
        lemma_single_system_reduced_row(before, cols, j, n - steps, n);
        assert(single_system(substitute_row(before, n - steps), n, j) =~= substitute_row(
            single_system(before, n, j),
            n - steps,
        ));
    }
}

/// Each column of the solution is the solution for that column of the
/// right-hand sides alone: solving for several right-hand sides at once and
/// solving for them one by one give the same entries.
pub proof fn lemma_columns_are_independent<T: Scalar>(
    a: Seq<Seq<T>>,
    b: Seq<Seq<T>>,
    cols: nat,
    j: int,
)
    requires
        a.len() == b.len(),
        rectangular(a, a.len()),
        rectangular(b, cols),
        0 <= j < cols,
    ensures
        solution(a, column(b, j), 1) == column(solution(a, b, cols), j),
{
    let n = a.len();
    let m = augmented(a, b);
    let one = augmented(a, column(b, j));
    lemma_single_system_of_augmented(a, b, cols, j);
    lemma_single_system_forward(m, cols, j, n);
    lemma_forward_shape(m, n, n + cols);
    lemma_single_system_backward(forward(m, n), cols, j, n);
    lemma_backward_shape(forward(m, n), n, n + cols);
    assert(single_system(reduced(m), n as int, j) == reduced(one));
    assert(solution(a, column(b, j), 1) =~~= column(solution(a, b, cols), j));
}

/// The solutions for the columns of `b`, each solved for alone, side by
/// side.
pub open spec fn solved_by_columns<T: Scalar>(a: Seq<Seq<T>>, b: Seq<Seq<T>>, cols: nat) -> Seq<
    Seq<T>,
> {
    Seq::new(
        a.len(),
        |i: int| Seq::new(cols, |j: int| solution(a, column(b, j), 1)[i][0]),
    )
}

/// Solving for several right-hand sides at once is solving for each of them
/// alone and putting the solutions side by side.
pub proof fn lemma_solution_by_columns<T: Scalar>(a: Seq<Seq<T>>, b: Seq<Seq<T>>, cols: nat)
    requires
        a.len() == b.len(),
        rectangular(a, a.len()),
        rectangular(b, cols),
    ensures
        solution(a, b, cols) == solved_by_columns(a, b, cols),
{
    let n = a.len();
    let m = augmented(a, b);
    lemma_forward_shape(m, n, n + cols);
    lemma_backward_shape(forward(m, n), n, n + cols);
    let whole = solution(a, b, cols);
    let gathered = solved_by_columns(a, b, cols);
    assert forall|i: int| 0 <= i < n implies #[trigger] whole[i] =~= gathered[i] by {
        assert forall|j: int| 0 <= j < cols implies whole[i][j] == gathered[i][j] by {
            lemma_columns_are_independent(a, b, cols, j);
            assert(column(whole, j)[i][0] == whole[i][j]);
        }
    }
    assert(whole =~= gathered);
}

/// Every entry of `a` below the diagonal is the zero of the element type.
pub open spec fn upper_triangular<T: Scalar>(a: Seq<Seq<T>>) -> bool {
    forall|i: int, j: int| 0 <= j < i < a.len() ==> #[trigger] a[i][j] == zero_value::<T>()
}

/// `a` has the one of the element type on its diagonal and its zero
/// everywhere else.
pub open spec fn identity<T: Scalar>(a: Seq<Seq<T>>) -> bool {
    forall|i: int, j: int|
        0 <= i < a.len() && 0 <= j < a.len() ==> #[trigger] a[i][j] == if i == j {
            one_value::<T>()
        } else {
            zero_value::<T>()
        }
}

/// `x` after the multiple of `y` was added that cancels a zero under the
/// pivot `p`.
pub open spec fn zero_multiple_added<T: Scalar>(x: T, p: T, y: T) -> T {
    sum(x, product(negation(quotient(zero_value::<T>(), p)), y))
}

/// Where forward elimination adds a multiple of zero to an entry of `m`, the
/// entry stays as it is: for every pivot row, every row below it, and every
/// column from the pivot's on.
pub open spec fn absorbs_zero_multiples_below<T: Scalar>(m: Seq<Seq<T>>) -> bool {
    forall|k: int, i: int, c: int|
        0 <= k < i < m.len() && k <= c < m[i].len() ==> #[trigger] zero_multiple_added(
            m[i][c],
            m[k][k],
            m[k][c],
        ) == m[i][c]
}

/// Where back substitution adds a multiple of zero to an entry of the
/// right-hand side of `m`, the entry stays as it is: for every row, every
/// row below it, and every column of the right-hand side.
pub open spec fn absorbs_zero_multiples_above<T: Scalar>(m: Seq<Seq<T>>) -> bool {
    forall|r: int, j: int, c: int|
        0 <= r < j < m.len() && m.len() <= c < m[r].len() ==> #[trigger] zero_multiple_added(
            m[r][c],
            m[r][r],
            m[j][c],
        ) == m[r][c]
}

/// Dividing one by the pivot of a row and multiplying the right-hand side
/// of that row by the result leaves it as it is.
pub open spec fn pivots_scale_to_same<T: Scalar>(m: Seq<Seq<T>>) -> bool {
    forall|r: int, c: int|
        0 <= r < m.len() && m.len() <= c < m[r].len() ==> #[trigger] product(
            quotient(one_value::<T>(), m[r][r]),
            m[r][c],
        ) == m[r][c]
}

/// Forward elimination leaves a matrix that is upper triangular and
/// absorbs the zero multiples as it is.
proof fn lemma_forward_of_upper_triangular<T: Scalar>(m: Seq<Seq<T>>, cols: nat, steps: nat)
    requires
        rectangular(m, m.len() + cols),
        upper_triangular(m),
        absorbs_zero_multiples_below(m),
        steps <= m.len(),
    ensures
        forward(m, steps) == m,
    decreases steps,
{
    if steps > 0 {
        let k = steps - 1;
        lemma_forward_of_upper_triangular(m, cols, k as nat);
        let next = eliminate_below(m, k);
        assert forall|i: int| 0 <= i < m.len() implies #[trigger] next[i] =~= m[i] by {
            if i > k {
                assert(m[i][k] == zero_value::<T>());
                assert forall|c: int| k <= c < m[i].len() implies next[i][c] == m[i][c] by {
                    assert(zero_multiple_added(m[i][c], m[k][k], m[k][c]) == m[i][c]);
                }
            }
        }
        assert(next =~= m);
    }
}

/// For coefficients that are upper triangular already, forward elimination
/// changes nothing, and the solution is what back substitution makes of
/// the matrices as they were given.
///
/// Forward elimination still adds to each entry below a pivot row a
/// multiple of zero. The law is stated of the matrices on which those
/// additions leave every entry as it is.
pub proof fn lemma_upper_triangular_is_back_substituted<T: Scalar>(
    a: Seq<Seq<T>>,
    b: Seq<Seq<T>>,
    cols: nat,
)
    requires
        a.len() == b.len(),
        rectangular(a, a.len()),
        rectangular(b, cols),
        upper_triangular(a),
        absorbs_zero_multiples_below(augmented(a, b)),
    ensures
        forward(augmented(a, b), a.len()) == augmented(a, b),
        solution(a, b, cols) == window(
            backward(augmented(a, b), a.len()),
            0,
            a.len() as int,
            a.len() as int,
            cols as int,
        ),
{
    let m = augmented(a, b);
    assert forall|i: int, j: int| 0 <= j < i < m.len() implies #[trigger] m[i][j] == zero_value::<
        T,
    >() by {
        assert(a[i][j] == zero_value::<T>());
    }
    lemma_forward_of_upper_triangular(m, cols, a.len());
}

/// Under the identity, the reduction of a row leaves the row as it is.
proof fn lemma_reduced_row_of_identity<T: Scalar>(m: Seq<Seq<T>>, cols: nat, r: int, upto: int)
    requires
        rectangular(m, m.len() + cols),
        identity(m),
        absorbs_zero_multiples_above(m),
        pivots_scale_to_same(m),
        0 <= r < m.len(),
        upto <= m.len(),
    ensures
        reduced_row(m, r, upto) == m[r],
    decreases upto - r,
{
    let n = m.len() as int;
    if upto > r + 1 {
        let j = upto - 1;
        lemma_reduced_row_of_identity(m, cols, r, j);
        assert(m[r][j] == zero_value::<T>());
        assert forall|c: int| n <= c < m[r].len() implies reduced_row(m, r, upto)[c]
            == m[r][c] by {
            assert(zero_multiple_added(m[r][c], m[r][r], m[j][c]) == m[r][c]);
        }
    } else {
        assert forall|c: int| n <= c < m[r].len() implies reduced_row(m, r, upto)[c]
            == m[r][c] by {
            assert(product(quotient(one_value::<T>(), m[r][r]), m[r][c]) == m[r][c]);
        }
    }
    assert(reduced_row(m, r, upto) =~= m[r]);
}

/// Under the identity, back substitution leaves the matrix as it is.
proof fn lemma_backward_of_identity<T: Scalar>(m: Seq<Seq<T>>, cols: nat, steps: nat)
    requires
        rectangular(m, m.len() + cols),
        identity(m),
        absorbs_zero_multiples_above(m),
        pivots_scale_to_same(m),
        steps <= m.len(),
    ensures
        backward(m, steps) == m,
    decreases steps,
{
    if steps > 0 {
        lemma_backward_of_identity(m, cols, (steps - 1) as nat);
        lemma_reduced_row_of_identity(m, cols, m.len() - steps, m.len() as int);
        assert(substitute_row(m, m.len() - steps) =~= m);
    }
}

/// For the identity as coefficients the solution is the right-hand side
/// itself.
///
/// Elimination still divides one by one, multiplies each entry by the
/// result and adds multiples of zero to it. The law is stated of the
/// right-hand sides on which these operations leave every entry as it is.
pub proof fn lemma_identity_returns_right_hand_side<T: Scalar>(
    a: Seq<Seq<T>>,
    b: Seq<Seq<T>>,
    cols: nat,
)
    requires
        a.len() == b.len(),
        rectangular(a, a.len()),
        rectangular(b, cols),
        identity(a),
        absorbs_zero_multiples_below(augmented(a, b)),
        absorbs_zero_multiples_above(augmented(a, b)),
        pivots_scale_to_same(augmented(a, b)),
    ensures
        solution(a, b, cols) == b,
{
    let m = augmented(a, b);
    assert forall|i: int, j: int| 0 <= i < m.len() && 0 <= j < m.len() implies #[trigger] m[i][j]
        == if i == j {
        one_value::<T>()
    } else {
        zero_value::<T>()
    } by {
        assert(m[i][j] == a[i][j]);
    }
    lemma_forward_of_upper_triangular(m, cols, a.len());
    lemma_backward_of_identity(m, cols, a.len());
    assert(solution(a, b, cols) =~~= b);
}

} // verus!
