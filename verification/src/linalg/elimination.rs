//! What Gaussian elimination computes, step by step, on a matrix taken as a
//! mathematical value.
//!
//! No rows are exchanged and no pivot is tested: a pivot that is zero is
//! divided by like any other, and what the element type makes of that
//! division flows on into the result.
//!
//! Each step is stated twice. The functions (`forward`, `backward`,
//! `solution`) give the matrix that a step makes where the arithmetic is
//! deterministic. The predicates beside them (`forward_yields`,
//! `backward_yields`, `eliminates_to`) relate a matrix to every matrix that
//! the step may make of it, whatever the arithmetic returns.
use vstd::prelude::*;
use crate::grid::{
    augmented,
    axpy_row,
    lemma_row_adds_to_one,
    lemma_row_scales_to_one,
    row_adds_to,
    row_scales_to,
    scale_row,
    window,
};
use crate::scalar::{
    deterministic,
    negation,
    one_value,
    quotient,
    yields_negation,
    yields_one,
    yields_quotient,
    Scalar,
};

verus! {

/// The factor by which a row with the pivot `p` is added to a row so that
/// its entry `x` under the pivot is cancelled: the negative of `x` over
/// `p`.
pub open spec fn cancelling_factor<T: Scalar>(x: T, p: T) -> T {
    negation(quotient(x, p))
}

/// Dividing `x` by `p` and negating the quotient may give `f`.
pub open spec fn yields_cancelling_factor<T: Scalar>(x: T, p: T, f: T) -> bool {
    exists|q: T| #[trigger] yields_quotient(x, p, q) && yields_negation(q, f)
}

/// One over the pivot `p`.
pub open spec fn reciprocal<T: Scalar>(p: T) -> T {
    quotient(one_value::<T>(), p)
}

/// Dividing the one of the element type by `p` may give `f`.
pub open spec fn yields_reciprocal<T: Scalar>(p: T, f: T) -> bool {
    exists|o: T| #[trigger] yields_one(o) && yields_quotient(o, p, f)
}

/// The factor by which the pivot row `k` is added to row `i` so that the
/// entry of row `i` in column `k` is cancelled.
pub open spec fn elimination_factor<T: Scalar>(m: Seq<Seq<T>>, k: int, i: int) -> T {
    cancelling_factor(m[i][k], m[k][k])
}

/// `m` after the rows between row `k` and row `upto` had their multiple of
/// row `k` subtracted, from column `k` to the last column. The other rows
/// stay.
pub open spec fn eliminate_rows<T: Scalar>(m: Seq<Seq<T>>, k: int, upto: int) -> Seq<Seq<T>> {
    Seq::new(
        m.len(),
        |i: int|
            if k < i < upto {
                axpy_row(m[i], m[k], elimination_factor(m, k, i), k, m[i].len() as int)
            } else {
                m[i]
            },
    )
}

/// One step of forward elimination: column `k` is cancelled in every row
/// below row `k`.
pub open spec fn eliminate_below<T: Scalar>(m: Seq<Seq<T>>, k: int) -> Seq<Seq<T>> {
    eliminate_rows(m, k, m.len() as int)
}

/// `m` after the elimination steps for the pivots `0..steps`, in ascending
/// order.
pub open spec fn forward<T: Scalar>(m: Seq<Seq<T>>, steps: nat) -> Seq<Seq<T>>
    decreases steps,
{
    if steps == 0 {
        m
    } else {
        eliminate_below(forward(m, (steps - 1) as nat), steps - 1)
    }
}

/// Row `r` of `m` during back substitution: its right-hand side, the
/// columns from `m.len()` on, divided by the pivot and then relieved of the
/// rows `r + 1..upto`, one after the other. The factor of each row is the
/// entry of row `r` in that row's column over the pivot as it was before
/// the division.
pub open spec fn reduced_row<T: Scalar>(m: Seq<Seq<T>>, r: int, upto: int) -> Seq<T>
    decreases upto - r,
{
    let n = m.len() as int;
    let cols = m[r].len() as int;
    if upto <= r + 1 {
        scale_row(m[r], reciprocal(m[r][r]), n, cols)
    } else {
        axpy_row(
            reduced_row(m, r, upto - 1),
            m[upto - 1],
            cancelling_factor(m[r][upto - 1], m[r][r]),
            n,
            cols,
        )
    }
}

/// One step of back substitution: row `r` is replaced by its reduced form.
pub open spec fn substitute_row<T: Scalar>(m: Seq<Seq<T>>, r: int) -> Seq<Seq<T>> {
    m.update(r, reduced_row(m, r, m.len() as int))
}

/// `m` after the last `steps` rows went through back substitution, from the
/// bottom row upwards.
pub open spec fn backward<T: Scalar>(m: Seq<Seq<T>>, steps: nat) -> Seq<Seq<T>>
    decreases steps,
{
    if steps == 0 {
        m
    } else {
        substitute_row(backward(m, (steps - 1) as nat), m.len() - steps)
    }
}

/// The augmented matrix after forward elimination and back substitution.
pub open spec fn reduced<T: Scalar>(m: Seq<Seq<T>>) -> Seq<Seq<T>> {
    backward(forward(m, m.len()), m.len())
}

/// What elimination returns for the coefficients `a` and the right-hand
/// sides `b`, which has `cols` columns: the right block of the reduced
/// augmented matrix.
pub open spec fn solution<T: Scalar>(a: Seq<Seq<T>>, b: Seq<Seq<T>>, cols: nat) -> Seq<Seq<T>> {
    window(reduced(augmented(a, b)), 0, a.len() as int, a.len() as int, cols as int)
}

/// Subtracting from row `i` of `m` its multiple of row `k`, from column `k`
/// on, may give `out`.
pub open spec fn row_eliminates_to<T: Scalar>(m: Seq<Seq<T>>, k: int, i: int, out: Seq<T>) -> bool {
    exists|f: T| #[trigger]
        yields_cancelling_factor(m[i][k], m[k][k], f) && row_adds_to(
            m[i],
            m[k],
            f,
            k,
            m[i].len() as int,
            out,
        )
}

/// Cancelling column `k` in the rows between row `k` and row `upto` may
/// make `out` of `m`. The other rows stay.
pub open spec fn rows_eliminate_to<T: Scalar>(
    m: Seq<Seq<T>>,
    k: int,
    upto: int,
    out: Seq<Seq<T>>,
) -> bool {
    &&& out.len() == m.len()
    &&& forall|i: int|
        0 <= i < m.len() ==> if k < i < upto {
            row_eliminates_to(m, k, i, #[trigger] out[i])
        } else {
            out[i] == m[i]
        }
}

/// The elimination steps for the pivots `0..steps` may make `out` of `m`.
pub open spec fn forward_yields<T: Scalar>(m: Seq<Seq<T>>, steps: nat, out: Seq<Seq<T>>) -> bool
    decreases steps,
{
    if steps == 0 {
        out == m
    } else {
        exists|w: Seq<Seq<T>>|
            forward_yields(m, (steps - 1) as nat, w) && #[trigger] rows_eliminate_to(
                w,
                steps - 1,
                w.len() as int,
                out,
            )
    }
}

/// Dividing the right-hand side of row `r` of `m` by the pivot and
/// relieving it of the rows `r + 1..upto` may give `out`.
pub open spec fn row_reduces_to<T: Scalar>(m: Seq<Seq<T>>, r: int, upto: int, out: Seq<T>) -> bool
    decreases upto - r,
{
    let n = m.len() as int;
    let cols = m[r].len() as int;
    if upto <= r + 1 {
        exists|f: T| #[trigger]
            yields_reciprocal(m[r][r], f) && row_scales_to(m[r], f, n, cols, out)
    } else {
        exists|before: Seq<T>, f: T| #[trigger]
            row_adds_to(before, m[upto - 1], f, n, cols, out) && row_reduces_to(
                m,
                r,
                upto - 1,
                before,
            ) && yields_cancelling_factor(m[r][upto - 1], m[r][r], f)
    }
}

/// Back substitution on row `r` may make `out` of `m`. The other rows
/// stay.
pub open spec fn row_substitutes_to<T: Scalar>(m: Seq<Seq<T>>, r: int, out: Seq<Seq<T>>) -> bool {
    &&& out.len() == m.len()
    &&& forall|i: int| 0 <= i < m.len() && i != r ==> #[trigger] out[i] == m[i]
    &&& row_reduces_to(m, r, m.len() as int, out[r])
}

/// Back substitution on the last `steps` rows, from the bottom row
/// upwards, may make `out` of `m`.
pub open spec fn backward_yields<T: Scalar>(m: Seq<Seq<T>>, steps: nat, out: Seq<Seq<T>>) -> bool
    decreases steps,
{
    if steps == 0 {
        out == m
    } else {
        exists|w: Seq<Seq<T>>|
            backward_yields(m, (steps - 1) as nat, w) && #[trigger] row_substitutes_to(
                w,
                m.len() - steps,
                out,
            )
    }
}

/// Elimination may return `x` for the coefficients `a` and the right-hand
/// sides `b`, which has `cols` columns.
pub open spec fn eliminates_to<T: Scalar>(
    a: Seq<Seq<T>>,
    b: Seq<Seq<T>>,
    cols: nat,
    x: Seq<Seq<T>>,
) -> bool {
    exists|echelon: Seq<Seq<T>>, last: Seq<Seq<T>>|
        forward_yields(augmented(a, b), a.len(), echelon) && #[trigger] backward_yields(
            echelon,
            a.len(),
            last,
        ) && x == window(last, 0, a.len() as int, a.len() as int, cols as int)
}

/// Back substitution leaves the coefficients of a row alone, and its length.
pub proof fn lemma_reduced_row_keeps_left<T: Scalar>(m: Seq<Seq<T>>, r: int, upto: int)
    ensures
        reduced_row(m, r, upto).len() == m[r].len(),
        forall|c: int|
            0 <= c < m.len() && c < m[r].len() ==> #[trigger] reduced_row(m, r, upto)[c] == m[r][c],
    decreases upto - r,
{
    if upto > r + 1 {
        lemma_reduced_row_keeps_left(m, r, upto - 1);
    }
}

/// Whatever the arithmetic returns, back substitution leaves the
/// coefficients of a row alone, and its length.
pub proof fn lemma_row_reduces_to_keeps_left<T: Scalar>(
    m: Seq<Seq<T>>,
    r: int,
    upto: int,
    out: Seq<T>,
)
    requires
        row_reduces_to(m, r, upto, out),
    ensures
        out.len() == m[r].len(),
        forall|c: int| 0 <= c < m.len() && c < m[r].len() ==> #[trigger] out[c] == m[r][c],
    decreases upto - r,
{
    let n = m.len() as int;
    let cols = m[r].len() as int;
    if upto > r + 1 {
        let (before, f) = choose|before: Seq<T>, f: T| #[trigger]
            row_adds_to(before, m[upto - 1], f, n, cols, out) && row_reduces_to(
                m,
                r,
                upto - 1,
                before,
            ) && yields_cancelling_factor(m[r][upto - 1], m[r][r], f);
        lemma_row_reduces_to_keeps_left(m, r, upto - 1, before);
    }
}

/// Where the arithmetic is deterministic, there is one cancelling factor.
pub proof fn lemma_one_cancelling_factor<T: Scalar>(x: T, p: T, f: T)
    requires
        deterministic::<T>(),
        yields_cancelling_factor(x, p, f),
    ensures
        f == cancelling_factor(x, p),
{
}

/// Where the arithmetic is deterministic, there is one reciprocal.
pub proof fn lemma_one_reciprocal<T: Scalar>(p: T, f: T)
    requires
        deterministic::<T>(),
        yields_reciprocal(p, f),
    ensures
        f == reciprocal(p),
{
}

/// Where the arithmetic is deterministic, an elimination step makes one
/// matrix.
pub proof fn lemma_rows_eliminate_to_one<T: Scalar>(
    m: Seq<Seq<T>>,
    k: int,
    upto: int,
    out: Seq<Seq<T>>,
)
    requires
        deterministic::<T>(),
        rows_eliminate_to(m, k, upto, out),
    ensures
        out == eliminate_rows(m, k, upto),
{
    let goal = eliminate_rows(m, k, upto);
    assert forall|i: int| 0 <= i < m.len() implies #[trigger] out[i] == goal[i] by {
        if k < i < upto {
            assert(row_eliminates_to(m, k, i, out[i]));
            let f = choose|f: T| #[trigger]
                yields_cancelling_factor(m[i][k], m[k][k], f) && row_adds_to(
                    m[i],
                    m[k],
                    f,
                    k,
                    m[i].len() as int,
                    out[i],
                );
            lemma_one_cancelling_factor(m[i][k], m[k][k], f);
            lemma_row_adds_to_one(m[i], m[k], f, k, m[i].len() as int, out[i]);
        }
    }
    assert(out =~= goal);
}

/// Where the arithmetic is deterministic, forward elimination makes one
/// matrix.
pub proof fn lemma_forward_yields_one<T: Scalar>(m: Seq<Seq<T>>, steps: nat, out: Seq<Seq<T>>)
    requires
        deterministic::<T>(),
        forward_yields(m, steps, out),
    ensures
        out == forward(m, steps),
    decreases steps,
{
    if steps > 0 {
        let w = choose|w: Seq<Seq<T>>|
            forward_yields(m, (steps - 1) as nat, w) && #[trigger] rows_eliminate_to(
                w,
                steps - 1,
                w.len() as int,
                out,
            );
        lemma_forward_yields_one(m, (steps - 1) as nat, w);
        lemma_rows_eliminate_to_one(w, steps - 1, w.len() as int, out);
    }
}

/// Where the arithmetic is deterministic, a row is reduced to one row.
pub proof fn lemma_row_reduces_to_one<T: Scalar>(m: Seq<Seq<T>>, r: int, upto: int, out: Seq<T>)
    requires
        deterministic::<T>(),
        row_reduces_to(m, r, upto, out),
    ensures
        out == reduced_row(m, r, upto),
    decreases upto - r,
{
    let n = m.len() as int;
    let cols = m[r].len() as int;
    if upto <= r + 1 {
        let f = choose|f: T| #[trigger]
            yields_reciprocal(m[r][r], f) && row_scales_to(m[r], f, n, cols, out);
        lemma_one_reciprocal(m[r][r], f);
        lemma_row_scales_to_one(m[r], f, n, cols, out);
    } else {
        let (before, f) = choose|before: Seq<T>, f: T| #[trigger]
            row_adds_to(before, m[upto - 1], f, n, cols, out) && row_reduces_to(
                m,
                r,
                upto - 1,
                before,
            ) && yields_cancelling_factor(m[r][upto - 1], m[r][r], f);
        lemma_row_reduces_to_one(m, r, upto - 1, before);
        lemma_one_cancelling_factor(m[r][upto - 1], m[r][r], f);
        lemma_row_adds_to_one(before, m[upto - 1], f, n, cols, out);
    }
}

/// Where the arithmetic is deterministic, back substitution makes one
/// matrix.
pub proof fn lemma_backward_yields_one<T: Scalar>(m: Seq<Seq<T>>, steps: nat, out: Seq<Seq<T>>)
    requires
        deterministic::<T>(),
        steps <= m.len(),
        backward_yields(m, steps, out),
    ensures
        out == backward(m, steps),
        out.len() == m.len(),
    decreases steps,
{
    if steps > 0 {
        let r = m.len() - steps;
        let w = choose|w: Seq<Seq<T>>|
            backward_yields(m, (steps - 1) as nat, w) && #[trigger] row_substitutes_to(w, r, out);
        lemma_backward_yields_one(m, (steps - 1) as nat, w);
        lemma_row_reduces_to_one(w, r, w.len() as int, out[r]);
        assert(out =~= substitute_row(w, r));
    }
}

/// Where the arithmetic is deterministic, elimination can return one
/// matrix only: the solution.
pub proof fn lemma_eliminates_to_one<T: Scalar>(
    a: Seq<Seq<T>>,
    b: Seq<Seq<T>>,
    cols: nat,
    x: Seq<Seq<T>>,
)
    requires
        deterministic::<T>(),
        eliminates_to(a, b, cols, x),
    ensures
        x == solution(a, b, cols),
{
    let n = a.len();
    let m = augmented(a, b);
    let (echelon, last) = choose|echelon: Seq<Seq<T>>, last: Seq<Seq<T>>|
        forward_yields(m, n, echelon) && #[trigger] backward_yields(echelon, n, last) && x
            == window(last, 0, n as int, n as int, cols as int);
    lemma_forward_yields_one(m, n, echelon);
    lemma_forward_keeps_len(m, n);
    lemma_backward_yields_one(echelon, n, last);
}

/// Forward elimination keeps the number of rows.
pub proof fn lemma_forward_keeps_len<T: Scalar>(m: Seq<Seq<T>>, steps: nat)
    ensures
        forward(m, steps).len() == m.len(),
    decreases steps,
{
    if steps > 0 {
        lemma_forward_keeps_len(m, (steps - 1) as nat);
    }
}

} // verus!
