//! Matrices as mathematical values: a sequence of rows, each a sequence of
//! entries. The functions here say what the elementary row operations make of
//! such a value.
use vstd::prelude::*;
use crate::scalar::{
    deterministic,
    product,
    sum,
    yields_product,
    yields_sum,
    zero_value,
    Scalar,
};

verus! {

/// Every row of `m` has `cols` entries.
pub open spec fn rectangular<T>(m: Seq<Seq<T>>, cols: nat) -> bool {
    forall|i: int| 0 <= i < m.len() ==> (#[trigger] m[i]).len() == cols
}

/// `row` with the entries in columns `from..to` multiplied by `factor`.
pub open spec fn scale_row<T: Scalar>(row: Seq<T>, factor: T, from: int, to: int) -> Seq<T> {
    Seq::new(
        row.len(),
        |c: int|
            if from <= c < to {
                product(factor, row[c])
            } else {
                row[c]
            },
    )
}

/// `dst` with `factor` times the entry of `src` added, in columns `from..to`.
pub open spec fn axpy_row<T: Scalar>(
    dst: Seq<T>,
    src: Seq<T>,
    factor: T,
    from: int,
    to: int,
) -> Seq<T> {
    Seq::new(
        dst.len(),
        |c: int|
            if from <= c < to {
                sum(dst[c], product(factor, src[c]))
            } else {
                dst[c]
            },
    )
}

/// Adding `f` times `y` to `x` may give `r`: the product first, then the
/// sum.
pub open spec fn yields_axpy<T: Scalar>(x: T, f: T, y: T, r: T) -> bool {
    exists|p: T| #[trigger] yields_product(f, y, p) && yields_sum(x, p, r)
}

/// Multiplying the entries of `row` in columns `from..to` by `factor` may
/// give `out`. The other entries stay.
pub open spec fn row_scales_to<T: Scalar>(
    row: Seq<T>,
    factor: T,
    from: int,
    to: int,
    out: Seq<T>,
) -> bool {
    &&& out.len() == row.len()
    &&& forall|c: int|
        0 <= c < row.len() ==> if from <= c < to {
            yields_product(factor, row[c], #[trigger] out[c])
        } else {
            out[c] == row[c]
        }
}

/// Adding `factor` times the entry of `src` to the entries of `dst` in
/// columns `from..to` may give `out`. The other entries stay.
pub open spec fn row_adds_to<T: Scalar>(
    dst: Seq<T>,
    src: Seq<T>,
    factor: T,
    from: int,
    to: int,
    out: Seq<T>,
) -> bool {
    &&& out.len() == dst.len()
    &&& forall|c: int|
        0 <= c < dst.len() ==> if from <= c < to {
            yields_axpy(dst[c], factor, src[c], #[trigger] out[c])
        } else {
            out[c] == dst[c]
        }
}

/// Where the arithmetic is deterministic, a row can be scaled to one row
/// only.
pub proof fn lemma_row_scales_to_one<T: Scalar>(
    row: Seq<T>,
    factor: T,
    from: int,
    to: int,
    out: Seq<T>,
)
    requires
        deterministic::<T>(),
        row_scales_to(row, factor, from, to, out),
    ensures
        out == scale_row(row, factor, from, to),
{
    assert(out =~= scale_row(row, factor, from, to));
}

/// Where the arithmetic is deterministic, adding a multiple of a row to a
/// row can give one row only.
pub proof fn lemma_row_adds_to_one<T: Scalar>(
    dst: Seq<T>,
    src: Seq<T>,
    factor: T,
    from: int,
    to: int,
    out: Seq<T>,
)
    requires
        deterministic::<T>(),
        row_adds_to(dst, src, factor, from, to, out),
    ensures
        out == axpy_row(dst, src, factor, from, to),
{
    assert forall|c: int| 0 <= c < dst.len() implies out[c] == axpy_row(
        dst,
        src,
        factor,
        from,
        to,
    )[c] by {
        if from <= c < to {
            assert(yields_axpy(dst[c], factor, src[c], out[c]));
            let p = choose|p: T| #[trigger]
                yields_product(factor, src[c], p) && yields_sum(dst[c], p, out[c]);
            assert(p == product(factor, src[c]));
        }
    }
    assert(out =~= axpy_row(dst, src, factor, from, to));
}

/// `m` after row `row` was scaled by `factor` in columns `from..to`.
pub open spec fn row_scaled<T: Scalar>(
    m: Seq<Seq<T>>,
    row: int,
    factor: T,
    from: int,
    to: int,
) -> Seq<Seq<T>> {
    m.update(row, scale_row(m[row], factor, from, to))
}

/// `m` after `factor` times row `src` was added to row `dst` in columns
/// `from..to`.
pub open spec fn row_added<T: Scalar>(
    m: Seq<Seq<T>>,
    src: int,
    dst: int,
    factor: T,
    from: int,
    to: int,
) -> Seq<Seq<T>> {
    m.update(dst, axpy_row(m[dst], m[src], factor, from, to))
}

/// The rows `row..row + rows` of `m`, cut to the columns `col..col + cols`.
pub open spec fn window<T>(m: Seq<Seq<T>>, row: int, col: int, rows: int, cols: int) -> Seq<
    Seq<T>,
> {
    Seq::new(rows as nat, |i: int| m[row + i].subrange(col, col + cols))
}

/// `a` with the columns of `b` appended on the right.
pub open spec fn augmented<T>(a: Seq<Seq<T>>, b: Seq<Seq<T>>) -> Seq<Seq<T>> {
    Seq::new(a.len(), |i: int| a[i] + b[i])
}

/// Column `j` of `m`, as a matrix of one column.
pub open spec fn column<T>(m: Seq<Seq<T>>, j: int) -> Seq<Seq<T>> {
    Seq::new(m.len(), |i: int| seq![m[i][j]])
}

/// The sum of `u[k] * x[k][c]` over `k` in `from..upto`, added up from the
/// lowest `k` on.
pub open spec fn partial_dot<T: Scalar>(
    u: Seq<T>,
    x: Seq<Seq<T>>,
    c: int,
    from: int,
    upto: int,
) -> T
    decreases upto - from,
{
    if upto <= from {
        zero_value::<T>()
    } else {
        sum(partial_dot(u, x, c, from, upto - 1), product(u[upto - 1], x[upto - 1][c]))
    }
}

/// The matrix product of the square matrix `a` and `x`, which has `cols`
/// columns.
pub open spec fn times<T: Scalar>(a: Seq<Seq<T>>, x: Seq<Seq<T>>, cols: nat) -> Seq<Seq<T>> {
    Seq::new(
        a.len(),
        |i: int| Seq::new(cols, |c: int| partial_dot(a[i], x, c, 0, a.len() as int)),
    )
}

} // verus!
