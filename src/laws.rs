use vstd::prelude::*;

use crate::arithmetic::{difference_of, dot, ints, negation_of, product_of, same_shape, sum_of};
use crate::matrix::{column_of, swap_columns, swap_rows, Matrix};

verus! {

/// Reading cell (r, c) through row `r` or through column `c` gives the cell itself.
pub proof fn lemma_row_and_column_agree<T: Copy>(m: &Matrix<T>, r: int, c: int)
    requires
        m.wf(),
        0 <= r < m.num_rows(),
        0 <= c < m.num_columns(),
    ensures
        m@[r].len() == m.num_columns(),
        column_of(m@, c).len() == m.num_rows(),
        m@[r][c] == column_of(m@, c)[r],
{
    m.lemma_view_shape();
}

/// After writing `v` at (r, c), the cell reads back `v` and every other cell is unchanged.
pub proof fn lemma_set_then_get<T: Copy>(m: &Matrix<T>, r: int, c: int, v: T)
    requires
        m.wf(),
        0 <= r < m.num_rows(),
        0 <= c < m.num_columns(),
    ensures
        ({
            let s = m@;
            let rows = m.num_rows() as int;
            let cols = m.num_columns() as int;
            let t = s.update(r, s[r].update(c, v));
            &&& t[r][c] == v
            &&& forall|r2: int, c2: int|
                0 <= r2 < rows && 0 <= c2 < cols && (r2 != r || c2 != c) ==> #[trigger] t[r2][c2] == s[r2][c2]
        }),
{
    m.lemma_view_shape();
}

/// Exchanging the same two rows twice restores the matrix.
pub proof fn lemma_exchange_rows_twice<T: Copy>(m: &Matrix<T>, a: int, b: int)
    requires
        m.wf(),
        0 <= a < m.num_rows(),
        0 <= b < m.num_rows(),
    ensures
        swap_rows(swap_rows(m@, a, b), a, b) == m@,
{
    m.lemma_view_shape();
    let s = m@;
    assert(swap_rows(swap_rows(s, a, b), a, b) =~= s);
}

/// Exchanging the same two columns twice restores the matrix.
pub proof fn lemma_exchange_columns_twice<T: Copy>(m: &Matrix<T>, a: int, b: int)
    requires
        m.wf(),
        0 <= a < m.num_columns(),
        0 <= b < m.num_columns(),
    ensures
        swap_columns(swap_columns(m@, a, b), a, b) == m@,
{
    m.lemma_view_shape();
    let s = m@;
    let rows = m.num_rows() as int;
    let t = swap_columns(swap_columns(s, a, b), a, b);
    assert forall|r: int| 0 <= r < rows implies #[trigger] t[r] =~= s[r] by {}
    assert(t =~= s);
}

/// Matrix addition is commutative.
pub proof fn lemma_add_commutes(x: &Matrix<i64>, y: &Matrix<i64>)
    requires
        x.wf(),
        y.wf(),
        same_shape(x, y),
    ensures
        sum_of(ints(x@), ints(y@)) == sum_of(ints(y@), ints(x@)),
{
    x.lemma_view_shape();
    y.lemma_view_shape();
    let a = ints(x@);
    let b = ints(y@);
    let rows = x.num_rows() as int;
    assert forall|r: int| 0 <= r < rows implies #[trigger] sum_of(a, b)[r] =~= sum_of(b, a)[r] by {}
    assert(sum_of(a, b) =~= sum_of(b, a));
}

/// `a - b` is the negation of `b - a`.
pub proof fn lemma_sub_antisymmetric(x: &Matrix<i64>, y: &Matrix<i64>)
    requires
        x.wf(),
        y.wf(),
        same_shape(x, y),
    ensures
        difference_of(ints(x@), ints(y@)) == negation_of(difference_of(ints(y@), ints(x@))),
{
    x.lemma_view_shape();
    y.lemma_view_shape();
    let a = ints(x@);
    let b = ints(y@);
    let rows = x.num_rows() as int;
    assert forall|r: int| 0 <= r < rows implies #[trigger] difference_of(a, b)[r] =~= negation_of(difference_of(b, a))[r] by {}
    assert(difference_of(a, b) =~= negation_of(difference_of(b, a)));
}

/// Row `i` of `a` against column `l` of `b * c` (with no terms of `c` yet) is zero.
proof fn lemma_dot_empty_product(a: Seq<Seq<int>>, b: Seq<Seq<int>>, c: Seq<Seq<int>>, i: int, l: int, m: int, q: int)
    requires
        0 <= m <= b.len(),
        0 <= l < q,
    ensures
        dot(a, product_of(b, c, 0, q), i, l, m) == 0,
    decreases m,
{
    if m > 0 {
        lemma_dot_empty_product(a, b, c, i, l, m - 1, q);
        assert(product_of(b, c, 0, q)[m - 1][l] == 0);
    }
}

/// Extending the inner sum of `b * c` by term `p` adds `(a b)[i][p] * c[p][l]`.
proof fn lemma_dot_extend(a: Seq<Seq<int>>, b: Seq<Seq<int>>, c: Seq<Seq<int>>, i: int, l: int, m: int, p: int, q: int)
    requires
        0 <= m <= b.len(),
        0 <= p,
        0 <= l < q,
    ensures
        dot(a, product_of(b, c, p + 1, q), i, l, m)
            == dot(a, product_of(b, c, p, q), i, l, m) + dot(a, b, i, p, m) * c[p][l],
    decreases m,
{
    if m > 0 {
        lemma_dot_extend(a, b, c, i, l, m - 1, p, q);
        let j = m - 1;
        let x = product_of(b, c, p, q)[j][l];
        assert(product_of(b, c, p + 1, q)[j][l] == x + b[j][p] * c[p][l]);
        let s1 = dot(a, product_of(b, c, p, q), i, l, j);
        let d = dot(a, b, i, p, j);
        let aij = a[i][j];
        let bjp = b[j][p];
        let cpl = c[p][l];
        assert(s1 + d * cpl + aij * (x + bjp * cpl) == (s1 + aij * x) + (d + aij * bjp) * cpl) by (nonlinear_arith);
    }
}

/// Row `i` of `(a b)` against column `l` of `c` equals row `i` of `a` against column `l` of `(b c)`.
proof fn lemma_dot_associates(a: Seq<Seq<int>>, b: Seq<Seq<int>>, c: Seq<Seq<int>>, i: int, l: int, m: int, p: int, q: int)
    requires
        0 <= i < a.len(),
        b.len() == m,
        0 <= p <= c.len(),
        0 <= l < q,
    ensures
        dot(product_of(a, b, m, p), c, i, l, p) == dot(a, product_of(b, c, p, q), i, l, m),
    decreases p,
{
    if p == 0 {
        lemma_dot_empty_product(a, b, c, i, l, m, q);
    } else {
        lemma_dot_associates(a, b, c, i, l, m, p - 1, q);
        lemma_dot_extend(a, b, c, i, l, m, p - 1, q);
        assert(dot(product_of(a, b, m, p), c, i, l, p - 1) == dot(product_of(a, b, m, p - 1), c, i, l, p - 1)) by {
            lemma_dot_prefix(product_of(a, b, m, p), product_of(a, b, m, p - 1), c, i, l, p - 1);
        }
    }
}

/// `dot` over the first `k` terms reads only the first `k` cells of row `i`.
proof fn lemma_dot_prefix(x: Seq<Seq<int>>, y: Seq<Seq<int>>, c: Seq<Seq<int>>, i: int, l: int, k: int)
    requires
        0 <= i < x.len(),
        x.len() == y.len(),
        forall|j: int| 0 <= j < k ==> #[trigger] x[i][j] == y[i][j],
    ensures
        dot(x, c, i, l, k) == dot(y, c, i, l, k),
    decreases k,
{
    if k > 0 {
        lemma_dot_prefix(x, y, c, i, l, k - 1);
    }
}

/// Matrix multiplication is associative.
pub proof fn lemma_mul_associative(x: &Matrix<i64>, y: &Matrix<i64>, z: &Matrix<i64>)
    requires
        x.wf(),
        y.wf(),
        z.wf(),
        x.num_columns() == y.num_rows(),
        y.num_columns() == z.num_rows(),
    ensures
        ({
            let m = x.num_columns() as int;
            let p = y.num_columns() as int;
            let q = z.num_columns() as int;
            product_of(product_of(ints(x@), ints(y@), m, p), ints(z@), p, q)
                == product_of(ints(x@), product_of(ints(y@), ints(z@), p, q), m, q)
        }),
{
    x.lemma_view_shape();
    y.lemma_view_shape();
    z.lemma_view_shape();
    let a = ints(x@);
    let b = ints(y@);
    let c = ints(z@);
    let n = x.num_rows() as int;
    let m = x.num_columns() as int;
    let p = y.num_columns() as int;
    let q = z.num_columns() as int;
    let lhs = product_of(product_of(a, b, m, p), c, p, q);
    let rhs = product_of(a, product_of(b, c, p, q), m, q);
    assert forall|i: int| 0 <= i < n implies #[trigger] lhs[i] =~= rhs[i] by {
        assert forall|l: int| 0 <= l < q implies #[trigger] lhs[i][l] == rhs[i][l] by {
            lemma_dot_associates(a, b, c, i, l, m, p, q);
        }
    }
    assert(lhs =~= rhs);
}

} // verus!
