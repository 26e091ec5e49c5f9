use vstd::prelude::*;

use crate::matrix::{Matrix, MatrixError};

verus! {

/// Whether `x` is a value of `i64`.
pub open spec fn fits(x: int) -> bool {
    i64::MIN <= x <= i64::MAX
}

/// The cells of `s` as mathematical integers.
pub open spec fn ints(s: Seq<Seq<i64>>) -> Seq<Seq<int>> {
    Seq::new(s.len(), |r: int| Seq::new(s[r].len(), |c: int| s[r][c] as int))
}

/// Cell-wise sum, shaped like `a`.
pub open spec fn sum_of(a: Seq<Seq<int>>, b: Seq<Seq<int>>) -> Seq<Seq<int>> {
    Seq::new(a.len(), |r: int| Seq::new(a[r].len(), |c: int| a[r][c] + b[r][c]))
}

/// Cell-wise difference, shaped like `a`.
pub open spec fn difference_of(a: Seq<Seq<int>>, b: Seq<Seq<int>>) -> Seq<Seq<int>> {
    Seq::new(a.len(), |r: int| Seq::new(a[r].len(), |c: int| a[r][c] - b[r][c]))
}

/// Every cell negated.
pub open spec fn negation_of(a: Seq<Seq<int>>) -> Seq<Seq<int>> {
    Seq::new(a.len(), |r: int| Seq::new(a[r].len(), |c: int| -a[r][c]))
}

/// Every cell of `s` is a value of `i64`.
pub open spec fn all_fit(s: Seq<Seq<int>>) -> bool {
    forall|r: int, c: int| 0 <= r < s.len() && 0 <= c < s[r].len() ==> fits(#[trigger] s[r][c])
}

/// Sum of the first `m` products `a[i][j] * b[j][k]`.
pub open spec fn dot(a: Seq<Seq<int>>, b: Seq<Seq<int>>, i: int, k: int, m: int) -> int
    decreases m,
{
    if m <= 0 {
        0
    } else {
        dot(a, b, i, k, m - 1) + a[i][m - 1] * b[m - 1][k]
    }
}

/// The matrix product of `a` (with `inner` columns) and `b` (with `cols` columns).
pub open spec fn product_of(a: Seq<Seq<int>>, b: Seq<Seq<int>>, inner: int, cols: int) -> Seq<Seq<int>> {
    Seq::new(a.len(), |i: int| Seq::new(cols as nat, |k: int| dot(a, b, i, k, inner)))
}

/// The `j`-th product for cell (`i`, `k`), and the running sum through it, are values of `i64`.
pub open spec fn step_fits(a: Seq<Seq<int>>, b: Seq<Seq<int>>, i: int, k: int, j: int) -> bool {
    &&& fits(a[i][j] * b[j][k])
    &&& fits(dot(a, b, i, k, j + 1))
}

/// Every product and every running sum met while multiplying `a` by `b` is a value of `i64`.
pub open spec fn product_fits(a: Seq<Seq<int>>, b: Seq<Seq<int>>, inner: int, cols: int) -> bool {
    forall|i: int, k: int, j: int|
        0 <= i < a.len() && 0 <= k < cols && 0 <= j < inner ==> #[trigger] step_fits(a, b, i, k, j)
}

/// Whether two matrices have the same number of rows and of columns.
pub open spec fn same_shape(a: &Matrix<i64>, b: &Matrix<i64>) -> bool {
    a.num_rows() == b.num_rows() && a.num_columns() == b.num_columns()
}

impl Matrix<i64> {
    /// The cell-wise sum of two matrices of the same shape.
    pub fn add(self, other: Self) -> (res: Result<Self, MatrixError>)
        requires
            self.wf(),
            other.wf(),
        ensures
            !same_shape(&self, &other) ==> res == Err::<Self, MatrixError>(MatrixError::SizeMismatch),
            same_shape(&self, &other) && !all_fit(sum_of(ints(self@), ints(other@))) ==> res == Err::<Self, MatrixError>(MatrixError::Overflow),
            same_shape(&self, &other) && all_fit(sum_of(ints(self@), ints(other@))) ==> (res matches Ok(m)
                && m.wf() && same_shape(&m, &self) && ints(m@) == sum_of(ints(self@), ints(other@))),
    {
        if self.rows() != other.rows() || self.columns() != other.columns() {
            return Err(MatrixError::SizeMismatch);
        }
        self.combine(other, true)
    }

    /// The cell-wise difference `self - other` of two matrices of the same shape.
    pub fn sub(self, other: Self) -> (res: Result<Self, MatrixError>)
        requires
            self.wf(),
            other.wf(),
        ensures
            !same_shape(&self, &other) ==> res == Err::<Self, MatrixError>(MatrixError::SizeMismatch),
            same_shape(&self, &other) && !all_fit(difference_of(ints(self@), ints(other@))) ==> res == Err::<Self, MatrixError>(MatrixError::Overflow),
            same_shape(&self, &other) && all_fit(difference_of(ints(self@), ints(other@))) ==> (res matches Ok(m)
                && m.wf() && same_shape(&m, &self) && ints(m@) == difference_of(ints(self@), ints(other@))),
    {
        if self.rows() != other.rows() || self.columns() != other.columns() {
            return Err(MatrixError::SizeMismatch);
        }
        self.combine(other, false)
    }

    /// The matrix product `self * other`.
    pub fn mul(self, other: Self) -> (res: Result<Self, MatrixError>)
        requires
            self.wf(),
            other.wf(),
            self.num_rows() * other.num_columns() <= usize::MAX,
        ensures
            self.num_columns() != other.num_rows() ==> res == Err::<Self, MatrixError>(MatrixError::DimensionMismatch),
            self.num_columns() == other.num_rows() && !product_fits(ints(self@), ints(other@), self.num_columns() as int, other.num_columns() as int)
                ==> res == Err::<Self, MatrixError>(MatrixError::Overflow),
            self.num_columns() == other.num_rows() && product_fits(ints(self@), ints(other@), self.num_columns() as int, other.num_columns() as int)
                ==> (res matches Ok(m) && m.wf() && m.num_rows() == self.num_rows() && m.num_columns() == other.num_columns()
                    && ints(m@) == product_of(ints(self@), ints(other@), self.num_columns() as int, other.num_columns() as int)),
    {
        if self.columns() != other.rows() {
            return Err(MatrixError::DimensionMismatch);
        }
        let ghost a = ints(self@);
        let ghost b = ints(other@);
        let rows = self.rows();
        let inner = self.columns();
        let cols = other.columns();
        proof {
            self.lemma_view_shape();
            other.lemma_view_shape();
        }
        let mut out = Matrix::new(rows, cols, 0i64);
        let mut i: usize = 0;
        while i < rows
            invariant
                self.wf(),
                other.wf(),
                out.wf(),
                a == ints(self@),
                b == ints(other@),
                rows == self.num_rows(),
                inner == self.num_columns(),
                inner == other.num_rows(),
                cols == other.num_columns(),
                out.num_rows() == rows,
                out.num_columns() == cols,
                i <= rows,
                forall|i2: int, k2: int| 0 <= i2 < i && 0 <= k2 < cols ==> #[trigger] out@[i2][k2] == dot(a, b, i2, k2, inner as int),
                forall|i2: int, k2: int, j2: int| 0 <= i2 < i && 0 <= k2 < cols && 0 <= j2 < inner ==> #[trigger] step_fits(a, b, i2, k2, j2),
            decreases rows - i,
        {
            let mut k: usize = 0;
            while k < cols
                invariant
                    self.wf(),
                    other.wf(),
                    out.wf(),
                    a == ints(self@),
                    b == ints(other@),
                    rows == self.num_rows(),
                    inner == self.num_columns(),
                    inner == other.num_rows(),
                    cols == other.num_columns(),
                    out.num_rows() == rows,
                    out.num_columns() == cols,
                    i < rows,
                    k <= cols,
                    forall|i2: int, k2: int| 0 <= i2 < i && 0 <= k2 < cols ==> #[trigger] out@[i2][k2] == dot(a, b, i2, k2, inner as int),
                    forall|k2: int| 0 <= k2 < k ==> #[trigger] out@[i as int][k2] == dot(a, b, i as int, k2, inner as int),
                    forall|i2: int, k2: int, j2: int| 0 <= i2 < i && 0 <= k2 < cols && 0 <= j2 < inner ==> #[trigger] step_fits(a, b, i2, k2, j2),
                    forall|k2: int, j2: int| 0 <= k2 < k && 0 <= j2 < inner ==> #[trigger] step_fits(a, b, i as int, k2, j2),
                decreases cols - k,
            {
                let mut acc: i64 = 0;
                let mut j: usize = 0;
                while j < inner
                    invariant
                        self.wf(),
                        other.wf(),
                        a == ints(self@),
                        b == ints(other@),
                        rows == self.num_rows(),
                        inner == self.num_columns(),
                        inner == other.num_rows(),
                        cols == other.num_columns(),
                        i < rows,
                        k < cols,
                        j <= inner,
                        acc == dot(a, b, i as int, k as int, j as int),
                        forall|j2: int| 0 <= j2 < j ==> #[trigger] step_fits(a, b, i as int, k as int, j2),
                    decreases inner - j,
                {
                    proof {
                        self.lemma_view_shape();
                        other.lemma_view_shape();
                    }
                    let x = self.get(i, j).unwrap();
                    let y = other.get(j, k).unwrap();
                    assert(a[i as int][j as int] == x && b[j as int][k as int] == y);
                    let p = x.checked_mul(y);
                    if p.is_none() {
                        assert(!step_fits(a, b, i as int, k as int, j as int));
                        return Err(MatrixError::Overflow);
                    }
                    let p = p.unwrap();
                    let s = acc.checked_add(p);
                    assert(dot(a, b, i as int, k as int, j + 1) == acc + p);
                    if s.is_none() {
                        assert(!step_fits(a, b, i as int, k as int, j as int));
                        return Err(MatrixError::Overflow);
                    }
                    acc = s.unwrap();
                    j = j + 1;
                }
                proof { out.lemma_view_shape(); }
                let ghost before = out@;
                let _ = out.set(i, k, acc);
                proof {
                    assert forall|i2: int, k2: int| 0 <= i2 < i && 0 <= k2 < cols implies #[trigger] out@[i2][k2] == dot(a, b, i2, k2, inner as int) by {
                        assert(out@[i2] == before[i2]);
                    }
                }
                k = k + 1;
            }
            i = i + 1;
        }
        proof {
            out.lemma_view_shape();
            let want = product_of(a, b, inner as int, cols as int);
            assert forall|i2: int| 0 <= i2 < rows implies #[trigger] ints(out@)[i2] =~= want[i2] by {
                assert forall|k2: int| 0 <= k2 < cols implies #[trigger] ints(out@)[i2][k2] == want[i2][k2] by {
                    assert(out@[i2][k2] == dot(a, b, i2, k2, inner as int));
                }
            }
            assert(ints(out@) =~= want);
        }
        Ok(out)
    }

    /// The cell-wise sum (when `plus`) or difference of two matrices of the same shape.
    fn combine(self, other: Self, plus: bool) -> (res: Result<Self, MatrixError>)
        requires
            self.wf(),
            other.wf(),
            same_shape(&self, &other),
        ensures
            ({
                let want = if plus { sum_of(ints(self@), ints(other@)) } else { difference_of(ints(self@), ints(other@)) };
                &&& all_fit(want) ==> (res matches Ok(m) && m.wf() && same_shape(&m, &self) && ints(m@) == want)
                &&& !all_fit(want) ==> res == Err::<Self, MatrixError>(MatrixError::Overflow)
            }),
    {
        let ghost want = if plus { sum_of(ints(self@), ints(other@)) } else { difference_of(ints(self@), ints(other@)) };
        proof {
            self.lemma_view_shape();
            other.lemma_view_shape();
        }
        let rows = self.rows();
        let cols = self.columns();
        let mut out = Matrix::new(rows, cols, 0i64);
        proof { out.lemma_view_shape(); }
        let mut r: usize = 0;
        while r < rows
            invariant
                self.wf(),
                other.wf(),
                out.wf(),
                same_shape(&self, &other),
                same_shape(&out, &self),
                rows == self.num_rows(),
                cols == self.num_columns(),
                r <= rows,
                want == (if plus { sum_of(ints(self@), ints(other@)) } else { difference_of(ints(self@), ints(other@)) }),
                forall|i: int, j: int| 0 <= i < r && 0 <= j < cols ==> #[trigger] out@[i][j] == want[i][j],
            decreases rows - r,
        {
            let mut c: usize = 0;
            while c < cols
                invariant
                    self.wf(),
                    other.wf(),
                    out.wf(),
                    same_shape(&self, &other),
                    same_shape(&out, &self),
                    rows == self.num_rows(),
                    cols == self.num_columns(),
                    r < rows,
                    c <= cols,
                    want == (if plus { sum_of(ints(self@), ints(other@)) } else { difference_of(ints(self@), ints(other@)) }),
                    forall|i: int, j: int| 0 <= i < r && 0 <= j < cols ==> #[trigger] out@[i][j] == want[i][j],
                    forall|j: int| 0 <= j < c ==> #[trigger] out@[r as int][j] == want[r as int][j],
                decreases cols - c,
            {
                proof {
                    self.lemma_view_shape();
                    other.lemma_view_shape();
                    out.lemma_view_shape();
                }
                let x = self.get(r, c).unwrap();
                let y = other.get(r, c).unwrap();
                proof {
                    assert(ints(self@)[r as int][c as int] == x as int);
                    assert(ints(other@)[r as int][c as int] == y as int);
                    assert(want[r as int][c as int] == if plus { x + y } else { x - y });
                }
                let v: Option<i64>;
                if plus {
                    v = x.checked_add(y);
                } else {
                    v = x.checked_sub(y);
                }
                assert(v is None <==> !fits(want[r as int][c as int]));
                match v {
                    Some(v) => {
                        let _ = out.set(r, c, v);
                    },
                    None => {
                        assert(!fits(want[r as int][c as int]));
                        return Err(MatrixError::Overflow);
                    },
                }
                c = c + 1;
            }
            r = r + 1;
        }
        proof {
            out.lemma_view_shape();
            self.lemma_view_shape();
            assert forall|i: int| 0 <= i < rows implies #[trigger] ints(out@)[i] =~= want[i] by {
                assert forall|j: int| 0 <= j < cols implies #[trigger] ints(out@)[i][j] == want[i][j] by {
                    assert(out@[i][j] == want[i][j]);
                }
            }
            assert(ints(out@) =~= want);
            assert forall|i: int, j: int| 0 <= i < want.len() && 0 <= j < want[i].len() implies fits(#[trigger] want[i][j]) by {
                assert(out@[i][j] == want[i][j]);
            }
        }
        Ok(out)
    }
}

} // verus!
