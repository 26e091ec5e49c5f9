use vstd::prelude::*;

use crate::arithmetic::{all_fit, fits, ints};
use crate::matrix::{swap_columns, swap_rows, Matrix, MatrixError};

verus! {

/// The first row `r` in `x..n` whose cell in column `i` is nonzero, or `n` when there is none.
pub open spec fn first_nonzero_below(w: Seq<Seq<int>>, i: int, x: int, n: int) -> int
    decreases n - x,
{
    if x >= n {
        n
    } else if w[x][i] != 0 {
        x
    } else {
        first_nonzero_below(w, i, x + 1, n)
    }
}

/// The first column `c` in `x..n` whose cell in row `i` is nonzero, or `n` when there is none.
pub open spec fn first_nonzero_right(w: Seq<Seq<int>>, i: int, x: int, n: int) -> int
    decreases n - x,
{
    if x >= n {
        n
    } else if w[i][x] != 0 {
        x
    } else {
        first_nonzero_right(w, i, x + 1, n)
    }
}

/// Pivot selection at step `i` of an `n` by `n` elimination: keep a nonzero (i, i); else bring
/// up the first row below with a nonzero in column `i`; else bring in the first column to the
/// right with a nonzero in row `i`. Also tells whether an exchange took place.
pub open spec fn pivoted(w: Seq<Seq<int>>, i: int, n: int) -> (Seq<Seq<int>>, bool) {
    let x = first_nonzero_below(w, i, i + 1, n);
    let y = first_nonzero_right(w, i, i + 1, n);
    if w[i][i] != 0 {
        (w, false)
    } else if x < n {
        (swap_rows(w, x, i), true)
    } else if y < n {
        (swap_columns(w, i, y), true)
    } else {
        (w, false)
    }
}

/// Row `r` after the fraction-free elimination step on pivot (i, i), `prev` being the previous pivot.
pub open spec fn reduced_row(w: Seq<Seq<int>>, i: int, r: int, prev: int) -> Seq<int> {
    Seq::new(w[r].len(), |c: int| (w[i][i] * w[r][c] - w[r][i] * w[i][c]) / prev)
}

/// The first `n` rows of `w`, every row below `i` reduced against row `i`.
pub open spec fn eliminated(w: Seq<Seq<int>>, i: int, prev: int, n: int) -> Seq<Seq<int>> {
    Seq::new(n as nat, |r: int| if r > i { reduced_row(w, i, r, prev) } else { w[r] })
}

/// The rest of the elimination from step `i`, with the sign and previous pivot so far.
/// `None` when a value met on the way does not fit in `i64`.
pub open spec fn determinant_from(w: Seq<Seq<int>>, i: int, sign: int, prev: int) -> Option<int>
    decreases w.len() - i,
{
    let n = w.len() as int;
    if i >= n {
        if n == 0 {
            Some(sign)
        } else if fits(sign * w[n - 1][n - 1]) {
            Some(sign * w[n - 1][n - 1])
        } else {
            None
        }
    } else {
        let (p, swapped) = pivoted(w, i, n);
        let s = if swapped { -sign } else { sign };
        if p[i][i] == 0 {
            Some(0)
        } else {
            let e = eliminated(p, i, prev, n);
            if all_fit(e) {
                determinant_from(e, i + 1, s, p[i][i])
            } else {
                None
            }
        }
    }
}

/// What elimination with row-then-column pivoting yields for the square `w`: zero as soon as
/// no nonzero pivot can be found, else the last pivot of the fraction-free (Bareiss) reduction
/// with the sign of the exchanges made. Every division there is exact on integers, so no
/// rounding enters. `None` when a value met on the way does not fit in `i64`.
pub open spec fn determinant_of(w: Seq<Seq<int>>) -> Option<int> {
    determinant_from(w, 0, 1, 1)
}

/// An `n` by `n` sequence of rows.
pub open spec fn square(w: Seq<Seq<int>>, n: int) -> bool {
    w.len() == n && forall|r: int| 0 <= r < n ==> #[trigger] w[r].len() == n
}

proof fn lemma_ints_swap_rows(v: Seq<Seq<i64>>, a: int, b: int)
    requires
        0 <= a < v.len(),
        0 <= b < v.len(),
    ensures
        ints(swap_rows(v, a, b)) == swap_rows(ints(v), a, b),
{
    assert(ints(swap_rows(v, a, b)) =~= swap_rows(ints(v), a, b));
}

proof fn lemma_ints_swap_columns(v: Seq<Seq<i64>>, a: int, b: int, n: int)
    requires
        v.len() == n,
        forall|r: int| 0 <= r < n ==> #[trigger] v[r].len() == n,
        0 <= a < n,
        0 <= b < n,
    ensures
        ints(swap_columns(v, a, b)) == swap_columns(ints(v), a, b),
{
    assert forall|r: int| 0 <= r < n implies #[trigger] ints(swap_columns(v, a, b))[r] =~= swap_columns(ints(v), a, b)[r] by {}
    assert(ints(swap_columns(v, a, b)) =~= swap_columns(ints(v), a, b));
}

/// `x * y - u * z` of four `i64` values is a value of `i128`.
proof fn lemma_cross_fits(x: i64, y: i64, u: i64, z: i64)
    ensures
        -0x4000_0000_0000_0000_0000_0000_0000_0000 <= x * y <= 0x4000_0000_0000_0000_0000_0000_0000_0000,
        -0x4000_0000_0000_0000_0000_0000_0000_0000 <= u * z <= 0x4000_0000_0000_0000_0000_0000_0000_0000,
        i128::MIN <= x * y - u * z <= i128::MAX,
{
    assert(-0x4000_0000_0000_0000_0000_0000_0000_0000 <= x * y <= 0x4000_0000_0000_0000_0000_0000_0000_0000) by (nonlinear_arith)
        requires
            -0x8000_0000_0000_0000 <= x <= 0x7fff_ffff_ffff_ffff,
            -0x8000_0000_0000_0000 <= y <= 0x7fff_ffff_ffff_ffff,
    ;
    assert(-0x3fff_ffff_ffff_ffff_8000_0000_0000_0000 <= u * z <= 0x4000_0000_0000_0000_0000_0000_0000_0000) by (nonlinear_arith)
        requires
            -0x8000_0000_0000_0000 <= u <= 0x7fff_ffff_ffff_ffff,
            -0x8000_0000_0000_0000 <= z <= 0x7fff_ffff_ffff_ffff,
    ;
    assert(-0x3fff_ffff_ffff_ffff_8000_0000_0000_0000 <= x * y) by (nonlinear_arith)
        requires
            -0x8000_0000_0000_0000 <= x <= 0x7fff_ffff_ffff_ffff,
            -0x8000_0000_0000_0000 <= y <= 0x7fff_ffff_ffff_ffff,
    ;
}

/// The row that `pivoted` brings up at step `i`, or `n`.
fn row_with_nonzero(work: &Matrix<i64>, i: usize) -> (x: usize)
    requires
        work.wf(),
        work.num_columns() == work.num_rows(),
        square(ints(work@), work.num_rows() as int),
        i < work.num_rows(),
    ensures
        x == first_nonzero_below(ints(work@), i as int, i + 1, work.num_rows() as int),
{
    let n = work.rows();
    let ghost w = ints(work@);
    let mut x: usize = i + 1;
    while x < n
        invariant
            work.wf(),
            n == work.num_rows(),
            n == work.num_columns(),
            w == ints(work@),
            square(w, n as int),
            i < x <= n,
            first_nonzero_below(w, i as int, i + 1, n as int) == first_nonzero_below(w, i as int, x as int, n as int),
        decreases n - x,
    {
        proof { work.lemma_view_shape(); }
        let v = work.get(x, i).unwrap();
        assert(w[x as int][i as int] == v);
        if v != 0 {
            return x;
        }
        x = x + 1;
    }
    x
}

/// The column that `pivoted` brings in at step `i`, or `n`.
fn column_with_nonzero(work: &Matrix<i64>, i: usize) -> (y: usize)
    requires
        work.wf(),
        square(ints(work@), work.num_rows() as int),
        work.num_columns() == work.num_rows(),
        i < work.num_rows(),
    ensures
        y == first_nonzero_right(ints(work@), i as int, i + 1, work.num_rows() as int),
{
    let n = work.rows();
    let ghost w = ints(work@);
    let mut y: usize = i + 1;
    while y < n
        invariant
            work.wf(),
            n == work.num_rows(),
            n == work.num_columns(),
            w == ints(work@),
            square(w, n as int),
            i < y <= n,
            first_nonzero_right(w, i as int, i + 1, n as int) == first_nonzero_right(w, i as int, y as int, n as int),
        decreases n - y,
    {
        proof { work.lemma_view_shape(); }
        let v = work.get(i, y).unwrap();
        assert(w[i as int][y as int] == v);
        if v != 0 {
            return y;
        }
        y = y + 1;
    }
    y
}

/// Makes (i, i) nonzero where `pivoted` can; tells whether rows or columns were exchanged.
fn choose_pivot(work: &mut Matrix<i64>, i: usize) -> (swapped: bool)
    requires
        old(work).wf(),
        old(work).num_columns() == old(work).num_rows(),
        square(ints(old(work)@), old(work).num_rows() as int),
        i < old(work).num_rows(),
    ensures
        final(work).wf(),
        final(work).num_rows() == old(work).num_rows(),
        final(work).num_columns() == old(work).num_columns(),
        (ints(final(work)@), swapped) == pivoted(ints(old(work)@), i as int, old(work).num_rows() as int),
{
    let n = work.rows();
    proof { work.lemma_view_shape(); }
    let ghost v0 = work@;
    let d = work.get(i, i).unwrap();
    assert(ints(v0)[i as int][i as int] == d);
    if d != 0 {
        return false;
    }
    let x = row_with_nonzero(work, i);
    if x < n {
        let _ = work.exchange_rows(x, i);
        proof { lemma_ints_swap_rows(v0, x as int, i as int); }
        return true;
    }
    let y = column_with_nonzero(work, i);
    if y < n {
        let _ = work.exchange_columns(i, y);
        proof { lemma_ints_swap_columns(v0, i as int, y as int, n as int); }
        return true;
    }
    false
}

/// Row `x` reduced against row `i` with previous pivot `prev`; `None` when a cell does not fit.
fn reduce_row(work: &Matrix<i64>, i: usize, x: usize, prev: i64) -> (res: Option<Vec<i64>>)
    requires
        work.wf(),
        work.num_columns() == work.num_rows(),
        square(ints(work@), work.num_rows() as int),
        i < x < work.num_rows(),
        prev != 0,
    ensures
        ({
            let want = reduced_row(ints(work@), i as int, x as int, prev as int);
            &&& res is None <==> exists|c: int| 0 <= c < want.len() && !fits(#[trigger] want[c])
            &&& res matches Some(v) ==> v@.len() == want.len() && forall|c: int| 0 <= c < want.len() ==> #[trigger] v@[c] == want[c]
        }),
{
    let n = work.rows();
    let ghost w = ints(work@);
    let ghost want = reduced_row(w, i as int, x as int, prev as int);
    proof { work.lemma_view_shape(); }
    let p = work.get(i, i).unwrap();
    let m = work.get(x, i).unwrap();
    let mut out: Vec<i64> = Vec::new();
    let mut c: usize = 0;
    while c < n
        invariant
            work.wf(),
            n == work.num_rows(),
            n == work.num_columns(),
            w == ints(work@),
            square(w, n as int),
            want == reduced_row(w, i as int, x as int, prev as int),
            want.len() == n,
            i < x < n,
            prev != 0,
            p == w[i as int][i as int],
            m == w[x as int][i as int],
            c <= n,
            out@.len() == c,
            forall|j: int| 0 <= j < c ==> #[trigger] out@[j] == want[j],
        decreases n - c,
    {
        proof { work.lemma_view_shape(); }
        let a = work.get(x, c).unwrap();
        let b = work.get(i, c).unwrap();
        proof { lemma_cross_fits(p, a, m, b); }
        let num: i128 = (p as i128) * (a as i128) - (m as i128) * (b as i128);
        assert(want[c as int] == (num as int) / (prev as int));
        match num.checked_div_euclid(prev as i128) {
            Some(q) => {
                if q < i64::MIN as i128 || q > i64::MAX as i128 {
                    assert(!fits(want[c as int]));
                    return None;
                }
                out.push(q as i64);
            },
            None => {
                assert(!fits(want[c as int]));
                return None;
            },
        }
        c = c + 1;
    }
    assert forall|j: int| 0 <= j < want.len() implies fits(#[trigger] want[j]) by {
        assert(out@[j] == want[j]);
    }
    Some(out)
}

/// Reduces every row below `i`; `false`, with nothing promised of `work`, when a cell does not fit.
fn eliminate_below(work: &mut Matrix<i64>, i: usize, prev: i64) -> (ok: bool)
    requires
        old(work).wf(),
        old(work).num_columns() == old(work).num_rows(),
        square(ints(old(work)@), old(work).num_rows() as int),
        i < old(work).num_rows(),
        prev != 0,
    ensures
        final(work).wf(),
        final(work).num_rows() == old(work).num_rows(),
        final(work).num_columns() == old(work).num_columns(),
        ok <==> all_fit(eliminated(ints(old(work)@), i as int, prev as int, old(work).num_rows() as int)),
        ok ==> ints(final(work)@) == eliminated(ints(old(work)@), i as int, prev as int, old(work).num_rows() as int),
{
    let n = work.rows();
    let ghost w0 = ints(work@);
    let ghost goal = eliminated(w0, i as int, prev as int, n as int);
    let mut x: usize = i + 1;
    proof {
        work.lemma_view_shape();
        assert(ints(work@) =~= Seq::new(n as nat, |r: int| if i < r < x { goal[r] } else { w0[r] }));
    }
    while x < n
        invariant
            work.wf(),
            n == work.num_rows(),
            n == work.num_columns(),
            n == old(work).num_rows(),
            n == old(work).num_columns(),
            w0 == ints(old(work)@),
            square(w0, n as int),
            goal == eliminated(w0, i as int, prev as int, n as int),
            i < x <= n,
            prev != 0,
            ints(work@) == Seq::new(n as nat, |r: int| if i < r < x { goal[r] } else { w0[r] }),
        decreases n - x,
    {
        proof { work.lemma_view_shape(); }
        let ghost cur = ints(work@);
        proof {
            assert(cur[i as int] == w0[i as int]);
            assert(cur[x as int] == w0[x as int]);
            assert(reduced_row(cur, i as int, x as int, prev as int) =~= goal[x as int]);
            assert(square(cur, n as int));
        }
        match reduce_row(work, i, x, prev) {
            Some(row) => {
                let ghost before = work@;
                let ghost row_view = row@;
                let _ = work.set_row(x, row);
                proof {
                    work.lemma_view_shape();
                    assert(work@ == before.update(x as int, row_view));
                    assert(ints(work@)[x as int] =~= goal[x as int]);
                    assert forall|r: int| 0 <= r < n && r != x implies #[trigger] ints(work@)[r] == cur[r] by {
                        assert(ints(work@)[r] =~= cur[r]);
                    }
                    assert(ints(work@) =~= Seq::new(n as nat, |r: int| if i < r < x + 1 { goal[r] } else { w0[r] })) by {
                        assert(ints(work@)[x as int] =~= goal[x as int]);
                    }
                }
            },
            None => {
                proof {
                    let c = choose|c: int| 0 <= c < goal[x as int].len() && !fits(#[trigger] goal[x as int][c]);
                    assert(!fits(goal[x as int][c]));
                    assert(!all_fit(goal));
                }
                return false;
            },
        }
        x = x + 1;
    }
    proof {
        work.lemma_view_shape();
        assert(ints(work@) =~= goal);
        assert forall|r: int, c: int| 0 <= r < goal.len() && 0 <= c < goal[r].len() implies fits(#[trigger] goal[r][c]) by {
            assert(ints(work@)[r][c] == work@[r][c]);
        }
    }
    true
}

impl Matrix<i64> {
    /// The determinant, by fraction-free elimination with row-then-column pivoting on a
    /// working copy; `self` is left as it is.
    pub fn get_determinant(&self) -> (res: Result<i64, MatrixError>)
        requires
            self.wf(),
        ensures
            self.num_rows() != self.num_columns() ==> res == Err::<i64, MatrixError>(MatrixError::NotSquare),
            self.num_rows() == self.num_columns() ==> match determinant_of(ints(self@)) {
                Some(d) => res == Ok::<i64, MatrixError>(d as i64),
                None => res == Err::<i64, MatrixError>(MatrixError::Overflow),
            },
            self.num_rows() == self.num_columns() && determinant_of(ints(self@)) is Some
                ==> fits(determinant_of(ints(self@))->Some_0),
    {
        if self.rows() != self.columns() {
            return Err(MatrixError::NotSquare);
        }
        let n = self.rows();
        let mut work = self.duplicate();
        let mut sign: i64 = 1;
        let mut prev: i64 = 1;
        let mut i: usize = 0;
        proof {
            self.lemma_view_shape();
            assert(square(ints(work@), n as int));
        }
        while i < n
            invariant
                work.wf(),
                n == work.num_rows(),
                n == work.num_columns(),
                n == self.num_rows(),
                n == self.num_columns(),
                square(ints(work@), n as int),
                i <= n,
                sign == 1 || sign == -1,
                prev != 0,
                determinant_from(ints(work@), i as int, sign as int, prev as int) == determinant_of(ints(self@)),
            decreases n - i,
        {
            let ghost w = ints(work@);
            let ghost sign0 = sign;
            let swapped = choose_pivot(&mut work, i);
            proof {
                work.lemma_view_shape();
                assert(square(ints(work@), n as int));
            }
            if swapped {
                sign = -sign;
            }
            let pivot = work.get(i, i).unwrap();
            assert(ints(work@)[i as int][i as int] == pivot);
            if pivot == 0 {
                assert(determinant_from(w, i as int, sign0 as int, prev as int) == Some(0int));
                return Ok(0);
            }
            let ghost p = ints(work@);
            let ok = eliminate_below(&mut work, i, prev);
            assert(determinant_from(w, i as int, sign0 as int, prev as int) == if all_fit(eliminated(p, i as int, prev as int, n as int)) {
                determinant_from(eliminated(p, i as int, prev as int, n as int), i + 1, sign as int, pivot as int)
            } else {
                None
            });
            if !ok {
                return Err(MatrixError::Overflow);
            }
            proof {
                work.lemma_view_shape();
                assert(square(ints(work@), n as int));
            }
            prev = pivot;
            i = i + 1;
        }
        assert(determinant_from(ints(work@), n as int, sign as int, prev as int) == if n == 0 {
            Some(sign as int)
        } else if fits(sign * ints(work@)[n - 1][n - 1]) {
            Some(sign * ints(work@)[n - 1][n - 1])
        } else {
            None
        });
        if n == 0 {
            return Ok(sign);
        }
        proof { work.lemma_view_shape(); }
        let last = work.get(n - 1, n - 1).unwrap();
        assert(ints(work@)[n - 1][n - 1] == last);
        match sign.checked_mul(last) {
            Some(d) => Ok(d),
            None => Err(MatrixError::Overflow),
        }
    }
}

} // verus!
