use vstd::prelude::*;

verus! {

/// Ways in which a matrix operation can refuse its arguments.
#[derive(Debug, Clone, Copy, PartialEq, Eq, Structural)]
pub enum MatrixError {
    /// A row or column index at or beyond the matrix's bound.
    IndexOutOfRange,
    /// A replacement row/column of the wrong length, or operands of different shape.
    SizeMismatch,
    /// The inner dimensions of a product do not agree.
    DimensionMismatch,
    /// The operation needs a square matrix.
    NotSquare,
    /// An exact result does not fit in the element type.
    Overflow,
}

/// A dense matrix of `rows` by `columns` cells, stored row by row.
#[derive(PartialEq, Eq, Debug)]
pub struct Matrix<T> {
    rows: usize,
    columns: usize,
    data: Vec<T>,
}

/// Row-major index lemma: a cell inside the bounds maps inside the storage.
proof fn lemma_index_bounds(rows: int, cols: int, r: int, c: int)
    requires
        0 <= r < rows,
        0 <= c < cols,
    ensures
        0 <= r * cols + c < rows * cols,
        r * cols + c + (cols - c) <= rows * cols,
{
    assert(r * cols + cols <= rows * cols) by (nonlinear_arith)
        requires
            0 <= r < rows,
            0 <= c < cols,
    ;
    assert(0 <= r * cols) by (nonlinear_arith)
        requires
            0 <= r,
            0 <= c < cols,
    ;
}

/// Two distinct in-bounds cells have distinct storage indices.
proof fn lemma_index_injective(cols: int, r1: int, c1: int, r2: int, c2: int)
    requires
        0 <= r1,
        0 <= r2,
        0 <= c1 < cols,
        0 <= c2 < cols,
        r1 != r2 || c1 != c2,
    ensures
        r1 * cols + c1 != r2 * cols + c2,
{
    if r1 == r2 {
    } else if r1 < r2 {
        assert(r1 * cols + cols <= r2 * cols) by (nonlinear_arith)
            requires
                r1 < r2,
                0 <= c1 < cols,
        ;
    } else {
        assert(r2 * cols + cols <= r1 * cols) by (nonlinear_arith)
            requires
                r2 < r1,
                0 <= c1 < cols,
        ;
    }
}

impl<T: Copy> Matrix<T> {
    /// The matrix as a sequence of rows, each a sequence of cells.
    pub closed spec fn view(&self) -> Seq<Seq<T>> {
        Seq::new(
            self.rows as nat,
            |r: int| Seq::new(self.columns as nat, |c: int| self.data@[r * self.columns + c]),
        )
    }

    /// The number of rows the matrix was made with.
    pub closed spec fn num_rows(&self) -> nat {
        self.rows as nat
    }

    /// The number of columns the matrix was made with.
    pub closed spec fn num_columns(&self) -> nat {
        self.columns as nat
    }

    /// The storage holds exactly one cell per row and column.
    pub closed spec fn wf(&self) -> bool {
        &&& self.data@.len() == self.rows * self.columns
        &&& self.rows * self.columns <= usize::MAX
    }

    /// The view has `num_rows` rows of `num_columns` cells each, and a well-formed matrix's
    /// cell count fits in `usize`.
    pub proof fn lemma_view_shape(&self)
        ensures
            self.wf() ==> self.num_rows() * self.num_columns() <= usize::MAX,
            self@.len() == self.num_rows(),
            forall|r: int| 0 <= r < self.num_rows() ==> #[trigger] self@[r].len() == self.num_columns(),
    {
    }

    /// A matrix of `rows` by `columns` cells, each equal to `default`.
    pub fn new(rows: usize, columns: usize, default: T) -> (m: Self)
        requires
            rows * columns <= usize::MAX,
        ensures
            m.wf(),
            m.num_rows() == rows,
            m.num_columns() == columns,
            forall|r: int, c: int|
                0 <= r < rows && 0 <= c < columns ==> #[trigger] m@[r][c] == default,
    {
        let len: usize = rows * columns;
        let mut data: Vec<T> = Vec::new();
        let mut k: usize = 0;
        while k < len
            invariant
                k <= len,
                data@.len() == k,
                forall|j: int| 0 <= j < k ==> data@[j] == default,
            decreases len - k,
        {
            data.push(default);
            k = k + 1;
        }
        let m = Matrix { rows, columns, data };
        assert forall|r: int, c: int| 0 <= r < rows && 0 <= c < columns implies #[trigger] m@[r][c] == default by {
            lemma_index_bounds(rows as int, columns as int, r, c);
        }
        m
    }

    /// The number of rows.
    pub fn rows(&self) -> (n: usize)
        ensures
            n == self.num_rows(),
    {
        self.rows
    }

    /// The number of columns.
    pub fn columns(&self) -> (n: usize)
        ensures
            n == self.num_columns(),
    {
        self.columns
    }

    /// The cell at (`row`, `column`).
    pub fn get(&self, row: usize, column: usize) -> (r: Result<T, MatrixError>)
        requires
            self.wf(),
        ensures
            row < self.num_rows() && column < self.num_columns() ==> r == Ok::<T, MatrixError>(self@[row as int][column as int]),
            !(row < self.num_rows() && column < self.num_columns()) ==> r == Err::<T, MatrixError>(MatrixError::IndexOutOfRange),
    {
        if row >= self.rows || column >= self.columns {
            return Err(MatrixError::IndexOutOfRange);
        }
        Ok(self.data[self.index(row, column)])
    }

    /// A copy of row `row`.
    pub fn get_row(&self, row: usize) -> (r: Result<Vec<T>, MatrixError>)
        requires
            self.wf(),
        ensures
            row < self.num_rows() ==> (r matches Ok(v) && v@ == self@[row as int]),
            row >= self.num_rows() ==> r == Err::<Vec<T>, MatrixError>(MatrixError::IndexOutOfRange),
    {
        if row >= self.rows {
            return Err(MatrixError::IndexOutOfRange);
        }
        let mut v: Vec<T> = Vec::new();
        let mut c: usize = 0;
        while c < self.columns
            invariant
                self.wf(),
                row < self.rows,
                c <= self.columns,
                v@ == self@[row as int].subrange(0, c as int),
            decreases self.columns - c,
        {
            v.push(self.data[self.index(row, c)]);
            c = c + 1;
            assert(v@ =~= self@[row as int].subrange(0, c as int));
        }
        assert(v@ =~= self@[row as int]);
        Ok(v)
    }

    /// A copy of column `column`.
    pub fn get_column(&self, column: usize) -> (r: Result<Vec<T>, MatrixError>)
        requires
            self.wf(),
        ensures
            column < self.num_columns() ==> (r matches Ok(v) && v@ == column_of(self@, column as int)),
            column >= self.num_columns() ==> r == Err::<Vec<T>, MatrixError>(MatrixError::IndexOutOfRange),
    {
        if column >= self.columns {
            return Err(MatrixError::IndexOutOfRange);
        }
        let mut v: Vec<T> = Vec::new();
        let mut r: usize = 0;
        while r < self.rows
            invariant
                self.wf(),
                column < self.columns,
                r <= self.rows,
                v@ == column_of(self@, column as int).subrange(0, r as int),
            decreases self.rows - r,
        {
            v.push(self.data[self.index(r, column)]);
            r = r + 1;
            assert(v@ =~= column_of(self@, column as int).subrange(0, r as int));
        }
        assert(v@ =~= column_of(self@, column as int));
        Ok(v)
    }

    /// The cells (i, i) of a square matrix, in order of i.
    pub fn get_diagonal(&self) -> (r: Result<Vec<T>, MatrixError>)
        requires
            self.wf(),
        ensures
            self.num_rows() == self.num_columns() ==> (r matches Ok(v) && v@ == diagonal_of(self@)),
            self.num_rows() != self.num_columns() ==> r == Err::<Vec<T>, MatrixError>(MatrixError::NotSquare),
    {
        if self.rows != self.columns {
            return Err(MatrixError::NotSquare);
        }
        let mut v: Vec<T> = Vec::new();
        let mut i: usize = 0;
        while i < self.rows
            invariant
                self.wf(),
                self.rows == self.columns,
                i <= self.rows,
                v@ == diagonal_of(self@).subrange(0, i as int),
            decreases self.rows - i,
        {
            v.push(self.data[self.index(i, i)]);
            i = i + 1;
            assert(v@ =~= diagonal_of(self@).subrange(0, i as int));
        }
        assert(v@ =~= diagonal_of(self@));
        Ok(v)
    }

    /// Overwrites the cell at (`row`, `column`) with `value`.
    pub fn set(&mut self, row: usize, column: usize, value: T) -> (r: Result<(), MatrixError>)
        requires
            old(self).wf(),
        ensures
            final(self).wf(),
            final(self).num_rows() == old(self).num_rows(),
            final(self).num_columns() == old(self).num_columns(),
            row < old(self).num_rows() && column < old(self).num_columns() ==> {
                &&& r == Ok::<(), MatrixError>(())
                &&& final(self)@ == old(self)@.update(row as int, old(self)@[row as int].update(column as int, value))
            },
            !(row < old(self).num_rows() && column < old(self).num_columns()) ==> {
                &&& r == Err::<(), MatrixError>(MatrixError::IndexOutOfRange)
                &&& final(self)@ == old(self)@
            },
    {
        if row >= self.rows || column >= self.columns {
            return Err(MatrixError::IndexOutOfRange);
        }
        self.put(row, column, value);
        Ok(())
    }

    /// Replaces row `row` with `values`.
    pub fn set_row(&mut self, row: usize, values: Vec<T>) -> (r: Result<(), MatrixError>)
        requires
            old(self).wf(),
        ensures
            final(self).wf(),
            final(self).num_rows() == old(self).num_rows(),
            final(self).num_columns() == old(self).num_columns(),
            row >= old(self).num_rows() ==> r == Err::<(), MatrixError>(MatrixError::IndexOutOfRange),
            row < old(self).num_rows() && values@.len() != old(self).num_columns() ==> r == Err::<(), MatrixError>(MatrixError::SizeMismatch),
            r is Err ==> final(self)@ == old(self)@,
            row < old(self).num_rows() && values@.len() == old(self).num_columns() ==> {
                &&& r == Ok::<(), MatrixError>(())
                &&& final(self)@ == old(self)@.update(row as int, values@)
            },
    {
        if row >= self.rows {
            return Err(MatrixError::IndexOutOfRange);
        }
        if values.len() != self.columns {
            return Err(MatrixError::SizeMismatch);
        }
        let ghost pre = self@;
        proof {
            self.lemma_view_shape();
            assert(Seq::new(self.columns as nat, |j: int| if j < 0 { values@[j] } else { pre[row as int][j] }) =~= pre[row as int]);
            assert(pre.update(row as int, pre[row as int]) =~= pre);
        }
        let mut c: usize = 0;
        while c < self.columns
            invariant
                self.wf(),
                self.rows == old(self).rows,
                self.columns == old(self).columns,
                row < self.rows,
                values@.len() == self.columns,
                c <= self.columns,
                pre == old(self)@,
                pre.len() == self.rows,
                forall|i: int| 0 <= i < self.rows ==> #[trigger] pre[i].len() == self.columns,
                self@ =~= pre.update(row as int, Seq::new(self.columns as nat, |j: int| if j < c { values@[j] } else { pre[row as int][j] })),
            decreases self.columns - c,
        {
            self.put(row, c, values[c]);
            c = c + 1;
            proof {
                assert(self@[row as int] =~= Seq::new(self.columns as nat, |j: int| if j < c { values@[j] } else { pre[row as int][j] }));
                assert(self@ =~= pre.update(row as int, Seq::new(self.columns as nat, |j: int| if j < c { values@[j] } else { pre[row as int][j] })));
            }
        }
        proof {
            assert(Seq::new(self.columns as nat, |j: int| if j < c { values@[j] } else { pre[row as int][j] }) =~= values@);
        }
        Ok(())
    }

    /// Replaces column `column` with `values`.
    pub fn set_column(&mut self, column: usize, values: Vec<T>) -> (r: Result<(), MatrixError>)
        requires
            old(self).wf(),
        ensures
            final(self).wf(),
            final(self).num_rows() == old(self).num_rows(),
            final(self).num_columns() == old(self).num_columns(),
            column >= old(self).num_columns() ==> r == Err::<(), MatrixError>(MatrixError::IndexOutOfRange),
            column < old(self).num_columns() && values@.len() != old(self).num_rows() ==> r == Err::<(), MatrixError>(MatrixError::SizeMismatch),
            r is Err ==> final(self)@ == old(self)@,
            column < old(self).num_columns() && values@.len() == old(self).num_rows() ==> {
                &&& r == Ok::<(), MatrixError>(())
                &&& final(self)@ == with_column(old(self)@, column as int, values@)
            },
    {
        if column >= self.columns {
            return Err(MatrixError::IndexOutOfRange);
        }
        if values.len() != self.rows {
            return Err(MatrixError::SizeMismatch);
        }
        let ghost pre = self@;
        proof { self.lemma_view_shape(); }
        let mut r: usize = 0;
        while r < self.rows
            invariant
                self.wf(),
                self.rows == old(self).rows,
                self.columns == old(self).columns,
                pre == old(self)@,
                column < self.columns,
                values@.len() == self.rows,
                r <= self.rows,
                pre.len() == self.rows,
                forall|i: int| 0 <= i < self.rows ==> #[trigger] pre[i].len() == self.columns,
                self@ =~= Seq::new(pre.len(), |i: int| if i < r { pre[i].update(column as int, values@[i]) } else { pre[i] }),
            decreases self.rows - r,
        {
            let ghost mid = self@;
            self.put(r, column, values[r]);
            r = r + 1;
            proof {
                assert(self@ =~= Seq::new(pre.len(), |i: int| if i < r { pre[i].update(column as int, values@[i]) } else { pre[i] }));
            }
        }
        proof {
            assert(self@ =~= with_column(pre, column as int, values@));
        }
        Ok(())
    }

    /// Exchanges the contents of rows `row1` and `row2`.
    pub fn exchange_rows(&mut self, row1: usize, row2: usize) -> (r: Result<(), MatrixError>)
        requires
            old(self).wf(),
        ensures
            final(self).wf(),
            final(self).num_rows() == old(self).num_rows(),
            final(self).num_columns() == old(self).num_columns(),
            row1 < old(self).num_rows() && row2 < old(self).num_rows() ==> {
                &&& r == Ok::<(), MatrixError>(())
                &&& final(self)@ == swap_rows(old(self)@, row1 as int, row2 as int)
            },
            !(row1 < old(self).num_rows() && row2 < old(self).num_rows()) ==> {
                &&& r == Err::<(), MatrixError>(MatrixError::IndexOutOfRange)
                &&& final(self)@ == old(self)@
            },
    {
        if row1 >= self.rows || row2 >= self.rows {
            return Err(MatrixError::IndexOutOfRange);
        }
        let ghost pre = self@;
        let ghost goal = swap_rows(pre, row1 as int, row2 as int);
        proof {
            self.lemma_view_shape();
            assert forall|i: int| 0 <= i < pre.len() implies #[trigger] pre[i] =~= Seq::new(self.columns as nat, |j: int| if j < 0 { goal[i][j] } else { pre[i][j] }) by {}
            assert(self@ =~= Seq::new(pre.len(), |i: int| Seq::new(self.columns as nat, |j: int| if j < 0 { goal[i][j] } else { pre[i][j] })));
        }
        let mut c: usize = 0;
        while c < self.columns
            invariant
                self.wf(),
                self.rows == old(self).rows,
                self.columns == old(self).columns,
                pre == old(self)@,
                goal == swap_rows(pre, row1 as int, row2 as int),
                row1 < self.rows,
                row2 < self.rows,
                c <= self.columns,
                pre.len() == self.rows,
                forall|i: int| 0 <= i < self.rows ==> #[trigger] pre[i].len() == self.columns,
                self@ =~= Seq::new(pre.len(), |i: int| Seq::new(self.columns as nat, |j: int| if j < c { goal[i][j] } else { pre[i][j] })),
            decreases self.columns - c,
        {
            let ghost mid = self@;
            let x = self.data[self.index(row1, c)];
            let y = self.data[self.index(row2, c)];
            assert(x == pre[row1 as int][c as int] && y == pre[row2 as int][c as int]);
            self.put(row1, c, y);
            self.put(row2, c, x);
            c = c + 1;
            proof {
                assert forall|i: int| 0 <= i < pre.len() implies #[trigger] self@[i] =~= Seq::new(self.columns as nat, |j: int| if j < c { goal[i][j] } else { pre[i][j] }) by {
                    assert forall|j: int| 0 <= j < self.columns implies #[trigger] self@[i][j] == (if j < c { goal[i][j] } else { pre[i][j] }) by {
                        assert(mid[i] == Seq::new(self.columns as nat, |j: int| if j < c - 1 { goal[i][j] } else { pre[i][j] }));
                    }
                }
                assert(self@ =~= Seq::new(pre.len(), |i: int| Seq::new(self.columns as nat, |j: int| if j < c { goal[i][j] } else { pre[i][j] })));
            }
        }
        proof {
            assert forall|i: int| 0 <= i < pre.len() implies #[trigger] self@[i] =~= goal[i] by {
            }
            assert(self@ =~= goal);
        }
        Ok(())
    }

    /// Exchanges the contents of columns `column1` and `column2`.
    pub fn exchange_columns(&mut self, column1: usize, column2: usize) -> (r: Result<(), MatrixError>)
        requires
            old(self).wf(),
        ensures
            final(self).wf(),
            final(self).num_rows() == old(self).num_rows(),
            final(self).num_columns() == old(self).num_columns(),
            column1 < old(self).num_columns() && column2 < old(self).num_columns() ==> {
                &&& r == Ok::<(), MatrixError>(())
                &&& final(self)@ == swap_columns(old(self)@, column1 as int, column2 as int)
            },
            !(column1 < old(self).num_columns() && column2 < old(self).num_columns()) ==> {
                &&& r == Err::<(), MatrixError>(MatrixError::IndexOutOfRange)
                &&& final(self)@ == old(self)@
            },
    {
        if column1 >= self.columns || column2 >= self.columns {
            return Err(MatrixError::IndexOutOfRange);
        }
        let ghost pre = self@;
        let ghost goal = swap_columns(pre, column1 as int, column2 as int);
        proof {
            self.lemma_view_shape();
            assert(self@ =~= Seq::new(pre.len(), |i: int| if i < 0 { goal[i] } else { pre[i] }));
        }
        let mut r: usize = 0;
        while r < self.rows
            invariant
                self.wf(),
                self.rows == old(self).rows,
                self.columns == old(self).columns,
                pre == old(self)@,
                goal == swap_columns(pre, column1 as int, column2 as int),
                column1 < self.columns,
                column2 < self.columns,
                r <= self.rows,
                pre.len() == self.rows,
                forall|i: int| 0 <= i < self.rows ==> #[trigger] pre[i].len() == self.columns,
                self@ =~= Seq::new(pre.len(), |i: int| if i < r { goal[i] } else { pre[i] }),
            decreases self.rows - r,
        {
            let ghost mid = self@;
            let x = self.data[self.index(r, column1)];
            let y = self.data[self.index(r, column2)];
            assert(mid[r as int] == pre[r as int]);
            self.put(r, column1, y);
            self.put(r, column2, x);
            r = r + 1;
            proof {
                assert(goal[r - 1] == pre[r - 1].update(column1 as int, pre[r - 1][column2 as int]).update(column2 as int, pre[r - 1][column1 as int]));
                assert(self@[r - 1] =~= goal[r - 1]);
                assert(self@ =~= Seq::new(pre.len(), |i: int| if i < r { goal[i] } else { pre[i] }));
            }
        }
        proof {
            assert(self@ =~= goal);
        }
        Ok(())
    }

    /// An independent copy of this matrix.
    pub fn duplicate(&self) -> (m: Self)
        requires
            self.wf(),
        ensures
            m.wf(),
            m.num_rows() == self.num_rows(),
            m.num_columns() == self.num_columns(),
            m@ == self@,
    {
        let mut data: Vec<T> = Vec::new();
        let mut k: usize = 0;
        while k < self.data.len()
            invariant
                k <= self.data@.len(),
                data@ == self.data@.subrange(0, k as int),
            decreases self.data@.len() - k,
        {
            data.push(self.data[k]);
            k = k + 1;
            assert(data@ =~= self.data@.subrange(0, k as int));
        }
        assert(data@ =~= self.data@);
        Matrix { rows: self.rows, columns: self.columns, data }
    }

    /// Overwrites one in-bounds cell.
    fn put(&mut self, row: usize, column: usize, value: T)
        requires
            old(self).wf(),
            row < old(self).rows,
            column < old(self).columns,
        ensures
            final(self).wf(),
            final(self).rows == old(self).rows,
            final(self).columns == old(self).columns,
            final(self)@ == old(self)@.update(row as int, old(self)@[row as int].update(column as int, value)),
    {
        let k = self.index(row, column);
        let ghost pre = *self;
        self.data.set(k, value);
        proof {
            let cols = self.columns as int;
            let expect = pre@.update(row as int, pre@[row as int].update(column as int, value));
            assert forall|r: int| 0 <= r < self.rows implies #[trigger] self@[r] == expect[r] by {
                assert forall|c: int| 0 <= c < cols implies #[trigger] self@[r][c] == expect[r][c] by {
                    lemma_index_bounds(self.rows as int, cols, r, c);
                    if r != row || c != column {
                        lemma_index_injective(cols, r, c, row as int, column as int);
                    }
                }
                assert(self@[r] =~= expect[r]);
            }
            assert(self@ =~= expect);
        }
    }

    /// Storage index of an in-bounds cell.
    fn index(&self, row: usize, column: usize) -> (k: usize)
        requires
            self.wf(),
            row < self.rows,
            column < self.columns,
        ensures
            k == row * self.columns + column,
            k < self.data@.len(),
            self.data@[k as int] == self@[row as int][column as int],
    {
        proof {
            lemma_index_bounds(self.rows as int, self.columns as int, row as int, column as int);
        }
        row * self.columns + column
    }
}

/// `s` with rows `a` and `b` exchanged.
pub open spec fn swap_rows<T>(s: Seq<Seq<T>>, a: int, b: int) -> Seq<Seq<T>> {
    s.update(a, s[b]).update(b, s[a])
}

/// `s` with columns `a` and `b` exchanged in every row.
pub open spec fn swap_columns<T>(s: Seq<Seq<T>>, a: int, b: int) -> Seq<Seq<T>> {
    Seq::new(s.len(), |r: int| s[r].update(a, s[r][b]).update(b, s[r][a]))
}

/// Column `c` of `s`, top to bottom.
pub open spec fn column_of<T>(s: Seq<Seq<T>>, c: int) -> Seq<T> {
    Seq::new(s.len(), |r: int| s[r][c])
}

/// The cells (i, i) of `s`, for every row index i.
pub open spec fn diagonal_of<T>(s: Seq<Seq<T>>) -> Seq<T> {
    Seq::new(s.len(), |i: int| s[i][i])
}

/// `s` with column `c` replaced by `v`.
pub open spec fn with_column<T>(s: Seq<Seq<T>>, c: int, v: Seq<T>) -> Seq<Seq<T>> {
    Seq::new(s.len(), |r: int| s[r].update(c, v[r]))
}

} // verus!
