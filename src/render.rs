use vstd::prelude::*;
use vstd::string::StringExecFns;

use crate::arithmetic::ints;
use crate::matrix::Matrix;

verus! {

/// The decimal digits of `n`, most significant first.
pub open spec fn digits(n: nat) -> Seq<char>
    decreases n,
{
    let d = seq!['0', '1', '2', '3', '4', '5', '6', '7', '8', '9'][(n % 10) as int];
    if n < 10 {
        seq![d]
    } else {
        digits(n / 10).push(d)
    }
}

/// `v` written in decimal, with a leading `-` when negative.
pub open spec fn decimal_text(v: int) -> Seq<char> {
    if v < 0 {
        seq!['-'] + digits((-v) as nat)
    } else {
        digits(v as nat)
    }
}

/// The first `k` cells of `row`, each as a space, its decimal text and a comma.
pub open spec fn cells_text(row: Seq<int>, k: int) -> Seq<char>
    decreases k,
{
    if k <= 0 {
        Seq::empty()
    } else {
        cells_text(row, k - 1) + seq![' '] + decimal_text(row[k - 1]) + seq![',']
    }
}

/// One line per row, first row first: `{ a, b, }` and a newline.
pub open spec fn text_of(s: Seq<Seq<int>>, k: int) -> Seq<char>
    decreases k,
{
    if k <= 0 {
        Seq::empty()
    } else {
        text_of(s, k - 1) + seq!['{'] + cells_text(s[k - 1], s[k - 1].len() as int) + seq![' ', '}', '\n']
    }
}

/// Relies on `ToString::to_string` through `i64`'s `Display`, which writes the value in
/// decimal with a leading `-` when negative.
#[verifier::external_body]
fn decimal(v: i64) -> (s: String)
    ensures
        s@ == decimal_text(v as int),
{
    v.to_string()
}

impl Matrix<i64> {
    /// The matrix as text: one line `{ a, b, }` per row, in row order.
    pub fn display(&self) -> (s: String)
        requires
            self.wf(),
        ensures
            s@ == text_of(ints(self@), self.num_rows() as int),
    {
        proof { self.lemma_view_shape(); }
        let ghost w = ints(self@);
        let rows = self.rows();
        let cols = self.columns();
        let mut out = String::new();
        let mut r: usize = 0;
        while r < rows
            invariant
                self.wf(),
                w == ints(self@),
                rows == self.num_rows(),
                cols == self.num_columns(),
                r <= rows,
                out@ == text_of(w, r as int),
            decreases rows - r,
        {
            proof { reveal_strlit("{"); }
            out.append("{");
            let mut c: usize = 0;
            while c < cols
                invariant
                    self.wf(),
                    w == ints(self@),
                    rows == self.num_rows(),
                    cols == self.num_columns(),
                    r < rows,
                    c <= cols,
                    out@ == text_of(w, r as int) + seq!['{'] + cells_text(w[r as int], c as int),
                decreases cols - c,
            {
                proof {
                    self.lemma_view_shape();
                    reveal_strlit(" ");
                    reveal_strlit(",");
                }
                let v = self.get(r, c).unwrap();
                assert(w[r as int][c as int] == v);
                out.append(" ");
                let d = decimal(v);
                out.append(d.as_str());
                out.append(",");
                c = c + 1;
                assert(out@ =~= text_of(w, r as int) + seq!['{'] + cells_text(w[r as int], c as int));
            }
            proof {
                self.lemma_view_shape();
                reveal_strlit(" }\n");
                assert(w[r as int].len() == cols);
            }
            out.append(" }\n");
            r = r + 1;
            assert(out@ =~= text_of(w, r as int));
        }
        out
    }
}

} // verus!
