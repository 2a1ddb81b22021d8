use vstd::prelude::*;
use vstd::arithmetic::div_mod::{
    lemma_fundamental_div_mod, lemma_fundamental_div_mod_converse, lemma_mod_bound,
};

use crate::error::Error;

verus! {

/// Mathematical model of a matrix: a row count, a column count, and the
/// elements in row-major order.
#[verifier::ext_equal]
pub ghost struct MatModel {
    pub rows: nat,
    pub cols: nat,
    pub data: Seq<i32>,
}

impl MatModel {
    /// The stored data exactly fills the `rows` by `cols` grid.
    pub open spec fn wf(self) -> bool {
        self.data.len() == self.rows * self.cols
    }

    /// Element at row `r`, column `c` (row-major order).
    pub open spec fn idx(self, r: int, c: int) -> i32 {
        self.data[r * (self.cols as int) + c]
    }
}

/// The transpose of a model: swapped dimensions, element at (r, c) taken
/// from (c, r) of the argument.
pub open spec fn transpose_of(m: MatModel) -> MatModel {
    MatModel {
        rows: m.cols,
        cols: m.rows,
        data: Seq::new(
            m.cols * m.rows,
            |x: int| m.idx(x % (m.rows as int), x / (m.rows as int)),
        ),
    }
}

/// All rows of a sequence of rows have the length of the first one
/// (trivially true of an empty sequence).
pub open spec fn rect(rs: Seq<Seq<i32>>) -> bool {
    forall|i: int| 0 <= i < rs.len() ==> #[trigger] rs[i].len() == rs[0].len()
}

/// The model built from a sequence of equally long rows.
pub open spec fn model_of_rows(rs: Seq<Seq<i32>>) -> MatModel {
    MatModel {
        rows: rs.len(),
        cols: if rs.len() == 0 {
            0
        } else {
            rs[0].len()
        },
        data: rs.flatten(),
    }
}

/// The error reported for a sequence of rows whose row `i` is the first
/// whose length differs from row 0's: it carries the row count and the
/// expected length on the left, the offending index and its length on
/// the right.
pub open spec fn ragged_error_at(rs: Seq<Seq<i32>>, i: int, e: Error) -> bool {
    &&& 0 < i < rs.len()
    &&& rs[i].len() != rs[0].len()
    &&& forall|k: int| 0 <= k < i ==> #[trigger] rs[k].len() == rs[0].len()
    &&& e == (Error::DimensionError {
        left_rows: rs.len() as usize,
        left_cols: rs[0].len() as usize,
        right_rows: i as usize,
        right_cols: rs[i].len() as usize,
    })
}

/// The rows of a model, as a sequence of sequences.
pub open spec fn rows_seq(m: MatModel) -> Seq<Seq<i32>> {
    Seq::new(m.rows, |r: int| Seq::new(m.cols, |c: int| m.idx(r, c)))
}

/// Every pairwise sum of corresponding elements stays within the element
/// type's range.
pub open spec fn add_fits(a: MatModel, b: MatModel) -> bool {
    forall|i: int| #![trigger a.data[i]]
        0 <= i < a.data.len() ==> i32::MIN as int <= a.data[i] + b.data[i] <= i32::MAX as int
}

/// The elementwise sum of two same-shaped models.
pub open spec fn add_of(a: MatModel, b: MatModel) -> MatModel {
    MatModel {
        rows: a.rows,
        cols: a.cols,
        data: Seq::new(a.data.len(), |i: int| (a.data[i] + b.data[i]) as i32),
    }
}

/// One product of the inner sum of a matrix product:
/// `a[i][k] * b[k][j]`.
pub open spec fn dot_term(a: MatModel, b: MatModel, i: int, j: int, k: int) -> int {
    a.idx(i, k) * b.idx(k, j)
}

/// The sum of the first `k` products of row `i` of `a` with column `j` of
/// `b`, accumulated left to right.
pub open spec fn dot_prefix(a: MatModel, b: MatModel, i: int, j: int, k: int) -> int
    decreases k,
{
    if k <= 0 {
        0
    } else {
        dot_prefix(a, b, i, j, k - 1) + dot_term(a, b, i, j, k - 1)
    }
}

/// The full inner sum at position (i, j) of the product of `a` and `b`.
pub open spec fn dot_entry(a: MatModel, b: MatModel, i: int, j: int) -> int {
    dot_prefix(a, b, i, j, a.cols as int)
}

/// Every product and every left-to-right partial sum of the matrix
/// product stays within the element type's range.
pub open spec fn dot_fits(a: MatModel, b: MatModel) -> bool {
    &&& forall|i: int, j: int, k: int|
        0 <= i < a.rows && 0 <= j < b.cols && 0 <= k < a.cols
            ==> i32::MIN as int <= #[trigger] dot_term(a, b, i, j, k) <= i32::MAX as int
    &&& forall|i: int, j: int, k: int|
        0 <= i < a.rows && 0 <= j < b.cols && 0 <= k <= a.cols
            ==> i32::MIN as int <= #[trigger] dot_prefix(a, b, i, j, k) <= i32::MAX as int
}

/// All products and partial sums at one output position stay in range.
pub open spec fn dot_pair_ok(a: MatModel, b: MatModel, i: int, j: int) -> bool {
    &&& forall|k: int|
        0 <= k < a.cols ==> i32::MIN as int <= #[trigger] dot_term(a, b, i, j, k)
            <= i32::MAX as int
    &&& forall|k: int|
        0 <= k <= a.cols ==> i32::MIN as int <= #[trigger] dot_prefix(a, b, i, j, k)
            <= i32::MAX as int
}

/// The matrix product of `a` and `b` (inner dimensions must agree for the
/// entries to be meaningful).
pub open spec fn dot_of(a: MatModel, b: MatModel) -> MatModel {
    MatModel {
        rows: a.rows,
        cols: b.cols,
        data: Seq::new(
            a.rows * b.cols,
            |t: int| dot_entry(a, b, t / (b.cols as int), t % (b.cols as int)) as i32,
        ),
    }
}

/// The sum of the first `r` elements of column `j`.
pub open spec fn col_sum(m: MatModel, j: int, r: int) -> int
    decreases r,
{
    if r <= 0 {
        0
    } else {
        col_sum(m, j, r - 1) + m.idx(r - 1, j)
    }
}

/// Integer division truncating toward zero (for a positive divisor), the
/// convention of the element type's `/`.
pub open spec fn tdiv(a: int, b: int) -> int {
    if a >= 0 {
        a / b
    } else {
        -((-a) / b)
    }
}

/// The truncating mean of column `j`: its sum divided by the row count.
pub open spec fn mean_of(m: MatModel, j: int) -> int {
    tdiv(col_sum(m, j, m.rows as int), m.rows as int)
}

/// Flattening equally long rows yields `count * width` elements.
proof fn lemma_flatten_len_uniform(rs: Seq<Seq<i32>>, w: nat)
    requires
        forall|i: int| 0 <= i < rs.len() ==> #[trigger] rs[i].len() == w,
    ensures
        rs.flatten().len() == rs.len() * w,
    decreases rs.len(),
{
    if rs.len() == 0 {
    } else {
        lemma_flatten_len_uniform(rs.drop_first(), w);
        assert(rs.flatten() == rs.first() + rs.drop_first().flatten());
        assert((rs.len() - 1) * w + w == rs.len() * w) by (nonlinear_arith);
    }
}

/// In the flattening of equally long rows, the element at
/// `r * w + c` is the element at column `c` of row `r`.
proof fn lemma_flatten_idx_uniform(rs: Seq<Seq<i32>>, w: nat, r: int, c: int)
    requires
        forall|i: int| 0 <= i < rs.len() ==> #[trigger] rs[i].len() == w,
        0 <= r < rs.len(),
        0 <= c < w,
    ensures
        rs.flatten()[r * w + c] == rs[r][c],
    decreases r,
{
    assert(rs.flatten() == rs.first() + rs.drop_first().flatten());
    if r == 0 {
        assert(r * w + c == c) by (nonlinear_arith)
            requires
                r == 0,
        ;
        assert(rs.flatten()[c] == rs[0][c]);
        assert(rs.flatten()[r * w + c] == rs[r][c]);
    } else {
        lemma_flatten_idx_uniform(rs.drop_first(), w, r - 1, c);
        lemma_flatten_len_uniform(rs.drop_first(), w);
        assert(r * w + c - w == (r - 1) * w + c) by (nonlinear_arith);
        assert(w <= r * w + c) by (nonlinear_arith)
            requires
                1 <= r,
                0 <= c,
                0 <= w,
        ;
        assert((r - 1) * w + c < (rs.len() - 1) * w) by (nonlinear_arith)
            requires
                r < rs.len(),
                0 <= c < w,
        ;
        assert(rs.first().len() == w);
        assert(rs.flatten()[r * w + c] == rs.drop_first().flatten()[r * w + c - w]);
        assert(rs.drop_first().flatten()[(r - 1) * w + c] == rs.drop_first()[r - 1][c]);
        assert(rs.drop_first()[r - 1] == rs[r]);
        assert(rs.flatten()[r * w + c] == rs[r][c]);
    }
}

/// A dense, row-major, rectangular matrix of 32-bit signed integers.
///
/// Invariant (see `MatModel::wf`): the flat data has exactly
/// `rows * cols` elements; constructors establish it and every
/// operation preserves it.
#[derive(Debug)]
pub struct Matrix {
    num_rows: usize,
    num_cols: usize,
    data: Vec<i32>,
}

impl View for Matrix {
    type V = MatModel;

    closed spec fn view(&self) -> MatModel {
        MatModel { rows: self.num_rows as nat, cols: self.num_cols as nat, data: self.data@ }
    }
}

impl Matrix {
    /// The empty matrix: zero rows, zero columns, no data.
    pub fn new() -> (r: Matrix)
        ensures
            r@ == (MatModel { rows: 0, cols: 0, data: Seq::<i32>::empty() }),
            r@.wf(),
    {
        let r = Matrix { num_rows: 0, num_cols: 0, data: Vec::new() };
        proof {
            assert(r@ =~= MatModel { rows: 0, cols: 0, data: Seq::<i32>::empty() });
        }
        r
    }

    /// Builds a matrix with `num_rows` rows from flat row-major data; the
    /// column count is `data.len() / num_rows`.
    ///
    /// Fails with `DimensionError` when `num_rows` is zero (the fields then
    /// hold `left = (0, data.len())`, `right = (1, 0)`: at least one row is
    /// needed) or when `data.len()` is not a multiple of `num_rows` (the
    /// fields then hold `left = (num_rows, data.len())` and
    /// `right = (num_rows, data.len() % num_rows)`, naming the leftover).
    pub fn from_1d(num_rows: usize, data: Vec<i32>) -> (r: Result<Matrix, Error>)
        ensures
            match r {
                Ok(m) => {
                    &&& num_rows > 0
                    &&& data@.len() % (num_rows as nat) == 0
                    &&& m@.rows == num_rows
                    &&& m@.cols == data@.len() / (num_rows as nat)
                    &&& m@.data == data@
                    &&& m@.wf()
                },
                Err(e) => {
                    &&& num_rows == 0 || data@.len() % (num_rows as nat) != 0
                    &&& if num_rows == 0 {
                        e == (Error::DimensionError {
                            left_rows: 0,
                            left_cols: data@.len() as usize,
                            right_rows: 1,
                            right_cols: 0,
                        })
                    } else {
                        e == (Error::DimensionError {
                            left_rows: num_rows,
                            left_cols: data@.len() as usize,
                            right_rows: num_rows,
                            right_cols: (data@.len() % (num_rows as nat)) as usize,
                        })
                    }
                },
            },
    {
        if num_rows == 0 {
            return Err(Error::DimensionError {
                left_rows: 0,
                left_cols: data.len(),
                right_rows: 1,
                right_cols: 0,
            });
        }
        let modulo = data.len() % num_rows;
        if modulo != 0 {
            return Err(Error::DimensionError {
                left_rows: num_rows,
                left_cols: data.len(),
                right_rows: num_rows,
                right_cols: modulo,
            });
        }
        let num_cols = data.len() / num_rows;
        proof {
            lemma_fundamental_div_mod(data@.len() as int, num_rows as int);
        }
        Ok(Matrix { num_rows, num_cols, data })
    }

    /// True when the matrix holds no elements.
    pub fn is_empty(&self) -> (r: bool)
        ensures
            r == (self@.data.len() == 0),
    {
        self.data.len() == 0
    }

    /// The row and column counts, in that order.
    pub fn dims(&self) -> (r: (usize, usize))
        ensures
            r.0 == self@.rows,
            r.1 == self@.cols,
    {
        (self.num_rows, self.num_cols)
    }

    /// Builds a matrix from a sequence of rows. An empty sequence gives the
    /// empty matrix; otherwise every row must have the length of the first.
    ///
    /// Fails with `DimensionError` when a row's length differs from the
    /// first row's; the fields then hold `left = (row count, first row's
    /// length)` and `right = (index of the offending row, its length)`.
    pub fn from_2d(data: Vec<Vec<i32>>) -> (r: Result<Matrix, Error>)
        ensures
            match r {
                Ok(m) => {
                    &&& rect(data.deep_view())
                    &&& m@ == model_of_rows(data.deep_view())
                    &&& m@.wf()
                },
                Err(e) => {
                    &&& !rect(data.deep_view())
                    &&& exists|i: int| #[trigger] ragged_error_at(data.deep_view(), i, e)
                },
            },
    {
        let ghost rs = data.deep_view();
        proof {
            assert(rs.len() == data@.len());
            assert(forall|i: int| 0 <= i < rs.len() ==> #[trigger] rs[i]
                == data@[i].deep_view());
        }
        if data.len() == 0 {
            let m = Matrix { num_rows: 0, num_cols: 0, data: Vec::new() };
            proof {
                assert(rs.flatten() =~= Seq::<i32>::empty());
                assert(m@ =~= model_of_rows(rs));
                assert(m@ == model_of_rows(rs));
                assert(rect(rs));
                assert(m@.rows * m@.cols == 0) by (nonlinear_arith)
                    requires
                        m@.rows == 0,
                ;
                assert(m@.wf());
            }
            return Ok(m);
        }

        let num_rows = data.len();
        let num_cols = data[0].len();
        let mut i: usize = 1;
        #[verifier::loop_isolation(false)]
        while i < num_rows
            invariant
                1 <= i <= num_rows,
                forall|k: int| 0 <= k < i ==> #[trigger] rs[k].len() == num_cols,
            decreases num_rows - i,
        {
            if data[i].len() != num_cols {
                let e = Error::DimensionError {
                    left_rows: num_rows,
                    left_cols: num_cols,
                    right_rows: i,
                    right_cols: data[i].len(),
                };
                proof {
                    assert(rs[i as int].len() != rs[0].len());
                    assert(ragged_error_at(rs, i as int, e));
                }
                return Err(e);
            }
            i = i + 1;
        }

        let mut flat: Vec<i32> = Vec::new();
        let mut r: usize = 0;
        #[verifier::loop_isolation(false)]
        while r < num_rows
            invariant
                0 <= r <= num_rows,
                forall|k: int| 0 <= k < rs.len() ==> #[trigger] rs[k].len() == num_cols,
                flat@ == rs.take(r as int).flatten(),
            decreases num_rows - r,
        {
            let row_len = data[r].len();
            let mut c: usize = 0;
            #[verifier::loop_isolation(false)]
            while c < row_len
                invariant
                    0 <= c <= row_len,
                    r < num_rows,
                    row_len == rs[r as int].len(),
                    flat@ == rs.take(r as int).flatten() + rs[r as int].take(c as int),
                decreases row_len - c,
            {
                flat.push(data[r][c]);
                proof {
                    assert(data@[r as int]@[c as int] == rs[r as int][c as int]);
                    assert(flat@ =~= rs.take(r as int).flatten() + rs[r as int].take(
                        c as int + 1,
                    ));
                }
                c = c + 1;
            }
            proof {
                assert(rs[r as int].take(row_len as int) =~= rs[r as int]);
                assert(rs.take(r as int).push(rs[r as int]) =~= rs.take(r as int + 1));
                rs.take(r as int).lemma_flatten_push(rs[r as int]);
                assert(flat@ =~= rs.take(r as int + 1).flatten());
            }
            r = r + 1;
        }
        proof {
            assert(rs.take(num_rows as int) =~= rs);
            lemma_flatten_len_uniform(rs, num_cols as nat);
        }
        let m = Matrix { num_rows, num_cols, data: flat };
        proof {
            assert(m@ =~= model_of_rows(rs));
            assert(m@ == model_of_rows(rs));
            assert(m@.wf());
        }
        Ok(m)
    }

    /// The rows of the matrix, each as an owned vector, in order. A
    /// matrix with rows but no columns yields that many empty rows.
    pub fn rows(&self) -> (r: Vec<Vec<i32>>)
        requires
            self@.wf(),
        ensures
            r.deep_view() == rows_seq(self@),
    {
        // Pins the data length as a machine word, which the row-major
        // index bound below needs.
        let _data_len = self.data.len();
        let mut out: Vec<Vec<i32>> = Vec::new();
        let mut r: usize = 0;
        #[verifier::loop_isolation(false)]
        while r < self.num_rows
            invariant
                0 <= r <= self@.rows,
                out@.len() == r as int,
                forall|k: int| 0 <= k < r ==> #[trigger] out@[k]@ == rows_seq(self@)[k],
            decreases self.num_rows - r,
        {
            let mut row: Vec<i32> = Vec::new();
            let mut c: usize = 0;
            #[verifier::loop_isolation(false)]
            while c < self.num_cols
                invariant
                    r < self@.rows,
                    0 <= c <= self@.cols,
                    row@.len() == c as int,
                    forall|k: int| 0 <= k < c ==> #[trigger] row@[k] == self@.idx(r as int, k),
                decreases self.num_cols - c,
            {
                proof {
                    lemma_row_major_index(self@, r as int, c as int);
                }
                row.push(self.data[r * self.num_cols + c]);
                c = c + 1;
            }
            proof {
                assert(row@ =~= rows_seq(self@)[r as int]);
            }
            out.push(row);
            r = r + 1;
        }
        proof {
            assert forall|k: int| 0 <= k < out.deep_view().len() implies #[trigger] out
                .deep_view()[k] == rows_seq(self@)[k] by {
                assert(out.deep_view()[k] =~= out@[k]@);
            }
            assert(out.deep_view() =~= rows_seq(self@));
        }
        out
    }

    /// Returns the transpose: dimensions swapped, element at (r, c) taken
    /// from (c, r). The receiver is unchanged; the result owns fresh data.
    pub fn transpose(&self) -> (r: Matrix)
        requires
            self@.wf(),
        ensures
            r@ == transpose_of(self@),
            r@.wf(),
            r@.rows == self@.cols,
            r@.cols == self@.rows,
    {
        // Pins the data length as a machine word, which the row-major
        // index bound below needs.
        let _data_len = self.data.len();
        let ghost t = transpose_of(self@);
        let mut new_data: Vec<i32> = Vec::new();
        let mut c: usize = 0;
        #[verifier::loop_isolation(false)]
        while c < self.num_cols
            invariant
                0 <= c <= self@.cols,
                new_data@.len() == c as int * self@.rows,
                forall|x: int| 0 <= x < new_data@.len() ==> #[trigger] new_data@[x] == t.data[x],
            decreases self.num_cols - c,
        {
            let mut r: usize = 0;
            #[verifier::loop_isolation(false)]
            while r < self.num_rows
                invariant
                    c < self@.cols,
                    0 <= r <= self@.rows,
                    new_data@.len() == c as int * self@.rows + r as int,
                    forall|x: int|
                        0 <= x < new_data@.len() ==> #[trigger] new_data@[x] == t.data[x],
                decreases self.num_rows - r,
            {
                proof {
                    lemma_row_major_index(self@, r as int, c as int);
                    let x = c as int * (self@.rows as int) + r as int;
                    assert(x < self@.cols * self@.rows) by (nonlinear_arith)
                        requires
                            0 <= (c as int) && (c as int) < self@.cols,
                            0 <= (r as int) && (r as int) < self@.rows,
                            x == (c as int) * (self@.rows as int) + (r as int),
                    ;
                    lemma_fundamental_div_mod_converse(
                        x,
                        self@.rows as int,
                        c as int,
                        r as int,
                    );
                    assert(t.data[x] == self@.idx(r as int, c as int));
                }
                new_data.push(self.data[r * self.num_cols + c]);
                r = r + 1;
            }
            proof {
                assert(c as int * self@.rows + self@.rows == (c + 1) as int * self@.rows)
                    by (nonlinear_arith);
            }
            c = c + 1;
        }
        let m = Matrix { num_rows: self.num_cols, num_cols: self.num_rows, data: new_data };
        proof {
            assert(m@.data =~= t.data);
            assert(m@ =~= t);
        }
        m
    }

    /// Elementwise sum. Both operands must have the same shape; otherwise
    /// this fails with `DimensionError` whose fields hold the left shape
    /// and the right shape.
    ///
    /// The sums must stay within the element type's range; callers that
    /// cannot know this beforehand can ask `add_overflows` first.
    pub fn add(self, rhs: Matrix) -> (r: Result<Matrix, Error>)
        requires
            self@.wf(),
            rhs@.wf(),
            (self@.rows == rhs@.rows && self@.cols == rhs@.cols) ==> add_fits(self@, rhs@),
        ensures
            match r {
                Ok(m) => {
                    &&& self@.rows == rhs@.rows
                    &&& self@.cols == rhs@.cols
                    &&& m@ == add_of(self@, rhs@)
                    &&& m@.wf()
                },
                Err(e) => {
                    &&& !(self@.rows == rhs@.rows && self@.cols == rhs@.cols)
                    &&& e == (Error::DimensionError {
                        left_rows: self@.rows as usize,
                        left_cols: self@.cols as usize,
                        right_rows: rhs@.rows as usize,
                        right_cols: rhs@.cols as usize,
                    })
                },
            },
    {
        if self.num_rows != rhs.num_rows || self.num_cols != rhs.num_cols {
            return Err(Error::DimensionError {
                left_rows: self.num_rows,
                left_cols: self.num_cols,
                right_rows: rhs.num_rows,
                right_cols: rhs.num_cols,
            });
        }
        let ghost d = add_of(self@, rhs@);
        let n = self.data.len();
        proof {
            assert(rhs@.data.len() == n as int);
        }
        let mut out: Vec<i32> = Vec::new();
        let mut i: usize = 0;
        #[verifier::loop_isolation(false)]
        while i < n
            invariant
                0 <= i <= n,
                out@.len() == i as int,
                forall|k: int| 0 <= k < i ==> #[trigger] out@[k] == d.data[k],
            decreases n - i,
        {
            out.push(self.data[i] + rhs.data[i]);
            i = i + 1;
        }
        let m = Matrix { num_rows: self.num_rows, num_cols: self.num_cols, data: out };
        proof {
            assert(m@.data =~= d.data);
            assert(m@ =~= d);
            assert(m@ == d);
        }
        Ok(m)
    }

    /// Matrix product. The left operand's column count must equal the
    /// right operand's row count; otherwise this fails with
    /// `DimensionError` whose fields hold the left shape and the right
    /// shape.
    ///
    /// Every product and partial sum must stay within the element type's
    /// range; callers that cannot know this beforehand can ask
    /// `dot_overflows` first.
    pub fn dot(self, rhs: Matrix) -> (r: Result<Matrix, Error>)
        requires
            self@.wf(),
            rhs@.wf(),
            self@.cols == rhs@.rows ==> dot_fits(self@, rhs@),
        ensures
            match r {
                Ok(m) => {
                    &&& self@.cols == rhs@.rows
                    &&& m@ == dot_of(self@, rhs@)
                    &&& m@.rows == self@.rows
                    &&& m@.cols == rhs@.cols
                    &&& m@.wf()
                },
                Err(e) => {
                    &&& self@.cols != rhs@.rows
                    &&& e == (Error::DimensionError {
                        left_rows: self@.rows as usize,
                        left_cols: self@.cols as usize,
                        right_rows: rhs@.rows as usize,
                        right_cols: rhs@.cols as usize,
                    })
                },
            },
    {
        if self.num_cols != rhs.num_rows {
            return Err(Error::DimensionError {
                left_rows: self.num_rows,
                left_cols: self.num_cols,
                right_rows: rhs.num_rows,
                right_cols: rhs.num_cols,
            });
        }
        let ghost d = dot_of(self@, rhs@);
        // Pins both data lengths as machine words, which the row-major
        // index bounds below need.
        let _left_len = self.data.len();
        let _right_len = rhs.data.len();
        let bc = rhs.num_cols;
        let mut out: Vec<i32> = Vec::new();
        let mut i: usize = 0;
        #[verifier::loop_isolation(false)]
        while i < self.num_rows
            invariant
                0 <= i <= self@.rows,
                out@.len() == i as int * (rhs@.cols as int),
                forall|x: int| 0 <= x < out@.len() ==> #[trigger] out@[x] == d.data[x],
            decreases self.num_rows - i,
        {
            let mut j: usize = 0;
            #[verifier::loop_isolation(false)]
            while j < bc
                invariant
                    i < self@.rows,
                    0 <= j <= rhs@.cols,
                    out@.len() == i as int * (rhs@.cols as int) + j as int,
                    forall|x: int| 0 <= x < out@.len() ==> #[trigger] out@[x] == d.data[x],
                decreases bc - j,
            {
                let mut acc: i32 = 0;
                let mut k: usize = 0;
                #[verifier::loop_isolation(false)]
                while k < self.num_cols
                    invariant
                        j < rhs@.cols,
                        0 <= k <= self@.cols,
                        acc as int == dot_prefix(self@, rhs@, i as int, j as int, k as int),
                    decreases self.num_cols - k,
                {
                    proof {
                        lemma_row_major_index(self@, i as int, k as int);
                        lemma_row_major_index(rhs@, k as int, j as int);
                        assert(i32::MIN as int <= dot_term(
                            self@,
                            rhs@,
                            i as int,
                            j as int,
                            k as int,
                        ) <= i32::MAX as int);
                        assert(i32::MIN as int <= dot_prefix(
                            self@,
                            rhs@,
                            i as int,
                            j as int,
                            k as int + 1,
                        ) <= i32::MAX as int);
                    }
                    let p = self.data[i * self.num_cols + k] * rhs.data[k * rhs.num_cols + j];
                    acc = acc + p;
                    k = k + 1;
                }
                proof {
                    let t = i as int * (rhs@.cols as int) + j as int;
                    assert(t < self@.rows * rhs@.cols) by (nonlinear_arith)
                        requires
                            0 <= (i as int) && (i as int) < self@.rows,
                            0 <= (j as int) && (j as int) < rhs@.cols,
                            t == (i as int) * (rhs@.cols as int) + (j as int),
                    ;
                    lemma_fundamental_div_mod_converse(t, rhs@.cols as int, i as int, j as int);
                    assert(d.data[t] == dot_entry(self@, rhs@, i as int, j as int) as i32);
                    assert(acc as int == dot_entry(self@, rhs@, i as int, j as int));
                }
                out.push(acc);
                j = j + 1;
            }
            proof {
                assert(i as int * (rhs@.cols as int) + rhs@.cols == (i + 1) as int * (
                rhs@.cols as int)) by (nonlinear_arith);
            }
            i = i + 1;
        }
        let m = Matrix { num_rows: self.num_rows, num_cols: rhs.num_cols, data: out };
        proof {
            assert(m@.data =~= d.data);
            assert(m@ =~= d);
            assert(m@ == d);
        }
        Ok(m)
    }

    /// The truncating integer mean of each column, in column order.
    ///
    /// Fails with `DimensionError` when the matrix has no rows (there is
    /// then nothing to average); the fields hold `left = (0, cols)` and
    /// `right = (1, cols)`: at least one row is needed. A matrix with rows
    /// but no columns yields an empty vector.
    pub fn column_means(&self) -> (r: Result<Vec<i32>, Error>)
        requires
            self@.wf(),
        ensures
            match r {
                Ok(v) => {
                    &&& self@.rows > 0
                    &&& v@.len() == self@.cols
                    &&& forall|j: int|
                        0 <= j < self@.cols ==> #[trigger] v@[j] as int == mean_of(self@, j)
                },
                Err(e) => {
                    &&& self@.rows == 0
                    &&& e == (Error::DimensionError {
                        left_rows: 0,
                        left_cols: self@.cols as usize,
                        right_rows: 1,
                        right_cols: self@.cols as usize,
                    })
                },
            },
    {
        if self.num_rows == 0 {
            return Err(Error::DimensionError {
                left_rows: 0,
                left_cols: self.num_cols,
                right_rows: 1,
                right_cols: self.num_cols,
            });
        }
        // Pins the data length as a machine word, which the row-major
        // index bound below needs.
        let _data_len = self.data.len();
        let mut means: Vec<i32> = Vec::new();
        let mut j: usize = 0;
        #[verifier::loop_isolation(false)]
        while j < self.num_cols
            invariant
                0 <= j <= self@.cols,
                means@.len() == j as int,
                forall|q: int| 0 <= q < j ==> #[trigger] means@[q] as int == mean_of(self@, q),
            decreases self.num_cols - j,
        {
            let mut sum: i128 = 0;
            let mut r: usize = 0;
            #[verifier::loop_isolation(false)]
            while r < self.num_rows
                invariant
                    j < self@.cols,
                    0 <= r <= self@.rows,
                    sum as int == col_sum(self@, j as int, r as int),
                    -((r as int) * 0x8000_0000) <= sum as int,
                    sum as int <= (r as int) * 0x7fff_ffff,
                decreases self.num_rows - r,
            {
                proof {
                    lemma_row_major_index(self@, r as int, j as int);
                    let e = self@.idx(r as int, j as int) as int;
                    assert(-((r as int + 1) * 0x8000_0000) <= sum as int + e) by (nonlinear_arith)
                        requires
                            -((r as int) * 0x8000_0000) <= sum as int,
                            -0x8000_0000 <= e,
                    ;
                    assert(sum as int + e <= (r as int + 1) * 0x7fff_ffff) by (nonlinear_arith)
                        requires
                            sum as int <= (r as int) * 0x7fff_ffff,
                            e <= 0x7fff_ffff,
                    ;
                    assert((r as int + 1) <= 0xffff_ffff_ffff_ffff);
                    assert((r as int + 1) * 0x8000_0000 <= 0xffff_ffff_ffff_ffff * 0x8000_0000)
                        by (nonlinear_arith)
                        requires
                            0 <= (r as int + 1) <= 0xffff_ffff_ffff_ffff,
                    ;
                    assert((r as int + 1) * 0x7fff_ffff <= 0xffff_ffff_ffff_ffff * 0x7fff_ffff)
                        by (nonlinear_arith)
                        requires
                            0 <= (r as int + 1) <= 0xffff_ffff_ffff_ffff,
                    ;
                }
                sum = sum + (self.data[r * self.num_cols + j] as i128);
                r = r + 1;
            }
            let rows_big: u128 = self.num_rows as u128;
            let ghost rr = self@.rows as int;
            proof {
                assert(rr * 0x8000_0000 <= 0xffff_ffff_ffff_ffff * 0x8000_0000)
                    by (nonlinear_arith)
                    requires
                        0 <= rr <= 0xffff_ffff_ffff_ffff,
                ;
            }
            let neg = sum < 0;
            let mag: u128 = if neg {
                (-sum) as u128
            } else {
                sum as u128
            };
            let q: u128 = mag / rows_big;
            proof {
                lemma_mean_magnitude_in_range(mag as int, rr, sum as int);
            }
            let mean: i32 = if neg {
                (-(q as i128)) as i32
            } else {
                q as i32
            };
            proof {
                assert(mean as int == mean_of(self@, j as int));
            }
            means.push(mean);
            j = j + 1;
        }
        Ok(means)
    }

    /// True exactly when the shapes match but some elementwise sum would
    /// leave the element type's range, so that `add` may not be called.
    pub fn add_overflows(&self, rhs: &Matrix) -> (r: bool)
        requires
            self@.wf(),
            rhs@.wf(),
        ensures
            r == (self@.rows == rhs@.rows && self@.cols == rhs@.cols && !add_fits(
                self@,
                rhs@,
            )),
    {
        if self.num_rows != rhs.num_rows || self.num_cols != rhs.num_cols {
            return false;
        }
        let n = self.data.len();
        proof {
            assert(rhs@.data.len() == n as int);
        }
        let mut i: usize = 0;
        #[verifier::loop_isolation(false)]
        while i < n
            invariant
                0 <= i <= n,
                forall|k: int| #![trigger self@.data[k]]
                    0 <= k < i ==> i32::MIN as int <= self@.data[k] + rhs@.data[k]
                        <= i32::MAX as int,
            decreases n - i,
        {
            let sum: i64 = self.data[i] as i64 + rhs.data[i] as i64;
            if sum > 0x7fff_ffff || sum < -0x8000_0000 {
                proof {
                    assert(!(i32::MIN as int <= self@.data[i as int] + rhs@.data[i as int]
                        <= i32::MAX as int));
                }
                return true;
            }
            i = i + 1;
        }
        proof {
            assert(add_fits(self@, rhs@));
        }
        false
    }

    /// True exactly when the inner dimensions match but some product or
    /// left-to-right partial sum of the matrix product would leave the
    /// element type's range, so that `dot` may not be called.
    pub fn dot_overflows(&self, rhs: &Matrix) -> (r: bool)
        requires
            self@.wf(),
            rhs@.wf(),
        ensures
            r == (self@.cols == rhs@.rows && !dot_fits(self@, rhs@)),
    {
        if self.num_cols != rhs.num_rows {
            return false;
        }
        // Pins both data lengths as machine words, which the row-major
        // index bounds below need.
        let _left_len = self.data.len();
        let _right_len = rhs.data.len();
        let mut i: usize = 0;
        #[verifier::loop_isolation(false)]
        while i < self.num_rows
            invariant
                0 <= i <= self@.rows,
                forall|i2: int, j2: int|
                    0 <= i2 < i && 0 <= j2 < rhs@.cols ==> #[trigger] dot_pair_ok(
                        self@,
                        rhs@,
                        i2,
                        j2,
                    ),
            decreases self.num_rows - i,
        {
            let mut j: usize = 0;
            #[verifier::loop_isolation(false)]
            while j < rhs.num_cols
                invariant
                    i < self@.rows,
                    0 <= j <= rhs@.cols,
                    forall|j2: int|
                        0 <= j2 < j ==> #[trigger] dot_pair_ok(self@, rhs@, i as int, j2),
                decreases rhs.num_cols - j,
            {
                let mut acc: i64 = 0;
                let mut k: usize = 0;
                #[verifier::loop_isolation(false)]
                while k < self.num_cols
                    invariant
                        j < rhs@.cols,
                        0 <= k <= self@.cols,
                        acc as int == dot_prefix(self@, rhs@, i as int, j as int, k as int),
                        forall|k2: int|
                            0 <= k2 < k ==> i32::MIN as int <= #[trigger] dot_term(
                                self@,
                                rhs@,
                                i as int,
                                j as int,
                                k2,
                            ) <= i32::MAX as int,
                        forall|k2: int|
                            0 <= k2 <= k ==> i32::MIN as int <= #[trigger] dot_prefix(
                                self@,
                                rhs@,
                                i as int,
                                j as int,
                                k2,
                            ) <= i32::MAX as int,
                    decreases self.num_cols - k,
                {
                    proof {
                        lemma_row_major_index(self@, i as int, k as int);
                        lemma_row_major_index(rhs@, k as int, j as int);
                    }
                    let x: i64 = self.data[i * self.num_cols + k] as i64;
                    let y: i64 = rhs.data[k * rhs.num_cols + j] as i64;
                    proof {
                        assert(-0x4000_0000_0000_0000 <= (x as int) * (y as int)
                            <= 0x4000_0000_0000_0000) by (nonlinear_arith)
                            requires
                                -0x8000_0000 <= (x as int) <= 0x7fff_ffff,
                                -0x8000_0000 <= (y as int) <= 0x7fff_ffff,
                        ;
                    }
                    let p: i64 = x * y;
                    proof {
                        assert(p as int == dot_term(self@, rhs@, i as int, j as int, k as int));
                    }
                    if p > 0x7fff_ffff || p < -0x8000_0000 {
                        proof {
                            assert(!dot_fits(self@, rhs@));
                        }
                        return true;
                    }
                    let acc2: i64 = acc + p;
                    proof {
                        assert(acc2 as int == dot_prefix(
                            self@,
                            rhs@,
                            i as int,
                            j as int,
                            k as int + 1,
                        ));
                    }
                    if acc2 > 0x7fff_ffff || acc2 < -0x8000_0000 {
                        proof {
                            assert(!dot_fits(self@, rhs@));
                        }
                        return true;
                    }
                    acc = acc2;
                    k = k + 1;
                }
                proof {
                    assert(dot_pair_ok(self@, rhs@, i as int, j as int));
                }
                j = j + 1;
            }
            i = i + 1;
        }
        proof {
            assert forall|i2: int, j2: int, k2: int|
                0 <= i2 < self@.rows && 0 <= j2 < rhs@.cols && 0 <= k2 < self@.cols implies
                i32::MIN as int <= #[trigger] dot_term(self@, rhs@, i2, j2, k2)
                    <= i32::MAX as int by {
                assert(dot_pair_ok(self@, rhs@, i2, j2));
            }
            assert forall|i2: int, j2: int, k2: int|
                0 <= i2 < self@.rows && 0 <= j2 < rhs@.cols && 0 <= k2 <= self@.cols implies
                i32::MIN as int <= #[trigger] dot_prefix(self@, rhs@, i2, j2, k2)
                    <= i32::MAX as int by {
                assert(dot_pair_ok(self@, rhs@, i2, j2));
            }
            assert(dot_fits(self@, rhs@));
        }
        false
    }
}

impl PartialEq for Matrix {
    /// Structural equality: same shape and the same elements.
    fn eq(&self, other: &Matrix) -> (r: bool) {
        if self.num_rows != other.num_rows || self.num_cols != other.num_cols {
            proof {
                assert(self@ != other@);
            }
            return false;
        }
        let n = self.data.len();
        if n != other.data.len() {
            proof {
                assert(self@.data.len() != other@.data.len());
            }
            return false;
        }
        let mut i: usize = 0;
        #[verifier::loop_isolation(false)]
        while i < n
            invariant
                0 <= i <= n,
                forall|k: int| 0 <= k < i ==> #[trigger] self@.data[k] == other@.data[k],
            decreases n - i,
        {
            if self.data[i] != other.data[i] {
                proof {
                    assert(self@.data[i as int] != other@.data[i as int]);
                }
                return false;
            }
            i = i + 1;
        }
        proof {
            assert(self@.data =~= other@.data);
            assert(self@ =~= other@);
        }
        true
    }
}

impl vstd::std_specs::cmp::PartialEqSpecImpl for Matrix {
    open spec fn obeys_eq_spec() -> bool {
        true
    }

    open spec fn eq_spec(&self, other: &Matrix) -> bool {
        self@ == other@
    }
}

impl Default for Matrix {
    /// The empty matrix, as `new` builds it.
    fn default() -> (r: Matrix)
        ensures
            r@ == (MatModel { rows: 0, cols: 0, data: Seq::<i32>::empty() }),
            r@.wf(),
    {
        Matrix::new()
    }
}

/// A valid row-major index is within the data: `r * cols + c < rows * cols`
/// whenever `r < rows` and `c < cols`.
proof fn lemma_row_major_index(m: MatModel, r: int, c: int)
    requires
        m.wf(),
        0 <= r < m.rows,
        0 <= c < m.cols,
    ensures
        0 <= r * (m.cols as int) + c < m.data.len(),
{
    assert(r * (m.cols as int) + c < m.rows * m.cols) by (nonlinear_arith)
        requires
            0 <= r < m.rows,
            0 <= c < m.cols,
    ;
}

/// The magnitude of a column sum divided by the row count stays within
/// the element range: for `0 <= mag <= rr * 2^31` and `rr > 0`,
/// `mag / rr <= 2^31`, and when the sum was nonnegative,
/// `mag <= rr * (2^31 - 1)` gives `mag / rr <= 2^31 - 1`.
proof fn lemma_mean_magnitude_in_range(mag: int, rr: int, sum: int)
    requires
        rr > 0,
        mag == if sum >= 0 { sum } else { -sum },
        -(rr * 0x8000_0000) <= sum <= rr * 0x7fff_ffff,
    ensures
        0 <= mag / rr <= 0x8000_0000,
        sum >= 0 ==> mag / rr <= 0x7fff_ffff,
{
    vstd::arithmetic::div_mod::lemma_div_is_ordered(0, mag, rr);
    if sum >= 0 {
        vstd::arithmetic::div_mod::lemma_div_is_ordered(mag, rr * 0x7fff_ffff, rr);
        vstd::arithmetic::div_mod::lemma_div_multiples_vanish(0x7fff_ffff, rr);
        assert(rr * 0x7fff_ffff == 0x7fff_ffff * rr) by (nonlinear_arith);
        assert((rr * 0x7fff_ffff) / rr == 0x7fff_ffff);
    } else {
        assert(mag <= rr * 0x8000_0000);
        vstd::arithmetic::div_mod::lemma_div_is_ordered(mag, rr * 0x8000_0000, rr);
        vstd::arithmetic::div_mod::lemma_div_multiples_vanish(0x8000_0000, rr);
        assert(rr * 0x8000_0000 == 0x8000_0000 * rr) by (nonlinear_arith);
        assert((rr * 0x8000_0000) / rr == 0x8000_0000);
    }
}

/// Elementwise addition of same-shaped matrices is commutative.
pub proof fn lemma_add_comm(a: MatModel, b: MatModel)
    requires
        a.wf(),
        b.wf(),
        a.rows == b.rows,
        a.cols == b.cols,
    ensures
        add_of(a, b) == add_of(b, a),
{
    assert(add_of(a, b).data =~= add_of(b, a).data);
    assert(add_of(a, b) =~= add_of(b, a));
}

/// A well-formed model with at least one row is exactly the matrix
/// rebuilt from its own sequence of rows.
pub proof fn lemma_model_of_rows_seq(m: MatModel)
    requires
        m.wf(),
        m.rows >= 1,
    ensures
        rect(rows_seq(m)),
        model_of_rows(rows_seq(m)) == m,
{
    let rs = rows_seq(m);
    assert(forall|i: int| 0 <= i < rs.len() ==> #[trigger] rs[i].len() == m.cols);
    lemma_flatten_len_uniform(rs, m.cols);
    assert forall|x: int| 0 <= x < rs.flatten().len() implies #[trigger] rs.flatten()[x]
        == m.data[x] by {
        let rows = m.rows as int;
        let cols = m.cols as int;
        assert(cols > 0) by (nonlinear_arith)
            requires
                0 <= x < rows * cols,
                0 <= rows,
                0 <= cols,
        ;
        lemma_fundamental_div_mod(x, cols);
        lemma_mod_bound(x, cols);
        let r = x / cols;
        let c = x % cols;
        assert(0 <= r < rows) by (nonlinear_arith)
            requires
                x == cols * r + c,
                0 <= c < cols,
                0 <= x < rows * cols,
        ;
        lemma_flatten_idx_uniform(rs, m.cols, r, c);
        assert(r * cols + c == x) by (nonlinear_arith)
            requires
                x == cols * r + c,
        ;
        assert(rs[r][c] == m.idx(r, c));
        assert(r * (m.cols as nat) + c == x);
    }
    assert(rs.flatten() =~= m.data);
    assert(model_of_rows(rs) =~= m);
}

/// Transposing twice gives back the original matrix.
pub proof fn lemma_transpose_transpose(m: MatModel)
    requires
        m.wf(),
    ensures
        transpose_of(transpose_of(m)) == m,
{
    let t = transpose_of(m);
    let u = transpose_of(t);
    assert(u.data.len() == m.data.len()) by (nonlinear_arith)
        requires
            u.data.len() == t.cols * t.rows,
            m.data.len() == m.rows * m.cols,
            t.cols == m.rows,
            t.rows == m.cols,
    ;
    assert forall|x: int| 0 <= x < u.data.len() implies #[trigger] u.data[x] == m.data[x] by {
        let rows = m.rows as int;
        let cols = m.cols as int;
        assert(cols > 0) by (nonlinear_arith)
            requires
                0 <= x < rows * cols,
                0 <= rows,
                0 <= cols,
        ;
        lemma_fundamental_div_mod(x, cols);
        lemma_mod_bound(x, cols);
        let r = x / cols;
        let c = x % cols;
        assert(0 <= r < rows) by (nonlinear_arith)
            requires
                x == cols * r + c,
                0 <= c < cols,
                0 <= x < rows * cols,
        ;
        assert(u.data[x] == t.idx(x % (t.rows as int), x / (t.rows as int)));
        lemma_fundamental_div_mod_converse(cols * r + c, cols, r, c);
        assert(x / (t.rows as int) == r && x % (t.rows as int) == c);
        let y = c * rows + r;
        assert(0 <= y < cols * rows) by (nonlinear_arith)
            requires
                0 <= c < cols,
                0 <= r < rows,
                y == c * rows + r,
        ;
        assert(t.idx(c, r) == t.data[y]);
        lemma_fundamental_div_mod_converse(y, rows, c, r);
        assert(t.data[y] == m.idx(r, c));
        assert(m.idx(r, c) == m.data[x]);
    }
    assert(u.data =~= m.data);
    assert(u =~= m);
}

} // verus!
