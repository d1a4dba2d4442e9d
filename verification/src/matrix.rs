//! A dense, row-major matrix engine, generic over the scalar type.
//!
//! The engine itself is purely structural: it places, copies and combines
//! entries, while the scalar arithmetic (addition, multiplication, and so
//! on) is supplied by the caller as closures. Every operation's contract
//! pins the shape of the result exactly and relates every result entry to
//! the operand entries through the supplied closure's postcondition.
//!
//! A matrix is rectangular with at least one row and one column; operations
//! return new matrices and never alter their operands. Operations on two
//! matrices whose shapes do not conform return a [`MatrixError`], stated
//! if-and-only-if in each contract.

use vstd::prelude::*;

use crate::rng::Rng;
use crate::rng::nth_draw;
use crate::rng::state_after;

verus! {

/// The ways a matrix operation can be misused.
#[derive(Clone, Copy, Debug, PartialEq, Eq, Structural)]
pub enum MatrixError {
    /// The operands' shapes do not conform for the requested operation.
    ShapeMismatch,
    /// A literal grid has rows of differing lengths.
    RaggedRows,
    /// A literal grid has no rows, or an empty first row.
    Empty,
}

/// A rectangular grid with at least one row and one column, all rows of
/// equal length.
pub open spec fn rect<T>(v: Seq<Seq<T>>) -> bool {
    &&& v.len() >= 1
    &&& v[0].len() >= 1
    &&& forall|i: int| 0 <= i < v.len() ==> (#[trigger] v[i]).len() == v[0].len()
}

/// The column count of a grid: the length of its first row.
pub open spec fn ncols<T>(v: Seq<Seq<T>>) -> nat {
    if v.len() > 0 {
        v[0].len()
    } else {
        0
    }
}

/// Two grids have the same shape.
pub open spec fn same_shape<T>(a: Seq<Seq<T>>, b: Seq<Seq<T>>) -> bool {
    b.len() == a.len() && ncols(b) == ncols(a)
}

/// Column `j` of a grid, as a sequence of the grid's row count.
pub open spec fn col<T>(v: Seq<Seq<T>>, j: int) -> Seq<T> {
    Seq::new(v.len(), |k: int| v[k][j])
}

/// The grid read off a two-level vector, row by row.
pub open spec fn grid_view<T>(d: Seq<Vec<T>>) -> Seq<Seq<T>> {
    Seq::new(d.len(), |i: int| d[i]@)
}

/// The single-column grid holding the entries of `v` from top to bottom.
pub open spec fn column_view<T>(v: Seq<T>) -> Seq<Seq<T>> {
    Seq::new(v.len(), |i: int| Seq::new(1, |j: int| v[i]))
}

/// The transpose of a grid: entry `(j, i)` of the result is entry `(i, j)`
/// of the argument.
pub open spec fn transpose_view<T>(v: Seq<Seq<T>>) -> Seq<Seq<T>> {
    Seq::new(ncols(v), |j: int| Seq::new(v.len(), |i: int| v[i][j]))
}

/// Grid `b` arises from grid `a` by applying `f` to every entry: the shapes
/// agree and every entry of `b` is a possible result of `f` on the
/// corresponding entry of `a`.
pub open spec fn map_rel<T, F: Fn(T) -> T>(f: F, a: Seq<Seq<T>>, b: Seq<Seq<T>>) -> bool {
    &&& same_shape(a, b)
    &&& forall|i: int, j: int|
        0 <= i < a.len() && 0 <= j < ncols(a) ==> #[trigger] call_ensures(f, (a[i][j],), b[i][j])
}

/// Grid `c` arises from grids `a` and `b` by combining corresponding
/// entries with `f`.
pub open spec fn entrywise_rel<T, F: Fn(T, T) -> T>(
    f: F,
    a: Seq<Seq<T>>,
    b: Seq<Seq<T>>,
    c: Seq<Seq<T>>,
) -> bool {
    &&& same_shape(a, c)
    &&& forall|i: int, j: int|
        0 <= i < a.len() && 0 <= j < ncols(a) ==> #[trigger] call_ensures(
            f,
            (a[i][j], b[i][j]),
            c[i][j],
        )
}

/// `acc` is a value the left fold of `plus` over the first `k` products
/// `times(row[t], colv[t])` can reach, starting from `acc0`.
pub open spec fn fold_rel<T, FA: Fn(T, T) -> T, FM: Fn(T, T) -> T>(
    plus: FA,
    times: FM,
    row: Seq<T>,
    colv: Seq<T>,
    k: int,
    acc0: T,
    acc: T,
) -> bool
    decreases k,
{
    if k <= 0 {
        acc == acc0
    } else {
        exists|prev: T, p: T|
            {
                &&& fold_rel(plus, times, row, colv, k - 1, acc0, prev)
                &&& call_ensures(times, (row[k - 1], colv[k - 1]), p)
                &&& #[trigger] call_ensures(plus, (prev, p), acc)
            }
    }
}

/// An empty fold stays at its starting accumulator.
pub proof fn lemma_fold_base<T, FA: Fn(T, T) -> T, FM: Fn(T, T) -> T>(
    plus: FA,
    times: FM,
    row: Seq<T>,
    colv: Seq<T>,
    acc0: T,
)
    ensures
        fold_rel(plus, times, row, colv, 0, acc0, acc0),
{
}

/// A fold reaching `prev` after `k - 1` entries reaches `acc` after `k`
/// entries when `times` can turn the `k`-th pair into `p` and `plus` can
/// combine `prev` with `p` into `acc`.
pub proof fn lemma_fold_step<T, FA: Fn(T, T) -> T, FM: Fn(T, T) -> T>(
    plus: FA,
    times: FM,
    row: Seq<T>,
    colv: Seq<T>,
    k: int,
    acc0: T,
    prev: T,
    p: T,
    acc: T,
)
    requires
        k >= 1,
        fold_rel(plus, times, row, colv, k - 1, acc0, prev),
        call_ensures(times, (row[k - 1], colv[k - 1]), p),
        call_ensures(plus, (prev, p), acc),
    ensures
        fold_rel(plus, times, row, colv, k, acc0, acc),
{
}

/// Grid `c` is a matrix product of `a` and `b` under `plus` and `times`
/// with initial accumulator `zero`: entry `(i, j)` of `c` is a reachable
/// fold of the products of row `i` of `a` with column `j` of `b`.
pub open spec fn product_rel<T, FA: Fn(T, T) -> T, FM: Fn(T, T) -> T>(
    plus: FA,
    times: FM,
    zero: T,
    a: Seq<Seq<T>>,
    b: Seq<Seq<T>>,
    c: Seq<Seq<T>>,
) -> bool {
    &&& c.len() == a.len()
    &&& ncols(c) == ncols(b)
    &&& forall|i: int, j: int|
        0 <= i < a.len() && 0 <= j < ncols(b) ==> fold_rel(
            plus,
            times,
            a[i],
            col(b, j),
            ncols(a) as int,
            zero,
            #[trigger] c[i][j],
        )
}

/// Grid `v` was drawn from the generator seeded with `seed` and converted
/// entry by entry with `conv`: entry `(i, j)` is a possible result of
/// `conv` on draw number `i * ncols(v) + j`.
pub open spec fn random_rel<T, F: Fn(u64) -> T>(conv: F, seed: u64, v: Seq<Seq<T>>) -> bool {
    forall|i: int, j: int|
        0 <= i < v.len() && 0 <= j < ncols(v) ==> call_ensures(
            conv,
            (nth_draw(seed, (i * ncols(v) + j) as nat),),
            #[trigger] v[i][j],
        )
}

/// A dense row-major matrix over scalars of type `T`. The view is the grid
/// of its entries, a sequence of rows.
#[derive(Debug)]
pub struct Matrix<T> {
    rows: usize,
    cols: usize,
    data: Vec<Vec<T>>,
}

impl<T> View for Matrix<T> {
    type V = Seq<Seq<T>>;

    closed spec fn view(&self) -> Seq<Seq<T>> {
        grid_view(self.data@)
    }
}

impl<T: Copy> Matrix<T> {
    /// The matrix is internally consistent: its grid is rectangular and
    /// its stored row and column counts match the grid.
    pub closed spec fn wf(&self) -> bool {
        &&& self.rows == self.data@.len()
        &&& self.rows >= 1
        &&& self.cols >= 1
        &&& forall|i: int| 0 <= i < self.data@.len() ==> (#[trigger] self.data@[i]@).len() == self.cols
        &&& rect(self@)
        &&& self.rows == self@.len()
        &&& self.cols == ncols(self@)
    }

    /// The number of rows.
    pub fn num_rows(&self) -> (r: usize)
        requires
            self.wf(),
        ensures
            r == self@.len(),
    {
        self.rows
    }

    /// The number of columns.
    pub fn num_cols(&self) -> (r: usize)
        requires
            self.wf(),
        ensures
            r == ncols(self@),
    {
        self.cols
    }

    /// The entry at row `i`, column `j`, or `None` when out of range.
    pub fn get(&self, i: usize, j: usize) -> (r: Option<T>)
        requires
            self.wf(),
        ensures
            match r {
                Some(v) => i < self@.len() && j < ncols(self@) && v == self@[i as int][j as int],
                None => i >= self@.len() || j >= ncols(self@),
            },
    {
        if i < self.rows && j < self.cols {
            Some(self.data[i][j])
        } else {
            None
        }
    }

    /// The entry at row `i`, column `j`, which must be in range.
    pub fn at(&self, i: usize, j: usize) -> (r: T)
        requires
            self.wf(),
            i < self@.len(),
            j < ncols(self@),
        ensures
            r == self@[i as int][j as int],
    {
        self.data[i][j]
    }

    /// A single-column matrix holding the entries of `v` from top to
    /// bottom.
    pub fn column(v: &Vec<T>) -> (r: Matrix<T>)
        requires
            v@.len() >= 1,
        ensures
            r.wf(),
            r@.len() == v@.len(),
            ncols(r@) == 1,
            r@ == column_view(v@),
            forall|i: int| 0 <= i < v@.len() ==> #[trigger] r@[i][0] == v@[i],
    {
        let mut data: Vec<Vec<T>> = Vec::new();
        let mut i: usize = 0;
        while i < v.len()
            invariant
                0 <= i <= v@.len(),
                data@.len() == i,
                forall|k: int| 0 <= k < i ==> (#[trigger] data@[k]@).len() == 1,
                forall|k: int| 0 <= k < i ==> #[trigger] data@[k]@[0] == v@[k],
            decreases v@.len() - i,
        {
            let mut row: Vec<T> = Vec::new();
            row.push(v[i]);
            data.push(row);
            i += 1;
        }
        let m = Matrix { rows: v.len(), cols: 1, data };
        proof {
            assert forall|t: int| 0 <= t < v@.len() implies #[trigger] m@[t] =~= column_view(v@)[t] by {
                assert(m@[t].len() == 1);
                assert(m@[t][0] == v@[t]);
            }
            assert(m@ =~~= column_view(v@));
        }
        m
    }

    /// Wraps an explicit row-major grid. Fails on an empty grid or an
    /// empty first row, and fails on rows of differing lengths rather
    /// than truncating them.
    pub fn from(data: Vec<Vec<T>>) -> (r: Result<Matrix<T>, MatrixError>)
        ensures
            match r {
                Ok(m) => {
                    &&& rect(grid_view(data@))
                    &&& m.wf()
                    &&& m@ == grid_view(data@)
                },
                Err(e) => {
                    &&& !rect(grid_view(data@))
                    &&& (e == MatrixError::Empty <==> (data@.len() == 0 || data@[0]@.len()
                        == 0))
                    &&& (e == MatrixError::Empty || e == MatrixError::RaggedRows)
                },
            },
    {
        if data.len() == 0 {
            return Err(MatrixError::Empty);
        }
        let cols = data[0].len();
        if cols == 0 {
            return Err(MatrixError::Empty);
        }
        let mut i: usize = 1;
        while i < data.len()
            invariant
                1 <= i <= data@.len(),
                cols >= 1,
                cols == data@[0]@.len(),
                forall|k: int| 0 <= k < i ==> (#[trigger] data@[k]@).len() == cols,
            decreases data@.len() - i,
        {
            if data[i].len() != cols {
                proof {
                    assert(grid_view(data@)[i as int].len() != grid_view(data@)[0].len());
                }
                return Err(MatrixError::RaggedRows);
            }
            i += 1;
        }
        let rows = data.len();
        let m = Matrix { rows, cols, data };
        proof {
            assert(forall|k: int|
                0 <= k < m@.len() ==> (#[trigger] m@[k]).len() == m@[0].len());
        }
        Ok(m)
    }

    /// A `rows` by `cols` matrix with every entry equal to `value`.
    pub fn fill(rows: usize, cols: usize, value: T) -> (r: Matrix<T>)
        requires
            rows >= 1,
            cols >= 1,
        ensures
            r.wf(),
            r@.len() == rows,
            ncols(r@) == cols,
            forall|i: int, j: int| 0 <= i < rows && 0 <= j < cols ==> #[trigger] r@[i][j] == value,
    {
        let mut data: Vec<Vec<T>> = Vec::new();
        let mut i: usize = 0;
        while i < rows
            invariant
                0 <= i <= rows,
                data@.len() == i,
                forall|k: int| 0 <= k < i ==> (#[trigger] data@[k]@).len() == cols,
                forall|k: int, j: int|
                    0 <= k < i && 0 <= j < cols ==> #[trigger] data@[k]@[j] == value,
            decreases rows - i,
        {
            let mut row: Vec<T> = Vec::new();
            let mut j: usize = 0;
            while j < cols
                invariant
                    0 <= j <= cols,
                    row@.len() == j,
                    forall|t: int| 0 <= t < j ==> #[trigger] row@[t] == value,
                decreases cols - j,
            {
                row.push(value);
                j += 1;
            }
            data.push(row);
            i += 1;
        }
        Matrix { rows, cols, data }
    }

    /// A `rows` by `cols` matrix whose entries are drawn in row-major
    /// order from the generator and converted to scalars by `conv`: entry
    /// `(i, j)` is a possible result of `conv` on draw number
    /// `i * cols + j`. The generator advances by exactly one step per
    /// entry, so the whole matrix is reproducible from the seed.
    pub fn random<F: Fn(u64) -> T>(rows: usize, cols: usize, rng: &mut Rng, conv: &F) -> (r:
        Matrix<T>)
        requires
            rows >= 1,
            cols >= 1,
            rows * cols <= usize::MAX,
            forall|x: u64| #[trigger] call_requires(*conv, (x,)),
        ensures
            r.wf(),
            r@.len() == rows,
            ncols(r@) == cols,
            final(rng)@ == state_after(old(rng)@, (rows * cols) as nat),
            random_rel(*conv, old(rng)@, r@),
    {
        let ghost s0: u64 = rng@;
        let mut data: Vec<Vec<T>> = Vec::new();
        let mut n: usize = 0;
        let mut i: usize = 0;
        proof {
            assert(state_after(s0, 0) == s0);
        }
        while i < rows
            invariant
                0 <= i <= rows,
                cols >= 1,
                rows * cols <= usize::MAX,
                n == i * cols,
                data@.len() == i,
                rng@ == state_after(s0, n as nat),
                forall|x: u64| #[trigger] call_requires(*conv, (x,)),
                forall|k: int| 0 <= k < i ==> (#[trigger] data@[k]@).len() == cols,
                forall|k: int, j: int|
                    0 <= k < i && 0 <= j < cols ==> call_ensures(
                        *conv,
                        (nth_draw(s0, (k * cols + j) as nat),),
                        #[trigger] data@[k]@[j],
                    ),
            decreases rows - i,
        {
            proof {
                assert(i * cols + cols <= rows * cols) by (nonlinear_arith)
                    requires
                        i < rows,
                        cols >= 1,
                ;
            }
            let mut row: Vec<T> = Vec::new();
            let mut j: usize = 0;
            while j < cols
                invariant
                    0 <= j <= cols,
                    i < rows,
                    cols >= 1,
                    rows * cols <= usize::MAX,
                    n == i * cols + j,
                    i * cols + cols <= rows * cols,
                    row@.len() == j,
                    rng@ == state_after(s0, n as nat),
                    forall|x: u64| #[trigger] call_requires(*conv, (x,)),
                    forall|t: int|
                        0 <= t < j ==> call_ensures(
                            *conv,
                            (nth_draw(s0, (i * cols + t) as nat),),
                            #[trigger] row@[t],
                        ),
                decreases cols - j,
            {
                proof {
                    crate::rng::lemma_step_draw(s0, n as nat);
                }
                let w = rng.next_u64();
                let v = conv(w);
                row.push(v);
                j += 1;
                n += 1;
            }
            data.push(row);
            i += 1;
            proof {
                assert(i * cols == (i - 1) * cols + cols) by (nonlinear_arith);
                assert((i - 1) * cols + cols <= rows * cols);
            }
        }
        proof {
            assert(n == rows * cols);
        }
        let m = Matrix { rows, cols, data };
        proof {
            assert(ncols(m@) == cols);
            assert(forall|i: int, j: int|
                0 <= i < m@.len() && 0 <= j < ncols(m@) ==> call_ensures(
                    *conv,
                    (nth_draw(s0, (i * cols + j) as nat),),
                    #[trigger] m@[i][j],
                ));
        }
        m
    }

    /// The transpose: a `cols` by `rows` matrix with entry `(j, i)` equal
    /// to this matrix's entry `(i, j)`.
    pub fn transpose(&self) -> (r: Matrix<T>)
        requires
            self.wf(),
        ensures
            r.wf(),
            r@ == transpose_view(self@),
            r@.len() == ncols(self@),
            ncols(r@) == self@.len(),
            forall|i: int, j: int|
                0 <= i < self@.len() && 0 <= j < ncols(self@) ==> #[trigger] r@[j][i] == self@[i][j],
    {
        let mut data: Vec<Vec<T>> = Vec::new();
        let mut j: usize = 0;
        while j < self.cols
            invariant
                self.wf(),
                0 <= j <= self.cols,
                data@.len() == j,
                forall|t: int| 0 <= t < j ==> (#[trigger] data@[t]@).len() == self@.len(),
                forall|t: int, i: int|
                    0 <= t < j && 0 <= i < self@.len() ==> #[trigger] data@[t]@[i] == self@[i][t],
            decreases self.cols - j,
        {
            let mut row: Vec<T> = Vec::new();
            let mut i: usize = 0;
            while i < self.rows
                invariant
                    self.wf(),
                    j < ncols(self@),
                    0 <= i <= self@.len(),
                    row@.len() == i,
                    forall|t: int| 0 <= t < i ==> #[trigger] row@[t] == self@[t][j as int],
                decreases self.rows - i,
            {
                row.push(self.data[i][j]);
                i += 1;
            }
            data.push(row);
            j += 1;
        }
        let m = Matrix { rows: self.cols, cols: self.rows, data };
        proof {
            assert(m@ =~~= transpose_view(self@));
        }
        m
    }

    /// Applies `f` to every entry, returning a matrix of the same shape
    /// whose entries are possible results of `f` on the old entries.
    pub fn map<F: Fn(T) -> T>(&self, f: &F) -> (r: Matrix<T>)
        requires
            self.wf(),
            forall|x: T| #[trigger] call_requires(*f, (x,)),
        ensures
            r.wf(),
            map_rel(*f, self@, r@),
    {
        let mut data: Vec<Vec<T>> = Vec::new();
        let mut i: usize = 0;
        while i < self.rows
            invariant
                self.wf(),
                0 <= i <= self@.len(),
                data@.len() == i,
                forall|x: T| #[trigger] call_requires(*f, (x,)),
                forall|k: int| 0 <= k < i ==> (#[trigger] data@[k]@).len() == ncols(self@),
                forall|k: int, j: int|
                    0 <= k < i && 0 <= j < ncols(self@) ==> call_ensures(
                        *f,
                        (self@[k][j],),
                        #[trigger] data@[k]@[j],
                    ),
            decreases self.rows - i,
        {
            let mut row: Vec<T> = Vec::new();
            let mut j: usize = 0;
            while j < self.cols
                invariant
                    self.wf(),
                    i < self@.len(),
                    0 <= j <= ncols(self@),
                    row@.len() == j,
                    forall|x: T| #[trigger] call_requires(*f, (x,)),
                    forall|t: int|
                        0 <= t < j ==> call_ensures(*f, (self@[i as int][t],), #[trigger] row@[t]),
                decreases self.cols - j,
            {
                let v = f(self.data[i][j]);
                row.push(v);
                j += 1;
            }
            data.push(row);
            i += 1;
        }
        Matrix { rows: self.rows, cols: self.cols, data }
    }

    /// Combines two matrices of equal shape entry by entry with `f`.
    fn entrywise<F: Fn(T, T) -> T>(&self, other: &Matrix<T>, f: &F) -> (r: Result<
        Matrix<T>,
        MatrixError,
    >)
        requires
            self.wf(),
            other.wf(),
            forall|x: T, y: T| #[trigger] call_requires(*f, (x, y)),
        ensures
            r.is_ok() <==> same_shape(self@, other@),
            match r {
                Ok(m) => m.wf() && entrywise_rel(*f, self@, other@, m@),
                Err(e) => e == MatrixError::ShapeMismatch,
            },
    {
        if self.rows != other.rows || self.cols != other.cols {
            return Err(MatrixError::ShapeMismatch);
        }
        let mut data: Vec<Vec<T>> = Vec::new();
        let mut i: usize = 0;
        while i < self.rows
            invariant
                self.wf(),
                other.wf(),
                same_shape(self@, other@),
                0 <= i <= self@.len(),
                data@.len() == i,
                forall|x: T, y: T| #[trigger] call_requires(*f, (x, y)),
                forall|k: int| 0 <= k < i ==> (#[trigger] data@[k]@).len() == ncols(self@),
                forall|k: int, j: int|
                    0 <= k < i && 0 <= j < ncols(self@) ==> call_ensures(
                        *f,
                        (self@[k][j], other@[k][j]),
                        #[trigger] data@[k]@[j],
                    ),
            decreases self.rows - i,
        {
            let mut row: Vec<T> = Vec::new();
            let mut j: usize = 0;
            while j < self.cols
                invariant
                    self.wf(),
                    other.wf(),
                    same_shape(self@, other@),
                    i < self@.len(),
                    0 <= j <= ncols(self@),
                    row@.len() == j,
                    forall|x: T, y: T| #[trigger] call_requires(*f, (x, y)),
                    forall|t: int|
                        0 <= t < j ==> call_ensures(
                            *f,
                            (self@[i as int][t], other@[i as int][t]),
                            #[trigger] row@[t],
                        ),
                decreases self.cols - j,
            {
                let v = f(self.data[i][j], other.data[i][j]);
                row.push(v);
                j += 1;
            }
            data.push(row);
            i += 1;
        }
        Ok(Matrix { rows: self.rows, cols: self.cols, data })
    }

    /// Elementwise addition under the supplied scalar addition `plus`.
    /// Succeeds exactly when the shapes agree.
    pub fn sum<F: Fn(T, T) -> T>(&self, other: &Matrix<T>, plus: &F) -> (r: Result<
        Matrix<T>,
        MatrixError,
    >)
        requires
            self.wf(),
            other.wf(),
            forall|x: T, y: T| #[trigger] call_requires(*plus, (x, y)),
        ensures
            r.is_ok() <==> same_shape(self@, other@),
            match r {
                Ok(m) => m.wf() && entrywise_rel(*plus, self@, other@, m@),
                Err(e) => e == MatrixError::ShapeMismatch,
            },
    {
        self.entrywise(other, plus)
    }

    /// Elementwise subtraction under the supplied scalar subtraction
    /// `minus`. Succeeds exactly when the shapes agree.
    pub fn subtract<F: Fn(T, T) -> T>(&self, other: &Matrix<T>, minus: &F) -> (r: Result<
        Matrix<T>,
        MatrixError,
    >)
        requires
            self.wf(),
            other.wf(),
            forall|x: T, y: T| #[trigger] call_requires(*minus, (x, y)),
        ensures
            r.is_ok() <==> same_shape(self@, other@),
            match r {
                Ok(m) => m.wf() && entrywise_rel(*minus, self@, other@, m@),
                Err(e) => e == MatrixError::ShapeMismatch,
            },
    {
        self.entrywise(other, minus)
    }

    /// The elementwise (Hadamard) product under the supplied scalar
    /// multiplication `times` — not the matrix product. Succeeds exactly
    /// when the shapes agree.
    pub fn dot<F: Fn(T, T) -> T>(&self, other: &Matrix<T>, times: &F) -> (r: Result<
        Matrix<T>,
        MatrixError,
    >)
        requires
            self.wf(),
            other.wf(),
            forall|x: T, y: T| #[trigger] call_requires(*times, (x, y)),
        ensures
            r.is_ok() <==> same_shape(self@, other@),
            match r {
                Ok(m) => m.wf() && entrywise_rel(*times, self@, other@, m@),
                Err(e) => e == MatrixError::ShapeMismatch,
            },
    {
        self.entrywise(other, times)
    }

    /// The matrix product under the supplied scalar addition and
    /// multiplication, folding each row-column pair from `zero`. Requires
    /// this matrix's column count to equal `other`'s row count; the result
    /// is `self rows` by `other cols`. Succeeds exactly when the shared
    /// dimension conforms.
    pub fn multiply<FA: Fn(T, T) -> T, FM: Fn(T, T) -> T>(
        &self,
        other: &Matrix<T>,
        plus: &FA,
        times: &FM,
        zero: T,
    ) -> (r: Result<Matrix<T>, MatrixError>)
        requires
            self.wf(),
            other.wf(),
            forall|x: T, y: T| #[trigger] call_requires(*plus, (x, y)),
            forall|x: T, y: T| #[trigger] call_requires(*times, (x, y)),
        ensures
            r.is_ok() <==> ncols(self@) == other@.len(),
            match r {
                Ok(m) => {
                    &&& m.wf()
                    &&& m@.len() == self@.len()
                    &&& ncols(m@) == ncols(other@)
                    &&& product_rel(*plus, *times, zero, self@, other@, m@)
                },
                Err(e) => e == MatrixError::ShapeMismatch,
            },
    {
        if self.cols != other.rows {
            return Err(MatrixError::ShapeMismatch);
        }
        let mut data: Vec<Vec<T>> = Vec::new();
        let mut i: usize = 0;
        while i < self.rows
            invariant
                self.wf(),
                other.wf(),
                ncols(self@) == other@.len(),
                0 <= i <= self@.len(),
                data@.len() == i,
                forall|x: T, y: T| #[trigger] call_requires(*plus, (x, y)),
                forall|x: T, y: T| #[trigger] call_requires(*times, (x, y)),
                forall|k: int| 0 <= k < i ==> (#[trigger] data@[k]@).len() == ncols(other@),
                forall|k: int, j: int|
                    0 <= k < i && 0 <= j < ncols(other@) ==> fold_rel(
                        *plus,
                        *times,
                        self@[k],
                        col(other@, j),
                        ncols(self@) as int,
                        zero,
                        #[trigger] data@[k]@[j],
                    ),
            decreases self.rows - i,
        {
            let mut row: Vec<T> = Vec::new();
            let mut j: usize = 0;
            while j < other.cols
                invariant
                    self.wf(),
                    other.wf(),
                    ncols(self@) == other@.len(),
                    i < self@.len(),
                    0 <= j <= ncols(other@),
                    row@.len() == j,
                    forall|x: T, y: T| #[trigger] call_requires(*plus, (x, y)),
                    forall|x: T, y: T| #[trigger] call_requires(*times, (x, y)),
                    forall|t: int|
                        0 <= t < j ==> fold_rel(
                            *plus,
                            *times,
                            self@[i as int],
                            col(other@, t),
                            ncols(self@) as int,
                            zero,
                            #[trigger] row@[t],
                        ),
                decreases other.cols - j,
            {
                proof {
                    lemma_fold_base(*plus, *times, self@[i as int], col(other@, j as int), zero);
                }
                let mut acc: T = zero;
                let mut k: usize = 0;
                while k < self.cols
                    invariant
                        self.wf(),
                        other.wf(),
                        ncols(self@) == other@.len(),
                        i < self@.len(),
                        j < ncols(other@),
                        0 <= k <= ncols(self@),
                        forall|x: T, y: T| #[trigger] call_requires(*plus, (x, y)),
                        forall|x: T, y: T| #[trigger] call_requires(*times, (x, y)),
                        fold_rel(
                            *plus,
                            *times,
                            self@[i as int],
                            col(other@, j as int),
                            k as int,
                            zero,
                            acc,
                        ),
                    decreases self.cols - k,
                {
                    let p = times(self.data[i][k], other.data[k][j]);
                    let next = plus(acc, p);
                    proof {
                        assert(col(other@, j as int)[k as int] == other@[k as int][j as int]);
                        lemma_fold_step(
                            *plus,
                            *times,
                            self@[i as int],
                            col(other@, j as int),
                            k + 1,
                            zero,
                            acc,
                            p,
                            next,
                        );
                    }
                    acc = next;
                    k += 1;
                }
                row.push(acc);
                j += 1;
            }
            data.push(row);
            i += 1;
        }
        Ok(Matrix { rows: self.rows, cols: other.cols, data })
    }
}

/// Transposing twice gives the starting grid back, for every rectangular
/// grid.
pub proof fn lemma_transpose_involution<T>(v: Seq<Seq<T>>)
    requires
        rect(v),
    ensures
        transpose_view(transpose_view(v)) == v,
{
    let t = transpose_view(v);
    let tt = transpose_view(t);
    assert(t.len() == ncols(v));
    assert(t[0].len() == v.len());
    assert(ncols(t) == v.len());
    assert(tt.len() == v.len());
    assert forall|i: int| 0 <= i < v.len() implies #[trigger] tt[i] =~= v[i] by {
        assert(tt[i].len() == t.len());
        assert(v[i].len() == ncols(v));
        assert forall|j: int| 0 <= j < ncols(v) implies #[trigger] tt[i][j] == v[i][j] by {
            assert(tt[i][j] == t[j][i]);
            assert(t[j][i] == v[i][j]);
        }
    }
    assert(tt =~~= v);
}

/// A fold under deterministic scalar operations is itself deterministic:
/// two values the same fold can reach are equal.
pub proof fn lemma_fold_deterministic<T, FA: Fn(T, T) -> T, FM: Fn(T, T) -> T>(
    plus: FA,
    times: FM,
    row: Seq<T>,
    colv: Seq<T>,
    k: int,
    acc0: T,
    r1: T,
    r2: T,
)
    requires
        fold_rel(plus, times, row, colv, k, acc0, r1),
        fold_rel(plus, times, row, colv, k, acc0, r2),
        forall|x: T, y: T, a: T, b: T|
            #[trigger] call_ensures(plus, (x, y), a) && #[trigger] call_ensures(plus, (x, y), b)
                ==> a == b,
        forall|x: T, y: T, a: T, b: T|
            #[trigger] call_ensures(times, (x, y), a) && #[trigger] call_ensures(times, (x, y), b)
                ==> a == b,
    ensures
        r1 == r2,
    decreases k,
{
    if k > 0 {
        let (prev1, p1) = choose|prev: T, p: T|
            {
                &&& fold_rel(plus, times, row, colv, k - 1, acc0, prev)
                &&& call_ensures(times, (row[k - 1], colv[k - 1]), p)
                &&& #[trigger] call_ensures(plus, (prev, p), r1)
            };
        let (prev2, p2) = choose|prev: T, p: T|
            {
                &&& fold_rel(plus, times, row, colv, k - 1, acc0, prev)
                &&& call_ensures(times, (row[k - 1], colv[k - 1]), p)
                &&& #[trigger] call_ensures(plus, (prev, p), r2)
            };
        lemma_fold_deterministic(plus, times, row, colv, k - 1, acc0, prev1, prev2);
        assert(p1 == p2);
    }
}

/// A well-formed matrix has a rectangular, non-empty grid.
pub proof fn lemma_wf_rect<T: Copy>(m: Matrix<T>)
    requires
        m.wf(),
    ensures
        rect(m@),
        m@.len() >= 1,
        ncols(m@) >= 1,
{
}

/// Seeded drawing is reproducible: when `conv` is deterministic, two grids
/// of the same shape drawn from the same seed are equal entry for entry.
pub proof fn lemma_random_deterministic<T, F: Fn(u64) -> T>(
    conv: F,
    seed: u64,
    a: Seq<Seq<T>>,
    b: Seq<Seq<T>>,
)
    requires
        rect(a),
        rect(b),
        a.len() == b.len(),
        ncols(a) == ncols(b),
        random_rel(conv, seed, a),
        random_rel(conv, seed, b),
        forall|x: u64, r1: T, r2: T|
            #[trigger] call_ensures(conv, (x,), r1) && #[trigger] call_ensures(conv, (x,), r2)
                ==> r1 == r2,
    ensures
        a == b,
{
    assert forall|i: int| 0 <= i < a.len() implies #[trigger] a[i] =~= b[i] by {
        assert(a[i].len() == ncols(a));
        assert(b[i].len() == ncols(b));
        assert forall|j: int| 0 <= j < ncols(a) implies #[trigger] a[i][j] == b[i][j] by {
            assert(call_ensures(conv, (nth_draw(seed, (i * ncols(a) + j) as nat),), a[i][j]));
            assert(call_ensures(conv, (nth_draw(seed, (i * ncols(b) + j) as nat),), b[i][j]));
        }
    }
    assert(a =~~= b);
}

/// Elementwise addition is symmetric in its operands: when the scalar
/// operation `plus` is commutative, any result of summing `a` with `b` is
/// also a result of summing `b` with `a`.
pub proof fn lemma_sum_commutes<T, F: Fn(T, T) -> T>(
    plus: F,
    a: Seq<Seq<T>>,
    b: Seq<Seq<T>>,
    c: Seq<Seq<T>>,
)
    requires
        same_shape(a, b),
        entrywise_rel(plus, a, b, c),
        forall|x: T, y: T, r: T| #[trigger] call_ensures(plus, (x, y), r) ==> call_ensures(
            plus,
            (y, x),
            r,
        ),
    ensures
        entrywise_rel(plus, b, a, c),
{
    assert forall|i: int, j: int|
        0 <= i < b.len() && 0 <= j < ncols(b) implies #[trigger] call_ensures(
        plus,
        (b[i][j], a[i][j]),
        c[i][j],
    ) by {
        assert(call_ensures(plus, (a[i][j], b[i][j]), c[i][j]));
    }
}

/// Subtracting `b` from `a` is summing `a` with `b` negated entry by
/// entry: when the scalar operations satisfy `x - y == x + (-y)`, any
/// result of `subtract(a, b)` is also a result of `sum(a, map(b, negate))`.
pub proof fn lemma_subtract_is_sum_of_negated<T, FS: Fn(T, T) -> T, FA: Fn(T, T) -> T, FN: Fn(
    T,
) -> T>(
    minus: FS,
    plus: FA,
    negate: FN,
    a: Seq<Seq<T>>,
    b: Seq<Seq<T>>,
    nb: Seq<Seq<T>>,
    c: Seq<Seq<T>>,
)
    requires
        same_shape(a, b),
        entrywise_rel(minus, a, b, c),
        map_rel(negate, b, nb),
        forall|x: T, y: T, n: T, r: T|
            call_ensures(negate, (y,), n) && #[trigger] call_ensures(minus, (x, y), r)
                ==> #[trigger] call_ensures(plus, (x, n), r),
    ensures
        entrywise_rel(plus, a, nb, c),
{
    assert forall|i: int, j: int|
        0 <= i < a.len() && 0 <= j < ncols(a) implies #[trigger] call_ensures(
        plus,
        (a[i][j], nb[i][j]),
        c[i][j],
    ) by {
        assert(call_ensures(minus, (a[i][j], b[i][j]), c[i][j]));
        assert(call_ensures(negate, (b[i][j],), nb[i][j]));
    }
}

} // verus!

