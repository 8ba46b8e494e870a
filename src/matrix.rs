use vstd::prelude::*;
use vstd::arithmetic::div_mod::lemma_fundamental_div_mod_converse;

use crate::scalar::Scalar;

verus! {

/// Why a matrix operation refused its operands.
#[derive(Clone, Copy, Debug, PartialEq, Eq, Structural)]
pub enum MatrixError {
    /// The operands' shapes do not fit the operation, or a buffer does not
    /// hold `rows * cols` entries.
    DimensionMismatch,
}

/// A dense `rows` by `cols` grid, stored row-major: row `r`, column `c`
/// sits at `data[r * cols + c]`.
#[derive(Clone, Debug)]
pub struct Matrix<T> {
    pub rows: usize,
    pub cols: usize,
    pub data: Vec<T>,
}

/// `grid` has `rows` rows of `cols` entries each.
pub open spec fn is_grid<T>(grid: Seq<Seq<T>>, rows: nat, cols: nat) -> bool {
    &&& grid.len() == rows
    &&& forall|r: int| 0 <= r < rows ==> #[trigger] grid[r].len() == cols
}

/// Column `c` of a grid.
pub open spec fn column<T>(grid: Seq<Seq<T>>, c: int) -> Seq<T> {
    Seq::new(grid.len(), |r: int| grid[r][c])
}

/// The transpose of a `rows` by `cols` grid: a `cols` by `rows` grid.
pub open spec fn transposed<T>(grid: Seq<Seq<T>>, rows: nat, cols: nat) -> Seq<Seq<T>> {
    Seq::new(cols, |c: int| Seq::new(rows, |r: int| grid[r][c]))
}

/// `chain` is the run of accumulators that folds `step` over the pairs
/// `(xs[k], ys[k])`, `k` ascending, starting from `zero`.
pub open spec fn is_fold<T, F: Fn(T, T, T) -> T>(
    step: F,
    zero: T,
    xs: Seq<T>,
    ys: Seq<T>,
    chain: Seq<T>,
) -> bool {
    &&& chain.len() == xs.len() + 1
    &&& chain[0] == zero
    &&& forall|k: int|
        0 <= k < xs.len() ==> #[trigger] step.ensures((chain[k], xs[k], ys[k]), chain[k + 1])
}

/// `v` is what folding `step` over the pairs of `xs` and `ys` from `zero` gives.
pub open spec fn folds_to<T, F: Fn(T, T, T) -> T>(
    step: F,
    zero: T,
    xs: Seq<T>,
    ys: Seq<T>,
    v: T,
) -> bool {
    exists|chain: Seq<T>| #[trigger] is_fold(step, zero, xs, ys, chain) && chain.last() == v
}

/// `m` is the product of the grids `a` and `b`: it has a row for each row of
/// `a`, and its entry `(r, c)` folds `step` over row `r` of `a` and column `c`
/// of `b`.
pub open spec fn is_product<T, F: Fn(T, T, T) -> T>(
    step: F,
    zero: T,
    a: Seq<Seq<T>>,
    b: Seq<Seq<T>>,
    m: Seq<Seq<T>>,
) -> bool {
    &&& m.len() == a.len()
    &&& forall|r: int, c: int|
        0 <= r < m.len() && 0 <= c < m[r].len() ==> #[trigger] folds_to(step, zero, a[r], column(b, c), m[r][c])
}

/// `step` gives the same results with its two operands swapped, as a
/// multiply-and-accumulate over a commutative product does.
pub open spec fn operands_commute<T, F: Fn(T, T, T) -> T>(step: F) -> bool {
    forall|acc: T, x: T, y: T, r: T|
        #[trigger] step.ensures((acc, x, y), r) ==> step.ensures((acc, y, x), r)
}

/// Transposing twice gives back the grid.
pub proof fn lemma_transpose_involution<T>(grid: Seq<Seq<T>>, rows: nat, cols: nat)
    requires
        is_grid(grid, rows, cols),
    ensures
        transposed(transposed(grid, rows, cols), cols, rows) == grid,
{
    let tt = transposed(transposed(grid, rows, cols), cols, rows);
    assert forall|r: int| 0 <= r < rows implies #[trigger] tt[r] == grid[r] by {
        assert(tt[r] =~= grid[r]);
    }
    assert(tt =~= grid);
}

/// The transpose of a product is the product of the transposes, taken in the
/// other order, where the accumulation step does not care which operand comes
/// first: `(A B)^T = B^T A^T`.
pub proof fn lemma_transpose_of_product<T, F: Fn(T, T, T) -> T>(
    step: F,
    zero: T,
    a: Seq<Seq<T>>,
    b: Seq<Seq<T>>,
    m: Seq<Seq<T>>,
    n: nat,
    q: nat,
    p: nat,
)
    requires
        is_grid(a, n, q),
        is_grid(b, q, p),
        is_grid(m, n, p),
        is_product(step, zero, a, b, m),
        operands_commute(step),
    ensures
        is_product(step, zero, transposed(b, q, p), transposed(a, n, q), transposed(m, n, p)),
{
    let bt = transposed(b, q, p);
    let at = transposed(a, n, q);
    let mt = transposed(m, n, p);
    assert forall|c: int, r: int| 0 <= c < mt.len() && 0 <= r < mt[c].len() implies
        #[trigger] folds_to(step, zero, bt[c], column(at, r), mt[c][r]) by {
        assert(m[r].len() == p);
        assert(folds_to(step, zero, a[r], column(b, c), m[r][c]));
        let chain = choose|chain: Seq<T>|
            #[trigger] is_fold(step, zero, a[r], column(b, c), chain) && chain.last() == m[r][c];
        assert(bt[c] =~= column(b, c));
        assert(column(at, r) =~= a[r]);
        assert forall|k: int| 0 <= k < bt[c].len() implies
            #[trigger] step.ensures((chain[k], bt[c][k], column(at, r)[k]), chain[k + 1]) by {
            assert(step.ensures((chain[k], a[r][k], column(b, c)[k]), chain[k + 1]));
        }
        assert(is_fold(step, zero, bt[c], column(at, r), chain));
    }
}

/// `m` combines the entries of `a` and `b` at equal positions with `f`.
pub open spec fn is_zip<T: Copy, F: Fn(T, T) -> T>(f: F, a: Matrix<T>, b: Matrix<T>, m: Matrix<T>) -> bool {
    &&& m.wf()
    &&& m.rows == a.rows
    &&& m.cols == a.cols
    &&& forall|i: int| 0 <= i < a.data.len() ==> f.ensures((a.data@[i], b.data@[i]), #[trigger] m.data@[i])
}

/// `g` takes back what `f` added: combining `f`'s result with the same
/// right operand through `g` gives the left operand again, as subtraction
/// does after addition in exact arithmetic.
pub open spec fn undoes<T, F: Fn(T, T) -> T, G: Fn(T, T) -> T>(g: G, f: F) -> bool {
    forall|x: T, y: T, s: T, r: T|
        #[trigger] f.ensures((x, y), s) && #[trigger] g.ensures((s, y), r) ==> r == x
}

/// Adding `b` and then taking it away again gives back `a`, where the
/// second operation undoes the first.
pub proof fn lemma_zip_undone<T: Copy, F: Fn(T, T) -> T, G: Fn(T, T) -> T>(
    f: F,
    g: G,
    a: Matrix<T>,
    b: Matrix<T>,
    sum: Matrix<T>,
    back: Matrix<T>,
)
    requires
        a.wf(),
        b.wf(),
        a.rows == b.rows,
        a.cols == b.cols,
        is_zip(f, a, b, sum),
        is_zip(g, sum, b, back),
        undoes(g, f),
    ensures
        back.rows == a.rows,
        back.cols == a.cols,
        back.data@ == a.data@,
        back.view() == a.view(),
{
    assert forall|i: int| 0 <= i < a.data.len() implies back.data@[i] == a.data@[i] by {
        assert(f.ensures((a.data@[i], b.data@[i]), sum.data@[i]));
        assert(g.ensures((sum.data@[i], b.data@[i]), back.data@[i]));
    }
    assert(back.data@ =~= a.data@);
    assert(back.view() =~~= a.view());
}

/// Two well-formed matrices of one shape with the same rows hold the same
/// buffer.
pub proof fn lemma_view_determines_data<T: Copy>(a: Matrix<T>, b: Matrix<T>)
    requires
        a.wf(),
        b.wf(),
        a.rows == b.rows,
        a.cols == b.cols,
        a.view() == b.view(),
    ensures
        a.data@ == b.data@,
{
    assert forall|i: int| 0 <= i < a.data.len() implies a.data@[i] == b.data@[i] by {
        lemma_flat_index(i, a.rows as int, a.cols as int);
        let r = i / a.cols as int;
        let c = i % a.cols as int;
        assert(r * a.cols + c == i);
        assert(a.view()[r][c] == a.entry(r, c));
        assert(b.view()[r][c] == b.entry(r, c));
        assert(a.view()[r][c] == b.view()[r][c]);
    }
    assert(a.data@ =~= b.data@);
}

/// A matrix transposed twice is the matrix again, shape and buffer alike.
pub proof fn lemma_transpose_twice<T: Copy>(a: Matrix<T>, t: Matrix<T>, tt: Matrix<T>)
    requires
        a.wf(),
        t.wf(),
        tt.wf(),
        t.rows == a.cols,
        t.cols == a.rows,
        t.view() == transposed(a.view(), a.rows as nat, a.cols as nat),
        tt.rows == t.cols,
        tt.cols == t.rows,
        tt.view() == transposed(t.view(), t.rows as nat, t.cols as nat),
    ensures
        tt.rows == a.rows,
        tt.cols == a.cols,
        tt.data@ == a.data@,
{
    lemma_transpose_involution(a.view(), a.rows as nat, a.cols as nat);
    lemma_view_determines_data(tt, a);
}

/// Row-major index arithmetic: entry `(r, c)` of a `rows` by `cols` grid.
pub proof fn lemma_row_major(r: int, c: int, rows: int, cols: int)
    requires
        0 <= r < rows,
        0 <= c < cols,
    ensures
        0 <= r * cols,
        r * cols + c < rows * cols,
        (r * cols + c) / cols == r,
        (r * cols + c) % cols == c,
{
    assert(0 <= r * cols) by (nonlinear_arith)
        requires 0 <= r, 0 <= cols;
    assert(r * cols + c < rows * cols) by (nonlinear_arith)
        requires 0 <= r < rows, 0 <= c < cols;
    lemma_fundamental_div_mod_converse(r * cols + c, cols, r, c);
}

/// A flat index below `rows * cols` names row `i / cols`, column `i % cols`.
pub proof fn lemma_flat_index(i: int, rows: int, cols: int)
    requires
        0 <= i < rows * cols,
        0 <= rows,
        0 <= cols,
    ensures
        0 < cols,
        0 <= i / cols < rows,
        0 <= i % cols < cols,
        (i / cols) * cols + i % cols == i,
{
    if cols == 0 {
        assert(rows * cols == 0) by (nonlinear_arith)
            requires cols == 0;
    }
    vstd::arithmetic::div_mod::lemma_fundamental_div_mod(i, cols);
    vstd::arithmetic::div_mod::lemma_div_pos_is_pos(i, cols);
    vstd::arithmetic::div_mod::lemma_mod_pos_bound(i, cols);
    vstd::arithmetic::mul::lemma_mul_is_commutative(cols, i / cols);
    if i / cols >= rows {
        assert((i / cols) * cols >= rows * cols) by (nonlinear_arith)
            requires i / cols >= rows, cols > 0;
        assert(false);
    }
}

impl<T: Copy> Matrix<T> {
    /// The buffer holds exactly `rows * cols` entries.
    pub open spec fn wf(&self) -> bool {
        self.data.len() == self.rows * self.cols
    }

    /// Entry `(r, c)`.
    pub open spec fn entry(&self, r: int, c: int) -> T {
        self.data@[r * self.cols + c]
    }

    /// The matrix as a sequence of rows.
    pub open spec fn view(&self) -> Seq<Seq<T>> {
        Seq::new(self.rows as nat, |r: int| Seq::new(self.cols as nat, |c: int| self.entry(r, c)))
    }

    /// A `rows` by `cols` matrix whose every entry is `value`.
    pub fn filled(rows: usize, cols: usize, value: T) -> (res: Self)
        requires
            rows * cols <= usize::MAX,
        ensures
            res.wf(),
            res.rows == rows,
            res.cols == cols,
            forall|i: int| 0 <= i < res.data.len() ==> res.data@[i] == value,
    {
        let n: usize = rows * cols;
        let mut data: Vec<T> = Vec::with_capacity(n);
        let mut i: usize = 0;
        while i < n
            invariant
                i <= n,
                data.len() == i,
                forall|j: int| 0 <= j < i ==> data@[j] == value,
            decreases n - i,
        {
            data.push(value);
            i = i + 1;
        }
        Matrix { rows, cols, data }
    }

    /// A `rows` by `cols` matrix over the given row-major buffer; refused
    /// unless the buffer holds exactly `rows * cols` entries.
    pub fn from_parts(rows: usize, cols: usize, data: Vec<T>) -> (res: Result<Self, MatrixError>)
        ensures
            (data.len() == rows * cols) <==> res is Ok,
            res is Ok ==> res->Ok_0 == (Matrix { rows, cols, data }),
            res is Err ==> res->Err_0 == MatrixError::DimensionMismatch,
    {
        match rows.checked_mul(cols) {
            Some(n) => {
                if n == data.len() {
                    Ok(Matrix { rows, cols, data })
                } else {
                    Err(MatrixError::DimensionMismatch)
                }
            },
            None => Err(MatrixError::DimensionMismatch),
        }
    }

    /// A single-row matrix holding `data`.
    pub fn row(data: Vec<T>) -> (res: Self)
        ensures
            res.wf(),
            res.rows == 1,
            res.cols == data.len(),
            res.data@ == data@,
    {
        let cols = data.len();
        Matrix { rows: 1, cols, data }
    }

    /// A single-column matrix holding `data`.
    pub fn column(data: Vec<T>) -> (res: Self)
        ensures
            res.wf(),
            res.rows == data.len(),
            res.cols == 1,
            res.data@ == data@,
    {
        let rows = data.len();
        Matrix { rows, cols: 1, data }
    }

    /// Entry `(r, c)`.
    pub fn get(&self, r: usize, c: usize) -> (res: T)
        requires
            self.wf(),
            r < self.rows,
            c < self.cols,
        ensures
            res == self.entry(r as int, c as int),
            res == self.view()[r as int][c as int],
    {
        proof {
            lemma_row_major(r as int, c as int, self.rows as int, self.cols as int);
        }
        self.data[r * self.cols + c]
    }

    /// The transpose: a `cols` by `rows` matrix with entry `(c, r)` equal to
    /// entry `(r, c)` of this one.
    pub fn transpose(&self) -> (res: Self)
        requires
            self.wf(),
        ensures
            res.wf(),
            res.rows == self.cols,
            res.cols == self.rows,
            res.view() == transposed(self.view(), self.rows as nat, self.cols as nat),
    {
        let n: usize = self.data.len();
        let mut data: Vec<T> = Vec::with_capacity(n);
        let mut j: usize = 0;
        while j < n
            invariant
                self.wf(),
                n == self.data.len(),
                j <= n,
                data.len() == j,
                forall|i: int|
                    0 <= i < j ==> #[trigger] data@[i] == self.entry(i % self.rows as int, i / self.rows as int),
            decreases n - j,
        {
            proof {
                vstd::arithmetic::mul::lemma_mul_is_commutative(self.rows as int, self.cols as int);
                lemma_flat_index(j as int, self.cols as int, self.rows as int);
            }
            let r = j % self.rows;
            let c = j / self.rows;
            let v = self.get(r, c);
            data.push(v);
            j = j + 1;
        }
        proof {
            vstd::arithmetic::mul::lemma_mul_is_commutative(self.rows as int, self.cols as int);
        }
        let res = Matrix { rows: self.cols, cols: self.rows, data };
        assert forall|c: int, r: int| 0 <= c < self.cols && 0 <= r < self.rows implies
            res.entry(c, r) == self.entry(r, c) by {
            lemma_row_major(c, r, self.cols as int, self.rows as int);
        }
        assert(res.view() =~~= transposed(self.view(), self.rows as nat, self.cols as nat));
        res
    }

    /// Applies `f` to every entry, keeping the shape.
    pub fn map<F: Fn(T) -> T>(&self, f: F) -> (res: Self)
        requires
            self.wf(),
            forall|x: T| f.requires((x,)),
        ensures
            res.wf(),
            res.rows == self.rows,
            res.cols == self.cols,
            forall|i: int| 0 <= i < self.data.len() ==> f.ensures((self.data@[i],), #[trigger] res.data@[i]),
    {
        let n: usize = self.data.len();
        let mut data: Vec<T> = Vec::with_capacity(n);
        let mut i: usize = 0;
        while i < n
            invariant
                n == self.data.len(),
                forall|x: T| f.requires((x,)),
                i <= n,
                data.len() == i,
                forall|j: int| 0 <= j < i ==> f.ensures((self.data@[j],), #[trigger] data@[j]),
            decreases n - i,
        {
            let v = f(self.data[i]);
            data.push(v);
            i = i + 1;
        }
        Matrix { rows: self.rows, cols: self.cols, data }
    }

    /// Combines the entries at equal positions with `f`; refused unless both
    /// matrices have the same shape. Sum, difference and entrywise product
    /// are this with the matching operator.
    pub fn zip_with<F: Fn(T, T) -> T>(&self, rhs: &Self, f: F) -> (res: Result<Self, MatrixError>)
        requires
            self.wf(),
            rhs.wf(),
            forall|x: T, y: T| f.requires((x, y)),
        ensures
            (self.rows == rhs.rows && self.cols == rhs.cols) <==> res is Ok,
            res is Err ==> res->Err_0 == MatrixError::DimensionMismatch,
            res is Ok ==> is_zip(f, *self, *rhs, res->Ok_0),
    {
        if self.rows != rhs.rows || self.cols != rhs.cols {
            return Err(MatrixError::DimensionMismatch);
        }
        let n: usize = self.data.len();
        let mut data: Vec<T> = Vec::with_capacity(n);
        let mut i: usize = 0;
        while i < n
            invariant
                n == self.data.len(),
                n == rhs.data.len(),
                forall|x: T, y: T| f.requires((x, y)),
                i <= n,
                data.len() == i,
                forall|j: int|
                    0 <= j < i ==> f.ensures((self.data@[j], rhs.data@[j]), #[trigger] data@[j]),
            decreases n - i,
        {
            let v = f(self.data[i], rhs.data[i]);
            data.push(v);
            i = i + 1;
        }
        Ok(Matrix { rows: self.rows, cols: self.cols, data })
    }

    /// The matrix product; refused unless this matrix has as many columns as
    /// `rhs` has rows. Entry `(r, c)` starts at `zero` and folds `step`
    /// (accumulator, entry of row `r`, entry of column `c`) over the inner
    /// index in ascending order.
    pub fn mul_with<F: Fn(T, T, T) -> T>(&self, rhs: &Self, zero: T, step: F) -> (res: Result<Self, MatrixError>)
        requires
            self.wf(),
            rhs.wf(),
            self.rows * rhs.cols <= usize::MAX,
            forall|acc: T, x: T, y: T| step.requires((acc, x, y)),
        ensures
            (self.cols == rhs.rows) <==> res is Ok,
            res is Err ==> res->Err_0 == MatrixError::DimensionMismatch,
            res is Ok ==> {
                let m = res->Ok_0;
                &&& m.wf()
                &&& m.rows == self.rows
                &&& m.cols == rhs.cols
                &&& is_product(step, zero, self.view(), rhs.view(), m.view())
            },
    {
        if self.cols != rhs.rows {
            return Err(MatrixError::DimensionMismatch);
        }
        let p: usize = rhs.cols;
        let n: usize = self.rows * p;
        let mut data: Vec<T> = Vec::with_capacity(n);
        let mut j: usize = 0;
        while j < n
            invariant
                self.wf(),
                rhs.wf(),
                self.cols == rhs.rows,
                p == rhs.cols,
                n == self.rows * p,
                forall|acc: T, x: T, y: T| step.requires((acc, x, y)),
                j <= n,
                data.len() == j,
                forall|i: int|
                    0 <= i < j ==> folds_to(
                        step,
                        zero,
                        self.view()[i / p as int],
                        column(rhs.view(), i % p as int),
                        #[trigger] data@[i],
                    ),
            decreases n - j,
        {
            proof {
                lemma_flat_index(j as int, self.rows as int, p as int);
            }
            let r: usize = j / p;
            let c: usize = j % p;
            let ghost xs = self.view()[r as int];
            let ghost ys = column(rhs.view(), c as int);
            let mut acc: T = zero;
            let ghost mut chain: Seq<T> = seq![zero];
            let mut k: usize = 0;
            while k < self.cols
                invariant
                    self.wf(),
                    rhs.wf(),
                    self.cols == rhs.rows,
                    r < self.rows,
                    c < rhs.cols,
                    xs == self.view()[r as int],
                    ys == column(rhs.view(), c as int),
                    forall|acc: T, x: T, y: T| step.requires((acc, x, y)),
                    k <= self.cols,
                    chain.len() == k + 1,
                    chain[0] == zero,
                    chain.last() == acc,
                    forall|kk: int|
                        0 <= kk < k ==> #[trigger] step.ensures((chain[kk], xs[kk], ys[kk]), chain[kk + 1]),
                decreases self.cols - k,
            {
                let x = self.get(r, k);
                let y = rhs.get(k, c);
                let next = step(acc, x, y);
                proof {
                    chain = chain.push(next);
                }
                acc = next;
                k = k + 1;
            }
            assert(is_fold(step, zero, xs, ys, chain));
            data.push(acc);
            j = j + 1;
        }
        let res = Matrix { rows: self.rows, cols: p, data };
        assert forall|r: int, c: int| 0 <= r < res.view().len() && 0 <= c < res.view()[r].len() implies
            #[trigger] folds_to(step, zero, self.view()[r], column(rhs.view(), c), res.view()[r][c]) by {
            lemma_row_major(r, c, self.rows as int, p as int);
            assert(folds_to(step, zero, self.view()[(r * p + c) / p as int], column(rhs.view(), (r * p + c) % p as int), data@[r * p + c]));
        }
        Ok(res)
    }
}

/// The inner product of `xs` and `ys`: starting from zero, add `xs[k] * ys[k]`
/// for each `k` in ascending order.
pub open spec fn inner<T: Scalar>(xs: Seq<T>, ys: Seq<T>) -> T
    decreases xs.len(),
{
    if xs.len() == 0 {
        T::spec_zero()
    } else {
        inner(xs.drop_last(), ys.take(xs.len() - 1)).spec_plus(
            xs.last().spec_times(ys[xs.len() - 1]),
        )
    }
}

/// The product of grid `a` and grid `b` (of `p` columns): entry `(r, c)` is
/// the inner product of row `r` of `a` and column `c` of `b`.
pub open spec fn product_of<T: Scalar>(a: Seq<Seq<T>>, b: Seq<Seq<T>>, p: nat) -> Seq<Seq<T>> {
    Seq::new(a.len(), |r: int| Seq::new(p, |c: int| inner(a[r], column(b, c))))
}

/// Entrywise sums.
pub open spec fn sum_of<T: Scalar>(a: Seq<T>, b: Seq<T>) -> Seq<T> {
    Seq::new(a.len(), |i: int| a[i].spec_plus(b[i]))
}

/// Entrywise differences.
pub open spec fn difference_of<T: Scalar>(a: Seq<T>, b: Seq<T>) -> Seq<T> {
    Seq::new(a.len(), |i: int| a[i].spec_minus(b[i]))
}

/// Entrywise products.
pub open spec fn entrywise_product<T: Scalar>(a: Seq<T>, b: Seq<T>) -> Seq<T> {
    Seq::new(a.len(), |i: int| a[i].spec_times(b[i]))
}

/// A run of multiply-and-accumulate steps from zero holds, after `k` steps,
/// the inner product of the first `k` entries.
pub proof fn lemma_fold_is_inner<T: Scalar, F: Fn(T, T, T) -> T>(
    step: F,
    xs: Seq<T>,
    ys: Seq<T>,
    chain: Seq<T>,
    k: int,
)
    requires
        xs.len() == ys.len(),
        0 <= k <= xs.len(),
        is_fold(step, T::spec_zero(), xs, ys, chain),
        forall|acc: T, x: T, y: T, r: T|
            #[trigger] step.ensures((acc, x, y), r) ==> r == acc.spec_plus(x.spec_times(y)),
    ensures
        chain[k] == inner(xs.take(k), ys.take(k)),
    decreases k,
{
    if k > 0 {
        lemma_fold_is_inner(step, xs, ys, chain, k - 1);
        let j = k - 1;
        assert(step.ensures((chain[j], xs[j], ys[j]), chain[j + 1]));
        assert(xs.take(k).drop_last() =~= xs.take(k - 1));
        assert(ys.take(k).take(k - 1) =~= ys.take(k - 1));
    }
}

/// The inner product does not depend on the order of its two sequences when
/// products commute.
pub proof fn lemma_inner_commutes<T: Scalar>(xs: Seq<T>, ys: Seq<T>)
    requires
        xs.len() == ys.len(),
        forall|x: T, y: T| #[trigger] x.spec_times(y) == y.spec_times(x),
    ensures
        inner(xs, ys) == inner(ys, xs),
    decreases xs.len(),
{
    if xs.len() > 0 {
        let n = xs.len() - 1;
        assert(xs.drop_last() =~= xs.take(n));
        assert(ys.drop_last() =~= ys.take(n));
        lemma_inner_commutes(xs.take(n), ys.take(n));
        assert(xs.take(n).take(n) =~= xs.take(n));
        assert(ys.take(n).take(n) =~= ys.take(n));
        assert(xs.last().spec_times(ys[n]) == ys.last().spec_times(xs[n]));
    }
}

/// The transpose of a product is the product of the transposes, taken in the
/// other order, where products commute: `(A B)^T = B^T A^T`.
pub proof fn lemma_product_transpose<T: Scalar>(a: Seq<Seq<T>>, b: Seq<Seq<T>>, n: nat, q: nat, p: nat)
    requires
        is_grid(a, n, q),
        is_grid(b, q, p),
        forall|x: T, y: T| #[trigger] x.spec_times(y) == y.spec_times(x),
    ensures
        transposed(product_of(a, b, p), n, p) == product_of(transposed(b, q, p), transposed(a, n, q), n),
{
    let left = transposed(product_of(a, b, p), n, p);
    let right = product_of(transposed(b, q, p), transposed(a, n, q), n);
    assert forall|c: int| 0 <= c < p implies #[trigger] left[c] == right[c] by {
        assert forall|r: int| 0 <= r < n implies left[c][r] == right[c][r] by {
            assert(transposed(b, q, p)[c] =~= column(b, c));
            assert(column(transposed(a, n, q), r) =~= a[r]);
            lemma_inner_commutes(a[r], column(b, c));
        }
        assert(left[c] =~= right[c]);
    }
    assert(left =~= right);
}

/// Adding and then subtracting the same entries gives the first operand
/// back, where subtraction undoes addition (as it does in exact arithmetic).
pub proof fn lemma_add_then_sub<T: Scalar>(a: Seq<T>, b: Seq<T>)
    requires
        a.len() == b.len(),
        forall|x: T, y: T| #[trigger] x.spec_plus(y).spec_minus(y) == x,
    ensures
        difference_of(sum_of(a, b), b) == a,
{
    assert forall|i: int| 0 <= i < a.len() implies difference_of(sum_of(a, b), b)[i] == a[i] by {
        assert(a[i].spec_plus(b[i]).spec_minus(b[i]) == a[i]);
    }
    assert(difference_of(sum_of(a, b), b) =~= a);
}

/// Entrywise sums and products do not depend on the order of the operands
/// where the scalar sum and product do not.
pub proof fn lemma_entrywise_commute<T: Scalar>(a: Seq<T>, b: Seq<T>)
    requires
        a.len() == b.len(),
        forall|x: T, y: T| #[trigger] x.spec_plus(y) == y.spec_plus(x),
        forall|x: T, y: T| #[trigger] x.spec_times(y) == y.spec_times(x),
    ensures
        sum_of(a, b) == sum_of(b, a),
        entrywise_product(a, b) == entrywise_product(b, a),
{
    assert(sum_of(a, b) =~= sum_of(b, a));
    assert(entrywise_product(a, b) =~= entrywise_product(b, a));
}

impl<T: Scalar> Matrix<T> {
    /// A `rows` by `cols` matrix of zeros.
    pub fn zero(rows: usize, cols: usize) -> (res: Self)
        requires
            rows * cols <= usize::MAX,
        ensures
            res.wf(),
            res.rows == rows,
            res.cols == cols,
            forall|i: int| 0 <= i < res.data.len() ==> res.data@[i] == T::spec_zero(),
    {
        Matrix::filled(rows, cols, T::zero())
    }

    /// A `rows` by `cols` matrix of values drawn independently from `[0, 1)`.
    pub fn random(rows: usize, cols: usize) -> (res: Self)
        requires
            rows * cols <= usize::MAX,
        ensures
            res.wf(),
            res.rows == rows,
            res.cols == cols,
            forall|i: int| 0 <= i < res.data.len() ==> (#[trigger] res.data@[i]).in_unit(),
    {
        let n: usize = rows * cols;
        let mut data: Vec<T> = Vec::with_capacity(n);
        let mut i: usize = 0;
        while i < n
            invariant
                i <= n,
                data.len() == i,
                forall|j: int| 0 <= j < i ==> (#[trigger] data@[j]).in_unit(),
            decreases n - i,
        {
            data.push(T::random());
            i = i + 1;
        }
        Matrix { rows, cols, data }
    }

    /// The entrywise sum; refused unless both have the same shape.
    pub fn add(&self, rhs: &Self) -> (res: Result<Self, MatrixError>)
        requires
            self.wf(),
            rhs.wf(),
        ensures
            (self.rows == rhs.rows && self.cols == rhs.cols) <==> res is Ok,
            res is Err ==> res->Err_0 == MatrixError::DimensionMismatch,
            res is Ok ==> {
                let m = res->Ok_0;
                &&& m.wf()
                &&& m.rows == self.rows
                &&& m.cols == self.cols
                &&& m.data@ == sum_of(self.data@, rhs.data@)
            },
    {
        let res = self.zip_with(rhs, |x: T, y: T| -> (r: T)
            ensures
                r == x.spec_plus(y),
            { x.plus(y) });
        proof {
            if res is Ok {
                assert(res->Ok_0.data@ =~= sum_of(self.data@, rhs.data@));
            }
        }
        res
    }

    /// The entrywise difference; refused unless both have the same shape.
    pub fn sub(&self, rhs: &Self) -> (res: Result<Self, MatrixError>)
        requires
            self.wf(),
            rhs.wf(),
        ensures
            (self.rows == rhs.rows && self.cols == rhs.cols) <==> res is Ok,
            res is Err ==> res->Err_0 == MatrixError::DimensionMismatch,
            res is Ok ==> {
                let m = res->Ok_0;
                &&& m.wf()
                &&& m.rows == self.rows
                &&& m.cols == self.cols
                &&& m.data@ == difference_of(self.data@, rhs.data@)
            },
    {
        let res = self.zip_with(rhs, |x: T, y: T| -> (r: T)
            ensures
                r == x.spec_minus(y),
            { x.minus(y) });
        proof {
            if res is Ok {
                assert(res->Ok_0.data@ =~= difference_of(self.data@, rhs.data@));
            }
        }
        res
    }

    /// The entrywise product; refused unless both have the same shape.
    pub fn dot(&self, rhs: &Self) -> (res: Result<Self, MatrixError>)
        requires
            self.wf(),
            rhs.wf(),
        ensures
            (self.rows == rhs.rows && self.cols == rhs.cols) <==> res is Ok,
            res is Err ==> res->Err_0 == MatrixError::DimensionMismatch,
            res is Ok ==> {
                let m = res->Ok_0;
                &&& m.wf()
                &&& m.rows == self.rows
                &&& m.cols == self.cols
                &&& m.data@ == entrywise_product(self.data@, rhs.data@)
            },
    {
        let res = self.zip_with(rhs, |x: T, y: T| -> (r: T)
            ensures
                r == x.spec_times(y),
            { x.times(y) });
        proof {
            if res is Ok {
                assert(res->Ok_0.data@ =~= entrywise_product(self.data@, rhs.data@));
            }
        }
        res
    }

    /// The matrix product, each entry summed from zero over the inner index
    /// in ascending order; refused unless this matrix has as many columns as
    /// `rhs` has rows.
    pub fn mul(&self, rhs: &Self) -> (res: Result<Self, MatrixError>)
        requires
            self.wf(),
            rhs.wf(),
            self.rows * rhs.cols <= usize::MAX,
        ensures
            (self.cols == rhs.rows) <==> res is Ok,
            res is Err ==> res->Err_0 == MatrixError::DimensionMismatch,
            res is Ok ==> {
                let m = res->Ok_0;
                &&& m.wf()
                &&& m.rows == self.rows
                &&& m.cols == rhs.cols
                &&& m.view() == product_of(self.view(), rhs.view(), rhs.cols as nat)
            },
    {
        let step = |acc: T, x: T, y: T| -> (r: T)
            ensures
                r == acc.spec_plus(x.spec_times(y)),
            { acc.plus(x.times(y)) };
        let res = self.mul_with(rhs, T::zero(), step);
        proof {
            if res is Ok {
                let m = res->Ok_0;
                let a = self.view();
                let b = rhs.view();
                assert forall|r: int, c: int| 0 <= r < self.rows && 0 <= c < rhs.cols implies m.view()[r][c]
                    == inner(a[r], column(b, c)) by {
                    assert(folds_to(step, T::spec_zero(), a[r], column(b, c), m.view()[r][c]));
                    let chain = choose|chain: Seq<T>|
                        #[trigger] is_fold(step, T::spec_zero(), a[r], column(b, c), chain) && chain.last()
                            == m.view()[r][c];
                    lemma_fold_is_inner(step, a[r], column(b, c), chain, a[r].len() as int);
                    assert(a[r].take(a[r].len() as int) =~= a[r]);
                    assert(column(b, c).take(a[r].len() as int) =~= column(b, c));
                }
                assert forall|r: int| 0 <= r < self.rows implies #[trigger] m.view()[r] == product_of(
                    a,
                    b,
                    rhs.cols as nat,
                )[r] by {
                    assert(m.view()[r] =~= product_of(a, b, rhs.cols as nat)[r]);
                }
                assert(m.view() =~= product_of(a, b, rhs.cols as nat));
            }
        }
        res
    }
}

} // verus!
