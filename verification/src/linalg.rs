//! Executable fixed-point vectors and matrices.
//!
//! A scalar is an `i128` holding `value * scale` for a caller-chosen scale;
//! every executable operation here is exact integer arithmetic whose result
//! is stated entry by entry against the model in [`model`].

pub mod model;

use vstd::prelude::*;

use model::{
    dot, is_matrix, lemma_mul_bound, lemma_total_take_succ, mat_bounded, mat_plus, mat_product,
    mat_transpose, width,
};

verus! {

/// A dense matrix of fixed-point scalars, stored as rows.
pub struct Matrix {
    pub rows: Vec<Vec<i128>>,
    pub cols: usize,
}

impl View for Matrix {
    type V = Seq<Seq<int>>;

    open spec fn view(&self) -> Seq<Seq<int>> {
        Seq::new(
            self.rows@.len(),
            |i: int| Seq::new(self.rows@[i]@.len(), |j: int| self.rows@[i]@[j] as int),
        )
    }
}

impl Matrix {
    /// The stored row lengths all agree with `cols`.
    pub open spec fn wf(&self) -> bool {
        is_matrix(self@, self@.len() as int, self.cols as int)
    }

    pub open spec fn nrows(&self) -> int {
        self@.len() as int
    }

    /// The view has exactly the shape of the stored rows.
    pub proof fn shape(&self, i: int)
        requires
            0 <= i < self.rows@.len(),
        ensures
            self@.len() == self.rows@.len(),
            self@[i].len() == self.rows@[i]@.len(),
            forall|j: int|
                0 <= j < self.rows@[i]@.len() ==> #[trigger] self@[i][j] == self.rows@[i]@[j] as int,
    {
    }

    /// A matrix with `r` rows and `c` columns, every entry `v`.
    pub fn filled(r: usize, c: usize, v: i128) -> (m: Matrix)
        ensures
            m.wf(),
            m.nrows() == r,
            m.cols == c,
            forall|i: int, j: int| 0 <= i < r && 0 <= j < c ==> #[trigger] m@[i][j] == v as int,
    {
        let mut rows: Vec<Vec<i128>> = Vec::new();
        let mut i: usize = 0;
        while i < r
            invariant
                i <= r,
                rows@.len() == i,
                forall|p: int| 0 <= p < i ==> (#[trigger] rows@[p])@.len() == c,
                forall|p: int, q: int|
                    0 <= p < i && 0 <= q < c ==> #[trigger] rows@[p]@[q] == v,
            decreases r - i,
        {
            let mut row: Vec<i128> = Vec::new();
            let mut j: usize = 0;
            while j < c
                invariant
                    j <= c,
                    row@.len() == j,
                    forall|q: int| 0 <= q < j ==> #[trigger] row@[q] == v,
                decreases c - j,
            {
                row.push(v);
                j = j + 1;
            }
            rows.push(row);
            i = i + 1;
        }
        Matrix { rows, cols: c }
    }

    /// The zero matrix of the given shape.
    pub fn zeros(r: usize, c: usize) -> (m: Matrix)
        ensures
            m.wf(),
            m.nrows() == r,
            m.cols == c,
            forall|i: int, j: int| 0 <= i < r && 0 <= j < c ==> #[trigger] m@[i][j] == 0,
    {
        Matrix::filled(r, c, 0)
    }

    /// The `d` by `d` matrix with `v` on the diagonal and zero elsewhere.
    pub fn diagonal(d: usize, v: i128) -> (m: Matrix)
        ensures
            m.wf(),
            m.nrows() == d,
            m.cols == d,
            forall|i: int, j: int|
                0 <= i < d && 0 <= j < d ==> #[trigger] m@[i][j] == if i == j {
                    v as int
                } else {
                    0
                },
    {
        let mut rows: Vec<Vec<i128>> = Vec::new();
        let mut i: usize = 0;
        while i < d
            invariant
                i <= d,
                rows@.len() == i,
                forall|p: int| 0 <= p < i ==> (#[trigger] rows@[p])@.len() == d,
                forall|p: int, q: int|
                    0 <= p < i && 0 <= q < d ==> #[trigger] rows@[p]@[q] == if p == q {
                        v
                    } else {
                        0
                    },
            decreases d - i,
        {
            let mut row: Vec<i128> = Vec::new();
            let mut j: usize = 0;
            while j < d
                invariant
                    j <= d,
                    row@.len() == j,
                    forall|q: int| 0 <= q < j ==> #[trigger] row@[q] == if i == q {
                        v
                    } else {
                        0
                    },
                decreases d - j,
            {
                if i == j {
                    row.push(v);
                } else {
                    row.push(0);
                }
                j = j + 1;
            }
            rows.push(row);
            i = i + 1;
        }
        Matrix { rows, cols: d }
    }

    /// Number of rows, as an executable value.
    pub fn height(&self) -> (r: usize)
        ensures
            r == self.nrows(),
    {
        proof {
            assert(self@.len() == self.rows@.len());
        }
        self.rows.len()
    }

    /// Every entry multiplied by `k`, exact over the integers.
    pub fn scaled_by(&self, k: i128, Ghost(b): Ghost<int>) -> (m: Matrix)
        requires
            self.wf(),
            b >= 0,
            k >= 0,
            k * b <= i128::MAX as int,
            mat_bounded(self@, b),
        ensures
            m.wf(),
            m.nrows() == self.nrows(),
            m.cols == self.cols,
            m@ =~~= model::mat_scaled(k as int, self@),
            mat_bounded(m@, k * b),
    {
        let r = self.rows.len();
        let c = self.cols;
        proof {
            assert(self@.len() == self.rows@.len());
        }
        let mut rows: Vec<Vec<i128>> = Vec::new();
        let mut i: usize = 0;
        while i < r
            invariant
                i <= r,
                r == self.nrows(),
                c == self.cols,
                self.wf(),
                b >= 0,
                k >= 0,
                k * b <= i128::MAX as int,
                mat_bounded(self@, b),
                rows@.len() == i,
                forall|p: int| 0 <= p < i ==> (#[trigger] rows@[p])@.len() == c,
                forall|p: int, q: int|
                    0 <= p < i && 0 <= q < c ==> #[trigger] rows@[p]@[q] as int == k * self@[p][q],
            decreases r - i,
        {
            let mut row: Vec<i128> = Vec::new();
            let mut j: usize = 0;
            while j < c
                invariant
                    j <= c,
                    i < r,
                    r == self.nrows(),
                    c == self.cols,
                    self.wf(),
                    b >= 0,
                    k >= 0,
                    k * b <= i128::MAX as int,
                    mat_bounded(self@, b),
                    row@.len() == j,
                    forall|q: int|
                        0 <= q < j ==> #[trigger] row@[q] as int == k * self@[i as int][q],
                decreases c - j,
            {
                proof {
                    self.shape(i as int);
                }
                let x = self.rows[i][j];
                proof {
                    assert(x as int == self@[i as int][j as int]);
                    assert(-b <= x as int <= b);
                    lemma_mul_bound(k as int, x as int, k as int, b);
                }
                row.push(k * x);
                j = j + 1;
            }
            rows.push(row);
            i = i + 1;
        }
        let m = Matrix { rows, cols: c };
        assert(m@ =~~= model::mat_scaled(k as int, self@));
        assert forall|i2: int, j2: int|
            0 <= i2 < m@.len() && 0 <= j2 < m@[i2].len() implies -(k * b) <= #[trigger] m@[i2][j2]
            <= k * b by {
            assert(m@[i2][j2] == k * self@[i2][j2]);
            lemma_mul_bound(k as int, self@[i2][j2], k as int, b);
        }
        m
    }

    /// Every entry floor-divided by `k > 0`, the one inexact (and stated)
    /// step of fixed-point rescaling.
    pub fn rescaled(&self, k: i128, Ghost(b): Ghost<int>) -> (m: Matrix)
        requires
            self.wf(),
            k > 0,
            b >= 0,
            b <= i128::MAX as int,
            mat_bounded(self@, b),
        ensures
            m.wf(),
            m.nrows() == self.nrows(),
            m.cols == self.cols,
            m@ =~~= model::mat_div_floor(self@, k as int),
            mat_bounded(m@, b),
    {
        let r = self.rows.len();
        let c = self.cols;
        proof {
            assert(self@.len() == self.rows@.len());
        }
        let mut rows: Vec<Vec<i128>> = Vec::new();
        let mut i: usize = 0;
        while i < r
            invariant
                i <= r,
                r == self.nrows(),
                c == self.cols,
                self.wf(),
                k > 0,
                b >= 0,
                b <= i128::MAX as int,
                mat_bounded(self@, b),
                rows@.len() == i,
                forall|p: int| 0 <= p < i ==> (#[trigger] rows@[p])@.len() == c,
                forall|p: int, q: int|
                    0 <= p < i && 0 <= q < c ==> #[trigger] rows@[p]@[q] as int == self@[p][q]
                        / k as int,
            decreases r - i,
        {
            let mut row: Vec<i128> = Vec::new();
            let mut j: usize = 0;
            while j < c
                invariant
                    j <= c,
                    i < r,
                    r == self.nrows(),
                    c == self.cols,
                    self.wf(),
                    k > 0,
                    b >= 0,
                    b <= i128::MAX as int,
                    mat_bounded(self@, b),
                    row@.len() == j,
                    forall|q: int|
                        0 <= q < j ==> #[trigger] row@[q] as int == self@[i as int][q] / k as int,
                decreases c - j,
            {
                proof {
                    self.shape(i as int);
                }
                let x = self.rows[i][j];
                proof {
                    assert(x as int == self@[i as int][j as int]);
                    assert(-b <= x as int <= b);
                }
                let v = crate::geometry::floor_div(x, k);
                proof {
                    crate::linalg::lemma_div_within(x as int, k as int, b);
                }
                row.push(v);
                j = j + 1;
            }
            rows.push(row);
            i = i + 1;
        }
        let m = Matrix { rows, cols: c };
        assert(m@ =~~= model::mat_div_floor(self@, k as int));
        assert forall|i2: int, j2: int|
            0 <= i2 < m@.len() && 0 <= j2 < m@[i2].len() implies -b <= #[trigger] m@[i2][j2]
            <= b by {
            assert(m@[i2][j2] == self@[i2][j2] / k as int);
            lemma_div_within(self@[i2][j2], k as int, b);
        }
        m
    }

    /// Entry read.
    pub fn at(&self, i: usize, j: usize) -> (v: i128)
        requires
            self.wf(),
            i < self.nrows(),
            j < self.cols,
        ensures
            v as int == self@[i as int][j as int],
    {
        proof {
            self.shape(i as int);
        }
        self.rows[i][j]
    }

    /// Pointwise sum of two matrices of the same shape.
    pub fn plus(&self, other: &Matrix, Ghost(b): Ghost<int>) -> (m: Matrix)
        requires
            self.wf(),
            other.wf(),
            self.nrows() == other.nrows(),
            self.cols == other.cols,
            b >= 0,
            2 * b <= i128::MAX as int,
            mat_bounded(self@, b),
            mat_bounded(other@, b),
        ensures
            m.wf(),
            m.nrows() == self.nrows(),
            m.cols == self.cols,
            m@ =~~= mat_plus(self@, other@),
            mat_bounded(m@, 2 * b),
    {
        let r = self.rows.len();
        let c = self.cols;
        let mut rows: Vec<Vec<i128>> = Vec::new();
        let mut i: usize = 0;
        while i < r
            invariant
                i <= r,
                r == self.nrows(),
                c == self.cols,
                self.wf(),
                other.wf(),
                other.nrows() == r,
                other.cols == c,
                b >= 0,
                2 * b <= i128::MAX as int,
                mat_bounded(self@, b),
                mat_bounded(other@, b),
                rows@.len() == i,
                forall|p: int| 0 <= p < i ==> (#[trigger] rows@[p])@.len() == c,
                forall|p: int, q: int|
                    0 <= p < i && 0 <= q < c ==> #[trigger] rows@[p]@[q] as int == self@[p][q]
                        + other@[p][q],
            decreases r - i,
        {
            let mut row: Vec<i128> = Vec::new();
            let mut j: usize = 0;
            while j < c
                invariant
                    j <= c,
                    i < r,
                    r == self.nrows(),
                    c == self.cols,
                    self.wf(),
                    other.wf(),
                    other.nrows() == r,
                    other.cols == c,
                    b >= 0,
                    2 * b <= i128::MAX as int,
                    mat_bounded(self@, b),
                    mat_bounded(other@, b),
                    row@.len() == j,
                    forall|q: int|
                        0 <= q < j ==> #[trigger] row@[q] as int == self@[i as int][q]
                            + other@[i as int][q],
                decreases c - j,
            {
                proof {
                    self.shape(i as int);
                    other.shape(i as int);
                }
                let x = self.rows[i][j];
                let y = other.rows[i][j];
                assert(x as int == self@[i as int][j as int]);
                assert(y as int == other@[i as int][j as int]);
                row.push(x + y);
                j = j + 1;
            }
            rows.push(row);
            i = i + 1;
        }
        let m = Matrix { rows, cols: c };
        assert(m@ =~~= mat_plus(self@, other@));
        m
    }

    /// Matrix product, exact over the integers.
    pub fn times(&self, other: &Matrix, Ghost(p): Ghost<int>, Ghost(q): Ghost<int>) -> (m: Matrix)
        requires
            self.wf(),
            other.wf(),
            self.cols == other.nrows(),
            self.cols > 0,
            p >= 0,
            q >= 0,
            mat_bounded(self@, p),
            mat_bounded(other@, q),
            self.cols * p * q <= i128::MAX as int,
        ensures
            m.wf(),
            m.nrows() == self.nrows(),
            m.cols == other.cols,
            m@ =~~= mat_product(self@, other@),
            mat_bounded(m@, self.cols * p * q),
    {
        let r = self.rows.len();
        let k = self.cols;
        let c = other.cols;
        let ghost bound = k * p * q;
        let mut rows: Vec<Vec<i128>> = Vec::new();
        let mut i: usize = 0;
        while i < r
            invariant
                i <= r,
                r == self.nrows(),
                k == self.cols,
                c == other.cols,
                self.wf(),
                other.wf(),
                other.nrows() == k,
                k > 0,
                p >= 0,
                q >= 0,
                mat_bounded(self@, p),
                mat_bounded(other@, q),
                k * p * q <= i128::MAX as int,
                bound == k * p * q,
                rows@.len() == i,
                forall|a: int| 0 <= a < i ==> (#[trigger] rows@[a])@.len() == c,
                forall|a: int, bq: int|
                    0 <= a < i && 0 <= bq < c ==> #[trigger] rows@[a]@[bq] as int == dot(
                        self@[a],
                        model::column(other@, bq),
                    ),
                forall|a: int, bq: int|
                    0 <= a < i && 0 <= bq < c ==> -bound <= #[trigger] rows@[a]@[bq] as int
                        <= bound,
            decreases r - i,
        {
            let mut row: Vec<i128> = Vec::new();
            let mut j: usize = 0;
            while j < c
                invariant
                    j <= c,
                    i < r,
                    r == self.nrows(),
                    k == self.cols,
                    c == other.cols,
                    self.wf(),
                    other.wf(),
                    other.nrows() == k,
                    k > 0,
                    p >= 0,
                    q >= 0,
                    mat_bounded(self@, p),
                    mat_bounded(other@, q),
                    k * p * q <= i128::MAX as int,
                    bound == k * p * q,
                    row@.len() == j,
                    forall|bq: int|
                        0 <= bq < j ==> #[trigger] row@[bq] as int == dot(
                            self@[i as int],
                            model::column(other@, bq),
                        ),
                    forall|bq: int|
                        0 <= bq < j ==> -bound <= #[trigger] row@[bq] as int <= bound,
                decreases c - j,
            {
                let v = self.row_col_dot(other, i, j, Ghost(p), Ghost(q));
                row.push(v);
                j = j + 1;
            }
            rows.push(row);
            i = i + 1;
        }
        let m = Matrix { rows, cols: c };
        assert(m@ =~~= mat_product(self@, other@)) by {
            assert(width(other@) == c as int);
        }
        assert(mat_bounded(m@, k * p * q));
        m
    }

    /// Inner product of row `i` of `self` with column `j` of `other`.
    fn row_col_dot(&self, other: &Matrix, i: usize, j: usize, Ghost(p): Ghost<int>, Ghost(q): Ghost<int>) -> (v: i128)
        requires
            self.wf(),
            other.wf(),
            self.cols == other.nrows(),
            i < self.nrows(),
            j < other.cols,
            p >= 0,
            q >= 0,
            mat_bounded(self@, p),
            mat_bounded(other@, q),
            self.cols * p * q <= i128::MAX as int,
        ensures
            v as int == dot(self@[i as int], model::column(other@, j as int)),
            -(self.cols * p * q) <= v as int <= self.cols * p * q,
    {
        let k = self.cols;
        let ghost a = self@[i as int];
        let ghost b = model::column(other@, j as int);
        let ghost terms = model::entrywise_mul(a, b);
        let mut acc: i128 = 0;
        let mut t: usize = 0;
        while t < k
            invariant
                t <= k,
                k == self.cols,
                self.wf(),
                other.wf(),
                other.nrows() == k,
                i < self.nrows(),
                j < other.cols,
                p >= 0,
                q >= 0,
                mat_bounded(self@, p),
                mat_bounded(other@, q),
                k * p * q <= i128::MAX as int,
                a == self@[i as int],
                b == model::column(other@, j as int),
                terms == model::entrywise_mul(a, b),
                acc as int == model::vec_total(terms.take(t as int)),
                -(t * p * q) <= acc as int <= t * p * q,
            decreases k - t,
        {
            proof {
                self.shape(i as int);
                other.shape(t as int);
            }
            let x = self.rows[i][t];
            let y = other.rows[t][j];
            assert(x as int == a[t as int]);
            assert(y as int == b[t as int]);
            proof {
                lemma_mul_bound(x as int, y as int, p, q);
                assert(t * p * q + p * q == (t + 1) * p * q) by (nonlinear_arith);
                assert((t + 1) * p * q <= k * p * q) by (nonlinear_arith)
                    requires
                        t + 1 <= k,
                        p >= 0,
                        q >= 0,
                ;
                lemma_total_take_succ(terms, t as int);
                assert(terms[t as int] == a[t as int] * b[t as int]);
            }
            acc = acc + x * y;
            t = t + 1;
        }
        proof {
            assert(terms.take(k as int) =~= terms);
        }
        acc
    }

    /// Transpose.
    pub fn transposed(&self) -> (m: Matrix)
        requires
            self.wf(),
            self.nrows() > 0,
        ensures
            m.wf(),
            m.nrows() == self.cols,
            m.cols == self.nrows(),
            m@ =~~= mat_transpose(self@),
            forall|b: int| mat_bounded(self@, b) ==> mat_bounded(m@, b),
    {
        let r = self.rows.len();
        let c = self.cols;
        let mut rows: Vec<Vec<i128>> = Vec::new();
        let mut j: usize = 0;
        while j < c
            invariant
                j <= c,
                r == self.nrows(),
                c == self.cols,
                r > 0,
                self.wf(),
                rows@.len() == j,
                forall|a: int| 0 <= a < j ==> (#[trigger] rows@[a])@.len() == r,
                forall|a: int, bq: int|
                    0 <= a < j && 0 <= bq < r ==> #[trigger] rows@[a]@[bq] as int
                        == self@[bq][a],
            decreases c - j,
        {
            let mut row: Vec<i128> = Vec::new();
            let mut i: usize = 0;
            while i < r
                invariant
                    i <= r,
                    j < c,
                    r == self.nrows(),
                    c == self.cols,
                    self.wf(),
                    row@.len() == i,
                    forall|bq: int|
                        0 <= bq < i ==> #[trigger] row@[bq] as int == self@[bq][j as int],
                decreases r - i,
            {
                proof {
                    self.shape(i as int);
                }
                let v = self.rows[i][j];
                assert(v as int == self@[i as int][j as int]);
                row.push(v);
                i = i + 1;
            }
            rows.push(row);
            j = j + 1;
        }
        let m = Matrix { rows, cols: r };
        assert(m@ =~~= mat_transpose(self@)) by {
            assert(width(self@) == c as int);
            assert forall|a: int| 0 <= a < c implies #[trigger] m@[a] =~= model::column(self@, a) by {
            }
        }
        assert forall|b: int| mat_bounded(self@, b) implies mat_bounded(m@, b) by {
            assert forall|i2: int, j2: int|
                0 <= i2 < m@.len() && 0 <= j2 < m@[i2].len() && mat_bounded(self@, b)
                implies -b <= #[trigger] m@[i2][j2] <= b by {
                assert(m@[i2][j2] == self@[j2][i2]);
            }
        }
        m
    }
}

/// A floor quotient by a positive divisor stays within the dividend's bound.
pub proof fn lemma_div_within(a: int, k: int, b: int)
    requires
        k > 0,
        b >= 0,
        -b <= a <= b,
    ensures
        -b <= a / k <= b,
{
    vstd::arithmetic::div_mod::lemma_fundamental_div_mod(a, k);
    assert(-b <= a / k <= b) by (nonlinear_arith)
        requires
            k > 0,
            -b <= a <= b,
            b >= 0,
            a == k * (a / k) + a % k,
            0 <= a % k < k,
    ;
}

} // verus!
