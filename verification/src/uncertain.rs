//! The uncertainty-propagation algebra.
//!
//! An [`Uncertainty`] is a symmetric positive semi-definite covariance matrix
//! over fixed-point scalars. Values of this type are only ever constructed
//! from outer-product forms (`j * s * j^T`, through [`Uncertainty::forward`]),
//! from sums of such forms, or by block-diagonal stacking, so positive
//! semi-definiteness is established structurally: every constructor proves
//! [`Uncertainty::wf`], which states symmetry and positive semi-definiteness
//! outright, and every operation preserves it.

use vstd::prelude::*;

use crate::linalg::model::{
    block_pair, is_psd, is_symmetric, lemma_block_pair_psd, lemma_const_psd, lemma_diag_psd,
    lemma_dot_comm, lemma_plus_psd, lemma_propagate_psd, lemma_propagate_symmetric,
    lemma_sub_block_psd, mat_bounded, mat_const, mat_diag, mat_plus, mat_product, mat_scaled,
    mat_transpose, quad_form, sub_block,
};
use crate::linalg::Matrix;

verus! {

/// A `D` by `D` covariance over fixed-point scalars.
pub struct Uncertainty {
    pub mat: Matrix,
}

/// A value paired with the uncertainty type that describes it.
pub trait Uncertain {
    type Uncertainties;
}

/// Type-level evidence that two uncertainties can be stacked; the composite
/// of a `D1` and a `D2` covariance is one `(D1 + D2)`-dimensional covariance.
pub trait UncertaintyAdd<T> {
    type Output;
}

impl UncertaintyAdd<Uncertainty> for Uncertainty {
    type Output = Uncertainty;
}

/// A wrapper pairing a value with its covariance.
pub struct Uncertained<U: Uncertain> {
    pub inner: U,
    pub covariance: U::Uncertainties,
}

impl<U: Uncertain> Uncertained<U> {
    pub fn new(inner: U, covariance: U::Uncertainties) -> (r: Self)
        ensures
            r.inner == inner,
            r.covariance == covariance,
    {
        Uncertained { inner, covariance }
    }

    /// The wrapped value.
    pub fn value(&self) -> (r: &U)
        ensures
            r == &self.inner,
    {
        &self.inner
    }
}

impl View for Uncertainty {
    type V = Seq<Seq<int>>;

    open spec fn view(&self) -> Seq<Seq<int>> {
        self.mat@
    }
}

impl Uncertainty {
    /// Dimension of the covariance.
    pub open spec fn dim(&self) -> int {
        self@.len() as int
    }

    /// Well-formed: square, at least one-dimensional, symmetric, and
    /// positive semi-definite. Holds of every value the constructors of this
    /// module hand out; this is the statement that a covariance built by
    /// `forward`, sums and stacking is symmetric with only non-negative
    /// quadratic forms.
    pub open spec fn wf(&self) -> bool {
        &&& self.mat.wf()
        &&& self.mat.cols == self.dim()
        &&& self.dim() >= 1
        &&& is_symmetric(self@)
        &&& is_psd(self@)
    }

    /// Dimension, as an executable value.
    pub fn dimension(&self) -> (r: usize)
        requires
            self.wf(),
        ensures
            r == self.dim(),
    {
        self.mat.height()
    }

    /// Whether every entry lies within `[-limit, limit]`, checked at runtime.
    pub fn bounded_within(&self, limit: i128) -> (r: bool)
        requires
            self.wf(),
            limit >= 0,
        ensures
            r == mat_bounded(self@, limit as int),
    {
        let d = self.mat.height();
        let mut i: usize = 0;
        let mut ok = true;
        while i < d
            invariant
                i <= d,
                d == self.dim(),
                self.wf(),
                limit >= 0,
                ok == (forall|a: int, b: int|
                    0 <= a < i && 0 <= b < d ==> -(limit as int) <= #[trigger] self@[a][b]
                        <= limit as int),
            decreases d - i,
        {
            let mut j: usize = 0;
            while j < d
                invariant
                    j <= d,
                    i < d,
                    d == self.dim(),
                    self.wf(),
                    limit >= 0,
                    ok == ((forall|a: int, b: int|
                        0 <= a < i && 0 <= b < d ==> -(limit as int) <= #[trigger] self@[a][b]
                            <= limit as int) && (forall|b: int|
                        0 <= b < j ==> -(limit as int) <= #[trigger] self@[i as int][b]
                            <= limit as int)),
                decreases d - j,
            {
                let v = self.mat.at(i, j);
                if v > limit || v < -limit {
                    ok = false;
                }
                j = j + 1;
            }
            i = i + 1;
        }
        proof {
            if ok {
                assert(mat_bounded(self@, limit as int));
            } else {
                assert(!mat_bounded(self@, limit as int));
            }
        }
        ok
    }

    /// Entry read, for inspecting the raw covariance.
    pub fn entry(&self, i: usize, j: usize) -> (v: i128)
        requires
            self.wf(),
            i < self.dim(),
            j < self.dim(),
        ensures
            v as int == self@[i as int][j as int],
    {
        self.mat.at(i, j)
    }

    /// The `d` by `d` covariance with every entry `cov` — the rank-one outer
    /// form `cov * 1 1^T`.
    pub fn from_element(d: usize, cov: i128) -> (r: Uncertainty)
        requires
            d >= 1,
            cov >= 0,
        ensures
            r.wf(),
            r.dim() == d,
            r@ =~~= mat_const(d as nat, d as nat, cov as int),
    {
        let m = Matrix::filled(d, d, cov);
        assert(m@ =~~= mat_const(d as nat, d as nat, cov as int));
        proof {
            lemma_const_psd(d as nat, cov as int);
        }
        Uncertainty { mat: m }
    }

    /// Same as [`Uncertainty::from_element`], with the dimension given last
    /// for the callers that find that more readable.
    pub fn from_element_with_len(cov: i128, len: usize) -> (r: Uncertainty)
        requires
            len >= 1,
            cov >= 0,
        ensures
            r.wf(),
            r.dim() == len,
            r@ =~~= mat_const(len as nat, len as nat, cov as int),
    {
        Uncertainty::from_element(len, cov)
    }

    /// The `d` by `d` covariance with `cov` on the diagonal: independent
    /// equal variances along each axis.
    pub fn from_diagonal_element(d: usize, cov: i128) -> (r: Uncertainty)
        requires
            d >= 1,
            cov >= 0,
        ensures
            r.wf(),
            r.dim() == d,
            r@ =~~= mat_diag(d as nat, cov as int),
    {
        let m = Matrix::diagonal(d, cov);
        assert(m@ =~~= mat_diag(d as nat, cov as int));
        proof {
            lemma_diag_psd(d as nat, cov as int);
        }
        Uncertainty { mat: m }
    }

    /// Propagate through the linear map `error`: returns the covariance
    /// `error * self * error^T` of dimension `error.nrows()`, exact over the
    /// integers. This is the only way a covariance moves through a (locally
    /// linear) function of an uncertain quantity.
    pub fn forward(&self, error: &Matrix, Ghost(be): Ghost<int>, Ghost(bs): Ghost<int>) -> (r: Uncertainty)
        requires
            self.wf(),
            error.wf(),
            error.cols == self.dim(),
            error.nrows() >= 1,
            be >= 0,
            bs >= 0,
            mat_bounded(error@, be),
            mat_bounded(self@, bs),
            self.dim() * be * bs <= i128::MAX as int,
            self.dim() * (self.dim() * be * bs) * be <= i128::MAX as int,
        ensures
            r.wf(),
            r.dim() == error.nrows(),
            r@ =~~= mat_product(mat_product(error@, self@), mat_transpose(error@)),
            mat_bounded(r@, self.dim() * (self.dim() * be * bs) * be),
    {
        let ghost d = self.dim();
        let js = error.times(&self.mat, Ghost(be), Ghost(bs));
        let jt = error.transposed();
        let r = js.times(&jt, Ghost(d * be * bs), Ghost(be));
        proof {
            lemma_propagate_symmetric(error@, self@, error.nrows(), d);
            lemma_propagate_psd(error@, self@, error.nrows(), d);
        }
        Uncertainty { mat: r }
    }

    /// Project onto the direction `error` (a `dim` by 1 column): returns the
    /// scalar variance `error^T * self * error`, which is the quadratic form
    /// of the covariance at that direction and therefore never negative.
    pub fn back(&self, error: &Matrix, Ghost(be): Ghost<int>, Ghost(bs): Ghost<int>) -> (r: i128)
        requires
            self.wf(),
            error.wf(),
            error.nrows() == self.dim(),
            error.cols == 1,
            be >= 0,
            bs >= 0,
            mat_bounded(error@, be),
            mat_bounded(self@, bs),
            self.dim() * bs * be <= i128::MAX as int,
            self.dim() * (self.dim() * bs * be) * be <= i128::MAX as int,
        ensures
            r as int == quad_form(self@, crate::linalg::model::column(error@, 0)),
            r >= 0,
            r as int <= self.dim() * be * (self.dim() * bs * be),
    {
        let ghost d = self.dim();
        let ghost v = crate::linalg::model::column(error@, 0);
        let se = self.mat.times(error, Ghost(bs), Ghost(be));
        let et = error.transposed();
        proof {
            assert(d * be * (d * bs * be) == d * (d * bs * be) * be) by (nonlinear_arith);
        }
        let out = et.times(&se, Ghost(be), Ghost(d * bs * be));
        proof {
            assert(v.len() == d);
            // Entry (0, 0) of error^T * (self * error) is the quadratic form.
            assert(crate::linalg::model::width(se@) == 1);
            assert(out@[0][0] == crate::linalg::model::dot(
                et@[0],
                crate::linalg::model::column(se@, 0),
            ));
            assert(et@[0] =~= v);
            assert(crate::linalg::model::column(se@, 0) =~= crate::linalg::model::mat_apply(
                self@,
                v,
            )) by {
                assert forall|i: int| 0 <= i < d implies #[trigger] crate::linalg::model::column(
                    se@,
                    0,
                )[i] == crate::linalg::model::mat_apply(self@, v)[i] by {
                    assert(se@[i][0] == crate::linalg::model::dot(
                        self@[i],
                        crate::linalg::model::column(error@, 0),
                    ));
                }
            }
            lemma_dot_comm(v, crate::linalg::model::mat_apply(self@, v));
            assert(quad_form(self@, v) >= 0);
        }
        out.at(0, 0)
    }

    /// Sum of two independent error sources of equal dimension.
    pub fn plus(&self, other: &Uncertainty, Ghost(b): Ghost<int>) -> (r: Uncertainty)
        requires
            self.wf(),
            other.wf(),
            self.dim() == other.dim(),
            b >= 0,
            2 * b <= i128::MAX as int,
            mat_bounded(self@, b),
            mat_bounded(other@, b),
        ensures
            r.wf(),
            r.dim() == self.dim(),
            r@ =~~= mat_plus(self@, other@),
            mat_bounded(r@, 2 * b),
    {
        let m = self.mat.plus(&other.mat, Ghost(b));
        proof {
            lemma_plus_psd(self@, other@, self.dim());
            assert forall|i: int, j: int|
                0 <= i < m@.len() && 0 <= j < m@.len() implies #[trigger] m@[i][j] == m@[j][i] by {
                assert(m@[i][j] == self@[i][j] + other@[i][j]);
                assert(m@[j][i] == self@[j][i] + other@[j][i]);
            }
        }
        Uncertainty { mat: m }
    }

    /// The covariance scaled by a non-negative factor `k` (an inflation of
    /// every variance by `k`).
    pub fn scaled(&self, k: i128, Ghost(b): Ghost<int>) -> (r: Uncertainty)
        requires
            self.wf(),
            k >= 0,
            b >= 0,
            k * b <= i128::MAX as int,
            mat_bounded(self@, b),
        ensures
            r.wf(),
            r.dim() == self.dim(),
            r@ =~~= mat_scaled(k as int, self@),
    {
        let m = self.mat.scaled_by(k, Ghost(b));
        proof {
            let s = mat_scaled(k as int, self@);
            assert forall|i: int, j: int|
                0 <= i < m@.len() && 0 <= j < m@.len() implies #[trigger] m@[i][j] == m@[j][i] by {
                assert(m@[i][j] == k * self@[i][j]);
                assert(m@[j][i] == k * self@[j][i]);
            }
            assert forall|x: Seq<int>| x.len() == m@.len() implies #[trigger] quad_form(m@, x)
                >= 0 by {
                crate::linalg::model::lemma_quad_form_scaled(k as int, self@, x, self.dim());
                assert(quad_form(self@, x) >= 0);
                assert(k * quad_form(self@, x) >= 0) by (nonlinear_arith)
                    requires
                        k >= 0,
                        quad_form(self@, x) >= 0,
                ;
            }
        }
        Uncertainty { mat: m }
    }

    /// Block-diagonal composition: `self` occupies the leading diagonal
    /// block, `other` the trailing one, and the cross terms are zero — the
    /// two error sources are taken as independent.
    pub fn stacked_with(&self, other: &Uncertainty) -> (r: Uncertainty)
        requires
            self.wf(),
            other.wf(),
            self.dim() + other.dim() <= usize::MAX,
        ensures
            r.wf(),
            r.dim() == self.dim() + other.dim(),
            r@ =~~= block_pair(self@, other@),
    {
        let da = self.mat.height();
        let db = other.mat.height();
        let d = da + db;
        let mut rows: Vec<Vec<i128>> = Vec::new();
        let mut i: usize = 0;
        while i < d
            invariant
                i <= d,
                d == da + db,
                da == self.dim(),
                db == other.dim(),
                self.wf(),
                other.wf(),
                rows@.len() == i,
                forall|p: int| 0 <= p < i ==> (#[trigger] rows@[p])@.len() == d,
                forall|p: int, q: int|
                    0 <= p < i && 0 <= q < d ==> #[trigger] rows@[p]@[q] as int == block_pair(
                        self@,
                        other@,
                    )[p][q],
            decreases d - i,
        {
            let mut row: Vec<i128> = Vec::new();
            let mut j: usize = 0;
            while j < d
                invariant
                    j <= d,
                    i < d,
                    d == da + db,
                    da == self.dim(),
                    db == other.dim(),
                    self.wf(),
                    other.wf(),
                    row@.len() == j,
                    forall|q: int|
                        0 <= q < j ==> #[trigger] row@[q] as int == block_pair(
                            self@,
                            other@,
                        )[i as int][q],
                decreases d - j,
            {
                let v: i128 = if i < da && j < da {
                    self.mat.at(i, j)
                } else if i >= da && j >= da {
                    other.mat.at(i - da, j - da)
                } else {
                    0
                };
                assert(v as int == block_pair(self@, other@)[i as int][j as int]);
                row.push(v);
                j = j + 1;
            }
            rows.push(row);
            i = i + 1;
        }
        let m = Matrix { rows, cols: d };
        proof {
            assert forall|p: int| 0 <= p < d implies #[trigger] m@[p]
                =~= block_pair(self@, other@)[p] by {
                assert(m@[p].len() == rows@[p]@.len());
            }
            assert(m@ =~~= block_pair(self@, other@));
            lemma_block_pair_psd(self@, other@, da as int, db as int);
        }
        Uncertainty { mat: m }
    }

    /// The `d` by `d` diagonal sub-block starting at `off`: the named read
    /// view into one component of a composite uncertainty.
    pub fn view_block(&self, off: usize, d: usize) -> (r: Uncertainty)
        requires
            self.wf(),
            d >= 1,
            off + d <= self.dim(),
        ensures
            r.wf(),
            r.dim() == d,
            r@ =~~= sub_block(self@, off as int, d as nat),
    {
        let mut rows: Vec<Vec<i128>> = Vec::new();
        let mut i: usize = 0;
        while i < d
            invariant
                i <= d,
                d >= 1,
                off + d <= self.dim(),
                self.wf(),
                rows@.len() == i,
                forall|p: int| 0 <= p < i ==> (#[trigger] rows@[p])@.len() == d,
                forall|p: int, q: int|
                    0 <= p < i && 0 <= q < d ==> #[trigger] rows@[p]@[q] as int == self@[off + p][off
                        + q],
            decreases d - i,
        {
            let mut row: Vec<i128> = Vec::new();
            let mut j: usize = 0;
            while j < d
                invariant
                    j <= d,
                    i < d,
                    off + d <= self.dim(),
                    self.wf(),
                    row@.len() == j,
                    forall|q: int|
                        0 <= q < j ==> #[trigger] row@[q] as int == self@[off + i as int][off + q],
                decreases d - j,
            {
                let v = self.mat.at(off + i, off + j);
                row.push(v);
                j = j + 1;
            }
            rows.push(row);
            i = i + 1;
        }
        let m = Matrix { rows, cols: d };
        proof {
            assert forall|p: int| 0 <= p < d implies #[trigger] m@[p]
                =~= sub_block(self@, off as int, d as nat)[p] by {
                assert(m@[p].len() == rows@[p]@.len());
                assert forall|q: int| 0 <= q < d implies #[trigger] m@[p][q]
                    == sub_block(self@, off as int, d as nat)[p][q] by {
                    assert(sub_block(self@, off as int, d as nat)[p][q] == self@[off + p][off + q]);
                }
            }
            assert(m@ =~~= sub_block(self@, off as int, d as nat));
            lemma_sub_block_psd(self@, off as int, d as nat, self.dim());
        }
        Uncertainty { mat: m }
    }
}

} // verus!
