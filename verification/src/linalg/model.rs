//! Mathematical model of vectors and matrices over the integers.
//!
//! A vector is a `Seq<int>`; a matrix is a sequence of rows. Everything here
//! is specification- and proof-level: the executable counterparts live in the
//! parent module and carry contracts phrased in these functions.

use vstd::prelude::*;

verus! {

/// `m` is a well-formed `r` by `c` matrix: `r` rows, each of length `c`.
pub open spec fn is_matrix(m: Seq<Seq<int>>, r: int, c: int) -> bool {
    m.len() == r && forall|i: int| 0 <= i < r ==> (#[trigger] m[i]).len() == c
}

/// Sum of the entries of a vector.
pub open spec fn vec_total(s: Seq<int>) -> int
    decreases s.len(),
{
    if s.len() == 0 {
        0
    } else {
        vec_total(s.drop_last()) + s.last()
    }
}

/// Pointwise product of two vectors (the length of the first governs).
pub open spec fn entrywise_mul(a: Seq<int>, b: Seq<int>) -> Seq<int> {
    Seq::new(a.len(), |i: int| a[i] * b[i])
}

/// Inner product of two vectors of equal length.
pub open spec fn dot(a: Seq<int>, b: Seq<int>) -> int {
    vec_total(entrywise_mul(a, b))
}

/// Pointwise sum of two vectors of equal length.
pub open spec fn vec_plus(a: Seq<int>, b: Seq<int>) -> Seq<int> {
    Seq::new(a.len(), |i: int| a[i] + b[i])
}

/// A vector scaled by `k`.
pub open spec fn vec_scaled(k: int, a: Seq<int>) -> Seq<int> {
    Seq::new(a.len(), |i: int| k * a[i])
}

/// Column `j` of a matrix.
pub open spec fn column(m: Seq<Seq<int>>, j: int) -> Seq<int> {
    Seq::new(m.len(), |i: int| m[i][j])
}

/// Number of columns of a matrix (0 for an empty one).
pub open spec fn width(m: Seq<Seq<int>>) -> int {
    if m.len() == 0 {
        0
    } else {
        m[0].len() as int
    }
}

/// Transpose of a matrix.
pub open spec fn mat_transpose(m: Seq<Seq<int>>) -> Seq<Seq<int>> {
    Seq::new(width(m) as nat, |j: int| column(m, j))
}

/// Matrix product.
pub open spec fn mat_product(a: Seq<Seq<int>>, b: Seq<Seq<int>>) -> Seq<Seq<int>> {
    Seq::new(a.len(), |i: int| Seq::new(width(b) as nat, |j: int| dot(a[i], column(b, j))))
}

/// Pointwise sum of two matrices of equal shape.
pub open spec fn mat_plus(a: Seq<Seq<int>>, b: Seq<Seq<int>>) -> Seq<Seq<int>> {
    Seq::new(a.len(), |i: int| vec_plus(a[i], b[i]))
}

/// A matrix scaled by `k`.
pub open spec fn mat_scaled(k: int, a: Seq<Seq<int>>) -> Seq<Seq<int>> {
    Seq::new(a.len(), |i: int| vec_scaled(k, a[i]))
}

/// A matrix with every entry floor-divided by `k`.
pub open spec fn mat_div_floor(a: Seq<Seq<int>>, k: int) -> Seq<Seq<int>> {
    Seq::new(a.len(), |i: int| Seq::new(a[i].len(), |j: int| a[i][j] / k))
}

/// Matrix times (column) vector.
pub open spec fn mat_apply(m: Seq<Seq<int>>, x: Seq<int>) -> Seq<int> {
    Seq::new(m.len(), |i: int| dot(m[i], x))
}

/// Covariance propagation through a linear map: `j * s * j^T`.
pub open spec fn propagate(j: Seq<Seq<int>>, s: Seq<Seq<int>>) -> Seq<Seq<int>> {
    mat_product(mat_product(j, s), mat_transpose(j))
}

/// The quadratic form `x^T m x`.
pub open spec fn quad_form(m: Seq<Seq<int>>, x: Seq<int>) -> int {
    dot(x, mat_apply(m, x))
}

/// `m` equals its transpose.
pub open spec fn is_symmetric(m: Seq<Seq<int>>) -> bool {
    &&& is_matrix(m, m.len() as int, m.len() as int)
    &&& forall|i: int, j: int|
        0 <= i < m.len() && 0 <= j < m.len() ==> #[trigger] m[i][j] == m[j][i]
}

/// `m` is positive semi-definite: every quadratic form in it is non-negative.
pub open spec fn is_psd(m: Seq<Seq<int>>) -> bool {
    forall|x: Seq<int>| x.len() == m.len() ==> #[trigger] quad_form(m, x) >= 0
}

/// Every entry of `m` lies in `[-b, b]`.
pub open spec fn mat_bounded(m: Seq<Seq<int>>, b: int) -> bool {
    forall|i: int, j: int|
        0 <= i < m.len() && 0 <= j < m[i].len() ==> -b <= #[trigger] m[i][j] <= b
}

/// Every entry of the vector `s` lies in `[-b, b]`.
pub open spec fn vec_bounded(s: Seq<int>, b: int) -> bool {
    forall|i: int| 0 <= i < s.len() ==> -b <= #[trigger] s[i] <= b
}

/// A bound on every entry stays a bound when enlarged.
pub proof fn lemma_mat_bounded_mono(m: Seq<Seq<int>>, b1: int, b2: int)
    requires
        mat_bounded(m, b1),
        b1 <= b2,
    ensures
        mat_bounded(m, b2),
{
}

// ---------------------------------------------------------------------------
// Sums
// ---------------------------------------------------------------------------

pub proof fn lemma_total_push(s: Seq<int>, x: int)
    ensures
        vec_total(s.push(x)) == vec_total(s) + x,
{
    assert(s.push(x).drop_last() =~= s);
}

pub proof fn lemma_total_take_succ(s: Seq<int>, i: int)
    requires
        0 <= i < s.len(),
    ensures
        vec_total(s.take(i + 1)) == vec_total(s.take(i)) + s[i],
{
    assert(s.take(i + 1).drop_last() =~= s.take(i));
}

pub proof fn lemma_total_plus(a: Seq<int>, b: Seq<int>)
    requires
        a.len() == b.len(),
    ensures
        vec_total(vec_plus(a, b)) == vec_total(a) + vec_total(b),
    decreases a.len(),
{
    if a.len() > 0 {
        assert(vec_plus(a, b).drop_last() =~= vec_plus(a.drop_last(), b.drop_last()));
        lemma_total_plus(a.drop_last(), b.drop_last());
    }
}

pub proof fn lemma_total_scaled(k: int, s: Seq<int>)
    ensures
        vec_total(vec_scaled(k, s)) == k * vec_total(s),
    decreases s.len(),
{
    if s.len() == 0 {
    } else {
        assert(vec_scaled(k, s).drop_last() =~= vec_scaled(k, s.drop_last()));
        lemma_total_scaled(k, s.drop_last());
        assert(k * (vec_total(s.drop_last()) + s.last())
            == k * vec_total(s.drop_last()) + k * s.last()) by (nonlinear_arith);
    }
}

pub proof fn lemma_total_bound(s: Seq<int>, b: int)
    requires
        b >= 0,
        vec_bounded(s, b),
    ensures
        -(s.len() * b) <= vec_total(s) <= s.len() * b,
    decreases s.len(),
{
    if s.len() == 0 {
    } else {
        assert(vec_bounded(s.drop_last(), b));
        lemma_total_bound(s.drop_last(), b);
        assert((s.len() - 1) * b + b == s.len() * b) by (nonlinear_arith);
    }
}

pub proof fn lemma_total_append(a: Seq<int>, b: Seq<int>)
    ensures
        vec_total(a + b) == vec_total(a) + vec_total(b),
    decreases b.len(),
{
    if b.len() == 0 {
        assert(a + b =~= a);
    } else {
        assert((a + b).drop_last() =~= a + b.drop_last());
        assert((a + b).last() == b.last());
        lemma_total_append(a, b.drop_last());
    }
}

pub proof fn lemma_total_zero(s: Seq<int>)
    requires
        forall|i: int| 0 <= i < s.len() ==> #[trigger] s[i] == 0,
    ensures
        vec_total(s) == 0,
    decreases s.len(),
{
    if s.len() > 0 {
        lemma_total_zero(s.drop_last());
    }
}

/// A three-entry sum, written out.
pub proof fn lemma_total3(s: Seq<int>)
    requires
        s.len() == 3,
    ensures
        vec_total(s) == s[0] + s[1] + s[2],
{
    assert(s.drop_last().drop_last().drop_last() =~= Seq::<int>::empty());
    assert(vec_total(s.drop_last().drop_last()) == vec_total(
        s.drop_last().drop_last().drop_last(),
    ) + s[0]);
    assert(vec_total(s.drop_last()) == vec_total(s.drop_last().drop_last()) + s[1]);
}

/// A three-entry inner product, written out.
pub proof fn lemma_dot3(a: Seq<int>, b: Seq<int>)
    requires
        a.len() == 3,
        b.len() == 3,
    ensures
        dot(a, b) == a[0] * b[0] + a[1] * b[1] + a[2] * b[2],
{
    lemma_total3(entrywise_mul(a, b));
}

/// Exchanging the order of a double sum: summing each row of `g` and adding
/// up equals summing each column and adding up.
pub proof fn lemma_total_exchange(g: Seq<Seq<int>>, c: int)
    requires
        c >= 0,
        forall|i: int| 0 <= i < g.len() ==> (#[trigger] g[i]).len() == c,
    ensures
        vec_total(Seq::new(g.len(), |i: int| vec_total(g[i])))
            == vec_total(Seq::new(c as nat, |j: int| vec_total(column(g, j)))),
    decreases g.len(),
{
    if g.len() == 0 {
        assert(forall|j: int| 0 <= j < c ==> vec_total(#[trigger] column(g, j)) == 0) by {
            assert forall|j: int| 0 <= j < c implies vec_total(#[trigger] column(g, j)) == 0 by {
                assert(column(g, j) =~= Seq::<int>::empty());
            }
        }
        lemma_total_zero(Seq::new(c as nat, |j: int| vec_total(column(g, j))));
        assert(Seq::new(g.len(), |i: int| vec_total(g[i])) =~= Seq::<int>::empty());
    } else {
        let g0 = g.drop_last();
        let lastrow = g.last();
        lemma_total_exchange(g0, c);
        // row side
        assert(Seq::new(g.len(), |i: int| vec_total(g[i])).drop_last()
            =~= Seq::new(g0.len(), |i: int| vec_total(g0[i])));
        // column side
        let colsums = Seq::new(c as nat, |j: int| vec_total(column(g, j)));
        let colsums0 = Seq::new(c as nat, |j: int| vec_total(column(g0, j)));
        assert forall|j: int| 0 <= j < c implies #[trigger] colsums[j] == colsums0[j] + lastrow[j] by {
            assert(column(g, j) =~= column(g0, j).push(lastrow[j]));
            lemma_total_push(column(g0, j), lastrow[j]);
        }
        assert(colsums =~= vec_plus(colsums0, lastrow));
        lemma_total_plus(colsums0, lastrow);
    }
}

// ---------------------------------------------------------------------------
// Inner products
// ---------------------------------------------------------------------------

pub proof fn lemma_dot_comm(a: Seq<int>, b: Seq<int>)
    requires
        a.len() == b.len(),
    ensures
        dot(a, b) == dot(b, a),
{
    assert(entrywise_mul(a, b) =~= entrywise_mul(b, a));
}

pub proof fn lemma_dot_scaled_left(k: int, a: Seq<int>, b: Seq<int>)
    requires
        a.len() == b.len(),
    ensures
        dot(vec_scaled(k, a), b) == k * dot(a, b),
{
    assert(entrywise_mul(vec_scaled(k, a), b) =~= vec_scaled(k, entrywise_mul(a, b))) by {
        assert forall|i: int| 0 <= i < a.len() implies #[trigger] entrywise_mul(
            vec_scaled(k, a),
            b,
        )[i] == vec_scaled(k, entrywise_mul(a, b))[i] by {
            assert((k * a[i]) * b[i] == k * (a[i] * b[i])) by (nonlinear_arith);
        }
    }
    lemma_total_scaled(k, entrywise_mul(a, b));
}

pub proof fn lemma_dot_plus_right(a: Seq<int>, b: Seq<int>, c: Seq<int>)
    requires
        a.len() == b.len(),
        a.len() == c.len(),
    ensures
        dot(a, vec_plus(b, c)) == dot(a, b) + dot(a, c),
{
    assert(entrywise_mul(a, vec_plus(b, c))
        =~= vec_plus(entrywise_mul(a, b), entrywise_mul(a, c))) by {
        assert forall|i: int| 0 <= i < a.len() implies #[trigger] entrywise_mul(
            a,
            vec_plus(b, c),
        )[i] == vec_plus(entrywise_mul(a, b), entrywise_mul(a, c))[i] by {
            assert(a[i] * (b[i] + c[i]) == a[i] * b[i] + a[i] * c[i]) by (nonlinear_arith);
        }
    }
    lemma_total_plus(entrywise_mul(a, b), entrywise_mul(a, c));
}

/// A product of entries drawn from `[-p, p]` and `[-q, q]` lies in `[-pq, pq]`.
pub proof fn lemma_mul_bound(x: int, y: int, p: int, q: int)
    requires
        -p <= x <= p,
        -q <= y <= q,
    ensures
        -(p * q) <= x * y <= p * q,
{
    assert(-(p * q) <= x * y <= p * q) by (nonlinear_arith)
        requires
            -p <= x <= p,
            -q <= y <= q,
    ;
}

pub proof fn lemma_total_nonneg(s: Seq<int>)
    requires
        forall|i: int| 0 <= i < s.len() ==> #[trigger] s[i] >= 0,
    ensures
        vec_total(s) >= 0,
    decreases s.len(),
{
    if s.len() > 0 {
        lemma_total_nonneg(s.drop_last());
    }
}

// ---------------------------------------------------------------------------
// The adjoint identity and its consequences
// ---------------------------------------------------------------------------

/// `x . (m y) == (m^T x) . y` — moving a matrix to the other side of an
/// inner product transposes it.
pub proof fn lemma_adjoint(m: Seq<Seq<int>>, x: Seq<int>, y: Seq<int>)
    requires
        is_matrix(m, x.len() as int, y.len() as int),
        x.len() > 0,
    ensures
        dot(x, mat_apply(m, y)) == dot(mat_apply(mat_transpose(m), x), y),
{
    let r = x.len() as int;
    let c = y.len() as int;
    let g = Seq::new(r as nat, |i: int| vec_scaled(x[i], entrywise_mul(m[i], y)));
    assert(forall|i: int| 0 <= i < r ==> (#[trigger] g[i]).len() == c);

    // Left side is the sum of the row sums of g.
    assert(entrywise_mul(x, mat_apply(m, y)) =~= Seq::new(r as nat, |i: int| vec_total(g[i]))) by {
        assert forall|i: int| 0 <= i < r implies #[trigger] entrywise_mul(x, mat_apply(m, y))[i]
            == vec_total(g[i]) by {
            lemma_total_scaled(x[i], entrywise_mul(m[i], y));
        }
    }

    // Right side is the sum of the column sums of g.
    assert(width(m) == c);
    assert(entrywise_mul(mat_apply(mat_transpose(m), x), y)
        =~= Seq::new(c as nat, |j: int| vec_total(column(g, j)))) by {
        assert forall|j: int| 0 <= j < c implies #[trigger] entrywise_mul(
            mat_apply(mat_transpose(m), x),
            y,
        )[j] == vec_total(column(g, j)) by {
            let w = entrywise_mul(column(m, j), x);
            assert(mat_transpose(m)[j] =~= column(m, j));
            assert(column(g, j) =~= vec_scaled(y[j], w)) by {
                assert forall|i: int| 0 <= i < r implies #[trigger] column(g, j)[i] == vec_scaled(
                    y[j],
                    w,
                )[i] by {
                    assert(g[i] == vec_scaled(x[i], entrywise_mul(m[i], y)));
                    assert(g[i][j] == x[i] * (m[i][j] * y[j]));
                    assert(w[i] == m[i][j] * x[i]);
                    assert(x[i] * (m[i][j] * y[j]) == y[j] * (m[i][j] * x[i]))
                        by (nonlinear_arith);
                }
            }
            lemma_total_scaled(y[j], w);
            assert(vec_total(column(g, j)) == y[j] * dot(column(m, j), x));
            assert(mat_apply(mat_transpose(m), x)[j] == dot(column(m, j), x));
            assert(entrywise_mul(mat_apply(mat_transpose(m), x), y)[j] == dot(column(m, j), x)
                * y[j]);
            assert(dot(column(m, j), x) * y[j] == y[j] * dot(column(m, j), x));
        }
    }

    lemma_total_exchange(g, c);
}

/// Row `i` of a product `a b` equals `b^T` applied to row `i` of `a`.
pub proof fn lemma_product_row(a: Seq<Seq<int>>, b: Seq<Seq<int>>, i: int)
    requires
        0 <= i < a.len(),
        is_matrix(b, a[i].len() as int, width(b)),
    ensures
        mat_product(a, b)[i] =~= mat_apply(mat_transpose(b), a[i]),
{
    assert forall|j: int| 0 <= j < width(b) implies #[trigger] mat_product(a, b)[i][j]
        == mat_apply(mat_transpose(b), a[i])[j] by {
        assert(mat_transpose(b)[j] =~= column(b, j));
        lemma_dot_comm(a[i], column(b, j));
    }
}

/// `(a b) x == a (b x)`.
pub proof fn lemma_apply_product(a: Seq<Seq<int>>, b: Seq<Seq<int>>, x: Seq<int>, r: int, k: int, c: int)
    requires
        is_matrix(a, r, k),
        is_matrix(b, k, c),
        x.len() == c,
        r > 0,
        k > 0,
        c > 0,
    ensures
        mat_apply(mat_product(a, b), x) =~= mat_apply(a, mat_apply(b, x)),
{
    assert(width(b) == c);
    assert forall|i: int| 0 <= i < r implies #[trigger] mat_apply(mat_product(a, b), x)[i]
        == mat_apply(a, mat_apply(b, x))[i] by {
        lemma_product_row(a, b, i);
        lemma_adjoint(b, a[i], x);
        assert(dot(mat_product(a, b)[i], x) == dot(mat_apply(mat_transpose(b), a[i]), x));
        assert(dot(mat_apply(mat_transpose(b), a[i]), x) == dot(a[i], mat_apply(b, x)));
    }
}

// ---------------------------------------------------------------------------
// Symmetry and positive semi-definiteness of propagated covariances
// ---------------------------------------------------------------------------

/// The quadratic form in `j s j^T` at `x` is the quadratic form in `s` at
/// `j^T x`: propagating a covariance through a linear map evaluates the
/// original form on the pulled-back vector.
pub proof fn lemma_quad_form_propagate(j: Seq<Seq<int>>, s: Seq<Seq<int>>, x: Seq<int>, r: int, d: int)
    requires
        is_matrix(j, r, d),
        is_matrix(s, d, d),
        x.len() == r,
        r > 0,
        d > 0,
    ensures
        quad_form(mat_product(mat_product(j, s), mat_transpose(j)), x)
            == quad_form(s, mat_apply(mat_transpose(j), x)),
{
    let jt = mat_transpose(j);
    assert(is_matrix(jt, d, r));
    assert(is_matrix(mat_product(j, s), r, d));
    lemma_apply_product(mat_product(j, s), jt, x, r, d, r);
    lemma_apply_product(j, s, mat_apply(jt, x), r, d, d);
    assert(mat_apply(s, mat_apply(jt, x)).len() == d);
    lemma_adjoint(j, x, mat_apply(s, mat_apply(jt, x)));
    assert(dot(x, mat_apply(mat_product(mat_product(j, s), jt), x))
        == dot(mat_apply(jt, x), mat_apply(s, mat_apply(jt, x))));
}

/// Propagation `j s j^T` preserves positive semi-definiteness.
pub proof fn lemma_propagate_psd(j: Seq<Seq<int>>, s: Seq<Seq<int>>, r: int, d: int)
    requires
        is_matrix(j, r, d),
        is_matrix(s, d, d),
        is_psd(s),
        r > 0,
        d > 0,
    ensures
        is_psd(mat_product(mat_product(j, s), mat_transpose(j))),
{
    let p = mat_product(mat_product(j, s), mat_transpose(j));
    assert forall|x: Seq<int>| x.len() == p.len() implies #[trigger] quad_form(p, x) >= 0 by {
        lemma_quad_form_propagate(j, s, x, r, d);
        assert(mat_apply(mat_transpose(j), x).len() == d);
        assert(quad_form(s, mat_apply(mat_transpose(j), x)) >= 0);
    }
}

/// Propagation `j s j^T` of a symmetric matrix is symmetric.
pub proof fn lemma_propagate_symmetric(j: Seq<Seq<int>>, s: Seq<Seq<int>>, r: int, d: int)
    requires
        is_matrix(j, r, d),
        is_matrix(s, d, d),
        is_symmetric(s),
        r > 0,
        d > 0,
    ensures
        is_symmetric(mat_product(mat_product(j, s), mat_transpose(j))),
{
    let p = mat_product(mat_product(j, s), mat_transpose(j));
    assert(is_matrix(p, r, r));
    assert forall|i: int, k: int| 0 <= i < r && 0 <= k < r implies #[trigger] p[i][k] == p[k][i] by {
        lemma_propagate_entry(j, s, r, d, i, k);
        lemma_propagate_entry(j, s, r, d, k, i);
        // p[i][k] = (s j_i) . j_k  and  p[k][i] = (s j_k) . j_i; these agree
        // because s is its own adjoint.
        lemma_dot_comm(mat_apply(s, j[i]), j[k]);
        lemma_adjoint(s, j[k], j[i]);
        lemma_transpose_symmetric(s);
    }
}

/// A symmetric matrix equals its transpose.
pub proof fn lemma_transpose_symmetric(s: Seq<Seq<int>>)
    requires
        is_symmetric(s),
    ensures
        mat_transpose(s) =~~= s,
{
    let d = s.len() as int;
    if d > 0 {
        assert(width(s) == d);
        assert forall|j: int| 0 <= j < d implies #[trigger] mat_transpose(s)[j] =~= s[j] by {
            assert(mat_transpose(s)[j] =~= column(s, j));
            assert forall|i: int| 0 <= i < d implies #[trigger] column(s, j)[i] == s[j][i] by {
                assert(s[i][j] == s[j][i]);
            }
        }
    }
}

/// Entry `(i, k)` of `j s j^T` is `(s j_i) . j_k` for symmetric `s`.
proof fn lemma_propagate_entry(j: Seq<Seq<int>>, s: Seq<Seq<int>>, r: int, d: int, i: int, k: int)
    requires
        is_matrix(j, r, d),
        is_matrix(s, d, d),
        is_symmetric(s),
        0 <= i < r,
        0 <= k < r,
        d > 0,
    ensures
        mat_product(mat_product(j, s), mat_transpose(j))[i][k] == dot(mat_apply(s, j[i]), j[k]),
{
    let js = mat_product(j, s);
    let jt = mat_transpose(j);
    assert(width(jt) == r);
    assert(mat_product(js, jt)[i][k] == dot(js[i], column(jt, k)));
    assert(column(jt, k) =~= j[k]) by {
        assert forall|q: int| 0 <= q < d implies #[trigger] column(jt, k)[q] == j[k][q] by {
            assert(jt[q] =~= column(j, q));
        }
    }
    lemma_product_row(j, s, i);
    lemma_transpose_symmetric(s);
    assert(js[i] =~= mat_apply(s, j[i]));
    assert(dot(js[i], j[k]) == dot(mat_apply(s, j[i]), j[k]));
}

/// A sum of symmetric PSD matrices is symmetric and PSD.
pub proof fn lemma_plus_psd(a: Seq<Seq<int>>, b: Seq<Seq<int>>, d: int)
    requires
        is_matrix(a, d, d),
        is_matrix(b, d, d),
        is_psd(a),
        is_psd(b),
    ensures
        is_psd(mat_plus(a, b)),
{
    let m = mat_plus(a, b);
    assert forall|x: Seq<int>| x.len() == m.len() implies #[trigger] quad_form(m, x) >= 0 by {
        lemma_quad_form_plus(a, b, x, d);
    }
}

/// Quadratic forms are additive in the matrix argument.
pub proof fn lemma_quad_form_plus(a: Seq<Seq<int>>, b: Seq<Seq<int>>, x: Seq<int>, d: int)
    requires
        is_matrix(a, d, d),
        is_matrix(b, d, d),
        x.len() == d,
    ensures
        quad_form(mat_plus(a, b), x) == quad_form(a, x) + quad_form(b, x),
{
    assert(mat_apply(mat_plus(a, b), x) =~= vec_plus(mat_apply(a, x), mat_apply(b, x))) by {
        assert forall|i: int| 0 <= i < d implies #[trigger] mat_apply(mat_plus(a, b), x)[i]
            == vec_plus(mat_apply(a, x), mat_apply(b, x))[i] by {
            assert(vec_plus(a[i], b[i]).len() == x.len());
            lemma_dot_comm(vec_plus(a[i], b[i]), x);
            lemma_dot_plus_right(x, a[i], b[i]);
            lemma_dot_comm(x, a[i]);
            lemma_dot_comm(x, b[i]);
        }
    }
    lemma_dot_plus_right(x, mat_apply(a, x), mat_apply(b, x));
}

/// Quadratic forms are homogeneous in the matrix argument.
pub proof fn lemma_quad_form_scaled(k: int, a: Seq<Seq<int>>, x: Seq<int>, d: int)
    requires
        is_matrix(a, d, d),
        x.len() == d,
    ensures
        quad_form(mat_scaled(k, a), x) == k * quad_form(a, x),
{
    assert(mat_apply(mat_scaled(k, a), x) =~= vec_scaled(k, mat_apply(a, x))) by {
        assert forall|i: int| 0 <= i < d implies #[trigger] mat_apply(mat_scaled(k, a), x)[i]
            == vec_scaled(k, mat_apply(a, x))[i] by {
            lemma_dot_scaled_left(k, a[i], x);
        }
    }
    lemma_dot_comm(x, vec_scaled(k, mat_apply(a, x)));
    lemma_dot_scaled_left(k, mat_apply(a, x), x);
    lemma_dot_comm(mat_apply(a, x), x);
}

// ---------------------------------------------------------------------------
// Constant and diagonal matrices
// ---------------------------------------------------------------------------

/// The `r` by `c` matrix with every entry `v`.
pub open spec fn mat_const(r: nat, c: nat, v: int) -> Seq<Seq<int>> {
    Seq::new(r, |i: int| Seq::new(c, |j: int| v))
}

/// The `d` by `d` matrix with `v` on the diagonal and zeros elsewhere.
pub open spec fn mat_diag(d: nat, v: int) -> Seq<Seq<int>> {
    Seq::new(d, |i: int| Seq::new(d, |j: int| if i == j { v } else { 0 }))
}

/// Sum of a vector that vanishes away from one index.
pub proof fn lemma_total_single(s: Seq<int>, i: int)
    requires
        0 <= i < s.len(),
        forall|t: int| 0 <= t < s.len() && t != i ==> #[trigger] s[t] == 0,
    ensures
        vec_total(s) == s[i],
    decreases s.len(),
{
    if i == s.len() - 1 {
        lemma_total_zero(s.drop_last());
    } else {
        lemma_total_single(s.drop_last(), i);
    }
}

/// The all-`v` matrix is a rank-one outer form `v 1 1^T`: symmetric, and PSD
/// for non-negative `v` because its quadratic form is `v` times a square.
pub proof fn lemma_const_psd(d: nat, v: int)
    requires
        v >= 0,
    ensures
        is_symmetric(mat_const(d, d, v)),
        is_psd(mat_const(d, d, v)),
{
    let m = mat_const(d, d, v);
    assert forall|x: Seq<int>| x.len() == m.len() implies #[trigger] quad_form(m, x) >= 0 by {
        let t = vec_total(x);
        assert forall|i: int| 0 <= i < d implies #[trigger] mat_apply(m, x)[i] == v * t by {
            assert(entrywise_mul(m[i], x) =~= vec_scaled(v, x));
            lemma_total_scaled(v, x);
        }
        assert(entrywise_mul(x, mat_apply(m, x)) =~= vec_scaled(v * t, x)) by {
            assert forall|i: int| 0 <= i < d implies #[trigger] entrywise_mul(x, mat_apply(m, x))[i]
                == vec_scaled(v * t, x)[i] by {
                assert(x[i] * (v * t) == (v * t) * x[i]) by (nonlinear_arith);
            }
        }
        lemma_total_scaled(v * t, x);
        assert(quad_form(m, x) == (v * t) * t);
        assert((v * t) * t >= 0) by (nonlinear_arith)
            requires
                v >= 0,
        ;
    }
}

/// The diagonal matrix with non-negative `v` is symmetric and PSD: its
/// quadratic form is `v` times a sum of squares.
pub proof fn lemma_diag_psd(d: nat, v: int)
    requires
        v >= 0,
    ensures
        is_symmetric(mat_diag(d, v)),
        is_psd(mat_diag(d, v)),
{
    let m = mat_diag(d, v);
    assert forall|x: Seq<int>| x.len() == m.len() implies #[trigger] quad_form(m, x) >= 0 by {
        assert forall|i: int| 0 <= i < d implies #[trigger] mat_apply(m, x)[i] == v * x[i] by {
            let w = entrywise_mul(m[i], x);
            assert(forall|t: int| 0 <= t < d && t != i ==> #[trigger] w[t] == 0);
            assert(w[i] == v * x[i]);
            lemma_total_single(w, i);
        }
        assert forall|i: int| 0 <= i < d implies #[trigger] entrywise_mul(x, mat_apply(m, x))[i]
            >= 0 by {
            assert(x[i] * (v * x[i]) >= 0) by (nonlinear_arith)
                requires
                    v >= 0,
            ;
        }
        lemma_total_nonneg(entrywise_mul(x, mat_apply(m, x)));
    }
}

// ---------------------------------------------------------------------------
// Block-diagonal composition
// ---------------------------------------------------------------------------

/// The block-diagonal pairing of a `da` by `da` matrix `a` and a `db` by
/// `db` matrix `b`: `a` occupies the leading diagonal block, `b` the trailing
/// one, and the off-diagonal blocks are zero.
pub open spec fn block_pair(a: Seq<Seq<int>>, b: Seq<Seq<int>>) -> Seq<Seq<int>> {
    let da = a.len();
    let db = b.len();
    Seq::new(
        da + db,
        |i: int| Seq::new(
            (da + db) as nat,
            |j: int| if i < da && j < da {
                a[i][j]
            } else if i >= da && j >= da {
                b[i - da][j - da]
            } else {
                0
            },
        ),
    )
}

/// The contiguous `d` by `d` diagonal sub-block of `m` starting at `off`.
pub open spec fn sub_block(m: Seq<Seq<int>>, off: int, d: nat) -> Seq<Seq<int>> {
    Seq::new(d, |i: int| m[off + i].subrange(off, off + d))
}

/// Inner products split over concatenations.
pub proof fn lemma_dot_append(u1: Seq<int>, u2: Seq<int>, x1: Seq<int>, x2: Seq<int>)
    requires
        u1.len() == x1.len(),
        u2.len() == x2.len(),
    ensures
        dot(u1 + u2, x1 + x2) == dot(u1, x1) + dot(u2, x2),
{
    assert(entrywise_mul(u1 + u2, x1 + x2) =~= entrywise_mul(u1, x1) + entrywise_mul(u2, x2));
    lemma_total_append(entrywise_mul(u1, x1), entrywise_mul(u2, x2));
}

/// The quadratic form in a block pair splits into the forms in the blocks.
pub proof fn lemma_block_pair_quad(a: Seq<Seq<int>>, b: Seq<Seq<int>>, x: Seq<int>, da: int, db: int)
    requires
        is_matrix(a, da, da),
        is_matrix(b, db, db),
        x.len() == da + db,
        da >= 0,
        db >= 0,
    ensures
        quad_form(block_pair(a, b), x) == quad_form(a, x.take(da)) + quad_form(b, x.skip(da)),
{
    let m = block_pair(a, b);
    let xa = x.take(da);
    let xb = x.skip(da);
    assert(x =~= xa + xb);
    let za = Seq::new(da as nat, |t: int| 0int);
    let zb = Seq::new(db as nat, |t: int| 0int);
    assert forall|i: int| 0 <= i < da implies #[trigger] mat_apply(m, x)[i] == dot(a[i], xa) by {
        assert(m[i] =~= a[i] + zb);
        lemma_dot_append(a[i], zb, xa, xb);
        assert(entrywise_mul(zb, xb) =~= Seq::new(db as nat, |t: int| 0int));
        lemma_total_zero(entrywise_mul(zb, xb));
    }
    assert forall|i: int| da <= i < da + db implies #[trigger] mat_apply(m, x)[i] == dot(
        b[i - da],
        xb,
    ) by {
        assert(m[i] =~= za + b[i - da]);
        lemma_dot_append(za, b[i - da], xa, xb);
        assert(entrywise_mul(za, xa) =~= Seq::new(da as nat, |t: int| 0int));
        lemma_total_zero(entrywise_mul(za, xa));
    }
    assert(mat_apply(m, x) =~= mat_apply(a, xa) + mat_apply(b, xb));
    lemma_dot_append(xa, xb, mat_apply(a, xa), mat_apply(b, xb));
    lemma_dot_comm(xa + xb, mat_apply(a, xa) + mat_apply(b, xb));
    lemma_dot_comm(xa, mat_apply(a, xa));
    lemma_dot_comm(xb, mat_apply(b, xb));
    assert(dot(x, mat_apply(m, x)) == dot(xa + xb, mat_apply(a, xa) + mat_apply(b, xb)));
}

/// A block pair of symmetric PSD matrices is symmetric and PSD.
pub proof fn lemma_block_pair_psd(a: Seq<Seq<int>>, b: Seq<Seq<int>>, da: int, db: int)
    requires
        is_matrix(a, da, da),
        is_matrix(b, db, db),
        is_symmetric(a),
        is_symmetric(b),
        is_psd(a),
        is_psd(b),
        da >= 0,
        db >= 0,
    ensures
        is_symmetric(block_pair(a, b)),
        is_psd(block_pair(a, b)),
{
    let m = block_pair(a, b);
    assert(is_matrix(m, da + db, da + db));
    assert forall|x: Seq<int>| x.len() == m.len() implies #[trigger] quad_form(m, x) >= 0 by {
        lemma_block_pair_quad(a, b, x, da, db);
        assert(x.take(da).len() == da);
        assert(x.skip(da).len() == db);
        assert(quad_form(a, x.take(da)) >= 0);
        assert(quad_form(b, x.skip(da)) >= 0);
    }
}

/// The leading block of a pair reads back the first component, the trailing
/// block the second.
pub proof fn lemma_block_pair_views(a: Seq<Seq<int>>, b: Seq<Seq<int>>, da: int, db: int)
    requires
        is_matrix(a, da, da),
        is_matrix(b, db, db),
        da >= 0,
        db >= 0,
    ensures
        sub_block(block_pair(a, b), 0, da as nat) =~~= a,
        sub_block(block_pair(a, b), da, db as nat) =~~= b,
{
}

/// A diagonal sub-block of a symmetric PSD matrix is symmetric and PSD: the
/// quadratic form in the block is the form in the whole matrix at the vector
/// padded with zeros.
pub proof fn lemma_sub_block_psd(m: Seq<Seq<int>>, off: int, d: nat, n: int)
    requires
        is_matrix(m, n, n),
        is_symmetric(m),
        is_psd(m),
        0 <= off,
        off + d <= n,
    ensures
        is_symmetric(sub_block(m, off, d)),
        is_psd(sub_block(m, off, d)),
{
    let s = sub_block(m, off, d);
    assert(is_matrix(s, d as int, d as int));
    assert forall|i: int, j: int| 0 <= i < d && 0 <= j < d implies #[trigger] s[i][j] == s[j][i] by {
        assert(s[i][j] == m[off + i][off + j]);
        assert(s[j][i] == m[off + j][off + i]);
    }
    assert forall|x: Seq<int>| x.len() == s.len() implies #[trigger] quad_form(s, x) >= 0 by {
        let za = Seq::new(off as nat, |t: int| 0int);
        let zb = Seq::new((n - off - d) as nat, |t: int| 0int);
        let padded = za + x + zb;
        assert(padded.len() == n);
        assert forall|i: int| 0 <= i < n implies #[trigger] mat_apply(m, padded)[i] == dot(
            m[i].subrange(off, off + d),
            x,
        ) by {
            assert(m[i] =~= m[i].subrange(0, off) + m[i].subrange(off, off + d)
                + m[i].subrange(off + d, n));
            lemma_dot_append(
                m[i].subrange(0, off) + m[i].subrange(off, off + d),
                m[i].subrange(off + d, n),
                za + x,
                zb,
            );
            lemma_dot_append(m[i].subrange(0, off), m[i].subrange(off, off + d), za, x);
            assert(entrywise_mul(m[i].subrange(0, off), za)
                =~= Seq::new(off as nat, |t: int| 0int));
            lemma_total_zero(entrywise_mul(m[i].subrange(0, off), za));
            assert(entrywise_mul(m[i].subrange(off + d, n), zb)
                =~= Seq::new((n - off - d) as nat, |t: int| 0int));
            lemma_total_zero(entrywise_mul(m[i].subrange(off + d, n), zb));
        }
        assert(quad_form(m, padded) == quad_form(s, x)) by {
            let wv = mat_apply(m, padded);
            let w1 = wv.subrange(0, off);
            let w2 = wv.subrange(off, off + d);
            let w3 = wv.subrange(off + d, n);
            assert(wv =~= (w1 + w2) + w3);
            assert(za + x + zb =~= (za + x) + zb);
            lemma_dot_append(za + x, zb, w1 + w2, w3);
            lemma_dot_append(za, x, w1, w2);
            assert(entrywise_mul(za, w1) =~= Seq::new(off as nat, |t: int| 0int));
            lemma_total_zero(entrywise_mul(za, w1));
            assert(entrywise_mul(zb, w3) =~= Seq::new((n - off - d) as nat, |t: int| 0int));
            lemma_total_zero(entrywise_mul(zb, w3));
            assert(dot(padded, wv) == dot(x, w2));
            assert(w2 =~= mat_apply(s, x)) by {
                assert forall|t: int| 0 <= t < d implies #[trigger] w2[t] == mat_apply(s, x)[t] by {
                    assert(w2[t] == wv[off + t]);
                    assert(s[t] =~= m[off + t].subrange(off, off + d));
                }
            }
            assert(quad_form(m, padded) == dot(padded, wv));
        }
        assert(quad_form(m, padded) >= 0);
    }
}

} // verus!
