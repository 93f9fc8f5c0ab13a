//! Fixed-point scalars, 3-vectors and rigid transforms.
//!
//! A scalar is an `i128` holding `value * SCALE`. Rotations are 3 by 3
//! matrices of such scalars, so applying one to a vector divides by `SCALE`
//! once; that floor division is the only inexact step and is stated
//! explicitly wherever it occurs.

use vstd::prelude::*;

use crate::linalg::model::{lemma_mul_bound, mat_bounded};
use crate::linalg::Matrix;
use vstd::arithmetic::div_mod::{
    lemma_fundamental_div_mod, lemma_fundamental_div_mod_converse_div,
};

verus! {

/// The fixed-point scale: a scalar `v` stands for the real value `v / SCALE`.
pub const SCALE: i128 = 1024;

/// Largest coordinate magnitude the map accepts (16 384 m at `SCALE` 1024):
/// keeps every product in the covariance pipeline within `i128`.
pub const COORD_LIMIT: i128 = 0x100_0000;

/// Largest covariance entry magnitude accepted where a covariance is
/// consumed; producers state their exact output and consumers require this.
pub const COV_LIMIT: i128 = 0x40_0000_0000_0000_0000;

/// `-b <= v <= b`.
pub open spec fn abs_le(v: int, b: int) -> bool {
    -b <= v <= b
}

/// Floor division: the unique `q` with `q * b <= a < (q + 1) * b`, for
/// `b > 0`. Rounds toward negative infinity, so `floor_div(-1, 2) == -1`.
pub fn floor_div(a: i128, b: i128) -> (q: i128)
    requires
        b > 0,
        -(i128::MAX as int) <= a,
    ensures
        q as int == a as int / b as int,
        (q as int) * (b as int) <= a as int,
        (a as int) < (q as int + 1) * (b as int),
{
    let ghost ai = a as int;
    let ghost bi = b as int;
    if a >= 0 {
        let d = (a as u128) / (b as u128);
        proof {
            lemma_fundamental_div_mod(a as u128 as int, b as u128 as int);
            let rem = (a as u128 % b as u128) as int;
            assert(ai == (d as int) * bi + rem) by (nonlinear_arith)
                requires
                    ai == bi * (d as int) + rem,
            ;
            lemma_fundamental_div_mod_converse_div(ai, bi, d as int, rem);
            lemma_fundamental_div_mod(ai, bi);
            assert(ai == bi * (ai / bi) + ai % bi);
            assert((ai / bi) * bi <= ai && ai < (ai / bi + 1) * bi) by (nonlinear_arith)
                requires
                    bi > 0,
                    ai == bi * (ai / bi) + ai % bi,
                    0 <= ai % bi < bi,
            ;
        }
        d as i128
    } else {
        let na = (-a) as u128;
        let bb = b as u128;
        let d = na / bb;
        let r = na % bb;
        let q: i128 = if r == 0 {
            -(d as i128)
        } else {
            -(d as i128) - 1
        };
        proof {
            assert(na as int == -ai);
            lemma_fundamental_div_mod(na as int, bb as int);
            assert(na as int == bi * (d as int) + (r as int));
            if r == 0 {
                assert(ai == (-(d as int)) * bi + 0) by (nonlinear_arith)
                    requires
                        -ai == bi * (d as int),
                ;
                lemma_fundamental_div_mod_converse_div(ai, bi, -(d as int), 0);
            } else {
                assert(ai == (-(d as int) - 1) * bi + (bi - r as int)) by (nonlinear_arith)
                    requires
                        -ai == bi * (d as int) + (r as int),
                ;
                lemma_fundamental_div_mod_converse_div(ai, bi, -(d as int) - 1, bi - r as int);
            }
            lemma_fundamental_div_mod(ai, bi);
            assert(ai == bi * (ai / bi) + ai % bi);
            assert((ai / bi) * bi <= ai && ai < (ai / bi + 1) * bi) by (nonlinear_arith)
                requires
                    bi > 0,
                    ai == bi * (ai / bi) + ai % bi,
                    0 <= ai % bi < bi,
            ;
        }
        q
    }
}

/// Integer square root: the unique `r` with `r^2 <= x < (r + 1)^2`.
pub fn int_sqrt(x: u128) -> (r: u128)
    requires
        x <= u128::MAX as int / 4,
    ensures
        (r as int) * (r as int) <= x as int,
        (x as int) < (r as int + 1) * (r as int + 1),
        r as int == sqrt_floor(x as int),
{
    let mut lo: u128 = 0;
    let mut hi: u128 = 0x8000_0000_0000_0000;
    proof {
        assert((hi as int) * (hi as int) > x as int) by (nonlinear_arith)
            requires
                hi as int == 0x8000_0000_0000_0000,
                x <= u128::MAX as int / 4,
        ;
    }
    while lo + 1 < hi
        invariant
            lo < hi,
            hi <= 0x8000_0000_0000_0000u128,
            (lo as int) * (lo as int) <= x as int,
            (x as int) < (hi as int) * (hi as int),
        decreases hi - lo,
    {
        let mid = lo + (hi - lo) / 2;
        proof {
            assert((mid as int) * (mid as int) <= (u128::MAX) as int) by (nonlinear_arith)
                requires
                    0 <= mid as int <= 0x8000_0000_0000_0000,
            ;
        }
        if mid * mid <= x {
            lo = mid;
        } else {
            hi = mid;
        }
    }
    proof {
        lemma_sqrt_floor(x as int, lo as int);
    }
    lo
}

/// The floor of the square root of a non-negative integer.
pub open spec fn sqrt_floor(n: int) -> int {
    choose|r: int| r >= 0 && #[trigger] (r * r) <= n && n < (r + 1) * (r + 1)
}

/// `sqrt_floor` is pinned down by any witness to its defining property.
pub proof fn lemma_sqrt_floor(n: int, r: int)
    requires
        r >= 0,
        r * r <= n,
        n < (r + 1) * (r + 1),
    ensures
        sqrt_floor(n) == r,
{
    assert(exists|x: int| x >= 0 && #[trigger] (x * x) <= n && n < (x + 1) * (x + 1)) by {
        assert(r >= 0 && r * r <= n && n < (r + 1) * (r + 1));
    }
    let w = sqrt_floor(n);
    assert(w >= 0 && w * w <= n && n < (w + 1) * (w + 1));
    assert(w == r) by (nonlinear_arith)
        requires
            r >= 0,
            r * r <= n,
            n < (r + 1) * (r + 1),
            w >= 0,
            w * w <= n,
            n < (w + 1) * (w + 1),
    ;
}

/// A floor quotient of a dividend bounded by `c * k` is bounded by `c`.
pub proof fn lemma_floor_div_bound(a: int, k: int, c: int)
    requires
        k > 0,
        c >= 0,
        -(c * k) <= a <= c * k,
    ensures
        -c <= a / k <= c,
{
    lemma_fundamental_div_mod(a, k);
    assert(-c <= a / k <= c) by (nonlinear_arith)
        requires
            k > 0,
            c >= 0,
            -(c * k) <= a <= c * k,
            a == k * (a / k) + a % k,
            0 <= a % k < k,
    ;
}

/// A floor quotient lies between the quotients of bracketing multiples.
pub proof fn lemma_floor_div_range(a: int, k: int, lo: int, hi: int)
    requires
        k > 0,
        lo * k <= a,
        a <= hi * k,
    ensures
        lo <= a / k <= hi,
{
    lemma_fundamental_div_mod(a, k);
    assert(lo <= a / k <= hi) by (nonlinear_arith)
        requires
            k > 0,
            lo * k <= a,
            a <= hi * k,
            a == k * (a / k) + a % k,
            0 <= a % k < k,
    ;
}

/// A 3-vector (or point) of fixed-point scalars.
#[derive(Clone, Copy, Debug, PartialEq, Eq, Structural)]
pub struct Point3 {
    pub x: i128,
    pub y: i128,
    pub z: i128,
}

impl View for Point3 {
    type V = Seq<int>;

    open spec fn view(&self) -> Seq<int> {
        seq![self.x as int, self.y as int, self.z as int]
    }
}

/// Every coordinate of `p` lies in `[-b, b]`.
pub open spec fn bounded3(p: Point3, b: int) -> bool {
    &&& abs_le(p.x as int, b)
    &&& abs_le(p.y as int, b)
    &&& abs_le(p.z as int, b)
}

impl Point3 {
    pub fn new(x: i128, y: i128, z: i128) -> (r: Point3)
        ensures
            r == (Point3 { x, y, z }),
    {
        Point3 { x, y, z }
    }

    pub fn plus(&self, o: &Point3, Ghost(b): Ghost<int>) -> (r: Point3)
        requires
            b >= 0,
            2 * b <= i128::MAX as int,
            bounded3(*self, b),
            bounded3(*o, b),
        ensures
            r.x as int == self.x + o.x,
            r.y as int == self.y + o.y,
            r.z as int == self.z + o.z,
            bounded3(r, 2 * b),
    {
        Point3 { x: self.x + o.x, y: self.y + o.y, z: self.z + o.z }
    }

    pub fn minus(&self, o: &Point3, Ghost(b): Ghost<int>) -> (r: Point3)
        requires
            b >= 0,
            2 * b <= i128::MAX as int,
            bounded3(*self, b),
            bounded3(*o, b),
        ensures
            r.x as int == self.x - o.x,
            r.y as int == self.y - o.y,
            r.z as int == self.z - o.z,
            bounded3(r, 2 * b),
    {
        Point3 { x: self.x - o.x, y: self.y - o.y, z: self.z - o.z }
    }

    /// Inner product, exact over the integers.
    pub fn dot_with(&self, o: &Point3, Ghost(p): Ghost<int>, Ghost(q): Ghost<int>) -> (r: i128)
        requires
            p >= 0,
            q >= 0,
            bounded3(*self, p),
            bounded3(*o, q),
            3 * p * q <= i128::MAX as int,
        ensures
            r as int == self.x * o.x + self.y * o.y + self.z * o.z,
            abs_le(r as int, 3 * p * q),
    {
        proof {
            lemma_mul_bound(self.x as int, o.x as int, p, q);
            lemma_mul_bound(self.y as int, o.y as int, p, q);
            lemma_mul_bound(self.z as int, o.z as int, p, q);
            assert(3 * p * q == p * q + p * q + p * q) by (nonlinear_arith);
        }
        self.x * o.x + self.y * o.y + self.z * o.z
    }

    /// Cross product, exact over the integers.
    pub fn cross(&self, o: &Point3, Ghost(p): Ghost<int>, Ghost(q): Ghost<int>) -> (r: Point3)
        requires
            p >= 0,
            q >= 0,
            bounded3(*self, p),
            bounded3(*o, q),
            2 * p * q <= i128::MAX as int,
        ensures
            r.x as int == self.y * o.z - self.z * o.y,
            r.y as int == self.z * o.x - self.x * o.z,
            r.z as int == self.x * o.y - self.y * o.x,
            bounded3(r, 2 * p * q),
    {
        proof {
            lemma_mul_bound(self.x as int, o.x as int, p, q);
            lemma_mul_bound(self.x as int, o.y as int, p, q);
            lemma_mul_bound(self.x as int, o.z as int, p, q);
            lemma_mul_bound(self.y as int, o.x as int, p, q);
            lemma_mul_bound(self.y as int, o.y as int, p, q);
            lemma_mul_bound(self.y as int, o.z as int, p, q);
            lemma_mul_bound(self.z as int, o.x as int, p, q);
            lemma_mul_bound(self.z as int, o.y as int, p, q);
            lemma_mul_bound(self.z as int, o.z as int, p, q);
            assert(2 * p * q == p * q + p * q) by (nonlinear_arith);
        }
        Point3 {
            x: self.y * o.z - self.z * o.y,
            y: self.z * o.x - self.x * o.z,
            z: self.x * o.y - self.y * o.x,
        }
    }

    /// Every coordinate multiplied by `k`.
    pub fn scaled(&self, k: i128, Ghost(b): Ghost<int>, Ghost(kb): Ghost<int>) -> (r: Point3)
        requires
            b >= 0,
            kb >= 0,
            abs_le(k as int, kb),
            bounded3(*self, b),
            kb * b <= i128::MAX as int,
        ensures
            r.x as int == k * self.x,
            r.y as int == k * self.y,
            r.z as int == k * self.z,
            bounded3(r, kb * b),
    {
        proof {
            lemma_mul_bound(k as int, self.x as int, kb, b);
            lemma_mul_bound(k as int, self.y as int, kb, b);
            lemma_mul_bound(k as int, self.z as int, kb, b);
        }
        Point3 { x: k * self.x, y: k * self.y, z: k * self.z }
    }

    /// Squared Euclidean norm, exact over the integers.
    pub fn norm_sq(&self, Ghost(b): Ghost<int>) -> (r: i128)
        requires
            b >= 0,
            bounded3(*self, b),
            3 * b * b <= i128::MAX as int,
        ensures
            r as int == self.x * self.x + self.y * self.y + self.z * self.z,
            0 <= r as int <= 3 * b * b,
    {
        proof {
            lemma_mul_bound(self.x as int, self.x as int, b, b);
            lemma_mul_bound(self.y as int, self.y as int, b, b);
            lemma_mul_bound(self.z as int, self.z as int, b, b);
            assert(self.x as int * self.x as int >= 0) by (nonlinear_arith);
            assert(self.y as int * self.y as int >= 0) by (nonlinear_arith);
            assert(self.z as int * self.z as int >= 0) by (nonlinear_arith);
            assert(3 * b * b == b * b + b * b + b * b) by (nonlinear_arith);
        }
        self.x * self.x + self.y * self.y + self.z * self.z
    }

    /// The vector scaled to (fixed-point) unit length: each coordinate
    /// becomes `v_i * SCALE / max(sqrt_floor(|v|^2), 1)`, with the floor
    /// divisions stated exactly. The zero vector stays zero.
    pub fn normalized(&self, Ghost(b): Ghost<int>) -> (r: Point3)
        requires
            b >= 0,
            bounded3(*self, b),
            3 * b * b <= u128::MAX as int / 4,
            (2 * b + 1) * (SCALE as int) <= i128::MAX as int,
        ensures
            r.x as int == normalized_coord(*self, 0),
            r.y as int == normalized_coord(*self, 1),
            r.z as int == normalized_coord(*self, 2),
            bounded3(r, SCALE as int),
    {
        let nsq = self.norm_sq(Ghost(b));
        proof {
            assert(nsq as u128 as int == nsq as int);
            assert(nsq as int <= u128::MAX as int / 4);
        }
        let n0 = int_sqrt(nsq as u128);
        proof {
            // n0^2 <= 3 b^2 < (2b + 1)^2, so n0 <= 2b.
            assert(n0 as int <= 2 * b) by (nonlinear_arith)
                requires
                    b >= 0,
                    (n0 as int) * (n0 as int) <= nsq as int,
                    nsq as int <= 3 * b * b,
                    n0 as int >= 0,
            ;
        }
        let n: i128 = if n0 < 1 {
            1
        } else {
            n0 as i128
        };
        proof {
            // Each coordinate is bounded by n: its square is at most the
            // squared norm, which lies below (n0 + 1)^2.
            if n0 < 1 {
                assert((n0 as int + 1) * (n0 as int + 1) == 1) by (nonlinear_arith)
                    requires
                        n0 as int == 0,
                ;
                assert(self.x == 0 && self.y == 0 && self.z == 0) by (nonlinear_arith)
                    requires
                        nsq as int == self.x * self.x + self.y * self.y + self.z * self.z,
                        (nsq as int) < 1,
                ;
            } else {
                assert(abs_le(self.x as int, n0 as int) && abs_le(self.y as int, n0 as int)
                    && abs_le(self.z as int, n0 as int)) by (nonlinear_arith)
                    requires
                        n0 as int >= 1,
                        (nsq as int) < (n0 as int + 1) * (n0 as int + 1),
                        nsq as int == self.x * self.x + self.y * self.y + self.z * self.z,
                ;
            }
            assert((n as int) * (SCALE as int) <= i128::MAX as int) by (nonlinear_arith)
                requires
                    n as int <= 2 * b + 1,
                    n as int >= 1,
                    (2 * b + 1) * (SCALE as int) <= i128::MAX as int,
            ;
        }
        let ux = floor_div_unit(self.x, n);
        let uy = floor_div_unit(self.y, n);
        let uz = floor_div_unit(self.z, n);
        proof {
            assert(sqrt_floor(norm_sq_spec(*self)) == n0 as int);
            assert(norm_n(*self) == n as int);
        }
        Point3 { x: ux, y: uy, z: uz }
    }

    /// The vector as a 3 by 1 column matrix.
    pub fn to_col(&self) -> (m: Matrix)
        ensures
            m.wf(),
            m.nrows() == 3,
            m.cols == 1,
            crate::linalg::model::column(m@, 0) =~= self@,
            forall|b: int| bounded3(*self, b) ==> #[trigger] mat_bounded(m@, b),
    {
        let mut rows: Vec<Vec<i128>> = Vec::new();
        let mut r0: Vec<i128> = Vec::new();
        r0.push(self.x);
        let mut r1: Vec<i128> = Vec::new();
        r1.push(self.y);
        let mut r2: Vec<i128> = Vec::new();
        r2.push(self.z);
        rows.push(r0);
        rows.push(r1);
        rows.push(r2);
        let m = Matrix { rows, cols: 1 };
        assert(crate::linalg::model::column(m@, 0) =~= self@);
        m
    }

    /// The vector as a 1 by 3 row matrix.
    pub fn to_row(&self) -> (m: Matrix)
        ensures
            m.wf(),
            m.nrows() == 1,
            m.cols == 3,
            m@[0] =~= self@,
            forall|b: int| bounded3(*self, b) ==> #[trigger] mat_bounded(m@, b),
    {
        let mut rows: Vec<Vec<i128>> = Vec::new();
        let mut r0: Vec<i128> = Vec::new();
        r0.push(self.x);
        r0.push(self.y);
        r0.push(self.z);
        rows.push(r0);
        let m = Matrix { rows, cols: 3 };
        assert(m@[0] =~= self@);
        m
    }

    /// The skew-symmetric cross-product matrix: `skew(v) * w == v x w`.
    pub fn skew(&self, Ghost(b): Ghost<int>) -> (m: Matrix)
        requires
            b >= 0,
            b <= i128::MAX as int,
            bounded3(*self, b),
        ensures
            m.wf(),
            m.nrows() == 3,
            m.cols == 3,
            m@ =~~= skew_view(*self),
            mat_bounded(m@, b),
    {
        let mut rows: Vec<Vec<i128>> = Vec::new();
        let mut r0: Vec<i128> = Vec::new();
        r0.push(0);
        r0.push(-self.z);
        r0.push(self.y);
        let mut r1: Vec<i128> = Vec::new();
        r1.push(self.z);
        r1.push(0);
        r1.push(-self.x);
        let mut r2: Vec<i128> = Vec::new();
        r2.push(-self.y);
        r2.push(self.x);
        r2.push(0);
        rows.push(r0);
        rows.push(r1);
        rows.push(r2);
        let m = Matrix { rows, cols: 3 };
        assert(m@ =~~= skew_view(*self));
        assert forall|i: int, j: int|
            0 <= i < m@.len() && 0 <= j < m@[i].len() implies -b <= #[trigger] m@[i][j] <= b by {
            assert(m@[i][j] == skew_view(*self)[i][j]);
        }
        m
    }
}

/// One coordinate of a fixed-point normalization: `(c * SCALE) / n` for a
/// coordinate `c` with `|c| <= n`, so the result lies in `[-SCALE, SCALE]`.
fn floor_div_unit(c: i128, n: i128) -> (r: i128)
    requires
        n >= 1,
        abs_le(c as int, n as int),
        (n as int) * (SCALE as int) <= i128::MAX as int,
    ensures
        r as int == (c as int * (SCALE as int)) / (n as int),
        abs_le(r as int, SCALE as int),
{
    proof {
        lemma_mul_bound(c as int, SCALE as int, n as int, SCALE as int);
    }
    let r = floor_div(c * SCALE, n);
    proof {
        let ci = c as int;
        let ni = n as int;
        let s = SCALE as int;
        assert(-s <= (ci * s) / ni <= s) by (nonlinear_arith)
            requires
                ni >= 1,
                -(ni * s) <= ci * s <= ni * s,
                s > 0,
                ((ci * s) / ni) * ni <= ci * s,
                ci * s < ((ci * s) / ni + 1) * ni,
        ;
    }
    r
}

/// The squared norm of `v`, as a model value.
pub open spec fn norm_sq_spec(v: Point3) -> int {
    v.x * v.x + v.y * v.y + v.z * v.z
}

/// Floor division extended to a negative divisor by negating both sides;
/// the real quotient is the same either way.
pub open spec fn spec_floor_div_any(a: int, b: int) -> int {
    if b > 0 {
        a / b
    } else {
        (-a) / (-b)
    }
}

/// The clamped floor norm of a length-3 model vector.
pub open spec fn norm_n_seq(s: Seq<int>) -> int {
    let n0 = sqrt_floor(s[0] * s[0] + s[1] * s[1] + s[2] * s[2]);
    if n0 < 1 {
        1
    } else {
        n0
    }
}

/// Fixed-point normalization of a length-3 model vector.
pub open spec fn normalize_seq(s: Seq<int>) -> Seq<int> {
    seq![
        (s[0] * (SCALE as int)) / norm_n_seq(s),
        (s[1] * (SCALE as int)) / norm_n_seq(s),
        (s[2] * (SCALE as int)) / norm_n_seq(s),
    ]
}

/// Cross product of two length-3 model vectors.
pub open spec fn cross_seq(a: Seq<int>, b: Seq<int>) -> Seq<int> {
    seq![a[1] * b[2] - a[2] * b[1], a[2] * b[0] - a[0] * b[2], a[0] * b[1] - a[1] * b[0]]
}

/// The clamped floor square root of the squared norm: at least 1, so that it
/// can stand as a divisor.
pub open spec fn norm_n(v: Point3) -> int {
    let n0 = sqrt_floor(norm_sq_spec(v));
    if n0 < 1 {
        1
    } else {
        n0
    }
}

/// Coordinate `i` of the fixed-point normalization of `v`.
pub open spec fn normalized_coord(v: Point3, i: int) -> int {
    let c = if i == 0 {
        v.x as int
    } else if i == 1 {
        v.y as int
    } else {
        v.z as int
    };
    (c * (SCALE as int)) / norm_n(v)
}

/// The point-level and sequence-level normalizations agree.
pub proof fn lemma_normalize_seq_agrees(v: Point3)
    ensures
        normalize_seq(v@) =~= seq![
            normalized_coord(v, 0),
            normalized_coord(v, 1),
            normalized_coord(v, 2),
        ],
{
    assert(norm_n_seq(v@) == norm_n(v));
}

/// The cross-product matrix of `v` as a model matrix.
pub open spec fn skew_view(v: Point3) -> Seq<Seq<int>> {
    seq![
        seq![0int, -(v.z as int), v.y as int],
        seq![v.z as int, 0int, -(v.x as int)],
        seq![-(v.y as int), v.x as int, 0int],
    ]
}

/// A rigid transform: a rotation held as a 3 by 3 fixed-point matrix (its
/// entries are `SCALE` times the real rotation entries) and a translation.
pub struct Isometry {
    pub rotation: Matrix,
    pub translation: Point3,
}

/// Entry `(i, j)` of the Gram matrix `R^T R` of a 3 by 3 rotation: the inner
/// product of columns `i` and `j`.
pub open spec fn gram_entry(r: Seq<Seq<int>>, i: int, j: int) -> int {
    r[0][i] * r[0][j] + r[1][i] * r[1][j] + r[2][i] * r[2][j]
}

/// The rotation's Gram matrix is within `slack` of `SCALE^2` times the
/// identity: the integer image of near-orthogonality. A true rotation
/// rounded entrywise to scale `SCALE` satisfies this with room to spare.
pub open spec fn nearly_orthogonal(r: Seq<Seq<int>>, slack: int) -> bool {
    forall|i: int, j: int|
        0 <= i < 3 && 0 <= j < 3 ==> abs_le(
            #[trigger] gram_entry(r, i, j) - (if i == j {
                (SCALE as int) * (SCALE as int)
            } else {
                0int
            }),
            slack,
        )
}

/// What applying the rotation part to `p` yields on each axis before the
/// translation is added: row `i` of `rot * p`, divided by `SCALE` (floor).
pub open spec fn rotated_coord(rot: Seq<Seq<int>>, p: Point3, i: int) -> int {
    (rot[i][0] * p.x + rot[i][1] * p.y + rot[i][2] * p.z) / (SCALE as int)
}

impl Isometry {
    /// Rotation is a well-formed 3 by 3 matrix with entries bounded by
    /// `SCALE` (the fixed-point image of a matrix with entries in [-1, 1])
    /// and nearly orthogonal: its Gram matrix sits within the rounding slack
    /// of `SCALE^2` times the identity.
    pub open spec fn wf(&self) -> bool {
        &&& self.rotation.wf()
        &&& self.rotation.nrows() == 3
        &&& self.rotation.cols == 3
        &&& mat_bounded(self.rotation@, SCALE as int)
        &&& nearly_orthogonal(self.rotation@, 8 * (SCALE as int))
    }

    pub fn new(rotation: Matrix, translation: Point3) -> (r: Isometry)
        ensures
            r.rotation == rotation,
            r.translation == translation,
    {
        Isometry { rotation, translation }
    }

    /// Apply the transform: `(rotation * p) / SCALE + translation`, with the
    /// floor division of each coordinate stated exactly.
    pub fn apply(&self, p: &Point3, Ghost(b): Ghost<int>, Ghost(tb): Ghost<int>) -> (r: Point3)
        requires
            self.wf(),
            b >= 0,
            tb >= 0,
            bounded3(*p, b),
            bounded3(self.translation, tb),
            3 * (SCALE as int) * b + 1 <= i128::MAX as int,
            3 * b + 1 + tb <= i128::MAX as int,
        ensures
            r.x as int == rotated_coord(self.rotation@, *p, 0) + self.translation.x,
            r.y as int == rotated_coord(self.rotation@, *p, 1) + self.translation.y,
            r.z as int == rotated_coord(self.rotation@, *p, 2) + self.translation.z,
            bounded3(r, 3 * b + 1 + tb),
    {
        let ghost s = SCALE as int;
        let x = self.rotated_row(0, p, Ghost(b));
        let y = self.rotated_row(1, p, Ghost(b));
        let z = self.rotated_row(2, p, Ghost(b));
        Point3 {
            x: x + self.translation.x,
            y: y + self.translation.y,
            z: z + self.translation.z,
        }
    }

    /// One coordinate of `(rotation * p) / SCALE`.
    fn rotated_row(&self, i: usize, p: &Point3, Ghost(b): Ghost<int>) -> (r: i128)
        requires
            self.wf(),
            i < 3,
            b >= 0,
            bounded3(*p, b),
            3 * (SCALE as int) * b + 1 <= i128::MAX as int,
        ensures
            r as int == rotated_coord(self.rotation@, *p, i as int),
            abs_le(r as int, 3 * b + 1),
    {
        let ghost s = SCALE as int;
        let m = &self.rotation;
        let ghost num = m@[i as int][0] * p.x + m@[i as int][1] * p.y + m@[i as int][2] * p.z;
        proof {
            lemma_mul_bound(m@[i as int][0], p.x as int, s, b);
            lemma_mul_bound(m@[i as int][1], p.y as int, s, b);
            lemma_mul_bound(m@[i as int][2], p.z as int, s, b);
            assert(3 * s * b == s * b + s * b + s * b) by (nonlinear_arith);
        }
        let n = m.at(i, 0) * p.x + m.at(i, 1) * p.y + m.at(i, 2) * p.z;
        let r = floor_div(n, SCALE);
        proof {
            // |num| <= 3 s b, so the floor quotient lies in [-(3b + 1), 3b].
            assert(-(3 * b + 1) <= num / s <= 3 * b) by (nonlinear_arith)
                requires
                    s > 0,
                    s == SCALE as int,
                    -(3 * s * b) <= num <= 3 * s * b,
                    (num / s) * s <= num,
                    num < (num / s + 1) * s,
                    b >= 0,
            ;
        }
        r
    }
}

} // verus!
