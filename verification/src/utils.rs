//! Streaming sufficient statistics for the plane estimator.

use vstd::prelude::*;

use crate::frame::WorldPoint;
use crate::geometry::{bounded3, floor_div, Point3};
use crate::linalg::model::{lemma_mul_bound, lemma_total_take_succ, vec_total};
use crate::linalg::Matrix;

verus! {

/// One coordinate of a point sequence, as a model vector.
pub open spec fn coord_seq(pts: Seq<WorldPoint>, axis: int) -> Seq<int> {
    Seq::new(
        pts.len(),
        |i: int| if axis == 0 {
            pts[i].inner.x as int
        } else if axis == 1 {
            pts[i].inner.y as int
        } else {
            pts[i].inner.z as int
        },
    )
}

/// The sequence of products of coordinates `a` and `b` over the points: the
/// entries summed by the outer-product accumulator.
pub open spec fn outer_seq(pts: Seq<WorldPoint>, a: int, b: int) -> Seq<int> {
    Seq::new(pts.len(), |i: int| coord_seq(pts, a)[i] * coord_seq(pts, b)[i])
}

/// Count, coordinate sums and sum of outer products of a set of points,
/// accumulated in one pass.
pub struct VectorSquareSum {
    pub count: usize,
    pub sum: Point3,
    pub square_sum: Matrix,
}

impl VectorSquareSum {
    /// The statistics describe the point sequence `pts` exactly.
    pub open spec fn describes(&self, pts: Seq<WorldPoint>) -> bool {
        &&& self.count == pts.len()
        &&& self.sum.x as int == vec_total(coord_seq(pts, 0))
        &&& self.sum.y as int == vec_total(coord_seq(pts, 1))
        &&& self.sum.z as int == vec_total(coord_seq(pts, 2))
        &&& self.square_sum.wf()
        &&& self.square_sum.nrows() == 3
        &&& self.square_sum.cols == 3
        &&& forall|a: int, b: int|
            0 <= a < 3 && 0 <= b < 3 ==> #[trigger] self.square_sum@[a][b] == vec_total(
                outer_seq(pts, a, b),
            )
    }

    /// Accumulate the statistics of `points` in one pass.
    pub fn accumulate(points: &Vec<WorldPoint>, Ghost(cb): Ghost<int>) -> (r: VectorSquareSum)
        requires
            cb >= 0,
            forall|i: int| 0 <= i < points@.len() ==> bounded3((#[trigger] points@[i]).inner, cb),
            points@.len() * cb <= i128::MAX as int,
            points@.len() * (cb * cb) <= i128::MAX as int,
            points@.len() <= usize::MAX,
        ensures
            r.describes(points@),
    {
        let n = points.len();
        let ghost pts = points@;
        let mut count: usize = 0;
        let mut sx: i128 = 0;
        let mut sy: i128 = 0;
        let mut sz: i128 = 0;
        let mut q = Matrix::zeros(3, 3);
        let mut i: usize = 0;
        while i < n
            invariant
                i <= n,
                n == pts.len(),
                pts == points@,
                cb >= 0,
                forall|t: int| 0 <= t < pts.len() ==> bounded3((#[trigger] pts[t]).inner, cb),
                pts.len() * cb <= i128::MAX as int,
                pts.len() * (cb * cb) <= i128::MAX as int,
                count == i,
                sx as int == vec_total(coord_seq(pts, 0).take(i as int)),
                sy as int == vec_total(coord_seq(pts, 1).take(i as int)),
                sz as int == vec_total(coord_seq(pts, 2).take(i as int)),
                -(i * cb) <= sx as int <= i * cb,
                -(i * cb) <= sy as int <= i * cb,
                -(i * cb) <= sz as int <= i * cb,
                q.wf(),
                q.nrows() == 3,
                q.cols == 3,
                forall|a: int, b: int|
                    0 <= a < 3 && 0 <= b < 3 ==> #[trigger] q@[a][b] == vec_total(
                        outer_seq(pts, a, b).take(i as int),
                    ),
                forall|a: int, b: int|
                    0 <= a < 3 && 0 <= b < 3 ==> -(i * (cb * cb)) <= #[trigger] q@[a][b] <= i * (cb
                        * cb),
            decreases n - i,
        {
            let p = points[i].inner;
            proof {
                assert(bounded3(pts[i as int].inner, cb));
                lemma_total_take_succ(coord_seq(pts, 0), i as int);
                lemma_total_take_succ(coord_seq(pts, 1), i as int);
                lemma_total_take_succ(coord_seq(pts, 2), i as int);
                assert(i * cb + cb == (i + 1) * cb) by (nonlinear_arith);
                assert((i + 1) * cb <= pts.len() * cb) by (nonlinear_arith)
                    requires
                        i + 1 <= pts.len(),
                        cb >= 0,
                ;
            }
            sx = sx + p.x;
            sy = sy + p.y;
            sz = sz + p.z;
            let coords: [i128; 3] = [p.x, p.y, p.z];
            let mut a: usize = 0;
            let mut q2rows: Vec<Vec<i128>> = Vec::new();
            while a < 3
                invariant
                    a <= 3,
                    q.wf(),
                    q.nrows() == 3,
                    q.cols == 3,
                    i < pts.len(),
                    pts == points@,
                    cb >= 0,
                    forall|t: int| 0 <= t < pts.len() ==> bounded3((#[trigger] pts[t]).inner, cb),
                    pts.len() * (cb * cb) <= i128::MAX as int,
                    coords@[0] == pts[i as int].inner.x,
                    coords@[1] == pts[i as int].inner.y,
                    coords@[2] == pts[i as int].inner.z,
                    forall|a2: int, b2: int|
                        0 <= a2 < 3 && 0 <= b2 < 3 ==> #[trigger] q@[a2][b2] == vec_total(
                            outer_seq(pts, a2, b2).take(i as int),
                        ),
                    forall|a2: int, b2: int|
                        0 <= a2 < 3 && 0 <= b2 < 3 ==> -(i * (cb * cb)) <= #[trigger] q@[a2][b2]
                            <= i * (cb * cb),
                    q2rows@.len() == a,
                    forall|a2: int| 0 <= a2 < a ==> (#[trigger] q2rows@[a2])@.len() == 3,
                    forall|a2: int, b2: int|
                        0 <= a2 < a && 0 <= b2 < 3 ==> #[trigger] q2rows@[a2]@[b2] == vec_total(
                            outer_seq(pts, a2, b2).take(i + 1),
                        ),
                    forall|a2: int, b2: int|
                        0 <= a2 < a && 0 <= b2 < 3 ==> -((i + 1) * (cb * cb)) <= #[trigger] q2rows@[a2]@[b2]
                            <= (i + 1) * (cb * cb),
                decreases 3 - a,
            {
                let mut row: Vec<i128> = Vec::new();
                let mut b: usize = 0;
                while b < 3
                    invariant
                        b <= 3,
                        a < 3,
                        q.wf(),
                        q.nrows() == 3,
                        q.cols == 3,
                        i < pts.len(),
                        pts == points@,
                        cb >= 0,
                        forall|t: int|
                            0 <= t < pts.len() ==> bounded3((#[trigger] pts[t]).inner, cb),
                        pts.len() * (cb * cb) <= i128::MAX as int,
                        coords@[0] == pts[i as int].inner.x,
                        coords@[1] == pts[i as int].inner.y,
                        coords@[2] == pts[i as int].inner.z,
                        forall|a2: int, b2: int|
                            0 <= a2 < 3 && 0 <= b2 < 3 ==> #[trigger] q@[a2][b2] == vec_total(
                                outer_seq(pts, a2, b2).take(i as int),
                            ),
                        forall|a2: int, b2: int|
                            0 <= a2 < 3 && 0 <= b2 < 3 ==> -(i * (cb * cb)) <= #[trigger] q@[a2][b2]
                                <= i * (cb * cb),
                        row@.len() == b,
                        forall|b2: int|
                            0 <= b2 < b ==> #[trigger] row@[b2] == vec_total(
                                outer_seq(pts, a as int, b2).take(i + 1),
                            ),
                        forall|b2: int|
                            0 <= b2 < b ==> -((i + 1) * (cb * cb)) <= #[trigger] row@[b2] <= (i + 1)
                                * (cb * cb),
                    decreases 3 - b,
                {
                    let va = coords[a];
                    let vb = coords[b];
                    let old_entry = q.at(a, b);
                    proof {
                        lemma_mul_bound(va as int, vb as int, cb, cb);
                        lemma_total_take_succ(outer_seq(pts, a as int, b as int), i as int);
                        assert(outer_seq(pts, a as int, b as int)[i as int] == va as int
                            * vb as int);
                        assert(i * (cb * cb) + cb * cb == (i + 1) * (cb * cb))
                            by (nonlinear_arith);
                        assert((i + 1) * (cb * cb) <= pts.len() * (cb * cb)) by (nonlinear_arith)
                            requires
                                i + 1 <= pts.len(),
                                cb * cb >= 0,
                        ;
                        assert(cb * cb >= 0) by (nonlinear_arith);
                    }
                    row.push(old_entry + va * vb);
                    b = b + 1;
                }
                q2rows.push(row);
                a = a + 1;
            }
            q = Matrix { rows: q2rows, cols: 3 };
            count = count + 1;
            i = i + 1;
        }
        proof {
            assert(coord_seq(pts, 0).take(n as int) =~= coord_seq(pts, 0));
            assert(coord_seq(pts, 1).take(n as int) =~= coord_seq(pts, 1));
            assert(coord_seq(pts, 2).take(n as int) =~= coord_seq(pts, 2));
            assert forall|a: int, b: int| 0 <= a < 3 && 0 <= b < 3 implies #[trigger] q@[a][b]
                == vec_total(outer_seq(pts, a, b)) by {
                assert(outer_seq(pts, a, b).take(n as int) =~= outer_seq(pts, a, b));
            }
        }
        VectorSquareSum { count, sum: Point3 { x: sx, y: sy, z: sz }, square_sum: q }
    }

    pub fn count(&self) -> (r: usize)
        ensures
            r == self.count,
    {
        self.count
    }

    /// The mean point and the second-moment (sample covariance) matrix, with
    /// every division a stated floor division by the count.
    pub fn mean(&self, Ghost(sb): Ghost<int>) -> (r: (Point3, Matrix))
        requires
            self.count > 0,
            sb >= 0,
            bounded3(self.sum, sb),
            self.square_sum.wf(),
            self.square_sum.nrows() == 3,
            self.square_sum.cols == 3,
            crate::linalg::model::mat_bounded(self.square_sum@, sb),
            sb < i128::MAX as int,
            sb * sb + sb <= i128::MAX as int,
        ensures
            r.0.x as int == self.sum.x as int / self.count as int,
            r.0.y as int == self.sum.y as int / self.count as int,
            r.0.z as int == self.sum.z as int / self.count as int,
            r.1.wf(),
            r.1.nrows() == 3,
            r.1.cols == 3,
            forall|a: int, b: int|
                0 <= a < 3 && 0 <= b < 3 ==> #[trigger] r.1@[a][b] == self.square_sum@[a][b]
                    / self.count as int - mean_coord(r.0, a) * mean_coord(r.0, b),
    {
        let n = self.count as i128;
        let mx = floor_div(self.sum.x, n);
        let my = floor_div(self.sum.y, n);
        let mz = floor_div(self.sum.z, n);
        let mean = Point3 { x: mx, y: my, z: mz };
        proof {
            lemma_div_magnitude(self.sum.x as int, n as int, sb);
            lemma_div_magnitude(self.sum.y as int, n as int, sb);
            lemma_div_magnitude(self.sum.z as int, n as int, sb);
        }
        let means: [i128; 3] = [mx, my, mz];
        let mut rows: Vec<Vec<i128>> = Vec::new();
        let mut a: usize = 0;
        while a < 3
            invariant
                a <= 3,
                n as int == self.count as int,
                n > 0,
                sb >= 0,
                bounded3(self.sum, sb),
                self.square_sum.wf(),
                self.square_sum.nrows() == 3,
                self.square_sum.cols == 3,
                crate::linalg::model::mat_bounded(self.square_sum@, sb),
                sb * sb + sb <= i128::MAX as int,
                means@[0] == mean.x && means@[1] == mean.y && means@[2] == mean.z,
                bounded3(mean, sb),
                rows@.len() == a,
                forall|a2: int| 0 <= a2 < a ==> (#[trigger] rows@[a2])@.len() == 3,
                forall|a2: int, b2: int|
                    0 <= a2 < a && 0 <= b2 < 3 ==> #[trigger] rows@[a2]@[b2] as int
                        == self.square_sum@[a2][b2] / n as int - mean_coord(mean, a2) * mean_coord(
                        mean,
                        b2,
                    ),
            decreases 3 - a,
        {
            let mut row: Vec<i128> = Vec::new();
            let mut b: usize = 0;
            while b < 3
                invariant
                    b <= 3,
                    a < 3,
                    n as int == self.count as int,
                    n > 0,
                    sb >= 0,
                    bounded3(self.sum, sb),
                    self.square_sum.wf(),
                    self.square_sum.nrows() == 3,
                    self.square_sum.cols == 3,
                    crate::linalg::model::mat_bounded(self.square_sum@, sb),
                    sb * sb + sb <= i128::MAX as int,
                    means@[0] == mean.x && means@[1] == mean.y && means@[2] == mean.z,
                    bounded3(mean, sb),
                    row@.len() == b,
                    forall|b2: int|
                        0 <= b2 < b ==> #[trigger] row@[b2] as int == self.square_sum@[a as int][b2]
                            / n as int - mean_coord(mean, a as int) * mean_coord(mean, b2),
                decreases 3 - b,
            {
                let s = self.square_sum.at(a, b);
                let d = floor_div(s, n);
                proof {
                    lemma_div_magnitude(s as int, n as int, sb);
                    lemma_mul_bound(means@[a as int] as int, means@[b as int] as int, sb, sb);
                }
                row.push(d - means[a] * means[b]);
                b = b + 1;
            }
            rows.push(row);
            a = a + 1;
        }
        let m = Matrix { rows, cols: 3 };
        (mean, m)
    }
}

/// Coordinate `i` of a point, as a model value.
pub open spec fn mean_coord(p: Point3, i: int) -> int {
    if i == 0 {
        p.x as int
    } else if i == 1 {
        p.y as int
    } else {
        p.z as int
    }
}

/// A floor quotient is no larger in magnitude than the dividend.
proof fn lemma_div_magnitude(a: int, n: int, b: int)
    requires
        n > 0,
        b >= 0,
        -b <= a <= b,
    ensures
        -b <= a / n <= b,
{
    vstd::arithmetic::div_mod::lemma_fundamental_div_mod(a, n);
    // From a = n q + r with 0 <= r < n: q <= b needs n q <= n b, and
    // q >= -b needs n q = a - r >= -b - (n - 1) >= -n b.
    assert(-b <= a / n <= b) by (nonlinear_arith)
        requires
            n > 0,
            -b <= a <= b,
            b >= 0,
            a == n * (a / n) + a % n,
            0 <= a % n < n,
    ;
}

} // verus!
