//! Planar surfels fitted from accumulated points, with full covariance
//! bookkeeping.
//!
//! A plane is fitted by principal component analysis of a node's points: the
//! eigenvector of the smallest eigenvalue of the sample covariance is the
//! normal. The eigendecomposition itself is real arithmetic and is handed in
//! by the caller as plain fixed-point values ([`EigenBasis`]); everything
//! around it — the moments, the planarity test, the argmin, the first-order
//! eigenvector-perturbation covariance — is exact verified integer
//! arithmetic.

use vstd::prelude::*;

use super::Config;
use crate::frame::WorldPoint;
use crate::geometry::{
    abs_le, bounded3, floor_div, int_sqrt, sqrt_floor, Point3, COORD_LIMIT, COV_LIMIT, SCALE,
};
use crate::linalg::model::{mat_bounded, quad_form};
use crate::linalg::Matrix;
use crate::uncertain::{Uncertain, Uncertained, Uncertainty};
use crate::voxel_map::point::UncertainPoint;
use crate::frame::World;

verus! {

/// Clamp bound on one entry of a perturbation Jacobian row: rows beyond this
/// magnitude come from nearly degenerate eigenvalue gaps and are clamped, a
/// local numerical safeguard that also keeps the covariance sum in `i128`.
pub const JROW_LIMIT: i128 = 0x20_0000;

/// A fitted planar surfel.
pub struct Plane {
    /// Unit normal, fixed-point scale.
    pub normal: Point3,
    /// Center point (world frame).
    pub center: WorldPoint,
    /// Number of points the fit consumed.
    pub points_count: usize,
    /// Extent bound: floor square root of the largest eigenvalue.
    pub radius: i128,
    /// Signed distance of the origin's projection: `normal . center`.
    pub distance_to_origin: i128,
}

/// The composite (normal, center) uncertainty of a plane: one 6 by 6
/// covariance, normal block leading, center block trailing.
pub struct PlaneUncertainties {
    pub composite: Uncertainty,
}

impl PlaneUncertainties {
    pub open spec fn wf(&self) -> bool {
        &&& self.composite.wf()
        &&& self.composite.dim() == 6
        &&& mat_bounded(self.composite@, COV_LIMIT as int)
    }
}

impl Uncertain for Plane {
    type Uncertainties = PlaneUncertainties;
}

/// A plane paired with its (normal, center) covariance.
pub type UncertainPlane = Uncertained<Plane>;

/// Well-formedness of a stored plane: bounded geometry and a well-formed
/// covariance, as the residual arithmetic requires.
pub open spec fn plane_wf(p: UncertainPlane) -> bool {
    &&& bounded3(p.inner.normal, SCALE as int)
    &&& bounded3(p.inner.center.inner, COORD_LIMIT as int)
    &&& p.inner.radius >= 0
    &&& abs_le(p.inner.distance_to_origin as int, 3 * (COORD_LIMIT as int) + 1)
    &&& p.covariance.wf()
}

/// A symmetric eigendecomposition handed in by the caller: column `j` of
/// `vectors` is an eigenvector (fixed-point scale), `values[j]` the matching
/// eigenvalue (covariance scale). The library trusts nothing about it beyond
/// these shapes and bounds; every decision taken on it is verified for every
/// possible value.
pub struct EigenBasis {
    pub vectors: Matrix,
    pub values: Vec<i128>,
}

impl EigenBasis {
    pub open spec fn wf(&self) -> bool {
        &&& self.vectors.wf()
        &&& self.vectors.nrows() == 3
        &&& self.vectors.cols == 3
        &&& mat_bounded(self.vectors@, SCALE as int)
        &&& self.values@.len() == 3
        &&& forall|i: int| 0 <= i < 3 ==> abs_le((#[trigger] self.values@[i]) as int, COV_LIMIT as int)
    }

    /// Column `j` as a vector.
    pub fn column(&self, j: usize) -> (r: Point3)
        requires
            self.wf(),
            j < 3,
        ensures
            r.x as int == self.vectors@[0][j as int],
            r.y as int == self.vectors@[1][j as int],
            r.z as int == self.vectors@[2][j as int],
            bounded3(r, SCALE as int),
    {
        Point3 {
            x: self.vectors.at(0, j),
            y: self.vectors.at(1, j),
            z: self.vectors.at(2, j),
        }
    }

    /// The index of the smallest eigenvalue.
    pub fn argmin(&self) -> (r: usize)
        requires
            self.wf(),
        ensures
            r < 3,
            r as int == spec_eigen_argmin(self),
            forall|i: int| 0 <= i < 3 ==> self.values@[r as int] <= #[trigger] self.values@[i],
    {
        let mut best: usize = 0;
        if self.values[1] < self.values[best] {
            best = 1;
        }
        if self.values[2] < self.values[best] {
            best = 2;
        }
        best
    }

    /// The index of the largest eigenvalue.
    pub fn argmax(&self) -> (r: usize)
        requires
            self.wf(),
        ensures
            r < 3,
            r as int == spec_eigen_argmax(self),
            forall|i: int| 0 <= i < 3 ==> self.values@[r as int] >= #[trigger] self.values@[i],
    {
        let mut best: usize = 0;
        if self.values[1] > self.values[best] {
            best = 1;
        }
        if self.values[2] > self.values[best] {
            best = 2;
        }
        best
    }
}

/// The first index attaining the smallest eigenvalue.
pub open spec fn spec_eigen_argmin(e: &EigenBasis) -> int {
    if e.values@[1] < e.values@[0] {
        if e.values@[2] < e.values@[1] {
            2
        } else {
            1
        }
    } else {
        if e.values@[2] < e.values@[0] {
            2
        } else {
            0
        }
    }
}

/// The first index attaining the largest eigenvalue.
pub open spec fn spec_eigen_argmax(e: &EigenBasis) -> int {
    if e.values@[1] > e.values@[0] {
        if e.values@[2] > e.values@[1] {
            2
        } else {
            1
        }
    } else {
        if e.values@[2] > e.values@[0] {
            2
        } else {
            0
        }
    }
}

impl UncertainPlane {
    /// Signed point-to-plane distance: `normal . point / SCALE` minus the
    /// plane's distance to the origin.
    pub fn distance_to(&self, world_point: &WorldPoint) -> (r: i128)
        requires
            plane_wf(*self),
            bounded3(world_point.inner, COORD_LIMIT as int),
        ensures
            r as int == spec_distance_to(self.inner.normal, self.inner.distance_to_origin as int,
                world_point.inner),
            abs_le(r as int, 7 * (COORD_LIMIT as int)),
    {
        let n = &self.inner.normal;
        let d = n.dot_with(&world_point.inner, Ghost(SCALE as int), Ghost(COORD_LIMIT as int));
        let q = floor_div(d, SCALE);
        proof {
            assert(3 * (SCALE as int) * (COORD_LIMIT as int) == (3 * (COORD_LIMIT as int))
                * (SCALE as int)) by (nonlinear_arith);
            crate::geometry::lemma_floor_div_bound(d as int, SCALE as int,
                3 * (COORD_LIMIT as int));
        }
        q - self.inner.distance_to_origin
    }

    /// Variance of the signed point-to-plane distance: the plane covariance
    /// projected on `[point - center; -normal]` plus the point covariance
    /// projected on the normal, brought to a common scale and floor-divided
    /// back to the distance scale squared. Never negative.
    pub fn sigma_to(&self, world_point: &UncertainPoint<World>) -> (r: i128)
        requires
            plane_wf(*self),
            bounded3(world_point.inner.inner, COORD_LIMIT as int),
            world_point.covariance.wf(),
            world_point.covariance.dim() == 3,
            mat_bounded(world_point.covariance@, COV_LIMIT as int),
        ensures
            r as int == spec_sigma_to(*self, *world_point),
            r >= 0,
            r as int <= 0x4000_0000_0000,
    {
        let ghost cl = COORD_LIMIT as int;
        let ghost s = SCALE as int;
        let diff = world_point.inner.inner.minus(&self.inner.center.inner, Ghost(cl));
        // The stacked 6 by 1 projection direction [point - center; -normal].
        let mut rows: Vec<Vec<i128>> = Vec::new();
        let mut r0: Vec<i128> = Vec::new();
        r0.push(diff.x);
        let mut r1: Vec<i128> = Vec::new();
        r1.push(diff.y);
        let mut r2: Vec<i128> = Vec::new();
        r2.push(diff.z);
        let mut r3: Vec<i128> = Vec::new();
        r3.push(-self.inner.normal.x);
        let mut r4: Vec<i128> = Vec::new();
        r4.push(-self.inner.normal.y);
        let mut r5: Vec<i128> = Vec::new();
        r5.push(-self.inner.normal.z);
        rows.push(r0);
        rows.push(r1);
        rows.push(r2);
        rows.push(r3);
        rows.push(r4);
        rows.push(r5);
        let e6 = Matrix { rows, cols: 1 };
        proof {
            assert(e6.wf());
            assert(crate::linalg::model::column(e6@, 0) =~= error_direction(*self, *world_point));
            assert(mat_bounded(e6@, 2 * cl + 1));
            assert(s == 1024 && cl == 0x100_0000 && COV_LIMIT as int == 0x40_0000_0000_0000_0000);
            assert(6 * (COV_LIMIT as int) * (2 * cl + 1) <= i128::MAX as int && 6 * (6
                * (COV_LIMIT as int) * (2 * cl + 1)) * (2 * cl + 1) <= i128::MAX as int)
                by (nonlinear_arith)
                requires
                    cl == 0x100_0000,
                    COV_LIMIT as int == 0x40_0000_0000_0000_0000,
            ;
        }
        let s1 = self.covariance.composite.back(&e6, Ghost(2 * cl + 1), Ghost(COV_LIMIT as int));
        let ncol = self.inner.normal.to_col();
        proof {
            assert(3 * (COV_LIMIT as int) * s <= i128::MAX as int && 3 * (3 * (COV_LIMIT as int)
                * s) * s <= i128::MAX as int) by (nonlinear_arith)
                requires
                    s == 1024,
                    COV_LIMIT as int == 0x40_0000_0000_0000_0000,
            ;
        }
        let s2 = world_point.covariance.back(&ncol, Ghost(s), Ghost(COV_LIMIT as int));
        proof {
            // The two quadratic forms fit beside each other at a common scale.
            assert(s2 as int * (s * s) <= (3 * s * (3 * (COV_LIMIT as int) * s)) * (s * s))
                by (nonlinear_arith)
                requires
                    0 <= s2 as int <= 3 * s * (3 * (COV_LIMIT as int) * s),
                    s > 0,
            ;
            assert((3 * s * (3 * (COV_LIMIT as int) * s)) * (s * s) + 6 * (2 * cl + 1) * (6
                * (COV_LIMIT as int) * (2 * cl + 1)) < i128::MAX as int) by (nonlinear_arith)
                requires
                    s == 1024,
                    cl == 0x100_0000,
                    COV_LIMIT as int == 0x40_0000_0000_0000_0000,
            ;
        }
        let s2s = s2 * (SCALE * SCALE);
        let total = s1 + s2s;
        let sc = SCALE * SCALE;
        let div = (sc * sc) * (sc * sc);
        proof {
            assert(sc as int == s * s);
            assert((s * s) * (s * s) * ((s * s) * (s * s)) == 0x1_0000_0000_0000_0000_0000)
                by (nonlinear_arith)
                requires
                    s == 1024,
            ;
        }
        let r = floor_div(total, div);
        proof {
            assert(crate::linalg::model::column(ncol@, 0) =~= self.inner.normal@);
            assert(r >= 0) by (nonlinear_arith)
                requires
                    total >= 0,
                    div > 0,
                    (r as int) * (div as int) <= total as int,
                    (total as int) < (r as int + 1) * (div as int),
            ;
            assert(total as int <= 0x4000_0000_0000 * (div as int)) by (nonlinear_arith)
                requires
                    s == 1024,
                    cl == 0x100_0000,
                    COV_LIMIT as int == 0x40_0000_0000_0000_0000,
                    div as int == 0x1_0000_0000_0000_0000_0000,
                    total as int <= 6 * (2 * cl + 1) * (6 * (COV_LIMIT as int) * (2 * cl + 1)) + (3
                        * s * (3 * (COV_LIMIT as int) * s)) * (s * s),
            ;
            crate::geometry::lemma_floor_div_bound(total as int, div as int, 0x4000_0000_0000);
        }
        r
    }
}

/// A perturbation-row value clamped to the row limit.
pub open spec fn clamped_row_value(v: int) -> int {
    if v > JROW_LIMIT as int {
        JROW_LIMIT as int
    } else if v < -(JROW_LIMIT as int) {
        -(JROW_LIMIT as int)
    } else {
        v
    }
}

/// The inner product of `p - mean` with eigenvector column `j`.
pub open spec fn diff_dot_column(p: Point3, mean: Point3, e: &EigenBasis, j: int) -> int {
    (p.x - mean.x) * e.vectors@[0][j] + (p.y - mean.y) * e.vectors@[1][j] + (p.z - mean.z)
        * e.vectors@[2][j]
}

/// Row `i` of the raw eigenvector-perturbation matrix of one point: zero for
/// the minimal axis; otherwise the sensitivity `(p - mean)^T (e_i e_min^T +
/// e_min e_i^T) / (N (lambda_min - lambda_i))` evaluated in fixed point, with
/// a vanished eigenvalue gap substituted by the smallest denominator and the
/// result clamped.
pub open spec fn perturbation_row(
    p: Point3,
    mean: Point3,
    e: &EigenBasis,
    min_idx: int,
    n: int,
    i: int,
) -> Seq<int> {
    if i == min_idx {
        seq![0int, 0int, 0int]
    } else {
        let d1 = diff_dot_column(p, mean, e, i);
        let d2 = diff_dot_column(p, mean, e, min_idx);
        let gap = e.values@[i] - e.values@[min_idx];
        let den = if gap <= 0 {
            1int
        } else {
            n * gap
        };
        Seq::new(
            3,
            |b: int| clamped_row_value(
                (-(d1 * e.vectors@[b][min_idx] + d2 * e.vectors@[b][i])) / den,
            ),
        )
    }
}

/// The stacked 6 by 3 Jacobian of one point's contribution: the eigenbasis
/// times the perturbation rows, rescaled, over the `1/N`-scaled identity.
pub open spec fn perturbation_jacobian_of(
    p: Point3,
    mean: Point3,
    e: &EigenBasis,
    min_idx: int,
    n: int,
    pe: int,
) -> Seq<Seq<int>> {
    let rmat = Seq::new(3, |i: int| perturbation_row(p, mean, e, min_idx, n, i));
    let ne = crate::linalg::model::mat_div_floor(
        crate::linalg::model::mat_product(e.vectors@, rmat),
        SCALE as int,
    );
    seq![
        ne[0],
        ne[1],
        ne[2],
        seq![pe, 0int, 0int],
        seq![0int, pe, 0int],
        seq![0int, 0int, pe],
    ]
}

/// The 6 by 6 (normal, center) covariance of a fitted plane: the sum over
/// the points of their own covariances pushed through the stacked Jacobians.
pub open spec fn plane_covariance_sum(
    pts: Seq<UncertainPoint<World>>,
    mean: Point3,
    e: &EigenBasis,
    min_idx: int,
    n: int,
    pe: int,
) -> Seq<Seq<int>>
    decreases pts.len(),
{
    if pts.len() == 0 {
        crate::linalg::model::mat_const(6, 6, 0)
    } else {
        crate::linalg::model::mat_plus(
            plane_covariance_sum(pts.drop_last(), mean, e, min_idx, n, pe),
            crate::linalg::model::propagate(
                perturbation_jacobian_of(pts.last().inner.inner, mean, e, min_idx, n, pe),
                pts.last().covariance@,
            ),
        )
    }
}

/// The floor mean of the fitted points.
pub open spec fn plane_mean(pts: Seq<UncertainPoint<World>>) -> Point3 {
    Point3 {
        x: (plane_coord_total(pts, 0) / pts.len() as int) as i128,
        y: (plane_coord_total(pts, 1) / pts.len() as int) as i128,
        z: (plane_coord_total(pts, 2) / pts.len() as int) as i128,
    }
}

/// One coordinate sum of the fitted points, for stating the mean exactly.
pub open spec fn plane_coord_total(pts: Seq<UncertainPoint<World>>, axis: int) -> int {
    crate::linalg::model::vec_total(
        crate::utils::coord_seq(pts.map_values(|q: UncertainPoint<World>| q.inner), axis),
    )
}

impl UncertainPlane {
    /// Fit a plane to accumulated points by principal component analysis.
    /// The sample-covariance eigendecomposition is handed in as plain values;
    /// the fit is rejected — no plane, never a default one — exactly when the
    /// smallest eigenvalue falls below the configured planarity threshold.
    /// On success the normal is the eigenvector of the smallest eigenvalue,
    /// the center is the floor mean of the points, the distance to the origin
    /// their inner product, and the radius the floor root of the largest
    /// eigenvalue; the 6 by 6 (normal, center) covariance is the sum over the
    /// points of their own covariances pushed through the stacked first-order
    /// eigenvector-perturbation and `1/N` center Jacobians.
    pub fn new_plane(
        plane_points: &Vec<UncertainPoint<World>>,
        eigen: &EigenBasis,
        config: &Config,
    ) -> (r: Option<UncertainPlane>)
        requires
            config.wf(),
            eigen.wf(),
            1 <= plane_points@.len() <= crate::voxel_map::MAX_NODE_POINTS,
            forall|i: int|
                0 <= i < plane_points@.len() ==> crate::voxel_map::stored_point_wf(
                    #[trigger] plane_points@[i],
                ),
        ensures
            (r is Some) <==> eigen.values@[spec_eigen_argmin(eigen)] as int
                >= config.planer_threshold as int,
            match r {
                Some(pl) => {
                    &&& pl.inner.points_count == plane_points@.len()
                    &&& pl.inner.normal.x as int == eigen.vectors@[0][spec_eigen_argmin(eigen)]
                    &&& pl.inner.normal.y as int == eigen.vectors@[1][spec_eigen_argmin(eigen)]
                    &&& pl.inner.normal.z as int == eigen.vectors@[2][spec_eigen_argmin(eigen)]
                    &&& pl.inner.center.inner.x as int == plane_coord_total(plane_points@, 0)
                        / plane_points@.len() as int
                    &&& pl.inner.center.inner.y as int == plane_coord_total(plane_points@, 1)
                        / plane_points@.len() as int
                    &&& pl.inner.center.inner.z as int == plane_coord_total(plane_points@, 2)
                        / plane_points@.len() as int
                    &&& pl.inner.distance_to_origin as int == (pl.inner.normal.x
                        * pl.inner.center.inner.x + pl.inner.normal.y * pl.inner.center.inner.y
                        + pl.inner.normal.z * pl.inner.center.inner.z) / (SCALE as int)
                    &&& pl.inner.radius as int == (if eigen.values@[spec_eigen_argmax(eigen)] as int
                        >= 0 {
                        sqrt_floor(eigen.values@[spec_eigen_argmax(eigen)] as int)
                    } else {
                        0
                    })
                    &&& bounded3(pl.inner.normal, SCALE as int)
                    &&& bounded3(pl.inner.center.inner, COORD_LIMIT as int)
                    &&& pl.inner.radius >= 0
                    &&& abs_le(pl.inner.distance_to_origin as int, 3 * (COORD_LIMIT as int) + 1)
                    &&& pl.covariance.composite.wf()
                    &&& pl.covariance.composite.dim() == 6
                    &&& pl.covariance.composite@ =~~= plane_covariance_sum(
                        plane_points@,
                        plane_mean(plane_points@),
                        eigen,
                        spec_eigen_argmin(eigen),
                        plane_points@.len() as int,
                        (SCALE as int) / (plane_points@.len() as int),
                    )
                },
                None => true,
            },
    {
        let ghost cl = COORD_LIMIT as int;
        let ghost s = SCALE as int;
        let n = plane_points.len();
        proof {
            assert(s == 1024 && cl == 0x100_0000);
        }

        // Streaming sufficient statistics over the raw coordinates.
        let mut coords: Vec<WorldPoint> = Vec::new();
        let mut i: usize = 0;
        while i < n
            invariant
                i <= n,
                n == plane_points@.len(),
                coords@ =~= plane_points@.take(i as int).map_values(
                    |q: UncertainPoint<World>| q.inner,
                ),
                forall|t: int|
                    0 <= t < plane_points@.len() ==> crate::voxel_map::stored_point_wf(
                        #[trigger] plane_points@[t],
                    ),
            decreases n - i,
        {
            coords.push(plane_points[i].inner);
            proof {
                assert(plane_points@.take(i as int + 1) =~= plane_points@.take(i as int).push(
                    plane_points@[i as int],
                ));
                assert(coords@ =~= plane_points@.take(i as int + 1).map_values(
                    |q: UncertainPoint<World>| q.inner,
                ));
            }
            i = i + 1;
        }
        proof {
            assert(plane_points@.take(n as int) =~= plane_points@);
            assert forall|t: int| 0 <= t < coords@.len() implies bounded3(
                (#[trigger] coords@[t]).inner,
                cl,
            ) by {
                assert(coords@[t] == plane_points@[t].inner);
            }
            assert(n * cl <= i128::MAX as int && n * (cl * cl) <= i128::MAX as int)
                by (nonlinear_arith)
                requires
                    cl == 0x100_0000,
                    0 <= n <= 1024,
            ;
        }
        let stats = crate::utils::VectorSquareSum::accumulate(&coords, Ghost(cl));
        proof {
            lemma_stats_bounds(coords@, &stats, cl);
            assert((n * (cl * cl)) * (n * (cl * cl)) + n * (cl * cl) <= i128::MAX as int)
                by (nonlinear_arith)
                requires
                    cl == 0x100_0000,
                    1 <= n <= 1024,
            ;
            assert(n * cl <= n * (cl * cl)) by (nonlinear_arith)
                requires
                    cl >= 1,
                    n >= 1,
            ;
        }
        let (mean, _moments) = stats.mean(Ghost((n as int) * (cl * cl)));
        proof {
            crate::geometry::lemma_floor_div_bound(stats.sum.x as int, n as int, cl);
            crate::geometry::lemma_floor_div_bound(stats.sum.y as int, n as int, cl);
            crate::geometry::lemma_floor_div_bound(stats.sum.z as int, n as int, cl);
            assert(plane_coord_total(plane_points@, 0) == crate::linalg::model::vec_total(
                crate::utils::coord_seq(coords@, 0),
            )) by {
                assert(plane_points@.map_values(|q: UncertainPoint<World>| q.inner) =~= coords@);
            }
            assert(plane_coord_total(plane_points@, 1) == crate::linalg::model::vec_total(
                crate::utils::coord_seq(coords@, 1),
            )) by {
                assert(plane_points@.map_values(|q: UncertainPoint<World>| q.inner) =~= coords@);
            }
            assert(plane_coord_total(plane_points@, 2) == crate::linalg::model::vec_total(
                crate::utils::coord_seq(coords@, 2),
            )) by {
                assert(plane_points@.map_values(|q: UncertainPoint<World>| q.inner) =~= coords@);
            }
        }

        // The planarity test: reject when the smallest eigenvalue is below
        // the configured threshold.
        let min_idx = eigen.argmin();
        let min_val = eigen.values[min_idx];
        if min_val < config.planer_threshold {
            return None;
        }
        let normal = eigen.column(min_idx);

        // Geometry of the surfel.
        let d = normal.dot_with(&mean, Ghost(s), Ghost(cl));
        let distance_to_origin = floor_div(d, SCALE);
        proof {
            assert(3 * s * cl == (3 * cl) * s) by (nonlinear_arith);
            crate::geometry::lemma_floor_div_bound(d as int, s, 3 * cl);
        }
        let max_idx = eigen.argmax();
        let max_val = eigen.values[max_idx];
        let radius: i128 = if max_val >= 0 {
            proof {
                assert(max_val as u128 as int == max_val as int);
                assert(max_val as int <= u128::MAX as int / 4);
            }
            let ru = int_sqrt(max_val as u128);
            proof {
                assert(ru as int * (ru as int) <= max_val as int);
                assert(ru as int <= 0x4000_0000_0000_0000) by (nonlinear_arith)
                    requires
                        (ru as int) * (ru as int) <= max_val as int,
                        max_val as int <= COV_LIMIT as int,
                        COV_LIMIT as int == 0x40_0000_0000_0000_0000,
                        ru as int >= 0,
                ;
            }
            ru as i128
        } else {
            0
        };

        // The 6 by 6 (normal, center) covariance: per point, push the point's
        // own covariance through the stacked perturbation Jacobian and sum.
        let mut cov = Uncertainty::from_element(6, 0);
        let ghost tb = 3 * (3 * 0x80_0000 * (crate::voxel_map::PT_COV_LIMIT as int)) * 0x80_0000;
        let pe = floor_div(SCALE, n as i128);
        proof {
            crate::geometry::lemma_floor_div_bound(s, n as int, s);
            assert(mat_bounded(cov@, 0 * tb));
            assert(mean == plane_mean(plane_points@));
            assert(cov@ =~~= plane_covariance_sum(plane_points@.take(0), mean, eigen,
                min_idx as int, n as int, pe as int)) by {
                assert(plane_points@.take(0).len() == 0);
            }
        }
        let mut j: usize = 0;
        while j < n
            invariant
                j <= n,
                1 <= n <= 1024,
                n == plane_points@.len(),
                config.wf(),
                eigen.wf(),
                min_idx < 3,
                min_val as int == eigen.values@[min_idx as int],
                forall|t: int| 0 <= t < 3 ==> min_val as int <= #[trigger] eigen.values@[t],
                bounded3(mean, cl),
                0 <= pe as int <= s,
                cl == COORD_LIMIT as int,
                s == SCALE as int,
                tb == 3 * (3 * 0x80_0000 * (crate::voxel_map::PT_COV_LIMIT as int)) * 0x80_0000,
                forall|t: int|
                    0 <= t < plane_points@.len() ==> crate::voxel_map::stored_point_wf(
                        #[trigger] plane_points@[t],
                    ),
                cov.wf(),
                cov.dim() == 6,
                mat_bounded(cov@, (j as int) * tb),
                mean == plane_mean(plane_points@),
                cov@ =~~= plane_covariance_sum(plane_points@.take(j as int), mean, eigen,
                    min_idx as int, n as int, pe as int),
                min_idx as int == spec_eigen_argmin(eigen),
            decreases n - j,
        {
            let q = &plane_points[j];
            let err = Self::perturbation_jacobian(
                &q.inner.inner,
                &mean,
                eigen,
                min_idx,
                min_val,
                n,
                pe,
                Ghost(cl),
            );
            proof {
                assert(3 * 0x80_0000 * (crate::voxel_map::PT_COV_LIMIT as int) <= i128::MAX as int
                    && 3 * (3 * 0x80_0000 * (crate::voxel_map::PT_COV_LIMIT as int)) * 0x80_0000
                    <= i128::MAX as int) by (nonlinear_arith)
                    requires
                        crate::voxel_map::PT_COV_LIMIT as int == 0x100_0000_0000_0000,
                ;
            }
            let term = q.covariance.forward(
                &err,
                Ghost(0x80_0000int),
                Ghost(crate::voxel_map::PT_COV_LIMIT as int),
            );
            proof {
                assert((j as int) * tb + tb == (j as int + 1) * tb) by (nonlinear_arith);
                assert((j as int + 1) * tb <= 1024 * tb) by (nonlinear_arith)
                    requires
                        j as int + 1 <= 1024,
                        tb >= 0,
                ;
                assert(2 * (1024 * tb) <= i128::MAX as int) by (nonlinear_arith)
                    requires
                        tb == 3 * (3 * 0x80_0000 * 0x100_0000_0000_0000) * 0x80_0000,
                ;
                crate::linalg::model::lemma_mat_bounded_mono(cov@, (j as int) * tb, 1024 * tb);
                crate::linalg::model::lemma_mat_bounded_mono(term@, tb, 1024 * tb);
            }
            let ghost covprev = cov@;
            let newcov = cov.plus(&term, Ghost(1024 * tb));
            proof {
                assert forall|a: int, b: int|
                    0 <= a < 6 && 0 <= b < 6 implies -((j as int + 1) * tb)
                    <= #[trigger] newcov@[a][b] <= (j as int + 1) * tb by {
                    assert(newcov@[a][b] == covprev[a][b] + term@[a][b]);
                }
            }
            proof {
                assert(plane_points@.take(j as int + 1).drop_last() =~= plane_points@.take(
                    j as int,
                ));
                assert(plane_points@.take(j as int + 1).last() == plane_points@[j as int]);
                assert(newcov@ =~~= plane_covariance_sum(plane_points@.take(j as int + 1), mean,
                    eigen, min_idx as int, n as int, pe as int));
            }
            cov = newcov;
            j = j + 1;
        }
        proof {
            assert(plane_points@.take(n as int) =~= plane_points@);
        }

        let plane = Plane {
            normal,
            center: crate::frame::Framed::new(mean),
            points_count: n,
            radius,
            distance_to_origin,
        };
        Some(Uncertained::new(plane, PlaneUncertainties { composite: cov }))
    }

    /// The stacked 6 by 3 Jacobian of one point's contribution: the
    /// first-order eigenvector perturbation rows over the `1/N`-scaled
    /// identity. Rows from nearly degenerate eigenvalue gaps are clamped to
    /// `JROW_LIMIT`, a local numerical safeguard.
    fn perturbation_jacobian(
        p: &Point3,
        mean: &Point3,
        eigen: &EigenBasis,
        min_idx: usize,
        min_val: i128,
        n: usize,
        pe: i128,
        Ghost(cl): Ghost<int>,
    ) -> (err: Matrix)
        requires
            eigen.wf(),
            min_idx < 3,
            min_val as int == eigen.values@[min_idx as int],
            forall|i: int| 0 <= i < 3 ==> min_val as int <= #[trigger] eigen.values@[i],
            1 <= n <= 1024,
            0 <= pe as int <= SCALE as int,
            cl == COORD_LIMIT as int,
            bounded3(*p, cl),
            bounded3(*mean, cl),
        ensures
            err.wf(),
            err.nrows() == 6,
            err.cols == 3,
            mat_bounded(err@, 0x80_0000),
            err@ =~~= perturbation_jacobian_of(*p, *mean, eigen, min_idx as int, n as int,
                pe as int),
    {
        let ghost s = SCALE as int;
        proof {
            assert(s == 1024 && cl == 0x100_0000);
        }
        let diff = p.minus(mean, Ghost(cl));
        let e_min = eigen.column(min_idx);
        let mut rrows: Vec<Vec<i128>> = Vec::new();
        let mut i: usize = 0;
        while i < 3
            invariant
                i <= 3,
                eigen.wf(),
                min_idx < 3,
                min_val as int == eigen.values@[min_idx as int],
                forall|t: int| 0 <= t < 3 ==> min_val as int <= #[trigger] eigen.values@[t],
                1 <= n <= 1024,
                bounded3(diff, 2 * cl),
                bounded3(e_min, s),
                s == SCALE as int,
                cl == COORD_LIMIT as int,
                e_min.x as int == eigen.vectors@[0][min_idx as int],
                e_min.y as int == eigen.vectors@[1][min_idx as int],
                e_min.z as int == eigen.vectors@[2][min_idx as int],
                diff.x as int == p.x - mean.x,
                diff.y as int == p.y - mean.y,
                diff.z as int == p.z - mean.z,
                rrows@.len() == i,
                forall|t: int| 0 <= t < i ==> (#[trigger] rrows@[t])@.len() == 3,
                forall|t: int, b: int|
                    0 <= t < i && 0 <= b < 3 ==> abs_le(
                        (#[trigger] rrows@[t]@[b]) as int,
                        JROW_LIMIT as int,
                    ),
                forall|t: int|
                    0 <= t < i ==> (#[trigger] rrows@[t])@.map_values(|v: i128| v as int)
                        =~= perturbation_row(*p, *mean, eigen, min_idx as int, n as int, t),
            decreases 3 - i,
        {
            if i == min_idx {
                let mut row: Vec<i128> = Vec::new();
                row.push(0);
                row.push(0);
                row.push(0);
                rrows.push(row);
                proof {
                    assert(rrows@[i as int]@.map_values(|v: i128| v as int) =~= perturbation_row(
                        *p,
                        *mean,
                        eigen,
                        min_idx as int,
                        n as int,
                        i as int,
                    ));
                }
            } else {
                let e_i = eigen.column(i);
                proof {
                    assert(s == 1024 && cl == 0x100_0000);
                    assert(3 * (2 * cl) * s <= i128::MAX as int) by (nonlinear_arith)
                        requires
                            s == 1024,
                            cl == 0x100_0000,
                    ;
                }
                let d1 = diff.dot_with(&e_i, Ghost(2 * cl), Ghost(s));
                let d2 = diff.dot_with(&e_min, Ghost(2 * cl), Ghost(s));
                // The denominator N (lambda_i - lambda_min), with the
                // smallest positive value substituted when the gap vanishes.
                let gap = eigen.values[i] - min_val;
                let den: i128 = if gap <= 0 {
                    1
                } else {
                    proof {
                        crate::linalg::model::lemma_mul_bound(n as i128 as int, gap as int, 1024,
                            2 * (COV_LIMIT as int));
                        assert((n as int) * (gap as int) >= 1) by (nonlinear_arith)
                            requires
                                n as int >= 1,
                                gap as int >= 1,
                        ;
                    }
                    n as i128 * gap
                };
                let row = Self::perturb_entry_row(d1, d2, &e_i, &e_min, den, Ghost(cl));
                rrows.push(row);
                proof {
                    assert(d1 as int == diff_dot_column(*p, *mean, eigen, i as int));
                    assert(d2 as int == diff_dot_column(*p, *mean, eigen, min_idx as int));
                    assert(rrows@[i as int]@.map_values(|v: i128| v as int) =~= perturbation_row(
                        *p,
                        *mean,
                        eigen,
                        min_idx as int,
                        n as int,
                        i as int,
                    ));
                }
            }
            i = i + 1;
        }
        // The 1/N-scaled identity rows for the center error.
        let mut r3: Vec<i128> = Vec::new();
        r3.push(pe);
        r3.push(0);
        r3.push(0);
        let mut r4: Vec<i128> = Vec::new();
        r4.push(0);
        r4.push(pe);
        r4.push(0);
        let mut r5: Vec<i128> = Vec::new();
        r5.push(0);
        r5.push(0);
        r5.push(pe);
        // Assemble rows = eigenvectors * perturbation rows, rescaled.
        let rmat = Matrix { rows: rrows, cols: 3 };
        proof {
            assert(rmat.wf());
            assert(mat_bounded(rmat@, JROW_LIMIT as int));
            assert(3 * s * (JROW_LIMIT as int) <= i128::MAX as int) by (nonlinear_arith)
                requires
                    s == 1024,
                    JROW_LIMIT as int == 0x20_0000,
            ;
        }
        let ne0 = eigen.vectors.times(&rmat, Ghost(s), Ghost(JROW_LIMIT as int));
        let ne = ne0.rescaled(SCALE, Ghost(3 * s * (JROW_LIMIT as int)));
        proof {
            assert forall|a: int, b: int|
                0 <= a < 3 && 0 <= b < 3 implies -(3 * (JROW_LIMIT as int)) <= #[trigger] ne@[a][b]
                <= 3 * (JROW_LIMIT as int) by {
                assert(ne@[a][b] == ne0@[a][b] / s);
                assert(3 * s * (JROW_LIMIT as int) == (3 * (JROW_LIMIT as int)) * s)
                    by (nonlinear_arith);
                crate::geometry::lemma_floor_div_bound(ne0@[a][b], s, 3 * (JROW_LIMIT as int));
            }
        }
        proof {
            ne.shape(0);
            ne.shape(1);
            ne.shape(2);
        }
        let mut rows: Vec<Vec<i128>> = Vec::new();
        let ghost nev = ne@;
        let mut ner = ne.rows;
        let nr0 = ner.remove(0);
        let nr1 = ner.remove(0);
        let nr2 = ner.remove(0);
        rows.push(nr0);
        rows.push(nr1);
        rows.push(nr2);
        rows.push(r3);
        rows.push(r4);
        rows.push(r5);
        let err = Matrix { rows, cols: 3 };
        proof {
            assert(err.wf());
            assert forall|a: int, b: int|
                0 <= a < 6 && 0 <= b < 3 implies -0x80_0000 <= #[trigger] err@[a][b]
                <= 0x80_0000 by {
                if a < 3 {
                    assert(err@[a][b] == nev[a][b]);
                } else {
                    assert(err@[a][b] == (if a == b + 3 {
                        pe as int
                    } else {
                        0int
                    }));
                }
            }
            // The assembled matrix is exactly the stacked Jacobian of the
            // model: the rescaled product over the scaled-identity rows.
            let rspec = Seq::new(
                3,
                |i: int| perturbation_row(*p, *mean, eigen, min_idx as int, n as int, i),
            );
            assert(rmat@ =~~= rspec) by {
                assert forall|t: int| 0 <= t < 3 implies #[trigger] rmat@[t] =~= rspec[t] by {
                    assert(rmat@[t] =~= rmat.rows@[t]@.map_values(|v: i128| v as int)) by {
                        rmat.shape(t);
                        assert forall|b: int| 0 <= b < 3 implies #[trigger] rmat@[t][b]
                            == rmat.rows@[t]@.map_values(|v: i128| v as int)[b] by {
                        }
                    }
                }
            }
            let nespec = crate::linalg::model::mat_div_floor(
                crate::linalg::model::mat_product(eigen.vectors@, rspec),
                SCALE as int,
            );
            assert(nev =~~= nespec);
            assert(err@ =~~= perturbation_jacobian_of(*p, *mean, eigen, min_idx as int, n as int,
                pe as int)) by {
                assert forall|a: int| 0 <= a < 6 implies #[trigger] err@[a]
                    =~= perturbation_jacobian_of(
                    *p,
                    *mean,
                    eigen,
                    min_idx as int,
                    n as int,
                    pe as int,
                )[a] by {
                    if a < 3 {
                        assert(err@[a] =~= nev[a]);
                    }
                }
            }
        }
        err
    }

    /// One perturbation row: `(d1 * e_min + d2 * e_i) / -den`, clamped.
    fn perturb_entry_row(
        d1: i128,
        d2: i128,
        e_i: &Point3,
        e_min: &Point3,
        den: i128,
        Ghost(cl): Ghost<int>,
    ) -> (row: Vec<i128>)
        requires
            cl == COORD_LIMIT as int,
            den >= 1,
            abs_le(d1 as int, 3 * (2 * cl) * (SCALE as int)),
            abs_le(d2 as int, 3 * (2 * cl) * (SCALE as int)),
            bounded3(*e_i, SCALE as int),
            bounded3(*e_min, SCALE as int),
        ensures
            row@.len() == 3,
            forall|b: int| 0 <= b < 3 ==> abs_le((#[trigger] row@[b]) as int, JROW_LIMIT as int),
            row@[0] as int == clamped_row_value((-(d1 * e_min.x + d2 * e_i.x)) / (den as int)),
            row@[1] as int == clamped_row_value((-(d1 * e_min.y + d2 * e_i.y)) / (den as int)),
            row@[2] as int == clamped_row_value((-(d1 * e_min.z + d2 * e_i.z)) / (den as int)),
    {
        let ghost s = SCALE as int;
        proof {
            assert(s == 1024 && cl == 0x100_0000);
        }
        let mut row: Vec<i128> = Vec::new();
        let ex = [e_i.x, e_i.y, e_i.z];
        let mx = [e_min.x, e_min.y, e_min.z];
        let mut b: usize = 0;
        while b < 3
            invariant
                b <= 3,
                den >= 1,
                s == SCALE as int,
                cl == COORD_LIMIT as int,
                abs_le(d1 as int, 3 * (2 * cl) * s),
                abs_le(d2 as int, 3 * (2 * cl) * s),
                abs_le(ex@[0] as int, s) && abs_le(ex@[1] as int, s) && abs_le(ex@[2] as int, s),
                abs_le(mx@[0] as int, s) && abs_le(mx@[1] as int, s) && abs_le(mx@[2] as int, s),
                ex@[0] == e_i.x && ex@[1] == e_i.y && ex@[2] == e_i.z,
                mx@[0] == e_min.x && mx@[1] == e_min.y && mx@[2] == e_min.z,
                row@.len() == b,
                forall|t: int| 0 <= t < b ==> abs_le((#[trigger] row@[t]) as int, JROW_LIMIT as int),
                forall|t: int|
                    0 <= t < b ==> (#[trigger] row@[t]) as int == clamped_row_value(
                        (-(d1 * mx@[t] + d2 * ex@[t])) / (den as int),
                    ),
            decreases 3 - b,
        {
            proof {
                assert(s == 1024 && cl == 0x100_0000);
                crate::linalg::model::lemma_mul_bound(d1 as int, mx@[b as int] as int,
                    3 * (2 * cl) * s, s);
                crate::linalg::model::lemma_mul_bound(d2 as int, ex@[b as int] as int,
                    3 * (2 * cl) * s, s);
                assert((3 * (2 * cl) * s) * s + (3 * (2 * cl) * s) * s <= i128::MAX as int)
                    by (nonlinear_arith)
                    requires
                        s == 1024,
                        cl == 0x100_0000,
                ;
            }
            let num = d1 * mx[b] + d2 * ex[b];
            let v = floor_div(-num, den);
            proof {
                crate::linalg::lemma_div_within(-num as int, den as int,
                    (3 * (2 * cl) * s) * s + (3 * (2 * cl) * s) * s);
            }
            let c: i128 = if v > JROW_LIMIT {
                JROW_LIMIT
            } else if v < -JROW_LIMIT {
                -JROW_LIMIT
            } else {
                v
            };
            row.push(c);
            b = b + 1;
        }
        row
    }
}

/// The variance of a residual is monotone in the uncertainties that feed it:
/// scaling up the plane covariance by `k >= 1` and the queried point's
/// covariance by `j >= 1` never decreases `sigma_to`, because each quadratic
/// form of a positive semi-definite covariance scales by its factor and both
/// start non-negative.
pub proof fn lemma_sigma_monotone(
    p1: UncertainPlane,
    p2: UncertainPlane,
    q1: UncertainPoint<World>,
    q2: UncertainPoint<World>,
    k: int,
    j: int,
)
    requires
        k >= 1,
        j >= 1,
        p2.inner == p1.inner,
        q2.inner == q1.inner,
        p1.covariance.composite.wf(),
        p1.covariance.composite.dim() == 6,
        q1.covariance.wf(),
        q1.covariance.dim() == 3,
        p2.covariance.composite@ == crate::linalg::model::mat_scaled(
            k,
            p1.covariance.composite@,
        ),
        q2.covariance@ == crate::linalg::model::mat_scaled(j, q1.covariance@),
    ensures
        spec_sigma_to(p2, q2) >= spec_sigma_to(p1, q1),
{
    let e = error_direction(p1, q1);
    assert(error_direction(p2, q2) == e);
    let v = p1.inner.normal@;
    assert(p2.inner.normal@ == v);
    let f1 = quad_form(p1.covariance.composite@, e);
    let f2 = quad_form(p2.covariance.composite@, e);
    let g1 = quad_form(q1.covariance@, v);
    let g2 = quad_form(q2.covariance@, v);
    assert(e.len() == 6);
    assert(v.len() == 3);
    crate::linalg::model::lemma_quad_form_scaled(k, p1.covariance.composite@, e, 6);
    crate::linalg::model::lemma_quad_form_scaled(j, q1.covariance@, v, 3);
    assert(f1 >= 0);
    assert(g1 >= 0);
    assert(f2 >= f1) by (nonlinear_arith)
        requires
            f2 == k * f1,
            k >= 1,
            f1 >= 0,
    ;
    assert(g2 >= g1) by (nonlinear_arith)
        requires
            g2 == j * g1,
            j >= 1,
            g1 >= 0,
    ;
    let s2 = (SCALE as int) * (SCALE as int);
    assert(g2 * s2 >= g1 * s2) by (nonlinear_arith)
        requires
            g2 >= g1,
            s2 >= 0,
    ;
    assert((s2 * s2) * (s2 * s2) > 0) by (nonlinear_arith)
        requires
            s2 == 1024 * 1024,
    ;
    vstd::arithmetic::div_mod::lemma_div_is_ordered(
        f1 + g1 * s2,
        f2 + g2 * s2,
        (s2 * s2) * (s2 * s2),
    );
}

/// The accumulated statistics of bounded points are bounded.
pub proof fn lemma_stats_bounds(
    pts: Seq<WorldPoint>,
    stats: &crate::utils::VectorSquareSum,
    cl: int,
)
    requires
        cl >= 1,
        stats.describes(pts),
        forall|t: int| 0 <= t < pts.len() ==> bounded3((#[trigger] pts[t]).inner, cl),
    ensures
        bounded3(stats.sum, pts.len() * (cl * cl)),
        bounded3(stats.sum, cl * pts.len()),
        crate::linalg::model::mat_bounded(stats.square_sum@, pts.len() * (cl * cl)),
{
    let n = pts.len() as int;
    assert forall|axis: int| 0 <= axis < 3 implies abs_le(
        crate::linalg::model::vec_total(crate::utils::coord_seq(pts, axis)),
        n * cl,
    ) by {
        assert forall|t: int| 0 <= t < n implies -cl <= #[trigger] crate::utils::coord_seq(
            pts,
            axis,
        )[t] <= cl by {
            assert(bounded3(pts[t].inner, cl));
        }
        crate::linalg::model::lemma_total_bound(crate::utils::coord_seq(pts, axis), cl);
    }
    assert forall|a: int, b: int| 0 <= a < 3 && 0 <= b < 3 implies abs_le(
        crate::linalg::model::vec_total(crate::utils::outer_seq(pts, a, b)),
        n * (cl * cl),
    ) by {
        assert forall|t: int| 0 <= t < n implies -(cl * cl) <= #[trigger] crate::utils::outer_seq(
            pts,
            a,
            b,
        )[t] <= cl * cl by {
            assert(bounded3(pts[t].inner, cl));
            crate::linalg::model::lemma_mul_bound(crate::utils::coord_seq(pts, a)[t],
                crate::utils::coord_seq(pts, b)[t], cl, cl);
        }
        assert(cl * cl >= 0) by (nonlinear_arith)
            requires
                cl >= 1,
        ;
        crate::linalg::model::lemma_total_bound(crate::utils::outer_seq(pts, a, b), cl * cl);
    }
    assert(n * cl <= n * (cl * cl) && n * cl == cl * n) by (nonlinear_arith)
        requires
            cl >= 1,
            n >= 0,
    ;
}

/// The stacked projection direction `[point - center; -normal]` of the
/// sigma computation.
pub open spec fn error_direction(p: UncertainPlane, q: UncertainPoint<World>) -> Seq<int> {
    seq![
        q.inner.inner.x - p.inner.center.inner.x,
        q.inner.inner.y - p.inner.center.inner.y,
        q.inner.inner.z - p.inner.center.inner.z,
        -(p.inner.normal.x as int),
        -(p.inner.normal.y as int),
        -(p.inner.normal.z as int),
    ]
}

/// The signed distance of a world point to a plane with the given normal and
/// distance to origin.
pub open spec fn spec_distance_to(normal: Point3, distance_to_origin: int, q: Point3) -> int {
    (normal.x * q.x + normal.y * q.y + normal.z * q.z) / (SCALE as int) - distance_to_origin
}

/// The variance assigned to a point's residual: both quadratic forms summed
/// at a common scale, then floor-divided back.
pub open spec fn spec_sigma_to(p: UncertainPlane, q: UncertainPoint<World>) -> int {
    let s2 = (SCALE as int) * (SCALE as int);
    let q1 = quad_form(p.covariance.composite@, error_direction(p, q));
    let q2 = quad_form(q.covariance@, p.inner.normal@);
    (q1 + q2 * s2) / ((s2 * s2) * (s2 * s2))
}

} // verus!
