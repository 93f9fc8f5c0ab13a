//! Per-measurement uncertainty of a single ranged point.
//!
//! A raw body-frame point carries a 1-dimensional range error along its beam
//! and a 2-dimensional angular error in the tangent plane of the beam;
//! propagated into the world frame it collapses to a plain 3 by 3 positional
//! covariance, picking up the pose uncertainty on the way.

use vstd::prelude::*;

use super::Config;
use crate::esikf::UncertainOdometer;
use crate::frame::{Body, BodyPoint, Framed, FramedTransform, Imu, World};
use crate::geometry::{
    abs_le, bounded3, cross_seq, floor_div, int_sqrt, normalize_seq, skew_view, sqrt_floor,
    Point3, COORD_LIMIT, SCALE,
};
use crate::linalg::model::{
    mat_bounded, mat_const, mat_diag, mat_div_floor, mat_plus, mat_product, mat_scaled, propagate,
    sub_block,
};
use crate::linalg::Matrix;
use crate::uncertain::{Uncertain, Uncertained, Uncertainty};

verus! {

/// The composite (range, angular) uncertainty of a body-frame point, held as
/// one 3 by 3 positional covariance with read views into the leading 1 by 1
/// and trailing 2 by 2 diagonal blocks.
pub struct BodyPointUncertainties {
    pub composite: Uncertainty,
}

impl BodyPointUncertainties {
    pub open spec fn wf(&self) -> bool {
        &&& self.composite.wf()
        &&& self.composite.dim() == 3
    }

    /// Read view of the leading 1 by 1 (range) block.
    pub fn view_distance(&self) -> (r: Uncertainty)
        requires
            self.wf(),
        ensures
            r.wf(),
            r.dim() == 1,
            r@ =~~= sub_block(self.composite@, 0, 1),
    {
        self.composite.view_block(0, 1)
    }

    /// Read view of the trailing 2 by 2 (angular) block.
    pub fn view_direction(&self) -> (r: Uncertainty)
        requires
            self.wf(),
        ensures
            r.wf(),
            r.dim() == 2,
            r@ =~~= sub_block(self.composite@, 1, 2),
    {
        self.composite.view_block(1, 2)
    }
}

/// A world-frame point's uncertainty is a plain 3 by 3 positional covariance.
pub type WorldPointUncertainties = Uncertainty;

impl Uncertain for Framed<Point3, Body> {
    type Uncertainties = BodyPointUncertainties;
}

impl Uncertain for Framed<Point3, World> {
    type Uncertainties = WorldPointUncertainties;
}

/// An uncertain point in frame `F`.
pub type UncertainPoint<F> = Uncertained<Framed<Point3, F>>;

/// The beam (range) direction of a body point: its fixed-point
/// normalization.
pub open spec fn body_direction(p: Point3) -> Seq<int> {
    normalize_seq(p@)
}

/// The first tangent basis vector: a constant-vector construction, with the
/// smallest positive scalar substituted when the direction's z-component is
/// exactly zero, then normalized.
pub open spec fn body_base1(p: Point3) -> Seq<int> {
    let d = body_direction(p);
    let dz = if d[2] == 0 {
        1int
    } else {
        d[2]
    };
    let q = crate::geometry::spec_floor_div_any(-(d[0] + d[1]) * (SCALE as int), dz);
    normalize_seq(seq![SCALE as int, SCALE as int, q])
}

/// The second tangent basis vector: the cross product of the first with the
/// beam direction, rescaled and normalized.
pub open spec fn body_base2(p: Point3) -> Seq<int> {
    let c = cross_seq(body_base1(p), body_direction(p));
    normalize_seq(
        seq![c[0] / (SCALE as int), c[1] / (SCALE as int), c[2] / (SCALE as int)],
    )
}

/// The range of a body point: the floor norm of its coordinates.
pub open spec fn body_range(p: Point3) -> int {
    sqrt_floor(p.x * p.x + p.y * p.y + p.z * p.z)
}

/// Column `j` of the angular Jacobian: the range times the cross product of
/// the beam direction with tangent basis `j`, with one floor division by
/// `SCALE^2` per entry.
pub open spec fn tangent_column(p: Point3, j: int) -> Seq<int> {
    let base = if j == 0 {
        body_base1(p)
    } else {
        body_base2(p)
    };
    let c = cross_seq(body_direction(p), base);
    let s2 = (SCALE as int) * (SCALE as int);
    seq![
        (body_range(p) * c[0]) / s2,
        (body_range(p) * c[1]) / s2,
        (body_range(p) * c[2]) / s2,
    ]
}

/// The 3 by 2 angular Jacobian of a body point.
pub open spec fn tangent_jacobian(p: Point3) -> Seq<Seq<int>> {
    Seq::new(3, |i: int| seq![tangent_column(p, 0)[i], tangent_column(p, 1)[i]])
}

/// The beam direction as a 3 by 1 column matrix.
pub open spec fn direction_column(p: Point3) -> Seq<Seq<int>> {
    Seq::new(3, |i: int| seq![body_direction(p)[i]])
}

/// The 3 by 3 body-frame covariance of a ranged point: the 1-dimensional
/// range variance pushed through the beam direction plus the 2-dimensional
/// angular variance pushed through the tangent Jacobian.
pub open spec fn body_covariance(p: Point3, beam_err: int, dept_err_sin: int) -> Seq<Seq<int>> {
    mat_plus(
        propagate(direction_column(p), mat_const(1, 1, beam_err * beam_err)),
        propagate(tangent_jacobian(p), mat_diag(2, dept_err_sin * dept_err_sin)),
    )
}

impl UncertainPoint<Body> {
    /// Build the uncertain body point of a raw measurement: range variance
    /// `beam_err^2` along the beam, angular variance `dept_err_sin^2` in each
    /// tangent direction.
    pub fn new_body_point(point: BodyPoint, config: &Config) -> (r: UncertainPoint<Body>)
        requires
            config.wf(),
            bounded3(point.inner, COORD_LIMIT as int),
            point.inner.x != 0 || point.inner.y != 0 || point.inner.z != 0,
        ensures
            r.inner == point,
            r.covariance.wf(),
            r.covariance.composite@ =~~= body_covariance(
                point.inner,
                config.beam_err as int,
                config.dept_err_sin as int,
            ),
    {
        let p = point.inner;
        let ghost cl = COORD_LIMIT as int;
        let ghost s = SCALE as int;
        proof {
            assert(s == 1024);
            assert(cl == 0x100_0000);
        }

        // Range and beam direction.
        let nsq = p.norm_sq(Ghost(cl));
        proof {
            assert(nsq as u128 as int == nsq as int);
            assert(nsq as int <= u128::MAX as int / 4);
        }
        let range_u = int_sqrt(nsq as u128);
        proof {
            assert(range_u as int <= 2 * cl) by (nonlinear_arith)
                requires
                    (range_u as int) * (range_u as int) <= nsq as int,
                    nsq as int <= 3 * cl * cl,
                    range_u as int >= 0,
                    cl >= 1,
            ;
        }
        let range = range_u as i128;
        proof {
            assert(range as int == body_range(p));
            assert(nsq >= 1) by (nonlinear_arith)
                requires
                    nsq as int == p.x * p.x + p.y * p.y + p.z * p.z,
                    p.x != 0 || p.y != 0 || p.z != 0,
            ;
            assert(range >= 1) by (nonlinear_arith)
                requires
                    (range as int) * (range as int) <= nsq as int,
                    (nsq as int) < (range as int + 1) * (range as int + 1),
                    nsq as int >= 1,
                    range as int >= 0,
            ;
        }
        let direction = p.normalized(Ghost(cl));
        proof {
            assert(direction@ =~= body_direction(p)) by {
                assert(normalize_seq(p@) == body_direction(p));
            }
        }

        // First tangent basis vector.
        let dz: i128 = if direction.z == 0 {
            1
        } else {
            direction.z
        };
        let num = -(direction.x + direction.y) * SCALE;
        proof {
            assert(abs_le(num as int, 2 * s * s));
        }
        let qz = if dz > 0 {
            floor_div(num, dz)
        } else {
            floor_div(-num, -dz)
        };
        proof {
            assert(qz as int == crate::geometry::spec_floor_div_any(num as int, dz as int));
            assert(abs_le(qz as int, 2 * s * s)) by {
                if dz > 0 {
                    crate::linalg::lemma_div_within(num as int, dz as int, 2 * s * s);
                } else {
                    crate::linalg::lemma_div_within(-num as int, -dz as int, 2 * s * s);
                }
            }
        }
        let raw1 = Point3 { x: SCALE, y: SCALE, z: qz };
        proof {
            assert(bounded3(raw1, 2 * s * s));
            assert(3 * (2 * s * s) * (2 * s * s) <= u128::MAX as int / 4 && (2 * (2 * s * s) + 1)
                * s <= i128::MAX as int) by (nonlinear_arith)
                requires
                    s == 1024,
            ;
        }
        let base1 = raw1.normalized(Ghost(2 * s * s));
        proof {
            assert(base1@ =~= body_base1(p)) by {
                assert(raw1@ =~= seq![
                    s,
                    s,
                    crate::geometry::spec_floor_div_any(
                        -(body_direction(p)[0] + body_direction(p)[1]) * s,
                        if body_direction(p)[2] == 0 {
                            1int
                        } else {
                            body_direction(p)[2]
                        },
                    ),
                ]);
            }
        }

        // Second tangent basis vector.
        let c = base1.cross(&direction, Ghost(s), Ghost(s));
        let raw2 = Point3 {
            x: floor_div(c.x, SCALE),
            y: floor_div(c.y, SCALE),
            z: floor_div(c.z, SCALE),
        };
        proof {
            assert((2 * s) * s == 2 * s * s) by (nonlinear_arith);
            crate::geometry::lemma_floor_div_bound(c.x as int, s, 2 * s);
            crate::geometry::lemma_floor_div_bound(c.y as int, s, 2 * s);
            crate::geometry::lemma_floor_div_bound(c.z as int, s, 2 * s);
        }
        proof {
            assert(3 * (2 * s) * (2 * s) <= u128::MAX as int / 4 && (2 * (2 * s) + 1) * s
                <= i128::MAX as int) by (nonlinear_arith)
                requires
                    s == 1024,
            ;
        }
        let base2 = raw2.normalized(Ghost(2 * s));
        proof {
            assert(base2@ =~= body_base2(p)) by {
                assert(c@ =~= cross_seq(body_base1(p), body_direction(p)));
                assert(raw2@ =~= seq![
                    cross_seq(body_base1(p), body_direction(p))[0] / s,
                    cross_seq(body_base1(p), body_direction(p))[1] / s,
                    cross_seq(body_base1(p), body_direction(p))[2] / s,
                ]);
            }
        }

        // The 3 by 2 angular Jacobian.
        let t0 = Self::tangent_col(&direction, &base1, range, Ghost(p), Ghost(0));
        let t1 = Self::tangent_col(&direction, &base2, range, Ghost(p), Ghost(1));
        let mut jrows: Vec<Vec<i128>> = Vec::new();
        let mut r0: Vec<i128> = Vec::new();
        r0.push(t0.x);
        r0.push(t1.x);
        let mut r1: Vec<i128> = Vec::new();
        r1.push(t0.y);
        r1.push(t1.y);
        let mut r2: Vec<i128> = Vec::new();
        r2.push(t0.z);
        r2.push(t1.z);
        jrows.push(r0);
        jrows.push(r1);
        jrows.push(r2);
        let tangent = Matrix { rows: jrows, cols: 2 };
        proof {
            assert(tangent@ =~~= tangent_jacobian(p));
            assert(mat_bounded(tangent@, 8 * cl * s)) by {
                assert forall|i2: int, j2: int|
                    0 <= i2 < 3 && 0 <= j2 < 2 implies -(8 * cl * s) <= #[trigger] tangent@[i2][j2]
                    <= 8 * cl * s by {
                    assert(tangent@[i2][j2] == if j2 == 0 {
                        t0@[i2]
                    } else {
                        t1@[i2]
                    });
                }
            }
        }

        // Range covariance pushed through the direction, plus angular
        // covariance pushed through the tangent Jacobian.
        proof {
            assert(0 <= config.beam_err as int * config.beam_err as int
                <= 0x100_0000_0000) by (nonlinear_arith)
                requires
                    0 <= config.beam_err as int <= 0x10_0000,
            ;
        }
        let dist_cov = Uncertainty::from_element(1, config.beam_err * config.beam_err);
        let dir_col = direction.to_col();
        proof {
            assert(mat_bounded(dist_cov@, 0x100_0000_0000));
            assert(1 * s * 0x100_0000_0000 <= i128::MAX as int && 1 * (1 * s * 0x100_0000_0000) * s
                <= i128::MAX as int) by (nonlinear_arith)
                requires
                    s == 1024,
            ;
        }
        let term1 = dist_cov.forward(&dir_col, Ghost(s), Ghost(0x100_0000_0000int));
        proof {
            assert(term1@ =~~= propagate(
                direction_column(p),
                mat_const(1, 1, config.beam_err as int * config.beam_err as int),
            )) by {
                assert(dir_col@ =~~= direction_column(p));
                assert(dist_cov@ =~~= mat_const(
                    1,
                    1,
                    config.beam_err as int * config.beam_err as int,
                ));
            }
        }
        proof {
            assert(0 <= config.dept_err_sin as int * config.dept_err_sin as int
                <= 0x10_0000) by (nonlinear_arith)
                requires
                    0 <= config.dept_err_sin as int <= 1024,
            ;
        }
        let dir_cov = Uncertainty::from_diagonal_element(
            2,
            config.dept_err_sin * config.dept_err_sin,
        );
        proof {
            assert(mat_bounded(dir_cov@, 0x10_0000));
            assert(2 * (8 * cl * s) * 0x10_0000 <= i128::MAX as int && 2 * (2 * (8 * cl * s)
                * 0x10_0000) * (8 * cl * s) <= i128::MAX as int) by (nonlinear_arith)
                requires
                    s == 1024,
                    cl == 0x100_0000,
            ;
        }
        let term2 = dir_cov.forward(
            &tangent,
            Ghost(8 * cl * s),
            Ghost(0x10_0000int),
        );
        proof {
            assert(term2@ =~~= propagate(
                tangent_jacobian(p),
                mat_diag(2, config.dept_err_sin as int * config.dept_err_sin as int),
            )) by {
                assert(dir_cov@ =~~= mat_diag(
                    2,
                    config.dept_err_sin as int * config.dept_err_sin as int,
                ));
            }
        }
        proof {
            assert(1 * (1 * s * 0x100_0000_0000) * s <= 2 * (2 * (8 * cl * s) * 0x10_0000) * (8
                * cl * s) && 2 * (2 * (2 * (8 * cl * s) * 0x10_0000) * (8 * cl * s))
                <= i128::MAX as int) by (nonlinear_arith)
                requires
                    s == 1024,
                    cl == 0x100_0000,
            ;
            crate::linalg::model::lemma_mat_bounded_mono(term1@, 1 * (1 * s * 0x100_0000_0000) * s,
                2 * (2 * (8 * cl * s) * 0x10_0000) * (8 * cl * s));
        }
        let composite = term1.plus(
            &term2,
            Ghost(2 * (2 * (8 * cl * s) * 0x10_0000) * (8 * cl * s)),
        );
        proof {
            assert(composite@ =~~= body_covariance(
                p,
                config.beam_err as int,
                config.dept_err_sin as int,
            ));
        }
        Uncertained::new(point, BodyPointUncertainties { composite })
    }

    /// One column of the angular Jacobian: `range * (direction x base)`,
    /// floor-divided by `SCALE^2`.
    fn tangent_col(
        direction: &Point3,
        base: &Point3,
        range: i128,
        Ghost(p): Ghost<Point3>,
        Ghost(j): Ghost<int>,
    ) -> (r: Point3)
        requires
            bounded3(*direction, SCALE as int),
            bounded3(*base, SCALE as int),
            1 <= range as int <= 2 * (COORD_LIMIT as int),
            direction@ =~= body_direction(p),
            base@ =~= (if j == 0 {
                body_base1(p)
            } else {
                body_base2(p)
            }),
            range as int == body_range(p),
            j == 0 || j == 1,
        ensures
            r.x as int == tangent_column(p, j)[0],
            r.y as int == tangent_column(p, j)[1],
            r.z as int == tangent_column(p, j)[2],
            bounded3(r, 8 * (COORD_LIMIT as int) * (SCALE as int)),
    {
        let ghost s = SCALE as int;
        let ghost cl = COORD_LIMIT as int;
        proof {
            assert(s == 1024);
            assert(cl == 0x100_0000);
        }
        let c = direction.cross(base, Ghost(SCALE as int), Ghost(SCALE as int));
        proof {
            assert((2 * cl) * (2 * s * s) <= i128::MAX as int && s * s <= i128::MAX as int)
                by (nonlinear_arith)
                requires
                    s == 1024,
                    cl == 0x100_0000,
            ;
        }
        let sc = c.scaled(range, Ghost(2 * s * s), Ghost(2 * cl));
        let s2: i128 = SCALE * SCALE;
        let rx = floor_div(sc.x, s2);
        let ry = floor_div(sc.y, s2);
        let rz = floor_div(sc.z, s2);
        proof {
            assert(c@ =~= cross_seq(body_direction(p), if j == 0 {
                body_base1(p)
            } else {
                body_base2(p)
            }));
            assert((2 * cl) * (2 * s * s) == (4 * cl) * (s * s)) by (nonlinear_arith);
            crate::geometry::lemma_floor_div_bound(sc.x as int, s * s, 4 * cl);
            crate::geometry::lemma_floor_div_bound(sc.y as int, s * s, 4 * cl);
            crate::geometry::lemma_floor_div_bound(sc.z as int, s * s, 4 * cl);
            assert(4 * cl <= 8 * cl * s) by (nonlinear_arith)
                requires
                    cl >= 1,
                    s >= 1,
            ;
        }
        Point3 { x: rx, y: ry, z: rz }
    }
}

/// Largest body-covariance entry magnitude `from_body_point` accepts.
pub const BODY_COV_LIMIT: i128 = 0x1_0000_0000_0000_0000_0000_0000;

/// Largest pose-covariance entry magnitude `from_body_point` accepts.
pub const POSE_COV_LIMIT: i128 = 0x4000_0000_0000;

/// The body-to-world rotation: the pose rotation composed with the extrinsic
/// body-to-IMU rotation, one floor division by `SCALE` per entry.
pub open spec fn body_to_world_rotation(odom_rot: Seq<Seq<int>>, bti_rot: Seq<Seq<int>>) -> Seq<
    Seq<int>,
> {
    mat_div_floor(mat_product(odom_rot, bti_rot), SCALE as int)
}

/// The world-frame covariance of a propagated body point: the body covariance
/// pushed through the body-to-world rotation, plus the pose rotation
/// uncertainty pushed through `rotation * skew(point)`, plus the pose
/// translation uncertainty brought to the common scale.
pub open spec fn world_covariance(
    body_cov: Seq<Seq<int>>,
    odom_cov: Seq<Seq<int>>,
    odom_rot: Seq<Seq<int>>,
    bti_rot: Seq<Seq<int>>,
    p: Point3,
) -> Seq<Seq<int>> {
    let r = body_to_world_rotation(odom_rot, bti_rot);
    let j2 = mat_div_floor(mat_product(r, skew_view(p)), SCALE as int);
    mat_plus(
        mat_plus(propagate(r, body_cov), propagate(j2, sub_block(odom_cov, 0, 3))),
        mat_scaled((SCALE as int) * (SCALE as int), sub_block(odom_cov, 3, 3)),
    )
}

impl UncertainPoint<World> {
    /// Propagate an uncertain body point into the world frame through the
    /// current pose estimate, injecting the pose uncertainty.
    pub fn from_body_point(
        body_point: UncertainPoint<Body>,
        current_odom: &UncertainOdometer,
        body_to_imu: &FramedTransform<Body, Imu>,
    ) -> (r: UncertainPoint<World>)
        requires
            current_odom.wf(),
            body_to_imu.inner.wf(),
            body_point.covariance.wf(),
            mat_bounded(body_point.covariance.composite@, BODY_COV_LIMIT as int),
            mat_bounded(current_odom.covariance.composite@, POSE_COV_LIMIT as int),
            bounded3(body_point.inner.inner, COORD_LIMIT as int),
            bounded3(body_to_imu.inner.translation, COORD_LIMIT as int),
            bounded3(current_odom.isometry.inner.translation, COORD_LIMIT as int),
        ensures
            r.inner.inner.x as int == crate::frame::transformed_coord(
                current_odom.isometry.inner,
                imu_point_of(body_point.inner.inner, body_to_imu.inner),
                0,
            ),
            r.inner.inner.y as int == crate::frame::transformed_coord(
                current_odom.isometry.inner,
                imu_point_of(body_point.inner.inner, body_to_imu.inner),
                1,
            ),
            r.inner.inner.z as int == crate::frame::transformed_coord(
                current_odom.isometry.inner,
                imu_point_of(body_point.inner.inner, body_to_imu.inner),
                2,
            ),
            r.covariance.wf(),
            r.covariance@ =~~= world_covariance(
                body_point.covariance.composite@,
                current_odom.covariance.composite@,
                current_odom.isometry.inner.rotation@,
                body_to_imu.inner.rotation@,
                body_point.inner.inner,
            ),
    {
        let cov = Self::propagated_covariance(&body_point, current_odom, body_to_imu);
        let ghost cl = COORD_LIMIT as int;
        let imu_point = body_point.inner.to_imu_point(body_to_imu);
        proof {
            assert(imu_point.inner == imu_point_of(body_point.inner.inner, body_to_imu.inner));
            crate::frame::lemma_transformed_coord_bound(body_to_imu.inner,
                body_point.inner.inner, cl, cl, 0);
            crate::frame::lemma_transformed_coord_bound(body_to_imu.inner,
                body_point.inner.inner, cl, cl, 1);
            crate::frame::lemma_transformed_coord_bound(body_to_imu.inner,
                body_point.inner.inner, cl, cl, 2);
            assert(bounded3(imu_point.inner, 8 * cl));
        }
        let world_point = imu_point.to_world_point(&current_odom.isometry);
        Uncertained::new(world_point, cov)
    }

    /// The variant without pose-error injection: only the body covariance is
    /// pushed through the body-to-world rotation — used when the pose is
    /// treated as ground truth, as during map-building passes.
    pub fn from_body_point_without_pose_error(
        body_point: UncertainPoint<Body>,
        current_pose: &UncertainOdometer,
        body_to_imu: &FramedTransform<Body, Imu>,
    ) -> (r: UncertainPoint<World>)
        requires
            current_pose.wf(),
            body_to_imu.inner.wf(),
            body_point.covariance.wf(),
            mat_bounded(body_point.covariance.composite@, BODY_COV_LIMIT as int),
            bounded3(body_point.inner.inner, COORD_LIMIT as int),
            bounded3(body_to_imu.inner.translation, COORD_LIMIT as int),
            bounded3(current_pose.isometry.inner.translation, COORD_LIMIT as int),
        ensures
            r.inner.inner.x as int == crate::frame::transformed_coord(
                current_pose.isometry.inner,
                imu_point_of(body_point.inner.inner, body_to_imu.inner),
                0,
            ),
            r.inner.inner.y as int == crate::frame::transformed_coord(
                current_pose.isometry.inner,
                imu_point_of(body_point.inner.inner, body_to_imu.inner),
                1,
            ),
            r.inner.inner.z as int == crate::frame::transformed_coord(
                current_pose.isometry.inner,
                imu_point_of(body_point.inner.inner, body_to_imu.inner),
                2,
            ),
            r.covariance.wf(),
            r.covariance@ =~~= propagate(
                body_to_world_rotation(
                    current_pose.isometry.inner.rotation@,
                    body_to_imu.inner.rotation@,
                ),
                body_point.covariance.composite@,
            ),
    {
        let rot = Self::composed_rotation(current_pose, body_to_imu);
        let ghost s = SCALE as int;
        proof {
            assert(3 * (3 * s) * (BODY_COV_LIMIT as int) <= i128::MAX as int && 3 * (3 * (3 * s)
                * (BODY_COV_LIMIT as int)) * (3 * s) <= i128::MAX as int) by (nonlinear_arith)
                requires
                    s == 1024,
                    BODY_COV_LIMIT as int == 0x1_0000_0000_0000_0000_0000_0000,
            ;
        }
        let cov = body_point.covariance.composite.forward(
            &rot,
            Ghost(3 * s),
            Ghost(BODY_COV_LIMIT as int),
        );
        let ghost cl = COORD_LIMIT as int;
        let imu_point = body_point.inner.to_imu_point(body_to_imu);
        proof {
            assert(imu_point.inner == imu_point_of(body_point.inner.inner, body_to_imu.inner));
            crate::frame::lemma_transformed_coord_bound(body_to_imu.inner,
                body_point.inner.inner, cl, cl, 0);
            crate::frame::lemma_transformed_coord_bound(body_to_imu.inner,
                body_point.inner.inner, cl, cl, 1);
            crate::frame::lemma_transformed_coord_bound(body_to_imu.inner,
                body_point.inner.inner, cl, cl, 2);
            assert(bounded3(imu_point.inner, 8 * cl));
        }
        let world_point = imu_point.to_world_point(&current_pose.isometry);
        Uncertained::new(world_point, cov)
    }

    /// The full propagated world covariance of [`Self::from_body_point`].
    fn propagated_covariance(
        body_point: &UncertainPoint<Body>,
        current_odom: &UncertainOdometer,
        body_to_imu: &FramedTransform<Body, Imu>,
    ) -> (cov: Uncertainty)
        requires
            current_odom.wf(),
            body_to_imu.inner.wf(),
            body_point.covariance.wf(),
            mat_bounded(body_point.covariance.composite@, BODY_COV_LIMIT as int),
            mat_bounded(current_odom.covariance.composite@, POSE_COV_LIMIT as int),
            bounded3(body_point.inner.inner, COORD_LIMIT as int),
        ensures
            cov.wf(),
            cov@ =~~= world_covariance(
                body_point.covariance.composite@,
                current_odom.covariance.composite@,
                current_odom.isometry.inner.rotation@,
                body_to_imu.inner.rotation@,
                body_point.inner.inner,
            ),
    {
        let ghost s = SCALE as int;
        let ghost cl = COORD_LIMIT as int;
        proof {
            assert(s == 1024 && cl == 0x100_0000);
        }
        let rot = Self::composed_rotation(current_odom, body_to_imu);
        // Pose rotation uncertainty enters through rotation * skew(point).
        let sk = body_point.inner.inner.skew(Ghost(cl));
        proof {
            assert(3 * (3 * s) * cl <= i128::MAX as int) by (nonlinear_arith)
                requires
                    s == 1024,
                    cl == 0x100_0000,
            ;
        }
        let rsk = rot.times(&sk, Ghost(3 * s), Ghost(cl));
        let j2 = rsk.rescaled(SCALE, Ghost(3 * (3 * s) * cl));
        proof {
            assert forall|i2: int, j3: int|
                0 <= i2 < j2@.len() && 0 <= j3 < j2@[i2].len() implies -(9 * s * cl)
                <= #[trigger] j2@[i2][j3] <= 9 * s * cl by {
                assert(j2@[i2][j3] == rsk@[i2][j3] / s);
                assert(3 * (3 * s) * cl == (9 * cl) * s) by (nonlinear_arith);
                crate::geometry::lemma_floor_div_bound(rsk@[i2][j3], s, 9 * cl);
                assert(9 * cl <= 9 * s * cl) by (nonlinear_arith)
                    requires
                        s >= 1,
                        cl >= 1,
                ;
            }
        }
        let rot_cov = current_odom.covariance.view_rotation();
        let trans_cov = current_odom.covariance.view_translation();
        proof {
            assert(mat_bounded(rot_cov@, POSE_COV_LIMIT as int)) by {
                assert forall|i2: int, j3: int|
                    0 <= i2 < rot_cov@.len() && 0 <= j3 < rot_cov@[i2].len() implies -(
                    POSE_COV_LIMIT as int) <= #[trigger] rot_cov@[i2][j3] <= POSE_COV_LIMIT as int by {
                    assert(rot_cov@[i2][j3] == current_odom.covariance.composite@[i2][j3]);
                }
            }
            assert(mat_bounded(trans_cov@, POSE_COV_LIMIT as int)) by {
                assert forall|i2: int, j3: int|
                    0 <= i2 < trans_cov@.len() && 0 <= j3 < trans_cov@[i2].len() implies -(
                    POSE_COV_LIMIT as int) <= #[trigger] trans_cov@[i2][j3]
                    <= POSE_COV_LIMIT as int by {
                    assert(trans_cov@[i2][j3] == current_odom.covariance.composite@[i2 + 3][j3
                        + 3]);
                }
            }
        }
        proof {
            assert(3 * (3 * s) * (BODY_COV_LIMIT as int) <= i128::MAX as int && 3 * (3 * (3 * s)
                * (BODY_COV_LIMIT as int)) * (3 * s) <= i128::MAX as int) by (nonlinear_arith)
                requires
                    s == 1024,
                    BODY_COV_LIMIT as int == 0x1_0000_0000_0000_0000_0000_0000,
            ;
        }
        let term1 = body_point.covariance.composite.forward(
            &rot,
            Ghost(3 * s),
            Ghost(BODY_COV_LIMIT as int),
        );
        proof {
            assert(3 * (9 * s * cl) * (POSE_COV_LIMIT as int) <= i128::MAX as int && 3 * (3 * (9
                * s * cl) * (POSE_COV_LIMIT as int)) * (9 * s * cl) <= i128::MAX as int)
                by (nonlinear_arith)
                requires
                    s == 1024,
                    cl == 0x100_0000,
                    POSE_COV_LIMIT as int == 0x4000_0000_0000,
            ;
        }
        let term2 = rot_cov.forward(&j2, Ghost(9 * s * cl), Ghost(POSE_COV_LIMIT as int));
        proof {
            assert(s * s * (POSE_COV_LIMIT as int) <= i128::MAX as int) by (nonlinear_arith)
                requires
                    s == 1024,
                    POSE_COV_LIMIT as int == 0x4000_0000_0000,
            ;
        }
        let term3 = trans_cov.scaled(SCALE * SCALE, Ghost(POSE_COV_LIMIT as int));
        proof {
            // One common magnitude bound for the three sums.
            assert(3 * (3 * (3 * s) * (BODY_COV_LIMIT as int)) * (3 * s) <= 0x1000_0000_0000_0000_0000_0000_0000_0000
                && 3 * (3 * (9 * s * cl) * (POSE_COV_LIMIT as int)) * (9 * s * cl)
                <= 0x1000_0000_0000_0000_0000_0000_0000_0000 && 2 * 0x1000_0000_0000_0000_0000_0000_0000_0000
                + 2 * 0x1000_0000_0000_0000_0000_0000_0000_0000 <= i128::MAX as int
                && s * s * (POSE_COV_LIMIT as int) <= 2 * 0x1000_0000_0000_0000_0000_0000_0000_0000)
                by (nonlinear_arith)
                requires
                    s == 1024,
                    cl == 0x100_0000,
                    BODY_COV_LIMIT as int == 0x1_0000_0000_0000_0000_0000_0000,
                    POSE_COV_LIMIT as int == 0x4000_0000_0000,
            ;
            crate::linalg::model::lemma_mat_bounded_mono(term1@, 3 * (3 * (3 * s)
                * (BODY_COV_LIMIT as int)) * (3 * s), 0x1000_0000_0000_0000_0000_0000_0000_0000);
            crate::linalg::model::lemma_mat_bounded_mono(term2@, 3 * (3 * (9 * s * cl)
                * (POSE_COV_LIMIT as int)) * (9 * s * cl), 0x1000_0000_0000_0000_0000_0000_0000_0000);
        }
        let t12 = term1.plus(&term2, Ghost(0x1000_0000_0000_0000_0000_0000_0000_0000int));
        proof {
            crate::linalg::model::lemma_mat_bounded_mono(term3@, s * s * (POSE_COV_LIMIT as int),
                2int * 0x1000_0000_0000_0000_0000_0000_0000_0000int);
        }
        let cov = t12.plus(&term3, Ghost(2 * 0x1000_0000_0000_0000_0000_0000_0000_0000int));
        proof {
            assert(cov@ =~~= world_covariance(
                body_point.covariance.composite@,
                current_odom.covariance.composite@,
                current_odom.isometry.inner.rotation@,
                body_to_imu.inner.rotation@,
                body_point.inner.inner,
            ));
        }
        cov
    }

    /// The body-to-world rotation as an executable matrix.
    fn composed_rotation(
        current_odom: &UncertainOdometer,
        body_to_imu: &FramedTransform<Body, Imu>,
    ) -> (r: Matrix)
        requires
            current_odom.wf(),
            body_to_imu.inner.wf(),
        ensures
            r.wf(),
            r.nrows() == 3,
            r.cols == 3,
            r@ =~~= body_to_world_rotation(
                current_odom.isometry.inner.rotation@,
                body_to_imu.inner.rotation@,
            ),
            mat_bounded(r@, 3 * (SCALE as int)),
    {
        let ghost s = SCALE as int;
        let prod = current_odom.isometry.inner.rotation.times(
            &body_to_imu.inner.rotation,
            Ghost(s),
            Ghost(s),
        );
        let r = prod.rescaled(SCALE, Ghost(3 * s * s));
        proof {
            assert forall|i2: int, j3: int|
                0 <= i2 < r@.len() && 0 <= j3 < r@[i2].len() implies -(3 * s) <= #[trigger] r@[i2][j3]
                <= 3 * s by {
                assert(r@[i2][j3] == prod@[i2][j3] / s);
                assert(3 * s * s == (3 * s) * s) by (nonlinear_arith);
                crate::geometry::lemma_floor_div_bound(prod@[i2][j3], s, 3 * s);
            }
        }
        r
    }
}

/// The body point carried into the IMU frame, as a model value.
pub open spec fn imu_point_of(p: Point3, bti: crate::geometry::Isometry) -> Point3 {
    Point3 {
        x: crate::frame::transformed_coord(bti, p, 0) as i128,
        y: crate::frame::transformed_coord(bti, p, 1) as i128,
        z: crate::frame::transformed_coord(bti, p, 2) as i128,
    }
}

} // verus!
