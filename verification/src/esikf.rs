//! The error-state iterated Kalman filter's state and per-iteration logic.
//!
//! The filter refines an IMU-to-world pose against point-to-plane residuals.
//! Everything that decides or assembles is here and verified: stacking the
//! weighted normal equations, the convergence test, and the pose difference.
//! The one step that needs real arithmetic — solving the gain equation
//! `K = (H^T W H + S_prior^-1)^-1 H^T W` and the rotation exponential — is
//! performed by the caller on the exact integer matrices handed out, and the
//! corrected pose is handed back as plain fixed-point values.

use vstd::prelude::*;

use crate::frame::FramedTransform;
use crate::frame::{Imu, World};
use crate::geometry::{abs_le, bounded3, floor_div, Point3, SCALE};
use crate::linalg::model::lemma_mul_bound;
use crate::linalg::Matrix;
use crate::uncertain::Uncertainty;
use crate::voxel_map::ResidualTerm;

verus! {

/// Configuration of the update loop.
pub struct Config {
    /// Hard cap on the number of iterations; the loop never runs past it.
    pub max_iterations: u32,
    /// Convergence threshold on the correction norm, in fixed-point scale.
    pub epsilon: i128,
}

/// The composite (rotation, translation) uncertainty of a pose: one 6 by 6
/// block-diagonal-by-construction covariance, rotation in the leading 3 by 3
/// block, translation in the trailing one, with a read view for each.
pub struct OdometerUncertainties {
    pub composite: Uncertainty,
}

impl OdometerUncertainties {
    pub open spec fn wf(&self) -> bool {
        &&& self.composite.wf()
        &&& self.composite.dim() == 6
    }

    /// Stack independent rotation and translation blocks into the composite.
    pub fn from_parts(rotation: &Uncertainty, translation: &Uncertainty) -> (r: Self)
        requires
            rotation.wf(),
            rotation.dim() == 3,
            translation.wf(),
            translation.dim() == 3,
        ensures
            r.wf(),
            r.composite@ =~~= crate::linalg::model::block_pair(rotation@, translation@),
    {
        OdometerUncertainties { composite: rotation.stacked_with(translation) }
    }

    /// Read view of the rotation block.
    pub fn view_rotation(&self) -> (r: Uncertainty)
        requires
            self.wf(),
        ensures
            r.wf(),
            r.dim() == 3,
            r@ =~~= crate::linalg::model::sub_block(self.composite@, 0, 3),
    {
        self.composite.view_block(0, 3)
    }

    /// Read view of the translation block.
    pub fn view_translation(&self) -> (r: Uncertainty)
        requires
            self.wf(),
        ensures
            r.wf(),
            r.dim() == 3,
            r@ =~~= crate::linalg::model::sub_block(self.composite@, 3, 3),
    {
        self.composite.view_block(3, 3)
    }
}

/// The estimated pose: an isometry from the IMU frame to the world frame,
/// with its composite (rotation, translation) uncertainty.
pub struct UncertainOdometer {
    /// Estimated isometry, from IMU frame to world frame.
    pub isometry: FramedTransform<Imu, World>,
    /// Odometer covariance.
    pub covariance: OdometerUncertainties,
}

impl UncertainOdometer {
    pub open spec fn wf(&self) -> bool {
        &&& self.isometry.inner.wf()
        &&& self.covariance.wf()
    }

    /// The rotation part of the estimate.
    pub fn rotation(&self) -> (r: &Matrix)
        ensures
            r == &self.isometry.inner.rotation,
    {
        &self.isometry.inner.rotation
    }

    /// Difference of the translation parts, exact.
    pub fn diff_translation(&self, other: &Self) -> (r: Point3)
        requires
            bounded3(self.isometry.inner.translation, crate::geometry::COORD_LIMIT as int),
            bounded3(other.isometry.inner.translation, crate::geometry::COORD_LIMIT as int),
        ensures
            r.x as int == self.isometry.inner.translation.x - other.isometry.inner.translation.x,
            r.y as int == self.isometry.inner.translation.y - other.isometry.inner.translation.y,
            r.z as int == self.isometry.inner.translation.z - other.isometry.inner.translation.z,
    {
        self.isometry.inner.translation.minus(
            &other.isometry.inner.translation,
            Ghost(crate::geometry::COORD_LIMIT as int),
        )
    }

    /// The relative rotation `other^T * self`, one floor division by `SCALE`
    /// per entry. Its axis-angle extraction is real arithmetic and is left to
    /// the caller. Of two equal rotations the result sits within the
    /// near-orthogonality slack of `SCALE` times the identity: the relative
    /// rotation of a pose against itself is the identity up to rounding.
    pub fn diff_rotation(&self, other: &Self) -> (r: Matrix)
        requires
            self.wf(),
            other.wf(),
        ensures
            r.wf(),
            r.nrows() == 3,
            r.cols == 3,
            r@ =~~= crate::linalg::model::mat_div_floor(
                crate::linalg::model::mat_product(
                    crate::linalg::model::mat_transpose(other.isometry.inner.rotation@),
                    self.isometry.inner.rotation@,
                ),
                SCALE as int,
            ),
            other.isometry.inner.rotation@ == self.isometry.inner.rotation@ ==> forall|i: int, j: int|
                0 <= i < 3 && 0 <= j < 3 ==> abs_le(
                    #[trigger] r@[i][j] - (if i == j {
                        SCALE as int
                    } else {
                        0int
                    }),
                    8,
                ),
    {
        let ot = other.isometry.inner.rotation.transposed();
        let prod = ot.times(
            &self.isometry.inner.rotation,
            Ghost(SCALE as int),
            Ghost(SCALE as int),
        );
        let r = prod.rescaled(SCALE, Ghost(3 * (SCALE as int) * (SCALE as int)));
        proof {
            let s = SCALE as int;
            let rot = self.isometry.inner.rotation@;
            if other.isometry.inner.rotation@ == rot {
                assert forall|i: int, j: int| 0 <= i < 3 && 0 <= j < 3 implies abs_le(
                    #[trigger] r@[i][j] - (if i == j {
                        s
                    } else {
                        0int
                    }),
                    8,
                ) by {
                    assert(crate::linalg::model::width(rot) == 3);
                    assert(prod@[i][j] == crate::linalg::model::dot(
                        crate::linalg::model::mat_transpose(rot)[i],
                        crate::linalg::model::column(rot, j),
                    ));
                    assert(crate::linalg::model::mat_transpose(rot)[i]
                        =~= crate::linalg::model::column(rot, i));
                    crate::linalg::model::lemma_dot3(
                        crate::linalg::model::column(rot, i),
                        crate::linalg::model::column(rot, j),
                    );
                    assert(prod@[i][j] == crate::geometry::gram_entry(rot, i, j));
                    assert(r@[i][j] == prod@[i][j] / s);
                    assert(abs_le(crate::geometry::gram_entry(rot, i, j) - (if i == j {
                        s * s
                    } else {
                        0int
                    }), 8 * s));
                    if i == j {
                        assert((s - 8) * s <= prod@[i][j] && prod@[i][j] <= (s + 8) * s)
                            by (nonlinear_arith)
                            requires
                                s * s - 8 * s <= prod@[i][j] <= s * s + 8 * s,
                        ;
                        crate::geometry::lemma_floor_div_range(prod@[i][j], s, s - 8, s + 8);
                    } else {
                        crate::geometry::lemma_floor_div_bound(prod@[i][j], s, 8);
                    }
                }
            }
        }
        r
    }
}

/// A stream of successive pose estimates produced by the update loop: each
/// item is the refined odometer of one iteration.
pub trait KalmanFilterIterator: Iterator<Item = UncertainOdometer> {

}

/// Outcome of one iteration's convergence test.
pub enum IterationOutcome {
    /// Neither bound reached: linearize and solve again.
    Continue,
    /// The correction norm fell below the configured epsilon.
    Converged,
    /// The configured iteration cap was reached; the best estimate stands.
    MaxIterationsReached,
}

/// The convergence decision after iteration `iteration` (1-based) produced a
/// correction of squared norm `correction_norm_sq` (fixed-point scale
/// squared). The loop stops when the correction norm falls below the
/// configured epsilon or the iteration count reaches the cap — it never runs
/// past the cap.
pub fn iteration_decision(iteration: u32, correction_norm_sq: i128, config: &Config) -> (r: IterationOutcome)
    requires
        correction_norm_sq >= 0,
        config.epsilon >= 0,
        (config.epsilon as int) * (config.epsilon as int) <= i128::MAX as int,
    ensures
        r == IterationOutcome::Converged <==> correction_norm_sq < config.epsilon
            * config.epsilon,
        r == IterationOutcome::MaxIterationsReached <==> !(correction_norm_sq < config.epsilon
            * config.epsilon) && iteration >= config.max_iterations,
        r == IterationOutcome::Continue <==> !(correction_norm_sq < config.epsilon
            * config.epsilon) && iteration < config.max_iterations,
{
    proof {
        lemma_mul_bound(config.epsilon as int, config.epsilon as int, config.epsilon as int,
            config.epsilon as int);
    }
    if correction_norm_sq < config.epsilon * config.epsilon {
        IterationOutcome::Converged
    } else if iteration >= config.max_iterations {
        IterationOutcome::MaxIterationsReached
    } else {
        IterationOutcome::Continue
    }
}

/// Squared norm of a 6-dimensional correction split into its rotation and
/// translation halves, the quantity the convergence test compares against
/// the squared epsilon.
pub fn correction_norm_sq(rot: &Point3, trans: &Point3) -> (r: i128)
    requires
        bounded3(*rot, crate::geometry::COORD_LIMIT as int),
        bounded3(*trans, crate::geometry::COORD_LIMIT as int),
    ensures
        r as int == rot.x * rot.x + rot.y * rot.y + rot.z * rot.z + trans.x * trans.x + trans.y
            * trans.y + trans.z * trans.z,
        r >= 0,
{
    let ghost b = crate::geometry::COORD_LIMIT as int;
    proof {
        assert(3 * b * b + 3 * b * b <= i128::MAX as int) by (nonlinear_arith)
            requires
                b == 0x100_0000,
        ;
    }
    let a = rot.norm_sq(Ghost(b));
    let c = trans.norm_sq(Ghost(b));
    a + c
}

/// The per-point row of the measurement Jacobian: the rotation block is
/// `normal^T * skew(point - center) / SCALE`, the translation block is the
/// plane normal itself.
pub open spec fn residual_row(t: ResidualTerm, j: int) -> int {
    let dx = t.point.inner.x - t.center.inner.x;
    let dy = t.point.inner.y - t.center.inner.y;
    let dz = t.point.inner.z - t.center.inner.z;
    if j == 0 {
        (t.normal.y * dz - t.normal.z * dy) / (SCALE as int)
    } else if j == 1 {
        (t.normal.z * dx - t.normal.x * dz) / (SCALE as int)
    } else if j == 2 {
        (t.normal.x * dy - t.normal.y * dx) / (SCALE as int)
    } else if j == 3 {
        t.normal.x as int
    } else if j == 4 {
        t.normal.y as int
    } else {
        t.normal.z as int
    }
}

/// The weight of one residual: the reciprocal of its variance in fixed
/// point, with the smallest positive variance substituted for a vanishing
/// one (a perfectly certain residual cannot be weighted infinitely).
pub open spec fn spec_weight(t: ResidualTerm) -> int {
    let s4 = ((SCALE as int) * (SCALE as int)) * ((SCALE as int) * (SCALE as int));
    s4 / (if t.sigma < 1 {
        1int
    } else {
        t.sigma as int
    })
}

/// Entry `(i, j)` of the weighted normal matrix `H^T W H` over the residual
/// set: the sum of `w * h_i * h_j` over the terms.
pub open spec fn normal_matrix_entry(ts: Seq<ResidualTerm>, i: int, j: int) -> int
    decreases ts.len(),
{
    if ts.len() == 0 {
        0
    } else {
        normal_matrix_entry(ts.drop_last(), i, j) + spec_weight(ts.last()) * residual_row(
            ts.last(),
            i,
        ) * residual_row(ts.last(), j)
    }
}

/// Entry `i` of the weighted residual vector `H^T W r`: the sum of
/// `w * h_i * distance` over the terms.
pub open spec fn rhs_entry(ts: Seq<ResidualTerm>, i: int) -> int
    decreases ts.len(),
{
    if ts.len() == 0 {
        0
    } else {
        rhs_entry(ts.drop_last(), i) + spec_weight(ts.last()) * residual_row(ts.last(), i)
            * (ts.last().distance as int)
    }
}

/// What the assembly accepts of one residual term: the bounds that
/// `VoxelMap::build_residual` establishes at runtime.
pub open spec fn term_wf(t: ResidualTerm) -> bool {
    &&& abs_le(t.distance as int, 7 * (crate::geometry::COORD_LIMIT as int))
    &&& t.sigma >= 0
    &&& bounded3(t.normal, SCALE as int)
    &&& bounded3(t.point.inner, crate::geometry::COORD_LIMIT as int)
    &&& bounded3(t.center.inner, crate::geometry::COORD_LIMIT as int)
}

/// Exact zero residuals produce an exactly zero right-hand side: with a
/// perfect prior and points exactly on mapped planes, the solved correction
/// of the first iteration is the solution of a homogeneous system.
pub proof fn lemma_zero_residuals_zero_rhs(ts: Seq<ResidualTerm>, i: int)
    requires
        forall|t: int| 0 <= t < ts.len() ==> (#[trigger] ts[t]).distance == 0,
    ensures
        rhs_entry(ts, i) == 0,
    decreases ts.len(),
{
    if ts.len() > 0 {
        lemma_zero_residuals_zero_rhs(ts.drop_last(), i);
        assert(spec_weight(ts.last()) * residual_row(ts.last(), i) * (ts.last().distance as int)
            == 0) by (nonlinear_arith)
            requires
                ts.last().distance as int == 0,
        ;
    }
}

/// Assemble the weighted normal equations of one iteration: the 6 by 6
/// matrix `H^T W H` and the 6 by 1 vector `H^T W r`, where row `i` of `H` is
/// `[normal^T skew(point - center) / SCALE, normal^T]` and `W` holds the
/// reciprocal variances. The gain solve on these exact integer matrices is
/// real arithmetic and is left to the caller.
pub fn assemble_normal_equations(residuals: &Vec<ResidualTerm>) -> (r: (Matrix, Matrix))
    requires
        residuals@.len() <= 0x2_0000,
        forall|t: int| 0 <= t < residuals@.len() ==> term_wf(#[trigger] residuals@[t]),
    ensures
        r.0.wf(),
        r.0.nrows() == 6,
        r.0.cols == 6,
        forall|i: int, j: int|
            0 <= i < 6 && 0 <= j < 6 ==> #[trigger] r.0@[i][j] == normal_matrix_entry(
                residuals@,
                i,
                j,
            ),
        r.1.wf(),
        r.1.nrows() == 6,
        r.1.cols == 1,
        forall|i: int| 0 <= i < 6 ==> #[trigger] r.1@[i][0] == rhs_entry(residuals@, i),
{
    let ghost cl = crate::geometry::COORD_LIMIT as int;
    let ghost s = SCALE as int;
    let ghost hb = 4 * cl + 1;
    let ghost s4 = (s * s) * (s * s);
    let ghost tbm = s4 * hb * hb;
    let ghost tbv = s4 * hb * (7 * cl);
    proof {
        assert(s == 1024 && cl == 0x100_0000);
    }
    let mut a = Matrix::zeros(6, 6);
    let mut b = Matrix::zeros(6, 1);
    let n = residuals.len();
    let mut t: usize = 0;
    proof {
        assert(residuals@.take(0).len() == 0);
        assert(forall|i: int, j: int|
            0 <= i < 6 && 0 <= j < 6 ==> normal_matrix_entry(residuals@.take(0), i, j) == 0);
        assert(forall|i: int| 0 <= i < 6 ==> rhs_entry(residuals@.take(0), i) == 0);
    }
    while t < n
        invariant
            t <= n,
            n == residuals@.len(),
            n <= 0x2_0000,
            forall|t2: int| 0 <= t2 < residuals@.len() ==> term_wf(#[trigger] residuals@[t2]),
            cl == crate::geometry::COORD_LIMIT as int,
            s == SCALE as int,
            hb == 4 * cl + 1,
            s4 == (s * s) * (s * s),
            tbm == s4 * hb * hb,
            tbv == s4 * hb * (7 * cl),
            a.wf(),
            a.nrows() == 6,
            a.cols == 6,
            b.wf(),
            b.nrows() == 6,
            b.cols == 1,
            forall|i: int, j: int|
                0 <= i < 6 && 0 <= j < 6 ==> #[trigger] a@[i][j] == normal_matrix_entry(
                    residuals@.take(t as int),
                    i,
                    j,
                ),
            forall|i: int| 0 <= i < 6 ==> #[trigger] b@[i][0] == rhs_entry(
                residuals@.take(t as int),
                i,
            ),
            forall|i: int, j: int|
                0 <= i < 6 && 0 <= j < 6 ==> abs_le(#[trigger] a@[i][j], t as int * tbm),
            forall|i: int| 0 <= i < 6 ==> abs_le(#[trigger] b@[i][0], t as int * tbv),
        decreases n - t,
    {
        let term = &residuals[t];
        let h = residual_jacobian_row(term);
        let w = residual_weight(term);
        proof {
            assert(residuals@.take(t as int + 1) =~= residuals@.take(t as int).push(
                residuals@[t as int],
            ));
            assert(residuals@.take(t as int + 1).drop_last() =~= residuals@.take(t as int));
            lemma_term_bounds(t as int, n as int, tbm, tbv, cl, s);
        }
        let mut arows: Vec<Vec<i128>> = Vec::new();
        let mut brows: Vec<Vec<i128>> = Vec::new();
        let mut i: usize = 0;
        while i < 6
            invariant
                i <= 6,
                t < n,
                n == residuals@.len(),
                n <= 0x2_0000,
                cl == crate::geometry::COORD_LIMIT as int,
                s == SCALE as int,
                hb == 4 * cl + 1,
                s4 == (s * s) * (s * s),
                tbm == s4 * hb * hb,
                tbv == s4 * hb * (7 * cl),
                term_wf(residuals@[t as int]),
                term == residuals@[t as int],
                a.wf(),
                a.nrows() == 6,
                a.cols == 6,
                b.wf(),
                b.nrows() == 6,
                b.cols == 1,
                h@.len() == 6,
                forall|i2: int|
                    0 <= i2 < 6 ==> #[trigger] h@[i2] as int == residual_row(
                        residuals@[t as int],
                        i2,
                    ),
                forall|i2: int| 0 <= i2 < 6 ==> abs_le(#[trigger] h@[i2] as int, hb),
                0 <= w as int <= s4,
                w as int == spec_weight(residuals@[t as int]),
                forall|i2: int, j: int|
                    0 <= i2 < 6 && 0 <= j < 6 ==> #[trigger] a@[i2][j] == normal_matrix_entry(
                        residuals@.take(t as int),
                        i2,
                        j,
                    ),
                forall|i2: int| 0 <= i2 < 6 ==> #[trigger] b@[i2][0] == rhs_entry(
                    residuals@.take(t as int),
                    i2,
                ),
                forall|i2: int, j: int|
                    0 <= i2 < 6 && 0 <= j < 6 ==> abs_le(#[trigger] a@[i2][j], t as int * tbm),
                forall|i2: int| 0 <= i2 < 6 ==> abs_le(#[trigger] b@[i2][0], t as int * tbv),
                arows@.len() == i,
                forall|i2: int| 0 <= i2 < i ==> (#[trigger] arows@[i2])@.len() == 6,
                forall|i2: int, j: int|
                    0 <= i2 < i && 0 <= j < 6 ==> #[trigger] arows@[i2]@[j] as int
                        == normal_matrix_entry(residuals@.take(t as int + 1), i2, j),
                forall|i2: int, j: int|
                    0 <= i2 < i && 0 <= j < 6 ==> abs_le(
                        #[trigger] arows@[i2]@[j] as int,
                        (t as int + 1) * tbm,
                    ),
                brows@.len() == i,
                forall|i2: int| 0 <= i2 < i ==> (#[trigger] brows@[i2])@.len() == 1,
                forall|i2: int|
                    0 <= i2 < i ==> #[trigger] brows@[i2]@[0] as int == rhs_entry(
                        residuals@.take(t as int + 1),
                        i2,
                    ),
                forall|i2: int|
                    0 <= i2 < i ==> abs_le(#[trigger] brows@[i2]@[0] as int, (t as int + 1) * tbv),
            decreases 6 - i,
        {
            proof {
                assert(residuals@.take(t as int + 1) =~= residuals@.take(t as int).push(
                    residuals@[t as int],
                ));
                assert(residuals@.take(t as int + 1).drop_last() =~= residuals@.take(t as int));
                lemma_term_bounds(t as int, n as int, tbm, tbv, cl, s);
            }
            let mut row: Vec<i128> = Vec::new();
            let mut j: usize = 0;
            while j < 6
                invariant
                    j <= 6,
                    i < 6,
                    t < n,
                    n == residuals@.len(),
                    n <= 0x2_0000,
                    cl == crate::geometry::COORD_LIMIT as int,
                    s == SCALE as int,
                    hb == 4 * cl + 1,
                    s4 == (s * s) * (s * s),
                    tbm == s4 * hb * hb,
                    tbv == s4 * hb * (7 * cl),
                    term_wf(residuals@[t as int]),
                    term == residuals@[t as int],
                    a.wf(),
                    a.nrows() == 6,
                    a.cols == 6,
                    h@.len() == 6,
                    forall|i2: int|
                        0 <= i2 < 6 ==> #[trigger] h@[i2] as int == residual_row(
                            residuals@[t as int],
                            i2,
                        ),
                    forall|i2: int| 0 <= i2 < 6 ==> abs_le(#[trigger] h@[i2] as int, hb),
                    0 <= w as int <= s4,
                    w as int == spec_weight(residuals@[t as int]),
                    forall|i2: int, j2: int|
                        0 <= i2 < 6 && 0 <= j2 < 6 ==> #[trigger] a@[i2][j2] == normal_matrix_entry(
                            residuals@.take(t as int),
                            i2,
                            j2,
                        ),
                    forall|i2: int, j2: int|
                        0 <= i2 < 6 && 0 <= j2 < 6 ==> abs_le(#[trigger] a@[i2][j2], t as int
                            * tbm),
                    row@.len() == j,
                    forall|j2: int|
                        0 <= j2 < j ==> #[trigger] row@[j2] as int == normal_matrix_entry(
                            residuals@.take(t as int + 1),
                            i as int,
                            j2,
                        ),
                    forall|j2: int|
                        0 <= j2 < j ==> abs_le(#[trigger] row@[j2] as int, (t as int + 1) * tbm),
                decreases 6 - j,
            {
                proof {
                    assert(residuals@.take(t as int + 1) =~= residuals@.take(t as int).push(
                        residuals@[t as int],
                    ));
                    assert(residuals@.take(t as int + 1).drop_last() =~= residuals@.take(
                        t as int,
                    ));
                    lemma_term_bounds(t as int, n as int, tbm, tbv, cl, s);
                    lemma_mul_bound(w as int, h@[i as int] as int, s4, hb);
                    lemma_mul_bound(w as int * h@[i as int] as int, h@[j as int] as int, s4 * hb,
                        hb);
                }
                let prev = a.at(i, j);
                row.push(prev + w * h[i] * h[j]);
                j = j + 1;
            }
            arows.push(row);
            let mut brow: Vec<i128> = Vec::new();
            proof {
                lemma_mul_bound(w as int, h@[i as int] as int, s4, hb);
                lemma_mul_bound(w as int * h@[i as int] as int, term.distance as int, s4 * hb,
                    7 * cl);
            }
            let prevb = b.at(i, 0);
            brow.push(prevb + w * h[i] * term.distance);
            brows.push(brow);
            i = i + 1;
        }
        a = Matrix { rows: arows, cols: 6 };
        b = Matrix { rows: brows, cols: 1 };
        t = t + 1;
    }
    proof {
        assert(residuals@.take(n as int) =~= residuals@);
    }
    (a, b)
}

/// The bounds of one accumulation step: the step's term stays within the
/// per-term bound and the running sum within the count times it.
proof fn lemma_term_bounds(t: int, n: int, tbm: int, tbv: int, cl: int, s: int)
    requires
        0 <= t < n,
        n <= 0x2_0000,
        cl == 0x100_0000,
        s == 1024,
        tbm == ((s * s) * (s * s)) * (4 * cl + 1) * (4 * cl + 1),
        tbv == ((s * s) * (s * s)) * (4 * cl + 1) * (7 * cl),
    ensures
        tbm >= 0,
        tbv >= 0,
        t * tbm + tbm == (t + 1) * tbm,
        t * tbv + tbv == (t + 1) * tbv,
        (t + 1) * tbm <= 0x2_0000 * tbm,
        (t + 1) * tbv <= 0x2_0000 * tbv,
        0x2_0000 * tbm < i128::MAX as int,
        0x2_0000 * tbv < i128::MAX as int,
        ((s * s) * (s * s)) * (4 * cl + 1) <= tbm,
        ((s * s) * (s * s)) * (4 * cl + 1) * (4 * cl + 1) <= tbm,
        ((s * s) * (s * s)) * (4 * cl + 1) * (7 * cl) <= tbv,
{
    assert(tbm >= 0 && tbv >= 0 && t * tbm + tbm == (t + 1) * tbm && t * tbv + tbv == (t + 1)
        * tbv && (t + 1) * tbm <= 0x2_0000 * tbm && (t + 1) * tbv <= 0x2_0000 * tbv && 0x2_0000
        * tbm < i128::MAX as int && 0x2_0000 * tbv < i128::MAX as int && ((s * s) * (s * s)) * (4
        * cl + 1) <= tbm && ((s * s) * (s * s)) * (4 * cl + 1) * (4 * cl + 1) <= tbm && ((s * s)
        * (s * s)) * (4 * cl + 1) * (7 * cl) <= tbv) by (nonlinear_arith)
        requires
            0 <= t < n,
            n <= 0x2_0000,
            cl == 0x100_0000,
            s == 1024,
            tbm == ((s * s) * (s * s)) * (4 * cl + 1) * (4 * cl + 1),
            tbv == ((s * s) * (s * s)) * (4 * cl + 1) * (7 * cl),
    ;
}

/// The measurement Jacobian row of one residual, as executable values.
fn residual_jacobian_row(t: &ResidualTerm) -> (h: Vec<i128>)
    requires
        term_wf(*t),
    ensures
        h@.len() == 6,
        forall|i: int| 0 <= i < 6 ==> #[trigger] h@[i] as int == residual_row(*t, i),
        forall|i: int|
            0 <= i < 6 ==> abs_le(#[trigger] h@[i] as int, 4 * (crate::geometry::COORD_LIMIT as int)
                + 1),
{
    let ghost cl = crate::geometry::COORD_LIMIT as int;
    let ghost s = SCALE as int;
    proof {
        assert(s == 1024 && cl == 0x100_0000);
    }
    let d = t.point.inner.minus(&t.center.inner, Ghost(cl));
    let c = t.normal.cross(&d, Ghost(s), Ghost(2 * cl));
    proof {
        assert((2 * (s * (2 * cl))) == (4 * cl) * s) by (nonlinear_arith);
        assert(2 * s * (2 * cl) == 2 * (s * (2 * cl))) by (nonlinear_arith);
        crate::geometry::lemma_floor_div_bound(c.x as int, s, 4 * cl);
        crate::geometry::lemma_floor_div_bound(c.y as int, s, 4 * cl);
        crate::geometry::lemma_floor_div_bound(c.z as int, s, 4 * cl);
    }
    let mut h: Vec<i128> = Vec::new();
    h.push(floor_div(c.x, SCALE));
    h.push(floor_div(c.y, SCALE));
    h.push(floor_div(c.z, SCALE));
    h.push(t.normal.x);
    h.push(t.normal.y);
    h.push(t.normal.z);
    proof {
        assert(h@[0] as int == residual_row(*t, 0));
        assert(h@[1] as int == residual_row(*t, 1));
        assert(h@[2] as int == residual_row(*t, 2));
    }
    h
}

/// The weight of one residual, as an executable value.
fn residual_weight(t: &ResidualTerm) -> (w: i128)
    requires
        term_wf(*t),
    ensures
        w as int == spec_weight(*t),
        0 <= w as int <= ((SCALE as int) * (SCALE as int)) * ((SCALE as int) * (SCALE as int)),
{
    let s2 = SCALE * SCALE;
    let s4 = s2 * s2;
    let den: i128 = if t.sigma < 1 {
        1
    } else {
        t.sigma
    };
    let w = floor_div(s4, den);
    proof {
        crate::geometry::lemma_floor_div_bound(s4 as int, den as int, s4 as int);
        assert(w >= 0) by (nonlinear_arith)
            requires
                s4 as int >= 0,
                den >= 1,
                (w as int) * (den as int) <= s4 as int,
                (s4 as int) < (w as int + 1) * (den as int),
        ;
    }
    w
}

} // verus!
