//! Compile-time tagging of values by coordinate frame.
//!
//! A frame tag is a zero-sized marker type attached to a value at compile
//! time; it carries no runtime representation. A framed transform is tagged
//! by its source and destination frames and is the only way to move a framed
//! value between frames, so frame-mismatched arithmetic is rejected by the
//! type checker rather than at runtime.

use vstd::prelude::*;

use crate::geometry::{bounded3, rotated_coord, Isometry, Point3, COORD_LIMIT, SCALE};

verus! {

/// A point tagged with the frame it is expressed in.
pub type FramedPoint<F> = Framed<Point3, F>;

/// A transform tagged by its source and destination frames: a
/// `Framed<Isometry, (Body, Imu)>` can only carry body-frame points into the
/// IMU frame.
pub type FramedTransform<Src, Dst> = Framed<Isometry, (Src, Dst)>;

pub type WorldPoint = FramedPoint<World>;

pub type ImuPoint = FramedPoint<Imu>;

pub type BodyPoint = FramedPoint<Body>;

/// The fixed world frame that the map lives in.
#[derive(Clone, Copy)]
pub struct World {}

/// The frame of the inertial measurement unit.
#[derive(Clone, Copy)]
pub struct Imu {}

/// The sensor frame, where the point cloud is collected.
#[derive(Clone, Copy)]
pub struct Body {}

/// A value of type `T` tagged with the coordinate frame `F` it is expressed
/// in. The tag is zero-sized: `Framed<T, F>` has the runtime representation
/// of a bare `T`.
pub struct Framed<T, F> {
    pub inner: T,
    pub frame: core::marker::PhantomData<F>,
}

impl<T: Copy, F> Clone for Framed<T, F> {
    fn clone(&self) -> (r: Self)
        ensures
            r == *self,
    {
        Framed { inner: self.inner, frame: core::marker::PhantomData }
    }
}

impl<T: Copy, F> Copy for Framed<T, F> {}

impl<T, F> Framed<T, F> {
    pub fn new(inner: T) -> (r: Self)
        ensures
            r.inner == inner,
    {
        Framed { inner, frame: core::marker::PhantomData }
    }

    /// Same as [`Framed::new`], with the frame given as a value for the
    /// callers that find that more readable.
    pub fn new_with_frame(inner: T, frame: F) -> (r: Self)
        ensures
            r.inner == inner,
    {
        let _ = frame;
        Framed { inner, frame: core::marker::PhantomData }
    }
}

/// What one coordinate of a transformed point is: the rotated coordinate
/// (with its one floor division by `SCALE`) plus the translation.
pub open spec fn transformed_coord(tf: Isometry, p: Point3, i: int) -> int {
    rotated_coord(tf.rotation@, p, i) + if i == 0 {
        tf.translation.x as int
    } else if i == 1 {
        tf.translation.y as int
    } else {
        tf.translation.z as int
    }
}

/// A transformed coordinate of a bounded point under a bounded transform is
/// bounded: the rotated part is a floor quotient of a bounded product.
pub proof fn lemma_transformed_coord_bound(tf: Isometry, p: Point3, c: int, tb: int, i: int)
    requires
        tf.wf(),
        c >= 0,
        tb >= 0,
        bounded3(p, c),
        bounded3(tf.translation, tb),
        0 <= i < 3,
    ensures
        crate::geometry::abs_le(transformed_coord(tf, p, i), 3 * c + tb),
{
    let s = SCALE as int;
    let num = tf.rotation@[i][0] * p.x + tf.rotation@[i][1] * p.y + tf.rotation@[i][2] * p.z;
    crate::linalg::model::lemma_mul_bound(tf.rotation@[i][0], p.x as int, s, c);
    crate::linalg::model::lemma_mul_bound(tf.rotation@[i][1], p.y as int, s, c);
    crate::linalg::model::lemma_mul_bound(tf.rotation@[i][2], p.z as int, s, c);
    assert(s * c + s * c + s * c == (3 * c) * s) by (nonlinear_arith);
    crate::geometry::lemma_floor_div_bound(num, s, 3 * c);
}

impl<F> Framed<Point3, F> {
    /// Move the point to the frame `To` through a transform typed by its
    /// exact source and destination frames.
    pub fn transform_with_isometry<To>(
        &self,
        tf: &Framed<Isometry, (F, To)>,
    ) -> (r: Framed<Point3, To>)
        requires
            tf.inner.wf(),
            bounded3(self.inner, 8 * (COORD_LIMIT as int)),
            bounded3(tf.inner.translation, COORD_LIMIT as int),
        ensures
            r.inner.x as int == transformed_coord(tf.inner, self.inner, 0),
            r.inner.y as int == transformed_coord(tf.inner, self.inner, 1),
            r.inner.z as int == transformed_coord(tf.inner, self.inner, 2),
            bounded3(r.inner, 25 * (COORD_LIMIT as int) + 1),
    {
        let ghost b = 8 * (COORD_LIMIT as int);
        let ghost tb = COORD_LIMIT as int;
        proof {
            assert(3 * (SCALE as int) * b + 1 <= i128::MAX as int && 3 * b + 1 + tb
                <= i128::MAX as int) by (nonlinear_arith)
                requires
                    SCALE as int == 1024,
                    b == 8 * 0x100_0000,
                    tb == 0x100_0000,
                    COORD_LIMIT as int == 0x100_0000,
            ;
        }
        let p = tf.inner.apply(&self.inner, Ghost(b), Ghost(tb));
        Framed::new(p)
    }
}

impl Framed<Point3, Body> {
    /// Into the IMU frame, through the (fixed, extrinsic) body-to-IMU
    /// transform.
    pub fn to_imu_point(&self, body_to_imu: &Framed<Isometry, (Body, Imu)>) -> (r: ImuPoint)
        requires
            body_to_imu.inner.wf(),
            bounded3(self.inner, 8 * (COORD_LIMIT as int)),
            bounded3(body_to_imu.inner.translation, COORD_LIMIT as int),
        ensures
            r.inner.x as int == transformed_coord(body_to_imu.inner, self.inner, 0),
            r.inner.y as int == transformed_coord(body_to_imu.inner, self.inner, 1),
            r.inner.z as int == transformed_coord(body_to_imu.inner, self.inner, 2),
            bounded3(r.inner, 25 * (COORD_LIMIT as int) + 1),
    {
        self.transform_with_isometry(body_to_imu)
    }
}

impl Framed<Point3, Imu> {
    /// Into the world frame, through the estimated IMU-to-world pose.
    pub fn to_world_point(&self, imu_to_world: &Framed<Isometry, (Imu, World)>) -> (r: WorldPoint)
        requires
            imu_to_world.inner.wf(),
            bounded3(self.inner, 8 * (COORD_LIMIT as int)),
            bounded3(imu_to_world.inner.translation, COORD_LIMIT as int),
        ensures
            r.inner.x as int == transformed_coord(imu_to_world.inner, self.inner, 0),
            r.inner.y as int == transformed_coord(imu_to_world.inner, self.inner, 1),
            r.inner.z as int == transformed_coord(imu_to_world.inner, self.inner, 2),
            bounded3(r.inner, 25 * (COORD_LIMIT as int) + 1),
    {
        self.transform_with_isometry(imu_to_world)
    }
}

} // verus!
