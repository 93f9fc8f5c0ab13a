//! Perception back-end of a LiDAR-inertial odometry stack: an error-state
//! iterated Kalman filter that fuses ranging measurements against an
//! incrementally built planar voxel map, with explicit propagation of
//! measurement and pose uncertainty.
//!
//! All quantities are carried as fixed-point integers: a scalar is an `i128`
//! holding `value * SCALE`. Every operation of the library is exact integer
//! arithmetic, with each rescaling division stated explicitly in the
//! contracts. The callers choose the scale and perform the conversion from
//! whatever real-valued representation they use; the handful of computations
//! that genuinely need real arithmetic (a symmetric eigendecomposition, the
//! Kalman gain solve, the rotation exponential) are performed by the caller
//! and handed in as plain fixed-point values.

pub mod esikf;
pub mod frame;
pub mod geometry;
pub mod linalg;
pub mod uncertain;
pub mod utils;
pub mod voxel_map;

pub use frame::{Body, Framed, Imu, World};
