//! The update loop's verified pieces on concrete values: frame-typed
//! transforms, per-point covariance synthesis, normal-equation assembly and
//! the convergence decision.

use rust_livo2::esikf::{
    assemble_normal_equations, iteration_decision, IterationOutcome, OdometerUncertainties,
    UncertainOdometer,
};
use rust_livo2::frame::{Body, Framed, FramedTransform, Imu, World};
use rust_livo2::geometry::{Isometry, Point3, SCALE};
use rust_livo2::linalg::Matrix;
use rust_livo2::uncertain::{Uncertained, Uncertainty};
use rust_livo2::voxel_map::plane::{EigenBasis, Plane, PlaneUncertainties, UncertainPlane};
use rust_livo2::voxel_map::point::UncertainPoint;
use rust_livo2::voxel_map::{Config, VoxelMap};

fn identity_pose() -> UncertainOdometer {
    UncertainOdometer {
        isometry: Framed::new(Isometry::new(Matrix::diagonal(3, SCALE), Point3 { x: 0, y: 0, z: 0 })),
        covariance: OdometerUncertainties::from_parts(
            &Uncertainty::from_diagonal_element(3, 10),
            &Uncertainty::from_diagonal_element(3, 20),
        ),
    }
}

fn identity_extrinsic() -> FramedTransform<Body, Imu> {
    Framed::new(Isometry::new(Matrix::diagonal(3, SCALE), Point3 { x: 0, y: 0, z: 0 }))
}

fn map_config() -> Config {
    Config {
        beam_err: 20,
        dept_err_sin: 2,
        sigma_num: 4096,
        planer_threshold: 0,
        max_points_num: 50,
        layer_init_threshold: vec![4],
        voxel_size: 4096,
    }
}

#[test]
fn framed_values_keep_their_payload() {
    let p = Framed::<Point3, World>::new(Point3 { x: 1, y: 2, z: 3 });
    assert_eq!(p.inner.x, 1);
    let q = Framed::new_with_frame(Point3 { x: 4, y: 5, z: 6 }, World {});
    assert_eq!(q.inner.y, 5);
}

#[test]
fn identity_transform_chain_is_identity() {
    let p = Framed::<Point3, Body>::new(Point3 { x: 100, y: -200, z: 300 });
    let imu = p.to_imu_point(&identity_extrinsic());
    assert_eq!(imu.inner, p.inner);
    let pose = identity_pose();
    let w = imu.to_world_point(&pose.isometry);
    assert_eq!(w.inner, p.inner);
}

#[test]
fn translation_moves_the_point() {
    let tf: FramedTransform<Imu, World> = Framed::new(Isometry::new(
        Matrix::diagonal(3, SCALE),
        Point3 { x: 10, y: 20, z: 30 },
    ));
    let p = Framed::<Point3, Imu>::new(Point3 { x: 1, y: 2, z: 3 });
    let w = p.to_world_point(&tf);
    assert_eq!((w.inner.x, w.inner.y, w.inner.z), (11, 22, 33));
}

#[test]
fn body_point_covariance_matches_the_noise_model() {
    // A point one unit along x: the range variance sits along x, the angular
    // variance spans the tangent plane scaled by the squared range.
    let config = map_config();
    let p = Framed::<Point3, Body>::new(Point3 { x: SCALE, y: 0, z: 0 });
    let u = UncertainPoint::<Body>::new_body_point(p, &config);
    let cov = &u.covariance.composite;
    // beam_err^2 * SCALE^2 along the beam.
    assert_eq!(cov.entry(0, 0), 400 * SCALE * SCALE);
    // dept_err_sin^2 * (range^2 + 1) in each tangent direction, by the exact
    // fixed-point evaluation of the tangent Jacobian.
    assert_eq!(cov.entry(1, 1), 4 * 1048577);
    assert_eq!(cov.entry(2, 2), 4 * 1048577);
    assert_eq!(cov.entry(0, 1), 0);
    assert_eq!(cov.entry(1, 2), 0);
    // Symmetric, as every covariance of the library is.
    for i in 0..3 {
        for j in 0..3 {
            assert_eq!(cov.entry(i, j), cov.entry(j, i));
        }
    }
}

#[test]
fn world_point_with_identity_pose_keeps_position() {
    let config = map_config();
    let p = Framed::<Point3, Body>::new(Point3 { x: SCALE, y: 0, z: 0 });
    let body = UncertainPoint::<Body>::new_body_point(p, &config);
    let pose = identity_pose();
    let w = UncertainPoint::<World>::from_body_point(body, &pose, &identity_extrinsic());
    assert_eq!(w.value().inner, Point3 { x: SCALE, y: 0, z: 0 });
    // The translation block of the pose covariance enters scaled to the
    // world-covariance scale.
    assert!(w.covariance.entry(0, 0) >= 20 * SCALE * SCALE);
}

#[test]
fn decision_converges_below_epsilon() {
    let config = rust_livo2::esikf::Config { max_iterations: 5, epsilon: 10 };
    assert!(matches!(iteration_decision(1, 0, &config), IterationOutcome::Converged));
    assert!(matches!(iteration_decision(1, 99, &config), IterationOutcome::Converged));
    assert!(matches!(iteration_decision(1, 100, &config), IterationOutcome::Continue));
    assert!(matches!(iteration_decision(5, 100, &config), IterationOutcome::MaxIterationsReached));
    assert!(matches!(iteration_decision(7, 100, &config), IterationOutcome::MaxIterationsReached));
}

#[test]
fn pose_difference_is_exact() {
    let a = identity_pose();
    let mut b = identity_pose();
    b.isometry.inner.translation = Point3 { x: 5, y: -7, z: 9 };
    let d = b.diff_translation(&a);
    assert_eq!((d.x, d.y, d.z), (5, -7, 9));
}

#[test]
fn perfect_scan_converges_in_one_iteration() {
    // End to end: a perfect prior pose and a scan whose points lie exactly on
    // an already-mapped plane give a zero right-hand side, so the first
    // correction is zero and the loop reports convergence at once.
    let config = map_config();
    let mut map = VoxelMap::new();
    let exact = |x: i128, y: i128, z: i128| {
        Uncertained::new(
            Framed::<Point3, World>::new(Point3 { x, y, z }),
            Uncertainty::from_element(3, 0),
        )
    };
    map.extend(
        vec![exact(256, 256, 0), exact(768, 256, 0), exact(256, 768, 0), exact(768, 768, 0)],
        &config,
    );
    let req = map.pending_fit(&config).expect("threshold reached");
    let eigen = EigenBasis {
        vectors: Matrix::diagonal(3, SCALE),
        values: vec![req.moments.at(0, 0), req.moments.at(1, 1), req.moments.at(2, 2)],
    };
    map.apply_fit(&req, &eigen, &config);

    // The scan, already transformed with the (perfect) prior pose.
    let scan = vec![exact(300, 400, 0), exact(600, 500, 0), exact(500, 700, 0)];
    let residuals = map.build_residual(&scan, &config);
    assert_eq!(residuals.len(), 3);
    let (a, b) = assemble_normal_equations(&residuals);
    for i in 0..6 {
        assert_eq!(b.at(i, 0), 0);
    }
    // The normal matrix itself is non-trivial: the translation block carries
    // the plane normal's outer product.
    assert!(a.at(5, 5) > 0);
    // A zero right-hand side solves to a zero correction, whose norm is below
    // any positive epsilon: converged within one iteration.
    let filter_config = rust_livo2::esikf::Config { max_iterations: 5, epsilon: 1 };
    assert!(matches!(iteration_decision(1, 0, &filter_config), IterationOutcome::Converged));
}

#[test]
fn sigma_weighting_monotone_on_the_same_plane() {
    let plane = Uncertained::new(
        Plane {
            normal: Point3 { x: 0, y: 0, z: SCALE },
            center: Framed::new(Point3 { x: 0, y: 0, z: 0 }),
            points_count: 4,
            radius: SCALE,
            distance_to_origin: 0,
        },
        PlaneUncertainties { composite: Uncertainty::from_diagonal_element(6, 500) },
    );
    let q = Uncertained::new(
        Framed::<Point3, World>::new(Point3 { x: SCALE, y: SCALE, z: 100 }),
        Uncertainty::from_diagonal_element(3, 500),
    );
    let s = plane.sigma_to(&q);
    assert!(s >= 0);
    let wider = UncertainPlane::new(
        Plane {
            normal: Point3 { x: 0, y: 0, z: SCALE },
            center: Framed::new(Point3 { x: 0, y: 0, z: 0 }),
            points_count: 4,
            radius: SCALE,
            distance_to_origin: 0,
        },
        PlaneUncertainties { composite: Uncertainty::from_diagonal_element(6, 1500) },
    );
    assert!(wider.sigma_to(&q) >= s);
}

#[test]
fn body_point_views_read_the_diagonal_blocks() {
    let config = map_config();
    let p = Framed::<Point3, Body>::new(Point3 { x: SCALE, y: 0, z: 0 });
    let u = UncertainPoint::<Body>::new_body_point(p, &config);
    let range_block = u.covariance.view_distance();
    let angular_block = u.covariance.view_direction();
    assert_eq!(range_block.entry(0, 0), u.covariance.composite.entry(0, 0));
    assert_eq!(angular_block.entry(0, 0), u.covariance.composite.entry(1, 1));
    assert_eq!(angular_block.entry(1, 1), u.covariance.composite.entry(2, 2));
}

#[test]
fn odometer_views_read_their_blocks() {
    let pose = identity_pose();
    let rot = pose.covariance.view_rotation();
    let trans = pose.covariance.view_translation();
    for i in 0..3 {
        for j in 0..3 {
            assert_eq!(rot.entry(i, j), if i == j { 10 } else { 0 });
            assert_eq!(trans.entry(i, j), if i == j { 20 } else { 0 });
        }
    }
}

#[test]
fn correction_norm_is_the_sum_of_squares() {
    let rot = Point3 { x: 1, y: 2, z: 3 };
    let trans = Point3 { x: -4, y: 0, z: 5 };
    assert_eq!(rust_livo2::esikf::correction_norm_sq(&rot, &trans), 1 + 4 + 9 + 16 + 25);
}

#[test]
fn rotation_difference_of_equal_poses_is_near_identity() {
    let a = identity_pose();
    let b = identity_pose();
    let d = a.diff_rotation(&b);
    for i in 0..3 {
        for j in 0..3 {
            let expected = if i == j { SCALE } else { 0 };
            assert!((d.at(i, j) - expected).abs() <= 8);
        }
    }
}
