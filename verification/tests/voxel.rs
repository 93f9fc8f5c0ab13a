//! The voxel octree map on concrete values: floor-correct indexing, the
//! rolling hash, octant partitioning, plane fitting and residual lookup.

use rust_livo2::frame::{Framed, WorldPoint};
use rust_livo2::geometry::{Point3, SCALE};
use rust_livo2::linalg::Matrix;
use rust_livo2::uncertain::{Uncertained, Uncertainty};
use rust_livo2::voxel_map::plane::{EigenBasis, Plane, PlaneUncertainties, UncertainPlane};
use rust_livo2::voxel_map::point::UncertainPoint;
use rust_livo2::voxel_map::{octant_index, Config, Octree, VoxelIndex, VoxelMap};

fn test_config() -> Config {
    Config {
        beam_err: 0,
        dept_err_sin: 0,
        sigma_num: 4096,
        planer_threshold: 0,
        max_points_num: 50,
        layer_init_threshold: vec![4, 4],
        voxel_size: 4096,
    }
}

fn world(x: i128, y: i128, z: i128) -> WorldPoint {
    Framed::new(Point3 { x, y, z })
}

fn exact_point(x: i128, y: i128, z: i128) -> UncertainPoint<rust_livo2::frame::World> {
    Uncertained::new(world(x, y, z), Uncertainty::from_element(3, 0))
}

#[test]
fn voxel_index_floors_at_negative_coordinates() {
    // A point a tenth of a unit below zero lands in voxel -1, not 0.
    let tenth = -(SCALE / 10);
    let p = world(tenth, 0, 0);
    let idx = VoxelIndex::from_point(&p, SCALE);
    assert_eq!(idx.0.inner.x, -1);
    assert_eq!(idx.0.inner.y, 0);
    assert_eq!(idx.0.inner.z, 0);
    let q = world(SCALE / 10, SCALE + 1, -SCALE);
    let idx2 = VoxelIndex::from_point(&q, SCALE);
    assert_eq!(idx2.0.inner.x, 0);
    assert_eq!(idx2.0.inner.y, 1);
    assert_eq!(idx2.0.inner.z, -1);
}

#[test]
fn hash_follows_the_rolling_polynomial() {
    let idx = VoxelIndex(Framed::new(Point3 { x: 3, y: 5, z: 7 }));
    // ((z * P) mod N + y) * P mod N + x with non-negative remainders.
    let p: i128 = 116101;
    let n: i128 = 10000000000;
    let acc1 = (7 * p).rem_euclid(n) + 5;
    let expected = (acc1 * p).rem_euclid(n) + 3;
    assert_eq!(idx.hash(), expected);
    // Indices differing only in x hash differently.
    let other = VoxelIndex(Framed::new(Point3 { x: 4, y: 5, z: 7 }));
    assert_ne!(idx.hash(), other.hash());
}

#[test]
fn octants_split_by_coordinate_signs() {
    let c = Point3 { x: 0, y: 0, z: 0 };
    assert_eq!(octant_index(&Point3 { x: 1, y: -1, z: -1 }, &c), 1);
    assert_eq!(octant_index(&Point3 { x: -1, y: 1, z: -1 }, &c), 2);
    assert_eq!(octant_index(&Point3 { x: -1, y: -1, z: 1 }, &c), 4);
    assert_eq!(octant_index(&Point3 { x: 1, y: 1, z: 1 }, &c), 7);
    // At the center counts as the positive side on each axis.
    assert_eq!(octant_index(&Point3 { x: 0, y: 0, z: 0 }, &c), 7);
}

#[test]
fn cut_partitions_points_without_loss_or_duplication() {
    let config = test_config();
    let mut node = Octree::new(world(0, 0, 0), 512, 0);
    let raw = vec![
        (100, 100, 100),
        (-100, 100, 100),
        (100, -100, 100),
        (-100, -100, -100),
        (300, 300, 300),
        (-5, -6, -7),
        (1, 2, -3),
    ];
    for (x, y, z) in raw.iter() {
        node.points.push(exact_point(*x, *y, *z));
    }
    let node = node.cut(&config);
    assert!(node.subdivided);
    assert_eq!(node.points.len(), 0);
    // Collect the union of the children's points.
    let mut collected: Vec<(i128, i128, i128)> = Vec::new();
    for slot in node.leafs.iter() {
        if let Some(c) = slot {
            assert!(!c.subdivided);
            for q in c.points.iter() {
                let p = q.value().inner;
                collected.push((p.x, p.y, p.z));
                // Every point sits in the octant of the child that holds it.
            }
        }
    }
    let mut expected = raw.clone();
    expected.sort();
    collected.sort();
    assert_eq!(collected, expected);
}

#[test]
fn coplanar_points_fit_a_plane_with_vertical_normal() {
    // Four coplanar points with zero noise: normal (0, 0, +-1), distance to
    // origin 0, and zero distance to every input point.
    let config = test_config();
    let pts = vec![
        exact_point(0, 0, 0),
        exact_point(SCALE, 0, 0),
        exact_point(0, SCALE, 0),
        exact_point(SCALE, SCALE, 0),
    ];
    // The sample covariance of these points is diagonal, so its exact
    // eigendecomposition is the identity basis with the diagonal as values.
    let eigen = EigenBasis {
        vectors: Matrix::diagonal(3, SCALE),
        values: vec![262144, 262144, 0],
    };
    let plane = UncertainPlane::new_plane(&pts, &eigen, &config).expect("planar input must fit");
    assert_eq!(plane.value().normal.x, 0);
    assert_eq!(plane.value().normal.y, 0);
    assert_eq!(plane.value().normal.z, SCALE);
    assert_eq!(plane.value().distance_to_origin, 0);
    assert_eq!(plane.value().points_count, 4);
    for p in pts.iter() {
        assert_eq!(plane.distance_to(&p.value()), 0);
    }
}

#[test]
fn plane_fit_rejects_below_the_planarity_threshold() {
    let mut config = test_config();
    config.planer_threshold = 1;
    let pts = vec![
        exact_point(0, 0, 0),
        exact_point(SCALE, 0, 0),
        exact_point(0, SCALE, 0),
        exact_point(SCALE, SCALE, 0),
    ];
    let eigen = EigenBasis {
        vectors: Matrix::diagonal(3, SCALE),
        values: vec![262144, 262144, 0],
    };
    // The smallest eigenvalue 0 is below the threshold 1: no plane, never a
    // default one.
    assert!(UncertainPlane::new_plane(&pts, &eigen, &config).is_none());
}

#[test]
fn sigma_grows_with_either_covariance() {
    // sigma_to is monotonically non-decreasing as either the plane covariance
    // or the queried point's covariance is scaled up.
    let plane_of = |cov: i128| -> UncertainPlane {
        Uncertained::new(
            Plane {
                normal: Point3 { x: 0, y: 0, z: SCALE },
                center: world(0, 0, 0),
                points_count: 4,
                radius: SCALE,
                distance_to_origin: 0,
            },
            PlaneUncertainties { composite: Uncertainty::from_diagonal_element(6, cov) },
        )
    };
    let query_of = |cov: i128| -> UncertainPoint<rust_livo2::frame::World> {
        Uncertained::new(world(2 * SCALE, 0, 3), Uncertainty::from_diagonal_element(3, cov))
    };
    let base = plane_of(1000).sigma_to(&query_of(1000));
    let more_plane = plane_of(3000).sigma_to(&query_of(1000));
    let more_point = plane_of(1000).sigma_to(&query_of(3000));
    assert!(base >= 0);
    assert!(more_plane >= base);
    assert!(more_point >= base);
}

#[test]
fn map_extends_fits_and_answers_residuals() {
    // End to end on the map: commit coplanar points, answer the fit request
    // with the exact eigendecomposition of its moment matrix, and look up
    // residuals of points exactly on the fitted plane.
    let config = test_config();
    let mut map = VoxelMap::new();
    let pts = vec![
        exact_point(256, 256, 0),
        exact_point(768, 256, 0),
        exact_point(256, 768, 0),
        exact_point(768, 768, 0),
    ];
    map.extend(pts, &config);
    let req = map.pending_fit(&config).expect("four points reach the layer threshold");
    assert_eq!(req.count, 4);
    // The moment matrix of this synthetic input is diagonal.
    assert_eq!(req.moments.at(0, 0), 65536);
    assert_eq!(req.moments.at(1, 1), 65536);
    assert_eq!(req.moments.at(2, 2), 0);
    assert_eq!(req.moments.at(0, 1), 0);
    let eigen = EigenBasis {
        vectors: Matrix::diagonal(3, SCALE),
        values: vec![req.moments.at(0, 0), req.moments.at(1, 1), req.moments.at(2, 2)],
    };
    map.apply_fit(&req, &eigen, &config);
    assert!(map.pending_fit(&config).is_none());
    let query = vec![exact_point(300, 300, 0), exact_point(700, 500, 0)];
    let residuals = map.build_residual(&query, &config);
    assert_eq!(residuals.len(), 2);
    for t in residuals.iter() {
        assert_eq!(t.distance, 0);
        assert_eq!(t.normal.z, SCALE);
    }
}

#[test]
fn capacity_policy_discards_beyond_the_cap_only_when_planar() {
    let config = test_config();
    let mut node = Octree::new(world(0, 0, 0), 512, 0);
    for i in 0..4 {
        node = node.insert(exact_point(i, i, 0), &config);
    }
    assert_eq!(node.points.len(), 4);
    // Make the node planar, fill to the configured capacity, and watch the
    // next point be discarded while the plane stands for the surface.
    let eigen = EigenBasis {
        vectors: Matrix::diagonal(3, SCALE),
        values: vec![1000, 1000, 0],
    };
    node = node.create_plane(&eigen, &config);
    assert!(node.plane.is_some());
    for i in 0..46 {
        node = node.insert(exact_point(10 + i, 0, 0), &config);
    }
    assert_eq!(node.points.len(), 50);
    node = node.insert(exact_point(999, 999, 0), &config);
    assert_eq!(node.points.len(), 50);
}

#[test]
fn hashes_are_distinct_over_a_small_box() {
    // The practical coordinate range must keep the hash injective; spot-check
    // a whole box of neighbouring indices.
    let mut seen: Vec<i128> = Vec::new();
    for x in -1..2i128 {
        for y in -1..2i128 {
            for z in -1..2i128 {
                seen.push(VoxelIndex(Framed::new(Point3 { x, y, z })).hash());
            }
        }
    }
    let n = seen.len();
    seen.sort();
    seen.dedup();
    assert_eq!(seen.len(), n);
}

#[test]
fn radius_is_the_floor_root_of_the_largest_eigenvalue() {
    let config = test_config();
    let pts = vec![
        exact_point(0, 0, 0),
        exact_point(SCALE, 0, 0),
        exact_point(0, SCALE, 0),
        exact_point(SCALE, SCALE, 0),
    ];
    let eigen = EigenBasis {
        vectors: Matrix::diagonal(3, SCALE),
        values: vec![262144, 262144, 0],
    };
    let plane = UncertainPlane::new_plane(&pts, &eigen, &config).expect("planar input must fit");
    // floor(sqrt(262144)) = 512.
    assert_eq!(plane.value().radius, 512);
}

#[test]
fn insert_descends_into_children_after_a_cut() {
    let config = test_config();
    let mut node = Octree::new(world(0, 0, 0), 512, 0);
    for i in 1..5 {
        node.points.push(exact_point(i, i, i));
    }
    let node = node.cut(&config);
    // A new point in the all-negative octant creates that child lazily.
    let node = node.insert(exact_point(-9, -9, -9), &config);
    assert_eq!(node.points.len(), 0);
    let child = node.leafs[0].as_ref().expect("lazily created child");
    assert_eq!(child.points.len(), 1);
    assert_eq!(child.points[0].value().inner.x, -9);
}

#[test]
fn outliers_are_dropped_from_the_residual_set() {
    // With zero mapped uncertainty the variance of a residual is zero, so
    // only points exactly on the plane survive the sigma test; an off-plane
    // point is rejected silently rather than failing the lookup.
    let config = test_config();
    let mut map = VoxelMap::new();
    map.extend(
        vec![
            exact_point(256, 256, 0),
            exact_point(768, 256, 0),
            exact_point(256, 768, 0),
            exact_point(768, 768, 0),
        ],
        &config,
    );
    let req = map.pending_fit(&config).expect("threshold reached");
    let eigen = EigenBasis {
        vectors: Matrix::diagonal(3, SCALE),
        values: vec![req.moments.at(0, 0), req.moments.at(1, 1), req.moments.at(2, 2)],
    };
    map.apply_fit(&req, &eigen, &config);
    let query = vec![exact_point(300, 300, 100), exact_point(400, 400, 0)];
    let residuals = map.build_residual(&query, &config);
    assert_eq!(residuals.len(), 1);
    assert_eq!(residuals[0].point.inner.x, 400);
}

#[test]
fn voxel_boundaries_belong_to_the_upper_voxel() {
    let idx = VoxelIndex::from_point(&world(-SCALE, SCALE, 2 * SCALE - 1), SCALE);
    assert_eq!(idx.0.inner.x, -1);
    assert_eq!(idx.0.inner.y, 1);
    assert_eq!(idx.0.inner.z, 1);
}

#[test]
fn accumulating_node_keeps_absorbing_without_a_plane() {
    let config = test_config();
    let mut node = Octree::new(world(0, 0, 0), 512, 0);
    // Well past the configured planar capacity, but with no plane fitted the
    // node keeps accumulating.
    for i in 0..60 {
        node = node.insert(exact_point(i, 0, 0), &config);
    }
    assert_eq!(node.points.len(), 60);
}

#[test]
fn extend_creates_roots_centered_in_their_voxel() {
    let config = test_config();
    let mut map = VoxelMap::new();
    map.extend(vec![exact_point(100, 200, 300)], &config);
    let idx = VoxelIndex::from_point(&world(100, 200, 300), config.voxel_size);
    let h = idx.hash();
    let root = map.trees.get(&h).expect("the point's voxel exists after the commit");
    // Root cube centered in the voxel, child offset a quarter of the edge,
    // accumulating state with exactly the one point.
    assert_eq!(root.center.inner, Point3 { x: 2048, y: 2048, z: 2048 });
    assert_eq!(root.tree_size, config.voxel_size / 4);
    assert_eq!(root.layer, 0);
    assert!(root.plane.is_none());
    assert!(!root.subdivided);
    assert_eq!(root.points.len(), 1);
    assert_eq!(root.points[0].value().inner.x, 100);
}
