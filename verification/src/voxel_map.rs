//! The spatially hashed octree voxel map.
//!
//! World space is cut into fixed-size voxels addressed by an integer index
//! triple; each voxel owns one octree that accumulates raw points, fits
//! planar surfels once a per-depth threshold is reached, and subdivides when
//! a fit fails. Point-to-plane residual lookup descends the same structure.

pub mod plane;
pub mod point;
pub mod point_to_plane;

use vstd::prelude::*;

use crate::frame::{Framed, World, WorldPoint};
use crate::geometry::{abs_le, bounded3, floor_div, int_sqrt, Point3, COORD_LIMIT, COV_LIMIT, SCALE};
use crate::linalg::model::lemma_mul_bound;
use crate::voxel_map::plane::EigenBasis;
use vstd::arithmetic::div_mod::{
    lemma_fundamental_div_mod, lemma_fundamental_div_mod_converse_div,
};

verus! {

/// Multiplier of the polynomial rolling hash over voxel indices.
pub const HASH_P: i128 = 116101;

/// Modulus of the polynomial rolling hash.
pub const HASH_CAP: i128 = 10000000000;

/// Hard cap on the raw points one octree node may hold, whatever the
/// configured capacity: keeps the plane-fit arithmetic inside `i128`.
pub const MAX_NODE_POINTS: usize = 1024;

/// Configuration of the voxel map.
pub struct Config {
    /// Range noise standard deviation, fixed-point scale.
    pub beam_err: i128,
    /// Sine of the angular noise standard deviation, fixed-point scale.
    pub dept_err_sin: i128,
    /// Outlier rejection multiple of sigma, fixed-point scale.
    pub sigma_num: i128,
    /// Smallest eigenvalue (covariance scale) below which a fit is rejected.
    pub planer_threshold: i128,
    /// Capacity of raw points per node once a plane has been fitted.
    pub max_points_num: usize,
    /// Points required to attempt a plane fit, per octree depth; its length
    /// is the subdivision depth cap.
    pub layer_init_threshold: Vec<usize>,
    /// Edge length of a root voxel cube, fixed-point scale.
    pub voxel_size: i128,
}

impl Config {
    pub open spec fn wf(&self) -> bool {
        &&& 0 <= self.beam_err as int <= 0x10_0000
        &&& 0 <= self.dept_err_sin as int <= SCALE as int
        &&& 0 <= self.sigma_num as int <= 0x10_0000
        &&& self.planer_threshold >= 0
        &&& 1 <= self.max_points_num <= MAX_NODE_POINTS
        &&& self.layer_init_threshold@.len() >= 1
        &&& self.layer_init_threshold@.len() <= 64
        &&& forall|i: int|
            0 <= i < self.layer_init_threshold@.len() ==> 1 <= #[trigger] self.layer_init_threshold@[i]
                <= MAX_NODE_POINTS
        &&& 4 <= self.voxel_size as int <= COORD_LIMIT as int
    }

    /// The subdivision depth cap: one threshold per layer.
    pub fn max_layer(&self) -> (r: usize)
        ensures
            r == self.layer_init_threshold@.len(),
    {
        self.layer_init_threshold.len()
    }

    /// The fit threshold for a node at depth `layer`; depths past the table
    /// use its last entry.
    pub fn threshold_at(&self, layer: usize) -> (r: usize)
        requires
            self.wf(),
        ensures
            r == spec_threshold_at(self, layer as int),
            1 <= r <= MAX_NODE_POINTS,
    {
        let n = self.layer_init_threshold.len();
        if layer < n {
            self.layer_init_threshold[layer]
        } else {
            self.layer_init_threshold[n - 1]
        }
    }
}

/// The fit threshold for depth `layer`.
pub open spec fn spec_threshold_at(config: &Config, layer: int) -> int {
    let n = config.layer_init_threshold@.len() as int;
    if layer < n {
        config.layer_init_threshold@[layer] as int
    } else {
        config.layer_init_threshold@[n - 1] as int
    }
}

/// The integer triple of the voxel containing a world point: the floor of
/// the point's coordinates divided by the voxel size.
pub struct VoxelIndex(pub Framed<Point3, World>);

impl VoxelIndex {
    /// Floor-correct also at negative coordinates: a point just below zero
    /// lands in the voxel with index -1, not 0.
    pub fn from_point(point: &WorldPoint, voxel_size: i128) -> (r: VoxelIndex)
        requires
            voxel_size > 0,
            bounded3(point.inner, COORD_LIMIT as int),
        ensures
            r.0.inner.x as int == point.inner.x as int / voxel_size as int,
            r.0.inner.y as int == point.inner.y as int / voxel_size as int,
            r.0.inner.z as int == point.inner.z as int / voxel_size as int,
            (r.0.inner.x as int) * (voxel_size as int) <= point.inner.x as int,
            (point.inner.x as int) < (r.0.inner.x as int + 1) * (voxel_size as int),
            (r.0.inner.y as int) * (voxel_size as int) <= point.inner.y as int,
            (point.inner.y as int) < (r.0.inner.y as int + 1) * (voxel_size as int),
            (r.0.inner.z as int) * (voxel_size as int) <= point.inner.z as int,
            (point.inner.z as int) < (r.0.inner.z as int + 1) * (voxel_size as int),
            bounded3(r.0.inner, COORD_LIMIT as int),
    {
        let x = floor_div(point.inner.x, voxel_size);
        let y = floor_div(point.inner.y, voxel_size);
        let z = floor_div(point.inner.z, voxel_size);
        proof {
            crate::linalg::lemma_div_within(point.inner.x as int, voxel_size as int,
                COORD_LIMIT as int);
            crate::linalg::lemma_div_within(point.inner.y as int, voxel_size as int,
                COORD_LIMIT as int);
            crate::linalg::lemma_div_within(point.inner.z as int, voxel_size as int,
                COORD_LIMIT as int);
        }
        VoxelIndex(Framed::new(Point3 { x, y, z }))
    }

    /// The polynomial rolling hash over the index triple; the voxel map is
    /// keyed by this value directly, so two indices with equal hashes
    /// silently share one octree — the practical coordinate range must keep
    /// the hash injective.
    pub fn hash(&self) -> (h: i128)
        requires
            bounded3(self.0.inner, COORD_LIMIT as int),
        ensures
            h as int == spec_voxel_hash(self.0.inner),
    {
        let ix = self.0.inner;
        proof {
            lemma_mul_bound(ix.z as int, HASH_P as int, COORD_LIMIT as int, HASH_P as int);
            assert((COORD_LIMIT as int) * (HASH_P as int) < 0x1_0000_0000_0000_0000)
                by (nonlinear_arith)
                requires
                    COORD_LIMIT as int == 0x100_0000,
                    HASH_P as int == 116101,
            ;
        }
        let acc1 = euclid_rem(ix.z * HASH_P, HASH_CAP) + ix.y;
        proof {
            lemma_mul_bound(acc1 as int, HASH_P as int, HASH_CAP as int + COORD_LIMIT as int,
                HASH_P as int);
            assert((HASH_CAP as int + COORD_LIMIT as int) * (HASH_P as int)
                < 0x1_0000_0000_0000_0000_0000) by (nonlinear_arith)
                requires
                    COORD_LIMIT as int == 0x100_0000,
                    HASH_P as int == 116101,
                    HASH_CAP as int == 10000000000,
            ;
        }
        let acc2 = euclid_rem(acc1 * HASH_P, HASH_CAP) + ix.x;
        acc2
    }
}

/// The polynomial rolling hash `((z * P) mod N + y) * P mod N + x` over a
/// voxel index, with the non-negative (Euclidean) remainder.
pub open spec fn spec_voxel_hash(ix: Point3) -> int {
    let acc1 = (ix.z * (HASH_P as int)) % (HASH_CAP as int) + ix.y;
    let acc2 = (acc1 * (HASH_P as int)) % (HASH_CAP as int) + ix.x;
    acc2
}

/// Two indices that differ only in `x` hash differently: the final hash adds
/// `x` after everything else, so equal hashes with equal `y` and `z` force
/// equal `x`.
pub proof fn lemma_hash_injective_in_x(a: Point3, b: Point3)
    requires
        a.y == b.y,
        a.z == b.z,
        spec_voxel_hash(a) == spec_voxel_hash(b),
    ensures
        a.x == b.x,
{
}

/// The domain bound under which the hash is proved injective layer by layer:
/// indices at one `z` whose `y` stays within this bound (and whose `x` stays
/// within half the hash multiplier) cannot collide. Outside a verified
/// domain a collision silently merges two voxels' contents — the map is keyed
/// by the hash value itself, and its commit and residual contracts say so.
pub const HASH_INJECTIVE_Y_BOUND: i128 = 43064;

/// Half the hash multiplier: the `x` bound of the verified injective domain.
pub const HASH_INJECTIVE_X_BOUND: i128 = 58050;

/// Injectivity of the rolling hash over an explicit bounded domain: two
/// indices with the same `z`, `y` within `HASH_INJECTIVE_Y_BOUND` and `x`
/// within `HASH_INJECTIVE_X_BOUND` hash equal only when they are equal. The
/// `y` window keeps the second-stage products within one modulus of each
/// other and the `x` window keeps offsets below the multiplier, so the
/// base-`HASH_P` digits are recoverable.
pub proof fn lemma_hash_injective_in_slab(a: Point3, b: Point3)
    requires
        a.z == b.z,
        abs_le(a.y as int, HASH_INJECTIVE_Y_BOUND as int),
        abs_le(b.y as int, HASH_INJECTIVE_Y_BOUND as int),
        abs_le(a.x as int, HASH_INJECTIVE_X_BOUND as int),
        abs_le(b.x as int, HASH_INJECTIVE_X_BOUND as int),
        spec_voxel_hash(a) == spec_voxel_hash(b),
    ensures
        a == b,
{
    let pm = HASH_P as int;
    let m = HASH_CAP as int;
    let e = (a.z * pm) % m;
    let ua = e + a.y;
    let ub = e + b.y;
    lemma_fundamental_div_mod(ua * pm, m);
    lemma_fundamental_div_mod(ub * pm, m);
    let qa = (ua * pm) / m;
    let qb = (ub * pm) / m;
    let ra = (ua * pm) % m;
    let rb = (ub * pm) % m;
    assert(spec_voxel_hash(a) == ra + a.x);
    assert(spec_voxel_hash(b) == rb + b.x);
    // (ua - ub) * pm == m * (qa - qb) + (b.x - a.x); the y window keeps the
    // left side within one modulus, so the quotients agree, and the x window
    // keeps the remainder offset below the multiplier.
    assert(a.y == b.y && a.x == b.x) by (nonlinear_arith)
        requires
            pm == 116101,
            m == 10000000000,
            ua == e + a.y,
            ub == e + b.y,
            ua * pm == m * qa + ra,
            ub * pm == m * qb + rb,
            0 <= ra < m,
            0 <= rb < m,
            ra + a.x == rb + b.x,
            -43064 <= a.y as int <= 43064,
            -43064 <= b.y as int <= 43064,
            -58050 <= a.x as int <= 58050,
            -58050 <= b.x as int <= 58050,
    ;
}

/// The non-negative remainder of `a` modulo `m > 0`.
fn euclid_rem(a: i128, m: i128, ) -> (r: i128)
    requires
        m > 0,
        -(i128::MAX as int) + m as int <= a as int,
        a as int + m as int <= i128::MAX as int,
    ensures
        r as int == (a as int) % (m as int),
        0 <= r < m,
{
    let q = floor_div(a, m);
    proof {
        lemma_fundamental_div_mod(a as int, m as int);
        assert(a as int == (m as int) * (a as int / m as int) + (a as int) % (m as int));
        assert((q as int) * (m as int) == (m as int) * (a as int / m as int)) by (nonlinear_arith)
            requires
                q as int == a as int / m as int,
        ;
        assert(0 <= (a as int) % (m as int) < m as int);
        assert((a as int) - (m as int) < (q as int) * (m as int));
        assert((q as int) * (m as int) <= a as int);
    }
    a - q * m
}

/// Largest covariance entry magnitude of a stored point: keeps the plane
/// covariance sum inside `i128` over a full node.
pub const PT_COV_LIMIT: i128 = 0x100_0000_0000_0000;

/// What a stored point must satisfy: bounded coordinates and a well-formed,
/// bounded 3 by 3 positional covariance.
pub open spec fn stored_point_wf(p: point::UncertainPoint<World>) -> bool {
    &&& bounded3(p.inner.inner, COORD_LIMIT as int)
    &&& p.covariance.wf()
    &&& p.covariance.dim() == 3
    &&& crate::linalg::model::mat_bounded(p.covariance@, PT_COV_LIMIT as int)
}

/// The octant of `p` relative to a center `c`: one bit per axis, set when the
/// coordinate is at or above the center's.
pub open spec fn octant_of(p: Point3, c: Point3) -> int {
    (if p.x >= c.x {
        1int
    } else {
        0int
    }) + 2 * (if p.y >= c.y {
        1int
    } else {
        0int
    }) + 4 * (if p.z >= c.z {
        1int
    } else {
        0int
    })
}

/// The points of `s` that fall in octant `k` of center `c`.
pub open spec fn octant_filter(
    s: Seq<point::UncertainPoint<World>>,
    c: Point3,
    k: int,
) -> Seq<point::UncertainPoint<World>> {
    s.filter(|q: point::UncertainPoint<World>| octant_of(q.inner.inner, c) == k)
}

/// The center of child `k` of a node at `center` with child offset `ts`.
pub open spec fn child_center_of(center: Point3, ts: int, k: int) -> Point3 {
    Point3 {
        x: (if k % 2 == 1 {
            center.x + ts
        } else {
            center.x - ts
        }) as i128,
        y: (if (k / 2) % 2 == 1 {
            center.y + ts
        } else {
            center.y - ts
        }) as i128,
        z: (if (k / 4) % 2 == 1 {
            center.z + ts
        } else {
            center.z - ts
        }) as i128,
    }
}

/// The child offset of the next layer: half the parent's, at least 1.
pub open spec fn child_size_of(ts: int) -> int {
    if ts >= 2 {
        ts / 2
    } else {
        1
    }
}

/// The octant index of a point relative to a center.
pub fn octant_index(p: &Point3, c: &Point3) -> (r: usize)
    ensures
        r as int == octant_of(*p, *c),
        r < 8,
{
    let bx: usize = if p.x >= c.x {
        1
    } else {
        0
    };
    let by: usize = if p.y >= c.y {
        1
    } else {
        0
    };
    let bz: usize = if p.z >= c.z {
        1
    } else {
        0
    };
    bx + 2 * by + 4 * bz
}

/// One node of a voxel's octree. A node is a leaf accumulating raw points
/// until its depth's threshold is reached; it becomes planar when a fit
/// succeeds and subdivides into eight children when one fails.
pub struct Octree {
    /// The eight child slots, created lazily on first use.
    pub leafs: Vec<Option<Box<Octree>>>,
    /// Raw accumulated points with their covariances.
    pub points: Vec<point::UncertainPoint<World>>,
    /// Center of this node's cube.
    pub center: WorldPoint,
    /// Offset from this node's center to its children's centers; halves each
    /// layer.
    pub tree_size: i128,
    /// The fitted plane, if the planarity test has succeeded here.
    pub plane: Option<plane::UncertainPlane>,
    /// Depth of this node; the root of a voxel is at 0.
    pub layer: usize,
    /// Whether this node has been cut into children.
    pub subdivided: bool,
}

impl Octree {
    /// Structural well-formedness, recursively down the children.
    pub open spec fn wf(&self) -> bool
        decreases self,
    {
        &&& self.leafs@.len() == 8
        &&& 1 <= self.tree_size as int <= COORD_LIMIT as int
        &&& bounded3(self.center.inner, COORD_LIMIT as int - 2 * self.tree_size)
        &&& self.points@.len() <= MAX_NODE_POINTS
        &&& (forall|i: int|
            0 <= i < self.points@.len() ==> stored_point_wf(#[trigger] self.points@[i]))
        &&& (match self.plane {
            Some(pl) => plane::plane_wf(pl),
            None => true,
        })
        &&& self.layer <= 64
        &&& (self.subdivided ==> self.tree_size >= 2 && self.layer < 64)
        &&& (!self.subdivided ==> forall|i: int| 0 <= i < 8 ==> (#[trigger] self.leafs@[i]) is None)
        &&& (forall|i: int|
            0 <= i < 8 ==> match #[trigger] self.leafs@[i] {
                Some(c) => c.wf() && c.layer == self.layer + 1 && c.tree_size as int
                    == child_size_of(self.tree_size as int) && c.center.inner == child_center_of(
                    self.center.inner,
                    self.tree_size as int,
                    i,
                ),
                None => true,
            })
    }

    /// A fresh accumulating node.
    pub fn new(center: WorldPoint, tree_size: i128, layer: usize) -> (r: Octree)
        requires
            1 <= tree_size as int <= COORD_LIMIT as int,
            bounded3(center.inner, COORD_LIMIT as int - 2 * tree_size),
            layer <= 64,
        ensures
            r.wf(),
            r.center == center,
            r.tree_size == tree_size,
            r.layer == layer,
            r.points@.len() == 0,
            r.plane is None,
            !r.subdivided,
    {
        let mut leafs: Vec<Option<Box<Octree>>> = Vec::new();
        let mut i: usize = 0;
        while i < 8
            invariant
                i <= 8,
                leafs@.len() == i,
                forall|t: int| 0 <= t < i ==> (#[trigger] leafs@[t]) is None,
            decreases 8 - i,
        {
            leafs.push(None);
            i = i + 1;
        }
        Octree {
            leafs,
            points: Vec::new(),
            center,
            tree_size,
            plane: None,
            layer,
            subdivided: false,
        }
    }

    /// Whether this node is ready to attempt a plane fit: still accumulating,
    /// no plane yet, and at or past its depth's point threshold.
    pub open spec fn spec_wants_fit(&self, config: &Config) -> bool {
        &&& !self.subdivided
        &&& self.plane is None
        &&& self.points@.len() >= spec_threshold_at(config, self.layer as int)
    }

    pub fn wants_fit(&self, config: &Config) -> (r: bool)
        requires
            self.wf(),
            config.wf(),
        ensures
            r == self.spec_wants_fit(config),
    {
        !self.subdivided && self.plane.is_none() && self.points.len() >= config.threshold_at(
            self.layer,
        )
    }

    /// Whether an inserted point would be kept: a planar node beyond its
    /// configured capacity discards it (the plane is representative), and the
    /// hard cap bounds every node.
    pub open spec fn spec_absorbs(&self, p: Point3, config: &Config) -> bool
        decreases self,
    {
        if self.subdivided && self.leafs@.len() == 8 {
            let k = octant_of(p, self.center.inner);
            if 0 <= k < 8 {
                match self.leafs@[k] {
                    Some(c) => c.spec_absorbs(p, config),
                    None => true,
                }
            } else {
                true
            }
        } else if self.plane is Some {
            self.points@.len() < config.max_points_num && self.points@.len() < MAX_NODE_POINTS
        } else {
            self.points@.len() < MAX_NODE_POINTS
        }
    }

    /// Descend to the owning node and accumulate the point, applying the
    /// capacity policy.
    pub fn insert(self, p: point::UncertainPoint<World>, config: &Config) -> (r: Octree)
        requires
            self.wf(),
            config.wf(),
            stored_point_wf(p),
        ensures
            r.wf(),
            r.center == self.center,
            r.tree_size == self.tree_size,
            r.layer == self.layer,
            r.plane == self.plane,
            r.subdivided == self.subdivided,
            !self.subdivided ==> r.leafs@ =~= self.leafs@,
            !self.subdivided ==> (r.points@ =~= (if self.spec_absorbs(p.inner.inner, config) {
                self.points@.push(p)
            } else {
                self.points@
            })),
            self.subdivided ==> r.points@ =~= self.points@,
            octree_points(r) =~= (if self.spec_absorbs(p.inner.inner, config) {
                octree_points(self).insert(p.inner.inner)
            } else {
                octree_points(self)
            }),
        decreases self,
    {
        let ghost x = p.inner.inner;
        if self.subdivided {
            let Octree { mut leafs, points, center, tree_size, plane, layer, subdivided } = self;
            let k = octant_index(&p.inner.inner, &center.inner);
            let ghost oldslot = self.leafs@[k as int];
            let ghost absorbed = self.spec_absorbs(x, config);
            let slot = leafs.remove(k);
            let newchild: Box<Octree> = match slot {
                Some(c) => {
                    let inner = (*c).insert(p, config);
                    Box::new(inner)
                },
                None => {
                    let cc = Self::child_center(&center.inner, tree_size, k);
                    let half = floor_div(tree_size, 2);
                    let mut node = Octree::new(Framed::new(cc), half, layer + 1);
                    node.points.push(p);
                    Box::new(node)
                },
            };
            leafs.insert(k, Some(newchild));
            let r = Octree { leafs, points, center, tree_size, plane, layer, subdivided };
            proof {
                self.leafs@.remove_ensures(k as int);
                self.leafs@.remove(k as int).insert_ensures(k as int, Some(newchild));
                assert(r.leafs@ == self.leafs@.remove(k as int).insert(k as int, Some(newchild)));
                assert forall|i: int| 0 <= i < 8 && i != k as int implies #[trigger] r.leafs@[i]
                    == self.leafs@[i] by {
                    if i < k as int {
                        assert(r.leafs@[i] == self.leafs@.remove(k as int)[i]);
                    } else {
                        assert(r.leafs@[i] == self.leafs@.remove(k as int)[i - 1]);
                    }
                }
                assert(r.leafs@[k as int] == Some(newchild));
                assert forall|i: int| 0 <= i < 8 implies match #[trigger] r.leafs@[i] {
                    Some(c) => c.wf() && c.layer == r.layer + 1 && c.tree_size as int
                        == child_size_of(r.tree_size as int) && c.center.inner == child_center_of(
                        r.center.inner,
                        r.tree_size as int,
                        i,
                    ),
                    None => true,
                } by {
                    if i != k as int {
                        assert(r.leafs@[i] == self.leafs@[i]);
                    }
                }
                // Content accounting: the changed slot swaps exactly its
                // contribution, everything else cancels.
                broadcast use vstd::multiset::group_multiset_axioms;

                lemma_children_points_swap(self, r, k as int, 0);
                let cp_old = children_points(self, 0);
                let cp_new = children_points(r, 0);
                let contrib_old = slot_points(oldslot);
                let contrib_new = octree_points(*newchild);
                assert(slot_points(r.leafs@[k as int]) == contrib_new);
                match oldslot {
                    Some(c) => {
                        assert(contrib_old == octree_points(*c));
                        assert(absorbed == c.spec_absorbs(x, config));
                        if absorbed {
                            assert(contrib_new =~= contrib_old.insert(x));
                            assert(cp_new.add(contrib_old) =~= cp_old.add(contrib_old.insert(x)));
                            assert(cp_old.add(contrib_old.insert(x)) =~= cp_old.insert(x).add(
                                contrib_old,
                            ));
                            lemma_multiset_cancel(cp_new, cp_old.insert(x), contrib_old);
                            assert(octree_points(r) =~= octree_points(self).insert(x));
                        } else {
                            assert(contrib_new =~= contrib_old);
                            assert(cp_new.add(contrib_old) =~= cp_old.add(contrib_old));
                            lemma_multiset_cancel(cp_new, cp_old, contrib_old);
                            assert(octree_points(r) =~= octree_points(self));
                        }
                    },
                    None => {
                        assert(absorbed);
                        assert(contrib_old == vstd::multiset::Multiset::<Point3>::empty());
                        lemma_children_points_none(*newchild, 0);
                        assert(newchild.points@ =~= Seq::empty().push(p));
                        assert(own_points(newchild.points@) =~= vstd::multiset::Multiset::empty().insert(
                            x,
                        )) by {
                            broadcast use vstd::seq_lib::group_to_multiset_ensures;

                            assert(newchild.points@.map_values(
                                |q: point::UncertainPoint<World>| q.inner.inner,
                            ) =~= Seq::empty().push(x));
                        }
                        assert(contrib_new =~= vstd::multiset::Multiset::empty().insert(x));
                        assert(cp_new.add(contrib_old) =~= cp_old.add(contrib_new));
                        assert forall|v: Point3| cp_new.count(v) == cp_old.insert(x).count(
                            v,
                        ) by {
                            assert(cp_new.add(contrib_old).count(v) == cp_new.count(v)
                                + contrib_old.count(v));
                            assert(cp_old.add(contrib_new).count(v) == cp_old.count(v)
                                + contrib_new.count(v));
                            assert(cp_old.insert(x).count(v) == cp_old.count(v)
                                + vstd::multiset::Multiset::singleton(x).count(v));
                            assert(contrib_new.count(v) == vstd::multiset::Multiset::empty().insert(
                                x,
                            ).count(v));
                            assert(vstd::multiset::Multiset::<Point3>::empty().insert(x).count(v)
                                == vstd::multiset::Multiset::<Point3>::empty().count(v)
                                + vstd::multiset::Multiset::singleton(x).count(v));
                        }
                        assert(cp_new =~= cp_old.insert(x));
                        assert(octree_points(r) =~= octree_points(self).insert(x));
                    },
                }
            }
            r
        } else {
            let mut node = self;
            let keep: bool = if node.plane.is_some() {
                node.points.len() < config.max_points_num && node.points.len() < MAX_NODE_POINTS
            } else {
                node.points.len() < MAX_NODE_POINTS
            };
            if keep {
                node.points.push(p);
            }
            proof {
                broadcast use vstd::multiset::group_multiset_axioms;

                lemma_children_points_eq(self, node, 0);
                if keep {
                    broadcast use vstd::seq_lib::group_to_multiset_ensures;

                    assert(node.points@.map_values(
                        |q: point::UncertainPoint<World>| q.inner.inner,
                    ) =~= self.points@.map_values(
                        |q: point::UncertainPoint<World>| q.inner.inner,
                    ).push(x));
                    assert(own_points(node.points@) =~= own_points(self.points@).insert(x));
                    assert(octree_points(node) =~= octree_points(self).insert(x));
                } else {
                    assert(octree_points(node) =~= octree_points(self));
                }
            }
            node
        }
    }

    /// The center of child `k`, as an executable value.
    fn child_center(center: &Point3, ts: i128, k: usize) -> (r: Point3)
        requires
            2 <= ts as int <= COORD_LIMIT as int,
            bounded3(*center, COORD_LIMIT as int - 2 * ts),
            k < 8,
        ensures
            r == child_center_of(*center, ts as int, k as int),
            bounded3(r, COORD_LIMIT as int - 2 * child_size_of(ts as int)),
    {
        let x = if k % 2 == 1 {
            center.x + ts
        } else {
            center.x - ts
        };
        let y = if (k / 2) % 2 == 1 {
            center.y + ts
        } else {
            center.y - ts
        };
        let z = if (k / 4) % 2 == 1 {
            center.z + ts
        } else {
            center.z - ts
        };
        proof {
            lemma_fundamental_div_mod(ts as int, 2);
            assert(2 * child_size_of(ts as int) <= ts as int && child_size_of(ts as int) >= 1);
        }
        Point3 { x, y, z }
    }

    /// Redistribute every accumulated point into one of eight children by the
    /// sign of its offset from the center, creating a child on its first
    /// point; the node becomes internal with no points of its own. Each
    /// child's point sequence is exactly the original filtered to its octant,
    /// so nothing is lost or duplicated.
    pub fn cut(self, config: &Config) -> (r: Octree)
        requires
            self.wf(),
            config.wf(),
            !self.subdivided,
            self.plane is None,
            self.tree_size >= 2,
            self.layer < 64,
        ensures
            r.wf(),
            r.center == self.center,
            r.tree_size == self.tree_size,
            r.layer == self.layer,
            r.plane is None,
            r.subdivided,
            r.points@.len() == 0,
            forall|k: int|
                0 <= k < 8 ==> match #[trigger] r.leafs@[k] {
                    Some(c) => c.points@ =~= octant_filter(
                        self.points@,
                        self.center.inner,
                        k,
                    ) && octant_filter(self.points@, self.center.inner, k).len() > 0
                        && !c.subdivided && c.plane is None,
                    None => octant_filter(self.points@, self.center.inner, k).len() == 0,
                },
            octree_points(r) =~= octree_points(self),
    {
        let Octree { leafs: _, points, center, tree_size, plane, layer, subdivided: _ } = self;
        let ghost original = points@;
        let ghost cpt = center.inner;
        let mut buckets: Vec<Vec<point::UncertainPoint<World>>> = Vec::new();
        let mut t: usize = 0;
        while t < 8
            invariant
                t <= 8,
                buckets@.len() == t,
                forall|k: int| 0 <= k < t ==> (#[trigger] buckets@[k])@.len() == 0,
            decreases 8 - t,
        {
            buckets.push(Vec::new());
            t = t + 1;
        }
        proof {
            assert forall|k: int| 0 <= k < 8 implies (#[trigger] buckets@[k])@ =~= octant_filter(
                original.take(0),
                cpt,
                k,
            ) by {
                assert(original.take(0) =~= Seq::<point::UncertainPoint<World>>::empty());
                lemma_filter_empty(original.take(0), cpt, k);
            }
        }
        let mut pts = points;
        let mut i: usize = 0;
        let n = pts.len();
        while i < n
            invariant
                i <= n,
                n == original.len(),
                cpt == center.inner,
                pts@ =~= original.skip(i as int),
                buckets@.len() == 8,
                forall|k: int|
                    0 <= k < 8 ==> (#[trigger] buckets@[k])@ =~= octant_filter(
                        original.take(i as int),
                        cpt,
                        k,
                    ),
            decreases n - i,
        {
            let p = pts.remove(0);
            proof {
                assert(p == original[i as int]);
                assert(pts@ =~= original.skip(i as int + 1));
            }
            let k = octant_index(&p.inner.inner, &center.inner);
            proof {
                assert(k as int == octant_of(original[i as int].inner.inner, cpt));
            }
            let ghost bks0 = buckets@;
            let mut b = buckets.remove(k);
            proof {
                assert(b == bks0[k as int]);
            }
            b.push(p);
            let ghost bnew = b;
            buckets.insert(k, b);
            proof {
                assert(bnew@ =~= bks0[k as int]@.push(original[i as int]));
                assert(buckets@ =~= bks0.update(k as int, bnew)) by {
                    bks0.remove_ensures(k as int);
                    bks0.remove(k as int).insert_ensures(k as int, bnew);
                    assert(buckets@ == bks0.remove(k as int).insert(k as int, bnew));
                    assert forall|k2: int| 0 <= k2 < 8 implies #[trigger] buckets@[k2]
                        == bks0.update(k as int, bnew)[k2] by {
                        if k2 < k as int {
                            assert(bks0.remove(k as int).insert(k as int, bnew)[k2]
                                == bks0.remove(k as int)[k2]);
                            assert(bks0.remove(k as int)[k2] == bks0[k2]);
                        } else if k2 > k as int {
                            assert(bks0.remove(k as int).insert(k as int, bnew)[k2]
                                == bks0.remove(k as int)[k2 - 1]);
                            assert(bks0.remove(k as int)[k2 - 1] == bks0[k2]);
                        } else {
                            assert(bks0.remove(k as int).insert(k as int, bnew)[k2] == bnew);
                        }
                    }
                }
                assert(original.take(i as int + 1) =~= original.take(i as int).push(
                    original[i as int],
                ));
                assert forall|k2: int| 0 <= k2 < 8 implies (#[trigger] buckets@[k2])@
                    =~= octant_filter(original.take(i as int + 1), cpt, k2) by {
                    lemma_filter_push(original.take(i as int), original[i as int], cpt, k2);
                    assert(bks0[k2]@ =~= octant_filter(original.take(i as int), cpt, k2));
                    if k2 == k as int {
                        assert(buckets@[k2] == bnew);
                        assert(octant_of(original[i as int].inner.inner, cpt) == k2);
                    } else {
                        assert(buckets@[k2] == bks0[k2]);
                        assert(octant_of(original[i as int].inner.inner, cpt) != k2);
                    }
                }
            }
            i = i + 1;
        }
        proof {
            assert(original.take(n as int) =~= original);
        }
        // Build the children: one per non-empty bucket.
        let mut leafs: Vec<Option<Box<Octree>>> = Vec::new();
        let mut k: usize = 0;
        while k < 8
            invariant
                k <= 8,
                buckets@.len() == 8 - k,
                leafs@.len() == k,
                1 <= tree_size as int <= COORD_LIMIT as int,
                tree_size >= 2,
                layer < 64,
                bounded3(cpt, COORD_LIMIT as int - 2 * tree_size),
                cpt == center.inner,
                original.len() <= MAX_NODE_POINTS,
                forall|t2: int|
                    0 <= t2 < original.len() ==> stored_point_wf(#[trigger] original[t2]),
                forall|k2: int|
                    0 <= k2 < 8 - k ==> (#[trigger] buckets@[k2])@ =~= octant_filter(
                        original,
                        cpt,
                        k2 + k,
                    ),
                forall|k2: int|
                    0 <= k2 < k ==> match #[trigger] leafs@[k2] {
                        Some(c) => c.wf() && c.points@ =~= octant_filter(original, cpt, k2)
                            && octant_filter(original, cpt, k2).len() > 0 && c.layer == layer + 1
                            && c.tree_size as int == child_size_of(tree_size as int)
                            && c.center.inner == child_center_of(cpt, tree_size as int, k2)
                            && !c.subdivided && c.plane is None,
                        None => octant_filter(original, cpt, k2).len() == 0,
                    },
            decreases 8 - k,
        {
            let b = buckets.remove(0);
            proof {
                broadcast use vstd::seq_lib::group_seq_properties;

            }
            if b.len() == 0 {
                leafs.push(None);
            } else {
                proof {
                    lemma_filter_members(original, cpt, k as int);
                    assert(octant_filter(original, cpt, k as int).len() <= original.len()) by {
                        original.lemma_filter_len(
                            |q: point::UncertainPoint<World>| octant_of(q.inner.inner, cpt)
                                == k as int,
                        );
                    }
                }
                let cc = Self::child_center(&center.inner, tree_size, k);
                let half = floor_div(tree_size, 2);
                let mut node = Octree::new(Framed::new(cc), half, layer + 1);
                node.points = b;
                leafs.push(Some(Box::new(node)));
            }
            k = k + 1;
        }
        let r = Octree {
            leafs,
            points: Vec::new(),
            center,
            tree_size,
            plane,
            layer,
            subdivided: true,
        };
        proof {
            lemma_cut_contents(r, self, original, cpt);
        }
        r
    }
}

/// After a cut, the subtree stores exactly the points it stored before: each
/// child holds one octant's filter and the filters partition the originals.
proof fn lemma_cut_contents(
    r: Octree,
    orig: Octree,
    original: Seq<point::UncertainPoint<World>>,
    cpt: Point3,
)
    requires
        r.leafs@.len() == 8,
        r.points@.len() == 0,
        original == orig.points@,
        cpt == orig.center.inner,
        !orig.subdivided,
        orig.leafs@.len() == 8,
        forall|j: int| 0 <= j < 8 ==> (#[trigger] orig.leafs@[j]) is None,
        forall|k: int|
            0 <= k < 8 ==> match #[trigger] r.leafs@[k] {
                Some(c) => c.points@ =~= octant_filter(original, cpt, k) && c.leafs@.len() == 8
                    && (forall|j: int| 0 <= j < 8 ==> (#[trigger] c.leafs@[j]) is None),
                None => octant_filter(original, cpt, k).len() == 0,
            },
    ensures
        octree_points(r) =~= octree_points(orig),
{
    broadcast use vstd::multiset::group_multiset_axioms;
    broadcast use vstd::seq_lib::group_to_multiset_ensures;

    // Each slot of the cut node contributes exactly its octant's filter.
    assert forall|k: int| 0 <= k < 8 implies slot_points(#[trigger] r.leafs@[k]) =~= own_points(
        octant_filter(original, cpt, k),
    ) by {
        match r.leafs@[k] {
            Some(c) => {
                lemma_children_points_none(*c, 0);
                assert(octree_points(*c) =~= own_points(c.points@));
                assert(c.points@ == octant_filter(original, cpt, k));
            },
            None => {
                assert(octant_filter(original, cpt, k).len() == 0);
                assert(octant_filter(original, cpt, k).map_values(
                    |q: point::UncertainPoint<World>| q.inner.inner,
                ) =~= Seq::<Point3>::empty());
                assert(own_points(octant_filter(original, cpt, k))
                    =~= vstd::multiset::Multiset::<Point3>::empty());
            },
        }
    }
    // Summing the slots gives the multiset union of the eight filters.
    lemma_children_points_none(orig, 0);
    assert(own_points(r.points@) =~= vstd::multiset::Multiset::<Point3>::empty()) by {
        assert(r.points@.map_values(|q: point::UncertainPoint<World>| q.inner.inner)
            =~= Seq::<Point3>::empty());
    }
    assert forall|v: Point3| children_points(r, 0).count(v) == octant_position_union(
        original,
        cpt,
    ).count(v) by {
        assert(children_points(r, 8) == vstd::multiset::Multiset::<Point3>::empty());
        assert forall|k: int| 0 <= k < 8 implies #[trigger] children_points(r, k).count(v)
            == slot_points(r.leafs@[k]).count(v) + children_points(r, k + 1).count(v) by {
            assert(children_points(r, k) == (match r.leafs@[k] {
                Some(c) => octree_points(*c),
                None => vstd::multiset::Multiset::empty(),
            }).add(children_points(r, k + 1)));
        }
        assert(children_points(r, 0).count(v) == slot_points(r.leafs@[0]).count(v) + slot_points(
            r.leafs@[1],
        ).count(v) + slot_points(r.leafs@[2]).count(v) + slot_points(r.leafs@[3]).count(v)
            + slot_points(r.leafs@[4]).count(v) + slot_points(r.leafs@[5]).count(v) + slot_points(
            r.leafs@[6],
        ).count(v) + slot_points(r.leafs@[7]).count(v));
        assert(octant_position_union(original, cpt).count(v) == own_points(
            octant_filter(original, cpt, 0),
        ).count(v) + own_points(octant_filter(original, cpt, 1)).count(v) + own_points(
            octant_filter(original, cpt, 2),
        ).count(v) + own_points(octant_filter(original, cpt, 3)).count(v) + own_points(
            octant_filter(original, cpt, 4),
        ).count(v) + own_points(octant_filter(original, cpt, 5)).count(v) + own_points(
            octant_filter(original, cpt, 6),
        ).count(v) + own_points(octant_filter(original, cpt, 7)).count(v));
    }
    assert(children_points(r, 0) =~= octant_position_union(original, cpt));
    lemma_cut_partition_positions(original, cpt);
    assert forall|v: Point3| octree_points(r).count(v) == own_points(original).count(v) by {
        assert(octree_points(r).count(v) == own_points(r.points@).count(v) + children_points(
            r,
            0,
        ).count(v));
    }
    assert(octree_points(r) =~= own_points(original));
    assert forall|v: Point3| octree_points(orig).count(v) == own_points(original).count(v) by {
        assert(octree_points(orig).count(v) == own_points(orig.points@).count(v)
            + children_points(orig, 0).count(v));
    }
    assert(octree_points(orig) =~= own_points(original));
}

/// The multiset union of the positions in the eight octant filters.
pub open spec fn octant_position_union(
    s: Seq<point::UncertainPoint<World>>,
    c: Point3,
) -> vstd::multiset::Multiset<Point3> {
    own_points(octant_filter(s, c, 0)).add(own_points(octant_filter(s, c, 1))).add(
        own_points(octant_filter(s, c, 2)),
    ).add(own_points(octant_filter(s, c, 3))).add(own_points(octant_filter(s, c, 4))).add(
        own_points(octant_filter(s, c, 5)),
    ).add(own_points(octant_filter(s, c, 6))).add(own_points(octant_filter(s, c, 7)))
}

/// The positions in the eight octant filters partition the positions of the
/// original sequence.
pub proof fn lemma_cut_partition_positions(s: Seq<point::UncertainPoint<World>>, c: Point3)
    ensures
        octant_position_union(s, c) =~= own_points(s),
    decreases s.len(),
{
    broadcast use vstd::multiset::group_multiset_axioms;
    broadcast use vstd::seq_lib::group_to_multiset_ensures;

    if s.len() == 0 {
        assert forall|k: int| 0 <= k < 8 implies own_points(octant_filter(s, c, k))
            =~= vstd::multiset::Multiset::<Point3>::empty() by {
            lemma_filter_empty(s, c, k);
            assert(octant_filter(s, c, k).map_values(
                |q: point::UncertainPoint<World>| q.inner.inner,
            ) =~= Seq::<Point3>::empty());
        }
        assert(s.map_values(|q: point::UncertainPoint<World>| q.inner.inner)
            =~= Seq::<Point3>::empty());
        assert(octant_position_union(s, c) =~= own_points(s));
    } else {
        let s0 = s.drop_last();
        let p = s.last();
        let x = p.inner.inner;
        lemma_cut_partition_positions(s0, c);
        let kp = octant_of(x, c);
        assert(0 <= kp < 8);
        assert forall|k: int| 0 <= k < 8 implies own_points(octant_filter(s, c, k)) == (if k
            == kp {
            own_points(octant_filter(s0, c, k)).insert(x)
        } else {
            own_points(octant_filter(s0, c, k))
        }) by {
            assert(s =~= s0.push(p));
            lemma_filter_push(s0, p, c, k);
            if k == kp {
                assert(octant_filter(s, c, k) == octant_filter(s0, c, k).push(p));
                assert(octant_filter(s, c, k).map_values(
                    |q: point::UncertainPoint<World>| q.inner.inner,
                ) =~= octant_filter(s0, c, k).map_values(
                    |q: point::UncertainPoint<World>| q.inner.inner,
                ).push(x));
                assert(own_points(octant_filter(s, c, k)) =~= own_points(
                    octant_filter(s0, c, k),
                ).insert(x));
            }
        }
        assert(own_points(s) =~= own_points(s0).insert(x)) by {
            assert(s =~= s0.push(p));
            assert(s.map_values(|q: point::UncertainPoint<World>| q.inner.inner) =~= s0.map_values(
                |q: point::UncertainPoint<World>| q.inner.inner,
            ).push(x));
        }
        assert(octant_position_union(s, c) =~= own_points(s0).insert(x));
    }
}


/// Whether a fit attempt on a node holding `pts` points is accepted: the
/// smallest eigenvalue clears the planarity threshold and the resulting
/// covariance passes the fixed-point magnitude guard. A deterministic
/// function of the node's points and the handed-in basis.
pub open spec fn fit_accepted(
    pts: Seq<point::UncertainPoint<World>>,
    eigen: &EigenBasis,
    config: &Config,
) -> bool {
    &&& eigen.values@[plane::spec_eigen_argmin(eigen)] as int >= config.planer_threshold as int
    &&& crate::linalg::model::mat_bounded(
        plane::plane_covariance_sum(
            pts,
            plane::plane_mean(pts),
            eigen,
            plane::spec_eigen_argmin(eigen),
            pts.len() as int,
            (SCALE as int) / (pts.len() as int),
        ),
        COV_LIMIT as int,
    )
}

/// Whether a failed planarity test may subdivide the node: within the depth
/// cap and above the resolution floor.
pub open spec fn fit_cuttable(t: Octree, eigen: &EigenBasis, config: &Config) -> bool {
    &&& (eigen.values@[plane::spec_eigen_argmin(eigen)] as int) < config.planer_threshold as int
    &&& t.layer < config.layer_init_threshold@.len()
    &&& t.tree_size >= 2
    &&& t.layer < 64
}

/// What acting on a fit attempt leaves behind: an accepted fit stores exactly
/// the plane the estimator's contract fixes and changes nothing else; a
/// failed planarity test cuts the node where the depth cap and resolution
/// floor allow; otherwise the node is untouched.
pub open spec fn fit_outcome(t0: Octree, t1: Octree, eigen: &EigenBasis, config: &Config) -> bool {
    let n = t0.points@.len() as int;
    let accepted = fit_accepted(t0.points@, eigen, config);
    let cuttable = fit_cuttable(t0, eigen, config);
    &&& t1.center == t0.center
    &&& t1.tree_size == t0.tree_size
    &&& t1.layer == t0.layer
    &&& ((t1.plane is Some) <==> accepted)
    &&& (t1.subdivided <==> cuttable)
    &&& (accepted ==> {
        &&& t1.points@ =~= t0.points@
        &&& t1.leafs@ =~= t0.leafs@
        &&& !t1.subdivided
        &&& match t1.plane {
            Some(pl) => {
                &&& pl.inner.points_count as int == n
                &&& pl.inner.normal.x as int == eigen.vectors@[0][plane::spec_eigen_argmin(eigen)]
                &&& pl.inner.normal.y as int == eigen.vectors@[1][plane::spec_eigen_argmin(eigen)]
                &&& pl.inner.normal.z as int == eigen.vectors@[2][plane::spec_eigen_argmin(eigen)]
                &&& pl.inner.center.inner == plane::plane_mean(t0.points@)
                &&& pl.inner.distance_to_origin as int == (pl.inner.normal.x
                    * pl.inner.center.inner.x + pl.inner.normal.y * pl.inner.center.inner.y
                    + pl.inner.normal.z * pl.inner.center.inner.z) / (SCALE as int)
                &&& pl.inner.radius as int == (if eigen.values@[plane::spec_eigen_argmax(eigen)] as int
                    >= 0 {
                    crate::geometry::sqrt_floor(
                        eigen.values@[plane::spec_eigen_argmax(eigen)] as int,
                    )
                } else {
                    0
                })
                &&& pl.covariance.composite@ =~~= plane::plane_covariance_sum(
                    t0.points@,
                    plane::plane_mean(t0.points@),
                    eigen,
                    plane::spec_eigen_argmin(eigen),
                    n,
                    (SCALE as int) / n,
                )
            },
            None => false,
        }
    })
    &&& (cuttable ==> {
        &&& t1.points@.len() == 0
        &&& t1.plane is None
        &&& octree_points(t1) =~= octree_points(t0)
        &&& forall|k: int|
            0 <= k < 8 ==> match #[trigger] t1.leafs@[k] {
                Some(c) => c.points@ =~= octant_filter(t0.points@, t0.center.inner, k)
                    && octant_filter(t0.points@, t0.center.inner, k).len() > 0 && !c.subdivided
                    && c.plane is None,
                None => octant_filter(t0.points@, t0.center.inner, k).len() == 0,
            }
    })
    &&& (!accepted && !cuttable ==> t1 == t0)
}

/// The node a fit attempt lands on, and what it leaves along the way: the
/// walk follows the octant path, every node off the path keeps its exact
/// value, and the node at the path's end takes the fit outcome (or stays
/// unchanged where the path is stale).
pub open spec fn fit_applied_at(
    t0: Octree,
    t1: Octree,
    path: Seq<usize>,
    idx: int,
    eigen: &EigenBasis,
    config: &Config,
) -> bool
    decreases path.len() - idx,
{
    if idx >= path.len() {
        if t0.spec_wants_fit(config) {
            fit_outcome(t0, t1, eigen, config)
        } else {
            t1 == t0
        }
    } else {
        let k = path[idx] as int;
        if 0 <= k < 8 && t0.subdivided && t0.leafs@.len() == 8 {
            &&& t1.leafs@.len() == 8
            &&& t1.points@ == t0.points@
            &&& t1.center == t0.center
            &&& t1.tree_size == t0.tree_size
            &&& t1.plane == t0.plane
            &&& t1.layer == t0.layer
            &&& t1.subdivided == t0.subdivided
            &&& (forall|j: int| 0 <= j < 8 && j != k ==> t1.leafs@[j] == t0.leafs@[j])
            &&& (match (t0.leafs@[k], t1.leafs@[k]) {
                (Some(c0), Some(c1)) => fit_applied_at(*c0, *c1, path, idx + 1, eigen, config),
                (None, None) => true,
                _ => false,
            })
        } else {
            t1 == t0
        }
    }
}

/// Whether any node of the subtree is ready for a plane fit.
pub open spec fn subtree_has_pending(t: Octree, config: &Config) -> bool
    decreases t, 9int,
{
    ||| t.spec_wants_fit(config)
    ||| (t.subdivided && t.leafs@.len() == 8 && children_have_pending(t, 0, config))
}

/// Whether any child `i..8` holds a subtree with a pending fit.
pub open spec fn children_have_pending(t: Octree, i: int, config: &Config) -> bool
    decreases t, 8 - i,
{
    if i < 0 || i >= 8 || t.leafs@.len() != 8 {
        false
    } else {
        (match t.leafs@[i] {
            Some(c) => subtree_has_pending(*c, config),
            None => false,
        }) || children_have_pending(t, i + 1, config)
    }
}

/// The node an octant path leads to, if the path is walkable from `idx` on.
pub open spec fn node_at_path(t: Octree, path: Seq<usize>, idx: int) -> Option<Octree>
    decreases path.len() - idx,
{
    if idx >= path.len() {
        Some(t)
    } else {
        let k = path[idx] as int;
        if 0 <= k < 8 && t.leafs@.len() == 8 {
            match t.leafs@[k] {
                Some(c) => node_at_path(*c, path, idx + 1),
                None => None,
            }
        } else {
            None
        }
    }
}

/// Entry `(a, b)` of the second-moment (sample covariance) matrix of a point
/// set: the mean outer product minus the outer product of the means, with
/// the stated floor divisions.
pub open spec fn spec_moment_entry(
    pts: Seq<point::UncertainPoint<World>>,
    a: int,
    b: int,
) -> int {
    let framed = pts.map_values(|q: point::UncertainPoint<World>| q.inner);
    crate::linalg::model::vec_total(crate::utils::outer_seq(framed, a, b)) / pts.len() as int
        - crate::utils::mean_coord(plane::plane_mean(pts), a) * crate::utils::mean_coord(
        plane::plane_mean(pts),
        b,
    )
}

/// A fit request faithfully describes one node of the tree: its path leads
/// to a node that wants a fit, and the request carries that node's count,
/// floor mean and moment matrix exactly.
pub open spec fn request_describes(req: FitRequest, t: Octree, config: &Config) -> bool {
    match node_at_path(t, req.path@, 0) {
        Some(node) => {
            &&& node.spec_wants_fit(config)
            &&& req.count == node.points@.len()
            &&& req.mean == plane::plane_mean(node.points@)
            &&& req.moments.wf()
            &&& req.moments.nrows() == 3
            &&& req.moments.cols == 3
            &&& forall|a: int, b: int|
                0 <= a < 3 && 0 <= b < 3 ==> #[trigger] req.moments@[a][b] == spec_moment_entry(
                    node.points@,
                    a,
                    b,
                )
        },
        None => false,
    }
}

/// No pending child from `i` on when every slot from `i` on is clean.
proof fn lemma_no_children_pending(t: Octree, i: int, config: &Config)
    requires
        t.leafs@.len() == 8,
        forall|j: int|
            i <= j < 8 ==> match #[trigger] t.leafs@[j] {
                Some(c) => !subtree_has_pending(*c, config),
                None => true,
            },
    ensures
        !children_have_pending(t, i, config),
    decreases 8 - i,
{
    if 0 <= i < 8 {
        lemma_no_children_pending(t, i + 1, config);
    } else if i < 0 {
        lemma_no_children_pending(t, 0, config);
    }
}

/// A pending child at slot `j >= i` makes the range `i..8` pending.
proof fn lemma_child_pending(t: Octree, i: int, j: int, config: &Config)
    requires
        t.leafs@.len() == 8,
        0 <= i <= j < 8,
        match t.leafs@[j] {
            Some(c) => subtree_has_pending(*c, config),
            None => false,
        },
    ensures
        children_have_pending(t, i, config),
    decreases j - i,
{
    if i < j {
        lemma_child_pending(t, i + 1, j, config);
    }
}

/// Prepending one octant to a path shifts the walk by one step.
proof fn lemma_path_shift(t: Octree, p_old: Seq<usize>, p_new: Seq<usize>, idx: int, config: &Config)
    requires
        p_new.len() == p_old.len() + 1,
        forall|i: int| 0 <= i < p_old.len() ==> p_new[i + 1] == p_old[i],
        0 <= idx,
    ensures
        node_at_path(t, p_new, idx + 1) == node_at_path(t, p_old, idx),
    decreases p_old.len() - idx,
{
    if idx < p_old.len() {
        assert(p_new[idx + 1] == p_old[idx]);
        let k = p_old[idx] as int;
        if 0 <= k < 8 && t.leafs@.len() == 8 {
            match t.leafs@[k] {
                Some(c) => {
                    lemma_path_shift(*c, p_old, p_new, idx + 1, config);
                },
                None => {
                },
            }
        }
    }
}

/// A plane-fit attempt at one octree node, handed out by the library with
/// the verified sufficient statistics; the caller answers it with the
/// eigendecomposition of the moment matrix.
pub struct FitRequest {
    /// The voxel's key in the map.
    pub key: i128,
    /// Octant indices from the voxel root down to the requesting node.
    pub path: Vec<usize>,
    /// Number of accumulated points at the node.
    pub count: usize,
    /// The 3 by 3 second-moment (sample covariance) matrix of the points.
    pub moments: crate::linalg::Matrix,
    /// The floor mean of the points.
    pub mean: Point3,
}

impl Octree {
    /// The moment statistics of this node's accumulated points.
    fn fit_statistics(&self) -> (r: (Point3, crate::linalg::Matrix, usize))
        requires
            self.wf(),
            self.points@.len() >= 1,
        ensures
            r.1.wf(),
            r.1.nrows() == 3,
            r.1.cols == 3,
            r.2 == self.points@.len(),
            r.0 == plane::plane_mean(self.points@),
            forall|a: int, b: int|
                0 <= a < 3 && 0 <= b < 3 ==> #[trigger] r.1@[a][b] == spec_moment_entry(
                    self.points@,
                    a,
                    b,
                ),
    {
        let ghost cl = COORD_LIMIT as int;
        let n = self.points.len();
        let mut coords: Vec<WorldPoint> = Vec::new();
        let mut i: usize = 0;
        while i < n
            invariant
                i <= n,
                n == self.points@.len(),
                self.wf(),
                coords@ =~= self.points@.take(i as int).map_values(
                    |q: point::UncertainPoint<World>| q.inner,
                ),
            decreases n - i,
        {
            let q = self.points[i].inner;
            proof {
                assert(stored_point_wf(self.points@[i as int]));
            }
            coords.push(q);
            proof {
                assert(self.points@.take(i as int + 1) =~= self.points@.take(i as int).push(
                    self.points@[i as int],
                ));
                assert(coords@ =~= self.points@.take(i as int + 1).map_values(
                    |q: point::UncertainPoint<World>| q.inner,
                ));
            }
            i = i + 1;
        }
        proof {
            assert(self.points@.take(n as int) =~= self.points@);
            assert(coords@ =~= self.points@.map_values(
                |q: point::UncertainPoint<World>| q.inner,
            ));
            assert forall|t: int| 0 <= t < coords@.len() implies bounded3(
                (#[trigger] coords@[t]).inner,
                cl,
            ) by {
                assert(coords@[t] == self.points@[t].inner);
                assert(stored_point_wf(self.points@[t]));
            }
            assert(cl == 0x100_0000);
            assert(n * cl <= i128::MAX as int && n * (cl * cl) <= i128::MAX as int)
                by (nonlinear_arith)
                requires
                    cl == 0x100_0000,
                    0 <= n <= 1024,
            ;
        }
        let stats = crate::utils::VectorSquareSum::accumulate(&coords, Ghost(cl));
        proof {
            plane::lemma_stats_bounds(coords@, &stats, cl);
            assert((n * (cl * cl)) * (n * (cl * cl)) + n * (cl * cl) <= i128::MAX as int)
                by (nonlinear_arith)
                requires
                    cl == 0x100_0000,
                    1 <= n <= 1024,
            ;
            assert(n * cl <= n * (cl * cl)) by (nonlinear_arith)
                requires
                    cl >= 1,
                    n >= 1,
            ;
        }
        let (mean, moments) = stats.mean(Ghost((n as int) * (cl * cl)));
        proof {
            assert(mean == plane::plane_mean(self.points@));
            assert forall|a: int, b: int| 0 <= a < 3 && 0 <= b < 3 implies #[trigger] moments@[a][b]
                == spec_moment_entry(self.points@, a, b) by {
                assert(moments@[a][b] == stats.square_sum@[a][b] / n as int
                    - crate::utils::mean_coord(mean, a) * crate::utils::mean_coord(mean, b));
            }
        }
        (mean, moments, n)
    }

    /// Find the first node ready for a plane fit, with its octant path and
    /// verified moment statistics.
    pub fn find_fit(&self, config: &Config) -> (r: Option<FitRequest>)
        requires
            self.wf(),
            config.wf(),
        ensures
            (r is Some) <==> subtree_has_pending(*self, config),
            match r {
                Some(req) => request_describes(req, *self, config) && req.count >= 1,
                None => true,
            },
        decreases self,
    {
        if self.wants_fit(config) {
            let (mean, moments, count) = self.fit_statistics();
            proof {
                assert(spec_threshold_at(config, self.layer as int) >= 1);
            }
            let req = FitRequest { key: 0, path: Vec::new(), count, moments, mean };
            proof {
                assert(node_at_path(*self, req.path@, 0) == Some(*self));
            }
            Some(req)
        } else if self.subdivided {
            let mut k: usize = 0;
            while k < 8
                invariant
                    k <= 8,
                    self.wf(),
                    config.wf(),
                    !self.spec_wants_fit(config),
                    self.subdivided,
                    forall|j: int|
                        0 <= j < k ==> match #[trigger] self.leafs@[j] {
                            Some(c) => !subtree_has_pending(*c, config),
                            None => true,
                        },
                decreases 8 - k,
            {
                match &self.leafs[k] {
                    Some(c) => {
                        let found = c.find_fit(config);
                        match found {
                            Some(mut req) => {
                                let ghost old_path = req.path@;
                                req.path.insert(0, k);
                                proof {
                                    old_path.insert_ensures(0, k);
                                    assert(req.path@ == old_path.insert(0, k));
                                    assert(req.path@[0] == k);
                                    assert(forall|t: int|
                                        0 <= t < old_path.len() ==> req.path@[t + 1]
                                            == old_path[t]);
                                    lemma_path_shift(**c, old_path, req.path@, 0, config);
                                    assert(node_at_path(*self, req.path@, 0) == node_at_path(
                                        **c,
                                        req.path@,
                                        1,
                                    ));
                                    lemma_child_pending(*self, 0, k as int, config);
                                    assert(subtree_has_pending(*self, config));
                                }
                                return Some(req);
                            },
                            None => {
                            },
                        }
                    },
                    None => {
                    },
                }
                k = k + 1;
            }
            proof {
                lemma_no_children_pending(*self, 0, config);
                assert(!subtree_has_pending(*self, config));
            }
            None
        } else {
            proof {
                assert(!subtree_has_pending(*self, config));
            }
            None
        }
    }

    /// Act on a fit attempt: accept the plane exactly when the smallest
    /// eigenvalue clears the planarity threshold (and its covariance passed
    /// the fixed-point magnitude guard); on a failed planarity test, cut into
    /// children while the depth cap and the resolution floor allow it.
    pub fn create_plane(self, eigen: &EigenBasis, config: &Config) -> (r: Octree)
        requires
            self.wf(),
            config.wf(),
            eigen.wf(),
            self.spec_wants_fit(config),
        ensures
            r.wf(),
            fit_outcome(self, r, eigen, config),
    {
        proof {
            assert(spec_threshold_at(config, self.layer as int) >= 1);
        }
        let fit = plane::UncertainPlane::new_plane(&self.points, eigen, config);
        match fit {
            Some(pl) => {
                if pl.covariance.composite.bounded_within(COV_LIMIT) {
                    let mut node = self;
                    node.plane = Some(pl);
                    proof {
                        assert(fit_accepted(self.points@, eigen, config));
                        assert(node.points@ =~= self.points@);
                        assert(node.leafs@ =~= self.leafs@);
                    }
                    node
                } else {
                    // Fixed-point magnitude guard: a covariance too large to
                    // store safely leaves the node accumulating.
                    proof {
                        assert(!fit_accepted(self.points@, eigen, config));
                        assert(!fit_cuttable(self, eigen, config));
                    }
                    self
                }
            },
            None => {
                proof {
                    assert(!fit_accepted(self.points@, eigen, config));
                }
                if self.layer < config.max_layer() && self.tree_size >= 2 {
                    proof {
                        assert(fit_cuttable(self, eigen, config));
                    }
                    self.cut(config)
                } else {
                    proof {
                        assert(!fit_cuttable(self, eigen, config));
                    }
                    self
                }
            },
        }
    }

    /// Walk the octant path and act on the fit attempt at its end; a stale
    /// path (the node no longer wants a fit) changes nothing.
    pub fn apply_fit_at(self, path: &Vec<usize>, idx: usize, eigen: &EigenBasis, config: &Config) -> (r: Octree)
        requires
            self.wf(),
            config.wf(),
            eigen.wf(),
            idx <= path@.len(),
        ensures
            r.wf(),
            r.center == self.center,
            r.tree_size == self.tree_size,
            r.layer == self.layer,
            fit_applied_at(self, r, path@, idx as int, eigen, config),
        decreases path@.len() - idx,
    {
        if idx == path.len() {
            if self.wants_fit(config) {
                self.create_plane(eigen, config)
            } else {
                self
            }
        } else {
            let k = path[idx];
            if k < 8 && self.subdivided {
                let Octree { mut leafs, points, center, tree_size, plane, layer, subdivided } =
                    self;
                let slot = leafs.remove(k);
                let newslot: Option<Box<Octree>> = match slot {
                    Some(c) => {
                        let inner = (*c).apply_fit_at(path, idx + 1, eigen, config);
                        Some(Box::new(inner))
                    },
                    None => None,
                };
                leafs.insert(k, newslot);
                let r = Octree { leafs, points, center, tree_size, plane, layer, subdivided };
                proof {
                    self.leafs@.remove_ensures(k as int);
                    self.leafs@.remove(k as int).insert_ensures(k as int, newslot);
                    assert(r.leafs@ == self.leafs@.remove(k as int).insert(k as int, newslot));
                    assert forall|i: int| 0 <= i < 8 && i != k as int implies #[trigger] r.leafs@[i]
                        == self.leafs@[i] by {
                        if i < k as int {
                            assert(r.leafs@[i] == self.leafs@.remove(k as int)[i]);
                        } else {
                            assert(r.leafs@[i] == self.leafs@.remove(k as int)[i - 1]);
                        }
                    }
                    assert(r.leafs@[k as int] == newslot);
                    assert forall|i: int| 0 <= i < 8 implies match #[trigger] r.leafs@[i] {
                        Some(c) => c.wf() && c.layer == r.layer + 1 && c.tree_size as int
                            == child_size_of(r.tree_size as int) && c.center.inner
                            == child_center_of(r.center.inner, r.tree_size as int, i),
                        None => true,
                    } by {
                        if i != k as int {
                            assert(r.leafs@[i] == self.leafs@[i]);
                        }
                    }
                    assert(fit_applied_at(self, r, path@, idx as int, eigen, config));
                }
                r
            } else {
                self
            }
        }
    }
}

impl VoxelMap {
    /// The first pending fit attempt anywhere in the map, if one exists.
    /// Mutation between scans goes: commit points, then answer fit requests
    /// one at a time until none are pending.
    pub fn pending_fit(&self, config: &Config) -> (r: Option<FitRequest>)
        requires
            self.wf(),
            config.wf(),
        ensures
            match r {
                Some(req) => {
                    &&& self.trees@.dom().contains(req.key)
                    &&& request_describes(req, self.trees@[req.key], config)
                    &&& req.count >= 1
                },
                None => forall|h: i128|
                    #[trigger] self.trees@.dom().contains(h) ==> !subtree_has_pending(
                        self.trees@[h],
                        config,
                    ),
            },
    {
        let n = self.keys.len();
        let mut i: usize = 0;
        while i < n
            invariant
                i <= n,
                n == self.keys@.len(),
                self.wf(),
                config.wf(),
                forall|t: int|
                    0 <= t < i ==> !subtree_has_pending(
                        self.trees@[#[trigger] self.keys@[t]],
                        config,
                    ),
            decreases n - i,
        {
            let h = self.keys[i];
            match self.trees.get(&h) {
                Some(t) => {
                    match t.find_fit(config) {
                        Some(mut req) => {
                            req.key = h;
                            proof {
                                assert(self.trees@[h] == *t);
                            }
                            return Some(req);
                        },
                        None => {
                        },
                    }
                },
                None => {
                    // Every key indexes the map, so this branch cannot run.
                    proof {
                        assert(self.trees@.dom().contains(self.keys@[i as int]));
                        assert(false);
                    }
                },
            }
            i = i + 1;
        }
        proof {
            assert forall|h: i128| #[trigger] self.trees@.dom().contains(h)
                implies !subtree_has_pending(self.trees@[h], config) by {
                assert(self.keys@.contains(h));
                let w = choose|w: int| 0 <= w < self.keys@.len() && self.keys@[w] == h;
                assert(!subtree_has_pending(self.trees@[self.keys@[w]], config));
            }
        }
        None
    }

    /// Act on one fit request: descend the voxel's octree along the request's
    /// path and fit or cut there.
    pub fn apply_fit(&mut self, req: &FitRequest, eigen: &EigenBasis, config: &Config)
        requires
            old(self).wf(),
            config.wf(),
            eigen.wf(),
        ensures
            final(self).wf(),
            final(self).keys@ == old(self).keys@,
            old(self).trees@.dom().contains(req.key) ==> {
                &&& final(self).trees@.dom() =~= old(self).trees@.dom()
                &&& (forall|h: i128|
                    h != req.key && old(self).trees@.dom().contains(h)
                        ==> final(self).trees@[h] == old(self).trees@[h])
                &&& fit_applied_at(
                    old(self).trees@[req.key],
                    final(self).trees@[req.key],
                    req.path@,
                    0,
                    eigen,
                    config,
                )
            },
            !old(self).trees@.dom().contains(req.key) ==> final(self).trees@
                == old(self).trees@,
    {
        let slot = self.trees.remove(&req.key);
        match slot {
            Some(t) => {
                let t2 = t.apply_fit_at(&req.path, 0, eigen, config);
                self.trees.insert(req.key, t2);
                proof {
                    assert(self.trees@ =~= old(self).trees@.insert(req.key, t2));
                    assert forall|h2: i128| #[trigger] self.trees@.dom().contains(h2)
                        implies self.keys@.contains(h2) && self.trees@[h2].wf() by {
                        if h2 != req.key {
                            assert(old(self).trees@.dom().contains(h2));
                        } else {
                            assert(old(self).trees@.dom().contains(req.key));
                        }
                    }
                    assert(self.trees@.dom() =~= old(self).trees@.dom());
                }
            },
            None => {
                proof {
                    assert(self.trees@ =~= old(self).trees@);
                }
            },
        }
    }
}

/// Filtering an empty sequence yields an empty sequence.
proof fn lemma_filter_empty(s: Seq<point::UncertainPoint<World>>, c: Point3, k: int)
    requires
        s.len() == 0,
    ensures
        octant_filter(s, c, k).len() == 0,
{
    reveal(Seq::filter);
}

/// Filtering distributes over push: the pushed element lands in exactly its
/// own octant's filter.
proof fn lemma_filter_push(
    s: Seq<point::UncertainPoint<World>>,
    p: point::UncertainPoint<World>,
    c: Point3,
    k: int,
)
    ensures
        octant_filter(s.push(p), c, k) == (if octant_of(p.inner.inner, c) == k {
            octant_filter(s, c, k).push(p)
        } else {
            octant_filter(s, c, k)
        }),
{
    reveal(Seq::filter);
    assert(s.push(p).drop_last() =~= s);
}

/// Every filtered element satisfies the stored-point invariant when the
/// originals do.
proof fn lemma_filter_members(s: Seq<point::UncertainPoint<World>>, c: Point3, k: int)
    requires
        forall|t: int| 0 <= t < s.len() ==> stored_point_wf(#[trigger] s[t]),
    ensures
        forall|t: int|
            0 <= t < octant_filter(s, c, k).len() ==> stored_point_wf(
                #[trigger] octant_filter(s, c, k)[t],
            ),
    decreases s.len(),
{
    reveal(Seq::filter);
    if s.len() > 0 {
        lemma_filter_members(s.drop_last(), c, k);
        assert(forall|t: int| 0 <= t < s.drop_last().len() ==> stored_point_wf(
            #[trigger] s.drop_last()[t],
        ));
        let f = octant_filter(s, c, k);
        let f0 = octant_filter(s.drop_last(), c, k);
        assert forall|t: int| 0 <= t < f.len() implies stored_point_wf(#[trigger] f[t]) by {
            if octant_of(s.last().inner.inner, c) == k {
                assert(f == f0.push(s.last()));
                if t < f0.len() {
                    assert(f[t] == f0[t]);
                } else {
                    assert(f[t] == s.last());
                    assert(stored_point_wf(s[s.len() - 1]));
                }
            } else {
                assert(f == f0);
            }
        }
    }
}

/// The positions a point sequence stores, as a multiset.
pub open spec fn own_points(
    pts: Seq<point::UncertainPoint<World>>,
) -> vstd::multiset::Multiset<Point3> {
    pts.map_values(|q: point::UncertainPoint<World>| q.inner.inner).to_multiset()
}

/// The positions one child slot contributes.
pub open spec fn slot_points(slot: Option<Box<Octree>>) -> vstd::multiset::Multiset<Point3>
    decreases slot,
{
    match slot {
        Some(c) => octree_points(*c),
        None => vstd::multiset::Multiset::empty(),
    }
}

/// Every position a subtree stores, own points and children together.
pub open spec fn octree_points(t: Octree) -> vstd::multiset::Multiset<Point3>
    decreases t, 9int,
{
    own_points(t.points@).add(children_points(t, 0))
}

/// The positions stored by children `i..8` of a node.
pub open spec fn children_points(t: Octree, i: int) -> vstd::multiset::Multiset<Point3>
    decreases t, 8 - i,
{
    if i < 0 || i >= 8 || t.leafs@.len() != 8 {
        vstd::multiset::Multiset::empty()
    } else {
        (match t.leafs@[i] {
            Some(c) => octree_points(*c),
            None => vstd::multiset::Multiset::empty(),
        }).add(children_points(t, i + 1))
    }
}

/// Nodes with equal child slots from `i` on store equal child contents.
proof fn lemma_children_points_eq(t1: Octree, t2: Octree, i: int)
    requires
        t1.leafs@.len() == 8,
        t2.leafs@.len() == 8,
        forall|j: int| i <= j < 8 ==> t2.leafs@[j] == t1.leafs@[j],
    ensures
        children_points(t1, i) == children_points(t2, i),
    decreases 8 - i,
{
    if 0 <= i < 8 {
        lemma_children_points_eq(t1, t2, i + 1);
    } else if i < 0 {
        lemma_children_points_eq(t1, t2, 0);
        assert(children_points(t1, i) == vstd::multiset::Multiset::<Point3>::empty());
        assert(children_points(t2, i) == vstd::multiset::Multiset::<Point3>::empty());
    }
}

/// Replacing one child slot swaps exactly its contribution: the rest of the
/// children's contents cancel.
proof fn lemma_children_points_swap(t1: Octree, t2: Octree, k: int, i: int)
    requires
        t1.leafs@.len() == 8,
        t2.leafs@.len() == 8,
        0 <= i <= k < 8,
        forall|j: int| 0 <= j < 8 && j != k ==> t2.leafs@[j] == t1.leafs@[j],
    ensures
        children_points(t2, i).add(slot_points(t1.leafs@[k])) =~= children_points(t1, i).add(
            slot_points(t2.leafs@[k]),
        ),
    decreases k - i,
{
    broadcast use vstd::multiset::group_multiset_axioms;

    let s1k = slot_points(t1.leafs@[k]);
    let s2k = slot_points(t2.leafs@[k]);
    if i == k {
        lemma_children_points_eq(t1, t2, k + 1);
        assert(children_points(t2, k) == s2k.add(children_points(t2, k + 1)));
        assert(children_points(t1, k) == s1k.add(children_points(t1, k + 1)));
        assert forall|v: Point3| children_points(t2, i).add(s1k).count(v) == children_points(
            t1,
            i,
        ).add(s2k).count(v) by {
            assert(children_points(t2, i).add(s1k).count(v) == children_points(t2, i).count(v)
                + s1k.count(v));
            assert(children_points(t1, i).add(s2k).count(v) == children_points(t1, i).count(v)
                + s2k.count(v));
            assert(children_points(t2, k).count(v) == s2k.count(v) + children_points(t2, k
                + 1).count(v));
            assert(children_points(t1, k).count(v) == s1k.count(v) + children_points(t1, k
                + 1).count(v));
        }
    } else {
        lemma_children_points_swap(t1, t2, k, i + 1);
        assert(t2.leafs@[i] == t1.leafs@[i]);
        let si = slot_points(t1.leafs@[i]);
        assert(children_points(t2, i) == si.add(children_points(t2, i + 1)));
        assert(children_points(t1, i) == si.add(children_points(t1, i + 1)));
        assert forall|v: Point3| children_points(t2, i).add(s1k).count(v) == children_points(
            t1,
            i,
        ).add(s2k).count(v) by {
            assert(children_points(t2, i).add(s1k).count(v) == si.count(v) + children_points(
                t2,
                i + 1,
            ).count(v) + s1k.count(v));
            assert(children_points(t1, i).add(s2k).count(v) == si.count(v) + children_points(
                t1,
                i + 1,
            ).count(v) + s2k.count(v));
            assert(children_points(t2, i + 1).add(s1k).count(v) == children_points(t1, i
                + 1).add(s2k).count(v));
            assert(children_points(t2, i + 1).add(s1k).count(v) == children_points(t2, i
                + 1).count(v) + s1k.count(v));
            assert(children_points(t1, i + 1).add(s2k).count(v) == children_points(t1, i
                + 1).count(v) + s2k.count(v));
        }
    }
}

/// A node whose child slots are all empty stores no child contents.
proof fn lemma_children_points_none(t: Octree, i: int)
    requires
        t.leafs@.len() == 8,
        forall|j: int| 0 <= j < 8 ==> (#[trigger] t.leafs@[j]) is None,
    ensures
        children_points(t, i) == vstd::multiset::Multiset::<Point3>::empty(),
    decreases 8 - i,
{
    if 0 <= i < 8 {
        lemma_children_points_none(t, i + 1);
        assert(children_points(t, i) =~= vstd::multiset::Multiset::<Point3>::empty());
    }
}

/// Equal sums with a common part have equal remainders.
proof fn lemma_multiset_cancel<A>(
    a: vstd::multiset::Multiset<A>,
    b: vstd::multiset::Multiset<A>,
    c: vstd::multiset::Multiset<A>,
)
    requires
        a.add(c) == b.add(c),
    ensures
        a =~= b,
{
    broadcast use vstd::multiset::group_multiset_axioms;

    assert forall|x: A| a.count(x) == b.count(x) by {
        assert(a.add(c).count(x) == a.count(x) + c.count(x));
        assert(b.add(c).count(x) == b.count(x) + c.count(x));
        assert(a.add(c).count(x) == b.add(c).count(x));
    }
}

/// The multiset union of the eight octant filters of `s` around `c`.
pub open spec fn octant_partition_union(
    s: Seq<point::UncertainPoint<World>>,
    c: Point3,
) -> vstd::multiset::Multiset<point::UncertainPoint<World>> {
    octant_filter(s, c, 0).to_multiset().add(octant_filter(s, c, 1).to_multiset()).add(
        octant_filter(s, c, 2).to_multiset(),
    ).add(octant_filter(s, c, 3).to_multiset()).add(octant_filter(s, c, 4).to_multiset()).add(
        octant_filter(s, c, 5).to_multiset(),
    ).add(octant_filter(s, c, 6).to_multiset()).add(octant_filter(s, c, 7).to_multiset())
}

/// A cut partitions a node's points into its eight children with no loss or
/// duplication: every point lands in exactly one octant, so the multiset
/// union of the eight filtered sequences is the original multiset of points.
pub proof fn lemma_cut_partition(s: Seq<point::UncertainPoint<World>>, c: Point3)
    ensures
        octant_partition_union(s, c) =~= s.to_multiset(),
    decreases s.len(),
{
    broadcast use vstd::seq_lib::group_to_multiset_ensures;

    if s.len() == 0 {
        assert forall|k: int| 0 <= k < 8 implies octant_filter(s, c, k).to_multiset()
            =~= vstd::multiset::Multiset::<point::UncertainPoint<World>>::empty() by {
            lemma_filter_empty(s, c, k);
            assert(octant_filter(s, c, k).to_multiset().len() == 0);
        }
    } else {
        let s0 = s.drop_last();
        let p = s.last();
        lemma_cut_partition(s0, c);
        let kp = octant_of(p.inner.inner, c);
        assert(0 <= kp < 8);
        assert forall|k: int| 0 <= k < 8 implies octant_filter(s, c, k).to_multiset() == (if k
            == kp {
            octant_filter(s0, c, k).to_multiset().insert(p)
        } else {
            octant_filter(s0, c, k).to_multiset()
        }) by {
            assert(s =~= s0.push(p));
            lemma_filter_push(s0, p, c, k);
            if k == kp {
                assert(octant_filter(s, c, k) == octant_filter(s0, c, k).push(p));
            }
        }
        assert(s.to_multiset() =~= s0.to_multiset().insert(p)) by {
            assert(s =~= s0.push(p));
        }
        assert(octant_partition_union(s, c) =~= s0.to_multiset().insert(p));
    }
}

/// The plane that answers a query point in a tree: the first one found on
/// the descent by octant signs, stopping at the first node carrying a plane.
pub open spec fn spec_locate(t: Octree, q: Point3) -> Option<plane::UncertainPlane>
    decreases t,
{
    if t.plane is Some {
        t.plane
    } else if t.subdivided && t.leafs@.len() == 8 {
        let k = octant_of(q, t.center.inner);
        if 0 <= k < 8 {
            match t.leafs@[k] {
                Some(c) => spec_locate(*c, q),
                None => None,
            }
        } else {
            None
        }
    } else {
        None
    }
}

/// The residual a query point contributes, if its descent finds a plane and
/// the point survives the outlier test.
pub open spec fn spec_residual(
    t: Octree,
    q: point::UncertainPoint<World>,
    config: &Config,
) -> Option<ResidualTerm> {
    match spec_locate(t, q.inner.inner) {
        Some(pl) => {
            let d = plane::spec_distance_to(
                pl.inner.normal,
                pl.inner.distance_to_origin as int,
                q.inner.inner,
            );
            let sig = plane::spec_sigma_to(pl, q);
            if residual_accepted(d, sig, config.sigma_num as int) {
                Some(
                    ResidualTerm {
                        distance: d as i128,
                        sigma: sig as i128,
                        normal: pl.inner.normal,
                        point: q.inner,
                        center: pl.inner.center,
                    },
                )
            } else {
                None
            }
        },
        None => None,
    }
}

/// The outlier test: a point is kept when its absolute distance is within
/// `sigma_num` floor square roots of its variance.
pub open spec fn residual_accepted(d: int, sigma: int, sigma_num: int) -> bool {
    (if d < 0 {
        -d
    } else {
        d
    }) * (SCALE as int) <= sigma_num * crate::geometry::sqrt_floor(sigma)
}

impl Octree {
    /// Walk down by octant signs to the first plane, if any.
    pub fn locate_plane(&self, q: &Point3) -> (r: Option<&plane::UncertainPlane>)
        requires
            self.wf(),
        ensures
            match r {
                Some(pl) => spec_locate(*self, *q) == Some(*pl) && plane::plane_wf(*pl),
                None => spec_locate(*self, *q) is None,
            },
        decreases self,
    {
        if self.plane.is_some() {
            self.plane.as_ref()
        } else if self.subdivided {
            let k = octant_index(q, &self.center.inner);
            match &self.leafs[k] {
                Some(c) => c.locate_plane(q),
                None => None,
            }
        } else {
            None
        }
    }
}

/// One surviving point-to-plane match: the signed distance of the point to
/// the matched plane, the variance of that distance, and the plane geometry
/// that the filter's Jacobian row is built from.
pub struct ResidualTerm {
    /// Signed point-to-plane distance, fixed-point scale.
    pub distance: i128,
    /// Variance of the distance, fixed-point scale squared.
    pub sigma: i128,
    /// The matched plane's unit normal, fixed-point scale.
    pub normal: Point3,
    /// The queried world point.
    pub point: WorldPoint,
    /// The matched plane's center.
    pub center: WorldPoint,
}

/// Largest coordinate magnitude of a point handed to the map: half the
/// general limit, so that voxel centers stay within bounds.
pub const MAP_COORD_LIMIT: i128 = 0x80_0000;

/// The voxel index of a query point, as a model value.
pub open spec fn spec_index_of(p: Point3, voxel_size: int) -> Point3 {
    Point3 {
        x: (p.x as int / voxel_size) as i128,
        y: (p.y as int / voxel_size) as i128,
        z: (p.z as int / voxel_size) as i128,
    }
}

/// The residual a query point contributes against a whole map: locate its
/// voxel by hash, then descend that voxel's octree.
pub open spec fn map_residual(
    trees: Map<i128, Octree>,
    q: point::UncertainPoint<World>,
    config: &Config,
) -> Option<ResidualTerm> {
    let h = spec_voxel_hash(spec_index_of(q.inner.inner, config.voxel_size as int)) as i128;
    if trees.dom().contains(h) {
        spec_residual(trees[h], q, config)
    } else {
        None
    }
}

/// The map key a point routes to: the polynomial hash of its voxel index.
pub open spec fn point_voxel_key(p: point::UncertainPoint<World>, config: &Config) -> i128 {
    spec_voxel_hash(spec_index_of(p.inner.inner, config.voxel_size as int)) as i128
}

/// The center of the voxel with index `idx`.
pub open spec fn voxel_center_of(idx: Point3, vs: int) -> Point3 {
    Point3 {
        x: (idx.x * vs + vs / 2) as i128,
        y: (idx.y * vs + vs / 2) as i128,
        z: (idx.z * vs + vs / 2) as i128,
    }
}

/// How committing one point changes the map: exactly its voxel's entry
/// changes; an existing octree gains the point's position exactly when the
/// capacity policy absorbs it, and a voxel seen for the first time gets a
/// fresh accumulating root, centered in the voxel with a quarter-edge child
/// offset, holding exactly the one point.
pub open spec fn inserted_step(
    m0: Map<i128, Octree>,
    p: point::UncertainPoint<World>,
    m1: Map<i128, Octree>,
    config: &Config,
) -> bool {
    let h = point_voxel_key(p, config);
    let x = p.inner.inner;
    &&& m1.dom() =~= m0.dom().insert(h)
    &&& (forall|h2: i128|
        h2 != h && m0.dom().contains(h2) ==> #[trigger] m1[h2] == m0[h2])
    &&& m1.dom().contains(h)
    &&& (if m0.dom().contains(h) {
        &&& octree_points(m1[h]) == (if m0[h].spec_absorbs(x, config) {
            octree_points(m0[h]).insert(x)
        } else {
            octree_points(m0[h])
        })
        &&& m1[h].center == m0[h].center
        &&& m1[h].tree_size == m0[h].tree_size
        &&& m1[h].layer == m0[h].layer
        &&& m1[h].plane == m0[h].plane
        &&& m1[h].subdivided == m0[h].subdivided
    } else {
        &&& octree_points(m1[h]) == vstd::multiset::Multiset::<Point3>::empty().insert(x)
        &&& m1[h].center.inner == voxel_center_of(
            spec_index_of(x, config.voxel_size as int),
            config.voxel_size as int,
        )
        &&& m1[h].tree_size as int == (config.voxel_size as int) / 4
        &&& m1[h].layer == 0
        &&& m1[h].plane is None
        &&& !m1[h].subdivided
    })
}

/// How committing a batch changes the map: the points take effect one at a
/// time, in order, each by [`inserted_step`].
pub open spec fn extended_maps(
    m0: Map<i128, Octree>,
    pts: Seq<point::UncertainPoint<World>>,
    m1: Map<i128, Octree>,
    config: &Config,
) -> bool
    decreases pts.len(),
{
    if pts.len() == 0 {
        m1 == m0
    } else {
        exists|mid: Map<i128, Octree>|
            #[trigger] inserted_step(mid, pts.last(), m1, config) && extended_maps(
                m0,
                pts.drop_last(),
                mid,
                config,
            )
    }
}

/// The spatial hash map from voxel index (keyed by its polynomial hash) to
/// the voxel's octree root.
pub struct VoxelMap {
    pub trees: std::collections::HashMap<i128, Octree>,
    pub keys: Vec<i128>,
}

impl VoxelMap {
    /// Every key is present and every stored octree is well formed.
    pub open spec fn wf(&self) -> bool {
        &&& (forall|i: int|
            0 <= i < self.keys@.len() ==> self.trees@.dom().contains(#[trigger] self.keys@[i]))
        &&& (forall|h: i128| #[trigger] self.trees@.dom().contains(h) ==> self.keys@.contains(h))
        &&& (forall|h: i128| #[trigger] self.trees@.dom().contains(h) ==> self.trees@[h].wf())
    }

    pub fn new() -> (r: VoxelMap)
        ensures
            r.wf(),
            r.trees@ =~= Map::<i128, Octree>::empty(),
            r.keys@.len() == 0,
    {
        VoxelMap { trees: std::collections::HashMap::new(), keys: Vec::new() }
    }

    /// Commit a batch of world points: each descends into (or creates) its
    /// voxel's octree under the capacity policy. Mutation happens only here;
    /// residual evaluation never changes the map.
    pub fn extend(&mut self, new_points: Vec<point::UncertainPoint<World>>, config: &Config)
        requires
            old(self).wf(),
            config.wf(),
            config.voxel_size as int <= 0x10_0000,
            forall|i: int|
                0 <= i < new_points@.len() ==> stored_point_wf(#[trigger] new_points@[i])
                    && bounded3(new_points@[i].inner.inner, MAP_COORD_LIMIT as int),
        ensures
            final(self).wf(),
            forall|h: i128|
                old(self).trees@.dom().contains(h) ==> final(self).trees@.dom().contains(h),
            extended_maps(old(self).trees@, new_points@, final(self).trees@, config),
            forall|i: int|
                0 <= i < new_points@.len() ==> final(self).trees@.dom().contains(
                    point_voxel_key(#[trigger] new_points@[i], config),
                ),
            forall|h: i128|
                #![trigger final(self).trees@.dom().contains(h)]
                (forall|i: int|
                    0 <= i < new_points@.len() ==> point_voxel_key(#[trigger] new_points@[i], config)
                        != h) ==> ((final(self).trees@.dom().contains(h)
                    <==> old(self).trees@.dom().contains(h)) && (old(self).trees@.dom().contains(h)
                    ==> final(self).trees@[h] == old(self).trees@[h])),
    {
        let mut pts = new_points;
        let ghost original = pts@;
        let n = pts.len();
        let mut i: usize = 0;
        proof {
            assert(extended_maps(old(self).trees@, original.take(0), self.trees@, config)) by {
                assert(original.take(0).len() == 0);
            }
        }
        while i < n
            invariant
                i <= n,
                n == original.len(),
                pts@ =~= original.skip(i as int),
                self.wf(),
                config.wf(),
                config.voxel_size as int <= 0x10_0000,
                forall|t: int|
                    0 <= t < original.len() ==> stored_point_wf(#[trigger] original[t]) && bounded3(
                        original[t].inner.inner,
                        MAP_COORD_LIMIT as int,
                    ),
                forall|h: i128|
                    old(self).trees@.dom().contains(h) ==> self.trees@.dom().contains(h),
                extended_maps(old(self).trees@, original.take(i as int), self.trees@, config),
                forall|t: int|
                    0 <= t < i ==> self.trees@.dom().contains(
                        point_voxel_key(#[trigger] original[t], config),
                    ),
                forall|h: i128|
                    #![trigger self.trees@.dom().contains(h)]
                    (forall|t: int|
                        0 <= t < i ==> point_voxel_key(#[trigger] original[t], config) != h) ==> ((
                    self.trees@.dom().contains(h) <==> old(self).trees@.dom().contains(h)) && (old(
                        self,
                    ).trees@.dom().contains(h) ==> self.trees@[h] == old(self).trees@[h])),
            decreases n - i,
        {
            let p = pts.remove(0);
            proof {
                assert(p == original[i as int]);
                assert(pts@ =~= original.skip(i as int + 1));
            }
            let ghost before = self.trees@;
            self.insert_point(p, config);
            proof {
                let ghost hstep = point_voxel_key(original[i as int], config);
                assert(original.take(i as int + 1).drop_last() =~= original.take(i as int));
                assert(original.take(i as int + 1).last() == original[i as int]);
                assert(inserted_step(before, original[i as int], self.trees@, config));
                assert(extended_maps(old(self).trees@, original.take(i as int + 1), self.trees@,
                    config));
                // Domain and frame bookkeeping for the step.
                assert(self.trees@.dom() =~= before.dom().insert(hstep));
                assert forall|t: int| 0 <= t < i + 1 implies self.trees@.dom().contains(
                    point_voxel_key(#[trigger] original[t], config),
                ) by {
                    if t < i {
                        assert(before.dom().contains(point_voxel_key(original[t], config)));
                    }
                }
                assert forall|h: i128|
                    #![trigger self.trees@.dom().contains(h)]
                    (forall|t: int|
                        0 <= t < i + 1 ==> point_voxel_key(#[trigger] original[t], config)
                            != h) implies ((self.trees@.dom().contains(h) <==> old(
                    self,
                ).trees@.dom().contains(h)) && (old(self).trees@.dom().contains(h)
                    ==> self.trees@[h] == old(self).trees@[h])) by {
                    assert(point_voxel_key(original[i as int], config) != h);
                    assert(h != hstep);
                    assert(self.trees@.dom().contains(h) <==> before.dom().contains(h));
                    if before.dom().contains(h) {
                        assert(self.trees@[h] == before[h]);
                    }
                }
            }
            i = i + 1;
        }
        proof {
            assert(original.take(n as int) =~= original);
        }
    }

    /// Insert one point into its voxel's octree, creating the root on the
    /// first insertion into that voxel.
    fn insert_point(&mut self, p: point::UncertainPoint<World>, config: &Config)
        requires
            old(self).wf(),
            config.wf(),
            config.voxel_size as int <= 0x10_0000,
            stored_point_wf(p),
            bounded3(p.inner.inner, MAP_COORD_LIMIT as int),
        ensures
            final(self).wf(),
            forall|h: i128|
                old(self).trees@.dom().contains(h) ==> final(self).trees@.dom().contains(h),
            inserted_step(old(self).trees@, p, final(self).trees@, config),
    {
        let ghost vs = config.voxel_size as int;
        let idx = VoxelIndex::from_point(&p.inner, config.voxel_size);
        let h = idx.hash();
        proof {
            assert(idx.0.inner == spec_index_of(p.inner.inner, vs));
            assert(h == point_voxel_key(p, config));
        }
        let slot = self.trees.remove(&h);
        match slot {
            Some(t) => {
                let ghost t0 = t;
                let t2 = t.insert(p, config);
                self.trees.insert(h, t2);
                proof {
                    assert(self.trees@ =~= old(self).trees@.insert(h, t2));
                    assert forall|h2: i128| #[trigger] self.trees@.dom().contains(h2)
                        implies self.keys@.contains(h2) && self.trees@[h2].wf() by {
                        if h2 != h {
                            assert(old(self).trees@.dom().contains(h2));
                        } else {
                            assert(old(self).trees@.dom().contains(h));
                        }
                    }
                    assert(t0 == old(self).trees@[h]);
                    assert(self.trees@.dom() =~= old(self).trees@.dom().insert(h));
                    assert(inserted_step(old(self).trees@, p, self.trees@, config));
                }
            },
            None => {
                // First point of this voxel: its root cube is centered in the
                // voxel, with the child offset at a quarter of the edge.
                let half = floor_div(config.voxel_size, 2);
                let quarter = floor_div(config.voxel_size, 4);
                proof {
                    lemma_root_center_bound(p.inner.inner.x as int, idx.0.inner.x as int, vs,
                        half as int);
                    lemma_root_center_bound(p.inner.inner.y as int, idx.0.inner.y as int, vs,
                        half as int);
                    lemma_root_center_bound(p.inner.inner.z as int, idx.0.inner.z as int, vs,
                        half as int);
                }
                let cx = idx.0.inner.x * config.voxel_size + half;
                let cy = idx.0.inner.y * config.voxel_size + half;
                let cz = idx.0.inner.z * config.voxel_size + half;
                proof {
                    vstd::arithmetic::div_mod::lemma_fundamental_div_mod(vs, 4);
                    assert(1 <= quarter as int && 4 * (quarter as int) <= vs);
                    assert(bounded3(
                        Point3 { x: cx, y: cy, z: cz },
                        COORD_LIMIT as int - 2 * quarter as int,
                    ));
                }
                let center = Framed::new(Point3 { x: cx, y: cy, z: cz });
                let root = Octree::new(center, quarter, 0);
                proof {
                    // A fresh root absorbs its first point and starts empty.
                    assert(root.spec_absorbs(p.inner.inner, config));
                    assert(octree_points(root) =~= vstd::multiset::Multiset::<Point3>::empty()) by {
                        broadcast use vstd::seq_lib::group_to_multiset_ensures;

                        lemma_children_points_none(root, 0);
                        assert(root.points@.map_values(
                            |q: point::UncertainPoint<World>| q.inner.inner,
                        ) =~= Seq::<Point3>::empty());
                        assert(own_points(root.points@).len() == 0);
                    }
                }
                let root2 = root.insert(p, config);
                self.trees.insert(h, root2);
                self.keys.push(h);
                proof {
                    assert(octree_points(root2) =~= vstd::multiset::Multiset::<Point3>::empty().insert(
                        p.inner.inner,
                    ));
                    assert(root2.center.inner == voxel_center_of(spec_index_of(p.inner.inner, vs),
                        vs));
                    assert(root2.tree_size as int == vs / 4);
                    assert(self.trees@ =~= old(self).trees@.insert(h, root2));
                    assert forall|h2: i128| #[trigger] self.trees@.dom().contains(h2)
                        implies self.keys@.contains(h2) && self.trees@[h2].wf() by {
                        if h2 != h {
                            assert(old(self).trees@.dom().contains(h2));
                            assert(old(self).keys@.contains(h2));
                            let w = choose|w: int|
                                0 <= w < old(self).keys@.len() && old(self).keys@[w] == h2;
                            assert(self.keys@[w] == h2);
                        } else {
                            assert(self.keys@[self.keys@.len() - 1] == h);
                        }
                    }
                    assert forall|t: int|
                        0 <= t < self.keys@.len() implies self.trees@.dom().contains(
                        #[trigger] self.keys@[t],
                    ) by {
                        if t < self.keys@.len() - 1 {
                            assert(self.keys@[t] == old(self).keys@[t]);
                        }
                    }
                    assert(self.trees@.dom() =~= old(self).trees@.dom().insert(h));
                    assert(inserted_step(old(self).trees@, p, self.trees@, config));
                }
            },
        }
    }

    /// Evaluate the point-to-plane residuals of a batch of query points
    /// against the frozen map: each point that reaches a fitted plane and
    /// survives the outlier test contributes one term.
    pub fn build_residual(
        &self,
        query: &Vec<point::UncertainPoint<World>>,
        config: &Config,
    ) -> (r: Vec<ResidualTerm>)
        requires
            self.wf(),
            config.wf(),
            forall|i: int|
                0 <= i < query@.len() ==> stored_point_wf(#[trigger] query@[i]) && bounded3(
                    query@[i].inner.inner,
                    MAP_COORD_LIMIT as int,
                ),
        ensures
            r@ =~= query@.filter_map(
                |q: point::UncertainPoint<World>| map_residual(self.trees@, q, config),
            ),
    {
        let ghost f = |q: point::UncertainPoint<World>| map_residual(self.trees@, q, config);
        let mut out: Vec<ResidualTerm> = Vec::new();
        let n = query.len();
        let mut i: usize = 0;
        proof {
            assert(query@.take(0).filter_map(f) =~= Seq::<ResidualTerm>::empty()) by {
                reveal_with_fuel(Seq::filter_map, 1);
                assert(query@.take(0).len() == 0);
            }
        }
        while i < n
            invariant
                i <= n,
                n == query@.len(),
                self.wf(),
                config.wf(),
                forall|t: int|
                    0 <= t < query@.len() ==> stored_point_wf(#[trigger] query@[t]) && bounded3(
                        query@[t].inner.inner,
                        MAP_COORD_LIMIT as int,
                    ),
                f == (|q: point::UncertainPoint<World>| map_residual(self.trees@, q, config)),
                out@ =~= query@.take(i as int).filter_map(f),
            decreases n - i,
        {
            let q = &query[i];
            let term = self.residual_for(q, config);
            proof {
                query@.lemma_filter_map_take_succ(f, i as int);
                assert(f(query@[i as int]) == map_residual(self.trees@, query@[i as int], config));
            }
            match term {
                Some(t) => {
                    out.push(t);
                },
                None => {
                },
            }
            i = i + 1;
        }
        proof {
            assert(query@.take(n as int) =~= query@);
        }
        out
    }

    /// The residual of one query point, if its voxel holds a plane that
    /// accepts it.
    #[verifier::rlimit(60)]
    fn residual_for(&self, q: &point::UncertainPoint<World>, config: &Config) -> (r: Option<
        ResidualTerm,
    >)
        requires
            self.wf(),
            config.wf(),
            stored_point_wf(*q),
            bounded3(q.inner.inner, MAP_COORD_LIMIT as int),
        ensures
            r == map_residual(self.trees@, *q, config),
    {
        let idx = VoxelIndex::from_point(&q.inner, config.voxel_size);
        let h = idx.hash();
        proof {
            assert(idx.0.inner == spec_index_of(q.inner.inner, config.voxel_size as int));
        }
        match self.trees.get(&h) {
            Some(t) => {
                match t.locate_plane(&q.inner.inner) {
                    Some(pl) => {
                        let d = pl.distance_to(&q.inner);
                        proof {
                            crate::linalg::model::lemma_mat_bounded_mono(q.covariance@,
                                PT_COV_LIMIT as int, COV_LIMIT as int);
                        }
                        let sig = pl.sigma_to(q);
                        let ad = if d < 0 {
                            -d
                        } else {
                            d
                        };
                        proof {
                            assert(sig as u128 as int == sig as int);
                        }
                        let squ = int_sqrt(sig as u128);
                        proof {
                            assert(squ as int <= 0x80_0000) by (nonlinear_arith)
                                requires
                                    (squ as int) * (squ as int) <= sig as int,
                                    sig as int <= 0x4000_0000_0000,
                                    squ as int >= 0,
                            ;
                        }
                        let sq = squ as i128;
                        proof {
                            assert(sq as int == crate::geometry::sqrt_floor(sig as int));
                            assert(abs_le(ad as int * (SCALE as int), 7 * (COORD_LIMIT as int)
                                * (SCALE as int))) by (nonlinear_arith)
                                requires
                                    0 <= ad as int <= 7 * (COORD_LIMIT as int),
                                    SCALE as int == 1024,
                            ;
                            lemma_mul_bound(config.sigma_num as int, sq as int, 0x10_0000,
                                0x80_0000);
                        }
                        if ad * SCALE <= config.sigma_num * sq {
                            Some(
                                ResidualTerm {
                                    distance: d,
                                    sigma: sig,
                                    normal: pl.inner.normal,
                                    point: q.inner,
                                    center: pl.inner.center,
                                },
                            )
                        } else {
                            None
                        }
                    },
                    None => None,
                }
            },
            None => None,
        }
    }
}

/// A voxel's center coordinate stays well inside the coordinate limit.
proof fn lemma_root_center_bound(pc: int, ic: int, vs: int, half: int)
    requires
        4 <= vs <= 0x10_0000,
        half == vs / 2,
        -(MAP_COORD_LIMIT as int) <= pc <= MAP_COORD_LIMIT as int,
        ic * vs <= pc,
        pc < (ic + 1) * vs,
    ensures
        abs_le(ic * vs + half, COORD_LIMIT as int - 2 * (vs / 4) - vs),
        abs_le(ic * vs, COORD_LIMIT as int),
{
    vstd::arithmetic::div_mod::lemma_fundamental_div_mod(vs, 2);
    vstd::arithmetic::div_mod::lemma_fundamental_div_mod(vs, 4);
    assert(abs_le(ic * vs + half, COORD_LIMIT as int - 2 * (vs / 4) - vs) && abs_le(
        ic * vs,
        COORD_LIMIT as int,
    )) by (nonlinear_arith)
        requires
            4 <= vs <= 0x10_0000,
            0 <= half <= vs,
            0 <= vs / 4 <= vs,
            -(MAP_COORD_LIMIT as int) <= pc <= MAP_COORD_LIMIT as int,
            MAP_COORD_LIMIT as int == 0x80_0000,
            COORD_LIMIT as int == 0x100_0000,
            ic * vs <= pc,
            pc < (ic + 1) * vs,
    ;
}

} // verus!
