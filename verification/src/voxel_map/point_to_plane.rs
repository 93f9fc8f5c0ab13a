//! The joint uncertainty of one point-to-plane match.

use vstd::prelude::*;

use crate::uncertain::Uncertainty;
use crate::voxel_map::plane::PlaneUncertainties;
use crate::voxel_map::point::WorldPointUncertainties;

verus! {

/// A point-to-plane match carrying the joint covariance of the plane and the
/// queried point.
pub struct UncertainPoint2Plane {
    pub covariance: Point2PlaneUncertainties,
}

/// The composite (plane, world point) uncertainty: the plane's 6 by 6 block
/// leading, the point's 3 by 3 block trailing, cross terms zero.
pub struct Point2PlaneUncertainties {
    pub composite: Uncertainty,
}

impl Point2PlaneUncertainties {
    pub open spec fn wf(&self) -> bool {
        &&& self.composite.wf()
        &&& self.composite.dim() == 9
    }

    /// Stack a plane's covariance with a point's.
    pub fn from_parts(plane: &PlaneUncertainties, world_point: &WorldPointUncertainties) -> (r: Self)
        requires
            plane.wf(),
            world_point.wf(),
            world_point.dim() == 3,
        ensures
            r.wf(),
            r.composite@ =~~= crate::linalg::model::block_pair(plane.composite@, world_point@),
    {
        Point2PlaneUncertainties { composite: plane.composite.stacked_with(world_point) }
    }
}

} // verus!
