//! The origin for an affine transform of a column.

use vstd::prelude::*;

use crate::geom::Point;

verus! {

/// Where a transform of each geometry is anchored: the centroid of the
/// geometry, the center of its bounding box, or one fixed point shared
/// by every row.
#[derive(Clone, Copy, Debug, PartialEq, Eq, Structural)]
pub enum TransformOrigin {
    Centroid,
    Center,
    Point(Point),
}

} // verus!
