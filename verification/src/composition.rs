//! Composition of placed volumes: what the merged volume is, stated over the
//! voxels of the parts after their placements were applied.

use glam::{Mat4, UVec3};
use vstd::prelude::*;

use crate::addressing::{in_bounds, volume};
use crate::content::{empty_cells, filled, painted};
use crate::placement::{placed_point, unplaced, PlacedPoint};
use crate::scene::MaterialId;
use crate::segments::{empty_segments, single_cells};
use crate::tensor::{SparseTensorChunk, TensorError};

verus! {

/// A voxel in the shared frame: where it came to lie, and its material.
pub type PlacedVoxel = (PlacedPoint, MaterialId);

/// Whether a placed point is a grid point: finite, not negative, and small
/// enough that an extent can reach past it.
pub open spec fn representable(p: PlacedPoint) -> bool {
    &&& p.finite
    &&& 0 <= p.x < u32::MAX
    &&& 0 <= p.y < u32::MAX
    &&& 0 <= p.z < u32::MAX
}

/// Whether every point of the series is a grid point.
pub open spec fn all_representable(points: Seq<PlacedVoxel>) -> bool {
    forall|k: int| 0 <= k < points.len() ==> representable(#[trigger] points[k].0)
}

/// The grid point of a representable placed point.
pub open spec fn grid_point(p: PlacedPoint) -> UVec3 {
    UVec3 { x: p.x as u32, y: p.y as u32, z: p.z as u32 }
}

/// The larger of two numbers.
pub open spec fn larger(a: int, b: int) -> int {
    if a >= b {
        a
    } else {
        b
    }
}

/// The smallest extent that holds every point of the series: on each axis
/// one more than the largest coordinate, and zero where there is no point.
pub open spec fn bounding(points: Seq<PlacedVoxel>) -> UVec3
    decreases points.len(),
{
    if points.len() == 0 {
        UVec3 { x: 0, y: 0, z: 0 }
    } else {
        let b = bounding(points.drop_last());
        let p = grid_point(points.last().0);
        UVec3 {
            x: larger(b.x as int, p.x + 1) as u32,
            y: larger(b.y as int, p.y + 1) as u32,
            z: larger(b.z as int, p.z + 1) as u32,
        }
    }
}

/// The writes that the series of placed voxels amounts to.
pub open spec fn grid_ops(points: Seq<PlacedVoxel>) -> Seq<(UVec3, MaterialId)> {
    Seq::new(points.len(), |k: int| (grid_point(points[k].0), points[k].1))
}

/// The voxels of a volume after its placement `m` was applied to each.
pub open spec fn placed_voxels(m: Mat4, voxels: Seq<(UVec3, MaterialId)>) -> Seq<PlacedVoxel> {
    Seq::new(
        voxels.len(),
        |k: int| (placed_point(m, voxels[k].0), voxels[k].1),
    )
}

/// What assembling a series of placed voxels gives.
///
/// It fails with `Unrepresentable` exactly when some point is no grid point,
/// and with `TooLarge` exactly when all are but their bounding extent has
/// more cells than a run length can count. Else the result is a well-formed
/// volume of the bounding extent, placed where it is, into which the voxels
/// were written in order, a later one replacing an earlier one in the same cell, and whose
/// runs were not merged afterwards.
pub open spec fn assembled(points: Seq<PlacedVoxel>, r: Result<SparseTensorChunk, TensorError>) -> bool {
    let dim = bounding(points);
    match r {
        Ok(c) => {
            &&& all_representable(points)
            &&& volume(dim) <= u32::MAX
            &&& c.wf()
            &&& c.dim() == dim
            &&& c.placement() == unplaced()
            &&& c@ == painted(empty_cells(volume(dim)), dim, grid_ops(points))
            &&& c.segments() == filled(empty_segments(dim), dim, grid_ops(points))
            &&& c.segments().len() == volume(dim)
            &&& single_cells(c.segments())
        },
        Err(TensorError::Unrepresentable) => !all_representable(points),
        Err(TensorError::TooLarge) => all_representable(points) && volume(dim) > u32::MAX,
        Err(TensorError::OutOfBounds) => false,
    }
}

/// The bounding extent of grid points fits the machine's integers and grows
/// with the series.
pub proof fn lemma_bounding_grows(points: Seq<PlacedVoxel>, n: int)
    requires
        all_representable(points),
        0 <= n <= points.len(),
    ensures
        bounding(points.take(n)).x <= bounding(points).x,
        bounding(points.take(n)).y <= bounding(points).y,
        bounding(points.take(n)).z <= bounding(points).z,
    decreases points.len() - n,
{
    if n == points.len() {
        assert(points.take(n) =~= points);
    } else {
        let r = points.drop_last();
        assert forall|k: int| 0 <= k < r.len() implies representable(#[trigger] r[k].0) by {
            assert(r[k] == points[k]);
        }
        lemma_bounding_grows(r, n);
        assert(r.take(n) =~= points.take(n));
        assert(representable(points[points.len() - 1].0));
    }
}

/// Every point of the series is a cell of the bounding extent.
pub proof fn lemma_bounding_contains(points: Seq<PlacedVoxel>, k: int)
    requires
        all_representable(points),
        0 <= k < points.len(),
    ensures
        in_bounds(grid_point(points[k].0), bounding(points)),
{
    let t = points.take(k + 1);
    assert(t.last() == points[k]);
    assert(representable(points[k].0));
    let r = t.drop_last();
    assert forall|j: int| 0 <= j < r.len() implies representable(#[trigger] r[j].0) by {
        assert(r[j] == points[j]);
    }
    lemma_bounding_grows(r, r.len() as int);
    lemma_bounding_grows(points, k + 1);
}

} // verus!
