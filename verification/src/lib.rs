use vstd::prelude::*;

pub mod dungeon;
pub mod extent;
pub mod graph;
pub mod lattice;
pub mod room;
pub mod sampling;
pub mod symmetric_map;

verus! {

use crate::lattice::Point;

/// A voxel value emitted by the generator: a signed distance (in lattice
/// units) and a type tag. `0` marks empty space, `1` marks floor.
pub struct Voxel {
    pub distance: i32,
    pub voxel_type: u8,
}

/// The voxel written into carved doorways: maximal distance, empty type.
pub fn empty_voxel() -> (v: Voxel)
    ensures
        v.distance == i32::MAX,
        v.voxel_type == 0,
{
    Voxel { distance: i32::MAX, voxel_type: 0 }
}

/// The voxel written into room wall shells: negative distance, floor type.
pub fn floor_voxel() -> (v: Voxel)
    ensures
        v.distance == -1,
        v.voxel_type == 1,
{
    Voxel { distance: -1, voxel_type: 1 }
}

/// Implement this to let the generation algorithms write into your voxel map.
pub trait VoxelEncoder {
    /// `data` is the voxel value to write at `point`.
    fn encode_voxel(&mut self, point: &Point, data: &Voxel);
}

/// The ordered set of lattice points a player may spawn on.
#[derive(Debug)]
pub struct SpawnArea {
    pub valid_spawn_points: Vec<Point>,
}

} // verus!
