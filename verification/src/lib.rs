//! Streaming, meshing and caching of a sparse voxel world.
//!
//! The world is a grid of regions of 256 x 256 x 256 voxels. Each region
//! is cut into 16 x 16 x 16 chunks of 16 x 16 x 16 voxels. A chunk is
//! decoded from a tile of its region's atlas image and compressed into
//! boxes by greedy meshing; the boxes of the regions around the camera are
//! gathered in one mesh. The cache decides in each frame which regions to
//! hold, which to draw and which images to fetch, and the slot pool binds
//! the regions to draw to a fixed number of render slots.
//!
//! Nothing here reads an image, a clock or a key. The caller fetches the
//! images, reads their tiles, measures the time and draws; it hands plain
//! values in and acts on the plain values that come back.

use vstd::prelude::*;

pub mod camera;
pub mod chunk;
pub mod mesh;
pub mod mesher;
pub mod queue;
pub mod region;
pub mod regions;
pub mod slot;
pub mod utils;
pub mod window;

pub use chunk::{create_chunk, Chunk};
pub use mesh::{create_mesh, Mesh};
pub use mesher::{greedy_mesh, Cuboid};
pub use queue::{create_queues, Queues};
pub use region::{make_region, Region};
pub use regions::{create_regions, Regions};
pub use slot::{create_slots, Slots};
pub use utils::range;

verus! {

/// The bounds of the world scope, in regions.
#[derive(Clone, Copy, Debug, PartialEq, Eq, Structural)]
pub struct Scope {
    pub x0: i32,
    pub x1: i32,
    pub y0: i32,
    pub y1: i32,
}

/// The number of regions in one row of the world grid.
#[allow(non_snake_case)]
pub fn ROW() -> (r: i32)
    ensures
        r == utils::ROW,
        r == utils::SCOPE_X1 - utils::SCOPE_X0 + 1,
{
    utils::ROW
}

/// The side of a region in world units.
#[allow(non_snake_case)]
pub fn REGION() -> (r: i32)
    ensures
        r == utils::REGION,
{
    utils::REGION
}

/// The number of render slots.
#[allow(non_snake_case)]
pub fn SLOT() -> (r: i32)
    ensures
        r == utils::SLOT,
{
    utils::SLOT
}

/// The bounds of the world scope.
#[allow(non_snake_case)]
pub fn SCOPE() -> (r: Scope)
    ensures
        r == (Scope {
            x0: utils::SCOPE_X0,
            x1: utils::SCOPE_X1,
            y0: utils::SCOPE_Y0,
            y1: utils::SCOPE_Y1,
        }),
        forall|i: int, j: int|
            utils::in_scope(i, j) <==> r.x0 <= i <= r.x1 && r.y0 <= j <= r.y1,
{
    Scope { x0: utils::SCOPE_X0, x1: utils::SCOPE_X1, y0: utils::SCOPE_Y0, y1: utils::SCOPE_Y1 }
}

} // verus!
