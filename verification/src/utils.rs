//! World constants and the mapping between region coordinates, region ids
//! and world positions.

use vstd::prelude::*;

verus! {

/// First column of the world scope.
pub const SCOPE_X0: i32 = 28;

/// Last column of the world scope.
pub const SCOPE_X1: i32 = 123;

/// First row of the world scope.
pub const SCOPE_Y0: i32 = 75;

/// Last row of the world scope.
pub const SCOPE_Y1: i32 = 79;

/// Number of regions in one row of the world grid.
pub const ROW: i32 = 96;

/// Number of render slots, and the distance (in regions) within which a
/// region counts as near.
pub const SLOT: i32 = 16;

/// Side of a chunk in voxels, and side of a region in chunks.
pub const CHUNK: i32 = 16;

/// Capacity of the region cache.
pub const CACHE: i32 = 32;

/// Side of a region in world units.
pub const REGION: i32 = 256;

/// Radius of the prefetch window, in regions.
pub const PREFETCH: i32 = 16;

/// Whether the region `(i, j)` lies inside the world scope.
pub open spec fn in_scope(i: int, j: int) -> bool {
    SCOPE_X0 <= i <= SCOPE_X1 && SCOPE_Y0 <= j <= SCOPE_Y1
}

/// Whether the region `(i, j)` lies inside the world scope.
pub fn scoped(i: i32, j: i32) -> (r: bool)
    ensures
        r == in_scope(i as int, j as int),
{
    SCOPE_X0 <= i && i <= SCOPE_X1 && SCOPE_Y0 <= j && j <= SCOPE_Y1
}

/// The world offset of the region `(i, j)`: its corner of lowest
/// coordinates, in world units.
pub open spec fn region_offset(i: int, j: int) -> (int, int, int) {
    ((i - SCOPE_X0) * REGION, 0, (SCOPE_Y1 - j) * REGION)
}

/// The region whose footprint holds the world point with integer part
/// `(x, z)` in the ground plane.
pub open spec fn region_of(x: int, z: int) -> (int, int) {
    (SCOPE_X0 + x / (REGION as int), SCOPE_Y1 - z / (REGION as int))
}

/// The id of the region `(i, j)`.
pub open spec fn region_key(i: int, j: int) -> int {
    i + ROW * j
}

/// The id of the chunk `(i, j, k)` of a region.
pub open spec fn chunk_key(i: int, j: int, k: int) -> int {
    i + j * CHUNK + k * CHUNK * CHUNK
}

/// Whether `(i, j, k)` is a chunk of a region.
pub open spec fn in_region(i: int, j: int, k: int) -> bool {
    0 <= i < CHUNK && 0 <= j < CHUNK && 0 <= k < CHUNK
}

/// The world offset of the region `(i, j)`.
pub fn off_of(i: i32, j: i32) -> (r: (i32, i32, i32))
    requires
        i32::MIN <= (i - SCOPE_X0) * REGION <= i32::MAX,
        i32::MIN <= (SCOPE_Y1 - j) * REGION <= i32::MAX,
    ensures
        (r.0 as int, r.1 as int, r.2 as int) == region_offset(i as int, j as int),
{
    let x: i64 = (i as i64 - SCOPE_X0 as i64) * (REGION as i64);
    let z: i64 = (SCOPE_Y1 as i64 - j as i64) * (REGION as i64);
    (x as i32, 0, z as i32)
}

/// The quotient of `a` by the side of a region, rounded down.
fn region_floor(a: i32) -> (q: i32)
    ensures
        q == (a as int) / (REGION as int),
        -0x80_0000 <= q < 0x80_0000,
{
    if a >= 0 {
        a / REGION
    } else {
        let up: i64 = (REGION as i64 - 1 - a as i64) / (REGION as i64);
        (-up) as i32
    }
}

/// The region whose footprint holds a world point, given the integer part
/// `(x, z)` of the point's position in the ground plane.
pub fn pos_of(x: i32, z: i32) -> (r: (i32, i32))
    ensures
        (r.0 as int, r.1 as int) == region_of(x as int, z as int),
{
    (SCOPE_X0 + region_floor(x), SCOPE_Y1 - region_floor(z))
}

/// The id of the region `(i, j)`.
pub fn region_id(i: i32, j: i32) -> (id: i32)
    requires
        i32::MIN <= i + ROW * j <= i32::MAX,
    ensures
        id == region_key(i as int, j as int),
{
    let id: i64 = i as i64 + (ROW as i64) * (j as i64);
    id as i32
}

/// The id of the chunk `(i, j, k)`.
pub fn chunk_id(i: i32, j: i32, k: i32) -> (id: i32)
    requires
        i32::MIN <= i + j * CHUNK + k * CHUNK * CHUNK <= i32::MAX,
    ensures
        id == chunk_key(i as int, j as int, k as int),
{
    let id: i64 = i as i64 + (j as i64) * (CHUNK as i64) + (k as i64) * (CHUNK as i64) * (
    CHUNK as i64);
    id as i32
}

/// Two regions of the world scope with the same id are the same region.
pub proof fn lemma_region_id_injective(i1: int, j1: int, i2: int, j2: int)
    requires
        in_scope(i1, j1),
        in_scope(i2, j2),
        region_key(i1, j1) == region_key(i2, j2),
    ensures
        i1 == i2,
        j1 == j2,
{
}

/// Every point of a region's footprint is mapped back to that region.
pub proof fn lemma_pos_of_off_of(i: int, j: int, x: int, z: int)
    requires
        region_offset(i, j).0 <= x < region_offset(i, j).0 + REGION,
        region_offset(i, j).2 <= z < region_offset(i, j).2 + REGION,
    ensures
        region_of(x, z) == (i, j),
{
}

/// A point lies in the footprint of the region that it is mapped to.
pub proof fn lemma_off_of_pos_of(x: int, z: int)
    ensures
        ({
            let (i, j) = region_of(x, z);
            &&& region_offset(i, j).0 <= x < region_offset(i, j).0 + REGION
            &&& region_offset(i, j).2 <= z < region_offset(i, j).2 + REGION
        }),
{
}

/// The numbers from 0 up to `n`, without `n`.
pub fn range(n: u32) -> (r: Vec<u32>)
    ensures
        r@.len() == n,
        forall|k: int| 0 <= k < n ==> r@[k] == k,
{
    let mut r: Vec<u32> = Vec::new();
    let mut k: u32 = 0;
    while k < n
        invariant
            k <= n,
            r@.len() == k,
            forall|t: int| 0 <= t < k ==> r@[t] == t,
        decreases n - k,
    {
        r.push(k);
        k += 1;
    }
    r
}

} // verus!
