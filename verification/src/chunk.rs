//! A chunk: 16 x 16 x 16 voxels of a region, decoded from a tile of the
//! region's atlas and meshed into boxes.
//!
//! A tile is 64 x 64 texels of four bytes each, row by row. It packs the
//! sixteen `z` slices of the chunk as a 4 x 4 grid of 16 x 16 slices. A
//! voxel is solid when the fourth byte of its texel, the alpha channel, is
//! above 128. A texel that the tile is too short to hold counts as empty.

use vstd::prelude::*;
use crate::mesher::{
    centres, centres_of, extents, extents_of, greedy_boxes, greedy_mesh, partitions, Cuboid,
};
use crate::utils::{chunk_id, chunk_key, in_region, CHUNK};

verus! {

/// The number of voxels of a chunk.
pub const VOXELS: usize = 4096;

/// The alpha value above which a texel makes its voxel solid.
pub const THRESHOLD: u8 = 128;

/// The index, in a tile, of the first byte of the texel of voxel
/// `(x, y, z)`.
pub open spec fn texel(x: int, y: int, z: int) -> int {
    (((z / 4) * 16 + y) * 64 + (z % 4) * 16 + x) * 4
}

/// The alpha value of the texel of voxel `(x, y, z)` in `tile`.
pub open spec fn alpha(tile: Seq<u8>, x: int, y: int, z: int) -> int {
    let a = texel(x, y, z) + 3;
    if a < tile.len() {
        tile[a] as int
    } else {
        0
    }
}

/// The occupancy buffer that `tile` decodes to: one byte per voxel, 1 for
/// a solid voxel and 0 for an empty one.
pub open spec fn decoded(tile: Seq<u8>) -> Seq<u8> {
    Seq::new(
        VOXELS as nat,
        |p: int|
            if alpha(tile, p % 16, (p / 16) % 16, p / 256) > THRESHOLD {
                1u8
            } else {
                0u8
            },
    )
}

/// The boxes `boxes`, each moved by `(dx, dy, dz)` voxels.
pub open spec fn shifted(boxes: Seq<Cuboid>, dx: int, dy: int, dz: int) -> Seq<Cuboid> {
    Seq::new(boxes.len(), |j: int| boxes[j].moved(dx, dy, dz))
}

/// The index, in a tile, of the first byte of the texel of voxel
/// `(x, y, z)` of a chunk.
pub fn texel_offset(x: usize, y: usize, z: usize) -> (r: usize)
    requires
        x < 16,
        y < 16,
        z < 16,
    ensures
        r == texel(x as int, y as int, z as int),
        r + 3 < 64 * 64 * 4,
{
    (((z / 4) * 16 + y) * 64 + (z % 4) * 16 + x) * 4
}

/// Decodes a tile into the occupancy buffer of a chunk.
pub fn decode(tile: &[u8]) -> (vox: Vec<u8>)
    ensures
        vox@ == decoded(tile@),
{
    let mut vox: Vec<u8> = Vec::new();
    let mut z: usize = 0;
    while z < 16
        invariant
            z <= 16,
            vox.len() == z * 256,
            forall|p: int| 0 <= p < vox.len() ==> vox@[p] == decoded(tile@)[p],
        decreases 16 - z,
    {
        let mut y: usize = 0;
        while y < 16
            invariant
                z < 16,
                y <= 16,
                vox.len() == z * 256 + y * 16,
                forall|p: int| 0 <= p < vox.len() ==> vox@[p] == decoded(tile@)[p],
            decreases 16 - y,
        {
            let mut x: usize = 0;
            while x < 16
                invariant
                    z < 16,
                    y < 16,
                    x <= 16,
                    vox.len() == z * 256 + y * 16 + x,
                    forall|p: int| 0 <= p < vox.len() ==> vox@[p] == decoded(tile@)[p],
                decreases 16 - x,
            {
                let a = texel_offset(x, y, z) + 3;
                let solid = a < tile.len() && tile[a] > THRESHOLD;
                vox.push(if solid { 1 } else { 0 });
                x += 1;
            }
            y += 1;
        }
        z += 1;
    }
    assert(vox@ =~= decoded(tile@));
    vox
}

/// What a chunk is, as plain values.
pub struct ChunkView {
    /// The chunk's place `(i, j, k)` in its region.
    pub place: (int, int, int),
    /// Whether the chunk is decoded and meshed.
    pub meshed: bool,
    /// The chunk's occupancy buffer, if it is decoded.
    pub voxels: Option<Seq<u8>>,
    /// The chunk's boxes, in the coordinates of its region.
    pub cuboids: Seq<Cuboid>,
}

impl ChunkView {
    /// The unloaded chunk at `(i, j, k)`.
    pub open spec fn unloaded(i: int, j: int, k: int) -> ChunkView {
        ChunkView { place: (i, j, k), meshed: false, voxels: None, cuboids: Seq::empty() }
    }

    /// The chunk after `tile` was loaded into it: a meshed chunk stays as
    /// it is; an unloaded one holds the buffer that the tile decodes to and
    /// the boxes of the buffer's greedy mesh, moved to the chunk's place.
    pub open spec fn loaded(self, tile: Seq<u8>) -> ChunkView {
        if self.meshed {
            self
        } else {
            ChunkView {
                place: self.place,
                meshed: true,
                voxels: Some(decoded(tile)),
                cuboids: shifted(
                    greedy_boxes(decoded(tile), 16),
                    self.place.0 * CHUNK,
                    self.place.1 * CHUNK,
                    self.place.2 * CHUNK,
                ),
            }
        }
    }

    /// The chunk after it was unloaded.
    pub open spec fn disposed(self) -> ChunkView {
        ChunkView::unloaded(self.place.0, self.place.1, self.place.2)
    }

    /// The chunk's id.
    pub open spec fn key(self) -> int {
        chunk_key(self.place.0, self.place.1, self.place.2)
    }
}

/// One chunk of a region.
pub struct Chunk {
    id: i32,
    x: i32,
    y: i32,
    z: i32,
    i: i32,
    j: i32,
    k: i32,
    is_meshed: bool,
    vox: Option<Vec<u8>>,
    boxes: Vec<Cuboid>,
}

impl View for Chunk {
    type V = ChunkView;

    closed spec fn view(&self) -> ChunkView {
        ChunkView {
            place: (self.i as int, self.j as int, self.k as int),
            meshed: self.is_meshed,
            voxels: match self.vox {
                Some(v) => Some(v@),
                None => None,
            },
            cuboids: self.boxes@,
        }
    }
}

impl Chunk {
    /// The invariant of a chunk: it lies in its region; it is either
    /// unloaded, with no buffer and no boxes, or meshed, with a buffer of
    /// 4096 bytes and the boxes of the buffer's greedy mesh, moved to the
    /// chunk's place in the region.
    pub closed spec fn wf(&self) -> bool {
        &&& in_region(self.i as int, self.j as int, self.k as int)
        &&& self.id == chunk_key(self.i as int, self.j as int, self.k as int)
        &&& self.x == self.i * CHUNK
        &&& self.y == self.j * CHUNK
        &&& self.z == self.k * CHUNK
        &&& if self.is_meshed {
            &&& self.vox matches Some(v)
            &&& v@.len() == VOXELS
            &&& self.boxes@ == shifted(
                greedy_boxes(v@, 16),
                self.x as int,
                self.y as int,
                self.z as int,
            )
            &&& partitions(v@, 16, greedy_boxes(v@, 16))
        } else {
            &&& self.vox is None
            &&& self.boxes@.len() == 0
        }
    }

    /// What the invariant says of the chunk's plain values: the chunk lies
    /// in its region, an unloaded chunk is empty, the buffer of a meshed
    /// chunk has 4096 bytes, and each box lies in the region.
    pub proof fn lemma_wf(&self)
        requires
            self.wf(),
        ensures
            in_region(self@.place.0, self@.place.1, self@.place.2),
            !self@.meshed ==> self@ == self@.disposed(),
            self@.meshed ==> self@.voxels is Some && self@.voxels->0.len() == VOXELS,
            forall|n: int| 0 <= n < self@.cuboids.len() ==> (#[trigger] self@.cuboids[n]).inside(256),
    {
        if !self.is_meshed {
            assert(self@.cuboids =~= Seq::<Cuboid>::empty());
        }
    }

    /// The chunk's id.
    pub fn id(&self) -> (r: i32)
        requires
            self.wf(),
        ensures
            r == self@.key(),
            0 <= r < 4096,
    {
        self.id
    }

    /// The `x` offset of the chunk in its region, in voxels.
    pub fn x(&self) -> (r: i32)
        requires
            self.wf(),
        ensures
            r == self@.place.0 * CHUNK,
    {
        self.x
    }

    /// The `y` offset of the chunk in its region, in voxels.
    pub fn y(&self) -> (r: i32)
        requires
            self.wf(),
        ensures
            r == self@.place.1 * CHUNK,
    {
        self.y
    }

    /// The `z` offset of the chunk in its region, in voxels.
    pub fn z(&self) -> (r: i32)
        requires
            self.wf(),
        ensures
            r == self@.place.2 * CHUNK,
    {
        self.z
    }

    /// The corner, in the region's atlas, of the tile that holds this
    /// chunk.
    pub fn tile_origin(&self) -> (r: (i32, i32))
        requires
            self.wf(),
        ensures
            r.0 == (self@.place.2 % 4) * 1024 + self@.place.0 * 64,
            r.1 == (self@.place.2 / 4) * 1024 + self@.place.1 * 64,
    {
        ((self.k % 4) * 1024 + self.i * 64, (self.k / 4) * 1024 + self.j * 64)
    }

    /// Whether the chunk is decoded and meshed.
    pub fn is_meshed(&self) -> (r: bool)
        ensures
            r == self@.meshed,
    {
        self.is_meshed
    }

    /// Decodes `tile` into the chunk's occupancy buffer and meshes it. The
    /// boxes are moved to the chunk's place in its region. A chunk that is
    /// meshed already is left as it is.
    pub fn load(&mut self, tile: &[u8])
        requires
            old(self).wf(),
        ensures
            final(self).wf(),
            final(self)@ == old(self)@.loaded(tile@),
            old(self)@.meshed ==> *final(self) == *old(self),
    {
        if self.is_meshed {
            return ;
        }
        let vox = decode(tile);
        let mesh = greedy_mesh(vox.as_slice(), CHUNK as u32);
        let mut boxes: Vec<Cuboid> = Vec::new();
        let mut n: usize = 0;
        while n < mesh.len()
            invariant
                n <= mesh.len(),
                boxes.len() == n,
                0 <= self.x <= 240 && 0 <= self.y <= 240 && 0 <= self.z <= 240,
                forall|j: int| 0 <= j < mesh.len() ==> (#[trigger] mesh@[j]).inside(16),
                forall|j: int|
                    0 <= j < n ==> boxes@[j] == mesh@[j].moved(
                        self.x as int,
                        self.y as int,
                        self.z as int,
                    ),
            decreases mesh.len() - n,
        {
            assert(mesh@[n as int].inside(16));
            boxes.push(mesh[n].move_by(self.x, self.y, self.z));
            n += 1;
        }
        assert(boxes@ =~= shifted(mesh@, self.x as int, self.y as int, self.z as int));
        self.vox = Some(vox);
        self.boxes = boxes;
        self.is_meshed = true;
    }

    /// Unloads the chunk: its buffer and its boxes are dropped.
    pub fn dispose(&mut self)
        requires
            old(self).wf(),
        ensures
            final(self).wf(),
            final(self)@ == old(self)@.disposed(),
    {
        self.is_meshed = false;
        self.vox = None;
        self.boxes.clear();
        assert(self@.cuboids =~= Seq::<Cuboid>::empty());
    }

    /// The number of boxes of the chunk's mesh.
    pub fn count(&self) -> (r: usize)
        ensures
            r == self@.cuboids.len(),
    {
        self.boxes.len()
    }

    /// The chunk's occupancy buffer, if it is decoded.
    pub fn vox(&self) -> (r: Option<&Vec<u8>>)
        ensures
            match r {
                Some(v) => self@.voxels == Some(v@),
                None => self@.voxels is None,
            },
    {
        self.vox.as_ref()
    }

    /// The chunk's boxes, in the coordinates of its region.
    pub fn boxes(&self) -> (r: &Vec<Cuboid>)
        ensures
            r@ == self@.cuboids,
    {
        &self.boxes
    }

    /// The centres of the chunk's boxes, in half voxels: three numbers for
    /// each box.
    pub fn pos(&self) -> (r: Vec<i32>)
        ensures
            r@ == centres_of(self@.cuboids),
    {
        centres(&self.boxes)
    }

    /// The extents of the chunk's boxes, in voxels: three numbers for each
    /// box.
    pub fn scl(&self) -> (r: Vec<i32>)
        ensures
            r@ == extents_of(self@.cuboids),
    {
        extents(&self.boxes)
    }
}

/// The chunk at `(i, j, k)` of a region, unloaded; `None` where `(i, j, k)`
/// is no chunk of a region.
pub fn create_chunk(i: i32, j: i32, k: i32) -> (r: Option<Chunk>)
    ensures
        r is Some <==> in_region(i as int, j as int, k as int),
        r matches Some(c) ==> c.wf() && c@ == ChunkView::unloaded(i as int, j as int, k as int),
{
    if i < 0 || i >= CHUNK || j < 0 || j >= CHUNK || k < 0 || k >= CHUNK {
        return None;
    }
    let c = Chunk {
        id: chunk_id(i, j, k),
        x: i * CHUNK,
        y: j * CHUNK,
        z: k * CHUNK,
        i,
        j,
        k,
        is_meshed: false,
        vox: None,
        boxes: Vec::new(),
    };
    assert(c@.cuboids =~= Seq::<Cuboid>::empty());
    Some(c)
}

} // verus!
