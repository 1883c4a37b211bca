//! A region: 16 x 16 x 16 chunks of the world, with the state of its atlas
//! image and of its decoding.
//!
//! The image itself stays with the caller, which fetches it and reads its
//! tiles. A region records whether the image is there, whether a fetch was
//! asked for, and how far the decoding of its chunks has come. Decoding is
//! driven step by step: each step either hands out the next chunk to load,
//! or says that the region is complete, or that the caller has to come
//! back later.

use vstd::prelude::*;
use crate::chunk::{create_chunk, Chunk, ChunkView};
use crate::mesh::{tagged, Mesh};
use crate::chunk::shifted;
use crate::utils::{
    chunk_key, in_region, in_scope, off_of, region_id, region_key, region_offset, scoped,
};

verus! {

/// The number of chunks of a region.
pub const CHUNKS: usize = 4096;

/// What a region is, as plain values.
pub struct RegionView {
    /// The region's column in the world grid.
    pub i: int,
    /// The region's row in the world grid.
    pub j: int,
    /// Whether the region's atlas image is there.
    pub image: bool,
    /// Whether a fetch of the image was asked for and has not ended.
    pub pending: bool,
    /// Whether the region was given a drawing context to read tiles from.
    pub context: bool,
    /// The slot that the region is bound to; negative when it has none.
    pub slot: int,
    /// The index of the next chunk to decode.
    pub cursor: int,
    /// The region's chunks, by id; none once the region is disposed.
    pub chunks: Seq<ChunkView>,
}

impl RegionView {
    /// The region's id.
    pub open spec fn key(self) -> int {
        region_key(self.i, self.j)
    }

    /// The region `(i, j)` as it is created: no image, no fetch, no
    /// context, no slot, and 4096 unloaded chunks.
    pub open spec fn fresh(i: int, j: int) -> RegionView {
        RegionView {
            i,
            j,
            image: false,
            pending: false,
            context: false,
            slot: -1,
            cursor: 0,
            chunks: Seq::new(
                CHUNKS as nat,
                |c: int| ChunkView::unloaded(c % 16, (c / 16) % 16, c / 256),
            ),
        }
    }

    /// The region after a prefetch: a fetch is pending unless the image is
    /// there.
    pub open spec fn prefetched(self) -> RegionView {
        RegionView { pending: self.pending || !self.image, ..self }
    }

    /// The region after its image has arrived.
    pub open spec fn received(self) -> RegionView {
        RegionView { image: true, pending: false, ..self }
    }

    /// Whether a decoding step at `elapsed` of a budget of `budget` hands
    /// out a chunk: chunks are left, the image is there, and the budget is
    /// not used up.
    pub open spec fn granted(self, elapsed: int, budget: int) -> bool {
        self.cursor < self.chunks.len() && self.image && elapsed < budget
    }

    /// The region after a decoding step: the cursor moves on by one where
    /// the step hands out a chunk, and stays where it does not.
    pub open spec fn polled(self, elapsed: int, budget: int) -> RegionView {
        RegionView {
            context: true,
            cursor: if self.granted(elapsed, budget) {
                self.cursor + 1
            } else {
                self.cursor
            },
            ..self
        }
    }

    /// The region after `tile` was loaded into its chunk `c`.
    pub open spec fn loaded(self, c: int, tile: Seq<u8>) -> RegionView {
        if 0 <= c < self.chunks.len() {
            RegionView { chunks: self.chunks.update(c, self.chunks[c].loaded(tile)), ..self }
        } else {
            self
        }
    }

    /// The region after its chunk `c` was unloaded.
    pub open spec fn unloaded(self, c: int) -> RegionView {
        if 0 <= c < self.chunks.len() {
            RegionView { chunks: self.chunks.update(c, self.chunks[c].disposed()), ..self }
        } else {
            self
        }
    }

    /// The region after it was disposed: its chunks, its image and its
    /// context are dropped. Its slot is left as it is.
    pub open spec fn disposed(self) -> RegionView {
        RegionView {
            image: false,
            pending: false,
            context: false,
            cursor: 0,
            chunks: Seq::empty(),
            ..self
        }
    }

    /// The region with its cursor back at the first chunk.
    pub open spec fn rewound(self) -> RegionView {
        RegionView { cursor: 0, ..self }
    }

    /// The region bound to `slot`.
    pub open spec fn bound(self, slot: int) -> RegionView {
        RegionView { slot, ..self }
    }

    /// The instances that chunk `c` of the region adds to the mesh for the
    /// slot `index`: the chunk's boxes, moved to world coordinates.
    pub open spec fn instances(self, c: int, index: u32) -> Seq<crate::mesh::Instance> {
        if 0 <= c < self.chunks.len() {
            tagged(
                shifted(
                    self.chunks[c].cuboids,
                    region_offset(self.i, self.j).0,
                    region_offset(self.i, self.j).1,
                    region_offset(self.i, self.j).2,
                ),
                index,
            )
        } else {
            Seq::empty()
        }
    }
}

/// What a prefetch asks of the caller.
#[derive(Clone, Copy, Debug, PartialEq, Eq, Structural)]
pub enum Prefetch {
    /// The image is there: nothing to do.
    Ready,
    /// Fetch the image of region `(i, j)` with the given priority.
    Fetch { i: i32, j: i32, priority: i32 },
}

/// What a decoding step asks of the caller.
#[derive(Clone, Copy, Debug, PartialEq, Eq, Structural)]
pub enum Decode {
    /// Every chunk was handed out: the region is complete.
    Complete,
    /// Nothing can be done now: the image is missing or the budget is used
    /// up. The cursor stays where it is.
    Yield,
    /// Load the chunk with this id, then merge it.
    Load(usize),
}

/// One region of the world.
pub struct Region {
    id: i32,
    i: i32,
    j: i32,
    x: i32,
    y: i32,
    z: i32,
    chunks: Vec<Chunk>,
    cursor: usize,
    has_img: bool,
    pending: bool,
    has_ctx: bool,
    slot: i32,
}

impl View for Region {
    type V = RegionView;

    closed spec fn view(&self) -> RegionView {
        RegionView {
            i: self.i as int,
            j: self.j as int,
            image: self.has_img,
            pending: self.pending,
            context: self.has_ctx,
            slot: self.slot as int,
            cursor: self.cursor as int,
            chunks: Seq::new(self.chunks@.len(), |c: int| self.chunks@[c]@),
        }
    }
}

/// The region `(i, j)`, as it is created; `None` where `(i, j)` lies outside
/// the world scope.
pub fn make_region(i: i32, j: i32) -> (r: Option<Region>)
    ensures
        r is Some <==> in_scope(i as int, j as int),
        r matches Some(region) ==> region.wf() && region@ == RegionView::fresh(i as int, j as int),
{
    if !scoped(i, j) {
        return None;
    }
    let (x, y, z) = off_of(i, j);
    let id = region_id(i, j);
    let mut chunks: Vec<Chunk> = Vec::new();
    let mut k: i32 = 0;
    while k < 16
        invariant
            0 <= k <= 16,
            chunks.len() == k * 256,
            forall|c: int|
                0 <= c < chunks.len() ==> (#[trigger] chunks@[c]).wf() && chunks@[c]@
                    == ChunkView::unloaded(c % 16, (c / 16) % 16, c / 256),
        decreases 16 - k,
    {
        let mut j2: i32 = 0;
        while j2 < 16
            invariant
                0 <= k < 16,
                0 <= j2 <= 16,
                chunks.len() == k * 256 + j2 * 16,
                forall|c: int|
                    0 <= c < chunks.len() ==> (#[trigger] chunks@[c]).wf() && chunks@[c]@
                        == ChunkView::unloaded(c % 16, (c / 16) % 16, c / 256),
            decreases 16 - j2,
        {
            let mut i2: i32 = 0;
            while i2 < 16
                invariant
                    0 <= k < 16,
                    0 <= j2 < 16,
                    0 <= i2 <= 16,
                    chunks.len() == k * 256 + j2 * 16 + i2,
                    forall|c: int|
                        0 <= c < chunks.len() ==> (#[trigger] chunks@[c]).wf() && chunks@[c]@
                            == ChunkView::unloaded(c % 16, (c / 16) % 16, c / 256),
                decreases 16 - i2,
            {
                match create_chunk(i2, j2, k) {
                    Some(c) => {
                        chunks.push(c);
                    },
                    None => {},
                }
                i2 += 1;
            }
            j2 += 1;
        }
        k += 1;
    }
    let region = Region {
        id,
        i,
        j,
        x,
        y,
        z,
        chunks,
        cursor: 0,
        has_img: false,
        pending: false,
        has_ctx: false,
        slot: -1,
    };
    assert(region@.chunks =~= RegionView::fresh(i as int, j as int).chunks);
    Some(region)
}

impl Region {
    /// The invariant of a region: it lies in the world scope; it holds its
    /// 4096 chunks in the order of their ids, or none once it is disposed;
    /// its cursor is not beyond its chunks.
    pub closed spec fn wf(&self) -> bool {
        &&& in_scope(self.i as int, self.j as int)
        &&& self.id == region_key(self.i as int, self.j as int)
        &&& (self.x as int, self.y as int, self.z as int) == region_offset(
            self.i as int,
            self.j as int,
        )
        &&& (self.chunks@.len() == 0 || self.chunks@.len() == CHUNKS)
        &&& self.cursor <= self.chunks@.len()
        &&& forall|c: int|
            0 <= c < self.chunks@.len() ==> (#[trigger] self.chunks@[c]).wf() && self.chunks@[c]@.place
                == (c % 16, (c / 16) % 16, c / 256)
    }

    /// What the invariant says of the region's plain values.
    pub proof fn lemma_wf(&self)
        requires
            self.wf(),
        ensures
            in_scope(self@.i, self@.j),
            self@.chunks.len() == 0 || self@.chunks.len() == CHUNKS,
            0 <= self@.cursor <= self@.chunks.len(),
            forall|c: int|
                0 <= c < self@.chunks.len() ==> (#[trigger] self@.chunks[c]).place == (
                    c % 16,
                    (c / 16) % 16,
                    c / 256,
                ),
    {
    }

    /// The region's id.
    pub fn id(&self) -> (r: i32)
        requires
            self.wf(),
        ensures
            r == self@.key(),
    {
        self.id
    }

    /// The region's column in the world grid.
    pub fn i(&self) -> (r: i32)
        ensures
            r == self@.i,
    {
        self.i
    }

    /// The region's row in the world grid.
    pub fn j(&self) -> (r: i32)
        ensures
            r == self@.j,
    {
        self.j
    }

    /// The `x` of the region's world offset.
    pub fn x(&self) -> (r: i32)
        requires
            self.wf(),
        ensures
            r == region_offset(self@.i, self@.j).0,
    {
        self.x
    }

    /// The `y` of the region's world offset.
    pub fn y(&self) -> (r: i32)
        requires
            self.wf(),
        ensures
            r == region_offset(self@.i, self@.j).1,
    {
        self.y
    }

    /// The `z` of the region's world offset.
    pub fn z(&self) -> (r: i32)
        requires
            self.wf(),
        ensures
            r == region_offset(self@.i, self@.j).2,
    {
        self.z
    }

    /// The slot that the region is bound to; negative when it has none.
    pub fn slot(&self) -> (r: i32)
        ensures
            r == self@.slot,
    {
        self.slot
    }

    /// Binds the region to the slot `v`; a negative `v` unbinds it.
    pub fn set_slot(&mut self, v: i32)
        ensures
            final(self)@ == old(self)@.bound(v as int),
            old(self).wf() ==> final(self).wf(),
    {
        self.slot = v;
        assert(self@.chunks =~= old(self)@.chunks);
    }

    /// Asks for the region's image with the lowest priority.
    pub fn image(&mut self, _p: i32) -> (r: Prefetch)
        ensures
            final(self)@ == old(self)@.prefetched(),
            old(self).wf() ==> final(self).wf(),
            r == if old(self)@.image {
                Prefetch::Ready
            } else {
                (Prefetch::Fetch { i: old(self)@.i as i32, j: old(self)@.j as i32, priority: 0 })
            },
    {
        self.prefetch(0)
    }

    /// Asks for the region's image. Where the image is there, nothing
    /// changes. Where it is not, a fetch is pending from now on and the
    /// caller is told to fetch the image with the given priority.
    pub fn prefetch(&mut self, priority: i32) -> (r: Prefetch)
        ensures
            final(self)@ == old(self)@.prefetched(),
            old(self).wf() ==> final(self).wf(),
            r == if old(self)@.image {
                Prefetch::Ready
            } else {
                (Prefetch::Fetch { i: old(self)@.i as i32, j: old(self)@.j as i32, priority })
            },
    {
        if self.has_img {
            assert(self@ == old(self)@.prefetched());
            return Prefetch::Ready;
        }
        self.pending = true;
        assert(self@.chunks =~= old(self)@.chunks);
        Prefetch::Fetch { i: self.i, j: self.j, priority }
    }

    /// Records that the region's image has arrived.
    pub fn receive(&mut self)
        ensures
            final(self)@ == old(self)@.received(),
            old(self).wf() ==> final(self).wf(),
    {
        self.has_img = true;
        self.pending = false;
        assert(self@.chunks =~= old(self)@.chunks);
    }

    /// One step of the region's decoding, `elapsed` milliseconds into a
    /// call with a budget of `budget` milliseconds.
    ///
    /// The region is complete when every chunk was handed out. Else the
    /// step yields where the image is missing or the budget is used up, and
    /// the cursor stays. Else the chunk at the cursor is handed out and the
    /// cursor moves on. The region has a context from now on.
    pub fn chunk(&mut self, elapsed: i64, budget: i32) -> (r: Decode)
        requires
            old(self).wf(),
        ensures
            final(self).wf(),
            final(self)@ == old(self)@.polled(elapsed as int, budget as int),
            r == if old(self)@.cursor >= old(self)@.chunks.len() {
                Decode::Complete
            } else if old(self)@.granted(elapsed as int, budget as int) {
                Decode::Load(old(self)@.cursor as usize)
            } else {
                Decode::Yield
            },
    {
        self.has_ctx = true;
        assert(self@.chunks =~= old(self)@.chunks);
        if self.cursor >= self.chunks.len() {
            return Decode::Complete;
        }
        if !self.has_img || elapsed >= budget as i64 {
            return Decode::Yield;
        }
        let c = self.cursor;
        self.cursor = c + 1;
        assert(self@.chunks =~= old(self)@.chunks);
        Decode::Load(c)
    }

    /// Loads `tile` into the chunk `c`: the chunk is decoded and meshed,
    /// unless it is meshed already. An id that is no chunk of the region
    /// changes nothing.
    pub fn load(&mut self, c: usize, tile: &[u8])
        requires
            old(self).wf(),
        ensures
            final(self).wf(),
            final(self)@ == old(self)@.loaded(c as int, tile@),
    {
        if c >= self.chunks.len() {
            return ;
        }
        let ghost before = self.chunks@;
        self.chunks[c].load(tile);
        proof {
            assert forall|n: int| 0 <= n < self.chunks@.len() implies (#[trigger] self.chunks@[n]).wf()
                && self.chunks@[n]@.place == (n % 16, (n / 16) % 16, n / 256) by {
                if n != c {
                    assert(self.chunks@[n] == before[n]);
                }
            }
            assert(self@.chunks =~= old(self)@.loaded(c as int, tile@).chunks);
        }
    }

    /// Unloads the chunk `c`: its buffer and its boxes are dropped. An id
    /// that is no chunk of the region changes nothing.
    pub fn unload(&mut self, c: usize)
        requires
            old(self).wf(),
        ensures
            final(self).wf(),
            final(self)@ == old(self)@.unloaded(c as int),
    {
        if c >= self.chunks.len() {
            return ;
        }
        let ghost before = self.chunks@;
        self.chunks[c].dispose();
        proof {
            assert forall|n: int| 0 <= n < self.chunks@.len() implies (#[trigger] self.chunks@[n]).wf()
                && self.chunks@[n]@.place == (n % 16, (n / 16) % 16, n / 256) by {
                if n != c {
                    assert(self.chunks@[n] == before[n]);
                }
            }
            assert(self@.chunks =~= old(self)@.unloaded(c as int).chunks);
        }
    }

    /// Adds the boxes of chunk `c`, moved to world coordinates and tagged
    /// with the slot `index`, to the staging list of `mesh`.
    pub fn merge(&self, mesh: &mut Mesh, c: usize, index: u32)
        requires
            self.wf(),
        ensures
            final(mesh).staged() == old(mesh).staged() + self@.instances(c as int, index),
            final(mesh).active() == old(mesh).active(),
            final(mesh).ready() == old(mesh).ready(),
    {
        if c >= self.chunks.len() {
            assert(mesh.staged() =~= mesh.staged() + self@.instances(c as int, index));
            return ;
        }
        proof {
            self.chunks@[c as int].lemma_wf();
        }
        mesh.merge(self.chunks[c].boxes(), self.x, self.y, self.z, index);
    }

    /// The chunk at `(ci, cj, ck)`; `None` where that is no chunk of the
    /// region or the region is disposed.
    pub fn get(&self, ci: i32, cj: i32, ck: i32) -> (r: Option<&Chunk>)
        requires
            self.wf(),
        ensures
            r is Some <==> in_region(ci as int, cj as int, ck as int) && self@.chunks.len() > 0,
            r matches Some(c) ==> c.wf() && c@ == self@.chunks[chunk_key(
                ci as int,
                cj as int,
                ck as int,
            )] && c@.place == (ci as int, cj as int, ck as int),
    {
        if ci < 0 || ci > 15 || cj < 0 || cj > 15 || ck < 0 || ck > 15 {
            return None;
        }
        let key = (ci + cj * 16 + ck * 256) as usize;
        if key >= self.chunks.len() {
            return None;
        }
        Some(&self.chunks[key])
    }

    /// The chunk with the id `c`; `None` where the region has no such
    /// chunk.
    pub fn chunk_at(&self, c: usize) -> (r: Option<&Chunk>)
        requires
            self.wf(),
        ensures
            r is Some <==> c < self@.chunks.len(),
            r matches Some(chunk) ==> chunk.wf() && chunk@ == self@.chunks[c as int],
    {
        if c >= self.chunks.len() {
            return None;
        }
        Some(&self.chunks[c])
    }

    /// Disposes the region: its chunks, its image and its context are
    /// dropped and its cursor goes back to the start.
    pub fn dispose(&mut self) -> (r: bool)
        requires
            old(self).wf(),
        ensures
            final(self).wf(),
            final(self)@ == old(self)@.disposed(),
            r,
    {
        self.chunks = Vec::new();
        self.has_ctx = false;
        self.has_img = false;
        self.pending = false;
        self.cursor = 0;
        assert(self@.chunks =~= Seq::<ChunkView>::empty());
        true
    }

    /// Whether the region has a context to read tiles from.
    pub fn ctx(&self) -> (r: bool)
        ensures
            r == self@.context,
    {
        self.has_ctx
    }

    /// Sets the cursor back to the first chunk. The result is the new
    /// cursor, 0.
    pub fn cursor(&mut self) -> (r: i32)
        ensures
            final(self)@ == old(self)@.rewound(),
            old(self).wf() ==> final(self).wf(),
            r == 0,
    {
        self.cursor = 0;
        assert(self@.chunks =~= old(self)@.chunks);
        0
    }

    /// Whether the region's image is there.
    pub fn peek(&self) -> (r: bool)
        ensures
            r == self@.image,
    {
        self.has_img
    }

    /// Whether a fetch of the region's image is under way.
    pub fn fetching(&self) -> (r: bool)
        ensures
            r == (!self@.image && self@.pending),
    {
        !self.has_img && self.pending
    }
}

/// The region after a run of decoding steps, one for each entry of
/// `elapsed`, all with the budget `budget`.
pub open spec fn polls(r: RegionView, elapsed: Seq<int>, budget: int) -> RegionView
    decreases elapsed.len(),
{
    if elapsed.len() == 0 {
        r
    } else {
        polls(r, elapsed.drop_last(), budget).polled(elapsed.last(), budget)
    }
}

/// The number of entries of `elapsed` that lie within the budget.
pub open spec fn within(elapsed: Seq<int>, budget: int) -> int
    decreases elapsed.len(),
{
    if elapsed.len() == 0 {
        0
    } else {
        within(elapsed.drop_last(), budget) + if elapsed.last() < budget {
            1int
        } else {
            0int
        }
    }
}

/// Decoding resumes: over any run of decoding steps the cursor never goes
/// back and the chunks stay as they are. Once the image is there, each
/// step that lies within the budget moves the cursor on by one, until the
/// region is complete: as many such steps as chunks are left complete it.
pub proof fn lemma_decode_resumes(r: RegionView, elapsed: Seq<int>, budget: int)
    requires
        0 <= r.cursor <= r.chunks.len(),
    ensures
        polls(r, elapsed, budget).chunks == r.chunks,
        polls(r, elapsed, budget).image == r.image,
        r.cursor <= polls(r, elapsed, budget).cursor <= r.chunks.len(),
        r.image ==> polls(r, elapsed, budget).cursor == if r.cursor + within(elapsed, budget)
            < r.chunks.len() {
            r.cursor + within(elapsed, budget)
        } else {
            r.chunks.len() as int
        },
        0 <= within(elapsed, budget) <= elapsed.len(),
    decreases elapsed.len(),
{
    if elapsed.len() > 0 {
        lemma_decode_resumes(r, elapsed.drop_last(), budget);
    }
}

/// No step of a region's own life changes the region's place or its slot.
pub proof fn lemma_steps_keep_slot(r: RegionView, elapsed: int, budget: int, c: int, tile: Seq<u8>)
    ensures
        r.prefetched().key() == r.key() && r.prefetched().slot == r.slot,
        r.received().key() == r.key() && r.received().slot == r.slot,
        r.polled(elapsed, budget).key() == r.key() && r.polled(elapsed, budget).slot == r.slot,
        r.loaded(c, tile).key() == r.key() && r.loaded(c, tile).slot == r.slot,
        r.unloaded(c).key() == r.key() && r.unloaded(c).slot == r.slot,
        r.disposed().key() == r.key() && r.disposed().slot == r.slot,
        r.rewound().key() == r.key() && r.rewound().slot == r.slot,
{
}

} // verus!
