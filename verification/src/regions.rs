//! The region cache: the regions that are held in memory, in the order in
//! which they were created.
//!
//! The cache owns its regions; everything else names a region by its id.

use vstd::prelude::*;
use crate::chunk::VOXELS;
use crate::region::{make_region, Decode, Prefetch, Region, RegionView};
use crate::mesh::Mesh;
use crate::slot::{consistent, SlotView, Slots};
use crate::window::{
    candidates, cell, cell_i, cell_j, ids_of, lemma_candidates, lemma_nearest, list_candidates,
    nearest, select, Candidate, CELLS, NEAR,
};
use crate::utils::{
    in_scope, lemma_off_of_pos_of, off_of, pos_of, region_id, region_key, region_of,
    region_offset, scoped, CACHE, SLOT,
};

verus! {

/// The index in `cache` of the first region with the id `id`; -1 where
/// there is none.
pub open spec fn position(cache: Seq<RegionView>, id: int) -> int
    decreases cache.len(),
{
    if cache.len() == 0 {
        -1
    } else {
        let p = position(cache.drop_last(), id);
        if p >= 0 {
            p
        } else if cache.last().key() == id {
            cache.len() - 1
        } else {
            -1
        }
    }
}

/// Whether `cache` holds a region with the id `id`.
pub open spec fn holds(cache: Seq<RegionView>, id: int) -> bool {
    position(cache, id) >= 0
}

/// Whether no two regions of `cache` have the same id.
pub open spec fn distinct(cache: Seq<RegionView>) -> bool {
    forall|a: int, b: int|
        0 <= a < b < cache.len() ==> (#[trigger] cache[a]).key() != (#[trigger] cache[b]).key()
}

/// The position of an id is the index of a region with that id, and every
/// region's id has a position.
pub proof fn lemma_position(cache: Seq<RegionView>, id: int)
    ensures
        -1 <= position(cache, id) < cache.len(),
        position(cache, id) >= 0 ==> cache[position(cache, id)].key() == id,
        forall|k: int| 0 <= k < cache.len() && cache[k].key() == id ==> 0 <= position(cache, id) <= k,
    decreases cache.len(),
{
    if cache.len() > 0 {
        lemma_position(cache.drop_last(), id);
        assert forall|k: int| 0 <= k < cache.len() && cache[k].key() == id implies 0 <= position(
            cache,
            id,
        ) <= k by {
            if k < cache.len() - 1 {
                assert(cache.drop_last()[k] == cache[k]);
            }
        }
    }
}

/// A voxel of the world, resolved to its region, its chunk and its place
/// in the chunk's occupancy buffer.
#[derive(Clone, Copy, Debug, PartialEq, Eq, Structural)]
pub struct Probe {
    /// The id of the region.
    pub region: i32,
    /// The id of the chunk in the region.
    pub chunk: usize,
    /// The index of the voxel in the chunk's buffer.
    pub voxel: usize,
}

/// The region, chunk and voxel of the world voxel `(wx, wy, wz)`; `None`
/// where the voxel lies outside the world scope or outside the height of a
/// region.
pub open spec fn probe(wx: int, wy: int, wz: int) -> Option<Probe> {
    let (ri, rj) = region_of(wx, wz);
    let (x0, y0, z0) = region_offset(ri, rj);
    let (lx, ly, lz) = (wx - x0, wy - y0, wz - z0);
    let (ci, cj, ck) = (lx / 16, ly / 16, lz / 16);
    let (vx, vy, vz) = (lx % 16, ly % 16, lz % 16);
    if in_scope(ri, rj) && 0 <= cj <= 15 {
        Some(
            Probe {
                region: region_key(ri, rj) as i32,
                chunk: (ci + cj * 16 + ck * 256) as usize,
                voxel: (vx + (vy + vz * 16) * 16) as usize,
            },
        )
    } else {
        None
    }
}

/// The occupancy byte of the world voxel `(wx, wy, wz)` as `cache` knows
/// it: 0 where the voxel lies outside the world, its region is not cached
/// or its chunk is not decoded.
pub open spec fn picked(cache: Seq<RegionView>, wx: int, wy: int, wz: int) -> int {
    match probe(wx, wy, wz) {
        None => 0,
        Some(p) => {
            let k = position(cache, p.region as int);
            if k < 0 || p.chunk >= cache[k].chunks.len() {
                0
            } else {
                match cache[k].chunks[p.chunk as int].voxels {
                    None => 0,
                    Some(v) => v[p.voxel as int] as int,
                }
            }
        },
    }
}

/// Whether the chunk of the world voxel `(wx, wy, wz)` can be decoded on
/// demand: its region is cached and has a context, and the chunk is not
/// decoded yet.
pub open spec fn undecoded(cache: Seq<RegionView>, wx: int, wy: int, wz: int) -> bool {
    match probe(wx, wy, wz) {
        None => false,
        Some(p) => {
            let k = position(cache, p.region as int);
            k >= 0 && p.chunk < cache[k].chunks.len() && cache[k].context && cache[k].chunks[p.chunk as int].voxels
                is None
        },
    }
}

/// Resolves the world voxel `(wx, wy, wz)` to its region, chunk and voxel.
pub fn locate(wx: i32, wy: i32, wz: i32) -> (r: Option<Probe>)
    ensures
        r == probe(wx as int, wy as int, wz as int),
        r matches Some(p) ==> p.chunk < 4096 && p.voxel < 4096,
{
    let (ri, rj) = pos_of(wx, wz);
    if !scoped(ri, rj) {
        return None;
    }
    proof {
        lemma_off_of_pos_of(wx as int, wz as int);
    }
    let (x0, y0, z0) = off_of(ri, rj);
    let lx: i32 = wx - x0;
    let lz: i32 = wz - z0;
    if wy < 0 || wy > 255 {
        return None;
    }
    let ly: i32 = wy;
    let ci = lx / 16;
    let cj = ly / 16;
    let ck = lz / 16;
    let vx = lx % 16;
    let vy = ly % 16;
    let vz = lz % 16;
    Some(
        Probe {
            region: region_id(ri, rj),
            chunk: (ci + cj * 16 + ck * 256) as usize,
            voxel: (vx + (vy + vz * 16) * 16) as usize,
        },
    )
}

/// A cache holds an id exactly if one of its regions has that id.
pub proof fn lemma_holds(cache: Seq<RegionView>, id: int)
    ensures
        holds(cache, id) <==> exists|k: int| 0 <= k < cache.len() && (#[trigger] cache[k]).key() == id,
{
    lemma_position(cache, id);
    if holds(cache, id) {
        assert(cache[position(cache, id)].key() == id);
    }
}

/// The cache after the regions of the first `n` cells of the window were
/// admitted: each cell whose region lies in the world scope and is not
/// cached yet adds that region, as it is created, at the end.
pub open spec fn admitted(cache: Seq<RegionView>, wx: int, wz: int, n: int) -> Seq<RegionView>
    decreases n,
{
    if n <= 0 {
        cache
    } else {
        let prev = admitted(cache, wx, wz, n - 1);
        let i = cell_i(wx, wz, n - 1);
        let j = cell_j(wx, wz, n - 1);
        if in_scope(i, j) && !holds(prev, region_key(i, j)) {
            prev.push(RegionView::fresh(i, j))
        } else {
            prev
        }
    }
}

/// A request to fetch the image of a region.
#[derive(Clone, Copy, Debug, PartialEq, Eq, Structural)]
pub struct Fetch {
    /// The id of the region.
    pub id: i32,
    /// The column of the region.
    pub i: i32,
    /// The row of the region.
    pub j: i32,
    /// The priority of the fetch: 2 for a region to draw, 0 for a region
    /// that is only near.
    pub priority: i32,
}

/// Whether the region `r` of the candidate `c` is asked to prefetch. With
/// high priority every region is. With low priority a region is asked only
/// if it is near, is not the camera's own, is not seen, has no image and
/// has no fetch under way.
pub open spec fn asks(c: Candidate, r: RegionView, low: bool) -> bool {
    !low || (0 <= c.d2 <= NEAR && !c.seen && !r.image && !r.pending)
}

/// The cache after the regions of `list` were asked in turn to prefetch.
pub open spec fn prefetched_all(cache: Seq<RegionView>, list: Seq<Candidate>, low: bool) -> Seq<
    RegionView,
>
    decreases list.len(),
{
    if list.len() == 0 {
        cache
    } else {
        let prev = prefetched_all(cache, list.drop_last(), low);
        let k = position(prev, list.last().id as int);
        if k >= 0 && asks(list.last(), prev[k], low) {
            prev.update(k, prev[k].prefetched())
        } else {
            prev
        }
    }
}

/// The fetches that are asked of the caller when the regions of `list` are
/// asked in turn to prefetch: one for each region that is asked and has no
/// image, with priority 0 where `low` holds and 2 where it does not.
pub open spec fn fetches_all(cache: Seq<RegionView>, list: Seq<Candidate>, low: bool) -> Seq<Fetch>
    decreases list.len(),
{
    if list.len() == 0 {
        Seq::empty()
    } else {
        let prev = prefetched_all(cache, list.drop_last(), low);
        let out = fetches_all(cache, list.drop_last(), low);
        let k = position(prev, list.last().id as int);
        if k >= 0 && asks(list.last(), prev[k], low) && !prev[k].image {
            out.push(
                Fetch {
                    id: list.last().id,
                    i: prev[k].i as i32,
                    j: prev[k].j as i32,
                    priority: if low {
                        0
                    } else {
                        2
                    },
                },
            )
        } else {
            out
        }
    }
}

/// Whether the caches `a` and `b` hold the same regions in the same order,
/// each with the same slot.
pub open spec fn same_bindings(a: Seq<RegionView>, b: Seq<RegionView>) -> bool {
    &&& a.len() == b.len()
    &&& forall|k: int|
        0 <= k < a.len() ==> (#[trigger] a[k]).i == b[k].i && a[k].j == b[k].j && a[k].slot
            == b[k].slot
}

/// Prefetching changes neither which regions a cache holds nor their
/// slots.
pub proof fn lemma_prefetched_all(cache: Seq<RegionView>, list: Seq<Candidate>, low: bool)
    ensures
        same_bindings(prefetched_all(cache, list, low), cache),
    decreases list.len(),
{
    if list.len() > 0 {
        lemma_prefetched_all(cache, list.drop_last(), low);
        lemma_position(prefetched_all(cache, list.drop_last(), low), list.last().id as int);
    }
}

/// The square of the distance between the region `(i, j)` and the region
/// of the candidate `c`.
pub open spec fn dist2(i: int, j: int, c: Candidate) -> int {
    (i - c.i) * (i - c.i) + (j - c.j) * (j - c.j)
}

/// The square of the distance of the region `(i, j)` from the nearest
/// region of `keep`; 0 where `keep` is empty.
pub open spec fn gap(i: int, j: int, keep: Seq<Candidate>) -> int
    decreases keep.len(),
{
    if keep.len() == 0 {
        0
    } else if keep.len() == 1 {
        dist2(i, j, keep[0])
    } else {
        let g = gap(i, j, keep.drop_last());
        let d = dist2(i, j, keep.last());
        if d < g {
            d
        } else {
            g
        }
    }
}

/// Whether the region with the id `id` is one of `keep`.
pub open spec fn active(id: int, keep: Seq<Candidate>) -> bool {
    exists|t: int| 0 <= t < keep.len() && (#[trigger] keep[t]).id == id
}

/// The index of the region of `cache` to evict next: the first of those
/// regions outside `keep` that are farthest from the regions of `keep`; -1
/// where every region is one of `keep`.
pub open spec fn victim(cache: Seq<RegionView>, keep: Seq<Candidate>) -> int
    decreases cache.len(),
{
    if cache.len() == 0 {
        -1
    } else {
        let v = victim(cache.drop_last(), keep);
        let r = cache.last();
        if active(r.key(), keep) {
            v
        } else if v < 0 || gap(r.i, r.j, keep) > gap(cache[v].i, cache[v].j, keep) {
            cache.len() - 1
        } else {
            v
        }
    }
}

/// The cache after eviction: as long as it holds more regions than its
/// capacity and a region outside `keep` is left, the victim is removed.
pub open spec fn evicted(cache: Seq<RegionView>, keep: Seq<Candidate>) -> Seq<RegionView>
    decreases cache.len(),
{
    let v = victim(cache, keep);
    if cache.len() <= CACHE || v < 0 || v >= cache.len() {
        cache
    } else {
        evicted(cache.remove(v), keep)
    }
}

/// The regions that eviction removes from the cache, in the order in which
/// they go.
pub open spec fn evictions(cache: Seq<RegionView>, keep: Seq<Candidate>) -> Seq<RegionView>
    decreases cache.len(),
{
    let v = victim(cache, keep);
    if cache.len() <= CACHE || v < 0 || v >= cache.len() {
        Seq::empty()
    } else {
        seq![cache[v]] + evictions(cache.remove(v), keep)
    }
}

/// The pool after the slot of the region `r` was freed: the slot that `r`
/// records is free if it was bound to `r`.
pub open spec fn vacate_one(owner: Seq<SlotView>, r: RegionView) -> Seq<SlotView> {
    if 0 <= r.slot < owner.len() && owner[r.slot].region == Some(r.key()) {
        owner.update(r.slot, SlotView::free())
    } else {
        owner
    }
}

/// The pool after the slots of the regions `gone` were freed in turn.
pub open spec fn vacated(owner: Seq<SlotView>, gone: Seq<RegionView>) -> Seq<SlotView>
    decreases gone.len(),
{
    if gone.len() == 0 {
        owner
    } else {
        vacated(vacate_one(owner, gone.first()), gone.drop_first())
    }
}

/// The victim is a region outside `keep`; no region outside `keep` is
/// farther from `keep`, and none before the victim is as far. There is a
/// victim unless every region is one of `keep`.
pub proof fn lemma_victim(cache: Seq<RegionView>, keep: Seq<Candidate>)
    ensures
        -1 <= victim(cache, keep) < cache.len(),
        victim(cache, keep) >= 0 ==> !active(cache[victim(cache, keep)].key(), keep),
        victim(cache, keep) < 0 ==> forall|k: int|
            0 <= k < cache.len() ==> active((#[trigger] cache[k]).key(), keep),
        victim(cache, keep) >= 0 ==> forall|k: int|
            0 <= k < cache.len() && !active((#[trigger] cache[k]).key(), keep) ==> {
                let v = victim(cache, keep);
                &&& gap(cache[k].i, cache[k].j, keep) <= gap(cache[v].i, cache[v].j, keep)
                &&& k < v ==> gap(cache[k].i, cache[k].j, keep) < gap(cache[v].i, cache[v].j, keep)
            },
    decreases cache.len(),
{
    if cache.len() > 0 {
        let p = cache.drop_last();
        lemma_victim(p, keep);
        let v = victim(cache, keep);
        if v < 0 {
            assert forall|k: int| 0 <= k < cache.len() implies active(
                (#[trigger] cache[k]).key(),
                keep,
            ) by {
                if k < p.len() {
                    assert(p[k] == cache[k]);
                }
            }
        } else {
            assert forall|k: int|
                0 <= k < cache.len() && !active((#[trigger] cache[k]).key(), keep) implies {
                &&& gap(cache[k].i, cache[k].j, keep) <= gap(cache[v].i, cache[v].j, keep)
                &&& k < v ==> gap(cache[k].i, cache[k].j, keep) < gap(cache[v].i, cache[v].j, keep)
            } by {
                if k < p.len() {
                    assert(p[k] == cache[k]);
                }
            }
        }
    }
}

/// A cache of distinct regions that are all among `keep` holds no more
/// regions than `keep` has entries.
pub proof fn lemma_all_active(cache: Seq<RegionView>, keep: Seq<Candidate>)
    requires
        distinct(cache),
        forall|k: int| 0 <= k < cache.len() ==> active((#[trigger] cache[k]).key(), keep),
    ensures
        cache.len() <= keep.len(),
    decreases cache.len(),
{
    if cache.len() > 0 {
        let r = cache.last();
        let t = choose|t: int| 0 <= t < keep.len() && (#[trigger] keep[t]).id == r.key();
        let p = cache.drop_last();
        let rest = keep.remove(t);
        assert forall|k: int| 0 <= k < p.len() implies active((#[trigger] p[k]).key(), rest) by {
            assert(p[k] == cache[k]);
            assert(active(cache[k].key(), keep));
            let u = choose|u: int| 0 <= u < keep.len() && (#[trigger] keep[u]).id == cache[k].key();
            assert(cache[k].key() != cache[cache.len() - 1].key());
            if u < t {
                assert(rest[u] == keep[u]);
            } else {
                assert(rest[u - 1] == keep[u]);
            }
        }
        assert forall|a: int, b: int| 0 <= a < b < p.len() implies (#[trigger] p[a]).key() != (
        #[trigger] p[b]).key() by {
            assert(p[a] == cache[a] && p[b] == cache[b]);
        }
        lemma_all_active(p, rest);
    }
}

/// Eviction leaves a cache of distinct regions within its capacity, if
/// `keep` has no more entries than the capacity; it removes no region of
/// `keep`; and the regions that stay keep their order.
pub proof fn lemma_evicted(cache: Seq<RegionView>, keep: Seq<Candidate>)
    requires
        distinct(cache),
    ensures
        distinct(evicted(cache, keep)),
        keep.len() <= CACHE ==> evicted(cache, keep).len() <= CACHE,
        forall|id: int| holds(cache, id) && active(id, keep) ==> holds(evicted(cache, keep), id),
        forall|id: int| #[trigger] holds(evicted(cache, keep), id) ==> holds(cache, id),
    decreases cache.len(),
{
    let v = victim(cache, keep);
    lemma_victim(cache, keep);
    if cache.len() <= CACHE || v < 0 || v >= cache.len() {
        if v < 0 {
            lemma_all_active(cache, keep);
        }
    } else {
        let rest = cache.remove(v);
        assert forall|a: int, b: int| 0 <= a < b < rest.len() implies (#[trigger] rest[a]).key() != (
        #[trigger] rest[b]).key() by {
            let a0 = if a < v { a } else { a + 1 };
            let b0 = if b < v { b } else { b + 1 };
            assert(rest[a] == cache[a0] && rest[b] == cache[b0]);
        }
        lemma_evicted(rest, keep);
        assert forall|id: int| holds(cache, id) && active(id, keep) implies holds(
            evicted(cache, keep),
            id,
        ) by {
            lemma_holds(cache, id);
            lemma_holds(rest, id);
            let k = choose|k: int| 0 <= k < cache.len() && (#[trigger] cache[k]).key() == id;
            assert(k != v);
            if k < v {
                assert(rest[k] == cache[k]);
            } else {
                assert(rest[k - 1] == cache[k]);
            }
        }
        assert forall|id: int| #[trigger] holds(evicted(cache, keep), id) implies holds(cache, id) by {
            lemma_holds(cache, id);
            lemma_holds(rest, id);
            assert(holds(rest, id));
            let k = choose|k: int| 0 <= k < rest.len() && (#[trigger] rest[k]).key() == id;
            if k < v {
                assert(rest[k] == cache[k]);
            } else {
                assert(rest[k] == cache[k + 1]);
            }
        }
    }
}

/// A cache that has grown by regions without a slot is still consistent
/// with the pool.
pub proof fn lemma_grown_consistent(
    owner: Seq<SlotView>,
    before: Seq<RegionView>,
    after: Seq<RegionView>,
)
    requires
        consistent(owner, before),
        before.len() <= after.len(),
        forall|k: int| 0 <= k < before.len() ==> after[k] == before[k],
        forall|k: int| before.len() <= k < after.len() ==> (#[trigger] after[k]).slot < 0,
    ensures
        consistent(owner, after),
{
    assert forall|s: int| 0 <= s < owner.len() && (#[trigger] owner[s]).region is Some implies exists|
        k: int,
    |
        0 <= k < after.len() && (#[trigger] after[k]).key() == owner[s].region->0 && after[k].slot
            == s by {
        let k = choose|k: int|
            0 <= k < before.len() && (#[trigger] before[k]).key() == owner[s].region->0
                && before[k].slot == s;
        assert(after[k] == before[k]);
    }
    assert forall|k: int| 0 <= k < after.len() && (#[trigger] after[k]).slot >= 0 implies after[k].slot
        < owner.len() && owner[after[k].slot].region == Some(after[k].key()) by {
        assert(after[k] == before[k]);
    }
}

/// A cache whose regions kept their slots is still consistent with the
/// pool.
pub proof fn lemma_same_consistent(
    owner: Seq<SlotView>,
    before: Seq<RegionView>,
    after: Seq<RegionView>,
)
    requires
        consistent(owner, before),
        same_bindings(after, before),
    ensures
        consistent(owner, after),
{
    assert forall|s: int| 0 <= s < owner.len() && (#[trigger] owner[s]).region is Some implies exists|
        k: int,
    |
        0 <= k < after.len() && (#[trigger] after[k]).key() == owner[s].region->0 && after[k].slot
            == s by {
        let k = choose|k: int|
            0 <= k < before.len() && (#[trigger] before[k]).key() == owner[s].region->0
                && before[k].slot == s;
        assert(after[k].key() == before[k].key());
    }
    assert forall|k: int| 0 <= k < after.len() && (#[trigger] after[k]).slot >= 0 implies after[k].slot
        < owner.len() && owner[after[k].slot].region == Some(after[k].key()) by {
        assert(before[k].slot >= 0);
    }
}

/// A cache in which one region was replaced by a region with the same id
/// and the same slot is still consistent with the pool.
pub proof fn lemma_replaced_consistent(
    owner: Seq<SlotView>,
    cache: Seq<RegionView>,
    k: int,
    r: RegionView,
)
    requires
        consistent(owner, cache),
        0 <= k < cache.len(),
        r.i == cache[k].i,
        r.j == cache[k].j,
        r.slot == cache[k].slot,
    ensures
        consistent(owner, cache.update(k, r)),
{
    lemma_same_consistent(owner, cache, cache.update(k, r));
}

/// Removing a region from the cache and freeing its slot keeps a
/// consistent pool and cache consistent.
pub proof fn lemma_removed_consistent(owner: Seq<SlotView>, cache: Seq<RegionView>, v: int)
    requires
        consistent(owner, cache),
        distinct(cache),
        0 <= v < cache.len(),
    ensures
        consistent(vacate_one(owner, cache[v]), cache.remove(v)),
{
    let owner2 = vacate_one(owner, cache[v]);
    let rest = cache.remove(v);
    assert forall|k: int| 0 <= k < rest.len() && (#[trigger] rest[k]).slot >= 0 implies rest[k].slot
        < owner2.len() && owner2[rest[k].slot].region == Some(rest[k].key()) by {
        let k0 = if k < v { k } else { k + 1 };
        assert(rest[k] == cache[k0]);
        assert(owner[cache[k0].slot].region == Some(cache[k0].key()));
        if k0 < v {
            assert(cache[k0].key() != cache[v].key());
        } else {
            assert(cache[v].key() != cache[k0].key());
        }
    }
    assert forall|s: int| 0 <= s < owner2.len() && (#[trigger] owner2[s]).region is Some implies exists|
        k: int,
    |
        0 <= k < rest.len() && (#[trigger] rest[k]).key() == owner2[s].region->0 && rest[k].slot
            == s by {
        assert(owner[s].region is Some);
        assert(owner2[s] == owner[s]);
        let k0 = choose|k0: int|
            0 <= k0 < cache.len() && (#[trigger] cache[k0]).key() == owner[s].region->0
                && cache[k0].slot == s;
        if k0 == v {
            assert(owner[cache[v].slot].region == Some(cache[v].key()));
        } else if k0 < v {
            assert(rest[k0] == cache[k0]);
        } else {
            assert(rest[k0 - 1] == cache[k0]);
        }
    }
}

/// Whether the region with the id `id` is one of `keep`.
fn active_in(keep: &Vec<Candidate>, id: i32) -> (r: bool)
    ensures
        r == active(id as int, keep@),
{
    let mut t: usize = 0;
    while t < keep.len()
        invariant
            t <= keep.len(),
            forall|n: int| 0 <= n < t ==> (#[trigger] keep@[n]).id != id,
        decreases keep.len() - t,
    {
        if keep[t].id == id {
            return true;
        }
        t += 1;
    }
    false
}

/// The square of the distance of the region `(i, j)` from the nearest
/// region of `keep`.
fn gap_to(keep: &Vec<Candidate>, i: i32, j: i32) -> (r: i128)
    ensures
        r == gap(i as int, j as int, keep@),
{
    if keep.len() == 0 {
        return 0;
    }
    let mut g: i128 = square_distance(i, j, &keep[0]);
    assert(keep@.take(1) =~= seq![keep@[0]]);
    let mut t: usize = 1;
    while t < keep.len()
        invariant
            1 <= t <= keep.len(),
            g == gap(i as int, j as int, keep@.take(t as int)),
        decreases keep.len() - t,
    {
        assert(keep@.take(t + 1).drop_last() =~= keep@.take(t as int));
        let d = square_distance(i, j, &keep[t]);
        if d < g {
            g = d;
        }
        t += 1;
    }
    assert(keep@.take(t as int) =~= keep@);
    g
}

/// The square of the distance between the region `(i, j)` and the region
/// of the candidate `c`.
fn square_distance(i: i32, j: i32, c: &Candidate) -> (r: i128)
    ensures
        r == dist2(i as int, j as int, *c),
{
    let di: i128 = i as i128 - c.i as i128;
    let dj: i128 = j as i128 - c.j as i128;
    assert(0 <= di * di <= 0x1_0000_0000_0000_0000 && 0 <= dj * dj <= 0x1_0000_0000_0000_0000)
        by (nonlinear_arith)
        requires
            -0x1_0000_0000 <= di <= 0x1_0000_0000,
            -0x1_0000_0000 <= dj <= 0x1_0000_0000,
    ;
    di * di + dj * dj
}

/// What one run of the cache's frame step leaves to the caller.
pub struct VisPlan {
    /// The active set: the regions to draw in this frame, nearest first.
    pub keep: Vec<Candidate>,
    /// The ids of the active set, in the same order.
    pub active: Vec<i32>,
    /// The images to fetch, in the order in which they were asked for.
    pub fetches: Vec<Fetch>,
    /// The ids of the regions that were evicted, in the order in which they
    /// went.
    pub evicted: Vec<i32>,
}

/// The region cache.
pub struct Regions {
    regions: Vec<Region>,
}

impl View for Regions {
    type V = Seq<RegionView>;

    closed spec fn view(&self) -> Seq<RegionView> {
        Seq::new(self.regions@.len(), |k: int| self.regions@[k]@)
    }
}

/// An empty cache.
pub fn create_regions() -> (r: Regions)
    ensures
        r.wf(),
        r@.len() == 0,
{
    Regions { regions: Vec::new() }
}

impl Regions {
    /// Whether every region of the cache meets its invariant.
    pub closed spec fn sound(&self) -> bool {
        forall|k: int| 0 <= k < self.regions@.len() ==> (#[trigger] self.regions@[k]).wf()
    }

    /// The invariant of the cache: every region meets its invariant, no
    /// two regions have the same id, and the cache holds no more regions
    /// than its capacity.
    pub open spec fn wf(&self) -> bool {
        &&& self.sound()
        &&& distinct(self@)
        &&& self@.len() <= CACHE
    }

    /// What the invariant of its regions says of the cache's plain values:
    /// each region lies in the world scope, and holds its 4096 chunks or
    /// none.
    pub proof fn lemma_sound(&self)
        requires
            self.sound(),
        ensures
            forall|k: int|
                0 <= k < self@.len() ==> {
                    &&& in_scope((#[trigger] self@[k]).i, self@[k].j)
                    &&& (self@[k].chunks.len() == 0 || self@[k].chunks.len() == 4096)
                    &&& 0 <= self@[k].cursor <= self@[k].chunks.len()
                },
    {
        assert forall|k: int| 0 <= k < self@.len() implies {
            &&& in_scope((#[trigger] self@[k]).i, self@[k].j)
            &&& (self@[k].chunks.len() == 0 || self@[k].chunks.len() == 4096)
            &&& 0 <= self@[k].cursor <= self@[k].chunks.len()
        } by {
            self.regions@[k].lemma_wf();
        }
    }

    /// The number of regions in the cache.
    pub fn size(&self) -> (n: usize)
        ensures
            n == self@.len(),
    {
        self.regions.len()
    }

    /// The index of the first region with the id `id`.
    pub fn find(&self, id: i32) -> (r: Option<usize>)
        requires
            self.sound(),
        ensures
            match r {
                Some(k) => k == position(self@, id as int) && k < self@.len() && self@[k as int].key()
                    == id,
                None => position(self@, id as int) < 0,
            },
    {
        proof {
            lemma_position(self@, id as int);
        }
        let mut found: Option<usize> = None;
        let mut t: usize = 0;
        while t < self.regions.len()
            invariant
                t <= self.regions.len(),
                self.sound(),
                match found {
                    Some(k) => k == position(self@.take(t as int), id as int),
                    None => position(self@.take(t as int), id as int) < 0,
                },
            decreases self.regions.len() - t,
        {
            assert(self@.take(t + 1).drop_last() =~= self@.take(t as int));
            assert(self.regions@[t as int].wf());
            if found.is_none() && self.regions[t].id() == id {
                found = Some(t);
            }
            t += 1;
        }
        assert(self@.take(t as int) =~= self@);
        found
    }

    /// The region with the id `id`, if the cache holds it.
    pub fn region(&self, id: i32) -> (r: Option<&Region>)
        requires
            self.sound(),
        ensures
            r is Some <==> holds(self@, id as int),
            r matches Some(region) ==> region.wf() && region@ == self@[position(self@, id as int)],
    {
        match self.find(id) {
            Some(k) => Some(&self.regions[k]),
            None => None,
        }
    }

    /// The region at the index `k` of the cache.
    pub fn region_at(&self, k: usize) -> (r: Option<&Region>)
        requires
            self.sound(),
        ensures
            r is Some <==> k < self@.len(),
            r matches Some(region) ==> region.wf() && region@ == self@[k as int],
    {
        if k >= self.regions.len() {
            return None;
        }
        Some(&self.regions[k])
    }

    /// Asks for the image of the region `id`, as `Region::prefetch` does;
    /// `None` where the cache does not hold the region.
    pub fn prefetch(&mut self, id: i32, priority: i32) -> (r: Option<Prefetch>)
        requires
            old(self).wf(),
        ensures
            final(self).wf(),
            !holds(old(self)@, id as int) ==> r is None && final(self)@ == old(self)@,
            holds(old(self)@, id as int) ==> {
                let k = position(old(self)@, id as int);
                &&& final(self)@ == old(self)@.update(k, old(self)@[k].prefetched())
                &&& r == Some(
                    if old(self)@[k].image {
                        Prefetch::Ready
                    } else {
                        (Prefetch::Fetch {
                            i: old(self)@[k].i as i32,
                            j: old(self)@[k].j as i32,
                            priority,
                        })
                    },
                )
            },
    {
        match self.find(id) {
            None => None,
            Some(k) => {
                let r = self.regions[k].prefetch(priority);
                proof {
                    self.lemma_updated(*old(self), k as int);
                }
                Some(r)
            },
        }
    }

    /// Records that the image of the region `id` has arrived. The image is
    /// taken only where the cache holds the region and a fetch of its image
    /// is under way; the result says whether it was taken.
    pub fn receive(&mut self, id: i32) -> (r: bool)
        requires
            old(self).wf(),
        ensures
            final(self).wf(),
            r == (holds(old(self)@, id as int) && old(self)@[position(old(self)@, id as int)].pending
                && !old(self)@[position(old(self)@, id as int)].image),
            !r ==> final(self)@ == old(self)@,
            r ==> final(self)@ == old(self)@.update(
                position(old(self)@, id as int),
                old(self)@[position(old(self)@, id as int)].received(),
            ),
    {
        match self.find(id) {
            None => false,
            Some(k) => {
                if !self.regions[k].fetching() {
                    return false;
                }
                self.regions[k].receive();
                proof {
                    self.lemma_updated(*old(self), k as int);
                }
                true
            },
        }
    }

    /// One step of the decoding of the region `id`, as `Region::chunk` does.
    /// A region that the cache does not hold is complete.
    pub fn chunk(&mut self, id: i32, elapsed: i64, budget: i32) -> (r: Decode)
        requires
            old(self).wf(),
        ensures
            final(self).wf(),
            !holds(old(self)@, id as int) ==> r == Decode::Complete && final(self)@ == old(self)@,
            holds(old(self)@, id as int) ==> {
                let k = position(old(self)@, id as int);
                let region = old(self)@[k];
                &&& final(self)@ == old(self)@.update(
                    k,
                    region.polled(elapsed as int, budget as int),
                )
                &&& r == if region.cursor >= region.chunks.len() {
                    Decode::Complete
                } else if region.granted(elapsed as int, budget as int) {
                    Decode::Load(region.cursor as usize)
                } else {
                    Decode::Yield
                }
            },
    {
        match self.find(id) {
            None => Decode::Complete,
            Some(k) => {
                let r = self.regions[k].chunk(elapsed, budget);
                proof {
                    self.lemma_updated(*old(self), k as int);
                }
                r
            },
        }
    }

    /// Sets the cursor of the region `id` back to the start, as
    /// `Region::cursor` does. The result says whether the cache holds the
    /// region.
    pub fn cursor(&mut self, id: i32) -> (r: bool)
        requires
            old(self).wf(),
        ensures
            final(self).wf(),
            r == holds(old(self)@, id as int),
            !r ==> final(self)@ == old(self)@,
            r ==> final(self)@ == old(self)@.update(
                position(old(self)@, id as int),
                old(self)@[position(old(self)@, id as int)].rewound(),
            ),
    {
        match self.find(id) {
            None => false,
            Some(k) => {
                self.rewind_at(k);
                true
            },
        }
    }

    /// Disposes the region `id`, as `Region::dispose` does; the region stays
    /// in the cache, without its chunks and its image. The result says
    /// whether the cache holds the region.
    pub fn dispose(&mut self, id: i32) -> (r: bool)
        requires
            old(self).wf(),
        ensures
            final(self).wf(),
            r == holds(old(self)@, id as int),
            !r ==> final(self)@ == old(self)@,
            r ==> final(self)@ == old(self)@.update(
                position(old(self)@, id as int),
                old(self)@[position(old(self)@, id as int)].disposed(),
            ),
    {
        match self.find(id) {
            None => false,
            Some(k) => {
                let _ = self.regions[k].dispose();
                proof {
                    self.lemma_updated(*old(self), k as int);
                }
                true
            },
        }
    }

    /// Loads `tile` into the chunk `c` of the region `id`, as `Region::load`
    /// does. A region that the cache does not hold changes nothing.
    pub fn load(&mut self, id: i32, c: usize, tile: &[u8])
        requires
            old(self).wf(),
        ensures
            final(self).wf(),
            !holds(old(self)@, id as int) ==> final(self)@ == old(self)@,
            holds(old(self)@, id as int) ==> final(self)@ == old(self)@.update(
                position(old(self)@, id as int),
                old(self)@[position(old(self)@, id as int)].loaded(c as int, tile@),
            ),
    {
        match self.find(id) {
            None => {},
            Some(k) => {
                self.regions[k].load(c, tile);
                proof {
                    self.lemma_updated(*old(self), k as int);
                }
            },
        }
    }

    /// Unloads the chunk `c` of the region `id`, as `Region::unload` does.
    /// A region that the cache does not hold changes nothing.
    pub fn unload(&mut self, id: i32, c: usize)
        requires
            old(self).wf(),
        ensures
            final(self).wf(),
            !holds(old(self)@, id as int) ==> final(self)@ == old(self)@,
            holds(old(self)@, id as int) ==> final(self)@ == old(self)@.update(
                position(old(self)@, id as int),
                old(self)@[position(old(self)@, id as int)].unloaded(c as int),
            ),
    {
        match self.find(id) {
            None => {},
            Some(k) => {
                self.regions[k].unload(c);
                proof {
                    self.lemma_updated(*old(self), k as int);
                }
            },
        }
    }

    /// Adds the boxes of chunk `c` of the region `id` to the staging list
    /// of `mesh`, as `Region::merge` does. A region that the cache does not
    /// hold adds nothing.
    pub fn merge(&self, mesh: &mut Mesh, id: i32, c: usize, index: u32)
        requires
            self.wf(),
        ensures
            final(mesh).active() == old(mesh).active(),
            final(mesh).ready() == old(mesh).ready(),
            final(mesh).staged() == old(mesh).staged() + if holds(self@, id as int) {
                self@[position(self@, id as int)].instances(c as int, index)
            } else {
                Seq::empty()
            },
    {
        match self.find(id) {
            None => {
                assert(mesh.staged() =~= mesh.staged() + Seq::<crate::mesh::Instance>::empty());
            },
            Some(k) => {
                self.regions[k].merge(mesh, c, index);
            },
        }
    }

    /// The occupancy byte of the world voxel `(wx, wy, wz)`: 0 where the
    /// voxel lies outside the world, its region is not cached, or its chunk
    /// is not decoded.
    pub fn pick(&self, wx: i32, wy: i32, wz: i32) -> (r: i32)
        requires
            self.wf(),
        ensures
            r == picked(self@, wx as int, wy as int, wz as int),
    {
        match locate(wx, wy, wz) {
            None => 0,
            Some(p) => {
                match self.find(p.region) {
                    None => 0,
                    Some(k) => {
                        match self.regions[k].chunk_at(p.chunk) {
                            None => 0,
                            Some(chunk) => {
                                proof {
                                    chunk.lemma_wf();
                                }
                                match chunk.vox() {
                                    None => 0,
                                    Some(v) => {
                                        assert(v@.len() == VOXELS);
                                        v[p.voxel] as i32
                                    },
                                }
                            },
                        }
                    },
                }
            },
        }
    }

    /// The chunk that has to be decoded before `pick` can answer for the
    /// world voxel `(wx, wy, wz)`: the voxel's region, chunk and index,
    /// where the region is cached and has a context and the chunk is not
    /// decoded; else `None`.
    pub fn pick_target(&self, wx: i32, wy: i32, wz: i32) -> (r: Option<Probe>)
        requires
            self.wf(),
        ensures
            r is Some <==> undecoded(self@, wx as int, wy as int, wz as int),
            r is Some ==> r == probe(wx as int, wy as int, wz as int),
    {
        match locate(wx, wy, wz) {
            None => None,
            Some(p) => {
                match self.find(p.region) {
                    None => None,
                    Some(k) => {
                        if !self.regions[k].ctx() {
                            return None;
                        }
                        match self.regions[k].chunk_at(p.chunk) {
                            None => None,
                            Some(chunk) => {
                                match chunk.vox() {
                                    None => Some(p),
                                    Some(_) => None,
                                }
                            },
                        }
                    },
                }
            },
        }
    }

    /// Admits the regions of the window around the world point `(wx, wz)`.
    fn populate(&mut self, wx: i32, wz: i32)
        requires
            old(self).sound(),
            distinct(old(self)@),
        ensures
            final(self).sound(),
            distinct(final(self)@),
            final(self)@ == admitted(old(self)@, wx as int, wz as int, CELLS as int),
            old(self)@.len() <= final(self)@.len(),
            forall|k: int| 0 <= k < old(self)@.len() ==> final(self)@[k] == old(self)@[k],
            forall|k: int|
                old(self)@.len() <= k < final(self)@.len() ==> (#[trigger] final(self)@[k]).slot < 0,
            forall|c: int|
                0 <= c < CELLS && in_scope(cell_i(wx as int, wz as int, c), cell_j(wx as int, wz as int, c))
                    ==> holds(
                    final(self)@,
                    region_key(#[trigger] cell_i(wx as int, wz as int, c), cell_j(wx as int, wz as int, c)),
                ),
    {
        let mut c: usize = 0;
        while c < CELLS
            invariant
                c <= CELLS,
                self.sound(),
                distinct(self@),
                self@ == admitted(old(self)@, wx as int, wz as int, c as int),
                old(self)@.len() <= self@.len(),
                forall|k: int| 0 <= k < old(self)@.len() ==> self@[k] == old(self)@[k],
                forall|k: int| old(self)@.len() <= k < self@.len() ==> (#[trigger] self@[k]).slot < 0,
                forall|n: int|
                    0 <= n < c && in_scope(cell_i(wx as int, wz as int, n), cell_j(wx as int, wz as int, n))
                        ==> holds(
                        self@,
                        region_key(
                            #[trigger] cell_i(wx as int, wz as int, n),
                            cell_j(wx as int, wz as int, n),
                        ),
                    ),
            decreases CELLS - c,
        {
            let at = cell(wx, wz, c);
            let ghost before = self@;
            if at.scoped {
                let id = region_id(at.i, at.j);
                if self.find(id).is_none() {
                    match make_region(at.i, at.j) {
                        Some(r) => {
                            self.regions.push(r);
                            proof {
                                assert(self@ =~= before.push(RegionView::fresh(at.i as int, at.j as int)));
                                lemma_position(before, id as int);
                                assert forall|a: int, b: int| 0 <= a < b < self@.len() implies (
                                #[trigger] self@[a]).key() != (#[trigger] self@[b]).key() by {
                                    if b < before.len() {
                                        assert(self@[a] == before[a] && self@[b] == before[b]);
                                    } else {
                                        assert(self@[a] == before[a]);
                                    }
                                }
                            }
                        },
                        None => {},
                    }
                }
            }
            proof {
                assert forall|n: int|
                    0 <= n < c + 1 && in_scope(cell_i(wx as int, wz as int, n), cell_j(wx as int, wz as int, n))
                        implies holds(
                    self@,
                    region_key(#[trigger] cell_i(wx as int, wz as int, n), cell_j(wx as int, wz as int, n)),
                ) by {
                    let key = region_key(cell_i(wx as int, wz as int, n), cell_j(wx as int, wz as int, n));
                    lemma_holds(before, key);
                    lemma_holds(self@, key);
                    if n < c {
                        let k = choose|k: int| 0 <= k < before.len() && (#[trigger] before[k]).key() == key;
                        assert(self@[k] == before[k]);
                    } else {
                        if holds(before, key) {
                            let k = choose|k: int|
                                0 <= k < before.len() && (#[trigger] before[k]).key() == key;
                            assert(self@[k] == before[k]);
                        } else {
                            assert(self@[before.len() as int].key() == key);
                        }
                    }
                }
            }
            c += 1;
        }
    }

    /// Asks the regions of `list` in turn to prefetch, and adds the fetches
    /// that this asks of the caller to `out`.
    fn prefetch_all(&mut self, list: &Vec<Candidate>, low: bool, out: &mut Vec<Fetch>)
        requires
            old(self).sound(),
            distinct(old(self)@),
        ensures
            final(self).sound(),
            distinct(final(self)@),
            final(self)@ == prefetched_all(old(self)@, list@, low),
            final(out)@ == old(out)@ + fetches_all(old(self)@, list@, low),
    {
        let ghost start = out@;
        let mut t: usize = 0;
        assert(out@ =~= start + fetches_all(old(self)@, list@.take(0), low));
        while t < list.len()
            invariant
                t <= list.len(),
                self.sound(),
                distinct(self@),
                self@ == prefetched_all(old(self)@, list@.take(t as int), low),
                out@ == start + fetches_all(old(self)@, list@.take(t as int), low),
            decreases list.len() - t,
        {
            assert(list@.take(t + 1).drop_last() =~= list@.take(t as int));
            let c = list[t];
            match self.find(c.id) {
                None => {},
                Some(k) => {
                    let idle = match self.region_at(k) {
                        Some(r) => !r.peek() && !r.fetching(),
                        None => false,
                    };
                    if !low || (0 <= c.d2 && c.d2 <= NEAR && !c.seen && idle) {
                        let p = self.prefetch_at(k, if low { 0 } else { 2 });
                        match p {
                            Prefetch::Fetch { i, j, priority } => {
                                out.push(Fetch { id: c.id, i, j, priority });
                            },
                            Prefetch::Ready => {},
                        }
                    }
                },
            }
            assert(out@ =~= start + fetches_all(old(self)@, list@.take(t + 1), low));
            t += 1;
        }
        assert(list@.take(t as int) =~= list@);
    }

    /// The index of the region to evict next.
    fn victim_index(&self, keep: &Vec<Candidate>) -> (r: Option<usize>)
        requires
            self.sound(),
        ensures
            match r {
                Some(v) => v == victim(self@, keep@) && v < self@.len(),
                None => victim(self@, keep@) < 0,
            },
    {
        proof {
            lemma_victim(self@, keep@);
        }
        let mut best: Option<usize> = None;
        let mut far: i128 = 0;
        let mut t: usize = 0;
        while t < self.regions.len()
            invariant
                t <= self.regions.len(),
                self.sound(),
                match best {
                    Some(v) => v == victim(self@.take(t as int), keep@) && v < t && far == gap(
                        self@[v as int].i,
                        self@[v as int].j,
                        keep@,
                    ),
                    None => victim(self@.take(t as int), keep@) < 0,
                },
            decreases self.regions.len() - t,
        {
            assert(self@.take(t + 1).drop_last() =~= self@.take(t as int));
            assert(self.regions@[t as int].wf());
            let r = &self.regions[t];
            if !active_in(keep, r.id()) {
                let g = gap_to(keep, r.i(), r.j());
                let better = match best {
                    Some(_) => g > far,
                    None => true,
                };
                if better {
                    best = Some(t);
                    far = g;
                }
            }
            t += 1;
        }
        assert(self@.take(t as int) =~= self@);
        best
    }

    /// Evicts regions outside `keep` until the cache is within its
    /// capacity, and frees their slots. The result holds the ids of the
    /// regions that went.
    fn evict(&mut self, slots: &mut Slots, keep: &Vec<Candidate>) -> (gone: Vec<i32>)
        requires
            old(self).sound(),
            distinct(old(self)@),
            old(slots).wf(),
        ensures
            final(self).sound(),
            final(slots).wf(),
            final(self)@ == evicted(old(self)@, keep@),
            gone@.len() == evictions(old(self)@, keep@).len(),
            forall|t: int| 0 <= t < gone@.len() ==> gone@[t] == evictions(old(self)@, keep@)[t].key(),
            final(slots)@.owner == vacated(old(slots)@.owner, evictions(old(self)@, keep@)),
            final(slots)@.pending == old(slots)@.pending,
            final(slots)@.cursor == old(slots)@.cursor,
            consistent(old(slots)@.owner, old(self)@) ==> consistent(
                final(slots)@.owner,
                final(self)@,
            ),
    {
        let mut gone: Vec<i32> = Vec::new();
        let ghost mut done: Seq<RegionView> = Seq::empty();
        let mut next = self.victim_index(keep);
        assert(evictions(old(self)@, keep@) =~= done + evictions(self@, keep@));
        while self.regions.len() > CACHE as usize && next.is_some()
            invariant
                self.sound(),
                distinct(self@),
                slots.wf(),
                match next {
                    Some(v) => v == victim(self@, keep@) && v < self@.len(),
                    None => victim(self@, keep@) < 0,
                },
                evicted(old(self)@, keep@) == evicted(self@, keep@),
                evictions(old(self)@, keep@) == done + evictions(self@, keep@),
                gone@.len() == done.len(),
                forall|t: int| 0 <= t < gone@.len() ==> gone@[t] == done[t].key(),
                vacated(old(slots)@.owner, evictions(old(self)@, keep@)) == vacated(
                    slots@.owner,
                    evictions(self@, keep@),
                ),
                slots@.pending == old(slots)@.pending,
                slots@.cursor == old(slots)@.cursor,
                consistent(old(slots)@.owner, old(self)@) ==> consistent(slots@.owner, self@),
            decreases self.regions.len(),
        {
            let v = match next {
                Some(v) => v,
                None => 0,
            };
            let ghost before = self@;
            let ghost owner = slots@.owner;
            let ghost rest = evictions(before.remove(v as int), keep@);
            assert(self.regions@[v as int].wf());
            let r = self.regions.remove(v);
            let id = r.id();
            slots.vacate(r.slot(), id);
            gone.push(id);
            proof {
                assert(self@ =~= before.remove(v as int));
                assert(slots@.owner == vacate_one(owner, before[v as int]));
                assert(evictions(before, keep@) == seq![before[v as int]] + rest);
                assert((seq![before[v as int]] + rest).drop_first() =~= rest);
                assert(done + (seq![before[v as int]] + rest) =~= done.push(before[v as int]) + rest);
                done = done.push(before[v as int]);
                assert forall|a: int, b: int| 0 <= a < b < self@.len() implies (#[trigger] self@[a]).key()
                    != (#[trigger] self@[b]).key() by {
                    let a0 = if a < v { a } else { a + 1 };
                    let b0 = if b < v { b } else { b + 1 };
                    assert(self@[a] == before[a0] && self@[b] == before[b0]);
                }
                if consistent(owner, before) {
                    lemma_removed_consistent(owner, before, v as int);
                }
            }
            next = self.victim_index(keep);
        }
        proof {
            assert(evictions(self@, keep@) =~= Seq::<RegionView>::empty());
            assert(done + Seq::<RegionView>::empty() =~= done);
        }
        gone
    }

    /// The cache's step of a frame, for a camera at the world point whose
    /// position in the ground plane has the integer part `(wx, wz)`;
    /// `visible` says for each cell of the window around the camera's region
    /// whether the cell's region is seen.
    ///
    /// The step admits every region of the window that lies in the world
    /// scope. The candidates are the regions of the window that lie in the
    /// scope and are seen or near; the active set is made of the nearest of
    /// them, as many as there are slots. Each active region is asked to
    /// prefetch with priority 2; then each candidate that is near, not seen,
    /// without an image and without a fetch is asked with priority 0. At
    /// last regions outside the active set are evicted, farthest first,
    /// until the cache is within its capacity; their slots are freed.
    pub fn vis(&mut self, slots: &mut Slots, wx: i32, wz: i32, visible: &[bool]) -> (plan: VisPlan)
        requires
            old(self).wf(),
            old(slots).wf(),
        ensures
            final(self).wf(),
            final(slots).wf(),
            ({
                let list = candidates(wx as int, wz as int, visible@, CELLS as int);
                let keep = nearest(list, SLOT as int);
                let c1 = admitted(old(self)@, wx as int, wz as int, CELLS as int);
                let c2 = prefetched_all(c1, keep, false);
                let c3 = prefetched_all(c2, list, true);
                &&& plan.keep@ == keep
                &&& plan.active@.len() == keep.len()
                &&& forall|t: int| 0 <= t < keep.len() ==> plan.active@[t] == keep[t].id
                &&& plan.fetches@ == fetches_all(c1, keep, false) + fetches_all(c2, list, true)
                &&& final(self)@ == evicted(c3, keep)
                &&& plan.evicted@.len() == evictions(c3, keep).len()
                &&& forall|t: int|
                    0 <= t < plan.evicted@.len() ==> plan.evicted@[t] == evictions(c3, keep)[t].key()
                &&& final(slots)@.owner == vacated(old(slots)@.owner, evictions(c3, keep))
            }),
            final(slots)@.pending == old(slots)@.pending,
            final(slots)@.cursor == old(slots)@.cursor,
            final(self)@.len() <= CACHE,
            forall|t: int|
                0 <= t < plan.keep@.len() ==> holds(final(self)@, (#[trigger] plan.keep@[t]).id as int),
            consistent(old(slots)@.owner, old(self)@) ==> consistent(
                final(slots)@.owner,
                final(self)@,
            ),
    {
        let list = list_candidates(wx, wz, visible);
        let keep = select(&list, SLOT as usize);
        let ids = ids_of(&keep);
        self.populate(wx, wz);
        let ghost c1 = self@;
        let mut fetches: Vec<Fetch> = Vec::new();
        self.prefetch_all(&keep, false, &mut fetches);
        let ghost c2 = self@;
        self.prefetch_all(&list, true, &mut fetches);
        let ghost c3 = self@;
        let evicted = self.evict(slots, &keep);
        proof {
            assert(fetches@ =~= fetches_all(c1, keep@, false) + fetches_all(c2, list@, true));
            lemma_nearest(list@, SLOT as int);
            lemma_candidates(wx as int, wz as int, visible@, CELLS as int);
            lemma_prefetched_all(c1, keep@, false);
            lemma_prefetched_all(c2, list@, true);
            lemma_evicted(c3, keep@);
            assert forall|t: int| 0 <= t < keep@.len() implies holds(
                self@,
                (#[trigger] keep@[t]).id as int,
            ) by {
                let n = choose|n: int| 0 <= n < list@.len() && keep@[t] == #[trigger] list@[n];
                let cand = list@[n];
                let c = choose|c: int|
                    0 <= c < CELLS && cand.i == #[trigger] cell_i(wx as int, wz as int, c) && cand.j
                        == cell_j(wx as int, wz as int, c);
                let id = cand.id as int;
                assert(holds(c1, id));
                lemma_holds(c1, id);
                lemma_holds(c3, id);
                let k = choose|k: int| 0 <= k < c1.len() && (#[trigger] c1[k]).key() == id;
                assert(c2[k].key() == id);
                assert(c3[k].key() == id);
                assert(active(id, keep@));
            }
            if consistent(old(slots)@.owner, old(self)@) {
                lemma_grown_consistent(old(slots)@.owner, old(self)@, c1);
                lemma_same_consistent(old(slots)@.owner, c1, c2);
                lemma_same_consistent(old(slots)@.owner, c2, c3);
            }
        }
        VisPlan { keep, active: ids, fetches, evicted }
    }

    /// Binds the region at the index `k` to the slot `v`. An index beyond
    /// the cache changes nothing.
    pub(crate) fn set_slot_at(&mut self, k: usize, v: i32)
        requires
            old(self).sound(),
        ensures
            final(self).sound(),
            distinct(old(self)@) ==> distinct(final(self)@),
            k < old(self)@.len() ==> final(self)@ == old(self)@.update(
                k as int,
                old(self)@[k as int].bound(v as int),
            ),
            k >= old(self)@.len() ==> final(self)@ == old(self)@,
    {
        if k < self.regions.len() {
            assert(self.regions@[k as int].wf());
            self.regions[k].set_slot(v);
            proof {
                self.lemma_updated(*old(self), k as int);
            }
        }
    }

    /// Sets the cursor of the region at the index `k` back to the start. An
    /// index beyond the cache changes nothing.
    pub(crate) fn rewind_at(&mut self, k: usize)
        requires
            old(self).sound(),
        ensures
            final(self).sound(),
            distinct(old(self)@) ==> distinct(final(self)@),
            k < old(self)@.len() ==> final(self)@ == old(self)@.update(
                k as int,
                old(self)@[k as int].rewound(),
            ),
            k >= old(self)@.len() ==> final(self)@ == old(self)@,
    {
        if k < self.regions.len() {
            assert(self.regions@[k as int].wf());
            let _ = self.regions[k].cursor();
            proof {
                self.lemma_updated(*old(self), k as int);
            }
        }
    }

    /// Asks for the image of the region at the index `k`.
    pub(crate) fn prefetch_at(&mut self, k: usize, priority: i32) -> (r: Prefetch)
        requires
            old(self).sound(),
            k < old(self)@.len(),
        ensures
            final(self).sound(),
            distinct(old(self)@) ==> distinct(final(self)@),
            final(self)@ == old(self)@.update(k as int, old(self)@[k as int].prefetched()),
            r == if old(self)@[k as int].image {
                Prefetch::Ready
            } else {
                (Prefetch::Fetch {
                    i: old(self)@[k as int].i as i32,
                    j: old(self)@[k as int].j as i32,
                    priority,
                })
            },
    {
        assert(self.regions@[k as int].wf());
        let r = self.regions[k].prefetch(priority);
        proof {
            self.lemma_updated(*old(self), k as int);
        }
        r
    }

    /// A cache in which the region at `k` was changed, and kept its
    /// coordinates and its invariant, is sound, and its regions are
    /// distinct if they were.
    proof fn lemma_updated(&self, before: Regions, k: int)
        requires
            before.sound(),
            0 <= k < before.regions@.len(),
            self.regions@.len() == before.regions@.len(),
            self.regions@[k].wf(),
            self.regions@[k]@.i == before.regions@[k]@.i,
            self.regions@[k]@.j == before.regions@[k]@.j,
            forall|n: int| 0 <= n < self.regions@.len() && n != k ==> self.regions@[n] == before.regions@[n],
        ensures
            self.sound(),
            distinct(before@) ==> distinct(self@),
            self@ == before@.update(k, self.regions@[k]@),
    {
        assert(self@ =~= before@.update(k, self.regions@[k]@));
        assert forall|n: int| 0 <= n < self.regions@.len() implies (#[trigger] self.regions@[n]).wf() by {
            if n != k {
                assert(before.regions@[n].wf());
            }
        }
        if distinct(before@) {
            assert forall|a: int, b: int| 0 <= a < b < self@.len() implies (#[trigger] self@[a]).key()
                != (#[trigger] self@[b]).key() by {
                assert(self@[a].key() == before@[a].key());
                assert(self@[b].key() == before@[b].key());
            }
        }
    }
}

} // verus!
