//! The slot pool: a fixed number of render slots, each bound to at most
//! one region at a time.
//!
//! A slot names its region by id, and a bound region records the index of
//! its slot. The pool and the cache are consistent when the two records
//! agree; every operation here keeps them so.

use vstd::prelude::*;
use crate::region::{Prefetch, RegionView};
use crate::regions::{distinct, holds, lemma_position, position, Regions};

verus! {

/// What a slot is, as plain values.
pub struct SlotView {
    /// The id of the region that the slot is bound to.
    pub region: Option<int>,
    /// Whether the slot's texture holds the image of its region.
    pub ready: bool,
}

impl SlotView {
    /// The free slot.
    pub open spec fn free() -> SlotView {
        SlotView { region: None, ready: false }
    }
}

/// What a slot pool is, as plain values.
pub struct SlotsView {
    /// The slots of the pool.
    pub owner: Seq<SlotView>,
    /// The ids of the regions to bind in this frame, in order.
    pub pending: Seq<i32>,
    /// The index in `pending` of the next region to bind.
    pub cursor: int,
}

/// Whether the pool and the cache agree: a region that records a slot is
/// the one that the slot is bound to, and a bound slot is the one that its
/// region, which the cache holds, records.
pub open spec fn consistent(owner: Seq<SlotView>, cache: Seq<RegionView>) -> bool {
    &&& forall|k: int|
        0 <= k < cache.len() && (#[trigger] cache[k]).slot >= 0 ==> cache[k].slot < owner.len()
            && owner[cache[k].slot].region == Some(cache[k].key())
    &&& forall|s: int|
        0 <= s < owner.len() && (#[trigger] owner[s]).region is Some ==> exists|k: int|
            0 <= k < cache.len() && (#[trigger] cache[k]).key() == owner[s].region->0 && cache[k].slot
                == s
}

/// Whether some slot of `owner` is bound to the region `id`.
pub open spec fn owns(owner: Seq<SlotView>, id: int) -> bool {
    exists|s: int| 0 <= s < owner.len() && (#[trigger] owner[s]).region == Some(id)
}

/// The index of the first free slot of `owner`; -1 where there is none.
pub open spec fn first_free(owner: Seq<SlotView>) -> int
    decreases owner.len(),
{
    if owner.len() == 0 {
        -1
    } else {
        let p = first_free(owner.drop_last());
        if p >= 0 {
            p
        } else if owner.last().region is None {
            owner.len() - 1
        } else {
            -1
        }
    }
}

/// The first free slot, if there is one, is a free slot of the pool, and no
/// slot before it is free.
pub proof fn lemma_first_free(owner: Seq<SlotView>)
    ensures
        -1 <= first_free(owner) < owner.len(),
        first_free(owner) >= 0 ==> owner[first_free(owner)].region is None,
        forall|s: int| 0 <= s < owner.len() && owner[s].region is None ==> 0 <= first_free(owner) <= s,
    decreases owner.len(),
{
    if owner.len() > 0 {
        lemma_first_free(owner.drop_last());
        assert forall|s: int| 0 <= s < owner.len() && owner[s].region is None implies 0
            <= first_free(owner) <= s by {
            if s < owner.len() - 1 {
                assert(owner.drop_last()[s] == owner[s]);
            }
        }
    }
}

/// A pool of free slots is consistent with a cache whose regions record no
/// slot, as a new pool is with an empty cache.
pub proof fn lemma_free_consistent(owner: Seq<SlotView>, cache: Seq<RegionView>)
    requires
        forall|s: int| 0 <= s < owner.len() ==> (#[trigger] owner[s]).region is None,
        forall|k: int| 0 <= k < cache.len() ==> (#[trigger] cache[k]).slot < 0,
    ensures
        consistent(owner, cache),
{
}

/// In a consistent pool and cache with distinct region ids, no two regions
/// record the same slot, and a region records no slot exactly if no slot is
/// bound to it.
pub proof fn lemma_slots_exclusive(owner: Seq<SlotView>, cache: Seq<RegionView>)
    requires
        consistent(owner, cache),
        distinct(cache),
    ensures
        forall|a: int, b: int|
            0 <= a < cache.len() && 0 <= b < cache.len() && a != b && (#[trigger] cache[a]).slot >= 0
                ==> cache[a].slot != (#[trigger] cache[b]).slot,
        forall|k: int|
            0 <= k < cache.len() ==> ((#[trigger] cache[k]).slot < 0 <==> !owns(owner, cache[k].key())),
{
    assert forall|a: int, b: int|
        0 <= a < cache.len() && 0 <= b < cache.len() && a != b && (#[trigger] cache[a]).slot
            >= 0 implies cache[a].slot != (#[trigger] cache[b]).slot by {
        if cache[a].slot == cache[b].slot {
            assert(owner[cache[a].slot].region == Some(cache[a].key()));
            assert(owner[cache[b].slot].region == Some(cache[b].key()));
            if a < b {
                assert(cache[a].key() != cache[b].key());
            } else {
                assert(cache[b].key() != cache[a].key());
            }
        }
    }
    assert forall|k: int| 0 <= k < cache.len() implies ((#[trigger] cache[k]).slot < 0 <==> !owns(
        owner,
        cache[k].key(),
    )) by {
        if cache[k].slot >= 0 {
            assert(owner[cache[k].slot].region == Some(cache[k].key()));
        } else if owns(owner, cache[k].key()) {
            let s = choose|s: int|
                0 <= s < owner.len() && (#[trigger] owner[s]).region == Some(cache[k].key());
            let n = choose|n: int|
                0 <= n < cache.len() && (#[trigger] cache[n]).key() == owner[s].region->0
                    && cache[n].slot == s;
            if n < k {
                assert(cache[n].key() != cache[k].key());
            } else if k < n {
                assert(cache[k].key() != cache[n].key());
            }
        }
    }
}

/// One render slot.
#[derive(Clone, Copy, Debug, PartialEq, Eq, Structural)]
pub struct Slot {
    region: Option<i32>,
    is_ready: bool,
    index: i32,
}

impl View for Slot {
    type V = SlotView;

    closed spec fn view(&self) -> SlotView {
        SlotView {
            region: match self.region {
                Some(id) => Some(id as int),
                None => None,
            },
            ready: self.is_ready,
        }
    }
}

/// What one step of a frame's binding asks of the caller.
#[derive(Clone, Copy, Debug, PartialEq, Eq, Structural)]
pub enum Step {
    /// Every pending region was bound and decoded.
    Complete,
    /// The budget is used up: come back in the next frame.
    Yield,
    /// Bind the region `region` and decode it with the budget `budget`.
    Assign { region: i32, budget: i32 },
}

/// What the preparation of a slot asks of the caller.
#[derive(Clone, Copy, Debug, PartialEq, Eq, Structural)]
pub enum Ready {
    /// There is no such slot, or the cache does not hold the slot's region:
    /// the slot is not ready.
    Failed,
    /// The slot is bound to no region: there is nothing to prepare.
    Idle,
    /// The image of the slot's region is missing. The region was asked to
    /// prefetch it with priority 2; the slot is not ready.
    Waiting(Prefetch),
    /// Build the slot's texture from the image of the region `region`. The
    /// slot counts as ready from now on.
    Upload { region: i32 },
}

/// The slot pool.
pub struct Slots {
    owner: Vec<Slot>,
    pending: Vec<i32>,
    cursor: usize,
}

impl View for Slots {
    type V = SlotsView;

    closed spec fn view(&self) -> SlotsView {
        SlotsView {
            owner: Seq::new(self.owner@.len(), |s: int| self.owner@[s]@),
            pending: self.pending@,
            cursor: self.cursor as int,
        }
    }
}

/// Whether `ids` holds `id`.
pub fn contains(ids: &Vec<i32>, id: i32) -> (r: bool)
    ensures
        r == ids@.contains(id),
{
    let mut t: usize = 0;
    while t < ids.len()
        invariant
            t <= ids.len(),
            forall|n: int| 0 <= n < t ==> ids@[n] != id,
        decreases ids.len() - t,
    {
        if ids[t] == id {
            return true;
        }
        t += 1;
    }
    false
}

/// The time that is left of `budget` after `elapsed`, kept within the
/// range of the result's type.
pub open spec fn remaining(elapsed: int, budget: int) -> int {
    if budget - elapsed > i32::MAX {
        i32::MAX as int
    } else if budget - elapsed < i32::MIN {
        i32::MIN as int
    } else {
        budget - elapsed
    }
}

/// The pool after a frame has begun with the active set `active`: a slot
/// whose region is not active is free.
pub open spec fn begun_owner(owner: Seq<SlotView>, active: Seq<i32>) -> Seq<SlotView> {
    Seq::new(
        owner.len(),
        |s: int|
            if owner[s].region is Some && !active.contains(owner[s].region->0 as i32) {
                SlotView::free()
            } else {
                owner[s]
            },
    )
}

/// A region after a frame has begun with the active set `active`: it has
/// lost its slot if a slot was bound to it and it is not active, and its
/// cursor is back at the start if it is active.
pub open spec fn begun_region(r: RegionView, owner: Seq<SlotView>, active: Seq<i32>) -> RegionView {
    RegionView {
        slot: if owns(owner, r.key()) && !active.contains(r.key() as i32) {
            -1
        } else {
            r.slot
        },
        cursor: if active.contains(r.key() as i32) {
            0
        } else {
            r.cursor
        },
        ..r
    }
}

/// The cache after a frame has begun with the active set `active`.
pub open spec fn begun_cache(cache: Seq<RegionView>, owner: Seq<SlotView>, active: Seq<i32>) -> Seq<
    RegionView,
> {
    Seq::new(cache.len(), |k: int| begun_region(cache[k], owner, active))
}

/// A pool of `size` free slots; of none where `size` is negative.
pub fn create_slots(size: i32) -> (r: Slots)
    ensures
        r.wf(),
        r@.owner.len() == if size > 0 {
            size as int
        } else {
            0
        },
        forall|s: int| 0 <= s < r@.owner.len() ==> r@.owner[s] == SlotView::free(),
        r@.pending.len() == 0,
        r@.cursor == 0,
{
    let mut owner: Vec<Slot> = Vec::new();
    let mut i: i32 = 0;
    while i < size
        invariant
            0 <= i,
            i <= size || i == 0,
            owner.len() == i,
            forall|s: int|
                0 <= s < owner.len() ==> (#[trigger] owner@[s])@ == SlotView::free() && owner@[s].index
                    == s,
        decreases size - i,
    {
        owner.push(Slot { region: None, is_ready: false, index: i });
        i += 1;
    }
    let r = Slots { owner, pending: Vec::new(), cursor: 0 };
    assert(r@.owner.len() == r.owner@.len());
    r
}

impl Slots {
    /// The invariant of the pool: each slot knows its index, and the
    /// indices fit the type in which a region records its slot.
    pub closed spec fn wf(&self) -> bool {
        &&& self.owner@.len() <= i32::MAX
        &&& forall|s: int| 0 <= s < self.owner@.len() ==> (#[trigger] self.owner@[s]).index == s
    }

    /// The number of slots of the pool.
    pub fn size(&self) -> (n: usize)
        ensures
            n == self@.owner.len(),
    {
        self.owner.len()
    }

    /// The id of the region that the slot `index` is bound to; `None` where
    /// the slot is free or there is no such slot.
    pub fn owner(&self, index: usize) -> (r: Option<i32>)
        ensures
            index >= self@.owner.len() ==> r is None,
            index < self@.owner.len() ==> match r {
                Some(id) => self@.owner[index as int].region == Some(id as int),
                None => self@.owner[index as int].region is None,
            },
    {
        if index >= self.owner.len() {
            return None;
        }
        self.owner[index].region
    }

    /// Whether the slot `index` is ready to draw from; `false` where there
    /// is no such slot.
    pub fn is_ready(&self, index: usize) -> (r: bool)
        ensures
            r == (index < self@.owner.len() && self@.owner[index as int].ready),
    {
        index < self.owner.len() && self.owner[index].is_ready
    }

    /// Whether some slot is bound to the region `id`.
    pub fn binds(&self, id: i32) -> (r: bool)
        ensures
            r == owns(self@.owner, id as int),
    {
        let mut s: usize = 0;
        while s < self.owner.len()
            invariant
                s <= self.owner.len(),
                forall|n: int| 0 <= n < s ==> (#[trigger] self@.owner[n]).region != Some(id as int),
            decreases self.owner.len() - s,
        {
            if self.owner[s].region == Some(id) {
                assert(self@.owner[s as int].region == Some(id as int));
                return true;
            }
            s += 1;
        }
        false
    }

    /// Frees the slot `s` if it is bound to the region `id`.
    pub(crate) fn vacate(&mut self, s: i32, id: i32)
        requires
            old(self).wf(),
        ensures
            final(self).wf(),
            final(self)@.pending == old(self)@.pending,
            final(self)@.cursor == old(self)@.cursor,
            final(self)@.owner == if 0 <= s < old(self)@.owner.len() && old(self)@.owner[s as int].region
                == Some(id as int) {
                old(self)@.owner.update(s as int, SlotView::free())
            } else {
                old(self)@.owner
            },
    {
        if s >= 0 && (s as usize) < self.owner.len() && self.owner[s as usize].region == Some(id) {
            let index = self.owner[s as usize].index;
            self.owner[s as usize] = Slot { region: None, is_ready: false, index };
            assert(self@.owner =~= old(self)@.owner.update(s as int, SlotView::free()));
        } else {
            assert(self@.owner =~= old(self)@.owner);
        }
    }

    /// Begins a frame with the active set `active`.
    ///
    /// Every slot whose region is not active is freed, and that region, if
    /// the cache holds it, records no slot any more. The cursor of every
    /// active region goes back to the start. The active regions are pending
    /// in the order of `active`, and the first of them is next.
    pub fn begin(&mut self, regions: &mut Regions, active: &Vec<i32>)
        requires
            old(self).wf(),
            old(regions).wf(),
        ensures
            final(self).wf(),
            final(regions).wf(),
            final(self)@.owner == begun_owner(old(self)@.owner, active@),
            final(self)@.pending == active@,
            final(self)@.cursor == 0,
            final(regions)@ == begun_cache(old(regions)@, old(self)@.owner, active@),
            consistent(old(self)@.owner, old(regions)@) ==> consistent(
                final(self)@.owner,
                final(regions)@,
            ),
    {
        proof {
            regions.lemma_sound();
        }
        let n = regions.size();
        let mut k: usize = 0;
        while k < n
            invariant
                k <= n,
                n == regions@.len(),
                n == old(regions)@.len(),
                regions.sound(),
                distinct(regions@),
                *self == *old(self),
                forall|m: int|
                    0 <= m < k ==> regions@[m] == begun_region(
                        old(regions)@[m],
                        old(self)@.owner,
                        active@,
                    ),
                forall|m: int| k <= m < n ==> regions@[m] == old(regions)@[m],
            decreases n - k,
        {
            let id = match regions.region_at(k) {
                Some(r) => r.id(),
                None => 0,
            };
            let is_active = contains(active, id);
            if is_active {
                regions.rewind_at(k);
            } else if self.binds(id) {
                regions.set_slot_at(k, -1);
            }
            assert(regions@[k as int] == begun_region(
                old(regions)@[k as int],
                old(self)@.owner,
                active@,
            ));
            k += 1;
        }
        let mut s: usize = 0;
        while s < self.owner.len()
            invariant
                s <= self.owner.len(),
                self.owner.len() == old(self).owner.len(),
                self.wf(),
                forall|m: int|
                    0 <= m < s ==> (#[trigger] self.owner@[m])@ == begun_owner(
                        old(self)@.owner,
                        active@,
                    )[m],
                forall|m: int| s <= m < self.owner.len() ==> self.owner@[m] == old(self).owner@[m],
            decreases self.owner.len() - s,
        {
            match self.owner[s].region {
                Some(id) => {
                    if !contains(active, id) {
                        let index = self.owner[s].index;
                        self.owner[s] = Slot { region: None, is_ready: false, index };
                    }
                },
                None => {},
            }
            s += 1;
        }
        self.cursor = 0;
        self.pending = active.clone();
        proof {
            assert(self@.owner =~= begun_owner(old(self)@.owner, active@));
            assert(regions@ =~= begun_cache(old(regions)@, old(self)@.owner, active@));
            if consistent(old(self)@.owner, old(regions)@) {
                lemma_begin_consistent(old(self)@.owner, old(regions)@, active@);
            }
        }
    }

    /// One step of the frame's binding, `elapsed` milliseconds into a call
    /// with a budget of `budget` milliseconds.
    ///
    /// The frame is complete when no region is pending. Else the step
    /// yields where no time is left, and else it names the next pending
    /// region and the time that is left for it. Nothing changes: the caller
    /// moves on with `advance` once the region is bound and decoded.
    pub fn step(&self, elapsed: i64, budget: i32) -> (r: Step)
        ensures
            r == if self@.cursor >= self@.pending.len() {
                Step::Complete
            } else if remaining(elapsed as int, budget as int) <= 0 {
                Step::Yield
            } else {
                (Step::Assign {
                    region: self@.pending[self@.cursor],
                    budget: remaining(elapsed as int, budget as int) as i32,
                })
            },
    {
        if self.cursor >= self.pending.len() {
            return Step::Complete;
        }
        let left: i128 = budget as i128 - elapsed as i128;
        let dt: i32 = if left > i32::MAX as i128 {
            i32::MAX
        } else if left < i32::MIN as i128 {
            i32::MIN
        } else {
            left as i32
        };
        if dt <= 0 {
            return Step::Yield;
        }
        Step::Assign { region: self.pending[self.cursor], budget: dt }
    }

    /// Moves on to the next pending region, if one is left.
    pub fn advance(&mut self)
        ensures
            old(self).wf() ==> final(self).wf(),
            final(self)@.owner == old(self)@.owner,
            final(self)@.pending == old(self)@.pending,
            final(self)@.cursor == if old(self)@.cursor < old(self)@.pending.len() {
                old(self)@.cursor + 1
            } else {
                old(self)@.cursor
            },
    {
        if self.cursor < self.pending.len() {
            self.cursor += 1;
        }
        assert(self@.owner =~= old(self)@.owner);
    }

    /// Binds the region `id` to a slot and returns the slot's index.
    ///
    /// A region that records a slot keeps it, if that slot is still bound
    /// to the region; if it is not, the binding is stale and the call
    /// fails. A region that records no slot takes the first free slot,
    /// which is not ready yet; the call fails where no slot is free. It
    /// fails, too, where the cache does not hold the region. A call that
    /// fails changes nothing.
    pub fn assign(&mut self, regions: &mut Regions, id: i32) -> (r: Option<usize>)
        requires
            old(self).wf(),
            old(regions).wf(),
        ensures
            final(self).wf(),
            final(regions).wf(),
            final(self)@.pending == old(self)@.pending,
            final(self)@.cursor == old(self)@.cursor,
            ({
                let cache = old(regions)@;
                let owner = old(self)@.owner;
                let k = position(cache, id as int);
                if k < 0 {
                    r is None
                } else if cache[k].slot >= 0 {
                    r == if cache[k].slot < owner.len() && owner[cache[k].slot].region == Some(
                        id as int,
                    ) {
                        Some(cache[k].slot as usize)
                    } else {
                        None
                    }
                } else {
                    r == if first_free(owner) >= 0 {
                        Some(first_free(owner) as usize)
                    } else {
                        None
                    }
                }
            }),
            ({
                let cache = old(regions)@;
                let owner = old(self)@.owner;
                let k = position(cache, id as int);
                if k >= 0 && cache[k].slot < 0 && first_free(owner) >= 0 {
                    &&& final(self)@.owner == owner.update(
                        first_free(owner),
                        SlotView { region: Some(id as int), ready: false },
                    )
                    &&& final(regions)@ == cache.update(k, cache[k].bound(first_free(owner)))
                } else {
                    &&& final(self)@.owner == owner
                    &&& final(regions)@ == cache
                }
            }),
            consistent(old(self)@.owner, old(regions)@) ==> consistent(
                final(self)@.owner,
                final(regions)@,
            ),
    {
        proof {
            lemma_position(regions@, id as int);
            lemma_first_free(self@.owner);
        }
        let k = match regions.find(id) {
            Some(k) => k,
            None => {
                return None;
            },
        };
        let index = match regions.region_at(k) {
            Some(r) => r.slot(),
            None => -1,
        };
        if index >= 0 {
            if (index as usize) < self.owner.len() && self.owner[index as usize].region == Some(id) {
                assert(self@.owner[index as int].region == Some(id as int));
                return Some(index as usize);
            }
            return None;
        }
        let mut free: Option<usize> = None;
        let mut s: usize = 0;
        while s < self.owner.len()
            invariant
                s <= self.owner.len(),
                *self == *old(self),
                match free {
                    Some(f) => f == first_free(self@.owner.take(s as int)),
                    None => first_free(self@.owner.take(s as int)) < 0,
                },
            decreases self.owner.len() - s,
        {
            assert(self@.owner.take(s + 1).drop_last() =~= self@.owner.take(s as int));
            if free.is_none() && self.owner[s].region.is_none() {
                free = Some(s);
            }
            s += 1;
        }
        assert(self@.owner.take(s as int) =~= self@.owner);
        let f = match free {
            Some(f) => f,
            None => {
                return None;
            },
        };
        let slot_index = self.owner[f].index;
        self.owner[f] = Slot { region: Some(id), is_ready: false, index: slot_index };
        regions.set_slot_at(k, f as i32);
        proof {
            assert(self@.owner =~= old(self)@.owner.update(
                f as int,
                SlotView { region: Some(id as int), ready: false },
            ));
            if consistent(old(self)@.owner, old(regions)@) {
                lemma_assign_consistent(old(self)@.owner, old(regions)@, k as int, f as int);
            }
        }
        Some(f)
    }

    /// Prepares the slot `index` for drawing; see `Ready` for what the
    /// result asks of the caller.
    ///
    /// A slot that is bound to a cached region whose image is there counts
    /// as ready from now on. Where the image is missing, the region is
    /// asked to prefetch it with priority 2.
    pub fn ready(&mut self, regions: &mut Regions, index: i32) -> (r: Ready)
        requires
            old(self).wf(),
            old(regions).wf(),
        ensures
            final(self).wf(),
            final(regions).wf(),
            final(self)@.pending == old(self)@.pending,
            final(self)@.cursor == old(self)@.cursor,
            ({
                let cache = old(regions)@;
                let owner = old(self)@.owner;
                if !(0 <= index < owner.len()) {
                    &&& r == Ready::Failed
                    &&& final(self)@.owner == owner
                    &&& final(regions)@ == cache
                } else if owner[index as int].region is None {
                    &&& r == Ready::Idle
                    &&& final(self)@.owner == owner
                    &&& final(regions)@ == cache
                } else {
                    let id = owner[index as int].region->0;
                    let k = position(cache, id);
                    if k < 0 {
                        &&& r == Ready::Failed
                        &&& final(self)@.owner == owner
                        &&& final(regions)@ == cache
                    } else if !cache[k].image {
                        &&& r == Ready::Waiting(
                            Prefetch::Fetch {
                                i: cache[k].i as i32,
                                j: cache[k].j as i32,
                                priority: 2,
                            },
                        )
                        &&& final(self)@.owner == owner
                        &&& final(regions)@ == cache.update(k, cache[k].prefetched())
                    } else {
                        &&& r == (Ready::Upload { region: id as i32 })
                        &&& final(self)@.owner == owner.update(
                            index as int,
                            SlotView { region: Some(id), ready: true },
                        )
                        &&& final(regions)@ == cache
                    }
                }
            }),
            consistent(old(self)@.owner, old(regions)@) ==> consistent(
                final(self)@.owner,
                final(regions)@,
            ),
    {
        if index < 0 || (index as usize) >= self.owner.len() {
            return Ready::Failed;
        }
        let s = index as usize;
        let id = match self.owner[s].region {
            Some(id) => id,
            None => {
                return Ready::Idle;
            },
        };
        assert(self@.owner[s as int].region == Some(id as int));
        let k = match regions.find(id) {
            Some(k) => k,
            None => {
                return Ready::Failed;
            },
        };
        let has_image = match regions.region_at(k) {
            Some(r) => r.peek(),
            None => false,
        };
        if !has_image {
            let p = regions.prefetch_at(k, 2);
            proof {
                if consistent(old(self)@.owner, old(regions)@) {
                    assert(consistent(self@.owner, regions@)) by {
                        assert forall|n: int| 0 <= n < regions@.len() implies (#[trigger] regions@[n]).slot
                            == old(regions)@[n].slot && regions@[n].key() == old(regions)@[n].key() by {}
                        assert forall|t: int|
                            0 <= t < self@.owner.len() && (#[trigger] self@.owner[t]).region
                                is Some implies exists|n: int|
                            0 <= n < regions@.len() && (#[trigger] regions@[n]).key()
                                == self@.owner[t].region->0 && regions@[n].slot == t by {
                            let n = choose|n: int|
                                0 <= n < old(regions)@.len() && (#[trigger] old(regions)@[n]).key()
                                    == self@.owner[t].region->0 && old(regions)@[n].slot == t;
                            assert(regions@[n].key() == self@.owner[t].region->0);
                        }
                    }
                }
            }
            return Ready::Waiting(p);
        }
        let slot_index = self.owner[s].index;
        self.owner[s] = Slot { region: Some(id), is_ready: true, index: slot_index };
        proof {
            assert(self@.owner =~= old(self)@.owner.update(
                index as int,
                SlotView { region: Some(id as int), ready: true },
            ));
            if consistent(old(self)@.owner, old(regions)@) {
                assert(consistent(self@.owner, regions@)) by {
                    assert forall|t: int|
                        0 <= t < self@.owner.len() && (#[trigger] self@.owner[t]).region
                            is Some implies exists|n: int|
                        0 <= n < regions@.len() && (#[trigger] regions@[n]).key()
                            == self@.owner[t].region->0 && regions@[n].slot == t by {
                        assert(old(self)@.owner[t].region is Some);
                        let n = choose|n: int|
                            0 <= n < regions@.len() && (#[trigger] regions@[n]).key() == old(
                                self,
                            )@.owner[t].region->0 && regions@[n].slot == t;
                        assert(regions@[n].key() == self@.owner[t].region->0);
                    }
                }
            }
        }
        Ready::Upload { region: id }
    }
}

/// Beginning a frame keeps a consistent pool and cache consistent.
pub proof fn lemma_begin_consistent(owner: Seq<SlotView>, cache: Seq<RegionView>, active: Seq<i32>)
    requires
        consistent(owner, cache),
        forall|k: int| 0 <= k < cache.len() ==> i32::MIN <= (#[trigger] cache[k]).key() <= i32::MAX,
    ensures
        consistent(begun_owner(owner, active), begun_cache(cache, owner, active)),
{
    let owner2 = begun_owner(owner, active);
    let cache2 = begun_cache(cache, owner, active);
    assert forall|k: int| 0 <= k < cache2.len() && (#[trigger] cache2[k]).slot >= 0 implies cache2[k].slot
        < owner2.len() && owner2[cache2[k].slot].region == Some(cache2[k].key()) by {
        let s = cache[k].slot;
        assert(cache2[k].slot == s);
        assert(owner[s].region == Some(cache[k].key()));
        assert(owns(owner, cache[k].key()));
    }
    assert forall|s: int| 0 <= s < owner2.len() && (#[trigger] owner2[s]).region is Some implies exists|
        k: int,
    |
        0 <= k < cache2.len() && (#[trigger] cache2[k]).key() == owner2[s].region->0 && cache2[k].slot
            == s by {
        assert(owner[s].region is Some);
        let k = choose|k: int|
            0 <= k < cache.len() && (#[trigger] cache[k]).key() == owner[s].region->0 && cache[k].slot
                == s;
        assert(cache2[k].key() == owner2[s].region->0);
        assert(cache2[k].slot == s);
    }
}

/// Binding a region without a slot to a free slot keeps a consistent pool
/// and cache consistent.
pub proof fn lemma_assign_consistent(owner: Seq<SlotView>, cache: Seq<RegionView>, k: int, f: int)
    requires
        consistent(owner, cache),
        0 <= k < cache.len(),
        cache[k].slot < 0,
        0 <= f < owner.len(),
        owner[f].region is None,
    ensures
        consistent(
            owner.update(f, SlotView { region: Some(cache[k].key()), ready: false }),
            cache.update(k, cache[k].bound(f)),
        ),
{
    let owner2 = owner.update(f, SlotView { region: Some(cache[k].key()), ready: false });
    let cache2 = cache.update(k, cache[k].bound(f));
    assert forall|n: int| 0 <= n < cache2.len() && (#[trigger] cache2[n]).slot >= 0 implies cache2[n].slot
        < owner2.len() && owner2[cache2[n].slot].region == Some(cache2[n].key()) by {
        if n != k {
            assert(cache[n].slot >= 0);
            assert(owner[cache[n].slot].region == Some(cache[n].key()));
        }
    }
    assert forall|s: int| 0 <= s < owner2.len() && (#[trigger] owner2[s]).region is Some implies exists|
        n: int,
    |
        0 <= n < cache2.len() && (#[trigger] cache2[n]).key() == owner2[s].region->0 && cache2[n].slot
            == s by {
        if s == f {
            assert(cache2[k].key() == owner2[s].region->0 && cache2[k].slot == s);
        } else {
            assert(owner[s].region is Some);
            let n = choose|n: int|
                0 <= n < cache.len() && (#[trigger] cache[n]).key() == owner[s].region->0
                    && cache[n].slot == s;
            assert(n != k);
            assert(cache2[n].key() == owner2[s].region->0 && cache2[n].slot == s);
        }
    }
}

} // verus!
