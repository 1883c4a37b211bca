//! The mesh aggregator: the boxes of all active regions, as one list of
//! instances to draw.
//!
//! The aggregator holds two lists. Merging writes to the staging list;
//! drawing reads the active list. A commit publishes the staging list as
//! the active one, so that a draw never sees a list that is being built.

use vstd::prelude::*;
use crate::chunk::shifted;
use crate::mesher::Cuboid;

verus! {

/// One box to draw, with the slot of the region that it belongs to.
#[derive(Clone, Copy, Debug, PartialEq, Eq, Structural)]
pub struct Instance {
    pub cuboid: Cuboid,
    pub aid: u32,
}

/// The instance that is drawn while nothing is loaded: a unit box centred
/// at the origin, in slot 0.
pub open spec fn unit_instance() -> Instance {
    Instance { cuboid: Cuboid { cx: 0, cy: 0, cz: 0, w: 1, h: 1, d: 1 }, aid: 0 }
}

/// The boxes `boxes` as instances of the slot `index`.
pub open spec fn tagged(boxes: Seq<Cuboid>, index: u32) -> Seq<Instance> {
    Seq::new(boxes.len(), |j: int| Instance { cuboid: boxes[j], aid: index })
}

/// The mesh aggregator.
pub struct Mesh {
    active: Vec<Instance>,
    staging: Vec<Instance>,
    is_ready: bool,
}

fn unit() -> (r: Instance)
    ensures
        r == unit_instance(),
{
    Instance { cuboid: Cuboid { cx: 0, cy: 0, cz: 0, w: 1, h: 1, d: 1 }, aid: 0 }
}

/// A new aggregator: the active list holds the unit instance, the staging
/// list is empty, and nothing has been committed.
pub fn create_mesh() -> (m: Mesh)
    ensures
        m.active() == seq![unit_instance()],
        m.staged().len() == 0,
        !m.ready(),
{
    let mut active: Vec<Instance> = Vec::new();
    active.push(unit());
    let m = Mesh { active, staging: Vec::new(), is_ready: false };
    assert(m.active() =~= seq![unit_instance()]);
    m
}

impl Mesh {
    /// The active list, which a draw reads.
    pub closed spec fn active(&self) -> Seq<Instance> {
        self.active@
    }

    /// The staging list, which merging writes.
    pub closed spec fn staged(&self) -> Seq<Instance> {
        self.staging@
    }

    /// Whether a commit has published a list.
    pub closed spec fn ready(&self) -> bool {
        self.is_ready
    }

    /// Appends `boxes`, each moved by `(dx, dy, dz)` voxels and tagged with
    /// the slot `index`, to the staging list.
    pub fn merge(&mut self, boxes: &Vec<Cuboid>, dx: i32, dy: i32, dz: i32, index: u32)
        requires
            forall|j: int|
                0 <= j < boxes.len() ==> {
                    &&& i32::MIN <= (#[trigger] boxes@[j]).cx + 2 * dx <= i32::MAX
                    &&& i32::MIN <= boxes@[j].cy + 2 * dy <= i32::MAX
                    &&& i32::MIN <= boxes@[j].cz + 2 * dz <= i32::MAX
                },
        ensures
            final(self).staged() == old(self).staged() + tagged(
                shifted(boxes@, dx as int, dy as int, dz as int),
                index,
            ),
            final(self).active() == old(self).active(),
            final(self).ready() == old(self).ready(),
    {
        let ghost before = self.staging@;
        let ghost added = tagged(shifted(boxes@, dx as int, dy as int, dz as int), index);
        let mut n: usize = 0;
        while n < boxes.len()
            invariant
                n <= boxes.len(),
                self.active == old(self).active,
                self.is_ready == old(self).is_ready,
                added == tagged(shifted(boxes@, dx as int, dy as int, dz as int), index),
                self.staging@ == before + added.take(n as int),
                forall|j: int|
                    0 <= j < boxes.len() ==> {
                        &&& i32::MIN <= (#[trigger] boxes@[j]).cx + 2 * dx <= i32::MAX
                        &&& i32::MIN <= boxes@[j].cy + 2 * dy <= i32::MAX
                        &&& i32::MIN <= boxes@[j].cz + 2 * dz <= i32::MAX
                    },
            decreases boxes.len() - n,
        {
            let b = boxes[n].move_by(dx, dy, dz);
            self.staging.push(Instance { cuboid: b, aid: index });
            assert(self.staging@ =~= before + added.take(n + 1));
            n += 1;
        }
        assert(added.take(n as int) =~= added);
    }

    /// Empties the staging list.
    pub fn reset(&mut self)
        ensures
            final(self).staged().len() == 0,
            final(self).active() == old(self).active(),
            final(self).ready() == old(self).ready(),
    {
        self.staging.clear();
    }

    /// Publishes the staging list: if it is not empty it becomes the active
    /// list, the staging list is emptied, and the result is `true`. An empty
    /// staging list changes nothing, and the result is `false`.
    pub fn commit(&mut self) -> (done: bool)
        ensures
            done == (old(self).staged().len() > 0),
            done ==> final(self).active() == old(self).staged(),
            done ==> final(self).staged().len() == 0,
            done ==> final(self).ready(),
            !done ==> *final(self) == *old(self),
    {
        if self.staging.len() == 0 {
            return false;
        }
        let mut fresh: Vec<Instance> = Vec::new();
        std::mem::swap(&mut self.staging, &mut fresh);
        self.active = fresh;
        self.is_ready = true;
        true
    }

    /// Prepares the active list for a draw and returns the number of
    /// instances to draw: an empty active list is replaced by the unit
    /// instance.
    pub fn draw(&mut self) -> (n: usize)
        ensures
            old(self).active().len() == 0 ==> final(self).active() == seq![unit_instance()],
            old(self).active().len() > 0 ==> final(self).active() == old(self).active(),
            n == final(self).active().len(),
            n > 0,
            final(self).staged() == old(self).staged(),
            final(self).ready() == old(self).ready(),
    {
        if self.active.len() == 0 {
            self.active.push(unit());
            assert(self.active@ =~= seq![unit_instance()]);
        }
        self.active.len()
    }

    /// The number of instances of the active list.
    pub fn count(&self) -> (n: usize)
        ensures
            n == self.active().len(),
    {
        self.active.len()
    }

    /// Whether a commit has published a list.
    #[allow(non_snake_case)]
    pub fn isReady(&self) -> (r: bool)
        ensures
            r == self.ready(),
    {
        self.is_ready
    }

    /// The active list.
    pub fn instances(&self) -> (r: &Vec<Instance>)
        ensures
            r@ == self.active(),
    {
        &self.active
    }

    /// The number of instances of the staging list.
    pub fn staged_count(&self) -> (n: usize)
        ensures
            n == self.staged().len(),
    {
        self.staging.len()
    }
}

} // verus!
