//! The scheduler: fetch tasks are admitted into a high and a low lane, and
//! the priority of a task can be raised after it was admitted.
//!
//! Admission is immediate. The scheduler keeps the record of a task; the
//! caller starts the task's work and marks the record as started.

use vstd::prelude::*;

verus! {

/// The record of a scheduled task.
#[derive(Clone, Copy, Debug, PartialEq, Eq, Structural)]
pub struct Task {
    priority: i32,
    is_high: bool,
    started: bool,
}

impl Task {
    /// The task's priority.
    pub closed spec fn rank(&self) -> int {
        self.priority as int
    }

    /// Whether the task runs in the high lane.
    pub closed spec fn high(&self) -> bool {
        self.is_high
    }

    /// Whether the task's work was started.
    pub closed spec fn running(&self) -> bool {
        self.started
    }

    /// The invariant of a task: it runs in the high lane exactly if its
    /// priority is above zero.
    pub open spec fn wf(&self) -> bool {
        self.high() == (self.rank() > 0)
    }

    /// The task's priority.
    pub fn priority(&self) -> (r: i32)
        ensures
            r == self.rank(),
    {
        self.priority
    }

    /// Whether the task runs in the high lane.
    pub fn is_high(&self) -> (r: bool)
        ensures
            r == self.high(),
    {
        self.is_high
    }

    /// Whether the task's work was started.
    pub fn started(&self) -> (r: bool)
        ensures
            r == self.running(),
    {
        self.started
    }

    /// Marks the task's work as started.
    pub fn start(&mut self)
        ensures
            final(self).running(),
            final(self).rank() == old(self).rank(),
            final(self).high() == old(self).high(),
    {
        self.started = true;
    }
}

/// The scheduler, with the limits of its two lanes.
#[derive(Clone, Copy, Debug, PartialEq, Eq, Structural)]
pub struct Queues {
    limit: i32,
    low_limit: i32,
}

/// A scheduler whose high lane has the limit `limit` and whose low lane has
/// the limit `low_limit`.
pub fn create_queues(limit: i32, low_limit: i32) -> (q: Queues)
    ensures
        q.limits() == (limit as int, low_limit as int),
{
    Queues { limit, low_limit }
}

impl Queues {
    /// The limits of the high and of the low lane.
    pub closed spec fn limits(&self) -> (int, int) {
        (self.limit as int, self.low_limit as int)
    }

    /// Admits a task of the given priority: its record has that priority,
    /// the high lane exactly if the priority is above zero, and its work is
    /// not started yet.
    pub fn schedule(&self, priority: i32) -> (task: Task)
        ensures
            task.rank() == priority,
            task.high() == (priority > 0),
            !task.running(),
            task.wf(),
    {
        Task { priority, is_high: priority > 0, started: false }
    }

    /// Raises the priority of `task` to `priority`, if that is strictly
    /// above the task's priority; else the task is left as it is. The
    /// priority of a task never falls.
    pub fn bump(&self, task: &mut Task, priority: i32)
        ensures
            old(task).rank() >= priority ==> *final(task) == *old(task),
            old(task).rank() < priority ==> {
                &&& final(task).rank() == priority
                &&& final(task).high() == (priority > 0)
                &&& final(task).running() == old(task).running()
            },
            final(task).rank() >= old(task).rank(),
            old(task).wf() ==> final(task).wf(),
    {
        if task.priority >= priority {
            return ;
        }
        task.priority = priority;
        task.is_high = priority > 0;
    }
}

} // verus!
