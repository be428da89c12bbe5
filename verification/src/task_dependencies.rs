//! Dependency descriptors and the token handed out for a dependency group.

use vstd::prelude::*;
use crate::waiting::Waiting;
use crate::waiting_task::{OutputTrait, TaskTrait};

verus! {

/// Bookkeeping of one dependency group: how many predecessors are still
/// outstanding, and the list of successors queued behind them.
pub struct TaskDependenciesCore {
    /// `true` for a real group, `false` for the sentinel of independent tasks.
    pub status: bool,
    /// Number of predecessors that have not completed yet.
    pub counter: usize,
    /// Most recently queued successor.
    pub start: Option<usize>,
    /// Oldest queued successor.
    pub end: Option<usize>,
}

impl TaskDependenciesCore {
    /// The descriptor of a group that waits for `counter` predecessors.
    pub fn init(counter: usize) -> (r: TaskDependenciesCore)
        ensures
            r.status,
            r.counter == counter,
            r.start is None,
            r.end is None,
    {
        TaskDependenciesCore { status: true, counter, start: None, end: None }
    }

    /// The sentinel descriptor attached to tasks without predecessors.
    pub fn dummy() -> (r: TaskDependenciesCore)
        ensures
            !r.status,
            r.counter == 0,
            r.start is None,
            r.end is None,
    {
        TaskDependenciesCore { status: false, counter: 0, start: None, end: None }
    }

    /// A group is satisfied once no predecessor is outstanding.
    pub open spec fn is_done(&self) -> bool {
        self.counter == 0
    }
}

/// What a caller gets back for a dependency group: the group's descriptor
/// index and one result handle per predecessor, in submission order.
pub struct TaskDependencies<O> {
    pub task_dependencies_ptr: usize,
    pub waiting_list: Vec<Waiting<O>>,
}

/// A fixed-size bundle of tasks that are submitted together as one group.
pub trait ArrTaskDependenciesTrait<F, O, const NF: usize> where F: TaskTrait<O>, O: OutputTrait {
    fn task_list(self) -> [F; NF];
}

} // verus!
