//! The task record and the two traits a payload has to meet.

use core::marker::PhantomData;
use vstd::prelude::*;

verus! {

/// Marker for the types a task may produce.
pub trait OutputTrait {

}

/// A unit of work: a payload that produces one value of type `O` when run.
pub trait TaskTrait<O> where O: OutputTrait {
    fn exec(&self) -> O;
}

/// One submitted task, stored in the arena of a [`crate::ListCore`].
///
/// Records are linked intrusively: `next` names the record that was queued
/// right after this one in whichever list currently holds it. All references
/// between records are arena indices, so a record has exactly one owner at any
/// time: the arena slot it sits in.
pub struct WaitingTask<F, O> where F: TaskTrait<O>, O: OutputTrait {
    /// Identifier assigned at submission; equal to the record's arena index.
    pub id: u64,
    /// The payload.
    pub task: F,
    /// The record queued after this one, if any.
    pub next: Option<usize>,
    /// Index of the result slot the payload's value is stored into.
    pub waiting_return_ptr: usize,
    /// Index of the dependency descriptor the task is a predecessor in;
    /// `0` names the sentinel descriptor of independent tasks.
    pub task_dependencies_ptr: usize,
    pub output: PhantomData<O>,
}

} // verus!
