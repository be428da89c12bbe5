//! A task-execution runtime: a fixed set of workers that pull tasks from a
//! shared list, refill their local deques in batches, steal from each other
//! and honour dependencies between tasks.
//!
//! The runtime is written as a state machine. Task records live in an arena
//! and are named by their index, so that a record has one owner at any time.
//! Every method is one indivisible step on the state: a producer submitting a
//! task, a worker taking one pass of its loop, a caller collecting a result.
//! The invariants are proved to hold after every step, whatever the order of
//! the steps, so a driver may run the workers as threads as long as it lets
//! them take their steps one at a time. [`SimboliThread::join`] is the
//! built-in driver: it lets the workers take their passes in turn until
//! every task has run.

pub mod list_core;
pub mod queue_core;
pub mod scheduling;
pub mod simboli_thread;
pub mod task_dependencies;
pub mod testing;
pub mod task_list;
pub mod thread_pool_core;
pub mod thread_unit;
pub mod waiting;
pub mod waiting_task;

pub use list_core::{ListCore, ListModel, Place, TaskInfo};
pub use task_dependencies::{ArrTaskDependenciesTrait, TaskDependencies, TaskDependenciesCore};
pub use task_list::TaskList;
pub use scheduling::{Pass, Snapshot};
pub use simboli_thread::SimboliThread;
pub use thread_pool_core::ThreadPoolCore;
pub use thread_unit::ThreadUnit;
pub use waiting::{ResultSlot, ResultSlots, Waiting};
pub use waiting_task::{OutputTrait, TaskTrait, WaitingTask};
