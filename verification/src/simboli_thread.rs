//! The pool as a caller sees it: submit tasks, wait for results, shut down.

use vstd::prelude::*;
use crate::list_core::{ListCore, Place};
use crate::scheduling::{
    lemma_collect_keeps_pool, lemma_counts_agree, lemma_submit_keeps_pool, settled, Snapshot,
};
use crate::task_dependencies::{ArrTaskDependenciesTrait, TaskDependencies};
use crate::thread_pool_core::{lemma_quiet_means_done, ThreadPoolCore};
use crate::waiting::Waiting;
use crate::waiting_task::{OutputTrait, TaskTrait};

verus! {

/// A pool of `N` workers, each with a local deque of `Q` slots, together with
/// the list core that tasks are submitted to.
pub struct SimboliThread<F, O, const N: usize, const Q: usize> where
    F: TaskTrait<O>,
    O: OutputTrait,
 {
    pub list_core: ListCore<F, O>,
    pub thread_pool_core: ThreadPoolCore<N, Q>,
}

impl<F, O, const N: usize, const Q: usize> SimboliThread<F, O, N, Q> where
    F: TaskTrait<O>,
    O: OutputTrait,
 {
    /// The invariant of the pool.
    pub open spec fn wf(&self) -> bool {
        self.thread_pool_core.wf(&self.list_core)
    }

    /// The pool at this moment.
    pub open spec fn snapshot(&self) -> Snapshot<F, O, Q> {
        self.thread_pool_core.snapshot(&self.list_core)
    }

    /// No thief is at work on any deque, as is the case between any two
    /// passes.
    pub open spec fn calm(&self) -> bool {
        self.snapshot().calm()
    }

    /// Whether shutdown was requested.
    pub open spec fn is_shut_down(&self) -> bool {
        self.thread_pool_core.join_flag
    }

    /// Number of tasks submitted so far.
    pub open spec fn task_count(&self) -> nat {
        self.list_core.task_count()
    }

    /// Creates the pool. Fails, rather than start a pool that cannot run a
    /// task, when it would have no worker or its workers no slot, and when a
    /// worker cannot be built.
    pub fn init() -> (r: Result<SimboliThread<F, O, N, Q>, &'static str>)
        ensures
            ThreadPoolCore::<N, Q>::buildable() <==> r is Ok,
            N == 0 ==> r is Err && r->Err_0 == "a pool needs at least one worker",
            N > 0 && Q == 0 ==> r is Err && r->Err_0
                == "a worker needs at least one slot in its queue",
            N > 0 && Q > u32::MAX ==> r is Err && r->Err_0
                == "casting vector to array when creating error queue",
            r matches Ok(pool) ==> pool.wf() && pool.calm() && !pool.is_shut_down()
                && pool.task_count() == 0
                && pool.thread_pool_core.done_task == 0 && pool.list_core.dependencies.len() == 1,
    {
        let list_core = ListCore::<F, O>::init();
        match ThreadPoolCore::<N, Q>::init(&list_core) {
            Ok(thread_pool_core) => Ok(SimboliThread { list_core, thread_pool_core }),
            Err(e) => Err(e),
        }
    }

    /// Submits an independent task; see [`ListCore::spawn_task`].
    pub fn spawn_task(&mut self, f: F) -> (w: Waiting<O>)
        requires
            old(self).wf(),
        ensures
            final(self).wf(),
            final(self).thread_pool_core == old(self).thread_pool_core,
            w.data_ptr == old(self).task_count(),
            w.data is None,
            final(self).list_core.enqueued(old(self).list_core, w.data_ptr, f, 0, 0, Place::Swap),
    {
        let ghost s0 = self.snapshot();
        let w = self.list_core.spawn_task(f);
        proof {
            lemma_submit_keeps_pool(s0, self.list_core);
        }
        w
    }

    /// Submits the tasks of `dependencies` as one dependency group; see
    /// [`ListCore::spawn_task_dependencies`].
    pub fn spawn_task_dependencies<D, const NF: usize>(&mut self, dependencies: D) -> (r:
        TaskDependencies<O>) where D: ArrTaskDependenciesTrait<F, O, NF>
        requires
            old(self).wf(),
        ensures
            final(self).wf(),
            final(self).thread_pool_core == old(self).thread_pool_core,
            r.task_dependencies_ptr == old(self).list_core.dependencies.len(),
            ListCore::<F, O>::fresh_handles(
                r.waiting_list@,
                old(self).list_core.tasks.len() as int,
                NF as int,
            ),
            exists|list: [F; NF]|
                call_ensures(D::task_list, (dependencies,), list)
                    && final(self).list_core.group_submitted(old(self).list_core, list@),
    {
        let ghost s0 = self.snapshot();
        let r = self.list_core.spawn_task_dependencies(dependencies);
        proof {
            let list = choose|list: [F; NF]|
                call_ensures(D::task_list, (dependencies,), list) && self.list_core.group_submitted(
                    old(self).list_core,
                    list@,
                );
            lemma_submit_keeps_pool(s0, self.list_core);
        }
        r
    }

    /// Submits the tasks in `tasks` as one dependency group; see
    /// [`ListCore::spawn_task_list`].
    pub fn spawn_task_list(&mut self, tasks: Vec<F>) -> (r: TaskDependencies<O>)
        requires
            old(self).wf(),
        ensures
            final(self).wf(),
            final(self).thread_pool_core == old(self).thread_pool_core,
            r.task_dependencies_ptr == old(self).list_core.dependencies.len(),
            ListCore::<F, O>::fresh_handles(
                r.waiting_list@,
                old(self).list_core.tasks.len() as int,
                tasks.len() as int,
            ),
            final(self).list_core.group_submitted(old(self).list_core, tasks@),
    {
        let ghost s0 = self.snapshot();
        let r = self.list_core.spawn_task_list(tasks);
        proof {
            lemma_submit_keeps_pool(s0, self.list_core);
        }
        r
    }

    /// Submits a task that runs only after the group behind `dependencies`
    /// is satisfied; see [`ListCore::spawn_task_with_dependencies`].
    pub fn spawn_task_with_dependencies(
        &mut self,
        task: F,
        dependencies: &TaskDependencies<O>,
    ) -> (w: Waiting<O>)
        requires
            old(self).wf(),
        ensures
            final(self).wf(),
            final(self).thread_pool_core == old(self).thread_pool_core,
            w.data_ptr == old(self).task_count(),
            w.data is None,
            ({
                let g = dependencies.task_dependencies_ptr;
                let before = old(self).list_core;
                if before.outstanding(g) {
                    final(self).list_core.enqueued(
                        before,
                        w.data_ptr,
                        task,
                        0,
                        g,
                        Place::Waiting(g),
                    )
                } else {
                    final(self).list_core.enqueued(
                        before,
                        w.data_ptr,
                        task,
                        0,
                        if 0 < g < before.dependencies.len() {
                            g
                        } else {
                            0
                        },
                        Place::Swap,
                    )
                }
            }),
    {
        let ghost s0 = self.snapshot();
        let w = self.list_core.spawn_task_with_dependencies(task, dependencies);
        proof {
            lemma_submit_keeps_pool(s0, self.list_core);
        }
        w
    }

    /// Moves the result of the handle's task into the handle if it is stored.
    /// The pool is not run: while the task has not completed the handle
    /// stays empty.
    pub fn collect(&mut self, handle: &mut Waiting<O>)
        requires
            old(self).wf(),
        ensures
            final(self).wf(),
            final(self).thread_pool_core == old(self).thread_pool_core,
            old(handle).data is None ==> Waiting::collected(
                *old(handle),
                old(self).list_core.results@,
                *final(handle),
                final(self).list_core.results@,
            ),
            old(handle).data is Some ==> *final(handle) == *old(handle)
                && final(self).list_core.results@ == old(self).list_core.results@,
            old(handle).data is None && final(handle).data is Some ==> call_ensures(
                F::exec,
                (&old(self).list_core.payloads@[old(handle).data_ptr as int],),
                final(handle).data->0,
            ),
            final(self).list_core.model == old(self).list_core.model,
            final(self).list_core.payloads == old(self).list_core.payloads,
    {
        let ghost s0 = self.snapshot();
        let ghost t = handle.data_ptr as int;
        proof {
            if t < self.list_core.tasks.len() {
                assert(self.list_core.task_wf(t, 0, 0));
            }
        }
        if handle.data.is_none() && self.list_core.results.is_ready(handle.data_ptr) {
            handle.block(&mut self.list_core.results);
            proof {
                lemma_collect_keeps_pool(s0, self.list_core, t);
            }
        }
    }

    /// Runs the pool until the handle's task has completed, then collects its
    /// result: the handle ends up holding a value that the task's payload
    /// returned. A handle that already holds its value is left alone, and so
    /// is one whose value was collected before.
    pub fn block_until_ready(&mut self, handle: &mut Waiting<O>)
        requires
            old(self).wf(),
            old(self).calm(),
            !old(self).is_shut_down(),
            old(handle).data_ptr < old(self).task_count(),
        ensures
            final(self).wf(),
            final(self).calm(),
            !final(self).is_shut_down(),
            final(handle).data_ptr == old(handle).data_ptr,
            final(self).task_count() == old(self).task_count(),
            final(self).list_core.has_run(old(handle).data_ptr as int),
            final(self).list_core.kept(old(self).list_core, old(handle).data_ptr as int),
            old(handle).data is Some ==> *final(handle) == *old(handle),
            old(handle).data is None
                ==> final(self).list_core.results@[old(handle).data_ptr as int] is Taken,
            old(handle).data is None
                && old(self).list_core.results@[old(handle).data_ptr as int] is Taken
                    ==> final(handle).data is None,
            old(handle).data is None
                && !(old(self).list_core.results@[old(handle).data_ptr as int] is Taken)
                    ==> final(handle).data is Some && call_ensures(
                F::exec,
                (&old(self).list_core.payloads@[old(handle).data_ptr as int],),
                final(handle).data->0,
            ),
            forall|t: int|
                0 <= t < old(self).task_count() && t != old(handle).data_ptr ==> #[trigger] settled(
                    old(self).list_core,
                    final(self).list_core,
                    t,
                ),
    {
        let t = handle.data_ptr;
        while !self.list_core.results.is_written(t)
            invariant
                self.wf(),
                self.calm(),
                !self.is_shut_down(),
                t < self.task_count(),
                self.task_count() == old(self).task_count(),
                *handle == *old(handle),
                t == handle.data_ptr,
                forall|x: int|
                    0 <= x < old(self).task_count() ==> #[trigger] settled(
                        old(self).list_core,
                        self.list_core,
                        x,
                    ),
            decreases self.snapshot().measure(),
        {
            let ghost before = self.list_core;
            let ghost s_before = self.snapshot();
            let progressed = self.thread_pool_core.round(&mut self.list_core);
            proof {
                if !progressed {
                    lemma_quiet_means_done(self.snapshot());
                    lemma_counts_agree(s_before);
                    assert(s_before.core.is_done(t as int));
                    assert(s_before.core.task_wf(t as int, 0, 0));
                }
                assert forall|x: int| 0 <= x < old(self).task_count() implies #[trigger] settled(
                    old(self).list_core,
                    self.list_core,
                    x,
                ) by {
                    assert(settled(old(self).list_core, before, x));
                    assert(settled(before, self.list_core, x));
                }
            }
        }
        proof {
            assert(self.list_core.task_wf(t as int, 0, 0));
            assert(settled(old(self).list_core, self.list_core, t as int));
            assert(old(self).list_core.task_wf(t as int, 0, 0));
        }
        let ghost ran = self.list_core;
        let ghost s_ran = self.snapshot();
        if handle.data.is_none() && self.list_core.results.is_ready(t) {
            handle.block(&mut self.list_core.results);
            proof {
                lemma_collect_keeps_pool(s_ran, self.list_core, t as int);
                assert forall|x: int|
                    0 <= x < old(self).task_count() && x != t implies #[trigger] settled(
                    old(self).list_core,
                    self.list_core,
                    x,
                ) by {
                    assert(settled(old(self).list_core, ran, x));
                }
            }
        }
    }

    /// Immediate shutdown; see [`ThreadPoolCore::join_directly`].
    pub fn join_directly(&mut self)
        requires
            old(self).wf(),
            old(self).calm(),
        ensures
            final(self).wf(),
            final(self).is_shut_down(),
            final(self).task_count() == old(self).task_count(),
            forall|t: int|
                0 <= t < old(self).task_count() ==> #[trigger] settled(
                    old(self).list_core,
                    final(self).list_core,
                    t,
                ),
            forall|t: int|
                0 <= t < old(self).task_count() ==> ((#[trigger] final(self).list_core.is_done(t))
                    <==> old(self).list_core.is_done(t)
                        || old(self).list_core.model@.info[t].place is Local),
    {
        self.thread_pool_core.join_directly(&mut self.list_core);
    }

    /// Cooperative shutdown; see [`ThreadPoolCore::join`]. When it returns,
    /// every submitted task has run and its result slot is written, and as
    /// many tasks are counted completed as were submitted.
    pub fn join(&mut self)
        requires
            old(self).wf(),
            old(self).calm(),
            !old(self).is_shut_down(),
        ensures
            final(self).wf(),
            final(self).is_shut_down(),
            final(self).task_count() == old(self).task_count(),
            final(self).thread_pool_core.done_task == final(self).list_core.in_task,
            final(self).list_core.in_task == old(self).task_count(),
            forall|t: int|
                #![trigger final(self).list_core.has_run(t)]
                #![trigger settled(old(self).list_core, final(self).list_core, t)]
                0 <= t < old(self).task_count() ==> final(self).list_core.has_run(t) && settled(
                    old(self).list_core,
                    final(self).list_core,
                    t,
                ),
    {
        self.thread_pool_core.join(&mut self.list_core);
    }
}

} // verus!
