//! The pool coordinator: the workers, the shared flags, and the two ways of
//! shutting the pool down.

use vstd::prelude::*;
use crate::list_core::{ListCore, Place};
use crate::scheduling::{
    began, ended, lemma_counts_agree, once, pass_ok, settled, Pass, Snapshot,
};
use crate::thread_unit::ThreadUnit;
use crate::waiting_task::{OutputTrait, TaskTrait, WaitingTask};

verus! {

/// The workers of a pool and the state they share. The list core the
/// workers draw their tasks from is handed to every method.
pub struct ThreadPoolCore<const N: usize, const Q: usize> {
    /// Capacity of every worker's deque.
    pub queue_size: usize,
    /// The workers, indexed by their id.
    pub pool: Vec<ThreadUnit<Q>>,
    /// The worker that holds the representative role, if any.
    pub reprt_handler: Option<usize>,
    /// Number of tasks completed so far.
    pub done_task: u64,
    /// Set once shutdown was requested.
    pub join_flag: bool,
}

/// A list core no worker has touched yet: every task is still queued.
pub open spec fn untouched<F: TaskTrait<O>, O: OutputTrait>(core: &ListCore<F, O>) -> bool {
    forall|t: int|
        0 <= t < core.tasks.len() ==> {
            let p = (#[trigger] core.model@.info[t]).place;
            p is Swap || p is Primary || p is Waiting
        }
}

/// In a pool between passes where no worker holds a task and no queue that
/// feeds the workers holds one, a task is either completed or waits for a
/// group.
proof fn lemma_quiet_place<F: TaskTrait<O>, O: OutputTrait, const Q: usize>(
    s: Snapshot<F, O, Q>,
    x: int,
)
    requires
        s.wf(),
        s.calm(),
        forall|u: int| 0 <= u < s.workers.len() ==> #[trigger] s.quiet(u),
        0 <= x < s.core.tasks.len(),
    ensures
        s.core.model@.info[x].place is Done || s.core.model@.info[x].place is Waiting,
{
    assert(s.core.task_wf(x, 0, 0));
    assert(s.housed(x));
    assert(s.quiet(0));
    match s.core.model@.info[x].place {
        Place::Harvested(w) => {
            assert(s.quiet(w as int));
        },
        Place::Local(w) => {
            assert(s.quiet(w as int));
        },
        Place::Running(w) => {
            assert(s.workers[w as int].running is None);
        },
        _ => {},
    }
}

/// In a pool between passes where no worker holds a task and no queue that
/// feeds the workers holds one, every task has completed: what waits for a
/// group waits for a predecessor, and a predecessor never waits.
pub proof fn lemma_quiet_means_done<F: TaskTrait<O>, O: OutputTrait, const Q: usize>(
    s: Snapshot<F, O, Q>,
)
    requires
        s.wf(),
        s.calm(),
        forall|u: int| 0 <= u < s.workers.len() ==> #[trigger] s.quiet(u),
    ensures
        forall|t: int| 0 <= t < s.core.tasks.len() ==> s.core.is_done(t),
        s.done_task == s.core.tasks.len(),
{
    let n = s.core.tasks.len() as int;
    assert forall|t: int| 0 <= t < n implies s.core.is_done(t) by {
        lemma_quiet_place(s, t);
        if s.core.model@.info[t].place is Waiting {
            let g = s.core.model@.info[t].place->Waiting_0;
            assert(s.core.task_wf(t, 0, 0));
            assert(s.core.group_wf(g as int, 0, 0));
            let pending = s.core.pending(g);
            assert(pending.len() > 0);
            if pending =~= Set::<int>::empty() {
                assert(pending.len() == 0);
            }
            let x = pending.choose();
            assert(pending.contains(x));
            lemma_quiet_place(s, x);
            assert(s.core.task_wf(x, 0, 0));
        }
    }
    let all = vstd::set_lib::set_int_range(0, n);
    vstd::set_lib::lemma_int_range(0, n);
    assert forall|t: int| all.contains(t) implies s.core.done_set().contains(t) by {
        assert(s.core.is_done(t));
    }
    assert(s.core.done_set() =~= all);
}

impl<const N: usize, const Q: usize> ThreadPoolCore<N, Q> {
    /// The pool as this coordinator and `core` describe it.
    pub open spec fn snapshot<F: TaskTrait<O>, O: OutputTrait>(
        &self,
        core: &ListCore<F, O>,
    ) -> Snapshot<F, O, Q> {
        Snapshot {
            core: *core,
            workers: self.pool@,
            reprt: self.reprt_handler,
            done_task: self.done_task,
        }
    }

    /// The invariant of the pool beside the list core it works on.
    pub open spec fn wf<F: TaskTrait<O>, O: OutputTrait>(&self, core: &ListCore<F, O>) -> bool {
        &&& self.snapshot(core).wf()
        &&& self.pool.len() == N
        &&& self.queue_size == Q
    }

    /// Whether the pool can be built: it needs a worker, and every worker
    /// needs a deque with room for a task, or no submitted task could ever
    /// run.
    pub open spec fn buildable() -> bool {
        N >= 1 && 1 <= Q <= u32::MAX
    }

    /// Builds the pool: `N` workers with empty deques of `Q` slots, the
    /// representative role free, nothing completed. Fails rather than start a
    /// pool that could not run a task: one without a worker, or one whose
    /// workers have no slot. Fails as well when a worker cannot be built.
    pub fn init<F: TaskTrait<O>, O: OutputTrait>(list_core: &ListCore<F, O>) -> (r: Result<
        ThreadPoolCore<N, Q>,
        &'static str,
    >)
        requires
            list_core.wf(),
            untouched(list_core),
        ensures
            Self::buildable() <==> r is Ok,
            N == 0 ==> r == Err::<Self, &'static str>("a pool needs at least one worker"),
            N > 0 && Q == 0 ==> r == Err::<Self, &'static str>(
                "a worker needs at least one slot in its queue",
            ),
            N > 0 && Q > u32::MAX ==> r == Err::<Self, &'static str>(
                "casting vector to array when creating error queue",
            ),
            r matches Ok(pool) ==> pool.wf(list_core) && pool.snapshot(list_core).calm()
                && !pool.join_flag && pool.done_task == 0
                && pool.reprt_handler is None && forall|w: int|
                0 <= w < N ==> (#[trigger] pool.pool[w]).top == pool.pool[w].bottom,
    {
        if N == 0 {
            return Err("a pool needs at least one worker");
        }
        if Q == 0 {
            return Err("a worker needs at least one slot in its queue");
        }
        let mut pool: Vec<ThreadUnit<Q>> = Vec::new();
        let mut id: usize = 0;
        while id < N
            invariant
                id <= N,
                pool.len() == id,
                list_core.wf(),
                untouched(list_core),
                forall|w: int|
                    0 <= w < id ==> (#[trigger] pool[w]).wf(list_core) && pool[w].id == w
                        && pool[w].total_threads == N && pool[w].top == pool[w].bottom
                        && pool[w].threads_active == 0,
                Q >= 1,
                id > 0 ==> Q <= u32::MAX,
            decreases N - id,
        {
            match ThreadUnit::<Q>::init(id, N) {
                Ok(unit) => {
                    proof {
                        assert(list_core.chain_wf(
                            list_core.model@.harvested[id],
                            Place::Harvested(id),
                        ));
                        let q = list_core.model@.harvested[id];
                        if q.len() > 0 {
                            assert(list_core.link_ok(q, 0, Place::Harvested(id)));
                        }
                        assert forall|i: int| 0 <= i < Q implies #[trigger] unit.slot_ok(
                            list_core,
                            i,
                        ) by {}
                    }
                    pool.push(unit);
                },
                Err(e) => {
                    return Err(e);
                },
            }
            id += 1;
        }
        let r = ThreadPoolCore {
            queue_size: Q,
            pool,
            reprt_handler: None,
            done_task: 0,
            join_flag: false,
        };
        proof {
            let s = r.snapshot(list_core);
            assert forall|w: int| 0 <= w < s.workers.len() implies #[trigger] s.unit_ok(w) by {
                assert(r.pool[w].wf(list_core));
            }
            assert forall|t: int| 0 <= t < list_core.tasks.len() implies #[trigger] s.housed(t) by {
                assert(list_core.model@.info[t].place is Swap
                    || list_core.model@.info[t].place is Primary
                    || list_core.model@.info[t].place is Waiting);
            }
            assert(list_core.done_set() =~= Set::<int>::empty());
        }
        Ok(r)
    }

    /// Lets worker `me` take one pass of its loop.
    pub fn run_worker<F: TaskTrait<O>, O: OutputTrait>(
        &mut self,
        me: usize,
        core: &mut ListCore<F, O>,
    ) -> (pass: Pass)
        requires
            old(self).wf(old(core)),
            me < N,
            old(self).pool[me as int].running is None,
        ensures
            final(self).wf(final(core)),
            final(self).join_flag == old(self).join_flag,
            pass_ok(
                old(self).snapshot(old(core)),
                final(self).snapshot(final(core)),
                me,
                old(self).join_flag,
                pass,
            ),
    {
        ThreadUnit::running(
            &mut self.pool,
            me,
            core,
            &mut self.reprt_handler,
            self.join_flag,
            &mut self.done_task,
        )
    }
}

/// Whether a pass got work done.
pub open spec fn is_progress(pass: Pass) -> bool {
    pass is Executed || pass is BecameRepresentative || pass is Refilled
}

/// `trace` and `passes` record a round of a pool of `n` running workers:
/// worker `w` took pass `passes[w]`, which led from `trace[w]` to
/// `trace[w + 1]`.
pub open spec fn is_round<F: TaskTrait<O>, O: OutputTrait, const Q: usize>(
    trace: Seq<Snapshot<F, O, Q>>,
    passes: Seq<Pass>,
    n: int,
) -> bool {
    &&& trace.len() == n + 1
    &&& passes.len() == n
    &&& forall|w: int|
        0 <= w < n ==> pass_ok(trace[w], trace[w + 1], w as usize, false, #[trigger] passes[w])
}

impl<const N: usize, const Q: usize> ThreadPoolCore<N, Q> {
    /// Lets every worker take one pass, in the order of their ids. Reports
    /// whether any of them got work done: ran a task, took the
    /// representative role, or refilled its deque.
    pub fn round<F: TaskTrait<O>, O: OutputTrait>(
        &mut self,
        core: &mut ListCore<F, O>,
    ) -> (progressed: bool)
        requires
            old(self).wf(old(core)),
            old(self).snapshot(old(core)).calm(),
            !old(self).join_flag,
        ensures
            final(self).wf(final(core)),
            final(self).snapshot(final(core)).calm(),
            !final(self).join_flag,
            final(core).tasks.len() == old(core).tasks.len(),
            final(core).in_task == old(core).in_task,
            forall|t: int|
                0 <= t < old(core).tasks.len() ==> #[trigger] settled(*old(core), *final(core), t),
            final(self).snapshot(final(core)).measure() <= old(self).snapshot(old(core)).measure(),
            progressed ==> final(self).snapshot(final(core)).measure() < old(self).snapshot(
                old(core),
            ).measure(),
            !progressed ==> final(self).done_task == old(self).done_task && forall|u: int|
                0 <= u < N ==> #[trigger] final(self).snapshot(final(core)).quiet(u),
            exists|trace: Seq<Snapshot<F, O, Q>>, passes: Seq<Pass>| #[trigger]
                is_round(trace, passes, N as int) && trace[0] == old(self).snapshot(old(core))
                    && trace[N as int] == final(self).snapshot(final(core)) && (progressed
                    <==> exists|w: int| 0 <= w < N && is_progress(#[trigger] passes[w])),
    {
        let ghost s0 = self.snapshot(core);
        let ghost mut trace: Seq<Snapshot<F, O, Q>> = seq![s0];
        let ghost mut passes: Seq<Pass> = Seq::empty();
        let mut w: usize = 0;
        let mut progressed = false;
        while w < N
            invariant
                w <= N,
                self.wf(core),
                self.snapshot(core).calm(),
                !self.join_flag,
                s0 == old(self).snapshot(old(core)),
                core.tasks.len() == s0.core.tasks.len(),
                core.in_task == s0.core.in_task,
                forall|t: int| 0 <= t < s0.core.tasks.len()
                    ==> #[trigger] settled(s0.core, *core, t),
                self.snapshot(core).measure() <= s0.measure(),
                progressed ==> self.snapshot(core).measure() < s0.measure(),
                !progressed ==> self.done_task == s0.done_task && self.reprt_handler == s0.reprt,
                !progressed ==> (s0.reprt matches Some(r) ==> r >= w),
                !progressed && s0.reprt is None ==> forall|u: int|
                    0 <= u < w ==> #[trigger] self.snapshot(core).quiet(u),
                is_round(trace, passes, w as int),
                trace[0] == s0,
                trace[w as int] == self.snapshot(core),
                progressed <==> exists|u: int| 0 <= u < w && is_progress(#[trigger] passes[u]),
            decreases N - w,
        {
            let ghost before = self.snapshot(core);
            let ghost was = progressed;
            let pass = self.run_worker(w, core);
            let ghost after = self.snapshot(core);
            proof {
                let trace0 = trace;
                let passes0 = passes;
                trace = trace.push(after);
                passes = passes.push(pass);
                assert forall|u: int| 0 <= u < w + 1 implies pass_ok(
                    trace[u],
                    trace[u + 1],
                    u as usize,
                    false,
                    #[trigger] passes[u],
                ) by {
                    if u < w {
                        assert(passes[u] == passes0[u]);
                        assert(trace[u] == trace0[u]);
                        assert(trace[u + 1] == trace0[u + 1]);
                    }
                }
                if was {
                    let u = choose|u: int| 0 <= u < w && is_progress(#[trigger] passes0[u]);
                    assert(is_progress(passes[u]));
                }
                if is_progress(pass) {
                    assert(is_progress(passes[w as int]));
                }
                if exists|u: int| 0 <= u < w + 1 && is_progress(#[trigger] passes[u]) {
                    let u = choose|u: int| 0 <= u < w + 1 && is_progress(#[trigger] passes[u]);
                    if u < w {
                        assert(is_progress(passes0[u]));
                    }
                }
            }
            proof {
                assert forall|t: int| 0 <= t < s0.core.tasks.len() implies #[trigger] settled(
                    s0.core,
                    *core,
                    t,
                ) by {
                    assert(settled(s0.core, before.core, t));
                    assert(once(before, after, t, pass));
                }
            }
            match pass {
                Pass::Executed(_) => {
                    progressed = true;
                },
                Pass::BecameRepresentative => {
                    progressed = true;
                },
                Pass::Refilled(_) => {
                    progressed = true;
                },
                _ => {},
            }
            proof {
                if !progressed && s0.reprt is None {
                    assert forall|u: int| 0 <= u < w + 1 implies #[trigger] after.quiet(u) by {
                        if u < w {
                            assert(before.quiet(u));
                            assert(after.workers[u].top == before.workers[u].top);
                        }
                    }
                }
            }
            w += 1;
        }
        progressed
    }

    /// Cooperative shutdown: the workers keep taking passes until as many
    /// tasks have completed as were submitted; only then is shutdown
    /// requested, and what the workers hold is released. Every task that was
    /// submitted before the call has run, exactly once, when it returns.
    pub fn join<F: TaskTrait<O>, O: OutputTrait>(&mut self, core: &mut ListCore<F, O>)
        requires
            old(self).wf(old(core)),
            old(self).snapshot(old(core)).calm(),
            !old(self).join_flag,
        ensures
            final(self).wf(final(core)),
            final(self).join_flag,
            final(core).tasks.len() == old(core).tasks.len(),
            final(core).in_task == old(core).in_task,
            final(self).done_task == final(core).in_task,
            final(self).reprt_handler is None,
            forall|w: int| 0 <= w < N ==> (#[trigger] final(self).pool[w]).released(),
            forall|t: int|
                #![trigger final(core).has_run(t)]
                #![trigger settled(*old(core), *final(core), t)]
                0 <= t < old(core).tasks.len() ==> final(core).has_run(t) && settled(
                    *old(core),
                    *final(core),
                    t,
                ),
    {
        while core.in_task > self.done_task
            invariant
                self.wf(core),
                self.snapshot(core).calm(),
                !self.join_flag,
                core.tasks.len() == old(core).tasks.len(),
                core.in_task == old(core).in_task,
                forall|t: int|
                    0 <= t < old(core).tasks.len() ==> #[trigger] settled(*old(core), *core, t),
            decreases self.snapshot(core).measure(),
        {
            let ghost before = *core;
            let progressed = self.round(core);
            proof {
                if !progressed {
                    lemma_quiet_means_done(self.snapshot(core));
                }
                assert forall|t: int| 0 <= t < old(core).tasks.len() implies #[trigger] settled(
                    *old(core),
                    *core,
                    t,
                ) by {
                    assert(settled(*old(core), before, t));
                    assert(settled(before, *core, t));
                }
            }
        }
        let requested = self.shutdown_if_done(core);
        proof {
            let s = self.snapshot(core);
            if self.reprt_handler is Some {
                assert(core.link_ok(core.model@.primary, 0, Place::Primary));
                assert(core.has_run(core.model@.primary[0] as int));
            }
            assert forall|w: int| 0 <= w < N implies (#[trigger] self.pool[w]).top
                == self.pool[w].bottom by {
                assert(s.unit_ok(w));
                if self.pool[w].top < self.pool[w].bottom {
                    assert(self.pool[w].slot_ok(core, self.pool[w].top as int));
                    assert(core.has_run(self.pool[w].queue[self.pool[w].top as int]->0 as int));
                }
            }
            assert forall|w: int| 0 <= w < N implies (#[trigger] self.pool[w]).running is None by {
                assert(s.unit_ok(w));
                if self.pool[w].running is Some {
                    assert(core.has_run(self.pool[w].running->0 as int));
                }
            }
        }
        self.release_workers(core);
    }

    /// Requests shutdown: from now on a worker leaves as soon as it finds its
    /// deque empty. Nothing else changes.
    pub fn request_shutdown<F: TaskTrait<O>, O: OutputTrait>(&mut self, core: &ListCore<F, O>)
        requires
            old(self).wf(core),
        ensures
            final(self).wf(core),
            *final(self) == (ThreadPoolCore { join_flag: true, ..*old(self) }),
    {
        let ghost s0 = self.snapshot(core);
        self.join_flag = true;
        proof {
            let s1 = self.snapshot(core);
            assert forall|u: int| 0 <= u < s1.workers.len() implies #[trigger] s1.unit_ok(u) by {
                assert(s0.unit_ok(u));
            }
            assert forall|t: int| 0 <= t < core.tasks.len() implies #[trigger] s1.housed(t) by {
                assert(s0.housed(t));
            }
        }
    }

    /// The decision of the cooperative shutdown: shutdown is requested if, and
    /// only if, as many tasks have completed as were submitted, which is when
    /// every submitted task has run. Reports whether it was requested.
    pub fn shutdown_if_done<F: TaskTrait<O>, O: OutputTrait>(
        &mut self,
        core: &ListCore<F, O>,
    ) -> (requested: bool)
        requires
            old(self).wf(core),
        ensures
            final(self).wf(core),
            requested <==> core.in_task <= old(self).done_task,
            requested <==> forall|t: int| 0 <= t < core.tasks.len() ==> core.is_done(t),
            requested ==> *final(self) == (ThreadPoolCore { join_flag: true, ..*old(self) })
                && final(self).done_task == core.in_task && forall|t: int|
                0 <= t < core.tasks.len() ==> #[trigger] core.has_run(t),
            !requested ==> *final(self) == *old(self),
    {
        proof {
            lemma_counts_agree(self.snapshot(core));
        }
        if core.in_task <= self.done_task {
            proof {
                assert forall|t: int| 0 <= t < core.tasks.len() implies #[trigger] core.has_run(
                    t,
                ) by {
                    assert(core.is_done(t));
                    assert(core.task_wf(t, 0, 0));
                }
            }
            self.request_shutdown(core);
            true
        } else {
            false
        }
    }

    /// Releases what the workers hold after all of them have left their
    /// loops.
    fn release_workers<F: TaskTrait<O>, O: OutputTrait>(&mut self, core: &ListCore<F, O>)
        requires
            old(self).wf(core),
            forall|w: int| 0 <= w < N ==> (#[trigger] old(self).pool[w]).top
                == old(self).pool[w].bottom,
            forall|w: int| 0 <= w < N ==> (#[trigger] old(self).pool[w]).running is None,
        ensures
            final(self).wf(core),
            final(self).join_flag == old(self).join_flag,
            final(self).done_task == old(self).done_task,
            final(self).reprt_handler == old(self).reprt_handler,
            forall|w: int| 0 <= w < N ==> (#[trigger] final(self).pool[w]).released(),
    {
        let ghost s0 = self.snapshot(core);
        let mut w: usize = 0;
        while w < N
            invariant
                w <= N,
                self.wf(core),
                self.join_flag == old(self).join_flag,
                self.done_task == old(self).done_task,
                self.reprt_handler == old(self).reprt_handler,
                forall|u: int| 0 <= u < N ==> (#[trigger] self.pool[u]).top == self.pool[u].bottom,
                forall|u: int| 0 <= u < N ==> (#[trigger] self.pool[u]).running is None,
                forall|u: int| 0 <= u < w ==> (#[trigger] self.pool[u]).released(),
            decreases N - w,
        {
            let ghost before = self.snapshot(core);
            proof {
                assert(before.unit_ok(w as int));
            }
            self.pool[w].clean();
            proof {
                let after = self.snapshot(core);
                assert forall|u: int| 0 <= u < after.workers.len() implies #[trigger] after.unit_ok(
                    u,
                ) by {
                    assert(before.unit_ok(u));
                    if u == w {
                        assert forall|i: int| 0 <= i < Q
                            implies #[trigger] after.workers[u].slot_ok(
                            core,
                            i,
                        ) by {}
                        assert(after.workers[u].running == before.workers[u].running);
                        assert(after.workers[u].running_group == before.workers[u].running_group);
                    }
                }
                assert forall|t: int| 0 <= t < core.tasks.len()
                    implies #[trigger] after.housed(t) by {
                    assert(before.housed(t));
                }
            }
            w += 1;
        }
    }

    /// Immediate shutdown: shutdown is requested at once. Every worker still
    /// runs the tasks in its own deque and then leaves; tasks that wait
    /// anywhere else are left where they are and never run.
    pub fn join_directly<F: TaskTrait<O>, O: OutputTrait>(&mut self, core: &mut ListCore<F, O>)
        requires
            old(self).wf(old(core)),
            old(self).snapshot(old(core)).calm(),
        ensures
            final(self).wf(final(core)),
            final(self).join_flag,
            final(core).tasks.len() == old(core).tasks.len(),
            final(core).in_task == old(core).in_task,
            final(self).reprt_handler is None,
            forall|w: int| 0 <= w < N ==> (#[trigger] final(self).pool[w]).released(),
            forall|t: int|
                0 <= t < old(core).tasks.len() ==> #[trigger] settled(*old(core), *final(core), t),
            forall|t: int|
                0 <= t < old(core).tasks.len()
                    ==> ((#[trigger] final(core).is_done(t)) <==> old(core).is_done(t)
                        || old(core).model@.info[t].place is Local),
    {
        self.request_shutdown(core);
        let mut w: usize = 0;
        while w < N
            invariant
                w <= N,
                self.wf(core),
                self.snapshot(core).calm(),
                self.join_flag,
                core.tasks.len() == old(core).tasks.len(),
                core.in_task == old(core).in_task,
                forall|u: int| 0 <= u < w ==> (#[trigger] self.pool[u]).top == self.pool[u].bottom,
                self.reprt_handler matches Some(r) ==> r >= w,
                forall|t: int|
                    0 <= t < old(core).tasks.len() ==> #[trigger] settled(*old(core), *core, t),
                forall|t: int|
                    0 <= t < old(core).tasks.len()
                        ==> ((#[trigger] core.model@.info[t]).place is Local
                        ==> old(core).model@.info[t].place is Local)
                            && (core.is_done(t) ==> old(core).is_done(t)
                                || old(core).model@.info[t].place is Local),
            decreases N - w,
        {
            let mut exited = false;
            while !exited
                invariant
                    w < N,
                    self.wf(core),
                    self.snapshot(core).calm(),
                    self.join_flag,
                    core.tasks.len() == old(core).tasks.len(),
                    core.in_task == old(core).in_task,
                    exited ==> self.pool[w as int].top == self.pool[w as int].bottom,
                    self.reprt_handler matches Some(r) ==> r >= w && (exited ==> r != w),
                    forall|u: int| 0 <= u < w ==> (#[trigger] self.pool[u]).top
                        == self.pool[u].bottom,
                    forall|t: int|
                        0 <= t < old(core).tasks.len() ==> #[trigger] settled(*old(core), *core, t),
                    forall|t: int|
                        0 <= t < old(core).tasks.len()
                            ==> ((#[trigger] core.model@.info[t]).place is Local
                            ==> old(core).model@.info[t].place is Local) && (core.is_done(t)
                            ==> old(core).is_done(t) || old(core).model@.info[t].place is Local),
                decreases
                        (if exited {
                            0int
                        } else {
                            1int
                        }) + self.pool[w as int].bottom - self.pool[w as int].top,
            {
                let ghost before = self.snapshot(core);
                proof {
                    assert(before.unit_ok(w as int));
                }
                let pass = self.run_worker(w, core);
                let ghost after = self.snapshot(core);
                proof {
                    assert forall|t: int| 0 <= t < old(core).tasks.len() implies #[trigger] settled(
                        *old(core),
                        *core,
                        t,
                    ) by {
                        assert(settled(*old(core), before.core, t));
                        assert(once(before, after, t, pass));
                    }
                    assert forall|t: int| 0 <= t < old(core).tasks.len() implies ((
                    #[trigger] core.model@.info[t]).place is Local
                        ==> old(core).model@.info[t].place is Local)
                            && (core.is_done(t) ==> old(core).is_done(t)
                        || old(core).model@.info[t].place is Local) by {
                        assert(once(before, after, t, pass));
                        if pass is Executed {
                            let x = pass->Executed_0;
                            assert(before.workers[w as int].slot_ok(
                                &before.core,
                                before.workers[w as int].bottom - 1,
                            ));
                        }
                    }
                }
                match pass {
                    Pass::Exit => {
                        exited = true;
                    },
                    _ => {},
                }
            }
            w += 1;
        }
        proof {
            let s = self.snapshot(core);
            assert forall|t: int| 0 <= t < old(core).tasks.len() implies ((
            #[trigger] core.is_done(t)) <==> old(core).is_done(t)
                || old(core).model@.info[t].place is Local) by {
                assert(settled(*old(core), *core, t));
                assert(core.model@.info[t].place is Local
                    ==> old(core).model@.info[t].place is Local);
                if old(core).model@.info[t].place is Local {
                    assert(s.housed(t));
                    if core.model@.info[t].place is Local {
                        let u = core.model@.info[t].place->Local_0;
                        assert(self.pool[u as int].top == self.pool[u as int].bottom);
                    }
                }
            }
        }
        self.release_workers(core);
    }
}

impl<const N: usize, const Q: usize> ThreadPoolCore<N, Q> {
    /// Lets worker `me` take the next task of its deque out to run it; see
    /// [`ThreadUnit::begin`].
    pub fn begin_task<F: TaskTrait<O>, O: OutputTrait>(
        &mut self,
        me: usize,
        core: &mut ListCore<F, O>,
    ) -> (record: Option<WaitingTask<F, O>>)
        requires
            old(self).wf(old(core)),
            me < N,
            old(self).pool[me as int].running is None,
        ensures
            final(self).wf(final(core)),
            final(self).join_flag == old(self).join_flag,
            match record {
                None => old(self).pool[me as int].top == old(self).pool[me as int].bottom
                    && *final(self) == *old(self) && *final(core) == *old(core),
                Some(r) => began(
                    old(self).snapshot(old(core)),
                    final(self).snapshot(final(core)),
                    me,
                    r,
                ),
            },
    {
        ThreadUnit::begin(&mut self.pool, me, core, &self.reprt_handler, &self.done_task)
    }

    /// Lets worker `me` store the value its running task produced; see
    /// [`ThreadUnit::finish`].
    pub fn finish_task<F: TaskTrait<O>, O: OutputTrait>(
        &mut self,
        me: usize,
        core: &mut ListCore<F, O>,
        value: O,
    )
        requires
            old(self).wf(old(core)),
            me < N,
            old(self).pool[me as int].running is Some,
            call_ensures(
                F::exec,
                (&old(core).payloads@[old(self).pool[me as int].running->0 as int],),
                value,
            ),
        ensures
            final(self).wf(final(core)),
            final(self).join_flag == old(self).join_flag,
            ended(old(self).snapshot(old(core)), final(self).snapshot(final(core)), me, value),
    {
        ThreadUnit::finish(
            &mut self.pool,
            me,
            core,
            &self.reprt_handler,
            &mut self.done_task,
            value,
        )
    }
}

} // verus!
