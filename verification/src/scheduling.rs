//! One pass of a worker's loop over the whole pool, and what every pass
//! preserves.

use vstd::prelude::*;
use crate::list_core::{batch_size, taken_model, ListCore, Place, TaskInfo};
use crate::thread_unit::{stolen_model, victim_of, xorshift32, lemma_xorshift_nonzero, ThreadUnit};
use crate::waiting_task::{OutputTrait, TaskTrait, WaitingTask};

verus! {

/// What a worker did in one pass of its loop.
#[derive(Debug, Clone, Copy, PartialEq, Eq)]
pub enum Pass {
    /// The deque was empty and shutdown was requested: the worker leaves.
    Exit,
    /// The worker ran the given task.
    Executed(usize),
    /// A thief was at work on the worker's deque: it has to wait.
    Waited,
    /// The worker took the representative role and made sure the primary
    /// queue holds a task; it refills on its next pass.
    BecameRepresentative,
    /// Nothing to do: no task anywhere the worker may take one from.
    Idle,
    /// The worker, as representative, refilled its deque with that many
    /// tasks and gave the role back.
    Refilled(usize),
    /// The worker stole that many tasks from a peer.
    Stole(usize),
    /// The worker tried to steal and found nothing worth taking.
    StealAborted,
}

/// How far a task in place `p` is from completion.
pub open spec fn rank(p: Place) -> nat {
    match p {
        Place::Done => 0,
        Place::Running(_) => 1,
        Place::Local(_) => 2,
        Place::Primary => 3,
        Place::Swap => 4,
        Place::Harvested(_) => 4,
        Place::Waiting(_) => 5,
    }
}

/// The distances from completion of all tasks, added up.
pub open spec fn total_rank(info: Seq<TaskInfo>) -> nat
    decreases info.len(),
{
    if info.len() == 0 {
        0
    } else {
        total_rank(info.drop_last()) + rank(info.last().place)
    }
}

/// If no task moved away from completion, the sum did not grow.
pub proof fn lemma_rank_monotone(a: Seq<TaskInfo>, b: Seq<TaskInfo>)
    requires
        a.len() == b.len(),
        forall|i: int| 0 <= i < a.len() ==> rank(#[trigger] b[i].place) <= rank(a[i].place),
    ensures
        total_rank(b) <= total_rank(a),
    decreases a.len(),
{
    if a.len() > 0 {
        let a1 = a.drop_last();
        let b1 = b.drop_last();
        assert forall|i: int| 0 <= i < a1.len() implies rank(#[trigger] b1[i].place) <= rank(
            a1[i].place,
        ) by {
            assert(b1[i] == b[i]);
        }
        lemma_rank_monotone(a1, b1);
        assert(rank(b[b.len() - 1].place) <= rank(a[a.len() - 1].place));
    }
}

/// If no task moved away from completion and task `w` moved towards it, the
/// sum shrank.
pub proof fn lemma_rank_strict(a: Seq<TaskInfo>, b: Seq<TaskInfo>, w: int)
    requires
        a.len() == b.len(),
        forall|i: int| 0 <= i < a.len() ==> rank(#[trigger] b[i].place) <= rank(a[i].place),
        0 <= w < a.len(),
        rank(b[w].place) < rank(a[w].place),
    ensures
        total_rank(b) < total_rank(a),
    decreases a.len(),
{
    let a1 = a.drop_last();
    let b1 = b.drop_last();
    assert forall|i: int| 0 <= i < a1.len() implies rank(#[trigger] b1[i].place) <= rank(
        a1[i].place,
    ) by {
        assert(b1[i] == b[i]);
    }
    assert(rank(b[b.len() - 1].place) <= rank(a[a.len() - 1].place));
    if w == a.len() - 1 {
        lemma_rank_monotone(a1, b1);
    } else {
        assert(b1[w] == b[w]);
        lemma_rank_strict(a1, b1, w);
    }
}

/// The pool at one moment: the list core, the workers, the holder of the
/// representative role and the count of completed tasks.
pub ghost struct Snapshot<F: TaskTrait<O>, O: OutputTrait, const Q: usize> {
    pub core: ListCore<F, O>,
    pub workers: Seq<ThreadUnit<Q>>,
    pub reprt: Option<usize>,
    pub done_task: u64,
}

impl<F: TaskTrait<O>, O: OutputTrait, const Q: usize> Snapshot<F, O, Q> {
    /// A task in a deque sits in a slot of the worker its place names, a
    /// harvested task belongs to a worker of the pool, and a running task is
    /// the one its worker runs.
    pub open spec fn housed(&self, t: int) -> bool {
        let i = self.core.model@.info[t];
        match i.place {
            Place::Local(w) => w < self.workers.len() && self.workers[w as int].top <= i.pos
                < self.workers[w as int].bottom && self.workers[w as int].queue[i.pos] == Some(
                t as usize,
            ),
            Place::Harvested(w) => w < self.workers.len(),
            Place::Running(w) => w < self.workers.len() && self.workers[w as int].running == Some(
                t as usize,
            ),
            _ => true,
        }
    }

    /// Worker `w` is well formed and knows its place in the pool.
    pub open spec fn unit_ok(&self, w: int) -> bool {
        &&& self.workers[w].wf(&self.core)
        &&& self.workers[w].id == w
        &&& self.workers[w].total_threads == self.workers.len()
    }

    /// The representative, if there is one, has an empty deque and a primary
    /// queue to refill it from.
    pub open spec fn role_ok(&self) -> bool {
        self.reprt matches Some(r) ==> r < self.workers.len() && self.workers[r as int].top
            == self.workers[r as int].bottom && self.core.model@.primary.len() > 0
    }

    /// The invariant of the pool. A pool has a worker, and its workers have
    /// room for a task.
    pub open spec fn wf(&self) -> bool {
        &&& self.core.wf()
        &&& Q >= 1
        &&& self.workers.len() >= 1
        &&& forall|w: int| 0 <= w < self.workers.len() ==> #[trigger] self.unit_ok(w)
        &&& forall|t: int| 0 <= t < self.core.tasks.len() ==> #[trigger] self.housed(t)
        &&& self.done_task == self.core.done_set().len()
        &&& self.role_ok()
    }

    /// What is left to do: twice the summed distances of the tasks from
    /// completion, and one more while the representative role is free.
    pub open spec fn measure(&self) -> nat {
        2 * total_rank(self.core.model@.info) + (if self.reprt is None {
            1nat
        } else {
            0nat
        })
    }

    /// Every worker is between two passes: no thief is at work on any deque
    /// and no payload is being run.
    pub open spec fn calm(&self) -> bool {
        forall|w: int|
            0 <= w < self.workers.len() ==> (#[trigger] self.workers[w]).threads_active == 0
                && self.workers[w].running is None
    }

    /// Worker `w` holds no task, and neither queue it could take one from
    /// holds any.
    pub open spec fn quiet(&self, w: int) -> bool {
        &&& self.workers[w].top == self.workers[w].bottom
        &&& self.core.model@.primary.len() == 0
        &&& self.core.model@.swap.len() == 0
        &&& self.core.model@.harvested[w as usize].len() == 0
    }
}

/// Task `t` between two moments of a pool: it did not move away from
/// completion, if it had completed its result slot was not written again,
/// its result was not collected in between, and it is still the same
/// payload with the same ties to dependency groups.
pub open spec fn settled<F: TaskTrait<O>, O: OutputTrait>(
    old: ListCore<F, O>,
    new: ListCore<F, O>,
    t: int,
) -> bool {
    &&& rank(new.model@.info[t].place) <= rank(old.model@.info[t].place)
    &&& (old.is_done(t) ==> new.is_done(t) && new.results@[t] == old.results@[t])
    &&& (new.results@[t] is Taken ==> old.results@[t] is Taken)
    &&& new.kept(old, t)
}

/// Task `t` over one pass: it does not move away from completion, a
/// completed task stays completed and its result slot is not written again,
/// no pass collects a result, and a task completes only by being run.
pub open spec fn once<F: TaskTrait<O>, O: OutputTrait, const Q: usize>(
    old: Snapshot<F, O, Q>,
    new: Snapshot<F, O, Q>,
    t: int,
    pass: Pass,
) -> bool {
    &&& settled(old.core, new.core, t)
    &&& (new.core.is_done(t) && !old.core.is_done(t) ==> pass == Pass::Executed(t as usize))
}

/// The worker left: its deque was empty; if it held the representative role
/// it gave the role back, and nothing else changed.
pub open spec fn exited<F: TaskTrait<O>, O: OutputTrait, const Q: usize>(
    old: Snapshot<F, O, Q>,
    new: Snapshot<F, O, Q>,
    me: usize,
) -> bool {
    let before = old.workers[me as int];
    &&& before.top == before.bottom
    &&& new.core == old.core
    &&& new.workers == old.workers
    &&& new.done_task == old.done_task
    &&& new.reprt == (if old.reprt == Some(me) {
        None
    } else {
        old.reprt
    })
}

/// The worker ran task `t`, the one in the lowest occupied slot of its
/// deque: the payload was invoked once and produced the value that now sits
/// in the task's result slot, the task's group took note, and one more task
/// is counted as completed.
pub open spec fn executed<F: TaskTrait<O>, O: OutputTrait, const Q: usize>(
    old: Snapshot<F, O, Q>,
    new: Snapshot<F, O, Q>,
    me: usize,
    t: usize,
) -> bool {
    let before = old.workers[me as int];
    let after = new.workers[me as int];
    &&& before.top < before.bottom
    &&& before.queue[before.bottom - 1] == Some(t)
    &&& new.measure() < old.measure()
    &&& new.reprt == old.reprt
    &&& new.done_task == old.done_task + 1
    &&& after.same_identity(before)
    &&& after.top == before.top
    &&& after.bottom == before.bottom - 1
    &&& after.queue@ == before.queue@.update(before.bottom - 1, None)
    &&& after.empty_flag == before.empty_flag
    &&& forall|x: int|
        0 <= x < old.core.tasks.len() && x != t ==> (
        #[trigger] new.core.model@.info[x]).place is Local
            == old.core.model@.info[x].place is Local
    &&& exists|value: O|
        call_ensures(F::exec, (&old.core.payloads@[t as int],), value)
            && #[trigger] new.core.finished(old.core, t, value, me)
}

/// The idle worker found a thief at work on its deque and left everything
/// alone but for marking itself empty.
pub open spec fn waited<F: TaskTrait<O>, O: OutputTrait, const Q: usize>(
    old: Snapshot<F, O, Q>,
    new: Snapshot<F, O, Q>,
    me: usize,
) -> bool {
    let before = old.workers[me as int];
    &&& before.top == before.bottom
    &&& before.threads_active > 0
    &&& new.core == old.core
    &&& new.reprt == old.reprt
    &&& new.done_task == old.done_task
    &&& new.workers[me as int] == (ThreadUnit { empty_flag: true, ..before })
}

/// The list core after worker `me`, as new representative, handed its
/// harvested queue to the primary queue and, with the primary queue still
/// empty, moved the swap queue there.
pub open spec fn fed<F: TaskTrait<O>, O: OutputTrait>(
    old: ListCore<F, O>,
    new: ListCore<F, O>,
    me: usize,
) -> bool {
    if old.model@.harvested[me].len() > 0 {
        new.moved(old, Place::Harvested(me), Place::Primary)
    } else if old.model@.primary.len() > 0 || old.model@.swap.len() == 0 {
        new == old
    } else {
        new.moved(old, Place::Swap, Place::Primary)
    }
}

/// The idle worker took the free representative role and made sure the
/// primary queue holds a task.
pub open spec fn became_representative<F: TaskTrait<O>, O: OutputTrait, const Q: usize>(
    old: Snapshot<F, O, Q>,
    new: Snapshot<F, O, Q>,
    me: usize,
) -> bool {
    let before = old.workers[me as int];
    &&& before.top == before.bottom
    &&& before.threads_active == 0
    &&& new.measure() < old.measure()
    &&& old.reprt is None
    &&& new.reprt == Some(me)
    &&& new.done_task == old.done_task
    &&& new.core.results@ == old.core.results@
    &&& fed(old.core, new.core, me)
    &&& new.core.model@.primary.len() > 0
    &&& new.core.model@.primary == old.core.model@.primary
        + old.core.model@.harvested[me] + (if old.core.model@.primary.len()
        + old.core.model@.harvested[me].len() == 0 {
        old.core.model@.swap
    } else {
        Seq::empty()
    })
    &&& new.workers[me as int] == (ThreadUnit {
        empty_flag: true,
        start_l_waiting_list: None,
        end_l_waiting_list: None,
        ..before
    })
}

/// The idle worker found no task anywhere it may take one from: the role
/// was free, but its harvested queue, the primary queue and the swap queue
/// were all empty. It marked itself empty and nothing else changed.
pub open spec fn idled<F: TaskTrait<O>, O: OutputTrait, const Q: usize>(
    old: Snapshot<F, O, Q>,
    new: Snapshot<F, O, Q>,
    me: usize,
) -> bool {
    let before = old.workers[me as int];
    &&& old.quiet(me as int)
    &&& new.core == old.core
    &&& old.reprt is None
    &&& new.reprt is None
    &&& new.done_task == old.done_task
    &&& new.workers[me as int] == (ThreadUnit {
        empty_flag: true,
        start_l_waiting_list: None,
        end_l_waiting_list: None,
        ..before
    })
}

/// The worker, as representative, refilled its empty deque with the `k`
/// oldest tasks of the primary queue, as many as the deque holds and the
/// queue has, and gave the role back.
pub open spec fn refilled<F: TaskTrait<O>, O: OutputTrait, const Q: usize>(
    old: Snapshot<F, O, Q>,
    new: Snapshot<F, O, Q>,
    me: usize,
    k: usize,
) -> bool {
    let om = old.core.model@;
    let before = old.workers[me as int];
    let after = new.workers[me as int];
    &&& before.top == before.bottom
    &&& before.threads_active == 0
    &&& new.measure() < old.measure()
    &&& old.reprt == Some(me)
    &&& new.reprt is None
    &&& new.done_task == old.done_task
    &&& k >= 1
    &&& k == batch_size(Q as int, Q as int, om.primary.len() as int)
    &&& new.core.only_model_changed(old.core, taken_model(om, k as int, me, Q as int))
    &&& after@ == om.primary.take(k as int)
    &&& after.top == Q - k
    &&& after.bottom == Q
    &&& !after.empty_flag
    &&& after.same_identity(before)
    &&& after.start_l_waiting_list == before.start_l_waiting_list
    &&& after.end_l_waiting_list == before.end_l_waiting_list
}

/// The peer that worker `me` turns to in the pool `old`.
pub open spec fn victim_in<F: TaskTrait<O>, O: OutputTrait, const Q: usize>(
    old: Snapshot<F, O, Q>,
    me: usize,
) -> int {
    victim_of(
        me as int,
        old.workers.len() as int,
        xorshift32(old.workers[me as int].xorshift_seed) as int,
    )
}

/// The idle worker, with the representative role held by another worker,
/// stole `k` tasks from its pseudo-random peer: the half of the peer's tasks
/// next to the peer's `top`. The task that sat at the peer's `top` is the
/// one the thief runs first.
pub open spec fn stole<F: TaskTrait<O>, O: OutputTrait, const Q: usize>(
    old: Snapshot<F, O, Q>,
    new: Snapshot<F, O, Q>,
    me: usize,
    k: usize,
) -> bool {
    let om = old.core.model@;
    let before = old.workers[me as int];
    let after = new.workers[me as int];
    let v = victim_in(old, me);
    let victim = old.workers[v];
    let robbed = new.workers[v];
    &&& before.top == before.bottom
    &&& before.threads_active == 0
    &&& old.reprt is Some
    &&& old.reprt != Some(me)
    &&& new.reprt == old.reprt
    &&& new.done_task == old.done_task
    &&& old.workers.len() > 1
    &&& victim.worth_stealing()
    &&& k == (victim.bottom - victim.top) / 2
    &&& robbed.top == victim.top + k
    &&& robbed.bottom == victim.bottom
    &&& robbed.same_identity(victim)
    &&& robbed.empty_flag == victim.empty_flag
    &&& robbed.start_l_waiting_list == victim.start_l_waiting_list
    &&& robbed.end_l_waiting_list == victim.end_l_waiting_list
    &&& forall|i: int|
        0 <= i < Q ==> #[trigger] robbed.queue[i] == (if victim.top <= i < victim.top + k {
            None
        } else {
            victim.queue[i]
        })
    &&& after.top == Q - k
    &&& after.bottom == Q
    &&& after@ == Seq::new(k as nat, |j: int| victim.queue[victim.top + j]->0)
    &&& !after.empty_flag
    &&& after.xorshift_seed == xorshift32(before.xorshift_seed)
    &&& after.id == before.id
    &&& after.total_threads == before.total_threads
    &&& after.start_l_waiting_list == before.start_l_waiting_list
    &&& after.end_l_waiting_list == before.end_l_waiting_list
    &&& new.core.only_model_changed(
        old.core,
        stolen_model(om, v as usize, victim.top as int, k as int, me, Q as int),
    )
}

/// The idle worker, with the representative role held by another worker,
/// turned to its pseudo-random peer and found nothing worth taking: the peer
/// reported itself empty or held fewer than two tasks.
pub open spec fn steal_aborted<F: TaskTrait<O>, O: OutputTrait, const Q: usize>(
    old: Snapshot<F, O, Q>,
    new: Snapshot<F, O, Q>,
    me: usize,
) -> bool {
    let before = old.workers[me as int];
    &&& before.top == before.bottom
    &&& before.threads_active == 0
    &&& old.reprt is Some
    &&& old.reprt != Some(me)
    &&& new.reprt == old.reprt
    &&& new.core == old.core
    &&& new.done_task == old.done_task
    &&& old.workers.len() > 1
    &&& !old.workers[victim_in(old, me)].worth_stealing()
    &&& new.workers[me as int] == (ThreadUnit {
        empty_flag: true,
        xorshift_seed: xorshift32(before.xorshift_seed),
        ..before
    })
}

/// What one pass of worker `me` does to the pool.
pub open spec fn pass_ok<F: TaskTrait<O>, O: OutputTrait, const Q: usize>(
    old: Snapshot<F, O, Q>,
    new: Snapshot<F, O, Q>,
    me: usize,
    join_flag: bool,
    pass: Pass,
) -> bool {
    let om = old.core.model@;
    let before = old.workers[me as int];
    &&& new.wf()
    &&& new.workers.len() == old.workers.len()
    &&& new.core.tasks.len() == old.core.tasks.len()
    &&& new.core.in_task == old.core.in_task
    &&& (old.calm() ==> new.calm())
    &&& (!(pass is Exit) ==> new.measure() <= old.measure())
    &&& forall|t: int| 0 <= t < old.core.tasks.len() ==> #[trigger] once(old, new, t, pass)
    &&& forall|u: int|
        0 <= u < old.workers.len() && u != me && !(pass is Stole && u == victim_in(old, me))
            ==> #[trigger] new.workers[u] == old.workers[u]
    &&& match pass {
        Pass::Exit => join_flag && exited(old, new, me),
        Pass::Executed(t) => executed(old, new, me, t),
        Pass::Waited => !join_flag && waited(old, new, me),
        Pass::BecameRepresentative => !join_flag && became_representative(old, new, me),
        Pass::Idle => !join_flag && idled(old, new, me),
        Pass::Refilled(k) => !join_flag && refilled(old, new, me, k),
        Pass::Stole(k) => !join_flag && stole(old, new, me, k),
        Pass::StealAborted => !join_flag && steal_aborted(old, new, me),
    }
}

impl<const Q: usize> ThreadUnit<Q> {
    /// The pool as `workers`, `core` and the shared flags describe it.
    pub open spec fn snapshot<F: TaskTrait<O>, O: OutputTrait>(
        workers: Vec<ThreadUnit<Q>>,
        core: ListCore<F, O>,
        reprt: Option<usize>,
        done_task: u64,
    ) -> Snapshot<F, O, Q> {
        Snapshot { core, workers: workers@, reprt, done_task }
    }

    /// The pass of a worker that has a task in its deque: it runs the task in
    /// the lowest occupied slot.
    fn pass_execute<F: TaskTrait<O>, O: OutputTrait>(
        workers: &mut Vec<ThreadUnit<Q>>,
        me: usize,
        core: &mut ListCore<F, O>,
        Ghost(reprt): Ghost<Option<usize>>,
        Ghost(join_flag): Ghost<bool>,
        done_task: &mut u64,
    ) -> (pass: Pass)
        requires
            Self::snapshot(*old(workers), *old(core), reprt, *old(done_task)).wf(),
            me < old(workers).len(),
            old(workers)[me as int].top < old(workers)[me as int].bottom,
            old(workers)[me as int].running is None,
        ensures
            pass is Executed,
            pass_ok(
                Self::snapshot(*old(workers), *old(core), reprt, *old(done_task)),
                Self::snapshot(*final(workers), *final(core), reprt, *final(done_task)),
                me,
                join_flag,
                pass,
            ),
    {
        let ghost s0 = Self::snapshot(*old(workers), *old(core), reprt, *old(done_task));
        proof {
            assert(s0.unit_ok(me as int));
        }
        let t = workers[me].execute_bottom(core, done_task);
        proof {
            let s1 = Self::snapshot(*workers, *core, reprt, *done_task);
            let value = choose|value: O|
                call_ensures(F::exec, (&old(core).payloads@[t as int],), value)
                    && #[trigger] core.finished(*old(core), t, value, me);
            let mid = choose|mid: ListCore<F, O>| #[trigger]
                mid.completed(*old(core), t, value) && (if old(core).model@.info[t as int].member
                    == 0 {
                    *core == mid
                } else {
                    core.released(mid, old(core).model@.info[t as int].member, me)
                });
            let om = old(core).model@;
            let m = core.model@;
            assert forall|x: int| 0 <= x < om.info.len() implies #[trigger] m.info[x] == (if x
                == t {
                TaskInfo { place: Place::Done, ..om.info[x] }
            } else if om.info[x].place is Waiting && m.info[x] != om.info[x] {
                TaskInfo { place: Place::Harvested(me), pos: m.info[x].pos, ..om.info[x] }
            } else {
                om.info[x]
            }) by {}
            assert forall|w: int| 0 <= w < s1.workers.len() implies #[trigger] s1.unit_ok(w) by {
                assert(s0.unit_ok(w));
                if w != me {
                    s0.workers[w].lemma_unit_frame(old(core), core);
                }
            }
            assert forall|x: int| 0 <= x < core.tasks.len() implies #[trigger] s1.housed(x) by {
                assert(s0.housed(x));
                assert(s0.housed(t as int));
            }
            assert forall|x: int| 0 <= x < om.info.len() implies rank(#[trigger] m.info[x].place)
                <= rank(om.info[x].place) by {}
            lemma_rank_strict(om.info, m.info, t as int);
            assert forall|x: int| 0 <= x < old(core).tasks.len() implies #[trigger] once(
                s0,
                s1,
                x,
                Pass::Executed(t),
            ) by {
                assert(old(core).task_wf(x, 0, 0));
            }
            if reprt is Some {
                assert(s0.unit_ok(reprt->0 as int));
            }
            assert(s0.workers[me as int].slot_ok(old(core), s0.workers[me as int].bottom - 1));
            assert(call_ensures(F::exec, (&old(core).payloads@[t as int],), value)
                && core.finished(*old(core), t, value, me));
        }
        Pass::Executed(t)
    }
}

impl<const Q: usize> ThreadUnit<Q> {
    /// The pass of an idle worker that finds the representative role free: it
    /// takes the role, hands its harvested queue to the primary queue and, if
    /// the primary queue is still empty, moves the swap queue there. With no
    /// task to be had it gives the role back at once.
    fn pass_acquire<F: TaskTrait<O>, O: OutputTrait>(
        workers: &mut Vec<ThreadUnit<Q>>,
        me: usize,
        core: &mut ListCore<F, O>,
        reprt: &mut Option<usize>,
        Ghost(done_task): Ghost<u64>,
    ) -> (pass: Pass)
        requires
            Self::snapshot(*old(workers), *old(core), *old(reprt), done_task).wf(),
            me < old(workers).len(),
            old(workers)[me as int].threads_active == 0,
            old(workers)[me as int].top == old(workers)[me as int].bottom,
            *old(reprt) is None,
        ensures
            pass is BecameRepresentative || pass is Idle,
            pass_ok(
                Self::snapshot(*old(workers), *old(core), *old(reprt), done_task),
                Self::snapshot(*final(workers), *final(core), *final(reprt), done_task),
                me,
                false,
                pass,
            ),
    {
        let ghost s0 = Self::snapshot(*old(workers), *old(core), *old(reprt), done_task);
        proof {
            assert(s0.unit_ok(me as int));
        }
        workers[me].empty_flag = true;
        proof {
            assert forall|i: int| 0 <= i < Q implies #[trigger] workers[me as int].slot_ok(
                old(core),
                i,
            ) by {
                assert(s0.workers[me as int].slot_ok(old(core), i));
            }
        }
        *reprt = Some(me);
        workers[me].merge_harvested(core);
        let ghost merged = *core;
        let mut pass = Pass::BecameRepresentative;
        if core.is_primary_list_empty() {
            match core.swap_to_primary() {
                Ok(_) => {},
                Err(_) => {
                    *reprt = None;
                    pass = Pass::Idle;
                },
            }
        }
        proof {
            let s1 = Self::snapshot(*workers, *core, *reprt, done_task);
            let om = old(core).model@;
            let m = core.model@;
            let mm = merged.model@;
            assert forall|x: int| 0 <= x < om.info.len() implies #[trigger] m.info[x]
                == (if om.info[x].place
                == Place::Harvested(me) || (om.info[x].place is Swap && m.info[x] != om.info[x]) {
                TaskInfo { place: Place::Primary, pos: m.info[x].pos, ..om.info[x] }
            } else {
                om.info[x]
            }) by {
                assert(old(core).task_wf(x, 0, 0));
                assert(merged.task_wf(x, 0, 0));
                assert(mm.info[x] == om.info[x] || om.info[x].place == Place::Harvested(me));
                assert(m.info[x] == mm.info[x] || mm.info[x].place is Swap);
            }
            assert(workers[me as int].wf(&merged));
            assert forall|w: int| 0 <= w < s1.workers.len() implies #[trigger] s1.unit_ok(w) by {
                assert(s0.unit_ok(w));
                if w != me {
                    s0.workers[w].lemma_unit_frame(old(core), core);
                } else {
                    workers[me as int].lemma_unit_frame(&merged, core);
                }
            }
            assert forall|x: int| 0 <= x < core.tasks.len() implies #[trigger] s1.housed(x) by {
                assert(s0.housed(x));
            }
            assert(core.done_set() =~= old(core).done_set());
            assert forall|x: int| 0 <= x < om.info.len() implies rank(#[trigger] m.info[x].place)
                <= rank(om.info[x].place) by {}
            lemma_rank_monotone(om.info, m.info);
            assert forall|x: int| 0 <= x < old(core).tasks.len() implies #[trigger] once(
                s0,
                s1,
                x,
                pass,
            ) by {}
        }
        pass
    }

    /// The pass of the idle worker that holds the representative role: it
    /// refills its deque with a batch from the primary queue and gives the
    /// role back.
    fn pass_refill<F: TaskTrait<O>, O: OutputTrait>(
        workers: &mut Vec<ThreadUnit<Q>>,
        me: usize,
        core: &mut ListCore<F, O>,
        reprt: &mut Option<usize>,
        Ghost(done_task): Ghost<u64>,
    ) -> (pass: Pass)
        requires
            Self::snapshot(*old(workers), *old(core), *old(reprt), done_task).wf(),
            me < old(workers).len(),
            old(workers)[me as int].threads_active == 0,
            *old(reprt) == Some(me),
        ensures
            pass is Refilled,
            pass_ok(
                Self::snapshot(*old(workers), *old(core), *old(reprt), done_task),
                Self::snapshot(*final(workers), *final(core), *final(reprt), done_task),
                me,
                false,
                pass,
            ),
    {
        let ghost s0 = Self::snapshot(*old(workers), *old(core), *old(reprt), done_task);
        proof {
            assert(s0.unit_ok(me as int));
        }
        workers[me].empty_flag = true;
        proof {
            assert forall|i: int| 0 <= i < Q implies #[trigger] workers[me as int].slot_ok(
                old(core),
                i,
            ) by {
                assert(s0.workers[me as int].slot_ok(old(core), i));
            }
        }
        let taken = workers[me].refill(core);
        *reprt = None;
        let k = match taken {
            Some(k) => k,
            None => 0,
        };
        proof {
            let s1 = Self::snapshot(*workers, *core, *reprt, done_task);
            let om = old(core).model@;
            let m = core.model@;
            let q = om.primary;
            assert(old(core).link_ok(q, 0, Place::Primary));
            assert forall|w: int| 0 <= w < s1.workers.len() implies #[trigger] s1.unit_ok(w) by {
                assert(s0.unit_ok(w));
                if w != me {
                    s0.workers[w].lemma_unit_frame(old(core), core);
                }
            }
            assert forall|x: int| 0 <= x < core.tasks.len() implies #[trigger] s1.housed(x) by {
                assert(s0.housed(x));
                assert(old(core).task_wf(x, 0, 0));
                if om.info[x].place is Primary && om.info[x].pos < k {
                    let j = om.info[x].pos;
                    assert(workers[me as int]@[j] == q[j]);
                    assert(workers[me as int].slot_ok(core, Q - 1 - j));
                }
            }
            assert(core.done_set() =~= old(core).done_set());
            assert forall|x: int| 0 <= x < om.info.len() implies rank(#[trigger] m.info[x].place)
                <= rank(om.info[x].place) by {}
            lemma_rank_strict(om.info, m.info, q[0] as int);
            assert forall|x: int| 0 <= x < old(core).tasks.len() implies #[trigger] once(
                s0,
                s1,
                x,
                Pass::Refilled(k),
            ) by {}
        }
        Pass::Refilled(k)
    }

    /// The pass of an idle worker that finds the representative role taken:
    /// it picks a peer and tries to steal the lower half of its tasks.
    fn pass_steal<F: TaskTrait<O>, O: OutputTrait>(
        workers: &mut Vec<ThreadUnit<Q>>,
        me: usize,
        core: &mut ListCore<F, O>,
        Ghost(reprt): Ghost<Option<usize>>,
        Ghost(done_task): Ghost<u64>,
    ) -> (pass: Pass)
        requires
            Self::snapshot(*old(workers), *old(core), reprt, done_task).wf(),
            me < old(workers).len(),
            old(workers)[me as int].threads_active == 0,
            old(workers)[me as int].top == old(workers)[me as int].bottom,
            reprt is Some,
            reprt != Some(me),
        ensures
            pass is Stole || pass is StealAborted,
            pass_ok(
                Self::snapshot(*old(workers), *old(core), reprt, done_task),
                Self::snapshot(*final(workers), *final(core), reprt, done_task),
                me,
                false,
                pass,
            ),
    {
        let ghost s0 = Self::snapshot(*old(workers), *old(core), reprt, done_task);
        proof {
            assert(s0.unit_ok(me as int));
            assert(s0.unit_ok(reprt->0 as int));
            lemma_xorshift_nonzero(s0.workers[me as int].xorshift_seed);
        }
        workers[me].empty_flag = true;
        let picked = workers[me].pick_victim();
        let v = picked.unwrap();
        let ghost s_mid = Self::snapshot(*workers, *old(core), reprt, done_task);
        proof {
            assert forall|i: int| 0 <= i < Q implies #[trigger] workers[me as int].slot_ok(
                old(core),
                i,
            ) by {
                assert(s0.workers[me as int].slot_ok(old(core), i));
            }
            assert(s0.unit_ok(v as int));
            assert(workers[v as int] == s0.workers[v as int]);
        }
        let loot = workers[v].yield_half(me, core);
        let pass = match loot {
            Some(list) => {
                let k = list.count as usize;
                let ghost batch = list;
                workers[me].install(list);
                proof {
                    let victim = s0.workers[v as int];
                    assert forall|i: int| 0 <= i < Q implies #[trigger] workers[me as int].slot_ok(
                        core,
                        i,
                    ) by {
                        if Q - k <= i {
                            let j = Q - 1 - i;
                            assert(batch.list[Q - 1 - j] == victim.queue[victim.top + j]);
                            assert(victim.slot_ok(old(core), victim.top + j));
                        }
                    }
                    assert(workers[me as int]@ =~= Seq::new(
                        k as nat,
                        |j: int| victim.queue[victim.top + j]->0,
                    )) by {
                        assert forall|j: int| 0 <= j < k implies workers[me as int]@[j]
                            == victim.queue[victim.top + j]->0 by {
                            assert(batch.list[Q - 1 - j] == victim.queue[victim.top + j]);
                        }
                    }
                }
                Pass::Stole(k)
            },
            None => Pass::StealAborted,
        };
        proof {
            let s1 = Self::snapshot(*workers, *core, reprt, done_task);
            let om = old(core).model@;
            let m = core.model@;
            let victim = s0.workers[v as int];
            assert forall|w: int| 0 <= w < s1.workers.len() implies #[trigger] s1.unit_ok(w) by {
                assert(s0.unit_ok(w));
                if w != me && w != v {
                    s0.workers[w].lemma_unit_frame(old(core), core);
                } else if w == me && pass is StealAborted {
                    assert forall|i: int| 0 <= i < Q implies #[trigger] workers[me as int].slot_ok(
                        core,
                        i,
                    ) by {
                        assert(s0.workers[me as int].slot_ok(old(core), i));
                    }
                }
            }
            assert forall|x: int| 0 <= x < core.tasks.len() implies #[trigger] s1.housed(x) by {
                assert(s0.housed(x));
                if pass is Stole && om.info[x].place == Place::Local(v) && victim.top
                    <= om.info[x].pos < victim.top + pass->Stole_0 {
                    let j = om.info[x].pos - victim.top;
                    assert(victim.slot_ok(old(core), om.info[x].pos));
                    assert(workers[me as int].slot_ok(core, Q - 1 - j));
                }
            }
            assert(core.done_set() =~= old(core).done_set());
            assert forall|x: int| 0 <= x < om.info.len() implies rank(#[trigger] m.info[x].place)
                <= rank(om.info[x].place) by {}
            lemma_rank_monotone(om.info, m.info);
            assert forall|x: int| 0 <= x < old(core).tasks.len() implies #[trigger] once(
                s0,
                s1,
                x,
                pass,
            ) by {}
        }
        pass
    }

    /// One pass of the loop of worker `me`.
    ///
    /// A worker with a task in its deque runs the task in the lowest occupied
    /// slot. A worker with an empty deque leaves if shutdown was requested.
    /// Otherwise it marks itself empty and either acts as representative,
    /// which takes two passes (take the role and fill the primary queue; then
    /// refill the deque and give the role back), or, while another worker is
    /// representative, tries to steal from a pseudo-random peer. A worker
    /// takes no pass while it is running a payload.
    pub fn running<F: TaskTrait<O>, O: OutputTrait>(
        workers: &mut Vec<ThreadUnit<Q>>,
        me: usize,
        core: &mut ListCore<F, O>,
        reprt_handler: &mut Option<usize>,
        join_flag: bool,
        done_task: &mut u64,
    ) -> (pass: Pass)
        requires
            Self::snapshot(*old(workers), *old(core), *old(reprt_handler), *old(done_task)).wf(),
            me < old(workers).len(),
            old(workers)[me as int].running is None,
        ensures
            pass_ok(
                Self::snapshot(*old(workers), *old(core), *old(reprt_handler), *old(done_task)),
                Self::snapshot(
                    *final(workers),
                    *final(core),
                    *final(reprt_handler),
                    *final(done_task),
                ),
                me,
                join_flag,
                pass,
            ),
    {
        let ghost s0 = Self::snapshot(
            *old(workers),
            *old(core),
            *old(reprt_handler),
            *old(done_task),
        );
        proof {
            assert(s0.unit_ok(me as int));
        }
        if workers[me].top < workers[me].bottom {
            return Self::pass_execute(
                workers,
                me,
                core,
                Ghost(*reprt_handler),
                Ghost(join_flag),
                done_task,
            );
        }
        if join_flag {
            match *reprt_handler {
                Some(r) => {
                    if r == me {
                        *reprt_handler = None;
                    }
                },
                None => {},
            }
            proof {
                let s1 = Self::snapshot(*workers, *core, *reprt_handler, *done_task);
                assert forall|w: int| 0 <= w < s1.workers.len()
                    implies #[trigger] s1.unit_ok(w) by {
                    assert(s0.unit_ok(w));
                }
                assert forall|x: int| 0 <= x < core.tasks.len() implies #[trigger] s1.housed(x) by {
                    assert(s0.housed(x));
                }
                assert forall|x: int| 0 <= x < core.tasks.len() implies #[trigger] once(
                    s0,
                    s1,
                    x,
                    Pass::Exit,
                ) by {}
            }
            return Pass::Exit;
        }
        if workers[me].threads_active > 0 {
            workers[me].empty_flag = true;
            proof {
                let s1 = Self::snapshot(*workers, *core, *reprt_handler, *done_task);
                assert forall|w: int| 0 <= w < s1.workers.len()
                    implies #[trigger] s1.unit_ok(w) by {
                    assert(s0.unit_ok(w));
                    if w == me {
                        assert forall|i: int| 0 <= i < Q implies #[trigger] s1.workers[w].slot_ok(
                            core,
                            i,
                        ) by {
                            assert(s0.workers[w].slot_ok(core, i));
                        }
                    }
                }
                assert forall|x: int| 0 <= x < core.tasks.len() implies #[trigger] s1.housed(x) by {
                    assert(s0.housed(x));
                }
                assert forall|x: int| 0 <= x < core.tasks.len() implies #[trigger] once(
                    s0,
                    s1,
                    x,
                    Pass::Waited,
                ) by {}
                if s0.reprt is Some {
                    assert(s0.unit_ok(s0.reprt->0 as int));
                }
            }
            return Pass::Waited;
        }
        match *reprt_handler {
            None => Self::pass_acquire(workers, me, core, reprt_handler, Ghost(*done_task)),
            Some(r) => {
                if r == me {
                    Self::pass_refill(workers, me, core, reprt_handler, Ghost(*done_task))
                } else {
                    Self::pass_steal(workers, me, core, Ghost(*reprt_handler), Ghost(*done_task))
                }
            },
        }
    }
}

/// Submitting tasks does not disturb the workers: a pool stays well formed
/// when the list core grows by tasks that are queued outside the deques and
/// the harvested queues, and nothing else about the existing tasks changes.
pub proof fn lemma_submit_keeps_pool<F: TaskTrait<O>, O: OutputTrait, const Q: usize>(
    s0: Snapshot<F, O, Q>,
    core1: ListCore<F, O>,
)
    requires
        s0.wf(),
        core1.wf(),
        core1.tasks.len() >= s0.core.tasks.len(),
        core1.model@.harvested == s0.core.model@.harvested,
        core1.model@.primary == s0.core.model@.primary,
        forall|x: int|
            0 <= x < s0.core.tasks.len() ==> (#[trigger] core1.model@.info[x])
                == s0.core.model@.info[x],
        forall|x: int|
            s0.core.tasks.len() <= x < core1.tasks.len() ==> (
            #[trigger] core1.model@.info[x]).place is Swap || core1.model@.info[x].place is Waiting,
    ensures
        (Snapshot { core: core1, ..s0 }).wf(),
        (Snapshot { core: core1, ..s0 }).measure() >= s0.measure(),
{
    let s1 = Snapshot { core: core1, ..s0 };
    assert forall|w: int| 0 <= w < s1.workers.len() implies #[trigger] s1.unit_ok(w) by {
        assert(s0.unit_ok(w));
        s0.workers[w].lemma_unit_frame(&s0.core, &core1);
    }
    assert forall|t: int| 0 <= t < core1.tasks.len() implies #[trigger] s1.housed(t) by {
        if t < s0.core.tasks.len() {
            assert(s0.housed(t));
        }
    }
    assert(core1.done_set() =~= s0.core.done_set());
    lemma_rank_prefix(s0.core.model@.info, core1.model@.info);
}

/// The summed distances of a longer table are at least those of its prefix.
pub proof fn lemma_rank_prefix(a: Seq<TaskInfo>, b: Seq<TaskInfo>)
    requires
        a.len() <= b.len(),
        forall|x: int| 0 <= x < a.len() ==> (#[trigger] b[x]) == a[x],
    ensures
        total_rank(a) <= total_rank(b),
    decreases b.len(),
{
    if a.len() < b.len() {
        let b1 = b.drop_last();
        assert forall|x: int| 0 <= x < a.len() implies (#[trigger] b1[x]) == a[x] by {
            assert(b1[x] == b[x]);
        }
        lemma_rank_prefix(a, b1);
    } else {
        assert(a =~= b);
    }
}

/// Collecting a stored result changes nothing the pool depends on.
pub proof fn lemma_collect_keeps_pool<F: TaskTrait<O>, O: OutputTrait, const Q: usize>(
    s0: Snapshot<F, O, Q>,
    core1: ListCore<F, O>,
    t: int,
)
    requires
        s0.wf(),
        0 <= t < s0.core.tasks.len(),
        s0.core.results@[t] is Ready,
        core1.results@ == s0.core.results@.update(t, crate::waiting::ResultSlot::Taken),
        core1.tasks == s0.core.tasks,
        core1.model == s0.core.model,
        core1.payloads == s0.core.payloads,
        core1.dependencies == s0.core.dependencies,
        core1.id_counter == s0.core.id_counter,
        core1.in_task == s0.core.in_task,
        core1.start == s0.core.start,
        core1.end == s0.core.end,
        core1.swap_start == s0.core.swap_start,
        core1.swap_end == s0.core.swap_end,
    ensures
        (Snapshot { core: core1, ..s0 }).wf(),
        (Snapshot { core: core1, ..s0 }).measure() == s0.measure(),
{
    let a = s0.core;
    let b = core1;
    let m = a.model@;
    ListCore::lemma_chain_frame(a, b, m.swap, Place::Swap);
    ListCore::lemma_chain_frame(a, b, m.primary, Place::Primary);
    assert forall|w: usize| #[trigger] b.chain_wf(m.harvested[w], Place::Harvested(w)) by {
        assert(a.chain_wf(m.harvested[w], Place::Harvested(w)));
        ListCore::lemma_chain_frame(a, b, m.harvested[w], Place::Harvested(w));
    }
    assert forall|g: int| 0 <= g < b.dependencies.len() implies #[trigger] b.group_wf(g, 0, 0) by {
        assert(a.group_wf(g, 0, 0));
        ListCore::lemma_chain_frame(a, b, m.waiting[g], Place::Waiting(g as usize));
        assert(b.pending(g as usize) =~= a.pending(g as usize));
    }
    assert forall|x: int| 0 <= x < b.tasks.len() implies #[trigger] b.task_wf(x, 0, 0) by {
        assert(a.task_wf(x, 0, 0));
    }
    assert forall|g: int| 0 <= g < b.dependencies.len() implies #[trigger] b.group_ends(g) by {
        assert(a.group_ends(g));
    }
    let s1 = Snapshot { core: core1, ..s0 };
    assert forall|w: int| 0 <= w < s1.workers.len() implies #[trigger] s1.unit_ok(w) by {
        assert(s0.unit_ok(w));
        s0.workers[w].lemma_unit_frame(&s0.core, &core1);
    }
    assert forall|x: int| 0 <= x < core1.tasks.len() implies #[trigger] s1.housed(x) by {
        assert(s0.housed(x));
    }
    assert(core1.done_set() =~= s0.core.done_set());
}

/// As many tasks have completed as were submitted exactly when every task
/// has completed: no task is counted twice and none is lost.
pub proof fn lemma_counts_agree<F: TaskTrait<O>, O: OutputTrait, const Q: usize>(
    s: Snapshot<F, O, Q>,
)
    requires
        s.wf(),
    ensures
        s.done_task <= s.core.in_task,
        s.core.in_task == s.core.tasks.len(),
        s.done_task == s.core.in_task <==> forall|t: int|
            0 <= t < s.core.tasks.len() ==> s.core.is_done(t),
{
    let n = s.core.tasks.len() as int;
    let all = vstd::set_lib::set_int_range(0, n);
    vstd::set_lib::lemma_int_range(0, n);
    s.core.lemma_done_bound();
    assert(s.core.done_set().subset_of(all));
    if s.done_task == s.core.in_task {
        vstd::set_lib::lemma_subset_equality(s.core.done_set(), all);
        assert forall|t: int| 0 <= t < n implies s.core.is_done(t) by {
            assert(all.contains(t));
            assert(s.core.done_set().contains(t));
        }
    }
    if forall|t: int| 0 <= t < n ==> s.core.is_done(t) {
        assert forall|t: int| all.contains(t) implies s.core.done_set().contains(t) by {
            assert(s.core.is_done(t));
        }
        assert(s.core.done_set() =~= all);
    }
}

/// Worker `me` took the task in the lowest occupied slot of its deque out to
/// run it; `record` is the record of that task. Nothing else changed.
pub open spec fn began<F: TaskTrait<O>, O: OutputTrait, const Q: usize>(
    old: Snapshot<F, O, Q>,
    new: Snapshot<F, O, Q>,
    me: usize,
    record: WaitingTask<F, O>,
) -> bool {
    let before = old.workers[me as int];
    &&& new.wf()
    &&& before.top < before.bottom
    &&& new.workers == old.workers.update(me as int, new.workers[me as int])
    &&& new.workers[me as int].took(before, old.core, record)
    &&& new.core.taken(old.core, before.queue[before.bottom - 1]->0)
    &&& new.reprt == old.reprt
    &&& new.done_task == old.done_task
    &&& new.measure() < old.measure()
    &&& forall|t: int| 0 <= t < old.core.tasks.len() ==> #[trigger] settled(old.core, new.core, t)
}

/// Worker `me` stored `value` as the result of the task it was running:
/// the task's group took note and one more task is counted as completed.
pub open spec fn ended<F: TaskTrait<O>, O: OutputTrait, const Q: usize>(
    old: Snapshot<F, O, Q>,
    new: Snapshot<F, O, Q>,
    me: usize,
    value: O,
) -> bool {
    let before = old.workers[me as int];
    let t = before.running->0;
    &&& new.wf()
    &&& new.workers == old.workers.update(me as int, new.workers[me as int])
    &&& new.workers[me as int] == (ThreadUnit {
        running: None,
        start_l_waiting_list: new.workers[me as int].start_l_waiting_list,
        end_l_waiting_list: new.workers[me as int].end_l_waiting_list,
        ..before
    })
    &&& new.core.finished(old.core, t, value, me)
    &&& new.reprt == old.reprt
    &&& new.done_task == old.done_task + 1
    &&& new.measure() < old.measure()
    &&& forall|x: int|
        0 <= x < old.core.tasks.len() ==> #[trigger] once(old, new, x, Pass::Executed(t))
}

impl<const Q: usize> ThreadUnit<Q> {
    /// The first half of running a task, for drivers that run payloads
    /// outside a pass: worker `me` takes the task in the lowest occupied slot
    /// of its deque and hands out its record. The driver runs the payload
    /// and reports the value with [`Self::finish`]. With an empty deque
    /// nothing happens.
    pub fn begin<F: TaskTrait<O>, O: OutputTrait>(
        workers: &mut Vec<ThreadUnit<Q>>,
        me: usize,
        core: &mut ListCore<F, O>,
        reprt_handler: &Option<usize>,
        done_task: &u64,
    ) -> (record: Option<WaitingTask<F, O>>)
        requires
            Self::snapshot(*old(workers), *old(core), *reprt_handler, *done_task).wf(),
            me < old(workers).len(),
            old(workers)[me as int].running is None,
        ensures
            match record {
                None => old(workers)[me as int].top == old(workers)[me as int].bottom
                    && *final(workers) == *old(workers) && *final(core) == *old(core),
                Some(r) => began(
                    Self::snapshot(*old(workers), *old(core), *reprt_handler, *done_task),
                    Self::snapshot(*final(workers), *final(core), *reprt_handler, *done_task),
                    me,
                    r,
                ),
            },
    {
        let ghost s0 = Self::snapshot(*old(workers), *old(core), *reprt_handler, *done_task);
        proof {
            assert(s0.unit_ok(me as int));
        }
        if workers[me].top >= workers[me].bottom {
            return None;
        }
        let record = workers[me].take_bottom(core);
        proof {
            let s1 = Self::snapshot(*workers, *core, *reprt_handler, *done_task);
            let om = old(core).model@;
            let m = core.model@;
            let t = s0.workers[me as int].queue[s0.workers[me as int].bottom - 1]->0 as int;
            assert forall|w: int| 0 <= w < s1.workers.len() implies #[trigger] s1.unit_ok(w) by {
                assert(s0.unit_ok(w));
                if w != me {
                    s0.workers[w].lemma_unit_frame(old(core), core);
                }
            }
            assert forall|x: int| 0 <= x < core.tasks.len() implies #[trigger] s1.housed(x) by {
                assert(s0.housed(x));
                assert(s0.housed(t));
            }
            assert(core.done_set() =~= old(core).done_set());
            assert forall|x: int| 0 <= x < om.info.len() implies rank(#[trigger] m.info[x].place)
                <= rank(om.info[x].place) by {}
            lemma_rank_strict(om.info, m.info, t);
            assert forall|x: int| 0 <= x < old(core).tasks.len() implies #[trigger] settled(
                *old(core),
                *core,
                x,
            ) by {
                assert(old(core).task_wf(x, 0, 0));
            }
            if reprt_handler is Some {
                assert(s0.unit_ok(reprt_handler->0 as int));
            }
            assert(s1.workers =~= s0.workers.update(me as int, s1.workers[me as int]));
        }
        Some(record)
    }

    /// The second half of running a task: worker `me` stores `value`, which
    /// the payload of its running task returned, tells the task's group and
    /// counts the task as completed.
    pub fn finish<F: TaskTrait<O>, O: OutputTrait>(
        workers: &mut Vec<ThreadUnit<Q>>,
        me: usize,
        core: &mut ListCore<F, O>,
        reprt_handler: &Option<usize>,
        done_task: &mut u64,
        value: O,
    )
        requires
            Self::snapshot(*old(workers), *old(core), *reprt_handler, *old(done_task)).wf(),
            me < old(workers).len(),
            old(workers)[me as int].running is Some,
            call_ensures(
                F::exec,
                (&old(core).payloads@[old(workers)[me as int].running->0 as int],),
                value,
            ),
        ensures
            ended(
                Self::snapshot(*old(workers), *old(core), *reprt_handler, *old(done_task)),
                Self::snapshot(*final(workers), *final(core), *reprt_handler, *final(done_task)),
                me,
                value,
            ),
    {
        let ghost s0 = Self::snapshot(*old(workers), *old(core), *reprt_handler, *old(done_task));
        let ghost t = s0.workers[me as int].running->0;
        proof {
            assert(s0.unit_ok(me as int));
        }
        workers[me].finish_running(core, done_task, value);
        proof {
            let s1 = Self::snapshot(*workers, *core, *reprt_handler, *done_task);
            let om = old(core).model@;
            let m = core.model@;
            let mid = choose|mid: ListCore<F, O>| #[trigger]
                mid.completed(*old(core), t, value) && (if om.info[t as int].member == 0 {
                    *core == mid
                } else {
                    core.released(mid, om.info[t as int].member, me)
                });
            assert forall|x: int| 0 <= x < om.info.len() implies #[trigger] m.info[x] == (if x
                == t {
                TaskInfo { place: Place::Done, ..om.info[x] }
            } else if om.info[x].place is Waiting && m.info[x] != om.info[x] {
                TaskInfo { place: Place::Harvested(me), pos: m.info[x].pos, ..om.info[x] }
            } else {
                om.info[x]
            }) by {}
            assert forall|w: int| 0 <= w < s1.workers.len() implies #[trigger] s1.unit_ok(w) by {
                assert(s0.unit_ok(w));
                if w != me {
                    s0.workers[w].lemma_unit_frame(old(core), core);
                }
            }
            assert forall|x: int| 0 <= x < core.tasks.len() implies #[trigger] s1.housed(x) by {
                assert(s0.housed(x));
                assert(s0.housed(t as int));
            }
            assert forall|x: int| 0 <= x < om.info.len() implies rank(#[trigger] m.info[x].place)
                <= rank(om.info[x].place) by {}
            lemma_rank_strict(om.info, m.info, t as int);
            assert forall|x: int| 0 <= x < old(core).tasks.len() implies #[trigger] once(
                s0,
                s1,
                x,
                Pass::Executed(t),
            ) by {
                assert(old(core).task_wf(x, 0, 0));
            }
            if reprt_handler is Some {
                assert(s0.unit_ok(reprt_handler->0 as int));
            }
            assert(s1.workers =~= s0.workers.update(me as int, s1.workers[me as int]));
        }
    }
}

} // verus!
