//! One worker: its local deque, its victim selection, and the steps it takes
//! on the shared list core.

use vstd::prelude::*;
use crate::list_core::{ends_ok, taken_model, batch_size, ListCore, ListModel, Place, TaskInfo};
use crate::task_list::{empty_slots, TaskList};
use crate::waiting_task::{OutputTrait, TaskTrait, WaitingTask};

verus! {

/// One round of the xorshift generator on 32 bits.
pub open spec fn xorshift32(x: u32) -> u32 {
    let a = x ^ (x << 13);
    let b = a ^ (a >> 17);
    b ^ (b << 5)
}

/// The generator never reaches zero from a seed that is not zero, so it
/// never gets stuck.
pub proof fn lemma_xorshift_nonzero(x: u32)
    requires
        x != 0,
    ensures
        xorshift32(x) != 0,
{
    let a = x ^ (x << 13);
    let b = a ^ (a >> 17);
    let c = b ^ (b << 5);
    assert(a != 0) by (bit_vector)
        requires
            x != 0,
            a == x ^ (x << 13),
    ;
    assert(b != 0) by (bit_vector)
        requires
            a != 0,
            b == a ^ (a >> 17),
    ;
    assert(c != 0) by (bit_vector)
        requires
            b != 0,
            c == b ^ (b << 5),
    ;
}

/// The peer that worker `id` of `total` workers picks from the random number
/// `r`: the worker `1 + r % (total - 1)` places further on, counting round
/// the pool, which is never the worker itself.
pub open spec fn victim_of(id: int, total: int, r: int) -> int {
    let step = 1 + r % (total - 1);
    if id + step < total {
        id + step
    } else {
        id + step - total
    }
}

/// The seed worker `id` starts its generator with.
pub open spec fn seed_of(id: int) -> int {
    id % 0xffff_ffff + 1
}

/// The state of one worker. The workers of a pool sit in one vector and name
/// each other by their index in it.
pub struct ThreadUnit<const Q: usize> {
    /// Index of this worker in the pool.
    pub id: usize,
    /// State of the xorshift generator; never zero.
    pub xorshift_seed: u32,
    /// The local deque: `Q` slots, occupied in `top..bottom`.
    pub queue: Vec<Option<usize>>,
    /// Largest batch the worker asks the list core for.
    pub batch: u32,
    pub top: usize,
    pub bottom: usize,
    /// Number of thieves currently at work on this worker's deque.
    pub threads_active: u64,
    /// Set when the worker found its deque empty, cleared by a refill.
    pub empty_flag: bool,
    /// Newest record of the harvested queue.
    pub start_l_waiting_list: Option<usize>,
    /// Oldest record of the harvested queue.
    pub end_l_waiting_list: Option<usize>,
    /// Number of workers in the pool.
    pub total_threads: usize,
    /// The task whose payload this worker is running, between taking it out
    /// of the deque and storing its result.
    pub running: Option<usize>,
    /// The group the running task is a predecessor in.
    pub running_group: usize,
}

impl<const Q: usize> ThreadUnit<Q> {
    /// The tasks in the deque, from the one that runs next to the one that
    /// runs last.
    pub open spec fn view(&self) -> Seq<usize> {
        Seq::new((self.bottom - self.top) as nat, |j: int| self.queue[self.bottom - 1 - j]->0)
    }

    /// Slot `i` holds a task of this worker if it lies in `top..bottom`, and
    /// nothing otherwise.
    pub open spec fn slot_ok<F: TaskTrait<O>, O: OutputTrait>(
        &self,
        core: &ListCore<F, O>,
        i: int,
    ) -> bool {
        if self.top <= i < self.bottom {
            &&& self.queue[i] is Some
            &&& self.queue[i]->0 < core.tasks.len()
            &&& core.model@.info[self.queue[i]->0 as int].place == Place::Local(self.id)
            &&& core.model@.info[self.queue[i]->0 as int].pos == i
        } else {
            self.queue[i] is None
        }
    }

    /// The shape of a worker on its own.
    pub open spec fn shape(&self) -> bool {
        &&& Q <= u32::MAX
        &&& self.queue.len() == Q
        &&& self.batch == Q
        &&& self.top <= self.bottom <= Q
        &&& self.threads_active < u64::MAX
        &&& self.id < self.total_threads
        &&& self.xorshift_seed != 0
        &&& (self.empty_flag ==> self.top == self.bottom)
    }

    /// The invariant of a worker beside the list core it works on.
    pub open spec fn wf<F: TaskTrait<O>, O: OutputTrait>(&self, core: &ListCore<F, O>) -> bool {
        &&& self.shape()
        &&& forall|i: int| 0 <= i < Q ==> #[trigger] self.slot_ok(core, i)
        &&& ends_ok(
            core.model@.harvested[self.id],
            self.start_l_waiting_list,
            self.end_l_waiting_list,
        )
        &&& (self.running matches Some(t) ==> t < core.tasks.len()
            && core.model@.info[t as int].place
            == Place::Running(self.id) && core.model@.info[t as int].member == self.running_group)
    }

    /// A worker is not affected by changes to the list core that leave its
    /// own tasks and its harvested queue alone.
    pub proof fn lemma_unit_frame<F: TaskTrait<O>, O: OutputTrait>(
        &self,
        old: &ListCore<F, O>,
        new: &ListCore<F, O>,
    )
        requires
            self.wf(old),
            new.tasks.len() >= old.tasks.len(),
            new.model@.harvested[self.id] == old.model@.harvested[self.id],
            forall|x: int|
                0 <= x < old.tasks.len() && ((#[trigger] old.model@.info[x]).place == Place::Local(
                    self.id,
                ) || old.model@.info[x].place == Place::Running(self.id)) ==> new.model@.info[x]
                    == old.model@.info[x],
        ensures
            self.wf(new),
    {
        assert forall|i: int| 0 <= i < Q implies #[trigger] self.slot_ok(new, i) by {
            assert(self.slot_ok(old, i));
        }
    }

    /// A worker with an empty deque of `Q` slots. Fails only when the deque
    /// cannot be built, which is when it would have more slots than a batch
    /// can count.
    pub fn init(id: usize, total_threads: usize) -> (r: Result<ThreadUnit<Q>, &'static str>)
        ensures
            Q > u32::MAX ==> r is Err && r->Err_0
                == "casting vector to array when creating error queue",
            Q <= u32::MAX ==> r is Ok && r->Ok_0.id == id && r->Ok_0.total_threads
                == total_threads && r->Ok_0.top == 0 && r->Ok_0.bottom == 0 && r->Ok_0.queue.len()
                == Q && r->Ok_0.batch == Q && r->Ok_0.empty_flag && r->Ok_0.threads_active == 0
                && r->Ok_0.start_l_waiting_list is None && r->Ok_0.end_l_waiting_list is None
                && r->Ok_0.running is None && r->Ok_0.running_group == 0
                && r->Ok_0.xorshift_seed == seed_of(id as int) && r->Ok_0.xorshift_seed != 0
                && (forall|i: int|
                0 <= i < Q ==> (#[trigger] r->Ok_0.queue[i]) is None),
    {
        if Q > u32::MAX as usize {
            return Err("casting vector to array when creating error queue");
        }
        let queue = empty_slots(Q);
        Ok(
            ThreadUnit {
                id,
                xorshift_seed: ((id % 0xffff_ffff) + 1) as u32,
                queue,
                batch: Q as u32,
                top: 0,
                bottom: 0,
                threads_active: 0,
                empty_flag: true,
                start_l_waiting_list: None,
                end_l_waiting_list: None,
                total_threads,
                running: None,
                running_group: 0,
            },
        )
    }

    /// Advances the generator by one round and returns its new state.
    pub fn xorshift(&mut self) -> (r: u32)
        ensures
            r == xorshift32(old(self).xorshift_seed),
            *final(self) == (ThreadUnit { xorshift_seed: r, ..*old(self) }),
    {
        let mut x = self.xorshift_seed;
        x ^= x << 13;
        x ^= x >> 17;
        x ^= x << 5;
        self.xorshift_seed = x;
        x
    }

    /// Picks the peer to steal from: a pseudo-random worker other than this
    /// one, or none if the pool has no other worker.
    pub fn pick_victim(&mut self) -> (r: Option<usize>)
        requires
            old(self).id < old(self).total_threads,
        ensures
            old(self).total_threads == 1 ==> r is None && *final(self) == *old(self),
            old(self).total_threads > 1 ==> r is Some && r->0 != old(self).id
                && r->0 < old(self).total_threads && r->0 == victim_of(
                old(self).id as int,
                old(self).total_threads as int,
                xorshift32(old(self).xorshift_seed) as int,
            ) && *final(self) == (ThreadUnit {
                xorshift_seed: xorshift32(old(self).xorshift_seed),
                ..*old(self)
            }),
    {
        if self.total_threads <= 1 {
            return None;
        }
        let r = self.xorshift() as usize;
        let step = 1 + r % (self.total_threads - 1);
        let room = self.total_threads - self.id;
        if step < room {
            Some(self.id + step)
        } else {
            Some(step - room)
        }
    }
}

impl<const Q: usize> ThreadUnit<Q> {
    /// `self` is `old` but for the deque and the harvested queue's ends.
    pub open spec fn same_identity(&self, old: Self) -> bool {
        &&& self.id == old.id
        &&& self.total_threads == old.total_threads
        &&& self.xorshift_seed == old.xorshift_seed
        &&& self.batch == old.batch
        &&& self.threads_active == old.threads_active
        &&& self.running == old.running
    }

    /// Tells the group `g` of a task this worker just ran that the task has
    /// completed. Successors that become free join this worker's harvested
    /// queue.
    pub fn dependencies_handler<F: TaskTrait<O>, O: OutputTrait>(
        &mut self,
        core: &mut ListCore<F, O>,
        g: usize,
    )
        requires
            old(core).completion_pending(g),
            g < old(core).dependencies.len(),
            ends_ok(
                old(core).model@.harvested[old(self).id],
                old(self).start_l_waiting_list,
                old(self).end_l_waiting_list,
            ),
        ensures
            final(core).wf(),
            ends_ok(
                final(core).model@.harvested[old(self).id],
                final(self).start_l_waiting_list,
                final(self).end_l_waiting_list,
            ),
            g == 0 ==> *final(core) == *old(core) && *final(self) == *old(self),
            g != 0 ==> final(core).released(*old(core), g, old(self).id),
            *final(self) == (ThreadUnit {
                start_l_waiting_list: final(self).start_l_waiting_list,
                end_l_waiting_list: final(self).end_l_waiting_list,
                ..*old(self)
            }),
    {
        let r = core.release(g, self.id, self.start_l_waiting_list, self.end_l_waiting_list);
        self.start_l_waiting_list = r.0;
        self.end_l_waiting_list = r.1;
    }

    /// `self` is `old` after the task in its lowest occupied slot was taken
    /// out to be run, and `record` is the record of that task.
    pub open spec fn took<F: TaskTrait<O>, O: OutputTrait>(
        &self,
        old: Self,
        core: ListCore<F, O>,
        record: WaitingTask<F, O>,
    ) -> bool {
        let t = old.queue[old.bottom - 1]->0;
        &&& old.queue[old.bottom - 1] is Some
        &&& t < core.tasks.len()
        &&& core.model@.info[t as int].place == Place::Local(old.id)
        &&& record.id == t
        &&& Some(record) == core.tasks[t as int]
        &&& record.task == core.payloads@[t as int]
        &&& *self == (ThreadUnit {
            queue: self.queue,
            bottom: (old.bottom - 1) as usize,
            running: Some(t),
            running_group: record.task_dependencies_ptr,
            ..old
        })
        &&& self.queue@ == old.queue@.update(old.bottom - 1, None)
    }

    /// Takes the task in the lowest occupied slot out of the deque and hands
    /// its record to the caller, who runs the payload and reports the value
    /// with [`Self::finish_running`].
    pub fn take_bottom<F: TaskTrait<O>, O: OutputTrait>(
        &mut self,
        core: &mut ListCore<F, O>,
    ) -> (record: WaitingTask<F, O>)
        requires
            old(core).wf(),
            old(self).wf(old(core)),
            old(self).top < old(self).bottom,
            old(self).running is None,
        ensures
            final(core).wf(),
            final(self).wf(final(core)),
            final(self).took(*old(self), *old(core), record),
            final(core).taken(*old(core), old(self).queue[old(self).bottom - 1]->0),
    {
        let b = self.bottom;
        proof {
            assert(self.slot_ok(core, b - 1));
        }
        let t = self.queue[b - 1].unwrap();
        proof {
            assert(core.task_wf(t as int, 0, 0));
        }
        let record = core.take_task(t);
        self.queue[b - 1] = None;
        self.bottom = b - 1;
        self.running = Some(t);
        self.running_group = record.task_dependencies_ptr;
        proof {
            assert forall|i: int| 0 <= i < Q implies #[trigger] self.slot_ok(core, i) by {
                assert(old(self).slot_ok(old(core), i));
            }
        }
        record
    }

    /// Stores `value`, which the payload of the running task returned, in the
    /// task's result slot, tells the task's group, and counts the task as
    /// completed.
    pub fn finish_running<F: TaskTrait<O>, O: OutputTrait>(
        &mut self,
        core: &mut ListCore<F, O>,
        done_task: &mut u64,
        value: O,
    )
        requires
            old(core).wf(),
            old(self).wf(old(core)),
            old(self).running is Some,
            call_ensures(F::exec, (&old(core).payloads@[old(self).running->0 as int],), value),
            *old(done_task) == old(core).done_set().len(),
        ensures
            final(core).wf(),
            final(self).wf(final(core)),
            final(core).finished(*old(core), old(self).running->0, value, old(self).id),
            *final(self) == (ThreadUnit {
                running: None,
                start_l_waiting_list: final(self).start_l_waiting_list,
                end_l_waiting_list: final(self).end_l_waiting_list,
                ..*old(self)
            }),
            *final(done_task) == *old(done_task) + 1,
            *final(done_task) == final(core).done_set().len(),
    {
        let t = self.running.unwrap();
        proof {
            assert(core.task_wf(t as int, 0, 0));
        }
        let g = self.running_group;
        core.complete_task(t, g, value);
        let ghost mid = *core;
        self.dependencies_handler(core, g);
        self.running = None;
        proof {
            assert(mid.completed(*old(core), t, value));
            assert(core.finished(*old(core), t, value, self.id));
            assert(core.done_set() =~= old(core).done_set().insert(t as int));
            old(core).lemma_done_bound();
            core.lemma_done_bound();
            assert(usize::MAX <= u64::MAX);
            assert forall|i: int| 0 <= i < Q implies #[trigger] self.slot_ok(core, i) by {
                assert(old(self).slot_ok(old(core), i));
            }
        }
        *done_task = *done_task + 1;
    }

    /// Runs the task in the lowest occupied slot of the deque: the payload is
    /// invoked once, its value is stored in the task's result slot, the
    /// task's group is told, and the count of completed tasks goes up by one.
    pub fn execute_bottom<F: TaskTrait<O>, O: OutputTrait>(
        &mut self,
        core: &mut ListCore<F, O>,
        done_task: &mut u64,
    ) -> (t: usize)
        requires
            old(core).wf(),
            old(self).wf(old(core)),
            old(self).top < old(self).bottom,
            old(self).running is None,
            *old(done_task) == old(core).done_set().len(),
        ensures
            final(core).wf(),
            final(self).wf(final(core)),
            Some(t) == old(self).queue[old(self).bottom - 1],
            t < old(core).tasks.len(),
            old(core).model@.info[t as int].place == Place::Local(old(self).id),
            final(self).same_identity(*old(self)),
            final(self).top == old(self).top,
            final(self).bottom == old(self).bottom - 1,
            final(self).queue@ == old(self).queue@.update(old(self).bottom - 1, None),
            final(self).empty_flag == old(self).empty_flag,
            exists|value: O|
                call_ensures(F::exec, (&old(core).payloads@[t as int],), value)
                    && #[trigger] final(core).finished(*old(core), t, value, old(self).id),
            *final(done_task) == *old(done_task) + 1,
            *final(done_task) == final(core).done_set().len(),
    {
        proof {
            old(core).lemma_done_bound();
        }
        let record = self.take_bottom(core);
        let t = self.running.unwrap();
        let ghost taken = *core;
        let value = record.task.exec();
        let ghost produced = value;
        proof {
            assert(t == record.id);
            assert(t == old(self).queue[old(self).bottom - 1]->0);
            assert(core.model@.info.len() == old(core).model@.info.len());
            assert forall|x: int| core.done_set().contains(x) == old(core).done_set().contains(
                x,
            ) by {
                if 0 <= x < core.model@.info.len() && x != t {
                    assert(core.model@.info[x] == old(core).model@.info[x]);
                }
            }
            assert(core.done_set() =~= old(core).done_set());
        }
        self.finish_running(core, done_task, value);
        proof {
            let g = old(core).model@.info[t as int].member;
            let mid = choose|mid: ListCore<F, O>| #[trigger]
                mid.completed(taken, t, produced) && (if g == 0 {
                    *core == mid
                } else {
                    core.released(mid, g, self.id)
                });
            assert(mid.tasks@ =~= old(core).tasks@.update(t as int, None));
            assert(mid.model@.info =~= old(core).model@.info.update(
                t as int,
                TaskInfo { place: Place::Done, ..old(core).model@.info[t as int] },
            ));
            assert(mid.completed(*old(core), t, produced));
            assert(core.finished(*old(core), t, produced, self.id));
        }
        t
    }

    /// Replaces the deque wholesale by a batch.
    pub fn install(&mut self, list: TaskList<Q>)
        requires
            list.wf(),
        ensures
            *final(self) == (ThreadUnit {
                queue: list.list,
                top: list.top as usize,
                bottom: list.bottom as usize,
                empty_flag: false,
                ..*old(self)
            }),
    {
        self.queue = list.list;
        self.top = list.top as usize;
        self.bottom = list.bottom as usize;
        self.empty_flag = false;
    }

    /// Refills the empty deque with a batch from the primary queue. Only the
    /// representative may call this. Returns the number of tasks taken, or
    /// nothing if the primary queue is empty.
    pub fn refill<F: TaskTrait<O>, O: OutputTrait>(&mut self, core: &mut ListCore<F, O>) -> (r:
        Option<usize>)
        requires
            old(core).wf(),
            old(self).wf(old(core)),
            old(self).top == old(self).bottom,
        ensures
            final(core).wf(),
            final(self).wf(final(core)),
            old(core).primary_view().len() == 0 ==> r is None && *final(core) == *old(core)
                && *final(self) == *old(self),
            old(core).primary_view().len() > 0 ==> r is Some && r->0 == batch_size(
                Q as int,
                Q as int,
                old(core).primary_view().len() as int,
            ) && final(core).only_model_changed(
                *old(core),
                taken_model(old(core).model@, r->0 as int, old(self).id, Q as int),
            ) && final(self)@ == old(core).primary_view().take(r->0 as int) && final(self).top == Q
                - r->0 && final(self).bottom == Q && !final(self).empty_flag
                && final(self).same_identity(*old(self)) && final(self).start_l_waiting_list
                == old(self).start_l_waiting_list && final(self).end_l_waiting_list
                    == old(self).end_l_waiting_list,
    {
        match core.get_waiting_task_from_primary_stack::<Q>(self.batch, self.id) {
            Ok(list) => {
                let count = list.count as usize;
                let ghost batch = list;
                self.install(list);
                proof {
                    let q = old(core).model@.primary;
                    assert forall|i: int| 0 <= i < Q implies #[trigger] self.slot_ok(core, i) by {
                        if Q - count <= i {
                            let j = Q - 1 - i;
                            assert(batch@[j] == q[j]);
                            assert(old(core).link_ok(q, j, Place::Primary));
                        }
                    }
                    assert(self@ =~= q.take(count as int));
                }
                Some(count)
            },
            Err(_) => None,
        }
    }

    /// Hands the harvested queue over to the primary queue. Only the
    /// representative may call this.
    pub fn merge_harvested<F: TaskTrait<O>, O: OutputTrait>(&mut self, core: &mut ListCore<F, O>)
        requires
            old(core).wf(),
            old(self).wf(old(core)),
        ensures
            final(core).wf(),
            final(self).wf(final(core)),
            *final(self) == (ThreadUnit {
                start_l_waiting_list: None,
                end_l_waiting_list: None,
                ..*old(self)
            }),
            old(core).model@.harvested[old(self).id].len() == 0 ==> *final(core) == *old(core),
            old(core).model@.harvested[old(self).id].len() > 0 ==> final(core).moved(
                *old(core),
                Place::Harvested(old(self).id),
                Place::Primary,
            ) && final(core).dependencies == old(core).dependencies && final(core).swap_start
                == old(core).swap_start && final(core).swap_end == old(core).swap_end,
    {
        core.insert_list_from_harvesting(
            self.start_l_waiting_list,
            self.end_l_waiting_list,
            self.id,
        );
        self.start_l_waiting_list = None;
        self.end_l_waiting_list = None;
        proof {
            assert forall|i: int| 0 <= i < Q implies #[trigger] self.slot_ok(core, i) by {
                assert(old(self).slot_ok(old(core), i));
            }
        }
    }
}

/// The model after worker `thief` took the tasks in the slots
/// `top .. top + half` of worker `victim`; the task in slot `top` lands in
/// slot `cap - 1` of the thief.
pub open spec fn stolen_model(
    om: ListModel,
    victim: usize,
    top: int,
    half: int,
    thief: usize,
    cap: int,
) -> ListModel {
    ListModel {
        info: Seq::new(
            om.info.len(),
            |x: int|
                if om.info[x].place == Place::Local(victim) && top <= om.info[x].pos < top + half {
                    TaskInfo {
                        place: Place::Local(thief),
                        pos: cap - 1 - (om.info[x].pos - top),
                        ..om.info[x]
                    }
                } else {
                    om.info[x]
                },
        ),
        ..om
    }
}

impl<const Q: usize> ThreadUnit<Q> {
    /// Whether a thief finds something worth taking: the worker does not
    /// report itself empty and holds at least two tasks.
    pub open spec fn worth_stealing(&self) -> bool {
        !self.empty_flag && self.bottom - self.top > 1
    }

    /// `self` is `old` after it gave the lower half of its tasks away in the
    /// batch `loot`.
    pub open spec fn yielded(&self, old: Self, loot: TaskList<Q>) -> bool {
        &&& loot.wf()
        &&& loot.count == (old.bottom - old.top) / 2
        &&& forall|j: int|
            0 <= j < loot.count ==> #[trigger] loot.list[Q - 1 - j] == old.queue[old.top + j]
        &&& self.top == old.top + loot.count
        &&& self.bottom == old.bottom
        &&& self.same_identity(old)
        &&& self.empty_flag == old.empty_flag
        &&& self.start_l_waiting_list == old.start_l_waiting_list
        &&& self.end_l_waiting_list == old.end_l_waiting_list
        &&& forall|i: int|
            0 <= i < Q ==> #[trigger] self.queue[i] == (if old.top <= i < self.top {
                None
            } else {
                old.queue[i]
            })
    }

    /// The victim's side of a steal by worker `thief`. The thief registers
    /// with the busy counter, gives up if the deque is reported empty or holds
    /// fewer than two tasks, and otherwise claims the half of the occupied
    /// range that starts at `top`, copies its tasks out into a fresh batch,
    /// oldest claim first, and leaves.
    pub fn yield_half<F: TaskTrait<O>, O: OutputTrait>(
        &mut self,
        thief: usize,
        core: &mut ListCore<F, O>,
    ) -> (r: Option<TaskList<Q>>)
        requires
            old(core).wf(),
            old(self).wf(old(core)),
            thief != old(self).id,
        ensures
            final(core).wf(),
            final(self).wf(final(core)),
            !old(self).worth_stealing() ==> r is None && *final(self) == *old(self) && *final(core)
                == *old(core),
            old(self).worth_stealing() ==> r is Some && final(self).yielded(
                *old(self),
                r->0,
            ) && final(core).only_model_changed(
                *old(core),
                stolen_model(
                    old(core).model@,
                    old(self).id,
                    old(self).top as int,
                    r->0.count as int,
                    thief,
                    Q as int,
                ),
            ) && final(core).start == old(core).start && final(core).end == old(core).end,
    {
        // knock
        self.threads_active = self.threads_active + 1;
        if self.empty_flag {
            self.threads_active = self.threads_active - 1;
            return None;
        }
        let top = self.top;
        let bottom = self.bottom;
        if top >= bottom {
            self.threads_active = self.threads_active - 1;
            return None;
        }
        let size = bottom - top;
        if size <= 1 {
            self.threads_active = self.threads_active - 1;
            return None;
        }
        let half = size / 2;
        let new_top = top + half;
        // claim the range
        self.top = new_top;
        let mut list = empty_slots(Q);
        let mut count: usize = 0;
        let mut index: usize = top;
        while index < new_top
            invariant
                old(self).wf(old(core)),
                top == old(self).top,
                new_top <= old(self).bottom,
                top <= index <= new_top,
                count == index - top,
                list.len() == Q,
                self.queue.len() == Q,
                forall|i: int|
                    0 <= i < Q ==> #[trigger] self.queue[i] == (if top <= i < index {
                        None
                    } else {
                        old(self).queue[i]
                    }),
                forall|i: int| 0 <= i < Q ==> ((#[trigger] list[i]) is Some <==> Q - count <= i),
                forall|j: int|
                    0 <= j < count ==> #[trigger] list[Q - 1 - j] == old(self).queue[top + j],
                *self == (ThreadUnit { queue: self.queue, ..*self }),
                self.id == old(self).id,
                self.total_threads == old(self).total_threads,
                self.xorshift_seed == old(self).xorshift_seed,
                self.batch == old(self).batch,
                self.threads_active == old(self).threads_active + 1,
                self.top == new_top,
                self.bottom == old(self).bottom,
                self.empty_flag == old(self).empty_flag,
                self.start_l_waiting_list == old(self).start_l_waiting_list,
                self.end_l_waiting_list == old(self).end_l_waiting_list,
                self.running == old(self).running,
                self.running_group == old(self).running_group,
            decreases new_top - index,
        {
            proof {
                assert(old(self).slot_ok(old(core), index as int));
            }
            let ghost prev = list@;
            let task = self.queue[index];
            self.queue[index] = None;
            match task {
                Some(t) => {
                    list[Q - 1 - count] = Some(t);
                    proof {
                        assert forall|j: int| 0 <= j < count + 1 implies #[trigger] list[Q - 1
                            - j] == old(self).queue[top + j] by {
                            if j < count {
                                assert(prev[Q - 1 - j] == old(self).queue[top + j]);
                            }
                        }
                    }
                    count += 1;
                },
                None => {},
            }
            index += 1;
        }
        // leave
        self.threads_active = self.threads_active - 1;
        proof {
            let om = old(core).model@;
            core.model@ = stolen_model(om, old(self).id, top as int, half as int, thief, Q as int);
            ListCore::lemma_relocate(*old(core), *core, 0, 0);
            assert forall|i: int| 0 <= i < Q implies #[trigger] self.slot_ok(core, i) by {
                assert(old(self).slot_ok(old(core), i));
            }
            if self.running is Some {
                assert(core.model@.info[self.running->0 as int] == om.info[self.running->0 as int]);
            }
        }
        Some(TaskList { list, count: count as u64, top: (Q - count) as u64, bottom: Q as u64 })
    }

    /// The state of a worker after it left and its deque was released: no
    /// slot holds a task and the occupied range is reset.
    pub open spec fn released(&self) -> bool {
        &&& self.top == 0
        &&& self.bottom == 0
        &&& forall|i: int| 0 <= i < Q ==> (#[trigger] self.queue[i]) is None
    }

    /// Releases what an exited worker still holds: every slot of the deque is
    /// cleared and the occupied range is reset. An exited worker has run
    /// every task it took, so it holds no task in its deque and runs none.
    pub fn clean(&mut self)
        requires
            old(self).shape(),
            old(self).top == old(self).bottom,
            old(self).running is None,
        ensures
            final(self).shape(),
            final(self).released(),
            final(self).running is None,
            final(self).same_identity(*old(self)),
            final(self).running_group == old(self).running_group,
            final(self).empty_flag == old(self).empty_flag,
            final(self).start_l_waiting_list == old(self).start_l_waiting_list,
            final(self).end_l_waiting_list == old(self).end_l_waiting_list,
    {
        self.queue = empty_slots(Q);
        self.top = 0;
        self.bottom = 0;
    }
}

} // verus!
