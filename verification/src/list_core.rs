//! The shared side of the runtime: the arena of task records, their result
//! slots and dependency descriptors, and the global list that tasks enter
//! through.
//!
//! The global list is two queues threaded through the records' `next` links.
//! Producers append to the *swap* queue; the representative worker moves the
//! whole swap queue onto the *primary* queue and takes batches from the
//! primary queue's old end. Successors of a dependency group wait in a queue
//! of their own and pass through the *harvested* queue of the worker that
//! completed the group. Every queue is described by a sequence of arena
//! indices, oldest first, kept beside the links as ghost state.

use core::marker::PhantomData;
use vstd::prelude::*;
use crate::task_dependencies::{ArrTaskDependenciesTrait, TaskDependencies, TaskDependenciesCore};
use crate::task_list::{empty_slots, TaskList};
use crate::waiting::{ResultSlot, ResultSlots, Waiting};
use crate::waiting_task::{OutputTrait, TaskTrait, WaitingTask};

verus! {

/// Where a task currently is. A task is in exactly one place.
pub enum Place {
    /// Queued in the swap queue.
    Swap,
    /// Queued in the primary queue.
    Primary,
    /// Queued behind the outstanding predecessors of a group.
    Waiting(usize),
    /// Released by a group and held in a worker's harvested queue.
    Harvested(usize),
    /// In a slot of a worker's local deque.
    Local(usize),
    /// Taken out of a worker's deque to be run; the record has left the
    /// arena.
    Running(usize),
    /// Executed; the record is freed and the result slot is written.
    Done,
}

/// What the model records of one task.
pub ghost struct TaskInfo {
    pub place: Place,
    /// Position inside the container that `place` names.
    pub pos: int,
    /// The group the task is a predecessor in (`0`: none).
    pub member: usize,
    /// The group the task was submitted after (`0`: none).
    pub after: usize,
}

/// The mathematical state of a [`ListCore`].
#[verifier::ext_equal]
pub ghost struct ListModel {
    /// One entry per submitted task, indexed by task id.
    pub info: Seq<TaskInfo>,
    /// The swap queue, oldest first.
    pub swap: Seq<usize>,
    /// The primary queue, oldest first.
    pub primary: Seq<usize>,
    /// Per group, the successors queued behind it, oldest first.
    pub waiting: Seq<Seq<usize>>,
    /// Per worker, the successors it released and still holds, oldest first.
    pub harvested: Map<usize, Seq<usize>>,
}

/// The end pointers that belong to a queue with contents `q`.
pub open spec fn ends_ok(q: Seq<usize>, start: Option<usize>, end: Option<usize>) -> bool {
    if q.len() == 0 {
        start is None && end is None
    } else {
        end == Some(q[0]) && start == Some(q[q.len() - 1])
    }
}

/// The newest record of a queue, if it has one.
pub open spec fn tail_of(q: Seq<usize>) -> Option<usize> {
    if q.len() == 0 {
        None
    } else {
        Some(q[q.len() - 1])
    }
}

/// Two arena slots that hold the same record up to its `next` link.
pub open spec fn same_record<F: TaskTrait<O>, O: OutputTrait>(
    a: Option<WaitingTask<F, O>>,
    b: Option<WaitingTask<F, O>>,
) -> bool {
    match (a, b) {
        (None, None) => true,
        (Some(x), Some(y)) => x.id == y.id && x.task == y.task && x.waiting_return_ptr
            == y.waiting_return_ptr && x.task_dependencies_ptr == y.task_dependencies_ptr,
        _ => false,
    }
}

/// The queue that `tag` names.
pub open spec fn queue_of(m: ListModel, tag: Place) -> Seq<usize> {
    match tag {
        Place::Swap => m.swap,
        Place::Primary => m.primary,
        Place::Waiting(g) => m.waiting[g as int],
        Place::Harvested(w) => m.harvested[w],
        _ => Seq::empty(),
    }
}

/// The model with the queue that `tag` names replaced by `q`.
pub open spec fn with_queue(m: ListModel, tag: Place, q: Seq<usize>) -> ListModel {
    match tag {
        Place::Swap => ListModel { swap: q, ..m },
        Place::Primary => ListModel { primary: q, ..m },
        Place::Waiting(g) => ListModel { waiting: m.waiting.update(g as int, q), ..m },
        Place::Harvested(w) => ListModel { harvested: m.harvested.insert(w, q), ..m },
        _ => m,
    }
}

/// The model after a new task `t` joined the queue `tag` as its newest.
pub open spec fn enqueued_model(
    om: ListModel,
    t: usize,
    tag: Place,
    member: usize,
    after: usize,
) -> ListModel {
    with_queue(
        ListModel {
            info: om.info.push(
                TaskInfo { place: tag, pos: queue_of(om, tag).len() as int, member, after },
            ),
            ..om
        },
        tag,
        queue_of(om, tag).push(t),
    )
}

/// The model after the whole queue `src` was appended to the queue `dst`,
/// keeping its order.
pub open spec fn moved_model(om: ListModel, src: Place, dst: Place) -> ListModel {
    let shift = queue_of(om, dst).len();
    with_queue(
        with_queue(
            ListModel {
                info: Seq::new(
                    om.info.len(),
                    |x: int|
                        if om.info[x].place == src {
                            TaskInfo { place: dst, pos: om.info[x].pos + shift, ..om.info[x] }
                        } else {
                            om.info[x]
                        },
                ),
                ..om
            },
            dst,
            queue_of(om, dst) + queue_of(om, src),
        ),
        src,
        Seq::empty(),
    )
}

/// The model after the `k` oldest tasks of the primary queue moved into the
/// deque of worker `owner`, the oldest into slot `cap - 1`.
pub open spec fn taken_model(om: ListModel, k: int, owner: usize, cap: int) -> ListModel {
    ListModel {
        info: Seq::new(
            om.info.len(),
            |x: int|
                if om.info[x].place is Primary {
                    if om.info[x].pos < k {
                        TaskInfo {
                            place: Place::Local(owner),
                            pos: cap - 1 - om.info[x].pos,
                            ..om.info[x]
                        }
                    } else {
                        TaskInfo { pos: om.info[x].pos - k, ..om.info[x] }
                    }
                } else {
                    om.info[x]
                },
        ),
        primary: om.primary.skip(k),
        ..om
    }
}

/// How many tasks a batch of at most `len` tasks takes out of a queue of
/// `available` tasks, for a buffer of `cap` slots.
pub open spec fn batch_size(len: int, cap: int, available: int) -> int {
    if len <= cap && len <= available {
        len
    } else if cap <= available {
        cap
    } else {
        available
    }
}

/// By how much the counter of group `g` exceeds its outstanding predecessors
/// while group `open` has `missing` predecessors counted in advance.
pub open spec fn extra(g: int, open: usize, missing: nat) -> nat {
    if g == open {
        missing
    } else {
        0
    }
}

/// The arena of task records with their result slots and dependency
/// descriptors, and the two queues of the global list.
///
/// Every method is one indivisible step. A pool that is shared between
/// threads has to take its steps one at a time.
pub struct ListCore<F, O> where F: TaskTrait<O>, O: OutputTrait {
    /// The id the next submitted task gets.
    pub id_counter: u64,
    /// Newest record of the primary queue.
    pub start: Option<usize>,
    /// Oldest record of the primary queue.
    pub end: Option<usize>,
    /// Number of tasks submitted so far.
    pub in_task: u64,
    /// Newest record of the swap queue.
    pub swap_start: Option<usize>,
    /// Oldest record of the swap queue.
    pub swap_end: Option<usize>,
    /// The arena: slot `t` holds the record of task `t` until it has run.
    pub tasks: Vec<Option<WaitingTask<F, O>>>,
    /// Slot `t` receives the value task `t` produces.
    pub results: ResultSlots<O>,
    /// The dependency descriptors; index `0` is the sentinel.
    pub dependencies: Vec<TaskDependenciesCore>,
    /// Where every task is and what every queue holds.
    pub model: Ghost<ListModel>,
    /// The payload every task was submitted with, indexed by task id.
    pub payloads: Ghost<Seq<F>>,
}

impl<F, O> ListCore<F, O> where F: TaskTrait<O>, O: OutputTrait {
    /// The swap queue, oldest task first.
    pub open spec fn swap_view(&self) -> Seq<usize> {
        self.model@.swap
    }

    /// The primary queue, oldest task first.
    pub open spec fn primary_view(&self) -> Seq<usize> {
        self.model@.primary
    }

    /// Number of tasks submitted so far.
    pub open spec fn task_count(&self) -> nat {
        self.tasks.len() as nat
    }

    /// Where task `t` is.
    pub open spec fn place_of(&self, t: int) -> Place {
        self.model@.info[t].place
    }

    /// Whether task `t` has completed.
    pub open spec fn is_done(&self, t: int) -> bool {
        self.model@.info[t].place is Done
    }

    /// Task `t` has run and its result slot is written.
    pub open spec fn has_run(&self, t: int) -> bool {
        self.model@.info[t].place is Done && !(self.results@[t] is Empty)
    }

    /// Task `t` is in `self` what it was in `old`: the same payload with the
    /// same ties to dependency groups.
    pub open spec fn kept(&self, old: Self, t: int) -> bool {
        &&& self.payloads@[t] == old.payloads@[t]
        &&& self.model@.info[t].member == old.model@.info[t].member
        &&& self.model@.info[t].after == old.model@.info[t].after
    }

    /// Whether `g` names a group with predecessors still outstanding.
    pub open spec fn outstanding(&self, g: usize) -> bool {
        0 < g < self.dependencies.len() && self.dependencies[g as int].counter > 0
    }

    /// Record `q[i]` sits at position `i` of the queue `q` tagged `tag` and is
    /// linked to its successor in `q`.
    pub open spec fn link_ok(&self, q: Seq<usize>, i: int, tag: Place) -> bool {
        let t = q[i] as int;
        &&& t < self.tasks.len()
        &&& self.tasks[t] is Some
        &&& self.model@.info[t].place == tag
        &&& self.model@.info[t].pos == i
        &&& self.tasks[t]->0.next == (if i + 1 < q.len() {
            Some(q[i + 1])
        } else {
            None::<usize>
        })
    }

    /// The records of the queue `q` tagged `tag` are linked in the order of
    /// `q`, and the model knows each of them to be at its position in `q`.
    pub open spec fn chain_wf(&self, q: Seq<usize>, tag: Place) -> bool {
        forall|i: int| 0 <= i < q.len() ==> #[trigger] self.link_ok(q, i, tag)
    }

    /// The predecessors of group `g` that have not completed.
    pub open spec fn pending(&self, g: usize) -> Set<int> {
        Set::new(
            |t: int|
                0 <= t < self.model@.info.len() && self.model@.info[t].member == g && !(
                self.model@.info[t].place is Done),
        )
    }

    /// The tasks that have completed.
    pub open spec fn done_set(&self) -> Set<int> {
        Set::new(|t: int| 0 <= t < self.model@.info.len() && self.model@.info[t].place is Done)
    }

    /// The descriptor of group `g` fits the model: its successors are
    /// chained, its counter is the number of its outstanding predecessors,
    /// and successors wait only while a predecessor is outstanding.
    pub open spec fn group_wf(&self, g: int, open: usize, missing: nat) -> bool {
        let d = self.dependencies[g];
        let q = self.model@.waiting[g];
        &&& self.chain_wf(q, Place::Waiting(g as usize))
        &&& (g == 0 ==> !d.status && d.counter == 0)
        &&& (g > 0 ==> d.status && self.pending(g as usize).finite() && d.counter
            == self.pending(g as usize).len() + extra(g, open, missing))
        &&& (q.len() > 0 ==> d.counter > 0)
    }

    /// The end pointers of group `g` fit its queue of successors.
    pub open spec fn group_ends(&self, g: int) -> bool {
        ends_ok(self.model@.waiting[g], self.dependencies[g].start, self.dependencies[g].end)
    }

    /// What holds of task `t`: its record is in the arena until it is taken
    /// out to run, its result slot is written exactly once it is done, a
    /// stored result is a value its payload returned, the task is where the
    /// model says, and it has left the queue of the group it was submitted
    /// after only if that group is satisfied.
    pub open spec fn task_wf(&self, t: int, open: usize, missing: nat) -> bool {
        let i = self.model@.info[t];
        let m = self.model@;
        &&& (i.place is Done || i.place is Running <==> self.tasks[t] is None)
        &&& (i.place is Done <==> !(self.results@[t] is Empty))
        &&& (self.tasks[t] matches Some(r) ==> r.id == t && r.waiting_return_ptr == t
            && r.task_dependencies_ptr == i.member && r.task == self.payloads@[t])
        &&& (self.results@[t] matches ResultSlot::Ready(v) ==> call_ensures(
            F::exec,
            (&self.payloads@[t],),
            v,
        ))
        &&& i.member < self.dependencies.len()
        &&& i.after < self.dependencies.len()
        &&& (i.member != 0 ==> i.after == 0)
        &&& match i.place {
            Place::Swap => 0 <= i.pos < m.swap.len() && m.swap[i.pos] == t,
            Place::Primary => 0 <= i.pos < m.primary.len() && m.primary[i.pos] == t,
            Place::Waiting(g) => 0 < g < self.dependencies.len() && g == i.after && 0 <= i.pos
                < m.waiting[g as int].len() && m.waiting[g as int][i.pos] == t,
            Place::Harvested(w) => 0 <= i.pos < m.harvested[w].len() && m.harvested[w][i.pos]
                == t,
            Place::Local(_) => true,
            Place::Running(_) => true,
            Place::Done => true,
        }
        &&& (i.after != 0 && !(i.place is Waiting) ==> self.dependencies[i.after as int].counter
            == extra(i.after as int, open, missing))
    }

    /// The invariant without the end pointers of the queues, while group
    /// `open` has `missing` predecessors counted that are not pending.
    pub open spec fn chains(&self, open: usize, missing: nat) -> bool {
        let m = self.model@;
        let n = self.tasks.len();
        &&& self.id_counter == n
        &&& self.in_task == n
        &&& self.results@.len() == n
        &&& m.info.len() == n
        &&& self.payloads@.len() == n
        &&& self.dependencies.len() >= 1
        &&& m.waiting.len() == self.dependencies.len()
        &&& m.harvested.dom() == Set::<usize>::full()
        &&& self.chain_wf(m.swap, Place::Swap)
        &&& self.chain_wf(m.primary, Place::Primary)
        &&& forall|g: int|
            0 <= g < self.dependencies.len() ==> #[trigger] self.group_wf(g, open, missing)
        &&& forall|w: usize| #[trigger] self.chain_wf(m.harvested[w], Place::Harvested(w))
        &&& forall|t: int| 0 <= t < n ==> #[trigger] self.task_wf(t, open, missing)
    }

    /// The end pointers kept in the list core fit their queues.
    pub open spec fn ends(&self) -> bool {
        let m = self.model@;
        &&& ends_ok(m.swap, self.swap_start, self.swap_end)
        &&& ends_ok(m.primary, self.start, self.end)
        &&& forall|g: int| 0 <= g < self.dependencies.len() ==> #[trigger] self.group_ends(g)
    }

    /// The invariant while group `open` has `missing` predecessors counted
    /// that are not pending.
    pub open spec fn inv(&self, open: usize, missing: nat) -> bool {
        self.chains(open, missing) && self.ends()
    }

    /// The invariant of the list core.
    pub open spec fn wf(&self) -> bool {
        self.inv(0, 0)
    }

    /// The state right after task `t` of group `g` completed and before the
    /// group took note of it.
    pub open spec fn completion_pending(&self, g: usize) -> bool {
        self.inv(
            g,
            if g != 0 {
                1
            } else {
                0
            },
        )
    }

    /// A chain stays well formed when no record of its tag was touched.
    pub proof fn lemma_chain_frame(old: Self, new: Self, q: Seq<usize>, tag: Place)
        requires
            old.chain_wf(q, tag),
            new.tasks.len() >= old.tasks.len(),
            new.model@.info.len() >= old.model@.info.len(),
            old.model@.info.len() == old.tasks.len(),
            forall|t: int|
                0 <= t < old.tasks.len() && (#[trigger] old.model@.info[t]).place == tag
                    ==> new.tasks[t] == old.tasks[t] && new.model@.info[t] == old.model@.info[t],
        ensures
            new.chain_wf(q, tag),
    {
        assert forall|i: int| 0 <= i < q.len() implies #[trigger] new.link_ok(q, i, tag) by {
            assert(old.link_ok(q, i, tag));
        }
    }

    /// The chains do not depend on any end pointer.
    pub proof fn lemma_chains_transfer(a: Self, b: Self, open: usize, missing: nat)
        requires
            a.chains(open, missing),
            b.tasks == a.tasks,
            b.model == a.model,
            b.payloads == a.payloads,
            b.results == a.results,
            b.dependencies.len() == a.dependencies.len(),
            forall|g: int|
                0 <= g < a.dependencies.len() ==> (#[trigger] b.dependencies[g]).status
                    == a.dependencies[g].status && b.dependencies[g].counter
                    == a.dependencies[g].counter,
            b.id_counter == a.id_counter,
            b.in_task == a.in_task,
        ensures
            b.chains(open, missing),
    {
        let m = a.model@;
        Self::lemma_chain_frame(a, b, m.swap, Place::Swap);
        Self::lemma_chain_frame(a, b, m.primary, Place::Primary);
        assert forall|w: usize| #[trigger] b.chain_wf(m.harvested[w], Place::Harvested(w)) by {
            assert(a.chain_wf(m.harvested[w], Place::Harvested(w)));
            Self::lemma_chain_frame(a, b, m.harvested[w], Place::Harvested(w));
        }
        assert forall|g: int| 0 <= g < b.dependencies.len() implies #[trigger] b.group_wf(
            g,
            open,
            missing,
        ) by {
            assert(a.group_wf(g, open, missing));
            Self::lemma_chain_frame(a, b, m.waiting[g], Place::Waiting(g as usize));
            assert(b.pending(g as usize) =~= a.pending(g as usize));
        }
        assert forall|x: int| 0 <= x < b.tasks.len() implies #[trigger] b.task_wf(
            x,
            open,
            missing,
        ) by {
            assert(a.task_wf(x, open, missing));
            let after = a.model@.info[x].after as int;
            assert(b.dependencies[after].counter == a.dependencies[after].counter);
        }
    }

    /// An empty list core: no tasks, no groups but the sentinel.
    pub fn init() -> (r: ListCore<F, O>)
        ensures
            r.wf(),
            r.task_count() == 0,
            r.swap_view() == Seq::<usize>::empty(),
            r.primary_view() == Seq::<usize>::empty(),
            r.dependencies.len() == 1,
            forall|w: usize| (#[trigger] r.model@.harvested[w]).len() == 0,
    {
        let mut dependencies: Vec<TaskDependenciesCore> = Vec::new();
        dependencies.push(TaskDependenciesCore::dummy());
        let r = ListCore {
            id_counter: 0,
            start: None,
            end: None,
            in_task: 0,
            swap_start: None,
            swap_end: None,
            tasks: Vec::new(),
            results: ResultSlots { slots: Vec::new() },
            dependencies,
            model: Ghost(
                ListModel {
                    info: Seq::empty(),
                    swap: Seq::empty(),
                    primary: Seq::empty(),
                    waiting: seq![Seq::empty()],
                    harvested: Map::total(|w: usize| Seq::<usize>::empty()),
                },
            ),
            payloads: Ghost(Seq::empty()),
        };
        proof {
            assert(r.group_wf(0, 0, 0));
            assert(r.group_ends(0));
            assert(r.model@.harvested.dom() =~= Set::<usize>::full());
        }
        r
    }

    /// Whether the primary queue holds no task.
    pub fn is_primary_list_empty(&self) -> (b: bool)
        requires
            self.wf(),
        ensures
            b <==> self.primary_view().len() == 0,
    {
        self.end.is_none()
    }

    /// Sets the `next` link of record `p`.
    fn set_next(&mut self, p: usize, next: Option<usize>)
        requires
            p < old(self).tasks.len(),
            old(self).tasks[p as int] is Some,
        ensures
            final(self).tasks.len() == old(self).tasks.len(),
            final(self).tasks[p as int] is Some,
            final(self).tasks[p as int]->0.next == next,
            same_record(final(self).tasks[p as int], old(self).tasks[p as int]),
            forall|i: int|
                0 <= i < old(self).tasks.len() && i != p ==> #[trigger] final(self).tasks[i]
                    == old(self).tasks[i],
            final(self).id_counter == old(self).id_counter,
            final(self).in_task == old(self).in_task,
            final(self).start == old(self).start,
            final(self).end == old(self).end,
            final(self).swap_start == old(self).swap_start,
            final(self).swap_end == old(self).swap_end,
            final(self).results == old(self).results,
            final(self).dependencies == old(self).dependencies,
            final(self).model == old(self).model,
            final(self).payloads == old(self).payloads,
    {
        match &mut self.tasks[p] {
            Some(rec) => {
                rec.next = next;
            },
            None => {},
        }
    }
}

impl<F, O> ListCore<F, O> where F: TaskTrait<O>, O: OutputTrait {
    /// The descriptors of `self` and `old` agree in everything but the end
    /// pointers of the group that `tag` names, if it names one.
    pub open spec fn same_groups(&self, old: Self, tag: Place) -> bool {
        &&& self.dependencies.len() == old.dependencies.len()
        &&& forall|g: int|
            0 <= g < old.dependencies.len() ==> (#[trigger] self.dependencies[g]).status
                == old.dependencies[g].status && self.dependencies[g].counter
                == old.dependencies[g].counter && (tag != Place::Waiting(g as usize)
                ==> self.dependencies[g] == old.dependencies[g])
    }

    /// `self` is `old` after one task with payload `task` was created as task
    /// `t` and appended to the queue `tag`: nothing else moved, and no record
    /// outside that queue was touched.
    pub open spec fn enqueued(
        &self,
        old: Self,
        t: usize,
        task: F,
        member: usize,
        after: usize,
        tag: Place,
    ) -> bool {
        &&& t == old.tasks.len()
        &&& self.tasks.len() == t + 1
        &&& self.tasks[t as int] is Some
        &&& self.tasks[t as int]->0.task == task
        &&& self.model@ == enqueued_model(old.model@, t, tag, member, after)
        &&& self.payloads@ == old.payloads@.push(task)
        &&& self.results@ == old.results@.push(ResultSlot::Empty)
        &&& self.same_groups(old, tag)
        &&& forall|i: int|
            0 <= i < t ==> same_record(#[trigger] self.tasks[i], old.tasks[i]) && (
            old.model@.info[i].place != tag ==> self.tasks[i] == old.tasks[i])
    }

    /// `self` is `old` after the whole queue `src` was appended to the queue
    /// `dst`, keeping its order.
    pub open spec fn moved(&self, old: Self, src: Place, dst: Place) -> bool {
        &&& self.model@ == moved_model(old.model@, src, dst)
        &&& self.payloads@ == old.payloads@
        &&& self.results@ == old.results@
        &&& self.tasks.len() == old.tasks.len()
        &&& self.id_counter == old.id_counter
        &&& self.in_task == old.in_task
        &&& self.same_groups(old, src)
        &&& forall|i: int|
            0 <= i < old.tasks.len() ==> same_record(#[trigger] self.tasks[i], old.tasks[i]) && (
            old.model@.info[i].place != dst ==> self.tasks[i] == old.tasks[i])
    }

    /// Creates the record of a new task and links it behind `tail`, the newest
    /// record of the queue `tag`. The queue's end pointers are the caller's.
    fn enqueue(
        &mut self,
        task: F,
        member: usize,
        after: usize,
        tail: Option<usize>,
        Ghost(tag): Ghost<Place>,
        Ghost(open): Ghost<usize>,
        Ghost(missing): Ghost<nat>,
    ) -> (t: usize)
        requires
            old(self).chains(open, missing),
            tag is Swap || tag is Waiting,
            tag matches Place::Waiting(g) ==> 0 < g < old(self).dependencies.len() && g == after
                && old(self).dependencies[g as int].counter > 0,
            tail == tail_of(queue_of(old(self).model@, tag)),
            member < old(self).dependencies.len(),
            after < old(self).dependencies.len(),
            member != 0 ==> after == 0 && member == open && missing > 0,
            member != 0 ==> forall|x: int|
                0 <= x < old(self).tasks.len() ==> (#[trigger] old(self).model@.info[x]).after
                    != member,
            tag is Swap && after != 0 ==> old(self).dependencies[after as int].counter == extra(
                after as int,
                open,
                missing,
            ),
        ensures
            final(self).chains(
                open,
                if member != 0 {
                    (missing - 1) as nat
                } else {
                    missing
                },
            ),
            final(self).enqueued(*old(self), t, task, member, after, tag),
            final(self).dependencies == old(self).dependencies,
            final(self).start == old(self).start,
            final(self).end == old(self).end,
            final(self).swap_start == old(self).swap_start,
            final(self).swap_end == old(self).swap_end,
    {
        let ghost om = old(self).model@;
        let ghost q = queue_of(om, tag);
        proof {
            if tag is Waiting {
                assert(old(self).group_wf(tag->Waiting_0 as int, open, missing));
            }
            assert(old(self).chain_wf(q, tag));
            if q.len() > 0 {
                assert(old(self).link_ok(q, q.len() - 1, tag));
            }
        }
        let t = self.tasks.len();
        let record = WaitingTask {
            id: t as u64,
            task,
            next: None,
            waiting_return_ptr: t,
            task_dependencies_ptr: member,
            output: PhantomData,
        };
        self.tasks.push(Some(record));
        self.results.slots.push(ResultSlot::Empty);
        assert(self.tasks@.len() == t + 1);
        assert(self.tasks.len() <= usize::MAX <= u64::MAX);
        self.id_counter = self.id_counter + 1;
        self.in_task = self.in_task + 1;
        match tail {
            Some(p) => {
                self.set_next(p, Some(t));
            },
            None => {},
        }
        proof {
            let n = t as int;
            let missing2: nat = if member != 0 {
                (missing - 1) as nat
            } else {
                missing
            };
            self.model@ = enqueued_model(om, t, tag, member, after);
            self.payloads@ = old(self).payloads@.push(task);
            let m = self.model@;
            let q2 = queue_of(m, tag);
            assert(q2 == q.push(t));
            assert(m.harvested.dom() =~= Set::<usize>::full());
            // the queue that grew
            assert forall|i: int| 0 <= i < q2.len() implies #[trigger] self.link_ok(q2, i, tag) by {
                if i < q.len() {
                    assert(old(self).link_ok(q, i, tag));
                }
            }
            // no other record was touched
            assert forall|x: int|
                0 <= x < n && (#[trigger] om.info[x]).place != tag implies self.tasks[x]
                    == old(self).tasks[x] && m.info[x] == om.info[x] by {}
            if !(tag is Swap) {
                Self::lemma_chain_frame(*old(self), *self, m.swap, Place::Swap);
            }
            Self::lemma_chain_frame(*old(self), *self, m.primary, Place::Primary);
            assert forall|w: usize| #[trigger]
                self.chain_wf(m.harvested[w], Place::Harvested(w)) by {
                assert(old(self).chain_wf(om.harvested[w], Place::Harvested(w)));
                Self::lemma_chain_frame(*old(self), *self, m.harvested[w], Place::Harvested(w));
            }
            assert forall|g: int| 0 <= g < self.dependencies.len() implies #[trigger] self.group_wf(
                g,
                open,
                missing2,
            ) by {
                assert(old(self).group_wf(g, open, missing));
                if tag != Place::Waiting(g as usize) {
                    Self::lemma_chain_frame(
                        *old(self),
                        *self,
                        m.waiting[g],
                        Place::Waiting(g as usize),
                    );
                }
                if g > 0 {
                    if g == member {
                        assert(self.pending(g as usize) =~= old(self).pending(g as usize).insert(
                            n,
                        ));
                    } else {
                        assert(self.pending(g as usize) =~= old(self).pending(g as usize));
                    }
                }
            }
            assert forall|x: int| 0 <= x < self.tasks.len() implies #[trigger] self.task_wf(
                x,
                open,
                missing2,
            ) by {
                if x < n {
                    assert(old(self).task_wf(x, open, missing));
                }
            }
            assert forall|i: int| 0 <= i < t implies same_record(
                #[trigger] self.tasks[i],
                old(self).tasks[i],
            ) && (om.info[i].place != tag ==> self.tasks[i] == old(self).tasks[i]) by {
                assert(old(self).task_wf(i, open, missing));
            }
        }
        t
    }

    /// Links the whole queue `src`, whose oldest record is `head`, behind
    /// `tail`, the newest record of the queue `dst`. The end pointers of both
    /// queues are the caller's.
    fn splice(
        &mut self,
        tail: Option<usize>,
        head: usize,
        Ghost(src): Ghost<Place>,
        Ghost(dst): Ghost<Place>,
        Ghost(open): Ghost<usize>,
        Ghost(missing): Ghost<nat>,
    )
        requires
            old(self).chains(open, missing),
            src is Swap || src is Harvested || src is Waiting,
            dst is Primary || dst is Harvested,
            src != dst,
            src matches Place::Waiting(g) ==> 0 < g < old(self).dependencies.len()
                && old(self).dependencies[g as int].counter == extra(g as int, open, missing),
            queue_of(old(self).model@, src).len() > 0,
            head == queue_of(old(self).model@, src)[0],
            tail == tail_of(queue_of(old(self).model@, dst)),
        ensures
            final(self).chains(open, missing),
            final(self).moved(*old(self), src, dst),
            final(self).dependencies == old(self).dependencies,
            final(self).start == old(self).start,
            final(self).end == old(self).end,
            final(self).swap_start == old(self).swap_start,
            final(self).swap_end == old(self).swap_end,
    {
        let ghost om = old(self).model@;
        let ghost s = queue_of(om, src);
        let ghost d = queue_of(om, dst);
        proof {
            if src is Waiting {
                assert(old(self).group_wf(src->Waiting_0 as int, open, missing));
            }
            if src is Harvested {
                assert(old(self).chain_wf(om.harvested[src->Harvested_0], src));
            }
            if dst is Harvested {
                assert(old(self).chain_wf(om.harvested[dst->Harvested_0], dst));
            }
            assert(old(self).chain_wf(s, src));
            assert(old(self).chain_wf(d, dst));
            assert(old(self).link_ok(s, 0, src));
            if d.len() > 0 {
                assert(old(self).link_ok(d, d.len() - 1, dst));
            }
        }
        match tail {
            Some(p) => {
                self.set_next(p, Some(head));
            },
            None => {},
        }
        proof {
            self.model@ = moved_model(om, src, dst);
            let m = self.model@;
            let n = self.tasks.len() as int;
            let k = d.len() as int;
            let d2 = queue_of(m, dst);
            assert(d2 == d + s);
            assert(queue_of(m, src) == Seq::<usize>::empty());
            assert(m.harvested.dom() =~= Set::<usize>::full());
            assert forall|i: int| 0 <= i < d2.len() implies #[trigger] self.link_ok(d2, i, dst) by {
                if i < k {
                    assert(old(self).link_ok(d, i, dst));
                } else {
                    assert(old(self).link_ok(s, i - k, src));
                }
            }
            assert(self.chain_wf(d2, dst));
            assert(self.chain_wf(Seq::<usize>::empty(), src));
            // records outside the two queues are untouched
            assert forall|x: int|
                0 <= x < n && (#[trigger] om.info[x]).place != dst && om.info[x].place
                    != src implies self.tasks[x] == old(self).tasks[x] && m.info[x]
                == om.info[x] by {}
            if !(src is Swap) {
                Self::lemma_chain_frame(*old(self), *self, m.swap, Place::Swap);
            }
            if !(dst is Primary) {
                Self::lemma_chain_frame(*old(self), *self, m.primary, Place::Primary);
            }
            assert forall|w: usize| #[trigger]
                self.chain_wf(m.harvested[w], Place::Harvested(w)) by {
                assert(old(self).chain_wf(om.harvested[w], Place::Harvested(w)));
                if src != Place::Harvested(w) && dst != Place::Harvested(w) {
                    Self::lemma_chain_frame(
                        *old(self),
                        *self,
                        m.harvested[w],
                        Place::Harvested(w),
                    );
                }
            }
            assert forall|g: int| 0 <= g < self.dependencies.len() implies #[trigger] self.group_wf(
                g,
                open,
                missing,
            ) by {
                assert(old(self).group_wf(g, open, missing));
                if src != Place::Waiting(g as usize) {
                    Self::lemma_chain_frame(
                        *old(self),
                        *self,
                        m.waiting[g],
                        Place::Waiting(g as usize),
                    );
                }
                assert(self.pending(g as usize) =~= old(self).pending(g as usize));
            }
            assert forall|x: int| 0 <= x < n implies #[trigger] self.task_wf(x, open, missing) by {
                assert(old(self).task_wf(x, open, missing));
            }
            assert forall|i: int| 0 <= i < n implies same_record(
                #[trigger] self.tasks[i],
                old(self).tasks[i],
            ) && (om.info[i].place != dst ==> self.tasks[i] == old(self).tasks[i]) by {
                assert(old(self).task_wf(i, open, missing));
            }
        }
    }
}

impl<F, O> ListCore<F, O> where F: TaskTrait<O>, O: OutputTrait {
    /// Creates the record of a new task and appends it to the swap queue.
    fn push_swap(
        &mut self,
        task: F,
        member: usize,
        after: usize,
        Ghost(open): Ghost<usize>,
        Ghost(missing): Ghost<nat>,
    ) -> (t: usize)
        requires
            old(self).inv(open, missing),
            member < old(self).dependencies.len(),
            after < old(self).dependencies.len(),
            member != 0 ==> after == 0 && member == open && missing > 0,
            member != 0 ==> forall|x: int|
                0 <= x < old(self).tasks.len() ==> (#[trigger] old(self).model@.info[x]).after
                    != member,
            after != 0 ==> old(self).dependencies[after as int].counter == extra(
                after as int,
                open,
                missing,
            ),
        ensures
            final(self).inv(
                open,
                if member != 0 {
                    (missing - 1) as nat
                } else {
                    missing
                },
            ),
            final(self).enqueued(*old(self), t, task, member, after, Place::Swap),
            final(self).dependencies == old(self).dependencies,
            final(self).start == old(self).start,
            final(self).end == old(self).end,
    {
        let tail = self.swap_start;
        let t = self.enqueue(
            task,
            member,
            after,
            tail,
            Ghost(Place::Swap),
            Ghost(open),
            Ghost(missing),
        );
        let ghost mid = *self;
        self.swap_start = Some(t);
        if tail.is_none() {
            self.swap_end = Some(t);
        }
        proof {
            let missing2: nat = if member != 0 {
                (missing - 1) as nat
            } else {
                missing
            };
            Self::lemma_chains_transfer(mid, *self, open, missing2);
            assert forall|g: int| 0 <= g < self.dependencies.len()
                implies #[trigger] self.group_ends(
                g,
            ) by {
                assert(old(self).group_ends(g));
            }
        }
        t
    }

    /// Submits an independent task: it joins the swap queue at once and the
    /// caller gets the handle its result will be collected through.
    pub fn spawn_task(&mut self, task: F) -> (w: Waiting<O>)
        requires
            old(self).wf(),
        ensures
            final(self).wf(),
            w.data_ptr == old(self).task_count(),
            w.data is None,
            final(self).enqueued(*old(self), w.data_ptr, task, 0, 0, Place::Swap),
            final(self).dependencies == old(self).dependencies,
            final(self).start == old(self).start,
            final(self).end == old(self).end,
    {
        let t = self.push_swap(task, 0, 0, Ghost(0), Ghost(0));
        Waiting { data_ptr: t, data: None }
    }

    /// Moves the whole swap queue onto the primary queue, behind what the
    /// primary queue already holds. With an empty swap queue nothing changes
    /// and the call reports so.
    pub fn swap_to_primary(&mut self) -> (r: Result<(), &'static str>)
        requires
            old(self).wf(),
        ensures
            final(self).wf(),
            old(self).swap_view().len() == 0 ==> r is Err && r->Err_0 == "SWAP STACK EMPTY"
                && *final(self) == *old(self),
            old(self).swap_view().len() > 0 ==> r is Ok && final(self).moved(
                *old(self),
                Place::Swap,
                Place::Primary,
            ) && final(self).dependencies == old(self).dependencies,
    {
        match self.swap_end {
            Some(head) => {
                let newest = self.swap_start;
                let tail = self.start;
                self.splice(
                    tail,
                    head,
                    Ghost(Place::Swap),
                    Ghost(Place::Primary),
                    Ghost(0),
                    Ghost(0),
                );
                let ghost mid = *self;
                self.start = newest;
                if tail.is_none() {
                    self.end = Some(head);
                }
                self.swap_start = None;
                self.swap_end = None;
                proof {
                    Self::lemma_chains_transfer(mid, *self, 0, 0);
                    assert forall|g: int|
                        0 <= g < self.dependencies.len() implies #[trigger] self.group_ends(g) by {
                        assert(old(self).group_ends(g));
                    }
                }
                Ok(())
            },
            None => Err("SWAP STACK EMPTY"),
        }
    }

    /// Appends the harvested queue of worker `owner` to the primary queue.
    /// The first two arguments are the worker's end pointers; with
    /// `harvesting_end` empty nothing happens.
    pub fn insert_list_from_harvesting(
        &mut self,
        harvesting_start: Option<usize>,
        harvesting_end: Option<usize>,
        owner: usize,
    )
        requires
            old(self).wf(),
            ends_ok(old(self).model@.harvested[owner], harvesting_start, harvesting_end),
        ensures
            final(self).wf(),
            harvesting_end is None ==> *final(self) == *old(self),
            harvesting_end is Some ==> final(self).moved(
                *old(self),
                Place::Harvested(owner),
                Place::Primary,
            ) && final(self).dependencies == old(self).dependencies,
            final(self).swap_start == old(self).swap_start,
            final(self).swap_end == old(self).swap_end,
    {
        match harvesting_end {
            Some(head) => {
                let tail = self.start;
                self.splice(
                    tail,
                    head,
                    Ghost(Place::Harvested(owner)),
                    Ghost(Place::Primary),
                    Ghost(0),
                    Ghost(0),
                );
                let ghost mid = *self;
                self.start = harvesting_start;
                if tail.is_none() {
                    self.end = Some(head);
                }
                proof {
                    Self::lemma_chains_transfer(mid, *self, 0, 0);
                    assert forall|g: int|
                        0 <= g < self.dependencies.len() implies #[trigger] self.group_ends(g) by {
                        assert(old(self).group_ends(g));
                    }
                }
            },
            None => {},
        }
    }

    /// `self` differs from `old` in the model alone, which is `m`.
    pub open spec fn only_model_changed(&self, old: Self, m: ListModel) -> bool {
        &&& self.model@ == m
        &&& self.payloads@ == old.payloads@
        &&& self.tasks@ == old.tasks@
        &&& self.results@ == old.results@
        &&& self.dependencies@ == old.dependencies@
        &&& self.id_counter == old.id_counter
        &&& self.in_task == old.in_task
        &&& self.swap_start == old.swap_start
        &&& self.swap_end == old.swap_end
    }

    /// Unlinks the oldest task of the primary queue for slot `slot` of worker
    /// `owner`.
    fn pop_primary(&mut self, owner: usize, slot: usize) -> (t: usize)
        requires
            old(self).wf(),
            old(self).model@.primary.len() > 0,
        ensures
            final(self).wf(),
            t == old(self).model@.primary[0],
            final(self).only_model_changed(
                *old(self),
                taken_model(old(self).model@, 1, owner, slot + 1),
            ),
    {
        let ghost om = old(self).model@;
        proof {
            assert(old(self).link_ok(om.primary, 0, Place::Primary));
        }
        let t = self.end.unwrap();
        let next = self.tasks[t].as_ref().unwrap().next;
        self.end = next;
        if next.is_none() {
            self.start = None;
        }
        proof {
            self.model@ = taken_model(om, 1, owner, slot + 1);
            let m = self.model@;
            let n = self.tasks.len() as int;
            assert forall|i: int| 0 <= i < m.primary.len() implies #[trigger] self.link_ok(
                m.primary,
                i,
                Place::Primary,
            ) by {
                assert(old(self).link_ok(om.primary, i + 1, Place::Primary));
            }
            if om.primary.len() > 1 {
                assert(old(self).link_ok(om.primary, om.primary.len() - 1, Place::Primary));
            }
            assert forall|x: int|
                0 <= x < n && !((#[trigger] om.info[x]).place is Primary) implies self.tasks[x]
                == old(self).tasks[x] && m.info[x] == om.info[x] by {}
            Self::lemma_chain_frame(*old(self), *self, m.swap, Place::Swap);
            assert forall|w: usize| #[trigger]
                self.chain_wf(m.harvested[w], Place::Harvested(w)) by {
                assert(old(self).chain_wf(om.harvested[w], Place::Harvested(w)));
                Self::lemma_chain_frame(*old(self), *self, m.harvested[w], Place::Harvested(w));
            }
            assert forall|g: int| 0 <= g < self.dependencies.len() implies #[trigger] self.group_wf(
                g,
                0,
                0,
            ) by {
                assert(old(self).group_wf(g, 0, 0));
                Self::lemma_chain_frame(
                    *old(self),
                    *self,
                    m.waiting[g],
                    Place::Waiting(g as usize),
                );
                assert(self.pending(g as usize) =~= old(self).pending(g as usize));
            }
            assert forall|x: int| 0 <= x < n implies #[trigger] self.task_wf(x, 0, 0) by {
                assert(old(self).task_wf(x, 0, 0));
            }
            assert forall|g: int| 0 <= g < self.dependencies.len()
                implies #[trigger] self.group_ends(
                g,
            ) by {
                assert(old(self).group_ends(g));
            }
        }
        t
    }

    /// Takes a batch out of the primary queue for worker `owner`: up to `len`
    /// tasks, and never more than the `N` slots of the buffer, oldest first.
    /// The buffer is filled from its last slot downwards, so the oldest task
    /// ends in slot `N - 1`. With an empty primary queue nothing changes and
    /// the call reports so.
    pub fn get_waiting_task_from_primary_stack<const N: usize>(
        &mut self,
        len: u32,
        owner: usize,
    ) -> (r: Result<TaskList<N>, &'static str>)
        requires
            old(self).wf(),
        ensures
            final(self).wf(),
            old(self).primary_view().len() == 0 ==> r is Err && r->Err_0 == "Primary list empty"
                && *final(self) == *old(self),
            old(self).primary_view().len() > 0 ==> r is Ok && r->Ok_0.wf() && r->Ok_0.count
                == batch_size(len as int, N as int, old(self).primary_view().len() as int)
                && r->Ok_0@ == old(self).primary_view().take(r->Ok_0.count as int)
                && final(self).only_model_changed(
                *old(self),
                taken_model(old(self).model@, r->Ok_0.count as int, owner, N as int),
            ),
    {
        if self.end.is_none() {
            return Err("Primary list empty");
        }
        let ghost om = old(self).model@;
        let limit: usize = if (len as usize) < N {
            len as usize
        } else {
            N
        };
        let mut list = empty_slots(N);
        let mut count: usize = 0;
        proof {
            let z = taken_model(om, 0, owner, N as int);
            assert forall|x: int| 0 <= x < om.info.len() implies z.info[x] == om.info[x] by {
                assert(old(self).task_wf(x, 0, 0));
            }
            assert(z.info =~= om.info);
            assert(z.primary =~= om.primary);
            assert(z =~= om);
        }
        while count < limit && self.end.is_some()
            invariant
                self.wf(),
                count <= limit <= N,
                count <= om.primary.len(),
                om == old(self).model@,
                old(self).wf(),
                list.len() == N,
                limit == (if len < N {
                    len as int
                } else {
                    N as int
                }),
                self.only_model_changed(*old(self), taken_model(om, count as int, owner, N as int)),
                forall|i: int| 0 <= i < N ==> ((#[trigger] list[i]) is Some <==> N - count <= i),
                forall|j: int| 0 <= j < count ==> #[trigger] list[N - 1 - j] == Some(om.primary[j]),
            decreases limit - count,
        {
            let ghost prev = list@;
            let t = self.pop_primary(owner, N - 1 - count);
            list[N - 1 - count] = Some(t);
            proof {
                let a = taken_model(
                    taken_model(om, count as int, owner, N as int),
                    1,
                    owner,
                    N - count,
                );
                let b = taken_model(om, count + 1, owner, N as int);
                assert(a.info =~= b.info);
                assert(a.primary =~= b.primary);
                assert(a =~= b);
                assert forall|j: int| 0 <= j < count + 1 implies #[trigger] list[N - 1 - j] == Some(
                    om.primary[j],
                ) by {
                    if j < count {
                        assert(prev[N - 1 - j] == Some(om.primary[j]));
                    }
                }
            }
            count += 1;
        }
        let batch = TaskList {
            list,
            count: count as u64,
            top: (N - count) as u64,
            bottom: N as u64,
        };
        proof {
            assert(batch@ =~= om.primary.take(count as int));
        }
        Ok(batch)
    }
}

/// The model after a new group `g` was created and `k` predecessors of it,
/// the tasks `n .. n + k`, joined the swap queue.
pub open spec fn group_model(om: ListModel, g: usize, n: int, k: int) -> ListModel {
    ListModel {
        info: om.info + Seq::new(
            k as nat,
            |j: int|
                TaskInfo { place: Place::Swap, pos: om.swap.len() + j, member: g, after: 0 },
        ),
        swap: om.swap + Seq::new(k as nat, |j: int| (n + j) as usize),
        waiting: om.waiting.push(Seq::empty()),
        ..om
    }
}

/// Moves the items of an array into a vector, in order. The body is std's
/// `Vec::from` for arrays, which allocates a vector and moves the array's
/// items into it.
#[verifier::external_body]
fn array_into_vec<T, const N: usize>(items: [T; N]) -> (v: Vec<T>)
    ensures
        v@ == items@,
{
    Vec::from(items)
}

impl<F, O> ListCore<F, O> where F: TaskTrait<O>, O: OutputTrait {
    /// `self` is `old` after a group was created for the tasks `ts` and all of
    /// them were submitted, in order, as its predecessors.
    pub open spec fn group_submitted(&self, old: Self, ts: Seq<F>) -> bool {
        let g = old.dependencies.len();
        let n = old.tasks.len() as int;
        let k = ts.len() as int;
        &&& self.dependencies@ == old.dependencies@.push(
            TaskDependenciesCore { status: true, counter: k as usize, start: None, end: None },
        )
        &&& self.tasks.len() == n + k
        &&& forall|j: int|
            0 <= j < k ==> (#[trigger] self.tasks[n + j]) is Some && self.tasks[n + j]->0.task
                == ts[j]
        &&& self.model@ == group_model(old.model@, g, n, k)
        &&& self.payloads@ == old.payloads@ + ts
        &&& self.results@ == old.results@ + Seq::new(k as nat, |j: int| ResultSlot::<O>::Empty)
        &&& self.start == old.start
        &&& self.end == old.end
        &&& forall|i: int|
            0 <= i < n ==> same_record(#[trigger] self.tasks[i], old.tasks[i]) && (
            old.model@.info[i].place != Place::Swap ==> self.tasks[i] == old.tasks[i])
    }

    /// The handles of the `k` tasks submitted from task `n` on.
    pub open spec fn fresh_handles(handles: Seq<Waiting<O>>, n: int, k: int) -> bool {
        &&& handles.len() == k
        &&& forall|j: int|
            0 <= j < k ==> (#[trigger] handles[j]).data_ptr == n + j && handles[j].data is None
    }

    /// Once no predecessor is counted in advance, the invariant no longer
    /// depends on which group was open.
    pub proof fn lemma_close(s: Self, open: usize)
        requires
            s.inv(open, 0),
        ensures
            s.wf(),
    {
        assert forall|g: int| 0 <= g < s.dependencies.len() implies #[trigger] s.group_wf(
            g,
            0,
            0,
        ) by {
            assert(s.group_wf(g, open, 0));
        }
        assert forall|x: int| 0 <= x < s.tasks.len() implies #[trigger] s.task_wf(x, 0, 0) by {
            assert(s.task_wf(x, open, 0));
        }
    }

    /// Creates a dependency group for `tasks` and submits them as its
    /// predecessors, in order. The group waits for all of them; with no task
    /// at all it counts as satisfied from the start.
    pub fn spawn_task_list(&mut self, tasks: Vec<F>) -> (r: TaskDependencies<O>)
        requires
            old(self).wf(),
        ensures
            final(self).wf(),
            r.task_dependencies_ptr == old(self).dependencies.len(),
            Self::fresh_handles(r.waiting_list@, old(self).tasks.len() as int, tasks.len() as int),
            final(self).group_submitted(*old(self), tasks@),
    {
        let ghost om = old(self).model@;
        let ghost ts = tasks@;
        let ghost n = old(self).tasks.len() as int;
        let g = self.dependencies.len();
        let k = tasks.len();
        self.dependencies.push(TaskDependenciesCore::init(k));
        proof {
            self.model@ = ListModel { waiting: om.waiting.push(Seq::empty()), ..om };
            let m = self.model@;
            assert(group_model(om, g, n, 0) =~= m);
            assert(self.payloads@ =~= old(self).payloads@ + ts.take(0));
            assert forall|x: int| 0 <= x < n implies self.tasks[x] == old(self).tasks[x] && (
            #[trigger] m.info[x]) == om.info[x] by {}
            Self::lemma_chain_frame(*old(self), *self, m.swap, Place::Swap);
            Self::lemma_chain_frame(*old(self), *self, m.primary, Place::Primary);
            assert forall|w: usize| #[trigger]
                self.chain_wf(m.harvested[w], Place::Harvested(w)) by {
                assert(old(self).chain_wf(om.harvested[w], Place::Harvested(w)));
                Self::lemma_chain_frame(*old(self), *self, m.harvested[w], Place::Harvested(w));
            }
            assert forall|x: int| 0 <= x < n implies #[trigger] self.task_wf(x, g, k as nat) by {
                assert(old(self).task_wf(x, 0, 0));
            }
            assert forall|h: int| 0 <= h < self.dependencies.len() implies #[trigger] self.group_wf(
                h,
                g,
                k as nat,
            ) by {
                if h < g {
                    assert(old(self).group_wf(h, 0, 0));
                    Self::lemma_chain_frame(
                        *old(self),
                        *self,
                        m.waiting[h],
                        Place::Waiting(h as usize),
                    );
                    assert(self.pending(h as usize) =~= old(self).pending(h as usize));
                } else {
                    assert forall|x: int| 0 <= x < n implies m.info[x].member != g by {
                        assert(old(self).task_wf(x, 0, 0));
                    }
                    assert(self.pending(g) =~= Set::<int>::empty());
                }
            }
            assert forall|h: int| 0 <= h < self.dependencies.len()
                implies #[trigger] self.group_ends(
                h,
            ) by {
                if h < g {
                    assert(old(self).group_ends(h));
                }
            }
        }
        let mut handles: Vec<Waiting<O>> = Vec::new();
        for task in it: tasks
            invariant
                it.seq() == ts,
                old(self).wf(),
                om == old(self).model@,
                n == old(self).tasks.len(),
                g == old(self).dependencies.len(),
                k == ts.len(),
                self.inv(g, (k - it.index()) as nat),
                self.dependencies@ == old(self).dependencies@.push(
                    TaskDependenciesCore { status: true, counter: k, start: None, end: None },
                ),
                self.tasks.len() == n + it.index(),
                forall|j: int|
                    0 <= j < it.index() ==> (#[trigger] self.tasks[n + j]) is Some && self.tasks[n
                        + j]->0.task == ts[j],
                self.model@ == group_model(om, g, n, it.index() as int),
                self.payloads@ == old(self).payloads@ + ts.take(it.index() as int),
                self.results@ == old(self).results@ + Seq::new(
                    it.index() as nat,
                    |j: int| ResultSlot::<O>::Empty,
                ),
                self.start == old(self).start,
                self.end == old(self).end,
                forall|i: int|
                    0 <= i < n ==> same_record(#[trigger] self.tasks[i], old(self).tasks[i]) && (
                    om.info[i].place != Place::Swap ==> self.tasks[i] == old(self).tasks[i]),
                Self::fresh_handles(handles@, n, it.index() as int),
        {
            let ghost before = *self;
            let ghost done = it.index() as int;
            let ghost earlier = handles@;
            proof {
                assert forall|x: int| 0 <= x < self.tasks.len() implies (
                #[trigger] self.model@.info[x]).after != g by {
                    if x < n {
                        assert(old(self).task_wf(x, 0, 0));
                    }
                }
            }
            let t = self.push_swap(task, g, 0, Ghost(g), Ghost((k - done) as nat));
            handles.push(Waiting { data_ptr: t, data: None });
            proof {
                assert(self.model@ =~= group_model(om, g, n, done + 1));
                assert(self.payloads@ =~= old(self).payloads@ + ts.take(done + 1));
                assert(self.results@ =~= old(self).results@ + Seq::new(
                    (done + 1) as nat,
                    |j: int| ResultSlot::<O>::Empty,
                ));
                assert forall|j: int| 0 <= j < done + 1 implies (#[trigger] self.tasks[n
                    + j]) is Some && self.tasks[n + j]->0.task == ts[j] by {
                    if j < done {
                        assert(before.tasks[n + j] is Some);
                    }
                }
                assert forall|i: int| 0 <= i < n implies same_record(
                    #[trigger] self.tasks[i],
                    old(self).tasks[i],
                ) && (om.info[i].place != Place::Swap ==> self.tasks[i] == old(self).tasks[i]) by {
                    assert(same_record(self.tasks[i], before.tasks[i]));
                }
                assert forall|j: int| 0 <= j < done + 1 implies (#[trigger] handles@[j]).data_ptr
                    == n + j && handles@[j].data is None by {
                    if j < done {
                        assert(earlier[j].data_ptr == n + j);
                    }
                }
            }
        }
        proof {
            Self::lemma_close(*self, g);
            assert(ts.take(ts.len() as int) =~= ts);
        }
        TaskDependencies { task_dependencies_ptr: g, waiting_list: handles }
    }

    /// Submits the tasks that `dependencies` hands out as one dependency
    /// group; see [`Self::spawn_task_list`].
    pub fn spawn_task_dependencies<D, const NF: usize>(&mut self, dependencies: D) -> (r:
        TaskDependencies<O>) where D: ArrTaskDependenciesTrait<F, O, NF>
        requires
            old(self).wf(),
        ensures
            final(self).wf(),
            r.task_dependencies_ptr == old(self).dependencies.len(),
            Self::fresh_handles(r.waiting_list@, old(self).tasks.len() as int, NF as int),
            exists|list: [F; NF]|
                call_ensures(D::task_list, (dependencies,), list) && final(self).group_submitted(
                    *old(self),
                    list@,
                ),
    {
        let list = dependencies.task_list();
        let ghost handed = list;
        let tasks = array_into_vec(list);
        let r = self.spawn_task_list(tasks);
        proof {
            assert(call_ensures(D::task_list, (dependencies,), handed) && self.group_submitted(
                *old(self),
                handed@,
            ));
        }
        r
    }

    /// Submits a task that may run only after every predecessor of the group
    /// behind `dependencies` has completed. While predecessors are
    /// outstanding the task waits in the group's queue; if the group is
    /// already satisfied, or the token names no group of this list core, the
    /// task joins the swap queue at once.
    pub fn spawn_task_with_dependencies(
        &mut self,
        task: F,
        dependencies: &TaskDependencies<O>,
    ) -> (w: Waiting<O>)
        requires
            old(self).wf(),
        ensures
            final(self).wf(),
            w.data_ptr == old(self).task_count(),
            w.data is None,
            final(self).start == old(self).start,
            final(self).end == old(self).end,
            ({
                let g = dependencies.task_dependencies_ptr;
                if old(self).outstanding(g) {
                    final(self).enqueued(*old(self), w.data_ptr, task, 0, g, Place::Waiting(g))
                        && final(self).swap_start == old(self).swap_start && final(self).swap_end
                        == old(self).swap_end
                } else {
                    final(self).enqueued(
                        *old(self),
                        w.data_ptr,
                        task,
                        0,
                        if 0 < g < old(self).dependencies.len() {
                            g
                        } else {
                            0
                        },
                        Place::Swap,
                    ) && final(self).dependencies == old(self).dependencies
                }
            }),
    {
        let g = dependencies.task_dependencies_ptr;
        let known = g != 0 && g < self.dependencies.len();
        if known && self.dependencies[g].counter > 0 {
            proof {
                assert(old(self).group_ends(g as int));
            }
            let tail = self.dependencies[g].start;
            let t = self.enqueue(
                task,
                0,
                g,
                tail,
                Ghost(Place::Waiting(g)),
                Ghost(0),
                Ghost(0),
            );
            let ghost mid = *self;
            let status = self.dependencies[g].status;
            let counter = self.dependencies[g].counter;
            let end = if tail.is_none() {
                Some(t)
            } else {
                self.dependencies[g].end
            };
            self.dependencies[g] = TaskDependenciesCore { status, counter, start: Some(t), end };
            proof {
                Self::lemma_chains_transfer(mid, *self, 0, 0);
                assert forall|h: int|
                    0 <= h < self.dependencies.len() implies #[trigger] self.group_ends(h) by {
                    assert(old(self).group_ends(h));
                }
            }
            Waiting { data_ptr: t, data: None }
        } else {
            let after = if known {
                g
            } else {
                0
            };
            let t = self.push_swap(task, 0, after, Ghost(0), Ghost(0));
            Waiting { data_ptr: t, data: None }
        }
    }
}

impl<F, O> ListCore<F, O> where F: TaskTrait<O>, O: OutputTrait {
    /// `self` is `old` after task `t` completed with `value`: its record is
    /// freed, its result slot holds the value, and nothing else changed.
    pub open spec fn completed(&self, old: Self, t: usize, value: O) -> bool {
        let om = old.model@;
        &&& self.tasks@ == old.tasks@.update(t as int, None)
        &&& self.results@ == old.results@.update(t as int, ResultSlot::Ready(value))
        &&& self.model@ == (ListModel {
            info: om.info.update(t as int, TaskInfo { place: Place::Done, ..om.info[t as int] }),
            ..om
        })
        &&& self.payloads@ == old.payloads@
        &&& self.dependencies == old.dependencies
        &&& self.id_counter == old.id_counter
        &&& self.in_task == old.in_task
        &&& self.start == old.start
        &&& self.end == old.end
        &&& self.swap_start == old.swap_start
        &&& self.swap_end == old.swap_end
    }

    /// `self` is `old` after the record of task `t` was taken out of the
    /// arena to be run.
    pub open spec fn taken(&self, old: Self, t: usize) -> bool {
        let om = old.model@;
        &&& self.tasks@ == old.tasks@.update(t as int, None)
        &&& self.model@ == (ListModel {
            info: om.info.update(
                t as int,
                TaskInfo {
                    place: Place::Running(om.info[t as int].place->Local_0),
                    ..om.info[t as int]
                },
            ),
            ..om
        })
        &&& self.results == old.results
        &&& self.payloads@ == old.payloads@
        &&& self.dependencies == old.dependencies
        &&& self.id_counter == old.id_counter
        &&& self.in_task == old.in_task
        &&& self.start == old.start
        &&& self.end == old.end
        &&& self.swap_start == old.swap_start
        &&& self.swap_end == old.swap_end
    }

    /// Takes the record of task `t`, which sits in a worker's deque, out of
    /// the arena, so that its payload can be run. From now on the task counts
    /// as running on that worker.
    pub fn take_task(&mut self, t: usize) -> (record: WaitingTask<F, O>)
        requires
            old(self).wf(),
            t < old(self).tasks.len(),
            old(self).model@.info[t as int].place is Local,
        ensures
            final(self).wf(),
            Some(record) == old(self).tasks[t as int],
            record.task == old(self).payloads@[t as int],
            record.task_dependencies_ptr == old(self).model@.info[t as int].member,
            final(self).taken(*old(self), t),
    {
        let ghost om = old(self).model@;
        proof {
            assert(old(self).task_wf(t as int, 0, 0));
        }
        let record = self.tasks[t].take().unwrap();
        proof {
            self.model@ = ListModel {
                info: om.info.update(
                    t as int,
                    TaskInfo {
                        place: Place::Running(om.info[t as int].place->Local_0),
                        ..om.info[t as int]
                    },
                ),
                ..om
            };
            let m = self.model@;
            let n = self.tasks.len() as int;
            assert(self.tasks@ =~= old(self).tasks@.update(t as int, None));
            assert forall|x: int|
                0 <= x < n && !((#[trigger] om.info[x]).place is Local) implies self.tasks[x]
                == old(self).tasks[x] && m.info[x] == om.info[x] by {}
            Self::lemma_chain_frame(*old(self), *self, m.swap, Place::Swap);
            Self::lemma_chain_frame(*old(self), *self, m.primary, Place::Primary);
            assert forall|w: usize| #[trigger]
                self.chain_wf(m.harvested[w], Place::Harvested(w)) by {
                assert(old(self).chain_wf(om.harvested[w], Place::Harvested(w)));
                Self::lemma_chain_frame(*old(self), *self, m.harvested[w], Place::Harvested(w));
            }
            assert forall|h: int| 0 <= h < self.dependencies.len() implies #[trigger] self.group_wf(
                h,
                0,
                0,
            ) by {
                assert(old(self).group_wf(h, 0, 0));
                Self::lemma_chain_frame(
                    *old(self),
                    *self,
                    m.waiting[h],
                    Place::Waiting(h as usize),
                );
                assert(self.pending(h as usize) =~= old(self).pending(h as usize));
            }
            assert forall|x: int| 0 <= x < n implies #[trigger] self.task_wf(x, 0, 0) by {
                assert(old(self).task_wf(x, 0, 0));
            }
            assert forall|h: int| 0 <= h < self.dependencies.len()
                implies #[trigger] self.group_ends(
                h,
            ) by {
                assert(old(self).group_ends(h));
            }
        }
        record
    }

    /// Records that the running task `t`, a predecessor in group `g`, has
    /// produced `value`: the value is stored in the task's result slot and
    /// the task is done. The group has to be told next.
    pub fn complete_task(&mut self, t: usize, g: usize, value: O)
        requires
            old(self).wf(),
            t < old(self).tasks.len(),
            old(self).model@.info[t as int].place is Running,
            g == old(self).model@.info[t as int].member,
            call_ensures(F::exec, (&old(self).payloads@[t as int],), value),
        ensures
            g < final(self).dependencies.len(),
            final(self).completion_pending(g),
            final(self).completed(*old(self), t, value),
    {
        let ghost om = old(self).model@;
        proof {
            assert(old(self).task_wf(t as int, 0, 0));
        }
        self.results.slots[t] = ResultSlot::Ready(value);
        proof {
            self.model@ = ListModel {
                info: om.info.update(
                    t as int,
                    TaskInfo { place: Place::Done, ..om.info[t as int] },
                ),
                ..om
            };
            let m = self.model@;
            let n = self.tasks.len() as int;
            let missing: nat = if g != 0 {
                1
            } else {
                0
            };
            assert(self.tasks@ =~= old(self).tasks@.update(t as int, None));
            assert forall|x: int|
                0 <= x < n && !((#[trigger] om.info[x]).place is Running) implies self.tasks[x]
                == old(self).tasks[x] && m.info[x] == om.info[x] by {}
            Self::lemma_chain_frame(*old(self), *self, m.swap, Place::Swap);
            Self::lemma_chain_frame(*old(self), *self, m.primary, Place::Primary);
            assert forall|w: usize| #[trigger]
                self.chain_wf(m.harvested[w], Place::Harvested(w)) by {
                assert(old(self).chain_wf(om.harvested[w], Place::Harvested(w)));
                Self::lemma_chain_frame(*old(self), *self, m.harvested[w], Place::Harvested(w));
            }
            if g != 0 {
                assert(old(self).group_wf(g as int, 0, 0));
                assert(old(self).pending(g).contains(t as int));
                vstd::set::axiom_set_remove_len(old(self).pending(g), t as int);
            }
            assert forall|h: int| 0 <= h < self.dependencies.len() implies #[trigger] self.group_wf(
                h,
                g,
                missing,
            ) by {
                assert(old(self).group_wf(h, 0, 0));
                Self::lemma_chain_frame(
                    *old(self),
                    *self,
                    m.waiting[h],
                    Place::Waiting(h as usize),
                );
                if h == g {
                    assert(self.pending(h as usize) =~= old(self).pending(h as usize).remove(
                        t as int,
                    ));
                } else {
                    assert(self.pending(h as usize) =~= old(self).pending(h as usize));
                }
            }
            assert forall|x: int| 0 <= x < n implies #[trigger] self.task_wf(x, g, missing) by {
                assert(old(self).task_wf(x, 0, 0));
            }
            assert forall|h: int| 0 <= h < self.dependencies.len()
                implies #[trigger] self.group_ends(
                h,
            ) by {
                assert(old(self).group_ends(h));
            }
        }
    }

    /// Lowering the counter of group `g` by the one completion that was not
    /// accounted for restores the invariant.
    proof fn lemma_note_completion(a: Self, b: Self, g: usize)
        requires
            a.chains(g, 1),
            0 < g < a.dependencies.len(),
            b.tasks == a.tasks,
            b.model == a.model,
            b.payloads == a.payloads,
            b.results == a.results,
            b.id_counter == a.id_counter,
            b.in_task == a.in_task,
            b.dependencies.len() == a.dependencies.len(),
            forall|h: int|
                0 <= h < a.dependencies.len() ==> (#[trigger] b.dependencies[h]).status
                    == a.dependencies[h].status && (h != g ==> b.dependencies[h].counter
                    == a.dependencies[h].counter),
            b.dependencies[g as int].counter == a.dependencies[g as int].counter - 1,
            a.model@.waiting[g as int].len() > 0 ==> a.dependencies[g as int].counter > 1,
        ensures
            b.chains(0, 0),
    {
        let m = a.model@;
        Self::lemma_chain_frame(a, b, m.swap, Place::Swap);
        Self::lemma_chain_frame(a, b, m.primary, Place::Primary);
        assert forall|w: usize| #[trigger] b.chain_wf(m.harvested[w], Place::Harvested(w)) by {
            assert(a.chain_wf(m.harvested[w], Place::Harvested(w)));
            Self::lemma_chain_frame(a, b, m.harvested[w], Place::Harvested(w));
        }
        assert forall|h: int| 0 <= h < b.dependencies.len() implies #[trigger] b.group_wf(
            h,
            0,
            0,
        ) by {
            assert(a.group_wf(h, g, 1));
            Self::lemma_chain_frame(a, b, m.waiting[h], Place::Waiting(h as usize));
            assert(b.pending(h as usize) =~= a.pending(h as usize));
        }
        assert forall|x: int| 0 <= x < b.tasks.len() implies #[trigger] b.task_wf(x, 0, 0) by {
            assert(a.task_wf(x, g, 1));
            let after = a.model@.info[x].after as int;
            assert(b.dependencies[after].status == a.dependencies[after].status);
        }
    }

    /// `self` is `old` after group `g` took note of one completed predecessor
    /// on behalf of worker `owner`: the counter dropped by one, and if it
    /// reached zero the group's waiting successors moved, in order, to the
    /// end of that worker's harvested queue.
    pub open spec fn released(&self, old: Self, g: usize, owner: usize) -> bool {
        let fired = old.dependencies[g as int].counter == 1 && old.model@.waiting[g as int].len()
            > 0;
        &&& self.dependencies.len() == old.dependencies.len()
        &&& forall|h: int|
            0 <= h < old.dependencies.len() ==> (#[trigger] self.dependencies[h]).status
                == old.dependencies[h].status && self.dependencies[h].counter == (if h == g {
                old.dependencies[h].counter - 1
            } else {
                old.dependencies[h].counter as int
            }) && (h != g ==> self.dependencies[h] == old.dependencies[h])
        &&& self.model@ == (if fired {
            moved_model(old.model@, Place::Waiting(g), Place::Harvested(owner))
        } else {
            old.model@
        })
        &&& self.payloads@ == old.payloads@
        &&& self.results@ == old.results@
        &&& self.tasks.len() == old.tasks.len()
        &&& self.id_counter == old.id_counter
        &&& self.in_task == old.in_task
        &&& self.start == old.start
        &&& self.end == old.end
        &&& self.swap_start == old.swap_start
        &&& self.swap_end == old.swap_end
        &&& forall|i: int|
            0 <= i < old.tasks.len() ==> same_record(#[trigger] self.tasks[i], old.tasks[i]) && (
            old.model@.info[i].place != Place::Harvested(owner) ==> self.tasks[i]
                == old.tasks[i])
    }

    /// Tells group `g` that one of its predecessors has completed. The
    /// sentinel takes no note. A real group lowers its counter; when the
    /// counter reaches zero its waiting successors are appended to the
    /// harvested queue of worker `owner`, whose end pointers go in and come
    /// back updated.
    pub fn release(
        &mut self,
        g: usize,
        owner: usize,
        harvesting_start: Option<usize>,
        harvesting_end: Option<usize>,
    ) -> (r: (Option<usize>, Option<usize>))
        requires
            old(self).completion_pending(g),
            g < old(self).dependencies.len(),
            ends_ok(old(self).model@.harvested[owner], harvesting_start, harvesting_end),
        ensures
            final(self).wf(),
            ends_ok(final(self).model@.harvested[owner], r.0, r.1),
            g == 0 ==> *final(self) == *old(self) && r == (harvesting_start, harvesting_end),
            g != 0 ==> final(self).released(*old(self), g, owner),
    {
        proof {
            assert(old(self).group_wf(g as int, g, if g != 0 {
                1nat
            } else {
                0nat
            }));
            assert(old(self).group_ends(g as int));
        }
        if !self.dependencies[g].status {
            return (harvesting_start, harvesting_end);
        }
        let counter = self.dependencies[g].counter - 1;
        let head = self.dependencies[g].end;
        let newest = self.dependencies[g].start;
        let mut r = (harvesting_start, harvesting_end);
        if counter == 0 && head.is_some() {
            self.splice(
                harvesting_start,
                head.unwrap(),
                Ghost(Place::Waiting(g)),
                Ghost(Place::Harvested(owner)),
                Ghost(g),
                Ghost(1),
            );
            r = (
                newest,
                if harvesting_end.is_none() {
                    head
                } else {
                    harvesting_end
                },
            );
        }
        let ghost mid = *self;
        self.dependencies[g] = TaskDependenciesCore {
            status: true,
            counter,
            start: if counter == 0 {
                None
            } else {
                newest
            },
            end: if counter == 0 {
                None
            } else {
                head
            },
        };
        proof {
            Self::lemma_note_completion(mid, *self, g);
            assert forall|h: int| 0 <= h < self.dependencies.len()
                implies #[trigger] self.group_ends(
                h,
            ) by {
                assert(old(self).group_ends(h));
            }
        }
        r
    }
}

impl<F, O> ListCore<F, O> where F: TaskTrait<O>, O: OutputTrait {
    /// The invariant does not depend on which deque, and which slot of it,
    /// holds a task that is in a deque.
    pub proof fn lemma_relocate(a: Self, b: Self, open: usize, missing: nat)
        requires
            a.inv(open, missing),
            b.tasks == a.tasks,
            b.payloads == a.payloads,
            b.results == a.results,
            b.dependencies == a.dependencies,
            b.id_counter == a.id_counter,
            b.in_task == a.in_task,
            b.start == a.start,
            b.end == a.end,
            b.swap_start == a.swap_start,
            b.swap_end == a.swap_end,
            b.model@ == (ListModel { info: b.model@.info, ..a.model@ }),
            b.model@.info.len() == a.model@.info.len(),
            forall|x: int|
                0 <= x < a.model@.info.len() ==> (#[trigger] b.model@.info[x]) == a.model@.info[x]
                    || (a.model@.info[x].place is Local && b.model@.info[x].place is Local
                    && b.model@.info[x].member == a.model@.info[x].member && b.model@.info[x].after
                    == a.model@.info[x].after),
        ensures
            b.inv(open, missing),
    {
        let m = a.model@;
        Self::lemma_chain_frame(a, b, m.swap, Place::Swap);
        Self::lemma_chain_frame(a, b, m.primary, Place::Primary);
        assert forall|w: usize| #[trigger] b.chain_wf(m.harvested[w], Place::Harvested(w)) by {
            assert(a.chain_wf(m.harvested[w], Place::Harvested(w)));
            Self::lemma_chain_frame(a, b, m.harvested[w], Place::Harvested(w));
        }
        assert forall|g: int| 0 <= g < b.dependencies.len() implies #[trigger] b.group_wf(
            g,
            open,
            missing,
        ) by {
            assert(a.group_wf(g, open, missing));
            Self::lemma_chain_frame(a, b, m.waiting[g], Place::Waiting(g as usize));
            assert(b.pending(g as usize) =~= a.pending(g as usize));
        }
        assert forall|x: int| 0 <= x < b.tasks.len() implies #[trigger] b.task_wf(
            x,
            open,
            missing,
        ) by {
            assert(a.task_wf(x, open, missing));
        }
        assert forall|g: int| 0 <= g < b.dependencies.len() implies #[trigger] b.group_ends(g) by {
            assert(a.group_ends(g));
        }
    }
}

impl<F, O> ListCore<F, O> where F: TaskTrait<O>, O: OutputTrait {
    /// `self` is `old` after worker `owner` ran task `t`, which produced
    /// `value`: the task completed, and its group took note of it.
    pub open spec fn finished(&self, old: Self, t: usize, value: O, owner: usize) -> bool {
        let g = old.model@.info[t as int].member;
        exists|mid: Self| #[trigger]
            mid.completed(old, t, value) && (if g == 0 {
                *self == mid
            } else {
                self.released(mid, g, owner)
            })
    }

    /// No more tasks have completed than were submitted.
    pub proof fn lemma_done_bound(&self)
        requires
            self.model@.info.len() == self.tasks.len(),
        ensures
            self.done_set().finite(),
            self.done_set().len() <= self.tasks.len(),
    {
        let all = vstd::set_lib::set_int_range(0, self.tasks.len() as int);
        vstd::set_lib::lemma_int_range(0, self.tasks.len() as int);
        assert(self.done_set().subset_of(all));
        vstd::set_lib::lemma_len_subset(self.done_set(), all);
    }
}

impl<F, O> ListCore<F, O> where F: TaskTrait<O>, O: OutputTrait {
    /// A successor that has left the queue of its group runs only after every
    /// predecessor of the group has completed: once task `s`, submitted after
    /// group `g`, is anywhere but waiting, every task that is a predecessor in
    /// `g` is done.
    pub proof fn lemma_dependency_order(&self, s: int, p: int)
        requires
            self.wf(),
            0 <= s < self.tasks.len(),
            0 <= p < self.tasks.len(),
            self.model@.info[s].after != 0,
            self.model@.info[p].member == self.model@.info[s].after,
            !(self.model@.info[s].place is Waiting),
        ensures
            self.is_done(p),
    {
        let g = self.model@.info[s].after;
        assert(self.task_wf(s, 0, 0));
        assert(self.group_wf(g as int, 0, 0));
        let pending = self.pending(g);
        if !self.is_done(p) {
            assert(pending.contains(p));
            vstd::set::axiom_set_remove_len(pending, p);
        }
    }

    /// A task that still waits behind a group has not run, and the group has
    /// a predecessor outstanding.
    pub proof fn lemma_waiting_is_blocked(&self, s: int)
        requires
            self.wf(),
            0 <= s < self.tasks.len(),
            self.model@.info[s].place is Waiting,
        ensures
            !self.is_done(s),
            self.results@[s] is Empty,
            self.outstanding(self.model@.info[s].after),
    {
        assert(self.task_wf(s, 0, 0));
        assert(self.group_wf(self.model@.info[s].after as int, 0, 0));
    }
}

} // verus!
