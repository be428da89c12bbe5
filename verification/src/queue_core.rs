//! A list of task records with a swap stack, without workers: producers
//! append to the swap stack, and the consumer makes the whole swap stack its
//! primary stack in one step. The submodules hold a second design, two
//! queues that take turns.

pub mod queue_core;
pub mod queue_task;

use vstd::prelude::*;

verus! {

/// A task record of the list.
pub struct WaitingTask<F> where F: Fn() {
    /// Identifier assigned at submission; equal to the record's arena index.
    pub id: u64,
    /// The payload.
    pub task: F,
    /// The record queued after this one, if any.
    pub next: Option<usize>,
}

/// Which stack a record belongs to.
pub enum Stage {
    /// It is on the swap stack.
    Swap,
    /// It is on the primary stack.
    Primary,
    /// It was on a primary stack that has been replaced since.
    Replaced,
}

/// The end pointers that belong to a stack with contents `q`.
pub open spec fn stack_ends(q: Seq<usize>, start: Option<usize>, end: Option<usize>) -> bool {
    if q.len() == 0 {
        start is None && end is None
    } else {
        end == Some(q[0]) && start == Some(q[q.len() - 1])
    }
}

/// The stages after the swap stack became the primary stack.
pub open spec fn promoted(stage: Seq<Stage>) -> Seq<Stage> {
    Seq::new(
        stage.len(),
        |t: int|
            match stage[t] {
                Stage::Swap => Stage::Primary,
                _ => Stage::Replaced,
            },
    )
}

pub struct QueueCore<F> where F: Fn() {
    /// The id the next submitted task gets.
    pub id_counter: u64,
    /// Newest record of the primary stack.
    pub start: Option<usize>,
    /// Oldest record of the primary stack.
    pub end: Option<usize>,
    /// Newest record of the swap stack.
    pub swap_start: Option<usize>,
    /// Oldest record of the swap stack.
    pub swap_end: Option<usize>,
    /// The arena: slot `t` holds the record of task `t`.
    pub tasks: Vec<WaitingTask<F>>,
    /// The swap stack, oldest first.
    pub swap: Ghost<Seq<usize>>,
    /// The primary stack, oldest first.
    pub primary: Ghost<Seq<usize>>,
    /// The stack every record belongs to.
    pub stage: Ghost<Seq<Stage>>,
    /// The position every record has, or had, on its stack.
    pub pos: Ghost<Seq<int>>,
}

impl<F> QueueCore<F> where F: Fn() {
    /// The payloads submitted so far, in the order of their ids.
    pub open spec fn payloads(&self) -> Seq<F> {
        Seq::new(self.tasks.len() as nat, |t: int| self.tasks[t].task)
    }

    /// Record `q[i]` belongs to the stack `q` of stage `stage` and is linked
    /// to its successor in `q`.
    pub open spec fn link_ok(&self, q: Seq<usize>, i: int, stage: Stage) -> bool {
        let t = q[i] as int;
        &&& t < self.tasks.len()
        &&& self.stage@[t] == stage
        &&& self.pos@[t] == i
        &&& self.tasks[t].next == (if i + 1 < q.len() {
            Some(q[i + 1])
        } else {
            None::<usize>
        })
    }

    /// The invariant: both stacks are linked in their order, end to end, no
    /// record is on both, and ids are arena indices.
    pub open spec fn wf(&self) -> bool {
        &&& self.id_counter == self.tasks.len()
        &&& self.stage@.len() == self.tasks.len()
        &&& self.pos@.len() == self.tasks.len()
        &&& forall|t: int| 0 <= t < self.tasks.len() ==> (#[trigger] self.tasks[t]).id == t
        &&& forall|i: int| 0 <= i < self.swap@.len() ==> #[trigger] self.link_ok(
            self.swap@,
            i,
            Stage::Swap,
        )
        &&& forall|i: int| 0 <= i < self.primary@.len() ==> #[trigger] self.link_ok(
            self.primary@,
            i,
            Stage::Primary,
        )
        &&& stack_ends(self.swap@, self.swap_start, self.swap_end)
        &&& stack_ends(self.primary@, self.start, self.end)
    }

    /// An empty list.
    pub fn init() -> (r: QueueCore<F>)
        ensures
            r.wf(),
            r.tasks.len() == 0,
            r.swap@.len() == 0,
            r.primary@.len() == 0,
    {
        QueueCore {
            id_counter: 0,
            start: None,
            end: None,
            swap_start: None,
            swap_end: None,
            tasks: Vec::new(),
            swap: Ghost(Seq::empty()),
            primary: Ghost(Seq::empty()),
            stage: Ghost(Seq::empty()),
            pos: Ghost(Seq::empty()),
        }
    }

    /// Looks at both ends of the primary stack. Taking tasks off the stack is
    /// left to a consumer; this list has none, so nothing is taken.
    pub fn pop_task_from_primary_stack(&self, len_pop: u32) {
        let _start = self.start;
        let _end = self.end;
    }

    /// Makes the whole swap stack the primary stack and leaves the swap stack
    /// empty. What the primary stack held before is no longer on any stack.
    /// With an empty swap stack nothing changes and the call reports so.
    pub fn swap_to_primary(&mut self) -> (r: Result<(), &'static str>)
        requires
            old(self).wf(),
        ensures
            final(self).wf(),
            old(self).swap@.len() == 0 ==> r is Err && r->Err_0 == "SWAP STACK KOSONG"
                && *final(self) == *old(self),
            old(self).swap@.len() > 0 ==> r is Ok && final(self).primary@ == old(self).swap@
                && final(self).swap@.len() == 0 && final(self).tasks == old(self).tasks
                && final(self).stage@ == promoted(old(self).stage@),
    {
        match self.swap_end {
            Some(end) => {
                let start = self.swap_start;
                self.swap_start = None;
                self.swap_end = None;
                self.start = start;
                self.end = Some(end);
                proof {
                    self.primary@ = old(self).swap@;
                    self.swap@ = Seq::empty();
                    self.stage@ = promoted(old(self).stage@);
                    assert forall|i: int| 0 <= i < self.primary@.len()
                        implies #[trigger] self.link_ok(self.primary@, i, Stage::Primary) by {
                        assert(old(self).link_ok(old(self).swap@, i, Stage::Swap));
                    }
                }
                Ok(())
            },
            None => Err("SWAP STACK KOSONG"),
        }
    }

    /// Submits a task: a record with the next id is created and put on the
    /// swap stack as its newest.
    pub fn task_from_main_thread(&mut self, task: F)
        requires
            old(self).wf(),
        ensures
            final(self).wf(),
            final(self).payloads() == old(self).payloads().push(task),
            final(self).swap@ == old(self).swap@.push(old(self).tasks.len()),
            final(self).primary@ == old(self).primary@,
            final(self).stage@ == old(self).stage@.push(Stage::Swap),
            final(self).start == old(self).start,
            final(self).end == old(self).end,
    {
        let t = self.tasks.len();
        let ghost q = old(self).swap@;
        proof {
            if q.len() > 0 {
                assert(old(self).link_ok(q, q.len() - 1, Stage::Swap));
            }
        }
        self.tasks.push(WaitingTask { id: t as u64, task, next: None });
        assert(self.tasks@.len() == t + 1);
        assert(self.tasks.len() <= usize::MAX <= u64::MAX);
        self.id_counter = self.id_counter + 1;
        let previous = self.swap_start;
        self.swap_start = Some(t);
        match previous {
            Some(p) => {
                self.tasks[p].next = Some(t);
            },
            None => {
                self.swap_end = Some(t);
            },
        }
        proof {
            self.swap@ = q.push(t);
            self.stage@ = old(self).stage@.push(Stage::Swap);
            self.pos@ = old(self).pos@.push(q.len() as int);
            assert forall|i: int| 0 <= i < self.swap@.len() implies #[trigger] self.link_ok(
                self.swap@,
                i,
                Stage::Swap,
            ) by {
                if i < q.len() {
                    assert(old(self).link_ok(q, i, Stage::Swap));
                    assert(old(self).link_ok(q, q.len() - 1, Stage::Swap));
                }
            }
            assert forall|i: int| 0 <= i < self.primary@.len() implies #[trigger] self.link_ok(
                self.primary@,
                i,
                Stage::Primary,
            ) by {
                assert(old(self).link_ok(self.primary@, i, Stage::Primary));
                if q.len() > 0 {
                    assert(old(self).link_ok(q, q.len() - 1, Stage::Swap));
                }
            }
            assert forall|x: int| 0 <= x < self.tasks.len() implies (#[trigger] self.tasks[x]).id
                == x by {
                if x < t {
                    assert(old(self).tasks[x].id == x);
                }
            }
            assert(self.payloads() =~= old(self).payloads().push(task));
        }
    }
}

} // verus!
