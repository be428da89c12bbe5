//! A single queue of task records guarded by a lock on its end: the building
//! block of the two-queue design in [`crate::queue_core::queue_core`].

use vstd::prelude::*;

verus! {

/// A task record of the two-queue design.
pub struct WaitingTask<F> where F: Fn() {
    /// Random identifier of the record.
    pub id: u128,
    /// The payload.
    pub task: F,
    /// Position, in the queue's storage, of the record queued after this one.
    pub next: Option<usize>,
}

/// What became of a task handed to [`QueueStack::push`].
pub enum WaitingTaskStat<F> where F: Fn() {
    /// The record was queued.
    Done,
    /// The queue's end was locked: the record comes back to the caller, who
    /// has to queue it elsewhere.
    Uncovering(WaitingTask<F>),
}

/// Bits 76 to 79 of a random identifier hold the version, bits 62 and 63 the
/// variant.
pub const ID_FIXED_BITS: u128 = 0x0000_0000_0000_f000_c000_0000_0000_0000u128;

/// Version 4 (random) and the standard variant.
pub const ID_RANDOM_KIND: u128 = 0x0000_0000_0000_4000_8000_0000_0000_0000u128;

/// Whether `id` has the shape of a random (version 4) identifier.
pub open spec fn is_random_id(id: u128) -> bool {
    id & ID_FIXED_BITS == ID_RANDOM_KIND
}

/// A fresh random identifier: `uuid::Uuid::new_v4()` as a 128-bit number.
/// All that is claimed of it is what holds of every version-4 identifier: the
/// version and variant bits are fixed, the other 122 bits are random. The
/// call fails only if the operating system cannot supply random bytes.
#[verifier::external_body]
fn fresh_id() -> (id: u128)
    ensures
        is_random_id(id),
{
    uuid::Uuid::new_v4().as_u128()
}

/// A queue of task records whose end can be locked by its consumer.
pub struct QueueStack<F> where F: Fn() {
    /// The queued records in queueing order.
    pub nodes: Vec<WaitingTask<F>>,
    /// Position of the first record.
    pub top: Option<usize>,
    /// Position of the last record.
    pub end: Option<usize>,
    /// Whether the consumer holds the lock on the queue's end.
    pub end_locked: bool,
    /// Number of records queued by `push` so far.
    pub task_count: u64,
}

impl<F> QueueStack<F> where F: Fn() {
    /// The payloads of the queued records, first queued first.
    pub open spec fn view(&self) -> Seq<F> {
        Seq::new(self.nodes.len() as nat, |i: int| self.nodes[i].task)
    }

    /// The records are linked in the order they were queued.
    pub open spec fn wf(&self) -> bool {
        let n = self.nodes.len();
        &&& if n == 0 {
            self.top is None && self.end is None
        } else {
            self.top == Some(0usize) && self.end == Some((n - 1) as usize)
        }
        &&& forall|i: int|
            0 <= i < n ==> (#[trigger] self.nodes[i]).next == (if i + 1 < n {
                Some((i + 1) as usize)
            } else {
                None
            }) && is_random_id(self.nodes[i].id)
    }

    /// An empty, unlocked queue.
    pub fn init() -> (r: QueueStack<F>)
        ensures
            r.wf(),
            r@.len() == 0,
            !r.end_locked,
            r.task_count == 0,
    {
        QueueStack { nodes: Vec::new(), top: None, end: None, end_locked: false, task_count: 0 }
    }

    /// What a push of `task` does to the queue: with the end unlocked the
    /// record is queued as the last one and counted; with the end locked
    /// nothing changes and the record is handed back. Either way the record
    /// carries a random identifier.
    pub open spec fn pushed(&self, old: Self, task: F, stat: WaitingTaskStat<F>) -> bool {
        if old.end_locked {
            &&& *self == old
            &&& stat matches WaitingTaskStat::Uncovering(record)
            &&& record.task == task
            &&& record.next is None
            &&& is_random_id(record.id)
        } else {
            &&& stat is Done
            &&& self@ == old@.push(task)
            &&& self.nodes.len() == old.nodes.len() + 1
            &&& forall|i: int|
                0 <= i < old.nodes.len() ==> (#[trigger] self.nodes[i]).id == old.nodes[i].id
            &&& is_random_id(self.nodes[old.nodes.len() as int].id)
            &&& self.task_count == old.task_count + 1
            &&& !self.end_locked
        }
    }

    /// Queues `record` as the last one, or hands it back if the queue's end
    /// is locked.
    pub fn push_record(&mut self, record: WaitingTask<F>) -> (stat: WaitingTaskStat<F>)
        requires
            old(self).wf(),
            old(self).task_count < u64::MAX,
            record.next is None,
            is_random_id(record.id),
        ensures
            final(self).wf(),
            final(self).pushed(*old(self), record.task, stat),
            old(self).end_locked ==> stat == WaitingTaskStat::Uncovering(record),
            !old(self).end_locked ==> final(self).nodes[old(self).nodes.len() as int].id
                == record.id,
    {
        if self.end_locked {
            return WaitingTaskStat::Uncovering(record);
        }
        let at = self.nodes.len();
        let ghost before = self.nodes@;
        self.nodes.push(record);
        match self.end {
            None => {
                self.top = Some(at);
            },
            Some(last) => {
                self.nodes[last].next = Some(at);
            },
        }
        self.end = Some(at);
        self.task_count = self.task_count + 1;
        proof {
            assert forall|i: int| 0 <= i < self.nodes.len() implies (#[trigger] self.nodes[i]).next
                == (if i + 1 < self.nodes.len() {
                Some((i + 1) as usize)
            } else {
                None
            }) && is_random_id(self.nodes[i].id) by {
                if i < at {
                    assert(before[i].next == (if i + 1 < at {
                        Some((i + 1) as usize)
                    } else {
                        None
                    }));
                }
            }
            assert(self@ =~= old(self)@.push(record.task));
        }
        WaitingTaskStat::Done
    }

    /// Wraps `task` in a record with a fresh random identifier and queues it
    /// as the last one; if the queue's end is locked the record is handed
    /// back instead.
    pub fn push(&mut self, task: F) -> (stat: WaitingTaskStat<F>)
        requires
            old(self).wf(),
            old(self).task_count < u64::MAX,
        ensures
            final(self).wf(),
            final(self).pushed(*old(self), task, stat),
    {
        let id = fresh_id();
        self.push_record(WaitingTask { id, task, next: None })
    }

    /// Makes `task` the only record of the queue, whatever it held.
    pub fn push_after_uncovering_phase(&mut self, task: WaitingTask<F>)
        requires
            !old(self).end_locked,
            is_random_id(task.id),
        ensures
            final(self).wf(),
            final(self)@ == seq![task.task],
            final(self).nodes[0].id == task.id,
            final(self).task_count == old(self).task_count,
            !final(self).end_locked,
    {
        let record = WaitingTask { id: task.id, task: task.task, next: None };
        let mut nodes: Vec<WaitingTask<F>> = Vec::new();
        nodes.push(record);
        self.nodes = nodes;
        self.top = Some(0);
        self.end = Some(0);
        proof {
            assert(self@ =~= seq![task.task]);
        }
    }

    /// The consumer locks the queue's end: from now on `push` hands records
    /// back.
    pub fn begin_uncovering(&mut self)
        ensures
            *final(self) == (QueueStack { end_locked: true, ..*old(self) }),
    {
        self.end_locked = true;
    }

    /// The consumer takes every queued record, first queued first, and
    /// unlocks the queue's end.
    pub fn finish_uncovering(&mut self) -> (taken: Vec<WaitingTask<F>>)
        ensures
            final(self).wf(),
            taken@ == old(self).nodes@,
            final(self)@.len() == 0,
            !final(self).end_locked,
            final(self).task_count == old(self).task_count,
    {
        let mut taken: Vec<WaitingTask<F>> = Vec::new();
        core::mem::swap(&mut self.nodes, &mut taken);
        self.top = None;
        self.end = None;
        self.end_locked = false;
        taken
    }
}

} // verus!
