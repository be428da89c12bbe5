//! Two queues that take turns: while the consumer works on one of them,
//! producers are diverted to the other.

use vstd::prelude::*;
use crate::queue_core::queue_task::{is_random_id, QueueStack, WaitingTask, WaitingTaskStat};

verus! {

/// A pair of queues of which one is active at a time.
pub struct QueueCore<F> where F: Fn() {
    /// Which of the two queues producers push to: `0` or `1`.
    pub queue_task_active: u32,
    pub queue_task_0: QueueStack<F>,
    pub queue_task_1: QueueStack<F>,
}

/// The decimal digits of `n`, most significant first.
pub open spec fn decimal(n: nat) -> Seq<char>
    decreases n,
{
    let last = seq![(('0' as u8) + (n % 10) as u8) as char];
    if n < 10 {
        last
    } else {
        decimal(n / 10) + last
    }
}

/// The line that describes the record with identifier `id`.
pub open spec fn id_line(id: u128) -> Seq<char> {
    seq!['i', 'd', ':', ' '] + decimal(id as nat) + seq!['\n']
}

/// The lines of the records with the identifiers of `nodes`, in order.
pub open spec fn id_lines<F: Fn()>(nodes: Seq<WaitingTask<F>>) -> Seq<char>
    decreases nodes.len(),
{
    if nodes.len() == 0 {
        Seq::empty()
    } else {
        id_lines(nodes.drop_last()) + id_line(nodes.last().id)
    }
}

/// Writes a number in decimal. The body is std's `format!`, which writes an
/// unsigned integer in decimal, without sign or padding.
#[verifier::external_body]
fn format_decimal(n: u128) -> (digits: String)
    ensures
        digits@ == decimal(n as nat),
{
    format!("{}", n)
}

impl<F> QueueCore<F> where F: Fn() {
    /// Both queues are well formed and one of them is active.
    pub open spec fn wf(&self) -> bool {
        &&& self.queue_task_active <= 1
        &&& self.queue_task_0.wf()
        &&& self.queue_task_1.wf()
    }

    /// The queue producers currently push to.
    pub open spec fn active(&self) -> QueueStack<F> {
        if self.queue_task_active == 0 {
            self.queue_task_0
        } else {
            self.queue_task_1
        }
    }

    /// The queue producers are diverted to when the active one is locked.
    pub open spec fn standby(&self) -> QueueStack<F> {
        if self.queue_task_active == 0 {
            self.queue_task_1
        } else {
            self.queue_task_0
        }
    }

    /// Two empty queues, the first of them active.
    pub fn init() -> (r: QueueCore<F>)
        ensures
            r.wf(),
            r.queue_task_active == 0,
            r.queue_task_0@.len() == 0,
            r.queue_task_1@.len() == 0,
            !r.queue_task_0.end_locked,
            !r.queue_task_1.end_locked,
            r.queue_task_0.task_count == 0,
            r.queue_task_1.task_count == 0,
    {
        QueueCore {
            queue_task_active: 0,
            queue_task_0: QueueStack::init(),
            queue_task_1: QueueStack::init(),
        }
    }

    /// Makes the other queue the active one.
    pub fn toogle_active(&mut self)
        ensures
            final(self).queue_task_active == old(self).queue_task_active ^ 1,
            old(self).queue_task_active <= 1 ==> final(self).queue_task_active
                == 1 - old(self).queue_task_active,
            final(self).queue_task_0 == old(self).queue_task_0,
            final(self).queue_task_1 == old(self).queue_task_1,
    {
        let active = self.queue_task_active;
        assert(active <= 1 ==> active ^ 1 == 1 - active) by (bit_vector);
        self.queue_task_active = active ^ 1;
    }

    /// What [`Self::uncovering_task_handler`] does with the outcome of a
    /// push: a record that was handed back makes the other queue the active
    /// one and becomes its only record; otherwise nothing changes.
    pub open spec fn handled(&self, old: Self, stat: WaitingTaskStat<F>) -> bool {
        match stat {
            WaitingTaskStat::Done => *self == old,
            WaitingTaskStat::Uncovering(record) => {
                &&& self.queue_task_active == 1 - old.queue_task_active
                &&& self.standby() == old.active()
                &&& self.active()@ == seq![record.task]
                &&& self.active().nodes[0].id == record.id
                &&& self.active().task_count == old.standby().task_count
                &&& !self.active().end_locked
            },
        }
    }

    /// What a push of `task` does: while the active queue is unlocked it
    /// takes the task; otherwise the other queue becomes the active one and
    /// the task its only record.
    pub open spec fn pushed(&self, old: Self, task: F) -> bool {
        if old.active().end_locked {
            &&& self.queue_task_active == 1 - old.queue_task_active
            &&& self.standby() == old.active()
            &&& self.active()@ == seq![task]
            &&& self.active().task_count == old.standby().task_count
            &&& !self.active().end_locked
        } else {
            &&& self.queue_task_active == old.queue_task_active
            &&& self.standby() == old.standby()
            &&& self.active().pushed(old.active(), task, WaitingTaskStat::Done)
        }
    }

    /// Pushes `task` to the active queue; if that queue is locked, the other
    /// queue becomes the active one and takes the task.
    pub fn push(&mut self, task: F)
        requires
            old(self).wf(),
            old(self).active().task_count < u64::MAX,
            old(self).active().end_locked ==> !old(self).standby().end_locked,
        ensures
            final(self).wf(),
            final(self).pushed(*old(self), task),
    {
        let status = if self.queue_task_active == 0 {
            self.queue_task_0.push(task)
        } else {
            self.queue_task_1.push(task)
        };
        self.uncovering_task_handler(status);
    }

    /// Finishes a push: a record that the active queue handed back goes to
    /// the other queue, which becomes the active one.
    pub fn uncovering_task_handler(&mut self, stat: WaitingTaskStat<F>)
        requires
            old(self).queue_task_active <= 1,
            stat matches WaitingTaskStat::Uncovering(record) ==> !old(self).standby().end_locked
                && is_random_id(record.id),
            old(self).queue_task_0.wf(),
            old(self).queue_task_1.wf(),
        ensures
            final(self).wf(),
            final(self).handled(*old(self), stat),
    {
        match stat {
            WaitingTaskStat::Uncovering(task) => {
                self.toogle_active();
                if self.queue_task_active == 0 {
                    self.queue_task_0.push_after_uncovering_phase(task);
                } else {
                    self.queue_task_1.push_after_uncovering_phase(task);
                }
            },
            WaitingTaskStat::Done => {},
        }
    }

    /// One line per record of the active queue, first queued first, each
    /// giving the record's identifier in decimal.
    pub fn show_waiting_task(&self) -> (output: String)
        requires
            self.wf(),
        ensures
            output@ == id_lines(self.active().nodes@),
    {
        let mut output = String::new();
        let queue = if self.queue_task_active == 0 {
            &self.queue_task_0
        } else {
            &self.queue_task_1
        };
        let mut i: usize = 0;
        while i < queue.nodes.len()
            invariant
                i <= queue.nodes.len(),
                output@ == id_lines(queue.nodes@.take(i as int)),
            decreases queue.nodes.len() - i,
        {
            let digits = format_decimal(queue.nodes[i].id);
            let ghost lines = output@;
            proof {
                reveal_strlit("id: ");
                reveal_strlit("\n");
            }
            output.append("id: ");
            output.append(digits.as_str());
            output.append("\n");
            proof {
                assert("id: "@ =~= seq!['i', 'd', ':', ' ']);
                assert("\n"@ =~= seq!['\n']);
                assert(output@ =~= lines + id_line(queue.nodes[i as int].id));
                let upto = queue.nodes@.take(i + 1);
                assert(upto.drop_last() =~= queue.nodes@.take(i as int));
                assert(upto.last() == queue.nodes@[i as int]);
            }
            i += 1;
        }
        proof {
            assert(queue.nodes@.take(queue.nodes.len() as int) =~= queue.nodes@);
        }
        output
    }
}

} // verus!
