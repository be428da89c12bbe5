//! Result slots and the handle a caller keeps for a submitted task.

use vstd::prelude::*;

verus! {

/// A single-assignment cell for the value a task produces.
pub enum ResultSlot<T> {
    /// The task has not completed.
    Empty,
    /// The task has completed and its value has not been collected.
    Ready(T),
    /// The task has completed and its value was moved into the handle.
    Taken,
}

/// The result slots of a pool, one per submitted task, indexed by task id.
pub struct ResultSlots<T> {
    pub slots: Vec<ResultSlot<T>>,
}

impl<T> ResultSlots<T> {
    /// The slots in the order of the task ids.
    pub open spec fn view(&self) -> Seq<ResultSlot<T>> {
        self.slots@
    }

    /// Whether the value for `ptr` is stored and has not been collected.
    pub fn is_ready(&self, ptr: usize) -> (b: bool)
        ensures
            b <==> ptr < self@.len() && self@[ptr as int] is Ready,
    {
        if ptr < self.slots.len() {
            match &self.slots[ptr] {
                ResultSlot::Ready(_) => true,
                _ => false,
            }
        } else {
            false
        }
    }

    /// Whether the task behind `ptr` has completed, collected or not.
    pub fn is_written(&self, ptr: usize) -> (b: bool)
        ensures
            b <==> ptr < self@.len() && !(self@[ptr as int] is Empty),
    {
        if ptr < self.slots.len() {
            match &self.slots[ptr] {
                ResultSlot::Empty => false,
                _ => true,
            }
        } else {
            false
        }
    }
}

/// The caller's handle for one task: where the result will appear, and the
/// result itself once it was collected.
pub struct Waiting<T> {
    pub data_ptr: usize,
    pub data: Option<T>,
}

impl<T> Waiting<T> {
    /// The state of a handle and of the slots after the handle collected from
    /// them: a stored value moves into the handle and leaves the slot marked
    /// as taken; in every other case nothing changes.
    pub open spec fn collected(
        before: Waiting<T>,
        slots_before: Seq<ResultSlot<T>>,
        after: Waiting<T>,
        slots_after: Seq<ResultSlot<T>>,
    ) -> bool {
        &&& after.data_ptr == before.data_ptr
        &&& if before.data_ptr < slots_before.len()
            && slots_before[before.data_ptr as int] is Ready {
            &&& after.data == Some(slots_before[before.data_ptr as int]->Ready_0)
            &&& slots_after == slots_before.update(before.data_ptr as int, ResultSlot::Taken)
        } else {
            &&& after.data == before.data
            &&& slots_after == slots_before
        }
    }

    /// Collects the task's value if it is stored. The call never waits: while
    /// the slot is empty it leaves the handle as it is.
    pub fn block(&mut self, results: &mut ResultSlots<T>)
        ensures
            Self::collected(*old(self), old(results)@, *final(self), final(results)@),
    {
        if results.is_ready(self.data_ptr) {
            let mut slot = ResultSlot::Taken;
            core::mem::swap(&mut results.slots[self.data_ptr], &mut slot);
            match slot {
                ResultSlot::Ready(value) => {
                    self.data = Some(value);
                },
                _ => {},
            }
        }
    }

    /// Collects the value unless the handle already holds one, then lends it.
    pub fn block_and_get(&mut self, results: &mut ResultSlots<T>) -> (r: &Option<T>)
        ensures
            *r == final(self).data,
            old(self).data is None ==> Self::collected(
                *old(self),
                old(results)@,
                *final(self),
                final(results)@,
            ),
            old(self).data is Some ==> *final(self) == *old(self) && final(results)@
                == old(results)@,
    {
        if self.data.is_none() {
            self.block(results);
        }
        &self.data
    }

    /// Like [`Self::block_and_get`], but lends the value mutably.
    pub fn block_and_get_mut(&mut self, results: &mut ResultSlots<T>) -> (r: &mut Option<T>)
        ensures
            final(self).data_ptr == old(self).data_ptr,
            final(self).data == *final(r),
            old(self).data is None ==> Self::collected(
                *old(self),
                old(results)@,
                Waiting { data_ptr: old(self).data_ptr, data: *r },
                final(results)@,
            ),
            old(self).data is Some ==> *r == old(self).data && final(results)@ == old(results)@,
    {
        if self.data.is_none() {
            self.block(results);
        }
        &mut self.data
    }

    /// The value collected so far, if any.
    pub fn get(&self) -> (r: &Option<T>)
        ensures
            *r == self.data,
    {
        &self.data
    }

    /// Mutable access to the value collected so far.
    pub fn get_mut(&mut self) -> (r: &mut Option<T>)
        ensures
            *r == old(self).data,
            final(self).data == *final(r),
            final(self).data_ptr == old(self).data_ptr,
    {
        &mut self.data
    }
}

impl<T> core::ops::Deref for Waiting<T> {
    type Target = Option<T>;

    /// A handle reads as the value collected so far.
    fn deref(&self) -> (r: &Option<T>)
        ensures
            *r == self.data,
    {
        self.get()
    }
}

impl<T> core::ops::DerefMut for Waiting<T> {
    /// A handle can be written to as the value collected so far.
    fn deref_mut(&mut self) -> (r: &mut Option<T>)
        ensures
            *r == old(self).data,
            final(self).data == *final(r),
            final(self).data_ptr == old(self).data_ptr,
    {
        self.get_mut()
    }
}

} // verus!
