//! The fixed-size buffer a batch of tasks travels in.

use vstd::prelude::*;

verus! {

/// A batch of task indices laid out for a worker's local deque of capacity
/// `N`: the occupied slots are `top..bottom`, the oldest task sits in the
/// highest slot.
pub struct TaskList<const N: usize> {
    pub list: Vec<Option<usize>>,
    pub count: u64,
    pub top: u64,
    pub bottom: u64,
}

impl<const N: usize> TaskList<N> {
    /// The shape every batch has: `N` slots, the last `count` of them occupied.
    pub open spec fn wf(&self) -> bool {
        &&& self.list.len() == N
        &&& self.count <= N
        &&& self.bottom == N
        &&& self.top == N - self.count
        &&& forall|i: int| 0 <= i < N ==> ((#[trigger] self.list[i]) is Some <==> self.top <= i)
    }

    /// The tasks of the batch, oldest first.
    pub open spec fn view(&self) -> Seq<usize> {
        Seq::new(self.count as nat, |j: int| self.list[N - 1 - j]->0)
    }
}

/// A vector of `n` empty slots.
pub fn empty_slots(n: usize) -> (v: Vec<Option<usize>>)
    ensures
        v.len() == n,
        forall|i: int| 0 <= i < n ==> (#[trigger] v[i]) is None,
{
    let mut v: Vec<Option<usize>> = Vec::new();
    let mut i: usize = 0;
    while i < n
        invariant
            i <= n,
            v.len() == i,
            forall|j: int| 0 <= j < i ==> (#[trigger] v[j]) is None,
        decreases n - i,
    {
        v.push(None);
        i += 1;
    }
    v
}

} // verus!
