use simboli_thread::{OutputTrait, ResultSlot, ResultSlots, SimboliThread, TaskTrait, Waiting};

#[derive(Debug, PartialEq, Clone, Copy)]
struct Number(u64);

impl OutputTrait for Number {}

struct Constant(u64);

impl TaskTrait<Number> for Constant {
    fn exec(&self) -> Number {
        Number(self.0)
    }
}

#[test]
fn block_leaves_an_unfinished_task_alone() {
    let mut slots = ResultSlots { slots: vec![ResultSlot::<u32>::Empty] };
    let mut handle = Waiting { data_ptr: 0, data: None };
    handle.block(&mut slots);
    assert_eq!(handle.data, None);
    assert!(!slots.is_written(0));
    assert_eq!(*handle.block_and_get(&mut slots), None);
}

#[test]
fn block_moves_a_stored_value_into_the_handle() {
    let mut slots = ResultSlots { slots: vec![ResultSlot::Empty, ResultSlot::Ready(7u32)] };
    let mut handle = Waiting { data_ptr: 1, data: None };
    assert!(slots.is_ready(1));
    handle.block(&mut slots);
    assert_eq!(handle.data, Some(7));
    assert!(matches!(slots.slots[1], ResultSlot::Taken));
    assert!(matches!(slots.slots[0], ResultSlot::Empty));
    assert!(!slots.is_ready(1));
    assert!(slots.is_written(1));
    // a second call changes nothing
    handle.block(&mut slots);
    assert_eq!(handle.data, Some(7));
}

#[test]
fn a_handle_of_another_table_finds_nothing() {
    let mut slots = ResultSlots { slots: vec![ResultSlot::Ready(1u32)] };
    let mut handle = Waiting { data_ptr: 5, data: None };
    handle.block(&mut slots);
    assert_eq!(handle.data, None);
    assert!(slots.is_ready(0));
    assert!(!slots.is_ready(5));
    assert!(!slots.is_written(5));
}

#[test]
fn block_and_get_collects_once_and_then_reads() {
    let mut slots = ResultSlots { slots: vec![ResultSlot::Ready(3u32)] };
    let mut handle = Waiting { data_ptr: 0, data: None };
    assert_eq!(*handle.get(), None);
    assert_eq!(*handle.block_and_get(&mut slots), Some(3));
    assert_eq!(*handle.block_and_get(&mut slots), Some(3));
    assert_eq!(*handle.get(), Some(3));
}

#[test]
fn a_handle_that_holds_a_value_does_not_collect_again() {
    let mut slots = ResultSlots { slots: vec![ResultSlot::Ready(3u32)] };
    let mut handle = Waiting { data_ptr: 0, data: Some(9) };
    assert_eq!(*handle.block_and_get(&mut slots), Some(9));
    assert!(slots.is_ready(0));
}

#[test]
fn the_collected_value_can_be_changed_or_taken() {
    let mut slots = ResultSlots { slots: vec![ResultSlot::Ready(3u32)] };
    let mut handle = Waiting { data_ptr: 0, data: None };
    *handle.block_and_get_mut(&mut slots) = Some(4);
    assert_eq!(*handle.get(), Some(4));
    let taken = handle.get_mut().take();
    assert_eq!(taken, Some(4));
    assert_eq!(*handle.get(), None);
    assert_eq!(handle.data_ptr, 0);
}

#[test]
fn collect_before_completion_finds_nothing_and_later_the_value() {
    let mut pool = SimboliThread::<Constant, Number, 1, 2>::init().unwrap();
    let mut handle = pool.spawn_task(Constant(8));
    pool.collect(&mut handle);
    assert_eq!(*handle.get(), None);
    pool.join();
    pool.collect(&mut handle);
    assert_eq!(*handle.get(), Some(Number(8)));
    // a second handle for the same slot finds the value gone
    let mut copy = Waiting { data_ptr: handle.data_ptr, data: None };
    pool.collect(&mut copy);
    assert_eq!(*copy.get(), None);
}

#[test]
fn waiting_for_one_task_leaves_later_tasks_for_later() {
    let mut pool = SimboliThread::<Constant, Number, 1, 1>::init().unwrap();
    let mut first = pool.spawn_task(Constant(1));
    let mut second = pool.spawn_task(Constant(2));
    pool.block_until_ready(&mut first);
    assert_eq!(*first.get(), Some(Number(1)));
    assert!(!pool.list_core.results.is_written(second.data_ptr));
    assert_eq!(pool.thread_pool_core.done_task, 1);
    pool.block_until_ready(&mut second);
    assert_eq!(*second.get(), Some(Number(2)));
    // asking again is a cheap read
    pool.block_until_ready(&mut first);
    assert_eq!(*first.get(), Some(Number(1)));
}

#[test]
fn a_handle_reads_as_its_value() {
    let mut slots = ResultSlots { slots: vec![ResultSlot::Ready(3u32)] };
    let mut handle = Waiting { data_ptr: 0, data: None };
    assert!(handle.is_none());
    handle.block(&mut slots);
    assert_eq!(*handle, Some(3));
    assert_eq!(handle.map(|x| x + 1), Some(4));
}

#[test]
fn a_handle_can_be_written_through() {
    let mut handle = Waiting { data_ptr: 2, data: Some(3u32) };
    *handle = Some(8);
    assert_eq!(*handle.get(), Some(8));
    let taken = handle.take();
    assert_eq!(taken, Some(8));
    assert_eq!(*handle.get(), None);
    assert_eq!(handle.data_ptr, 2);
}
