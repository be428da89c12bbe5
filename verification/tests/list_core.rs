use simboli_thread::{ListCore, OutputTrait, TaskList, TaskTrait};

#[derive(Debug, PartialEq, Clone, Copy)]
struct Number(u64);

impl OutputTrait for Number {}

struct Constant(u64);

impl TaskTrait<Number> for Constant {
    fn exec(&self) -> Number {
        Number(self.0)
    }
}

fn core_with(n: u64) -> ListCore<Constant, Number> {
    let mut core = ListCore::init();
    for i in 0..n {
        core.spawn_task(Constant(i));
    }
    core
}

#[test]
fn a_new_list_core_is_empty() {
    let core = ListCore::<Constant, Number>::init();
    assert!(core.is_primary_list_empty());
    assert_eq!(core.in_task, 0);
    assert_eq!(core.id_counter, 0);
    assert_eq!(core.swap_start, None);
    assert_eq!(core.swap_end, None);
    assert_eq!(core.dependencies.len(), 1);
    assert!(!core.dependencies[0].status);
}

#[test]
fn spawn_appends_to_the_swap_queue() {
    let mut core = ListCore::init();
    let a = core.spawn_task(Constant(10));
    assert_eq!(a.data_ptr, 0);
    assert!(a.data.is_none());
    assert_eq!(core.swap_end, Some(0));
    assert_eq!(core.swap_start, Some(0));
    let b = core.spawn_task(Constant(11));
    assert_eq!(b.data_ptr, 1);
    // the oldest stays at the old end, the newest is linked behind it
    assert_eq!(core.swap_end, Some(0));
    assert_eq!(core.swap_start, Some(1));
    assert_eq!(core.tasks[0].as_ref().unwrap().next, Some(1));
    assert_eq!(core.tasks[1].as_ref().unwrap().next, None);
    assert_eq!(core.tasks[1].as_ref().unwrap().id, 1);
    assert_eq!(core.in_task, 2);
    assert_eq!(core.id_counter, 2);
    // producers never touch the primary queue
    assert!(core.is_primary_list_empty());
}

#[test]
fn draining_an_empty_swap_queue_reports_it() {
    let mut core = ListCore::<Constant, Number>::init();
    assert_eq!(core.swap_to_primary(), Err("SWAP STACK EMPTY"));
    assert!(core.is_primary_list_empty());
}

#[test]
fn draining_moves_the_whole_swap_queue() {
    let mut core = core_with(3);
    assert_eq!(core.swap_to_primary(), Ok(()));
    assert_eq!(core.swap_start, None);
    assert_eq!(core.swap_end, None);
    assert_eq!(core.end, Some(0));
    assert_eq!(core.start, Some(2));
    assert!(!core.is_primary_list_empty());
    assert_eq!(core.swap_to_primary(), Err("SWAP STACK EMPTY"));
}

#[test]
fn draining_appends_behind_what_the_primary_queue_holds() {
    let mut core = core_with(2);
    assert_eq!(core.swap_to_primary(), Ok(()));
    core.spawn_task(Constant(2));
    core.spawn_task(Constant(3));
    assert_eq!(core.swap_to_primary(), Ok(()));
    assert_eq!(core.end, Some(0));
    assert_eq!(core.start, Some(3));
    assert_eq!(core.tasks[1].as_ref().unwrap().next, Some(2));
    let batch: TaskList<8> = core.get_waiting_task_from_primary_stack::<8>(8, 0).unwrap();
    assert_eq!(batch.count, 4);
    assert_eq!(&batch.list[4..], &[Some(3), Some(2), Some(1), Some(0)]);
}

#[test]
fn taking_from_an_empty_primary_queue_reports_it() {
    let mut core = core_with(2);
    // the tasks are still in the swap queue
    assert_eq!(
        core.get_waiting_task_from_primary_stack::<4>(4, 0).err(),
        Some("Primary list empty")
    );
}

#[test]
fn a_batch_is_filled_from_the_last_slot_down() {
    let mut core = core_with(3);
    core.swap_to_primary().unwrap();
    let batch = core.get_waiting_task_from_primary_stack::<4>(2, 0).unwrap();
    assert_eq!(batch.count, 2);
    assert_eq!(batch.top, 2);
    assert_eq!(batch.bottom, 4);
    assert_eq!(batch.list, vec![None, None, Some(1), Some(0)]);
    // one task is left
    assert!(!core.is_primary_list_empty());
    assert_eq!(core.end, Some(2));
    let rest = core.get_waiting_task_from_primary_stack::<4>(2, 0).unwrap();
    assert_eq!(rest.count, 1);
    assert_eq!(rest.top, 3);
    assert_eq!(rest.list, vec![None, None, None, Some(2)]);
    // taking the last task clears both ends
    assert!(core.is_primary_list_empty());
    assert_eq!(core.start, None);
    assert_eq!(core.end, None);
}

#[test]
fn a_batch_never_exceeds_the_buffer() {
    let mut core = core_with(6);
    core.swap_to_primary().unwrap();
    let batch = core.get_waiting_task_from_primary_stack::<4>(10, 0).unwrap();
    assert_eq!(batch.count, 4);
    assert_eq!(batch.top, 0);
    assert_eq!(batch.list, vec![Some(3), Some(2), Some(1), Some(0)]);
    assert_eq!(core.end, Some(4));
}

#[test]
fn a_batch_of_nothing_takes_nothing() {
    let mut core = core_with(2);
    core.swap_to_primary().unwrap();
    let batch = core.get_waiting_task_from_primary_stack::<4>(0, 0).unwrap();
    assert_eq!(batch.count, 0);
    assert_eq!(batch.top, 4);
    assert_eq!(batch.list, vec![None, None, None, None]);
    assert_eq!(core.end, Some(0));
}

#[test]
fn running_and_completing_a_task_stores_its_value() {
    let mut core = core_with(2);
    core.swap_to_primary().unwrap();
    let batch = core.get_waiting_task_from_primary_stack::<2>(2, 0).unwrap();
    let t = batch.list[1].unwrap();
    let record = core.take_task(t);
    assert_eq!(record.id, 0);
    assert_eq!(record.waiting_return_ptr, 0);
    assert!(core.tasks[t].is_none());
    let group = record.task_dependencies_ptr;
    assert_eq!(group, 0);
    let value = record.task.exec();
    assert_eq!(value, Number(0));
    assert!(!core.results.is_written(t));
    core.complete_task(t, group, value);
    assert!(core.results.is_ready(t));
    assert!(core.results.is_written(t));
    assert!(!core.results.is_written(1));
    // the sentinel takes no note
    let ends = core.release(group, 0, None, None);
    assert_eq!(ends, (None, None));
}

#[test]
fn harvested_tasks_join_the_primary_queue_behind_the_rest() {
    let mut core = ListCore::init();
    let group = core.spawn_task_list(vec![Constant(0)]);
    core.spawn_task_with_dependencies(Constant(1), &group);
    core.spawn_task_with_dependencies(Constant(2), &group);
    core.spawn_task(Constant(3));
    core.swap_to_primary().unwrap();
    let batch = core.get_waiting_task_from_primary_stack::<1>(1, 0).unwrap();
    assert_eq!(batch.list, vec![Some(0)]);
    let record = core.take_task(0);
    let g = record.task_dependencies_ptr;
    assert_eq!(g, group.task_dependencies_ptr);
    core.complete_task(0, g, record.task.exec());
    let (start, end) = core.release(g, 0, None, None);
    // both successors were released, oldest first
    assert_eq!(end, Some(1));
    assert_eq!(start, Some(2));
    assert_eq!(core.dependencies[g].counter, 0);
    assert_eq!(core.dependencies[g].start, None);
    assert_eq!(core.dependencies[g].end, None);
    core.insert_list_from_harvesting(start, end, 0);
    // primary queue: 3 (left from before), then 1 and 2
    let rest = core.get_waiting_task_from_primary_stack::<4>(4, 0).unwrap();
    assert_eq!(rest.list, vec![None, Some(2), Some(1), Some(3)]);
}

#[test]
fn inserting_an_empty_harvest_changes_nothing() {
    let mut core = core_with(1);
    core.insert_list_from_harvesting(None, None, 0);
    assert!(core.is_primary_list_empty());
    assert_eq!(core.swap_end, Some(0));
}
