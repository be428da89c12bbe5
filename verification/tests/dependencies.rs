use std::cell::RefCell;
use std::rc::Rc;

use simboli_thread::{
    ArrTaskDependenciesTrait, ListCore, OutputTrait, Pass, SimboliThread, TaskDependencies,
    TaskDependenciesCore, TaskTrait,
};

#[derive(Debug, PartialEq, Clone, Copy)]
struct Number(u64);

impl OutputTrait for Number {}

/// Appends its tag to a shared log when it runs.
struct Logging {
    tag: u64,
    log: Rc<RefCell<Vec<u64>>>,
}

impl TaskTrait<Number> for Logging {
    fn exec(&self) -> Number {
        self.log.borrow_mut().push(self.tag);
        Number(self.tag)
    }
}

struct Three(Rc<RefCell<Vec<u64>>>);

impl ArrTaskDependenciesTrait<Logging, Number, 3> for Three {
    fn task_list(self) -> [Logging; 3] {
        [
            Logging { tag: 100, log: self.0.clone() },
            Logging { tag: 200, log: self.0.clone() },
            Logging { tag: 300, log: self.0.clone() },
        ]
    }
}

fn position(log: &[u64], tag: u64) -> usize {
    log.iter().position(|&x| x == tag).unwrap()
}

#[test]
fn descriptors_start_as_documented() {
    let group = TaskDependenciesCore::init(5);
    assert!(group.status);
    assert_eq!(group.counter, 5);
    assert_eq!(group.start, None);
    assert_eq!(group.end, None);
    let sentinel = TaskDependenciesCore::dummy();
    assert!(!sentinel.status);
    assert_eq!(sentinel.counter, 0);
    assert_eq!(sentinel.start, None);
    assert_eq!(sentinel.end, None);
}

#[test]
fn a_group_from_an_array_keeps_the_order_of_its_tasks() {
    let log = Rc::new(RefCell::new(Vec::new()));
    let mut pool = SimboliThread::<Logging, Number, 2, 4>::init().unwrap();
    let mut group: TaskDependencies<Number> = pool.spawn_task_dependencies(Three(log.clone()));
    assert_eq!(group.task_dependencies_ptr, 1);
    assert_eq!(group.waiting_list.len(), 3);
    assert_eq!(pool.list_core.dependencies[1].counter, 3);
    assert!(pool.list_core.dependencies[1].status);
    for (j, handle) in group.waiting_list.iter().enumerate() {
        assert_eq!(handle.data_ptr, j);
        assert!(handle.data.is_none());
    }
    // all three joined the swap queue in the order of the array
    assert_eq!(pool.list_core.swap_end, Some(0));
    assert_eq!(pool.list_core.swap_start, Some(2));
    pool.join();
    for (j, handle) in group.waiting_list.iter_mut().enumerate() {
        pool.collect(handle);
        assert_eq!(*handle.get(), Some(Number(100 * (j as u64 + 1))));
    }
    assert_eq!(*log.borrow(), vec![100, 200, 300]);
}

#[test]
fn a_successor_waits_until_the_last_predecessor_is_done() {
    let log = Rc::new(RefCell::new(Vec::new()));
    let mut core = ListCore::<Logging, Number>::init();
    let group = core.spawn_task_list(vec![
        Logging { tag: 1, log: log.clone() },
        Logging { tag: 2, log: log.clone() },
    ]);
    let g = group.task_dependencies_ptr;
    let successor = core.spawn_task_with_dependencies(Logging { tag: 9, log: log.clone() }, &group);
    assert_eq!(successor.data_ptr, 2);
    // the successor is queued behind the group, not in the swap queue
    assert_eq!(core.swap_start, Some(1));
    assert_eq!(core.dependencies[g].start, Some(2));
    assert_eq!(core.dependencies[g].end, Some(2));
    core.swap_to_primary().unwrap();
    let batch = core.get_waiting_task_from_primary_stack::<4>(4, 0).unwrap();
    assert_eq!(batch.count, 2);

    let record = core.take_task(0);
    assert_eq!(record.task_dependencies_ptr, g);
    core.complete_task(0, g, record.task.exec());
    let ends = core.release(g, 0, None, None);
    // one predecessor is still outstanding: nothing is released
    assert_eq!(ends, (None, None));
    assert_eq!(core.dependencies[g].counter, 1);
    assert_eq!(core.dependencies[g].end, Some(2));

    let record = core.take_task(1);
    assert_eq!(record.task_dependencies_ptr, g);
    core.complete_task(1, g, record.task.exec());
    let ends = core.release(g, 0, None, None);
    assert_eq!(ends, (Some(2), Some(2)));
    assert_eq!(core.dependencies[g].counter, 0);
}

#[test]
fn a_successor_of_a_satisfied_group_is_queued_at_once() {
    let log = Rc::new(RefCell::new(Vec::new()));
    let mut pool = SimboliThread::<Logging, Number, 1, 4>::init().unwrap();
    let mut group = pool.spawn_task_list(vec![Logging { tag: 1, log: log.clone() }]);
    pool.block_until_ready(&mut group.waiting_list[0]);
    assert_eq!(pool.list_core.dependencies[1].counter, 0);
    let mut late = pool.spawn_task_with_dependencies(Logging { tag: 2, log: log.clone() }, &group);
    // it went straight to the swap queue
    assert_eq!(pool.list_core.swap_end, Some(late.data_ptr));
    assert_eq!(pool.list_core.dependencies[1].end, None);
    pool.block_until_ready(&mut late);
    assert_eq!(*late.get(), Some(Number(2)));
    assert_eq!(*log.borrow(), vec![1, 2]);
}

#[test]
fn a_group_without_predecessors_counts_as_satisfied() {
    let log = Rc::new(RefCell::new(Vec::new()));
    let mut pool = SimboliThread::<Logging, Number, 2, 4>::init().unwrap();
    let group = pool.spawn_task_list(Vec::new());
    assert_eq!(group.waiting_list.len(), 0);
    assert_eq!(pool.list_core.dependencies[group.task_dependencies_ptr].counter, 0);
    let mut task = pool.spawn_task_with_dependencies(Logging { tag: 5, log: log.clone() }, &group);
    assert_eq!(pool.list_core.swap_end, Some(task.data_ptr));
    pool.join();
    pool.collect(&mut task);
    assert_eq!(*task.get(), Some(Number(5)));
}

#[test]
fn a_token_of_no_known_group_does_not_hold_a_task_back() {
    let log = Rc::new(RefCell::new(Vec::new()));
    let mut pool = SimboliThread::<Logging, Number, 2, 4>::init().unwrap();
    let stranger = TaskDependencies::<Number> { task_dependencies_ptr: 17, waiting_list: Vec::new() };
    let mut task = pool.spawn_task_with_dependencies(Logging { tag: 5, log: log.clone() }, &stranger);
    assert_eq!(pool.list_core.swap_end, Some(task.data_ptr));
    let sentinel = TaskDependencies::<Number> { task_dependencies_ptr: 0, waiting_list: Vec::new() };
    let mut other = pool.spawn_task_with_dependencies(Logging { tag: 6, log: log.clone() }, &sentinel);
    pool.join();
    pool.collect(&mut task);
    pool.collect(&mut other);
    assert_eq!(*task.get(), Some(Number(5)));
    assert_eq!(*other.get(), Some(Number(6)));
}

#[test]
fn successors_run_after_their_group_whatever_else_is_queued() {
    let log = Rc::new(RefCell::new(Vec::new()));
    let mut pool = SimboliThread::<Logging, Number, 3, 2>::init().unwrap();
    for i in 0..5 {
        pool.spawn_task(Logging { tag: 1000 + i, log: log.clone() });
    }
    let first = pool.spawn_task_list(vec![
        Logging { tag: 1, log: log.clone() },
        Logging { tag: 2, log: log.clone() },
        Logging { tag: 3, log: log.clone() },
    ]);
    let second = pool.spawn_task_list(vec![Logging { tag: 11, log: log.clone() }]);
    pool.spawn_task_with_dependencies(Logging { tag: 50, log: log.clone() }, &first);
    pool.spawn_task_with_dependencies(Logging { tag: 51, log: log.clone() }, &first);
    pool.spawn_task_with_dependencies(Logging { tag: 60, log: log.clone() }, &second);
    for i in 0..5 {
        pool.spawn_task(Logging { tag: 2000 + i, log: log.clone() });
    }
    pool.join();
    let log = log.borrow();
    assert_eq!(log.len(), 17);
    assert_eq!(pool.thread_pool_core.done_task, 17);
    for successor in [50, 51] {
        for predecessor in [1, 2, 3] {
            assert!(position(&log, predecessor) < position(&log, successor));
        }
    }
    assert!(position(&log, 11) < position(&log, 60));
    // successors of one group keep the order they were submitted in
    assert!(position(&log, 50) < position(&log, 51));
}

#[test]
fn the_worker_that_completes_a_group_harvests_its_successors() {
    let log = Rc::new(RefCell::new(Vec::new()));
    let mut pool = SimboliThread::<Logging, Number, 1, 4>::init().unwrap();
    let group = pool.spawn_task_list(vec![Logging { tag: 1, log: log.clone() }]);
    pool.spawn_task_with_dependencies(Logging { tag: 2, log: log.clone() }, &group);
    let tp = &mut pool.thread_pool_core;
    assert_eq!(tp.run_worker(0, &mut pool.list_core), Pass::BecameRepresentative);
    assert_eq!(tp.run_worker(0, &mut pool.list_core), Pass::Refilled(1));
    assert_eq!(tp.pool[0].end_l_waiting_list, None);
    assert_eq!(tp.run_worker(0, &mut pool.list_core), Pass::Executed(0));
    // the successor now sits in the worker's harvested queue
    assert_eq!(tp.pool[0].end_l_waiting_list, Some(1));
    assert_eq!(tp.pool[0].start_l_waiting_list, Some(1));
    // as representative the worker hands it to the primary queue
    assert_eq!(tp.run_worker(0, &mut pool.list_core), Pass::BecameRepresentative);
    assert_eq!(tp.pool[0].end_l_waiting_list, None);
    assert_eq!(pool.list_core.end, Some(1));
    assert_eq!(tp.run_worker(0, &mut pool.list_core), Pass::Refilled(1));
    assert_eq!(tp.run_worker(0, &mut pool.list_core), Pass::Executed(1));
    assert_eq!(*log.borrow(), vec![1, 2]);
}
