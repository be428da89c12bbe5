use std::cell::Cell;
use std::rc::Rc;

use simboli_thread::{OutputTrait, Pass, SimboliThread, TaskTrait};

#[derive(Debug, PartialEq, Clone, Copy)]
struct Number(u64);

impl OutputTrait for Number {}

struct Constant(u64);

impl TaskTrait<Number> for Constant {
    fn exec(&self) -> Number {
        Number(self.0)
    }
}

/// Counts its own runs and reports how many tasks had run before it.
struct Counting {
    runs: Rc<Cell<u64>>,
    completed: Rc<Cell<u64>>,
}

impl TaskTrait<Number> for Counting {
    fn exec(&self) -> Number {
        self.runs.set(self.runs.get() + 1);
        let seen = self.completed.get();
        self.completed.set(seen + 1);
        Number(seen)
    }
}

#[test]
fn single_task_returns_its_literal() {
    let mut pool = SimboliThread::<Constant, Number, 2, 4>::init().unwrap();
    let mut handle = pool.spawn_task(Constant(42));
    assert!(handle.get().is_none());
    pool.block_until_ready(&mut handle);
    assert_eq!(*handle.get(), Some(Number(42)));
}

#[test]
fn thousand_tasks_are_all_counted_after_join() {
    let mut pool = SimboliThread::<Constant, Number, 4, 8>::init().unwrap();
    let mut handles = Vec::new();
    for i in 0..1000u64 {
        handles.push(pool.spawn_task(Constant(i)));
    }
    assert_eq!(pool.list_core.in_task, 1000);
    assert_eq!(pool.thread_pool_core.done_task, 0);
    pool.join();
    assert_eq!(pool.thread_pool_core.done_task, 1000);
    assert_eq!(pool.list_core.in_task, 1000);
    assert!(pool.thread_pool_core.join_flag);
    for (i, handle) in handles.iter_mut().enumerate() {
        assert!(pool.list_core.results.is_written(handle.data_ptr));
        pool.collect(handle);
        assert_eq!(*handle.get(), Some(Number(i as u64)));
    }
}

#[test]
fn every_payload_runs_exactly_once() {
    let mut pool = SimboliThread::<Counting, Number, 3, 4>::init().unwrap();
    let completed = Rc::new(Cell::new(0));
    let mut counters = Vec::new();
    for _ in 0..50 {
        let runs = Rc::new(Cell::new(0));
        counters.push(runs.clone());
        pool.spawn_task(Counting { runs, completed: completed.clone() });
    }
    pool.join();
    for runs in counters.iter() {
        assert_eq!(runs.get(), 1);
    }
    assert_eq!(completed.get(), 50);
    // further passes after shutdown run nothing again
    for w in 0..3 {
        assert_eq!(pool.thread_pool_core.run_worker(w, &mut pool.list_core), Pass::Exit);
    }
    for runs in counters.iter() {
        assert_eq!(runs.get(), 1);
    }
}

#[test]
fn successor_sees_both_predecessors_done_every_time() {
    for round in 0..10_000u64 {
        let mut pool = SimboliThread::<Counting, Number, 3, 4>::init().unwrap();
        let completed = Rc::new(Cell::new(0));
        let group = pool.spawn_task_list(vec![
            Counting { runs: Rc::new(Cell::new(0)), completed: completed.clone() },
            Counting { runs: Rc::new(Cell::new(0)), completed: completed.clone() },
        ]);
        let mut successor = pool.spawn_task_with_dependencies(
            Counting { runs: Rc::new(Cell::new(0)), completed: completed.clone() },
            &group,
        );
        // independent work submitted around it must not let it overtake
        if round % 2 == 0 {
            pool.spawn_task(Counting { runs: Rc::new(Cell::new(0)), completed: Rc::new(Cell::new(0)) });
        }
        pool.join();
        pool.collect(&mut successor);
        // the successor saw two completions before its own start
        assert_eq!(*successor.get(), Some(Number(2)));
    }
}

#[test]
fn one_worker_never_steals_and_finishes_everything() {
    let mut pool = SimboliThread::<Constant, Number, 1, 3>::init().unwrap();
    let mut handles = Vec::new();
    for i in 0..10u64 {
        handles.push(pool.spawn_task(Constant(i * 3)));
    }
    let mut passes = Vec::new();
    while pool.thread_pool_core.done_task < pool.list_core.in_task {
        let pass = pool.thread_pool_core.run_worker(0, &mut pool.list_core);
        assert!(!matches!(pass, Pass::Stole(_) | Pass::StealAborted | Pass::Waited));
        passes.push(pass);
        assert!(passes.len() < 1000);
    }
    assert_eq!(passes[0], Pass::BecameRepresentative);
    assert_eq!(passes[1], Pass::Refilled(3));
    assert_eq!(passes[2], Pass::Executed(0));
    assert_eq!(passes[3], Pass::Executed(1));
    assert_eq!(passes[4], Pass::Executed(2));
    assert_eq!(passes[5], Pass::BecameRepresentative);
    assert_eq!(passes[6], Pass::Refilled(3));
    assert_eq!(pool.thread_pool_core.done_task, 10);
    // once nothing is left the single worker idles
    assert_eq!(pool.thread_pool_core.run_worker(0, &mut pool.list_core), Pass::Idle);
    pool.join();
    for (i, handle) in handles.iter_mut().enumerate() {
        pool.collect(handle);
        assert_eq!(*handle.get(), Some(Number(i as u64 * 3)));
    }
}

#[test]
fn submissions_between_rounds_are_neither_lost_nor_doubled() {
    let mut pool = SimboliThread::<Counting, Number, 4, 4>::init().unwrap();
    let completed = Rc::new(Cell::new(0));
    let mut counters = Vec::new();
    let mut submitted = 0u64;
    for burst in 0..40u64 {
        for _ in 0..(burst % 7) {
            let runs = Rc::new(Cell::new(0));
            counters.push(runs.clone());
            pool.spawn_task(Counting { runs, completed: completed.clone() });
            submitted += 1;
        }
        pool.thread_pool_core.round(&mut pool.list_core);
        assert!(pool.thread_pool_core.done_task <= pool.list_core.in_task);
        assert_eq!(pool.thread_pool_core.done_task, completed.get());
    }
    pool.join();
    assert_eq!(pool.list_core.in_task, submitted);
    assert_eq!(pool.thread_pool_core.done_task, submitted);
    assert_eq!(completed.get(), submitted);
    for runs in counters.iter() {
        assert_eq!(runs.get(), 1);
    }
}

#[test]
fn immediate_shutdown_strands_what_is_still_queued() {
    let mut pool = SimboliThread::<Constant, Number, 2, 4>::init().unwrap();
    let mut handles = Vec::new();
    for i in 0..6u64 {
        handles.push(pool.spawn_task(Constant(i)));
    }
    // worker 0 takes the role, then refills with four tasks
    assert_eq!(pool.thread_pool_core.run_worker(0, &mut pool.list_core), Pass::BecameRepresentative);
    assert_eq!(pool.thread_pool_core.run_worker(0, &mut pool.list_core), Pass::Refilled(4));
    pool.join_directly();
    assert!(pool.thread_pool_core.join_flag);
    // the four tasks in the deque ran, the two still queued did not
    assert_eq!(pool.thread_pool_core.done_task, 4);
    for (i, handle) in handles.iter_mut().enumerate() {
        pool.collect(handle);
        if i < 4 {
            assert_eq!(*handle.get(), Some(Number(i as u64)));
        } else {
            assert_eq!(*handle.get(), None);
            assert!(!pool.list_core.results.is_written(handle.data_ptr));
        }
    }
}

#[test]
fn immediate_shutdown_of_an_idle_pool_runs_nothing() {
    let mut pool = SimboliThread::<Constant, Number, 2, 4>::init().unwrap();
    let mut handle = pool.spawn_task(Constant(1));
    pool.join_directly();
    assert_eq!(pool.thread_pool_core.done_task, 0);
    pool.collect(&mut handle);
    assert_eq!(*handle.get(), None);
}

#[test]
fn a_pool_without_workers_or_slots_is_refused() {
    assert_eq!(
        SimboliThread::<Constant, Number, 0, 4>::init().err(),
        Some("a pool needs at least one worker")
    );
    assert_eq!(
        SimboliThread::<Constant, Number, 2, 0>::init().err(),
        Some("a worker needs at least one slot in its queue")
    );
    assert_eq!(
        SimboliThread::<Constant, Number, 0, 0>::init().err(),
        Some("a pool needs at least one worker")
    );
    assert_eq!(
        SimboliThread::<Constant, Number, 2, 0x1_0000_0000>::init().err(),
        Some("casting vector to array when creating error queue")
    );
    assert!(SimboliThread::<Constant, Number, 1, 1>::init().is_ok());
}
