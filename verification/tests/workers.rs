use simboli_thread::{ListCore, OutputTrait, Pass, SimboliThread, TaskList, TaskTrait, ThreadUnit};

#[derive(Debug, PartialEq, Clone, Copy)]
struct Number(u64);

impl OutputTrait for Number {}

struct Constant(u64);

impl TaskTrait<Number> for Constant {
    fn exec(&self) -> Number {
        Number(self.0)
    }
}

fn xorshift32(mut x: u32) -> u32 {
    x ^= x << 13;
    x ^= x >> 17;
    x ^= x << 5;
    x
}

#[test]
fn a_new_worker_is_empty() {
    let unit = ThreadUnit::<8>::init(3, 5).unwrap();
    assert_eq!(unit.id, 3);
    assert_eq!(unit.total_threads, 5);
    assert_eq!(unit.top, 0);
    assert_eq!(unit.bottom, 0);
    assert_eq!(unit.batch, 8);
    assert_eq!(unit.queue, vec![None; 8]);
    assert!(unit.empty_flag);
    assert_eq!(unit.threads_active, 0);
    assert_eq!(unit.xorshift_seed, 4);
    assert_eq!(unit.start_l_waiting_list, None);
    assert_eq!(unit.end_l_waiting_list, None);
    assert_eq!(unit.running, None);
}

#[test]
fn a_worker_may_have_no_slot_at_all() {
    let unit = ThreadUnit::<0>::init(2, 3).unwrap();
    assert_eq!(unit.id, 2);
    assert_eq!(unit.total_threads, 3);
    assert_eq!(unit.batch, 0);
    assert!(unit.queue.is_empty());
    assert_eq!(unit.top, 0);
    assert_eq!(unit.bottom, 0);
    assert!(unit.empty_flag);
    assert_ne!(unit.xorshift_seed, 0);
}

#[test]
fn a_worker_with_no_slot_takes_nothing_and_yields_nothing() {
    let mut core = ListCore::<Constant, Number>::init();
    core.spawn_task(Constant(1));
    core.swap_to_primary().unwrap();
    let mut unit = ThreadUnit::<0>::init(0, 2).unwrap();
    assert_eq!(unit.refill(&mut core), Some(0));
    assert_eq!(unit.top, 0);
    assert_eq!(unit.bottom, 0);
    assert!(!core.is_primary_list_empty());
    assert!(unit.yield_half(1, &mut core).is_none());
    unit.clean();
    assert!(unit.queue.is_empty());
}

#[test]
fn a_deque_too_long_for_a_batch_cannot_be_built() {
    assert_eq!(
        ThreadUnit::<0x1_0000_0000>::init(0, 1).err(),
        Some("casting vector to array when creating error queue")
    );
    assert!(ThreadUnit::<1>::init(0, 1).is_ok());
}

#[test]
fn the_generator_follows_xorshift() {
    let mut unit = ThreadUnit::<2>::init(0, 4).unwrap();
    assert_eq!(unit.xorshift_seed, 1);
    assert_eq!(unit.xorshift(), 270369);
    assert_eq!(unit.xorshift_seed, 270369);
    assert_eq!(unit.xorshift(), xorshift32(270369));
    let mut x = unit.xorshift_seed;
    for _ in 0..10_000 {
        x = unit.xorshift();
        assert_ne!(x, 0);
    }
    assert_eq!(unit.xorshift_seed, x);
}

#[test]
fn the_victim_is_always_a_peer() {
    for total in 2..6usize {
        for id in 0..total {
            let mut unit = ThreadUnit::<2>::init(id, total).unwrap();
            let mut seen = vec![false; total];
            for _ in 0..200 {
                let seed = unit.xorshift_seed;
                let victim = unit.pick_victim().unwrap();
                assert_ne!(victim, id);
                assert!(victim < total);
                let step = 1 + (xorshift32(seed) as usize) % (total - 1);
                assert_eq!(victim, (id + step) % total);
                assert_eq!(unit.xorshift_seed, xorshift32(seed));
                seen[victim] = true;
            }
            // every peer is picked sooner or later
            for (peer, &hit) in seen.iter().enumerate() {
                assert_eq!(hit, peer != id);
            }
        }
    }
}

#[test]
fn a_worker_on_its_own_has_no_victim() {
    let mut unit = ThreadUnit::<2>::init(0, 1).unwrap();
    assert_eq!(unit.pick_victim(), None);
    assert_eq!(unit.xorshift_seed, 1);
}

#[test]
fn install_replaces_the_deque() {
    let mut unit = ThreadUnit::<4>::init(0, 1).unwrap();
    let batch = TaskList::<4> { list: vec![None, None, Some(7), Some(5)], count: 2, top: 2, bottom: 4 };
    unit.install(batch);
    assert_eq!(unit.queue, vec![None, None, Some(7), Some(5)]);
    assert_eq!(unit.top, 2);
    assert_eq!(unit.bottom, 4);
    assert!(!unit.empty_flag);
}

#[test]
fn refill_takes_the_oldest_tasks_and_runs_them_oldest_first() {
    let mut core = ListCore::<Constant, Number>::init();
    for i in 0..5 {
        core.spawn_task(Constant(i));
    }
    core.swap_to_primary().unwrap();
    let mut unit = ThreadUnit::<3>::init(0, 1).unwrap();
    assert_eq!(unit.refill(&mut core), Some(3));
    assert_eq!(unit.queue, vec![Some(2), Some(1), Some(0)]);
    assert_eq!(unit.top, 0);
    assert_eq!(unit.bottom, 3);
    let mut done = 0u64;
    assert_eq!(unit.execute_bottom(&mut core, &mut done), 0);
    assert_eq!(unit.bottom, 2);
    assert_eq!(unit.queue, vec![Some(2), Some(1), None]);
    assert_eq!(unit.execute_bottom(&mut core, &mut done), 1);
    assert_eq!(unit.execute_bottom(&mut core, &mut done), 2);
    assert_eq!(done, 3);
    assert_eq!(unit.top, unit.bottom);
    assert!(core.results.is_ready(0) && core.results.is_ready(1) && core.results.is_ready(2));
    assert_eq!(unit.refill(&mut core), Some(2));
    assert_eq!(unit.queue, vec![None, Some(4), Some(3)]);
    assert_eq!(unit.top, 1);
    assert_eq!(unit.execute_bottom(&mut core, &mut done), 3);
    assert_eq!(unit.execute_bottom(&mut core, &mut done), 4);
    assert_eq!(unit.refill(&mut core), None);
}

#[test]
fn a_thief_gets_the_half_next_to_the_top() {
    let mut core = ListCore::<Constant, Number>::init();
    for i in 0..5 {
        core.spawn_task(Constant(i));
    }
    core.swap_to_primary().unwrap();
    let mut victim = ThreadUnit::<8>::init(0, 2).unwrap();
    assert_eq!(victim.refill(&mut core), Some(5));
    assert_eq!(victim.queue, vec![None, None, None, Some(4), Some(3), Some(2), Some(1), Some(0)]);
    let loot = victim.yield_half(1, &mut core).unwrap();
    // five tasks: the thief gets two, from the top of the range
    assert_eq!(loot.count, 2);
    assert_eq!(loot.top, 6);
    assert_eq!(loot.bottom, 8);
    assert_eq!(loot.list, vec![None, None, None, None, None, None, Some(3), Some(4)]);
    assert_eq!(victim.top, 5);
    assert_eq!(victim.bottom, 8);
    assert_eq!(victim.queue, vec![None, None, None, None, None, Some(2), Some(1), Some(0)]);
    assert_eq!(victim.threads_active, 0);
    let mut thief = ThreadUnit::<8>::init(1, 2).unwrap();
    thief.install(loot);
    let mut done = 0;
    assert_eq!(thief.execute_bottom(&mut core, &mut done), 4);
    assert_eq!(thief.execute_bottom(&mut core, &mut done), 3);
    assert_eq!(victim.execute_bottom(&mut core, &mut done), 0);
}

#[test]
fn nothing_is_stolen_from_a_worker_with_one_task_or_none() {
    let mut core = ListCore::<Constant, Number>::init();
    core.spawn_task(Constant(0));
    core.swap_to_primary().unwrap();
    let mut victim = ThreadUnit::<4>::init(0, 2).unwrap();
    // reported empty
    assert!(victim.yield_half(1, &mut core).is_none());
    assert_eq!(victim.refill(&mut core), Some(1));
    // a single task is not worth splitting
    assert!(victim.yield_half(1, &mut core).is_none());
    assert_eq!(victim.top, 3);
    assert_eq!(victim.bottom, 4);
    assert_eq!(victim.queue, vec![None, None, None, Some(0)]);
    assert_eq!(victim.threads_active, 0);
}

#[test]
fn clean_resets_an_exited_worker() {
    let mut core = ListCore::<Constant, Number>::init();
    core.spawn_task(Constant(0));
    core.swap_to_primary().unwrap();
    let mut unit = ThreadUnit::<4>::init(0, 1).unwrap();
    unit.refill(&mut core);
    let mut done = 0;
    unit.execute_bottom(&mut core, &mut done);
    assert_eq!(unit.top, 3);
    unit.clean();
    assert_eq!(unit.top, 0);
    assert_eq!(unit.bottom, 0);
    assert_eq!(unit.queue, vec![None; 4]);
}

#[test]
fn idle_workers_steal_while_another_is_representative() {
    let mut pool = SimboliThread::<Constant, Number, 3, 4>::init().unwrap();
    for i in 0..8 {
        pool.spawn_task(Constant(i));
    }
    let tp = &mut pool.thread_pool_core;
    let core = &mut pool.list_core;
    assert_eq!(tp.run_worker(0, core), Pass::BecameRepresentative);
    assert_eq!(tp.reprt_handler, Some(0));
    // the role is taken and nobody holds a task yet: worker 2 finds nothing
    assert_eq!(tp.run_worker(2, core), Pass::StealAborted);
    assert_eq!(tp.run_worker(0, core), Pass::Refilled(4));
    assert_eq!(tp.reprt_handler, None);
    assert_eq!(tp.pool[0].queue, vec![Some(3), Some(2), Some(1), Some(0)]);
    assert_eq!(tp.run_worker(1, core), Pass::BecameRepresentative);
    assert_eq!(tp.reprt_handler, Some(1));
    // worker 2 now steals from worker 0 as soon as it picks it
    let mut stolen = false;
    for _ in 0..64 {
        match tp.run_worker(2, core) {
            Pass::Stole(k) => {
                assert_eq!(k, 2);
                stolen = true;
                break;
            }
            Pass::StealAborted => {}
            other => panic!("unexpected pass {:?}", other),
        }
    }
    assert!(stolen);
    assert_eq!(tp.pool[0].top, 2);
    assert_eq!(tp.pool[0].queue, vec![None, None, Some(1), Some(0)]);
    assert_eq!(tp.pool[2].queue, vec![None, None, Some(2), Some(3)]);
    assert_eq!(tp.pool[2].top, 2);
    assert_eq!(tp.pool[2].bottom, 4);
    assert!(!tp.pool[2].empty_flag);
    assert_eq!(tp.pool[0].threads_active, 0);
    assert_eq!(tp.run_worker(2, core), Pass::Executed(3));
    assert_eq!(tp.run_worker(0, core), Pass::Executed(0));
    assert_eq!(tp.run_worker(1, core), Pass::Refilled(4));
    pool.join();
    assert_eq!(pool.thread_pool_core.done_task, 8);
}

#[test]
fn a_round_tells_whether_work_got_done() {
    let mut pool = SimboliThread::<Constant, Number, 2, 2>::init().unwrap();
    assert!(!pool.thread_pool_core.round(&mut pool.list_core));
    pool.spawn_task(Constant(1));
    let mut rounds = 0;
    while pool.thread_pool_core.round(&mut pool.list_core) {
        rounds += 1;
        assert!(rounds < 100);
    }
    assert_eq!(pool.thread_pool_core.done_task, 1);
    assert!(!pool.thread_pool_core.round(&mut pool.list_core));
}

#[test]
fn an_exiting_representative_gives_the_role_back() {
    let mut pool = SimboliThread::<Constant, Number, 2, 2>::init().unwrap();
    pool.spawn_task(Constant(1));
    assert_eq!(
        pool.thread_pool_core.run_worker(1, &mut pool.list_core),
        Pass::BecameRepresentative
    );
    assert_eq!(pool.thread_pool_core.reprt_handler, Some(1));
    pool.join_directly();
    assert_eq!(pool.thread_pool_core.reprt_handler, None);
    assert_eq!(pool.thread_pool_core.done_task, 0);
}

#[test]
fn a_worker_with_a_thief_on_its_deque_waits() {
    let mut pool = SimboliThread::<Constant, Number, 2, 2>::init().unwrap();
    pool.spawn_task(Constant(1));
    pool.thread_pool_core.pool[0].threads_active = 1;
    assert_eq!(pool.thread_pool_core.run_worker(0, &mut pool.list_core), Pass::Waited);
    assert!(pool.thread_pool_core.pool[0].empty_flag);
    assert_eq!(pool.thread_pool_core.reprt_handler, None);
    assert_eq!(pool.list_core.swap_end, Some(0));
    pool.thread_pool_core.pool[0].threads_active = 0;
    assert_eq!(
        pool.thread_pool_core.run_worker(0, &mut pool.list_core),
        Pass::BecameRepresentative
    );
}

#[test]
fn a_task_can_be_run_between_two_calls() {
    let mut pool = SimboliThread::<Constant, Number, 2, 4>::init().unwrap();
    let mut first = pool.spawn_task(Constant(5));
    let mut second = pool.spawn_task(Constant(6));
    let tp = &mut pool.thread_pool_core;
    let core = &mut pool.list_core;
    // nothing in the deque yet
    assert!(tp.begin_task(0, core).is_none());
    assert_eq!(tp.run_worker(0, core), Pass::BecameRepresentative);
    assert_eq!(tp.run_worker(0, core), Pass::Refilled(2));
    let record = tp.begin_task(0, core).unwrap();
    assert_eq!(record.id, 0);
    assert_eq!(tp.pool[0].running, Some(0));
    assert_eq!(tp.pool[0].bottom, 3);
    assert_eq!(tp.pool[0].queue, vec![None, None, Some(1), None]);
    assert!(core.tasks[0].is_none());
    assert_eq!(tp.done_task, 0);
    // while worker 0 is busy with the payload, the others go on
    assert_eq!(tp.run_worker(1, core), Pass::Idle);
    let mut third = core.spawn_task(Constant(7));
    assert_eq!(tp.run_worker(1, core), Pass::BecameRepresentative);
    assert_eq!(tp.run_worker(1, core), Pass::Refilled(1));
    assert_eq!(tp.run_worker(1, core), Pass::Executed(2));
    let value = record.task.exec();
    tp.finish_task(0, core, value);
    assert_eq!(tp.pool[0].running, None);
    assert_eq!(tp.done_task, 2);
    assert!(core.results.is_ready(0));
    let record = tp.begin_task(0, core).unwrap();
    assert_eq!(record.id, 1);
    tp.finish_task(0, core, record.task.exec());
    assert_eq!(tp.done_task, 3);
    pool.collect(&mut first);
    pool.collect(&mut second);
    pool.collect(&mut third);
    assert_eq!(*first.get(), Some(Number(5)));
    assert_eq!(*second.get(), Some(Number(6)));
    assert_eq!(*third.get(), Some(Number(7)));
    pool.join();
    assert_eq!(pool.thread_pool_core.done_task, 3);
}

#[test]
fn shutdown_is_requested_only_when_all_is_done() {
    let mut pool = SimboliThread::<Constant, Number, 2, 2>::init().unwrap();
    pool.spawn_task(Constant(1));
    pool.spawn_task(Constant(2));
    assert!(!pool.thread_pool_core.shutdown_if_done(&pool.list_core));
    assert!(!pool.thread_pool_core.join_flag);
    assert_eq!(pool.thread_pool_core.run_worker(0, &mut pool.list_core), Pass::BecameRepresentative);
    assert_eq!(pool.thread_pool_core.run_worker(0, &mut pool.list_core), Pass::Refilled(2));
    assert_eq!(pool.thread_pool_core.run_worker(0, &mut pool.list_core), Pass::Executed(0));
    assert!(!pool.thread_pool_core.shutdown_if_done(&pool.list_core));
    assert_eq!(pool.thread_pool_core.run_worker(0, &mut pool.list_core), Pass::Executed(1));
    assert!(pool.thread_pool_core.shutdown_if_done(&pool.list_core));
    assert!(pool.thread_pool_core.join_flag);
    assert_eq!(pool.thread_pool_core.done_task, 2);
    assert_eq!(pool.thread_pool_core.run_worker(0, &mut pool.list_core), Pass::Exit);
    assert_eq!(pool.thread_pool_core.run_worker(1, &mut pool.list_core), Pass::Exit);
}

#[test]
fn an_empty_pool_is_done_at_once() {
    let mut pool = SimboliThread::<Constant, Number, 1, 1>::init().unwrap();
    assert!(pool.thread_pool_core.shutdown_if_done(&pool.list_core));
    assert!(pool.thread_pool_core.join_flag);
}

#[test]
fn a_shutdown_request_lets_workers_finish_their_deques_only() {
    let mut pool = SimboliThread::<Constant, Number, 1, 4>::init().unwrap();
    for i in 0..5 {
        pool.spawn_task(Constant(i));
    }
    assert_eq!(pool.thread_pool_core.run_worker(0, &mut pool.list_core), Pass::BecameRepresentative);
    assert_eq!(pool.thread_pool_core.run_worker(0, &mut pool.list_core), Pass::Refilled(4));
    assert_eq!(pool.thread_pool_core.run_worker(0, &mut pool.list_core), Pass::Executed(0));
    pool.thread_pool_core.request_shutdown(&pool.list_core);
    assert!(pool.thread_pool_core.join_flag);
    assert_eq!(pool.thread_pool_core.done_task, 1);
    // the three tasks left in the deque still run, in order
    assert_eq!(pool.thread_pool_core.run_worker(0, &mut pool.list_core), Pass::Executed(1));
    assert_eq!(pool.thread_pool_core.run_worker(0, &mut pool.list_core), Pass::Executed(2));
    assert_eq!(pool.thread_pool_core.run_worker(0, &mut pool.list_core), Pass::Executed(3));
    assert_eq!(pool.thread_pool_core.run_worker(0, &mut pool.list_core), Pass::Exit);
    assert_eq!(pool.thread_pool_core.done_task, 4);
    assert!(!pool.list_core.is_primary_list_empty());
}
