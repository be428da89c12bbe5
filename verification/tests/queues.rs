use simboli_thread::queue_core::queue_core::QueueCore;
use simboli_thread::queue_core::queue_task::{
    QueueStack, WaitingTask, WaitingTaskStat, ID_FIXED_BITS, ID_RANDOM_KIND,
};

fn noop() {}

#[test]
fn a_new_queue_is_empty_and_unlocked() {
    let queue = QueueStack::<fn()>::init();
    assert!(queue.nodes.is_empty());
    assert_eq!(queue.top, None);
    assert_eq!(queue.end, None);
    assert!(!queue.end_locked);
    assert_eq!(queue.task_count, 0);
}

#[test]
fn push_queues_records_in_order_with_random_identifiers() {
    let mut queue = QueueStack::<fn()>::init();
    assert!(matches!(queue.push(noop), WaitingTaskStat::Done));
    assert!(matches!(queue.push(noop), WaitingTaskStat::Done));
    assert!(matches!(queue.push(noop), WaitingTaskStat::Done));
    assert_eq!(queue.task_count, 3);
    assert_eq!(queue.top, Some(0));
    assert_eq!(queue.end, Some(2));
    assert_eq!(queue.nodes[0].next, Some(1));
    assert_eq!(queue.nodes[1].next, Some(2));
    assert_eq!(queue.nodes[2].next, None);
    for node in queue.nodes.iter() {
        // version 4, standard variant
        assert_eq!(node.id & ID_FIXED_BITS, ID_RANDOM_KIND);
        assert_eq!((node.id >> 76) & 0xf, 4);
        assert_eq!((node.id >> 62) & 0x3, 2);
    }
    assert_ne!(queue.nodes[0].id, queue.nodes[1].id);
    assert_ne!(queue.nodes[1].id, queue.nodes[2].id);
}

#[test]
fn a_locked_queue_hands_the_record_back() {
    let mut queue = QueueStack::<fn()>::init();
    queue.push(noop);
    queue.begin_uncovering();
    assert!(queue.end_locked);
    match queue.push(noop) {
        WaitingTaskStat::Uncovering(record) => {
            assert_eq!(record.id & ID_FIXED_BITS, ID_RANDOM_KIND);
            assert_eq!(record.next, None);
        }
        WaitingTaskStat::Done => panic!("the queue was locked"),
    }
    assert_eq!(queue.nodes.len(), 1);
    assert_eq!(queue.task_count, 1);
    let taken = queue.finish_uncovering();
    assert_eq!(taken.len(), 1);
    assert!(queue.nodes.is_empty());
    assert_eq!(queue.top, None);
    assert_eq!(queue.end, None);
    assert!(!queue.end_locked);
    assert!(matches!(queue.push(noop), WaitingTaskStat::Done));
}

#[test]
fn a_record_pushed_after_uncovering_is_the_only_one() {
    let mut queue = QueueStack::<fn()>::init();
    queue.push(noop);
    queue.push(noop);
    let record = WaitingTask { id: ID_RANDOM_KIND | 5, task: noop as fn(), next: None };
    queue.push_after_uncovering_phase(record);
    assert_eq!(queue.nodes.len(), 1);
    assert_eq!(queue.nodes[0].id, ID_RANDOM_KIND | 5);
    assert_eq!(queue.top, Some(0));
    assert_eq!(queue.end, Some(0));
    assert_eq!(queue.task_count, 2);
}

#[test]
fn toggling_switches_between_the_two_queues() {
    let mut core = QueueCore::<fn()>::init();
    assert_eq!(core.queue_task_active, 0);
    core.toogle_active();
    assert_eq!(core.queue_task_active, 1);
    core.toogle_active();
    assert_eq!(core.queue_task_active, 0);
}

#[test]
fn pushes_go_to_the_active_queue() {
    let mut core = QueueCore::<fn()>::init();
    core.push(noop);
    core.push(noop);
    assert_eq!(core.queue_task_0.nodes.len(), 2);
    assert_eq!(core.queue_task_1.nodes.len(), 0);
    core.toogle_active();
    core.push(noop);
    assert_eq!(core.queue_task_0.nodes.len(), 2);
    assert_eq!(core.queue_task_1.nodes.len(), 1);
}

#[test]
fn a_push_to_a_locked_queue_is_diverted_to_the_other() {
    let mut core = QueueCore::<fn()>::init();
    core.push(noop);
    core.queue_task_0.begin_uncovering();
    core.push(noop);
    assert_eq!(core.queue_task_active, 1);
    assert_eq!(core.queue_task_0.nodes.len(), 1);
    assert_eq!(core.queue_task_1.nodes.len(), 1);
    assert_eq!(core.queue_task_1.nodes[0].id & ID_FIXED_BITS, ID_RANDOM_KIND);
    // later pushes stay with the new active queue
    core.push(noop);
    assert_eq!(core.queue_task_1.nodes.len(), 2);
    assert_eq!(core.queue_task_0.finish_uncovering().len(), 1);
}

#[test]
fn handling_a_finished_push_changes_nothing() {
    let mut core = QueueCore::<fn()>::init();
    core.push(noop);
    core.uncovering_task_handler(WaitingTaskStat::Done);
    assert_eq!(core.queue_task_active, 0);
    assert_eq!(core.queue_task_0.nodes.len(), 1);
    assert_eq!(core.queue_task_1.nodes.len(), 0);
}

#[test]
fn handling_a_returned_record_switches_queues() {
    let mut core = QueueCore::<fn()>::init();
    core.push(noop);
    let record = WaitingTask { id: ID_RANDOM_KIND | 9, task: noop as fn(), next: None };
    core.uncovering_task_handler(WaitingTaskStat::Uncovering(record));
    assert_eq!(core.queue_task_active, 1);
    assert_eq!(core.queue_task_1.nodes.len(), 1);
    assert_eq!(core.queue_task_1.nodes[0].id, ID_RANDOM_KIND | 9);
    assert_eq!(core.queue_task_0.nodes.len(), 1);
}

#[test]
fn the_listing_gives_one_line_per_record() {
    let mut core = QueueCore::<fn()>::init();
    assert_eq!(core.show_waiting_task(), "");
    let first = WaitingTask { id: ID_RANDOM_KIND, task: noop as fn(), next: None };
    let second = WaitingTask { id: ID_RANDOM_KIND + 7, task: noop as fn(), next: None };
    assert!(matches!(core.queue_task_0.push_record(first), WaitingTaskStat::Done));
    assert!(matches!(core.queue_task_0.push_record(second), WaitingTaskStat::Done));
    assert_eq!(
        core.show_waiting_task(),
        "id: 302240678275694148452352\nid: 302240678275694148452359\n"
    );
    // the listing follows the active queue
    core.toogle_active();
    assert_eq!(core.show_waiting_task(), "");
}

#[test]
fn the_listing_of_small_identifiers_is_plain_decimal() {
    let mut core = QueueCore::<fn()>::init();
    for id in [0u128, 7, 10, 1234567890] {
        let record = WaitingTask { id, task: noop as fn(), next: None };
        core.queue_task_0.push_record(record);
    }
    assert_eq!(core.show_waiting_task(), "id: 0\nid: 7\nid: 10\nid: 1234567890\n");
}
