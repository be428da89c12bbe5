use simboli_thread::queue_core::QueueCore;

fn noop() {}

#[test]
fn a_new_list_has_no_record() {
    let list = QueueCore::<fn()>::init();
    assert_eq!(list.id_counter, 0);
    assert!(list.tasks.is_empty());
    assert_eq!(list.start, None);
    assert_eq!(list.end, None);
    assert_eq!(list.swap_start, None);
    assert_eq!(list.swap_end, None);
}

#[test]
fn submissions_go_to_the_swap_stack_in_order() {
    let mut list = QueueCore::<fn()>::init();
    list.task_from_main_thread(noop);
    assert_eq!(list.swap_end, Some(0));
    assert_eq!(list.swap_start, Some(0));
    list.task_from_main_thread(noop);
    list.task_from_main_thread(noop);
    assert_eq!(list.id_counter, 3);
    assert_eq!(list.swap_end, Some(0));
    assert_eq!(list.swap_start, Some(2));
    assert_eq!(list.tasks[0].next, Some(1));
    assert_eq!(list.tasks[1].next, Some(2));
    assert_eq!(list.tasks[2].next, None);
    assert_eq!(list.tasks[2].id, 2);
    assert_eq!(list.start, None);
    assert_eq!(list.end, None);
}

#[test]
fn an_empty_swap_stack_cannot_be_promoted() {
    let mut list = QueueCore::<fn()>::init();
    assert_eq!(list.swap_to_primary(), Err("SWAP STACK KOSONG"));
    assert_eq!(list.start, None);
    assert_eq!(list.end, None);
}

#[test]
fn the_swap_stack_becomes_the_primary_stack() {
    let mut list = QueueCore::<fn()>::init();
    list.task_from_main_thread(noop);
    list.task_from_main_thread(noop);
    assert_eq!(list.swap_to_primary(), Ok(()));
    assert_eq!(list.end, Some(0));
    assert_eq!(list.start, Some(1));
    assert_eq!(list.swap_start, None);
    assert_eq!(list.swap_end, None);
    assert_eq!(list.swap_to_primary(), Err("SWAP STACK KOSONG"));
    // a later swap stack replaces the primary stack
    list.task_from_main_thread(noop);
    assert_eq!(list.swap_to_primary(), Ok(()));
    assert_eq!(list.end, Some(2));
    assert_eq!(list.start, Some(2));
    assert_eq!(list.tasks[1].next, None);
    assert_eq!(list.tasks[2].next, None);
}

#[test]
fn looking_at_the_primary_stack_takes_nothing() {
    let mut list = QueueCore::<fn()>::init();
    list.task_from_main_thread(noop);
    list.swap_to_primary().unwrap();
    list.pop_task_from_primary_stack(5);
    assert_eq!(list.end, Some(0));
    assert_eq!(list.start, Some(0));
    assert_eq!(list.tasks.len(), 1);
}
