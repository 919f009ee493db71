use scrupy::scheduler::Scheduler;

#[test]
fn scheduler_is_fifo() {
    let mut s = Scheduler::new();
    s.enqueue(1);
    s.enqueue(2);
    s.enqueue(3);
    assert_eq!(s.dequeue(), Some(1));
    s.enqueue(4);
    assert_eq!(s.dequeue(), Some(2));
    assert_eq!(s.dequeue(), Some(3));
    assert_eq!(s.dequeue(), Some(4));
    assert_eq!(s.dequeue(), None);
    assert!(s.queue.is_empty());
}

#[test]
fn dequeue_undoes_enqueue_on_empty_scheduler() {
    let mut s = Scheduler::new();
    s.enqueue("task");
    assert_eq!(s.dequeue(), Some("task"));
    assert!(s.queue.is_empty());
}

#[test]
fn dequeue_on_empty_scheduler() {
    let mut s: Scheduler<u64> = Scheduler::new();
    assert_eq!(s.dequeue(), None);
    assert_eq!(s.dequeue(), None);
}
