use scrupy::scheduler::Scheduler;

#[test]
fn it_works() {
    let s: Scheduler<u8> = Scheduler::new();
    assert!(s.queue.is_empty());
}
