use server::{Claim, JobQueue};

#[test]
fn jobs_leave_in_order_each_once() {
    let mut q: JobQueue<u32> = JobQueue::new();
    for i in 0..1000u32 {
        assert!(q.submit(i).is_ok());
    }
    assert_eq!(q.len(), 1000);
    let mut seen = Vec::new();
    loop {
        match q.claim() {
            Claim::Job(j) => seen.push(j),
            Claim::Wait => break,
            Claim::Done => panic!("the queue is still open"),
        }
    }
    assert_eq!(seen, (0..1000u32).collect::<Vec<_>>());
}

#[test]
fn closed_queue_drains_then_says_done() {
    let mut q: JobQueue<&str> = JobQueue::new();
    assert!(q.submit("a").is_ok());
    assert!(q.submit("b").is_ok());
    q.close();
    assert_eq!(q.submit("c"), Err("c"));
    assert!(matches!(q.claim(), Claim::Job("a")));
    assert!(matches!(q.claim(), Claim::Job("b")));
    assert!(matches!(q.claim(), Claim::Done));
    assert!(matches!(q.claim(), Claim::Done));
    assert_eq!(q.len(), 0);
}

#[test]
fn empty_open_queue_says_wait() {
    let mut q: JobQueue<u8> = JobQueue::new();
    assert!(matches!(q.claim(), Claim::Wait));
}
