use servum::pool::{JobQueue, Message};

#[test]
fn shutdown_runs_every_job_once() {
    let workers = 3;
    let mut queue: JobQueue<u32> = JobQueue::new(workers);
    for job in 0..10 {
        queue.submit(job);
    }
    queue.shutdown();
    let mut alive = vec![true; workers];
    let mut ran = Vec::new();
    let mut w = 0;
    while alive.iter().any(|a| *a) {
        if alive[w] {
            match queue.next() {
                Some(Message::NewJob(j)) => ran.push(j),
                Some(Message::Terminate) => alive[w] = false,
                None => panic!("a worker waited on an empty queue"),
            }
        }
        w = (w + 1) % workers;
    }
    assert_eq!(ran, (0..10).collect::<Vec<u32>>());
    assert!(queue.next().is_none());
}

#[test]
fn queue_is_first_in_first_out() {
    let mut queue: JobQueue<&str> = JobQueue::new(1);
    assert_eq!(queue.workers(), 1);
    assert!(queue.next().is_none());
    queue.submit("a");
    queue.submit("b");
    assert!(matches!(queue.next(), Some(Message::NewJob("a"))));
    queue.shutdown();
    assert!(matches!(queue.next(), Some(Message::NewJob("b"))));
    assert!(matches!(queue.next(), Some(Message::Terminate)));
    assert!(queue.next().is_none());
}
