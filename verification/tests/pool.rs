use threadpool::message::{Action, Message};
use threadpool::pool::{PoolError, ThreadPool};
use threadpool::worker::WorkerState;

#[test]
fn zero_threads_fails_without_side_effects() {
    match ThreadPool::new(0) {
        Err(e) => assert_eq!(e, PoolError::ZeroThreads),
        Ok(_) => panic!("a pool of zero threads must be refused"),
    }
}

#[test]
fn construction_fixes_worker_count() {
    let p = ThreadPool::new(4).unwrap();
    assert_eq!(p.num_threads(), 4);
    assert_eq!(p.queue_len(), 0);
    assert!(!p.shutdown_requested);
    assert!(!p.all_terminated());
    for (i, w) in p.workers.iter().enumerate() {
        assert_eq!(w.id, i);
        assert_eq!(w.state, WorkerState::Idle);
    }
}

#[test]
fn submit_appends_in_fifo_order() {
    let mut p = ThreadPool::new(2).unwrap();
    p.execute(10).unwrap();
    p.execute(20).unwrap();
    p.execute(30).unwrap();
    assert_eq!(p.queue_len(), 3);
    assert_eq!(
        p.channel.queue,
        vec![Message::NewJob(10), Message::NewJob(20), Message::NewJob(30)]
    );
    assert_eq!(p.submitted, vec![10, 20, 30]);
}

#[test]
fn dispatch_in_submission_order() {
    let mut p = ThreadPool::new(1).unwrap();
    p.execute(1).unwrap();
    p.execute(2).unwrap();
    p.execute(3).unwrap();
    let mut started = Vec::new();
    while let Some(action) = p.try_receive(0) {
        match action {
            Action::Execute(t) => {
                started.push(t);
                assert_eq!(p.complete(0), t);
            }
            Action::Exit => panic!("no terminate signal was enqueued"),
        }
    }
    assert_eq!(started, vec![1, 2, 3]);
    assert_eq!(p.started, vec![1, 2, 3]);
}

#[test]
fn receive_on_empty_channel_returns_none() {
    let mut p = ThreadPool::new(1).unwrap();
    assert_eq!(p.try_receive(0), None);
    assert_eq!(p.workers[0].state, WorkerState::Idle);
}

#[test]
fn two_workers_hold_tasks_at_once() {
    let mut p = ThreadPool::new(2).unwrap();
    p.execute(7).unwrap();
    p.execute(8).unwrap();
    assert_eq!(p.try_receive(0), Some(Action::Execute(7)));
    assert_eq!(p.try_receive(1), Some(Action::Execute(8)));
    assert_eq!(p.workers[0].state, WorkerState::Busy(7));
    assert_eq!(p.workers[1].state, WorkerState::Busy(8));
    assert_eq!(p.complete(1), 8);
    assert_eq!(p.complete(0), 7);
    assert_eq!(p.completed, vec![8, 7]);
}

#[test]
fn single_worker_completes_a_before_b_starts() {
    let mut p = ThreadPool::new(1).unwrap();
    p.execute(1).unwrap();
    p.execute(2).unwrap();
    assert_eq!(p.try_receive(0), Some(Action::Execute(1)));
    assert_eq!(p.started, vec![1]);
    assert_eq!(p.completed, Vec::<u64>::new());
    assert_eq!(p.complete(0), 1);
    assert_eq!(p.completed, vec![1]);
    assert_eq!(p.try_receive(0), Some(Action::Execute(2)));
    assert_eq!(p.started, vec![1, 2]);
}

#[test]
fn shutdown_enqueues_one_terminate_per_worker() {
    let mut p = ThreadPool::new(3).unwrap();
    p.shutdown_request().unwrap();
    assert!(p.shutdown_requested);
    assert_eq!(p.queue_len(), 3);
    assert_eq!(
        p.channel.queue,
        vec![Message::Terminate, Message::Terminate, Message::Terminate]
    );
    assert_eq!(p.shutdown_request(), Err(PoolError::ShutDown));
    assert_eq!(p.queue_len(), 3);
}

#[test]
fn execute_after_shutdown_is_rejected() {
    let mut p = ThreadPool::new(1).unwrap();
    p.shutdown_request().unwrap();
    assert_eq!(p.execute(5), Err(PoolError::ShutDown));
    assert_eq!(p.queue_len(), 1);
    assert_eq!(p.submitted, Vec::<u64>::new());
}

#[test]
fn pending_jobs_drain_before_terminate() {
    let mut p = ThreadPool::new(1).unwrap();
    p.execute(42).unwrap();
    p.shutdown_request().unwrap();
    assert_eq!(p.try_receive(0), Some(Action::Execute(42)));
    assert_eq!(p.complete(0), 42);
    assert_eq!(p.try_receive(0), Some(Action::Exit));
    assert_eq!(p.workers[0].state, WorkerState::Terminated);
    assert!(p.all_terminated());
    assert_eq!(p.queue_len(), 0);
}

#[test]
fn four_workers_run_ten_tasks_exactly_once() {
    let mut p = ThreadPool::new(4).unwrap();
    for t in 0..10u64 {
        p.execute(t).unwrap();
    }
    p.shutdown_request().unwrap();
    let mut counter = 0u64;
    let mut exited = 0usize;
    while exited < 4 {
        for w in 0..4usize {
            if p.workers[w].state == WorkerState::Idle {
                match p.try_receive(w) {
                    Some(Action::Execute(_)) => {
                        counter += 1;
                        p.complete(w);
                    }
                    Some(Action::Exit) => exited += 1,
                    None => {}
                }
            }
        }
    }
    assert_eq!(counter, 10);
    assert!(p.all_terminated());
    let mut done = p.completed.clone();
    done.sort();
    let expected: Vec<u64> = (0..10).collect();
    assert_eq!(done, expected);
    assert_eq!(p.started, p.submitted);
}
