use minitools::pool::{queue_bound, worker_step, WorkerAction, WorkerEvent};

#[test]
fn queue_holds_two_jobs_per_worker() {
    assert_eq!(queue_bound(1), 2);
    assert_eq!(queue_bound(2), 4);
    assert_eq!(queue_bound(7), 14);
}

#[test]
fn worker_runs_jobs_until_closed() {
    assert_eq!(worker_step(WorkerEvent::Job), WorkerAction::Run);
    assert_eq!(worker_step(WorkerEvent::Closed), WorkerAction::Stop);
}
