//! The decisions of a fixed-size worker pool.
//!
//! The threads, the job queue and the locks live outside the library; what
//! stands here is what the pool decides: how many jobs its queue holds, and
//! what a worker does with what the queue hands it.
use vstd::prelude::*;

verus! {

/// How many jobs wait in the queue of a pool of `workers` workers before a
/// submitter blocks: two per worker.  A pool has at least one worker.
pub fn queue_bound(workers: usize) -> (r: usize)
    requires
        0 < workers <= usize::MAX / 2,
    ensures
        r == 2 * workers,
{
    2 * workers
}

/// What a worker got from the job queue.
#[derive(Debug, Clone, Copy, PartialEq, Eq)]
pub enum WorkerEvent {
    /// A job.
    Job,
    /// Nothing, and nothing will come: the pool stopped accepting jobs.
    Closed,
}

/// What a worker does next.
#[derive(Debug, Clone, Copy, PartialEq, Eq)]
pub enum WorkerAction {
    /// Run the job, then wait for the next one.
    Run,
    /// Leave the loop; the worker's thread ends.
    Stop,
}

/// A worker runs every job it gets and stops once the queue is closed.
pub fn worker_step(event: WorkerEvent) -> (a: WorkerAction)
    ensures
        (a == WorkerAction::Run) <==> (event == WorkerEvent::Job),
        (a == WorkerAction::Stop) <==> (event == WorkerEvent::Closed),
{
    match event {
        WorkerEvent::Job => WorkerAction::Run,
        WorkerEvent::Closed => WorkerAction::Stop,
    }
}

} // verus!
