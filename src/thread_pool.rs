//! Worker pools: the interface that the server dispatches connections
//! through, and the time budget of a pool's shutdown.
use vstd::prelude::*;

use crate::error::KvsError;

verus! {

/// A pool of worker threads that runs jobs.
pub trait ThreadPool {
    /// A pool of `threads` workers.
    fn new(threads: u32) -> Result<Self, KvsError> where Self: Sized;

    /// Hands `job` to a worker.
    fn spawn<F>(&self, job: F) where F: FnOnce() + Send + 'static;
}

/// The time left to wait for the next worker, in milliseconds, when
/// `elapsed` of a shutdown budget of `timeout` have passed; `Pooling` once
/// the budget is spent.
pub fn join_budget(timeout: u64, elapsed: u64) -> (r: Result<u64, KvsError>)
    ensures
        elapsed >= timeout ==> r == Err::<u64, KvsError>(KvsError::Pooling),
        elapsed < timeout ==> r == Ok::<u64, KvsError>((timeout - elapsed) as u64),
{
    if elapsed >= timeout {
        Err(KvsError::Pooling)
    } else {
        Ok(timeout - elapsed)
    }
}

/// The outcome of a shutdown that took `elapsed` of a budget of `timeout`
/// milliseconds: `Pooling` when it overran.
pub fn shutdown_outcome(timeout: u64, elapsed: u64) -> (r: Result<(), KvsError>)
    ensures
        elapsed > timeout ==> r == Err::<(), KvsError>(KvsError::Pooling),
        elapsed <= timeout ==> r == Ok::<(), KvsError>(()),
{
    if elapsed > timeout {
        Err(KvsError::Pooling)
    } else {
        Ok(())
    }
}

} // verus!
