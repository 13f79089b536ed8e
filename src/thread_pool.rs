//! The thread pool contract.
use crate::error::KvsError;
use vstd::prelude::*;

verus! {

/// A pool of threads that runs jobs.
pub trait ThreadPool: Sized {
    /// A pool of `threads` workers.
    fn new(threads: u32) -> Result<Self, KvsError>;

    /// Runs `job` on the pool; does not block.
    fn spawn<F>(&self, job: F) where F: FnOnce() + Send + 'static;
}

} // verus!
