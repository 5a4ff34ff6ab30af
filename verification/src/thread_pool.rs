//! The thread pool contract: a bounded worker set that runs submitted
//! jobs.  The implementations live with the program around this
//! library, since spawning operating-system threads is theirs to do;
//! the server is generic over this trait.

use vstd::prelude::*;

use crate::errors::KVStoreError;

verus! {

/// A pool which uses a bounded set of workers to execute jobs.
pub trait ThreadPool: Sized {
    /// Creates a pool with the given number of workers, or fails if a
    /// worker cannot be started.
    fn new(threads: usize) -> (r: Result<Self, KVStoreError>);

    /// Hands a job to the pool.  Spawning never blocks and never
    /// fails; a job that panics must not shrink the worker set.
    fn spawn<F: FnOnce() + Send + 'static>(&self, job: F);
}

} // verus!
