//! The worker-pool interface the server runs request handlers on.

use vstd::prelude::*;
use crate::errors::KvError;

verus! {

/// A fixed-size pool of workers sharing a task queue. Implementations live
/// outside the verified core; a worker that aborts is replaced so the pool's
/// steady-state size is restored.
pub trait ThreadPool: Sized {
    /// A pool of `threads` workers.
    fn new(threads: i32) -> Result<Self, KvError>;

    /// Runs `job` on some worker.
    fn spawn<F>(&self, job: F) where F: FnOnce() + Send + 'static;
}

} // verus!
