use vstd::prelude::*;

use crate::error::KvsError;

verus! {

/// The worker-pool capability the server is parameterised over: construct
/// with a positive worker count, then hand one-shot jobs over for some
/// worker to run. Implementations own their threads; a pool whose size is
/// zero is rejected at construction. The trait makes no promises of its own.
pub trait ThreadPool: Sized {
    /// Build a pool of `threads` workers; rejects `threads == 0`.
    fn new(threads: u32) -> Result<Self, KvsError>;

    /// Enqueue one job for some worker to run.
    fn spawn<F: FnOnce() + Send + 'static>(&self, job: F);
}

} // verus!
