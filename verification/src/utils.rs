//! Worker pools.

use rayon::iter::{IntoParallelIterator, ParallelIterator};
use vstd::prelude::*;

verus! {

/// A rayon pool of worker threads; the library only hands it on.
#[verifier::external_type_specification]
#[verifier::external_body]
pub struct ExThreadPool(rayon::ThreadPool);

/// rayon's error when a pool's threads cannot be started.
#[verifier::external_type_specification]
#[verifier::external_body]
pub struct ExThreadPoolBuildError(rayon::ThreadPoolBuildError);

/// The number of threads of a pool.
pub uninterp spec fn pool_size(pool: rayon::ThreadPool) -> nat;

/// Why there is no pool.
#[derive(Clone, Copy, Debug, PartialEq, Eq, Structural)]
pub enum PoolError {
    /// The threads of the pool could not be started.
    NotStarted,
}

/// The number of threads that `n_jobs` asks for: so many, or all that are available where
/// it is not positive.
pub open spec fn wanted_threads(n_jobs: isize, available: usize) -> usize {
    if n_jobs <= 0 { available } else { n_jobs as usize }
}

/// The most threads that a rayon pool has: its counters of threads have 16 bits where addresses
/// have 64, and 8 bits elsewhere.
pub open spec fn most_threads() -> nat {
    if usize::BITS == 64 { 0xFFFF } else { 0xFF }
}

/// A pool has the threads that were asked for, up to the most that a pool has.
pub open spec fn sized(pool: rayon::ThreadPool, wanted: usize) -> bool {
    pool_size(pool) == if wanted <= most_threads() { wanted as nat } else { most_threads() }
}

/// Starts a pool: rayon's `ThreadPoolBuilder::new().num_threads(n).build()`. A pool that was
/// started has the threads that were asked for, or as many as rayon's `max_num_threads` where
/// that is less. Whether the threads can be started is up to the machine: that is left open.
#[verifier::external_body]
fn start_pool(num_threads: usize) -> (r: Result<rayon::ThreadPool, rayon::ThreadPoolBuildError>)
    requires
        num_threads > 0,
    ensures
        r matches Ok(pool) ==> sized(pool, num_threads),
{
    rayon::ThreadPoolBuilder::new().num_threads(num_threads).build()
}

/// The pool that was started, or the library's error.
pub fn started_pool(started: Result<rayon::ThreadPool, rayon::ThreadPoolBuildError>) -> (r: Result<
    Option<rayon::ThreadPool>,
    PoolError,
>)
    ensures
        started matches Ok(pool) ==> r == Ok::<Option<rayon::ThreadPool>, PoolError>(Some(pool)),
        started is Err ==> r == Err::<Option<rayon::ThreadPool>, PoolError>(PoolError::NotStarted),
{
    match started {
        Ok(pool) => Ok(Some(pool)),
        Err(_) => Err(PoolError::NotStarted),
    }
}

/// A pool of as many threads as `n_jobs` asks for, up to the most that a pool has, where `available` is the number of threads
/// that the machine runs in parallel. One thread needs no pool.
pub fn build_thread_pool(n_jobs: isize, available: usize) -> (r: Result<Option<rayon::ThreadPool>, PoolError>)
    ensures
        wanted_threads(n_jobs, available) <= 1 ==> r == Ok::<Option<rayon::ThreadPool>, PoolError>(None),
        wanted_threads(n_jobs, available) > 1 ==> match r {
            Ok(pool) => pool is Some && sized(pool->0, wanted_threads(n_jobs, available)),
            Err(e) => e == PoolError::NotStarted,
        },
{
    let num_threads: usize = if n_jobs <= 0 { available } else { n_jobs as usize };
    if num_threads > 1 { started_pool(start_pool(num_threads)) } else { Ok(None) }
}

/// The number of threads of a pool: rayon's `ThreadPool::current_num_threads`. A pool has at
/// least one thread, and no more than rayon's `max_num_threads`.
#[verifier::external_body]
pub(crate) fn num_threads(pool: &rayon::ThreadPool) -> (n: usize)
    ensures
        n == pool_size(*pool),
        1 <= n <= most_threads(),
{
    pool.current_num_threads()
}

/// The results of `f` on the numbers below `n`, in their order, computed on the pool.
///
/// Runs rayon's `into_par_iter().map(..).collect()` on `0..n` inside `ThreadPool::install`.
/// What is relied on: the function is called once for each number, with no other argument,
/// and the collected vector holds the results in the order of the numbers.
#[verifier::external_body]
pub(crate) fn parallel_map<T: Send, F: Fn(usize) -> T + Sync + Send>(
    pool: &rayon::ThreadPool,
    n: usize,
    f: F,
) -> (out: Vec<T>)
    requires
        forall|i: usize| i < n ==> call_requires(f, (i,)),
    ensures
        out@.len() == n,
        forall|i: int| 0 <= i < n ==> call_ensures(f, (i as usize,), #[trigger] out@[i]),
{
    pool.install(|| (0..n).into_par_iter().map(|i| f(i)).collect())
}

/// A positive number of jobs is the number of threads that is asked for; else all that are
/// available are. A pool that was asked for up to 255 threads has them all.
pub proof fn law_threads_are_as_many_as_asked_for(pool: rayon::ThreadPool, n_jobs: isize, available: usize)
    ensures
        n_jobs > 0 ==> wanted_threads(n_jobs, available) == n_jobs,
        n_jobs <= 0 ==> wanted_threads(n_jobs, available) == available,
        sized(pool, wanted_threads(n_jobs, available)) && 0 < n_jobs <= 255 ==> pool_size(pool) == n_jobs,
        sized(pool, wanted_threads(n_jobs, available)) && n_jobs > 255 && usize::BITS == 64 ==> pool_size(pool) == if n_jobs
            <= 65535 {
            n_jobs as nat
        } else {
            65535
        },
{
}

} // verus!
