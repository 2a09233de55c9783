//! The size of the worker pool.

use vstd::prelude::*;

verus! {

/// The largest pool that is ever run.
pub const MAX_WORKERS: usize = 64;

/// The pool size that is used when none is asked for: twice the parallelism
/// that the host offers, within the bounds of a pool.
pub open spec fn default_pool_size(parallelism: usize) -> int {
    if parallelism == 0 {
        1
    } else if 2 * parallelism > MAX_WORKERS {
        MAX_WORKERS as int
    } else {
        2 * parallelism
    }
}

/// The number of workers to run: the number asked for, or else the default,
/// but never fewer than one nor more than `MAX_WORKERS`.
pub fn pool_size(requested: Option<usize>, parallelism: usize) -> (workers: usize)
    ensures
        1 <= workers <= MAX_WORKERS,
        requested matches Some(wanted) ==> workers == if wanted == 0 {
            1
        } else if wanted > MAX_WORKERS {
            MAX_WORKERS as int
        } else {
            wanted as int
        },
        requested is None ==> workers == default_pool_size(parallelism),
{
    match requested {
        Some(wanted) => {
            if wanted == 0 {
                1
            } else if wanted > MAX_WORKERS {
                MAX_WORKERS
            } else {
                wanted
            }
        },
        None => {
            if parallelism == 0 {
                1
            } else if parallelism > MAX_WORKERS / 2 {
                MAX_WORKERS
            } else {
                2 * parallelism
            }
        },
    }
}

} // verus!
