//! Thread-pool sizing.
//!
//! The proof traces here are short (height = ring dimension `n`, e.g. 1024),
//! so the per-matrix work that is parallelised internally is small. With one
//! worker per logical CPU, the work-stealing and allocation overhead
//! *dominates* on tiny tasks, so the pool is capped at a size tuned for these
//! workloads, **unless** the caller has already expressed a preference.

use vstd::prelude::*;

verus! {

/// Where the internal data-parallelism saturates for traces of this size.
pub const MAX_DEFAULT_THREADS: usize = 6;

/// Workers where the machine does not tell its parallelism.
pub const FALLBACK_THREADS: usize = 4;

/// Default worker-thread count, given the available parallelism if it is
/// known: that number brought into `1..=6`, else 4.
pub fn default_threads(available: Option<usize>) -> (r: usize)
    ensures
        r == match available {
            Some(n) => if n < 1 {
                1
            } else if n > 6 {
                6
            } else {
                n
            },
            None => 4,
        },
        1 <= r <= 6,
{
    match available {
        Some(n) => if n < 1 {
            1
        } else if n > MAX_DEFAULT_THREADS {
            MAX_DEFAULT_THREADS
        } else {
            n
        },
        None => FALLBACK_THREADS,
    }
}

/// How large to build the global pool, if it is to be built at all.
///
/// - If `RAYON_NUM_THREADS` is set, it is left alone (`None`).
/// - Else a requested size of at least one is used.
/// - Else [`default_threads`].
pub fn pool_threads(
    rayon_is_set: bool,
    requested: Option<usize>,
    available: Option<usize>,
) -> (r: Option<usize>)
    ensures
        r is None <==> rayon_is_set,
        r matches Some(n) ==> n >= 1,
        !rayon_is_set && requested is Some && requested->0 >= 1 ==> r == requested,
        !rayon_is_set && (requested is None || requested->0 == 0) ==> r == Some(
            match available {
                Some(n) => if n < 1 {
                    1
                } else if n > 6 {
                    6
                } else {
                    n
                },
                None => 4,
            },
        ),
{
    if rayon_is_set {
        return None;
    }
    if let Some(n) = requested {
        if n >= 1 {
            return Some(n);
        }
    }
    Some(default_threads(available))
}

} // verus!
