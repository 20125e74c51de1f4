//! How work is cut into chunks for threads.
use vstd::prelude::*;

verus! {

/// `git_features::parallel::optimize_chunk_size_and_thread_limit`: the size of the
/// chunks, the limit of threads and the number of threads to work with. They depend on
/// the machine and on how the crate was built, so only what holds either way is said: a
/// size that is asked for and is not zero gives a size that is not zero, and no more
/// threads are worked with than a limit allows that is not zero. A limit of threads
/// that cannot be doubled is left out.
#[verifier::external_body]
pub(crate) fn optimize_chunk_size_and_thread_limit(
    desired_chunk_size: usize,
    num_items: Option<usize>,
    thread_limit: Option<usize>,
) -> (sizes: (usize, Option<usize>, usize))
    requires
        thread_limit matches Some(limit) ==> limit <= usize::MAX / 2,
    ensures
        desired_chunk_size > 0 ==> sizes.0 > 0,
        thread_limit matches Some(limit) ==> limit > 0 ==> sizes.2 <= limit,
{
    git_features::parallel::optimize_chunk_size_and_thread_limit(
        desired_chunk_size,
        num_items,
        thread_limit,
        None,
    )
}

/// Whether there are more items than the threads take in one round of chunks, so that
/// work in parallel pays off. Fewer items are worked off by one thread, with the same
/// result.
pub fn there_are_enough_entries_to_process(items: usize, chunk_size: usize, available_cores: usize) -> (enough:
    bool)
    ensures
        enough == (items > chunk_size * available_cores),
{
    if chunk_size == 0 || available_cores == 0 {
        assert(chunk_size * available_cores == 0) by (nonlinear_arith)
            requires
                chunk_size == 0 || available_cores == 0,
        ;
        return items > 0;
    }
    // Without a product that may not fit: divide instead.
    let rounds = items / chunk_size;
    let rest = items % chunk_size;
    assert(items == rounds * chunk_size + rest && rest < chunk_size) by (nonlinear_arith)
        requires
            rounds == items / chunk_size,
            rest == items % chunk_size,
            chunk_size > 0,
    ;
    if rounds > available_cores {
        assert(items > chunk_size * available_cores) by (nonlinear_arith)
            requires
                items == rounds * chunk_size + rest,
                rounds > available_cores,
                chunk_size > 0,
                rest >= 0,
        ;
        true
    } else if rounds == available_cores {
        assert((items > chunk_size * available_cores) == (rest > 0)) by (nonlinear_arith)
            requires
                items == rounds * chunk_size + rest,
                rounds == available_cores,
        ;
        rest > 0
    } else {
        assert(items <= chunk_size * available_cores) by (nonlinear_arith)
            requires
                items == rounds * chunk_size + rest,
                rounds < available_cores,
                rest < chunk_size,
                chunk_size > 0,
        ;
        false
    }
}

} // verus!
