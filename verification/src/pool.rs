use vstd::prelude::*;

verus! {

/// Relies on rayon's `current_num_threads`: the number of threads of the
/// current (or global) pool. A pool never has fewer than one thread — an
/// explicit build count is positive and the default resolves to the
/// available parallelism, with one as the floor.
#[verifier::external_body]
pub(crate) fn current_num_threads() -> (r: usize)
    ensures
        1 <= r,
{
    rayon::current_num_threads()
}

} // verus!
