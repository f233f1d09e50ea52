use rand::Rng;
use vstd::prelude::*;

verus! {

/// A random place below `bound`. This calls `gen_range` of the crate `rand`
/// on the generator of the current thread, with the range from 0 up to and
/// without `bound`. Nothing is proved of it; what is taken on trust is that
/// the call returns a value inside the range it is given. Which value comes
/// back differs from call to call.
#[verifier::external_body]
pub(crate) fn random_index(bound: usize) -> (index: usize)
    requires
        bound > 0,
    ensures
        index < bound,
{
    rand::thread_rng().gen_range(0..bound)
}

} // verus!
