//! The optimization barrier that the compute kernels wrap their values in.

use vstd::prelude::*;

verus! {

/// `core::hint::black_box` (`std::hint::black_box`): the documentation calls it
/// an identity function that only hints to the compiler; it returns its
/// argument.
pub assume_specification<T>[ core::hint::black_box::<T> ](dummy: T) -> (value: T)
    ensures
        value == dummy,
;

} // verus!
