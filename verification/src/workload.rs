//! What the kernels assume of the CPU-bound workload functions that are
//! passed in (mixing, Fibonacci): only that they can be called.

use vstd::prelude::*;

verus! {

/// `f` may be called with any pair of arguments.
pub open spec fn callable<M: Fn(u64, u64) -> u64>(f: &M) -> bool {
    forall|a: u64, b: u64| #[trigger] call_requires(*f, (a, b))
}

/// `f` gives one value for each pair of arguments it is called with.
pub open spec fn deterministic<M: Fn(u64, u64) -> u64>(f: &M) -> bool {
    forall|a: u64, b: u64, v1: u64, v2: u64|
        #![trigger call_ensures(*f, (a, b), v1), call_ensures(*f, (a, b), v2)]
        call_ensures(*f, (a, b), v1) && call_ensures(*f, (a, b), v2) ==> v1 == v2
}

} // verus!
