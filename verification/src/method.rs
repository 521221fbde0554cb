//! The computation variants that every benchmark compares.

use vstd::prelude::*;

verus! {

/// A way of running a benchmark's computation: sequentially, with rayon, or
/// with orx-parallel on one of its thread pools.
#[derive(Clone, Copy, Debug, PartialEq, Eq, Structural)]
pub enum Method {
    Sequential,
    Rayon,
    OrxOnce,
    OrxBasic,
    OrxRayon,
}

impl Method {
    /// The name of the method, as the benchmark reports list it.
    pub open spec fn name(self) -> Seq<char> {
        match self {
            Method::Sequential => "seq"@,
            Method::Rayon => "rayon"@,
            Method::OrxOnce => "orx-once"@,
            Method::OrxBasic => "orx-basic"@,
            Method::OrxRayon => "orx-rayon"@,
        }
    }

    /// The name of the method, as the benchmark reports list it.
    pub fn as_str(&self) -> (name: &'static str)
        ensures
            name@ == self.name(),
    {
        match self {
            Method::Sequential => "seq",
            Method::Rayon => "rayon",
            Method::OrxOnce => "orx-once",
            Method::OrxBasic => "orx-basic",
            Method::OrxRayon => "orx-rayon",
        }
    }

    /// Every method, in the order in which the benchmarks run them.
    pub fn get() -> (methods: Vec<Method>)
        ensures
            methods@ == seq![
                Method::Sequential,
                Method::Rayon,
                Method::OrxOnce,
                Method::OrxBasic,
                Method::OrxRayon,
            ],
    {
        vec![Method::Sequential, Method::Rayon, Method::OrxOnce, Method::OrxBasic, Method::OrxRayon]
    }
}

} // verus!
