//! Kernels of a suite of parallel-computation benchmarks, with their
//! contracts: the sequential reference computations, the inputs they run
//! on, and the parallel variants that must agree with them.

pub mod sort_slice;
pub mod text;
mod rng;
pub mod method;
pub mod workload;
pub mod order;
mod hint;
pub mod flatmap;
pub mod aggregate;
pub mod arbitrary_iter;
pub mod tree_collect;
