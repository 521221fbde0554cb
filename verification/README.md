# parbench

The kernels of a suite of benchmarks that compare sequential, rayon and
orx-parallel versions of the same computation, written in Verus with their
contracts proved.

`src/` is the verified library:

- `sort_slice`: sorting `2^n` drawn `u64` values or key strings and reporting
  the largest; every method reports the largest element.
- `flatmap`: mapping each value to seven derived values (a light and a heavy
  workload) and flattening, in order.
- `arbitrary_iter` and `aggregate`: filtering or bumping values from an
  iterator, running a compute kernel on each and reducing to a wrapping sum,
  xor and count; the reduction does not depend on the order.
- `tree_collect`: building a tree and collecting, in pre-order, the nodes whose
  mixed value passes a threshold.
- `order`, `text`, `method`: the orders and sorts, integer renderings and the
  list of methods that the benchmarks share.

The CPU-bound mixing and Fibonacci workloads are passed in as functions; the
contracts hold for whatever values they return.

`app/` wires the kernels into `orx_criterion` experiments and holds the sort
benchmark's runner.
