//! Flat-mapping every input value to seven derived values, in order.

use core::hint::black_box;
use orx_parallel::{IntoParIter, Par};
use rayon::iter::{IntoParallelIterator, ParallelIterator};
use vstd::prelude::*;
use crate::workload::deterministic;
use crate::method::Method;
use crate::order::{lemma_sorted_permutations_equal, permutes, sort_u64s, sorted_u64s};
use crate::rng::{draw_values, draws};

verus! {

/// The seed of the generator that draws the benchmark's values.
pub const SEED: u64 = 654;

/// The first argument of the heavy workload's Fibonacci calls.
pub const FIB_UPPER_BOUND: u64 = 99;

/// The flattened values that a run produced.
#[derive(Debug, PartialEq)]
pub enum Output {
    Vec(Vec<u64>),
}

/// Whether a parallel run must keep the input's order.
#[derive(Clone, Copy, Debug, PartialEq, Eq, Structural)]
pub enum IterationOrder {
    Arbitrary,
    Ordered,
}

/// The value that the light workload derives from `n`.
pub open spec fn light_value(n: int) -> int {
    if n == 999 {
        999
    } else {
        7 * n + 1000
    }
}

/// The seven values that the light workload derives from `x`: those of
/// `x + 0` to `x + 6`.
pub open spec fn light_items(x: u64) -> Seq<u64> {
    Seq::new(7, |y: int| light_value(x + y) as u64)
}

/// The light workload on `x` stays within `u64`.
pub open spec fn light_fits(x: u64) -> bool {
    7 * (x + 6) + 1000 <= u64::MAX
}

/// The value that the heavy workload derives from `x` and a Fibonacci value `f`.
pub open spec fn heavy_value(x: int, f: int) -> int {
    let g = x + f;
    if f + g == 999 {
        g - f
    } else {
        7 * (f + g) + 1000
    }
}

/// `fib` may be called with the arguments `x + 0` to `x + 6` that the heavy
/// workload on `x` passes, and whatever it returns for them keeps the
/// workload within `u64`.
pub open spec fn heavy_fits<F: Fn(u64, u64) -> u64>(fib: F, x: u64) -> bool {
    &&& x + 6 <= u64::MAX
    &&& forall|n: u64| x <= n <= x + 6 ==> #[trigger] call_requires(fib, (FIB_UPPER_BOUND, n))
    &&& forall|n: u64, f: u64|
        x <= n <= x + 6 && #[trigger] call_ensures(fib, (FIB_UPPER_BOUND, n), f) ==> 7 * (x + 2 * f) + 1000 <= u64::MAX
}

/// `value` is what the heavy workload derives from `x` and a value that
/// `fib` returned for `x + y`.
pub open spec fn heavy_item_from<F: Fn(u64, u64) -> u64>(fib: F, x: u64, y: int, value: u64) -> bool {
    exists|f: u64|
        call_ensures(fib, (FIB_UPPER_BOUND, (x + y) as u64), f) && value == heavy_value(x as int, f as int)
}

/// `items` are seven values that the heavy workload derives from `x`: the
/// `y`-th from a value that `fib` returned for `x + y`.
pub open spec fn heavy_items<F: Fn(u64, u64) -> u64>(fib: F, x: u64, items: Seq<u64>) -> bool {
    &&& items.len() == 7
    &&& forall|y: int| 0 <= y < 7 ==> heavy_item_from(fib, x, y, #[trigger] items[y])
}

/// The workload on `x` stays within `u64`.
pub open spec fn fits<F: Fn(u64, u64) -> u64>(heavy: bool, fib: F, x: u64) -> bool {
    if heavy {
        heavy_fits(fib, x)
    } else {
        light_fits(x)
    }
}

/// `items` are what the workload derives from `x`.
pub open spec fn expands<F: Fn(u64, u64) -> u64>(heavy: bool, fib: F, x: u64, items: Seq<u64>) -> bool {
    if heavy {
        heavy_items(fib, x, items)
    } else {
        items == light_items(x)
    }
}

/// `fits`, with the Fibonacci function taken by reference.
pub open spec fn fits_by_ref<F: Fn(u64, u64) -> u64>(heavy: bool, fib: &F, x: u64) -> bool {
    fits(heavy, *fib, x)
}

/// `expands`, with the Fibonacci function taken by reference.
pub open spec fn expands_by_ref<F: Fn(u64, u64) -> u64>(heavy: bool, fib: &F, x: u64, items: Seq<u64>) -> bool {
    expands(heavy, *fib, x, items)
}

/// `out` is the flat map of `input`: the values derived from each input
/// value, in the input's order.
pub open spec fn flat_map_of<F: Fn(u64, u64) -> u64>(
    heavy: bool,
    fib: F,
    input: Seq<u64>,
    out: Seq<u64>,
) -> bool {
    exists|parts: Seq<Seq<u64>>|
        #![trigger parts.flatten()]
        {
            &&& parts.len() == input.len()
            &&& (forall|i: int| 0 <= i < input.len() ==> expands(heavy, fib, input[i], #[trigger] parts[i]))
            &&& out == parts.flatten()
        }
}

/// The light flat map of `input`.
pub open spec fn light_flat_map(input: Seq<u64>) -> Seq<u64> {
    input.map_values(|x: u64| light_items(x)).flatten()
}

/// The light workload: the seven values derived from `x`.
pub fn l_m(x: &u64) -> (items: Vec<u64>)
    requires
        light_fits(*x),
    ensures
        items@ == light_items(*x),
{
    let mut items: Vec<u64> = Vec::new();
    let mut y: u64 = 0;
    while y < 7
        invariant
            y <= 7,
            light_fits(*x),
            items@ == light_items(*x).take(y as int),
        decreases 7 - y,
    {
        let n = *x + y;
        let value = if n == 999 { 999 } else { 7 * n + 1000 };
        items.push(value);
        assert(light_items(*x).take(y + 1) =~= light_items(*x).take(y as int).push(value));
        y = y + 1;
    }
    assert(light_items(*x).take(7) =~= light_items(*x));
    items
}

/// One value of the heavy workload, from `x` and the Fibonacci value `f`.
fn heavy_item(x: u64, f: u64) -> (value: u64)
    requires
        7 * (x + 2 * f) + 1000 <= u64::MAX,
    ensures
        value == heavy_value(x as int, f as int),
{
    let f = black_box(f);
    let g = black_box(x + f);
    let n = f + g;
    if n == 999 {
        g - f
    } else {
        7 * n + 1000
    }
}

/// The heavy workload: the seven values derived from `x`, each from a
/// Fibonacci value that `fib` computes (`fib(FIB_UPPER_BOUND, x + y)`).
pub fn h_m<F: Fn(u64, u64) -> u64>(x: &u64, fib: &F) -> (items: Vec<u64>)
    requires
        heavy_fits(*fib, *x),
    ensures
        heavy_items(*fib, *x, items@),
{
    let mut items: Vec<u64> = Vec::new();
    let ghost mut fs: Seq<u64> = Seq::empty();
    let mut y: u64 = 0;
    while y < 7
        invariant
            y <= 7,
            heavy_fits(*fib, *x),
            items.len() == y,
            fs.len() == y,
            forall|k: int| 0 <= k < y ==> call_ensures(*fib, (FIB_UPPER_BOUND, (*x + k) as u64), #[trigger] fs[k]),
            forall|k: int| 0 <= k < y ==> #[trigger] items@[k] == heavy_value(*x as int, fs[k] as int),
        decreases 7 - y,
    {
        let n = *x + y;
        assert(call_requires(*fib, (FIB_UPPER_BOUND, n)));
        let f = fib(FIB_UPPER_BOUND, n);
        assert(7 * (*x + 2 * f) + 1000 <= u64::MAX);
        let value = heavy_item(*x, f);
        items.push(value);
        proof {
            fs = fs.push(f);
        }
        y = y + 1;
    }
    assert forall|k: int| 0 <= k < 7 implies heavy_item_from(*fib, *x, k, #[trigger] items@[k]) by {
        assert(call_ensures(*fib, (FIB_UPPER_BOUND, (*x + k) as u64), fs[k]));
    }
    items
}


/// The benchmark's input: `len` values below 150, drawn from a generator
/// seeded with `SEED`.
pub fn make_input(len: usize) -> (input: Vec<u64>)
    ensures
        input@ == draws(SEED, 0, 149, len as nat),
        input.len() == len,
        forall|i: int| 0 <= i < len ==> input[i] < 150,
{
    draw_values(SEED, 0, 149, len)
}

/// A flat map of light items is the light flat map, and any flat map has
/// seven values per input value.
pub proof fn lemma_flat_map_shape<F: Fn(u64, u64) -> u64>(
    heavy: bool,
    fib: F,
    input: Seq<u64>,
    out: Seq<u64>,
)
    requires
        flat_map_of(heavy, fib, input, out),
    ensures
        out.len() == 7 * input.len(),
        !heavy ==> out == light_flat_map(input),
    decreases input.len(),
{
    let parts = choose|parts: Seq<Seq<u64>>|
        #![trigger parts.flatten()]
        {
            &&& parts.len() == input.len()
            &&& (forall|i: int| 0 <= i < input.len() ==> expands(heavy, fib, input[i], #[trigger] parts[i]))
            &&& out == parts.flatten()
        };
    if input.len() > 0 {
        let rest = parts.drop_first();
        assert(flat_map_of(heavy, fib, input.drop_first(), rest.flatten())) by {
            assert forall|i: int| 0 <= i < input.drop_first().len() implies expands(
                heavy,
                fib,
                input.drop_first()[i],
                #[trigger] rest[i],
            ) by {
                assert(expands(heavy, fib, input[i + 1], parts[i + 1]));
            }
        }
        lemma_flat_map_shape(heavy, fib, input.drop_first(), rest.flatten());
        assert(expands(heavy, fib, input[0], parts[0]));
        assert(out == parts[0] + rest.flatten());
        if !heavy {
            let lights = input.map_values(|x: u64| light_items(x));
            assert(lights.drop_first() =~= input.drop_first().map_values(|x: u64| light_items(x)));
            assert(light_flat_map(input) == lights[0] + lights.drop_first().flatten());
        }
    } else {
        assert(parts =~= Seq::<Seq<u64>>::empty());
        assert(input.map_values(|x: u64| light_items(x)) =~= Seq::<Seq<u64>>::empty());
    }
}

/// Flat-maps `input` sequentially with the light or the heavy workload.
pub fn run_seq<F: Fn(u64, u64) -> u64>(input: &[u64], heavy: bool, fib: &F) -> (output: Output)
    requires
        forall|i: int| 0 <= i < input.len() ==> fits(heavy, *fib, #[trigger] input[i]),
    ensures
        match output {
            Output::Vec(v) => {
                &&& flat_map_of(heavy, *fib, input@, v@)
                &&& v.len() == 7 * input.len()
                &&& !heavy ==> v@ == light_flat_map(input@)
            },
        },
{
    let mut out: Vec<u64> = Vec::new();
    let ghost mut parts: Seq<Seq<u64>> = Seq::empty();
    for i in 0..input.len()
        invariant
            forall|i: int| 0 <= i < input.len() ==> fits(heavy, *fib, #[trigger] input[i]),
            parts.len() == i,
            forall|j: int| 0 <= j < i ==> expands(heavy, *fib, input[j], #[trigger] parts[j]),
            out@ == parts.flatten(),
    {
        let mut items = if heavy {
            h_m(&input[i], fib)
        } else {
            l_m(&input[i])
        };
        proof {
            parts.lemma_flatten_push(items@);
            parts = parts.push(items@);
        }
        out.append(&mut items);
    }
    proof {
        assert(input@.len() == parts.len());
        assert(flat_map_of(heavy, *fib, input@, out@));
        lemma_flat_map_shape(heavy, *fib, input@, out@);
    }
    Output::Vec(out)
}


/// `parts`, taken by their views, flattened.
pub open spec fn flat_views(parts: Seq<Vec<u64>>) -> Seq<u64> {
    parts.map_values(|p: Vec<u64>| p@).flatten()
}

/// rayon's `flat_map_iter` over the slice, then `collect` into a `Vec`: the
/// items that `expand` returns for each input value, concatenated in the
/// input's order (`collect` keeps the order of the parallel iterator). Each
/// call of `expand` is believed to meet its own contract.
#[verifier::external_body]
fn rayon_flat_map<G: Fn(&u64) -> Vec<u64> + Sync + Send>(input: &[u64], expand: G) -> (out: Vec<u64>)
    requires
        forall|i: int| 0 <= i < input.len() ==> call_requires(expand, (&input@[i],)),
    ensures
        exists|parts: Seq<Vec<u64>>|
            #![trigger flat_views(parts)]
            {
                &&& parts.len() == input.len()
                &&& forall|i: int| 0 <= i < input.len() ==> call_ensures(expand, (&input@[i],), #[trigger] parts[i])
                &&& out@ == flat_views(parts)
            },
{
    input.into_par_iter().flat_map_iter(expand).collect()
}

/// orx-parallel's `into_par`, `iteration_order`, `flat_map` and `collect`:
/// the items that `expand` returns for each input value, concatenated in the
/// input's order where the order is `Ordered`, and in an arbitrary order
/// otherwise, as the documentation of `IterationOrder` says.
#[verifier::external_body]
fn orx_flat_map<G: Fn(&u64) -> Vec<u64> + Copy + Sync + Send>(
    input: &[u64],
    order: IterationOrder,
    expand: G,
) -> (out: Vec<u64>)
    requires
        forall|i: int| 0 <= i < input.len() ==> call_requires(expand, (&input@[i],)),
    ensures
        exists|parts: Seq<Vec<u64>>|
            #![trigger flat_views(parts)]
            {
                &&& parts.len() == input.len()
                &&& forall|i: int| 0 <= i < input.len() ==> call_ensures(expand, (&input@[i],), #[trigger] parts[i])
                &&& order == IterationOrder::Ordered ==> out@ == flat_views(parts)
                &&& order == IterationOrder::Arbitrary ==> permutes(out@, flat_views(parts))
            },
{
    let order = match order {
        IterationOrder::Arbitrary => orx_parallel::IterationOrder::Arbitrary,
        IterationOrder::Ordered => orx_parallel::IterationOrder::Ordered,
    };
    input.into_par().iteration_order(order).flat_map(expand).collect()
}

/// Parts whose views each expand the matching input value make a flat map.
proof fn lemma_parts_flat_map<F: Fn(u64, u64) -> u64>(
    heavy: bool,
    fib: F,
    input: Seq<u64>,
    parts: Seq<Vec<u64>>,
)
    requires
        parts.len() == input.len(),
        forall|i: int| 0 <= i < input.len() ==> expands(heavy, fib, input[i], #[trigger] parts[i]@),
    ensures
        flat_map_of(heavy, fib, input, flat_views(parts)),
{
    let views = parts.map_values(|p: Vec<u64>| p@);
    assert forall|i: int| 0 <= i < input.len() implies expands(heavy, fib, input[i], #[trigger] views[i]) by {
        assert(views[i] == parts[i]@);
    }
    assert(views.flatten() == flat_views(parts));
}

/// Flat-maps `input` with rayon, in the input's order.
pub fn run_rayon<F: Fn(u64, u64) -> u64 + Sync>(input: &[u64], heavy: bool, fib: &F) -> (output: Output)
    requires
        forall|i: int| 0 <= i < input.len() ==> fits(heavy, *fib, #[trigger] input[i]),
    ensures
        match output {
            Output::Vec(v) => {
                &&& flat_map_of(heavy, *fib, input@, v@)
                &&& v.len() == 7 * input.len()
                &&& !heavy ==> v@ == light_flat_map(input@)
            },
        },
{
    let expand = |x: &u64| -> (items: Vec<u64>)
        requires
            fits_by_ref(heavy, fib, *x),
        ensures
            expands_by_ref(heavy, fib, *x, items@),
        {
            if heavy {
                h_m(x, fib)
            } else {
                l_m(x)
            }
        };
    let out = rayon_flat_map(input, expand);
    proof {
        let parts = choose|parts: Seq<Vec<u64>>|
            #![trigger flat_views(parts)]
            {
                &&& parts.len() == input.len()
                &&& forall|i: int| 0 <= i < input.len() ==> call_ensures(expand, (&input@[i],), #[trigger] parts[i])
                &&& out@ == flat_views(parts)
            };
        assert forall|i: int| 0 <= i < input.len() implies expands(heavy, *fib, input@[i], #[trigger] parts[i]@) by {
            assert(call_ensures(expand, (&input@[i],), parts[i]));
        }
        lemma_parts_flat_map(heavy, *fib, input@, parts);
        lemma_flat_map_shape(heavy, *fib, input@, out@);
    }
    Output::Vec(out)
}

/// Flat-maps `input` with orx-parallel, in the input's order where `order`
/// is `Ordered`.
pub fn run_orx<F: Fn(u64, u64) -> u64 + Sync>(
    input: &[u64],
    heavy: bool,
    fib: &F,
    order: IterationOrder,
) -> (output: Output)
    requires
        forall|i: int| 0 <= i < input.len() ==> fits(heavy, *fib, #[trigger] input[i]),
    ensures
        match output {
            Output::Vec(v) => exists|expected: Seq<u64>| {
                &&& flat_map_of(heavy, *fib, input@, expected)
                &&& expected.len() == 7 * input.len()
                &&& !heavy ==> expected == light_flat_map(input@)
                &&& order == IterationOrder::Ordered ==> v@ == expected
                &&& order == IterationOrder::Arbitrary ==> permutes(v@, expected)
            },
        },
{
    let expand = |x: &u64| -> (items: Vec<u64>)
        requires
            fits_by_ref(heavy, fib, *x),
        ensures
            expands_by_ref(heavy, fib, *x, items@),
        {
            if heavy {
                h_m(x, fib)
            } else {
                l_m(x)
            }
        };
    let out = orx_flat_map(input, order, expand);
    proof {
        let parts = choose|parts: Seq<Vec<u64>>|
            #![trigger flat_views(parts)]
            {
                &&& parts.len() == input.len()
                &&& forall|i: int| 0 <= i < input.len() ==> call_ensures(expand, (&input@[i],), #[trigger] parts[i])
                &&& order == IterationOrder::Ordered ==> out@ == flat_views(parts)
                &&& order == IterationOrder::Arbitrary ==> permutes(out@, flat_views(parts))
            };
        assert forall|i: int| 0 <= i < input.len() implies expands(heavy, *fib, input@[i], #[trigger] parts[i]@) by {
            assert(call_ensures(expand, (&input@[i],), parts[i]));
        }
        lemma_parts_flat_map(heavy, *fib, input@, parts);
        lemma_flat_map_shape(heavy, *fib, input@, flat_views(parts));
    }
    Output::Vec(out)
}


/// Runs the benchmark with `method`, and says whether the output keeps the
/// input's order (every method does).
pub fn execute<F: Fn(u64, u64) -> u64 + Sync>(
    method: Method,
    input: &[u64],
    heavy: bool,
    fib: &F,
) -> (result: (bool, Output))
    requires
        forall|i: int| 0 <= i < input.len() ==> fits(heavy, *fib, #[trigger] input[i]),
    ensures
        result.0,
        match result.1 {
            Output::Vec(v) => {
                &&& flat_map_of(heavy, *fib, input@, v@)
                &&& v.len() == 7 * input.len()
                &&& !heavy ==> v@ == light_flat_map(input@)
            },
        },
{
    match method {
        Method::Sequential => (true, run_seq(input, heavy, fib)),
        Method::Rayon => (true, run_rayon(input, heavy, fib)),
        _ => {
            let output = run_orx(input, heavy, fib, IterationOrder::Ordered);
            (true, output)
        },
    }
}

/// The two vectors hold the same values in the same order.
fn same_values(a: &Vec<u64>, b: &Vec<u64>) -> (same: bool)
    ensures
        same == (a@ == b@),
{
    if a.len() != b.len() {
        return false;
    }
    let mut i: usize = 0;
    while i < a.len()
        invariant
            a.len() == b.len(),
            i <= a.len(),
            forall|j: int| 0 <= j < i ==> a[j] == b[j],
        decreases a.len() - i,
    {
        if a[i] != b[i] {
            return false;
        }
        i = i + 1;
    }
    assert(a@ =~= b@);
    true
}

/// The output agrees with `expected`: equal where order is kept, the same
/// values, each as often, otherwise.
pub open spec fn agrees(ordered: bool, expected: Seq<u64>, out: Seq<u64>) -> bool {
    if ordered {
        out == expected
    } else {
        permutes(out, expected)
    }
}

/// Checks `output` against the sequential run on the same input: equal
/// where the run kept the input's order, equal once both are sorted otherwise.
pub fn validate_output<F: Fn(u64, u64) -> u64>(
    input: &[u64],
    heavy: bool,
    fib: &F,
    ordered: bool,
    output: &Output,
) -> (valid: bool)
    requires
        forall|i: int| 0 <= i < input.len() ==> fits(heavy, *fib, #[trigger] input[i]),
    ensures
        match output {
            Output::Vec(v) => exists|expected: Seq<u64>|
                flat_map_of(heavy, *fib, input@, expected) && valid == agrees(ordered, expected, v@),
        },
{
    let mut expected = match run_seq(input, heavy, fib) {
        Output::Vec(v) => v,
    };
    let ghost run = expected@;
    let valid = match output {
        Output::Vec(result) => {
            if ordered {
                same_values(&expected, result)
            } else {
                sort_u64s(&mut expected);
                let mut result = result.clone();
                assert(result@ =~= output->0@);
                sort_u64s(&mut result);
                let valid = same_values(&expected, &result);
                proof {
                    if !valid && permutes(output->0@, run) {
                        lemma_sorted_permutations_equal(expected@, result@);
                    }
                }
                valid
            }
        },
    };
    assert(flat_map_of(heavy, *fib, input@, run) && valid == agrees(ordered, run, output->0@));
    valid
}


/// With a Fibonacci function that gives one value per call (and always with
/// the light workload), the flat map is determined: every method of the
/// benchmark that keeps the order yields the sequential run's output.
pub proof fn lemma_flat_map_unique<F: Fn(u64, u64) -> u64>(
    heavy: bool,
    fib: F,
    input: Seq<u64>,
    a: Seq<u64>,
    b: Seq<u64>,
)
    requires
        deterministic(&fib) || !heavy,
        flat_map_of(heavy, fib, input, a),
        flat_map_of(heavy, fib, input, b),
    ensures
        a == b,
{
    let pa = choose|parts: Seq<Seq<u64>>|
        #![trigger parts.flatten()]
        {
            &&& parts.len() == input.len()
            &&& (forall|i: int| 0 <= i < input.len() ==> expands(heavy, fib, input[i], #[trigger] parts[i]))
            &&& a == parts.flatten()
        };
    let pb = choose|parts: Seq<Seq<u64>>|
        #![trigger parts.flatten()]
        {
            &&& parts.len() == input.len()
            &&& (forall|i: int| 0 <= i < input.len() ==> expands(heavy, fib, input[i], #[trigger] parts[i]))
            &&& b == parts.flatten()
        };
    assert forall|i: int| 0 <= i < input.len() implies pa[i] == pb[i] by {
        assert(expands(heavy, fib, input[i], pa[i]));
        assert(expands(heavy, fib, input[i], pb[i]));
        if heavy {
            assert forall|y: int| 0 <= y < 7 implies pa[i][y] == pb[i][y] by {
                assert(heavy_item_from(fib, input[i], y, pa[i][y]));
                assert(heavy_item_from(fib, input[i], y, pb[i][y]));
            }
            assert(pa[i] =~= pb[i]);
        }
    }
    assert(pa =~= pb);
}


/// The flat map of two stretches of input, one after the other, is the flat
/// map of the first followed by that of the second.
pub proof fn lemma_flat_map_concat<F: Fn(u64, u64) -> u64>(
    heavy: bool,
    fib: F,
    a: Seq<u64>,
    b: Seq<u64>,
    out_a: Seq<u64>,
    out_b: Seq<u64>,
)
    requires
        flat_map_of(heavy, fib, a, out_a),
        flat_map_of(heavy, fib, b, out_b),
    ensures
        flat_map_of(heavy, fib, a + b, out_a + out_b),
{
    let pa = choose|parts: Seq<Seq<u64>>|
        #![trigger parts.flatten()]
        {
            &&& parts.len() == a.len()
            &&& (forall|i: int| 0 <= i < a.len() ==> expands(heavy, fib, a[i], #[trigger] parts[i]))
            &&& out_a == parts.flatten()
        };
    let pb = choose|parts: Seq<Seq<u64>>|
        #![trigger parts.flatten()]
        {
            &&& parts.len() == b.len()
            &&& (forall|i: int| 0 <= i < b.len() ==> expands(heavy, fib, b[i], #[trigger] parts[i]))
            &&& out_b == parts.flatten()
        };
    vstd::seq_lib::lemma_flatten_concat(pa, pb);
    assert forall|i: int| 0 <= i < (a + b).len() implies expands(heavy, fib, (a + b)[i], #[trigger] (pa + pb)[i]) by {
        if i < a.len() {
            assert(expands(heavy, fib, a[i], pa[i]));
        } else {
            assert(expands(heavy, fib, b[i - a.len()], pb[i - a.len()]));
        }
    }
    assert((pa + pb).flatten() == out_a + out_b);
}

} // verus!
