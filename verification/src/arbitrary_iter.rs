//! Mapping values that come from an arbitrary (non-slice) iterator through a
//! compute kernel, and reducing them to an aggregate.

use core::hint::black_box;
use orx_parallel::{IterIntoParIter, Par};
use rayon::iter::{ParallelBridge, ParallelIterator};
use vstd::prelude::*;
use crate::workload::{callable, deterministic};
use crate::aggregate::{
    agg_of, agg_zero, combine, combine_all, lemma_summary_concat, lemma_combine_all_of_values, lemma_combine_all_permutation,
    merge, summary, Agg,
};
use crate::method::Method;
use crate::order::permutes;
use crate::rng::{draw_values, draws};

verus! {

/// The value that, xored with the input size, seeds the generator of the input.
pub const SEED: u64 = 0x5426_1234_BEEF_CAFE;

/// The constant that the light kernel xors in.
pub const LIGHT_KEY: u64 = 0x5555_AAAA_3333_CCCC;

/// The odd multiplier of the light kernel.
pub const LIGHT_MULTIPLIER: u64 = 0x9E37_79B9_7F4A_7C15;

/// The constant that the medium kernel xors its input with.
pub const MEDIUM_KEY: u64 = 0xDEAD_BEEF_CAFE_0123;

/// The constant that the heavy kernel xors its input with.
pub const HEAVY_KEY: u64 = 0xFEED_FACE_CAFE_BABE;

/// The mixing rounds of the medium kernel.
pub const MEDIUM_ROUNDS: u64 = 50;

/// The mixing rounds of the heavy kernel, and of the heavy values of the
/// variable kernel.
pub const HEAVY_ROUNDS: u64 = 500;

/// The work done on each value.
#[derive(Clone, Copy, Debug, PartialEq, Eq, Structural)]
pub enum ComputeType {
    Light,
    Medium,
    Heavy,
    Variable,
}

/// The iterator adapters in front of the parallel part.
#[derive(Clone, Copy, Debug, PartialEq, Eq, Structural)]
pub enum PipelineType {
    FilterMap,
    MapAll,
}

/// The benchmark's input values.
#[derive(Debug)]
pub struct InputData {
    pub data: Vec<u64>,
}

/// `x` rotated left by `n` bits (`n` taken modulo 64).
pub open spec fn rotated_left(x: u64, n: u32) -> u64 {
    let k = (n % 64) as u64;
    if k == 0 {
        x
    } else {
        (x << k) | (x >> ((64 - k) as u64))
    }
}

/// `u64::rotate_left`: the documentation says it shifts the bits left by
/// `n`, wrapping the truncated bits to the end.
pub assume_specification[ <u64>::rotate_left ](x: u64, n: u32) -> (rotated: u64)
    ensures
        rotated == rotated_left(x, n),
;

/// The light kernel's value for `x`.
pub open spec fn light_value(x: u64) -> u64 {
    rotated_left(x, 13) ^ LIGHT_KEY ^ x.wrapping_mul(LIGHT_MULTIPLIER)
}

/// `v` is what the kernel `compute` makes of `x`, with `mix` standing for the
/// CPU-bound mixing function that the medium and heavy kernels call.
pub open spec fn computes<M: Fn(u64, u64) -> u64>(compute: ComputeType, mix: &M, x: u64, v: u64) -> bool {
    match compute {
        ComputeType::Light => v == light_value(x),
        ComputeType::Medium => call_ensures(*mix, (MEDIUM_ROUNDS, x ^ MEDIUM_KEY), v),
        ComputeType::Heavy => call_ensures(*mix, (HEAVY_ROUNDS, x ^ HEAVY_KEY), v),
        ComputeType::Variable => if x % 16 == 0 {
            call_ensures(*mix, (HEAVY_ROUNDS, x), v)
        } else {
            v == light_value(x)
        },
    }
}

/// `values` are what the kernel makes of `items`, one for one.
pub open spec fn computes_all<M: Fn(u64, u64) -> u64>(
    compute: ComputeType,
    mix: &M,
    items: Seq<u64>,
    values: Seq<u64>,
) -> bool {
    &&& values.len() == items.len()
    &&& forall|i: int| 0 <= i < items.len() ==> computes(compute, mix, items[i], #[trigger] values[i])
}

/// `agg` is the aggregate of a value that the kernel makes of `x`.
pub open spec fn agg_computed<M: Fn(u64, u64) -> u64>(compute: ComputeType, mix: &M, x: u64, agg: Agg) -> bool {
    exists|v: u64| computes(compute, mix, x, v) && agg == agg_of(v)
}

/// The predicate of the filtering pipeline: the value is even.
pub open spec fn keeps() -> spec_fn(u64) -> bool {
    |x: u64| x % 2 == 0
}

/// The map of the mapping pipeline: the value plus one, wrapping.
pub open spec fn bumps() -> spec_fn(u64) -> u64 {
    |x: u64| x.wrapping_add(1)
}

/// The values that the pipeline hands on from `data`: the even ones, or each
/// plus one.
pub open spec fn prepared(data: Seq<u64>, pipeline: PipelineType) -> Seq<u64> {
    match pipeline {
        PipelineType::FilterMap => data.filter(keeps()),
        PipelineType::MapAll => data.map_values(bumps()),
    }
}

/// `agg` is the aggregate of what the kernel makes of the values that the
/// pipeline hands on from `data`.
pub open spec fn aggregates<M: Fn(u64, u64) -> u64>(
    data: Seq<u64>,
    pipeline: PipelineType,
    compute: ComputeType,
    mix: &M,
    agg: Agg,
) -> bool {
    exists|values: Seq<u64>|
        computes_all(compute, mix, prepared(data, pipeline), values) && agg == summary(values)
}

/// The light kernel rotates `x` left by 13 bits (its top 13 bits come round
/// to the bottom), xors in `0x5555_AAAA_3333_CCCC`, and xors in `x` times
/// `0x9E37_79B9_7F4A_7C15` modulo `2^64`.
pub proof fn lemma_light_kernel(x: u64, v: u64)
    requires
        v == light_value(x),
    ensures
        v == ((x << 13u64) | (x >> 51u64)) ^ 0x5555_AAAA_3333_CCCCu64 ^ x.wrapping_mul(0x9E37_79B9_7F4A_7C15u64),
        v == ((x << 13u64) | (x >> 51u64)) ^ 0x5555_AAAA_3333_CCCCu64 ^ ((x as nat * 0x9E37_79B9_7F4A_7C15nat) % 0x1_0000_0000_0000_0000nat) as u64,
{
}

/// What each kernel makes of `x`, stated without the kernels' definitions:
/// the light kernel is the rotate-xor-multiply mix of `x`; the medium kernel
/// is a value that `mix` returned with 50 rounds for `x` xored with
/// `0xDEAD_BEEF_CAFE_0123`; the heavy kernel, with 500 rounds for `x` xored
/// with `0xFEED_FACE_CAFE_BABE`; the variable kernel mixes exactly the
/// multiples of 16 (with 500 rounds, on `x` itself) and gives every other
/// value the light kernel's value.
pub proof fn lemma_kernels<M: Fn(u64, u64) -> u64>(compute: ComputeType, mix: &M, x: u64, v: u64)
    requires
        computes(compute, mix, x, v),
    ensures
        compute == ComputeType::Light ==> v == ((x << 13u64) | (x >> 51u64)) ^ 0x5555_AAAA_3333_CCCCu64
            ^ x.wrapping_mul(0x9E37_79B9_7F4A_7C15u64),
        compute == ComputeType::Medium ==> call_ensures(*mix, (50u64, x ^ 0xDEAD_BEEF_CAFE_0123u64), v),
        compute == ComputeType::Heavy ==> call_ensures(*mix, (500u64, x ^ 0xFEED_FACE_CAFE_BABEu64), v),
        compute == ComputeType::Variable && x % 16 == 0 ==> call_ensures(*mix, (500u64, x), v),
        compute == ComputeType::Variable && x % 16 != 0 ==> v == ((x << 13u64) | (x >> 51u64))
            ^ 0x5555_AAAA_3333_CCCCu64 ^ x.wrapping_mul(0x9E37_79B9_7F4A_7C15u64),
{
    if compute == ComputeType::Light || (compute == ComputeType::Variable && x % 16 != 0) {
        lemma_light_kernel(x, v);
    }
}

/// The light kernel: a rotation, a xor and a wrapping multiplication.
pub fn compute_light(x: u64) -> (v: u64)
    ensures
        v == light_value(x),
        v == ((x << 13u64) | (x >> 51u64)) ^ 0x5555_AAAA_3333_CCCCu64 ^ x.wrapping_mul(0x9E37_79B9_7F4A_7C15u64),
{
    proof {
        lemma_light_kernel(x, light_value(x));
    }
    let x = black_box(x);
    x.rotate_left(13) ^ LIGHT_KEY ^ (x.wrapping_mul(LIGHT_MULTIPLIER))
}

/// The medium kernel: `mix` with 50 rounds on the value xored with a key.
pub fn compute_medium<M: Fn(u64, u64) -> u64>(x: u64, mix: &M) -> (v: u64)
    requires
        callable(mix),
    ensures
        computes(ComputeType::Medium, mix, x, v),
        call_ensures(*mix, (50u64, x ^ 0xDEAD_BEEF_CAFE_0123u64), v),
{
    mix(MEDIUM_ROUNDS, black_box(x ^ MEDIUM_KEY))
}

/// The heavy kernel: `mix` with 500 rounds on the value xored with a key.
pub fn compute_heavy<M: Fn(u64, u64) -> u64>(x: u64, mix: &M) -> (v: u64)
    requires
        callable(mix),
    ensures
        computes(ComputeType::Heavy, mix, x, v),
        call_ensures(*mix, (500u64, x ^ 0xFEED_FACE_CAFE_BABEu64), v),
{
    mix(HEAVY_ROUNDS, black_box(x ^ HEAVY_KEY))
}

/// The variable kernel: heavy mixing on multiples of 16, the light kernel on
/// the other values.
pub fn compute_variable<M: Fn(u64, u64) -> u64>(x: u64, mix: &M) -> (v: u64)
    requires
        callable(mix),
    ensures
        computes(ComputeType::Variable, mix, x, v),
        x % 16 == 0 ==> call_ensures(*mix, (500u64, x), v),
        x % 16 != 0 ==> v == ((x << 13u64) | (x >> 51u64)) ^ 0x5555_AAAA_3333_CCCCu64 ^ x.wrapping_mul(
            0x9E37_79B9_7F4A_7C15u64,
        ),
{
    if x % 16 == 0 {
        mix(HEAVY_ROUNDS, black_box(x))
    } else {
        compute_light(x)
    }
}

/// The kernel `compute` on `x`.
pub fn apply_compute<M: Fn(u64, u64) -> u64>(compute: ComputeType, x: u64, mix: &M) -> (v: u64)
    requires
        callable(mix),
    ensures
        computes(compute, mix, x, v),
{
    match compute {
        ComputeType::Light => compute_light(x),
        ComputeType::Medium => compute_medium(x, mix),
        ComputeType::Heavy => compute_heavy(x, mix),
        ComputeType::Variable => compute_variable(x, mix),
    }
}


/// The summary of one more value.
proof fn lemma_summary_push(values: Seq<u64>, v: u64)
    requires
        values.len() < u64::MAX,
    ensures
        summary(values.push(v)) == merge_spec_of(summary(values), v),
{
    assert(values.push(v).drop_last() =~= values);
}

/// The summary of `values` extended by `v`, computed from their summary.
pub open spec fn merge_spec_of(agg: Agg, v: u64) -> Agg {
    Agg { sum: agg.sum.wrapping_add(v), xor_sum: agg.xor_sum ^ v, count: (agg.count + 1) as u64 }
}

/// What the pipeline hands on from one more value.
proof fn lemma_prepared_push(data: Seq<u64>, x: u64, pipeline: PipelineType)
    ensures
        prepared(data.push(x), pipeline) == match pipeline {
            PipelineType::FilterMap => if x % 2 == 0 {
                prepared(data, pipeline).push(x)
            } else {
                prepared(data, pipeline)
            },
            PipelineType::MapAll => prepared(data, pipeline).push(x.wrapping_add(1)),
        },
{
    match pipeline {
        PipelineType::FilterMap => {
            data.lemma_filter_push(x, keeps());
        },
        PipelineType::MapAll => {
            assert(data.push(x).map_values(bumps()) =~= data.map_values(bumps()).push(x.wrapping_add(1)));
        },
    }
}

/// The values that the pipeline hands on from `data`.
pub fn prepare(data: &[u64], pipeline: PipelineType) -> (items: Vec<u64>)
    ensures
        items@ == prepared(data@, pipeline),
{
    let mut items: Vec<u64> = Vec::new();
    for i in 0..data.len()
        invariant
            items@ == prepared(data@.take(i as int), pipeline),
    {
        let x = data[i];
        proof {
            assert(data@.take(i + 1) =~= data@.take(i as int).push(x));
            lemma_prepared_push(data@.take(i as int), x, pipeline);
        }
        match pipeline {
            PipelineType::FilterMap => {
                if x % 2 == 0 {
                    items.push(x);
                }
            },
            PipelineType::MapAll => {
                items.push(x.wrapping_add(1));
            },
        }
    }
    assert(data@.take(data.len() as int) =~= data@);
    items
}

/// Runs the pipeline and the kernel sequentially and folds the values into
/// their aggregate.
pub fn execute_seq<M: Fn(u64, u64) -> u64>(
    data: &[u64],
    pipeline: PipelineType,
    compute: ComputeType,
    mix: &M,
) -> (agg: Agg)
    requires
        callable(mix),
    ensures
        aggregates(data@, pipeline, compute, mix, agg),
{
    let mut agg = Agg::default();
    let ghost mut values: Seq<u64> = Seq::empty();
    for i in 0..data.len()
        invariant
            callable(mix),
            computes_all(compute, mix, prepared(data@.take(i as int), pipeline), values),
            agg == summary(values),
            values.len() <= i,
    {
        let x = data[i];
        proof {
            assert(data@.take(i + 1) =~= data@.take(i as int).push(x));
            lemma_prepared_push(data@.take(i as int), x, pipeline);
        }
        let item = match pipeline {
            PipelineType::FilterMap => if x % 2 == 0 {
                Some(x)
            } else {
                None
            },
            PipelineType::MapAll => Some(x.wrapping_add(1)),
        };
        if let Some(item) = item {
            let v = apply_compute(compute, item, mix);
            proof {
                lemma_summary_push(values, v);
                values = values.push(v);
            }
            agg = merge(agg, Agg::from_val(v));
        }
    }
    assert(data@.take(data.len() as int) =~= data@);
    agg
}

/// Values whose aggregates, combined in some order, make `agg`: `agg` is
/// their summary.
proof fn lemma_combined_values<M: Fn(u64, u64) -> u64>(
    compute: ComputeType,
    mix: &M,
    items: Seq<u64>,
    aggs: Seq<Agg>,
    order: Seq<Agg>,
) -> (values: Seq<u64>)
    requires
        items.len() <= u64::MAX,
        aggs.len() == items.len(),
        forall|i: int| 0 <= i < items.len() ==> agg_computed(compute, mix, items[i], #[trigger] aggs[i]),
        permutes(order, aggs),
    ensures
        computes_all(compute, mix, items, values),
        combine_all(order) == summary(values),
{
    let values = Seq::new(
        items.len(),
        |i: int| choose|v: u64| computes(compute, mix, items[i], v) && aggs[i] == agg_of(v),
    );
    assert forall|i: int| 0 <= i < items.len() implies computes(compute, mix, items[i], #[trigger] values[i])
        && aggs[i] == agg_of(values[i]) by {
        assert(agg_computed(compute, mix, items[i], aggs[i]));
    }
    assert(aggs =~= values.map_values(|v: u64| agg_of(v)));
    lemma_combine_all_permutation(order, aggs);
    lemma_combine_all_of_values(values);
    values
}

/// `agg` combines, in some order, aggregates that `to_agg` returned for the
/// items, one for each.
pub open spec fn reduces_to<G: Fn(u64) -> Agg>(to_agg: G, items: Seq<u64>, agg: Agg) -> bool {
    exists|aggs: Seq<Agg>, order: Seq<Agg>|
        #![trigger permutes(order, aggs)]
        {
        &&& aggs.len() == items.len()
        &&& forall|i: int| 0 <= i < items.len() ==> call_ensures(to_agg, (items[i],), #[trigger] aggs[i])
        &&& permutes(order, aggs)
        &&& agg == combine_all(order)
    }
}

/// rayon's `par_bridge` over the items, `map` with `to_agg`, then `reduce`
/// with `Agg::default` and `merge`: the documentation of `reduce` asks for an
/// associative operation and an identity, which `merge` and the empty
/// aggregate are (`lemma_combine_associative`, `lemma_combine_zero`); as
/// `par_bridge` hands the items out in no fixed order, the result is the
/// aggregates combined in some order. Each call of `to_agg` is believed to
/// meet its own contract; as each gives a count of one, no merge overflows.
#[verifier::external_body]
fn rayon_bridge_reduce<G>(items: &Vec<u64>, to_agg: G) -> (agg: Agg)
    where
        G: Fn(u64) -> Agg + Sync + Send,
    requires
        forall|i: int| 0 <= i < items.len() ==> call_requires(to_agg, (items[i],)),
        forall|x: u64, a: Agg| call_ensures(to_agg, (x,), a) ==> a.count == 1,
    ensures
        reduces_to(to_agg, items@, agg),
{
    items.iter().copied().par_bridge().map(to_agg).reduce(Agg::default, merge)
}

/// orx-parallel's `iter_into_par` over the items, `map` with `to_agg`, then
/// `reduce` with `merge`: nothing for no items, otherwise the aggregates
/// combined in some order (the source hands the items out to threads as they
/// come and combines per-thread results). Each call of `to_agg` is believed
/// to meet its own contract; as each gives a count of one, no merge
/// overflows.
#[verifier::external_body]
fn orx_iter_reduce<G>(items: &Vec<u64>, to_agg: G) -> (agg: Option<Agg>)
    where
        G: Fn(u64) -> Agg + Copy + Sync + Send,
    requires
        forall|i: int| 0 <= i < items.len() ==> call_requires(to_agg, (items[i],)),
        forall|x: u64, a: Agg| call_ensures(to_agg, (x,), a) ==> a.count == 1,
    ensures
        agg is None <==> items.len() == 0,
        agg matches Some(a) ==> reduces_to(to_agg, items@, a),
{
    items.iter().copied().iter_into_par().map(to_agg).reduce(merge)
}

/// `agg_computed`, for a kernel whose mixing function is taken by reference.
pub open spec fn agg_computed_by<M: Fn(u64, u64) -> u64>(compute: ComputeType, mix: &M, x: u64, agg: Agg) -> bool {
    agg_computed(compute, mix, x, agg)
}

/// Runs the pipeline sequentially, then the kernel and the reduction in
/// parallel with rayon.
pub fn execute_rayon<M: Fn(u64, u64) -> u64 + Sync>(
    data: &[u64],
    pipeline: PipelineType,
    compute: ComputeType,
    mix: &M,
) -> (agg: Agg)
    requires
        callable(mix),
    ensures
        aggregates(data@, pipeline, compute, mix, agg),
{
    let items = prepare(data, pipeline);
    let to_agg = |x: u64| -> (a: Agg)
        requires
            callable(mix),
        ensures
            agg_computed_by(compute, mix, x, a),
            a.count == 1,
        {
            Agg::from_val(apply_compute(compute, x, mix))
        };
    let agg = rayon_bridge_reduce(&items, to_agg);
    proof {
        let (aggs, order) = choose|aggs: Seq<Agg>, order: Seq<Agg>|
            #![trigger permutes(order, aggs)]
            {
                &&& aggs.len() == items.len()
                &&& forall|i: int| 0 <= i < items.len() ==> call_ensures(to_agg, (items@[i],), #[trigger] aggs[i])
                &&& permutes(order, aggs)
                &&& agg == combine_all(order)
            };
        assert forall|i: int| 0 <= i < items.len() implies agg_computed(compute, mix, items[i], #[trigger] aggs[i]) by {
            assert(call_ensures(to_agg, (items[i],), aggs[i]));
        }
        let values = lemma_combined_values(compute, mix, items@, aggs, order);
    }
    agg
}

/// Runs the pipeline sequentially, then the kernel and the reduction in
/// parallel with orx-parallel; no values reduce to the empty aggregate.
pub fn execute_orx<M: Fn(u64, u64) -> u64 + Sync>(
    data: &[u64],
    pipeline: PipelineType,
    compute: ComputeType,
    mix: &M,
) -> (agg: Agg)
    requires
        callable(mix),
    ensures
        aggregates(data@, pipeline, compute, mix, agg),
{
    let items = prepare(data, pipeline);
    let to_agg = |x: u64| -> (a: Agg)
        requires
            callable(mix),
        ensures
            agg_computed_by(compute, mix, x, a),
            a.count == 1,
        {
            Agg::from_val(apply_compute(compute, x, mix))
        };
    let reduced = orx_iter_reduce(&items, to_agg);
    let agg = reduced.unwrap_or_default();
    proof {
        if reduced is Some {
            let (aggs, order) = choose|aggs: Seq<Agg>, order: Seq<Agg>|
                #![trigger permutes(order, aggs)]
                {
                    &&& aggs.len() == items.len()
                    &&& forall|i: int| 0 <= i < items.len() ==> call_ensures(to_agg, (items@[i],), #[trigger] aggs[i])
                    &&& permutes(order, aggs)
                    &&& agg == combine_all(order)
                };
            assert forall|i: int| 0 <= i < items.len() implies agg_computed(compute, mix, items[i], #[trigger] aggs[i]) by {
                assert(call_ensures(to_agg, (items[i],), aggs[i]));
            }
            let values = lemma_combined_values(compute, mix, items@, aggs, order);
        } else {
            let values = Seq::<u64>::empty();
            assert(computes_all(compute, mix, items@, values));
            assert(agg == summary(values));
        }
    }
    agg
}

/// Runs the benchmark with `method`.
pub fn execute<M: Fn(u64, u64) -> u64 + Sync>(
    method: Method,
    data: &[u64],
    pipeline: PipelineType,
    compute: ComputeType,
    mix: &M,
) -> (agg: Agg)
    requires
        callable(mix),
    ensures
        aggregates(data@, pipeline, compute, mix, agg),
{
    match method {
        Method::Sequential => execute_seq(data, pipeline, compute, mix),
        Method::Rayon => execute_rayon(data, pipeline, compute, mix),
        _ => execute_orx(data, pipeline, compute, mix),
    }
}

/// The benchmark's input of `n` values, drawn from `1..=1_000_000` by a
/// generator seeded with `SEED ^ n`.
pub fn make_input(n: usize) -> (input: InputData)
    ensures
        input.data@ == draws(SEED ^ (n as u64), 1, 1_000_000, n as nat),
        input.data.len() == n,
        forall|i: int| 0 <= i < n ==> 1 <= #[trigger] input.data[i] <= 1_000_000,
{
    InputData { data: draw_values(SEED ^ (n as u64), 1, 1_000_000, n) }
}

/// With a mixing function that gives one value per call, the aggregate is
/// determined: every method of the benchmark yields the sequential run's
/// aggregate. The light kernel calls no mixing function, so with it this
/// holds for every `mix`.
pub proof fn lemma_aggregate_unique<M: Fn(u64, u64) -> u64>(
    data: Seq<u64>,
    pipeline: PipelineType,
    compute: ComputeType,
    mix: &M,
    a: Agg,
    b: Agg,
)
    requires
        deterministic(mix) || compute == ComputeType::Light,
        aggregates(data, pipeline, compute, mix, a),
        aggregates(data, pipeline, compute, mix, b),
    ensures
        a == b,
{
    let items = prepared(data, pipeline);
    let va = choose|values: Seq<u64>| computes_all(compute, mix, items, values) && a == summary(values);
    let vb = choose|values: Seq<u64>| computes_all(compute, mix, items, values) && b == summary(values);
    assert forall|i: int| 0 <= i < items.len() implies va[i] == vb[i] by {
        assert(computes(compute, mix, items[i], va[i]));
        assert(computes(compute, mix, items[i], vb[i]));
    }
    assert(va =~= vb);
}


/// The pipeline hands on from two stretches of data, one after the other,
/// what it hands on from each.
pub proof fn lemma_prepared_concat(a: Seq<u64>, b: Seq<u64>, pipeline: PipelineType)
    ensures
        prepared(a + b, pipeline) == prepared(a, pipeline) + prepared(b, pipeline),
{
    match pipeline {
        PipelineType::FilterMap => {
            Seq::filter_distributes_over_add(a, b, keeps());
        },
        PipelineType::MapAll => {
            assert((a + b).map_values(bumps()) =~= a.map_values(bumps()) + b.map_values(bumps()));
        },
    }
}

/// The aggregate of two stretches of data, one after the other, merges
/// their aggregates: the result does not depend on how the data is split
/// into chunks. (With a mixing function that gives one value per call, or
/// the light kernel, `lemma_aggregate_unique` makes it the aggregate.)
pub proof fn lemma_aggregates_concat<M: Fn(u64, u64) -> u64>(
    a: Seq<u64>,
    b: Seq<u64>,
    pipeline: PipelineType,
    compute: ComputeType,
    mix: &M,
    agg_a: Agg,
    agg_b: Agg,
)
    requires
        a.len() + b.len() <= u64::MAX,
        aggregates(a, pipeline, compute, mix, agg_a),
        aggregates(b, pipeline, compute, mix, agg_b),
    ensures
        aggregates(a + b, pipeline, compute, mix, combine(agg_a, agg_b)),
{
    let (pa, pb) = (prepared(a, pipeline), prepared(b, pipeline));
    let va = choose|values: Seq<u64>| computes_all(compute, mix, pa, values) && agg_a == summary(values);
    let vb = choose|values: Seq<u64>| computes_all(compute, mix, pb, values) && agg_b == summary(values);
    lemma_prepared_concat(a, b, pipeline);
    assert(pa.len() <= a.len()) by {
        lemma_prepared_len(a, pipeline);
    }
    assert(pb.len() <= b.len()) by {
        lemma_prepared_len(b, pipeline);
    }
    lemma_summary_concat(va, vb);
    assert forall|i: int| 0 <= i < (pa + pb).len() implies computes(compute, mix, (pa + pb)[i], #[trigger] (va + vb)[i]) by {
        if i < pa.len() {
            assert(computes(compute, mix, pa[i], va[i]));
        } else {
            assert(computes(compute, mix, pb[i - pa.len()], vb[i - pa.len()]));
        }
    }
    assert(computes_all(compute, mix, prepared(a + b, pipeline), va + vb));
}

/// The pipeline hands on at most as many values as it is given.
proof fn lemma_prepared_len(data: Seq<u64>, pipeline: PipelineType)
    ensures
        prepared(data, pipeline).len() <= data.len(),
{
    match pipeline {
        PipelineType::FilterMap => {
            data.lemma_filter_len(keeps());
        },
        PipelineType::MapAll => {},
    }
}

} // verus!
