use parbench::aggregate::{merge, Agg};
use parbench::arbitrary_iter::{
    apply_compute, compute_heavy, compute_light, compute_medium, compute_variable, execute,
    execute_orx, execute_rayon, execute_seq, make_input, prepare, ComputeType, PipelineType,
};
use parbench::method::Method;

/// A cheap stand-in for the CPU-bound mixing function.
fn add_mix(weight: u64, x: u64) -> u64 {
    weight.wrapping_add(x)
}

fn agg(sum: u64, xor_sum: u64, count: u64) -> Agg {
    Agg { sum, xor_sum, count }
}

#[test]
fn aggregates_of_single_values_and_merging() {
    assert_eq!(Agg::from_val(7), agg(7, 7, 1));
    assert_eq!(Agg::default(), agg(0, 0, 0));
    assert_eq!(merge(Agg::from_val(6), Agg::from_val(3)), agg(9, 5, 2));
    assert_eq!(merge(agg(u64::MAX, 1, 4), agg(2, 3, 5)), agg(1, 2, 9));
}

#[test]
fn merging_is_associative_and_commutative_with_an_identity() {
    let (a, b, c) = (agg(u64::MAX, 12, 3), agg(5, 7, 1), agg(1 << 63, 99, 2));
    assert_eq!(merge(merge(a, b), c), merge(a, merge(b, c)));
    assert_eq!(merge(a, b), merge(b, a));
    assert_eq!(merge(Agg::default(), a), a);
    assert_eq!(merge(a, Agg::default()), a);
}

#[test]
fn light_kernel_values() {
    assert_eq!(compute_light(0), 0x5555_AAAA_3333_CCCC);
    assert_eq!(compute_light(1), 0xcb62_d313_4c79_90d9);
    assert_eq!(compute_light(3), 0x8ff3_c786_4eec_d8f3);
    assert_eq!(compute_light(12345), 0xf479_4881_7bed_7c61);
}

#[test]
fn mixing_kernels_pass_their_rounds_and_keys() {
    assert_eq!(compute_medium(0, &add_mix), 0xdead_beef_cafe_0155);
    assert_eq!(compute_heavy(0, &add_mix), 0xfeed_face_cafe_bcb2);
    assert_eq!(compute_heavy(1, &add_mix), 0xfeed_face_cafe_bcb3);
    assert_eq!(compute_variable(16, &add_mix), 516);
    assert_eq!(compute_variable(3, &add_mix), compute_light(3));
    assert_eq!(apply_compute(ComputeType::Light, 1, &add_mix), compute_light(1));
    assert_eq!(apply_compute(ComputeType::Medium, 0, &add_mix), compute_medium(0, &add_mix));
    assert_eq!(apply_compute(ComputeType::Variable, 32, &add_mix), 532);
}

#[test]
fn pipelines_filter_or_bump() {
    assert_eq!(prepare(&[1, 2, 3, 4, 6], PipelineType::FilterMap), vec![2, 4, 6]);
    assert_eq!(prepare(&[1, u64::MAX], PipelineType::MapAll), vec![2, 0]);
}

#[test]
fn sequential_aggregate() {
    let data = [1, 2, 3, 4];
    // filter keeps 2 and 4; the light kernel maps them
    let (a, b) = (compute_light(2), compute_light(4));
    let expected = agg(a.wrapping_add(b), a ^ b, 2);
    assert_eq!(execute_seq(&data, PipelineType::FilterMap, ComputeType::Light, &add_mix), expected);
    // mapping bumps every value, medium mixes it
    let values: Vec<u64> = data.iter().map(|x| compute_medium(x + 1, &add_mix)).collect();
    let sum = values.iter().fold(0u64, |s, v| s.wrapping_add(*v));
    let xor = values.iter().fold(0u64, |s, v| s ^ v);
    assert_eq!(execute_seq(&data, PipelineType::MapAll, ComputeType::Medium, &add_mix), agg(sum, xor, 4));
    assert_eq!(execute_seq(&[], PipelineType::MapAll, ComputeType::Heavy, &add_mix), Agg::default());
}

#[test]
fn input_is_seeded_by_its_size() {
    let input = make_input(4096);
    assert_eq!(input.data.len(), 4096);
    assert!(input.data.iter().all(|x| (1..=1_000_000).contains(x)));
    assert_eq!(input.data, make_input(4096).data);
    assert_ne!(input.data[..100], make_input(4097).data[..100]);
}

#[test]
fn parallel_aggregates_agree_with_the_sequential_one() {
    let input = make_input(16384);
    for pipeline in [PipelineType::FilterMap, PipelineType::MapAll] {
        for compute in [ComputeType::Light, ComputeType::Medium, ComputeType::Heavy, ComputeType::Variable] {
            let expected = execute_seq(&input.data, pipeline, compute, &add_mix);
            assert_eq!(execute_rayon(&input.data, pipeline, compute, &add_mix), expected);
            assert_eq!(execute_orx(&input.data, pipeline, compute, &add_mix), expected);
            for method in Method::get() {
                assert_eq!(execute(method, &input.data, pipeline, compute, &add_mix), expected);
            }
        }
    }
}

#[test]
fn parallel_aggregates_of_nothing_are_empty() {
    let odd = [1, 3, 5];
    assert_eq!(execute_orx(&odd, PipelineType::FilterMap, ComputeType::Light, &add_mix), Agg::default());
    assert_eq!(execute_rayon(&odd, PipelineType::FilterMap, ComputeType::Light, &add_mix), Agg::default());
}

#[test]
fn aggregate_of_a_concatenation_merges_the_parts() {
    let input = make_input(3000);
    let (a, b) = input.data.split_at(1234);
    for pipeline in [PipelineType::FilterMap, PipelineType::MapAll] {
        for compute in [ComputeType::Light, ComputeType::Variable] {
            let whole = execute_seq(&input.data, pipeline, compute, &add_mix);
            let parts = merge(
                execute_seq(a, pipeline, compute, &add_mix),
                execute_seq(b, pipeline, compute, &add_mix),
            );
            assert_eq!(whole, parts);
        }
    }
}
