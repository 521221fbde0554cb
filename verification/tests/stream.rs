use parbench::arbitrary_iter::{make_input as aggregate_input, SEED as AGGREGATE_SEED};
use parbench::flatmap::make_input as flatmap_input;
use parbench::sort_slice::{make_input as sort_input, ElementType, Input, InputVariant};
use rand::{RngExt, SeedableRng};
use rand_chacha::ChaCha8Rng;

#[test]
fn flatmap_input_is_the_continuous_seeded_stream() {
    let mut rng = ChaCha8Rng::seed_from_u64(654);
    let expected: Vec<u64> = (0..3000).map(|_| rng.random_range(0..150)).collect();
    assert_eq!(flatmap_input(3000), expected);
}

#[test]
fn sort_input_is_the_continuous_seeded_stream() {
    let mut rng = ChaCha8Rng::seed_from_u64(654);
    let expected: Vec<u64> = (0..4096).map(|_| rng.random_range(0..u64::MAX)).collect();
    match sort_input(&InputVariant { n: 12, element_type: ElementType::U64 }) {
        Input::U64(values) => assert_eq!(values, expected),
        Input::String(_) => panic!("expected integers"),
    }
}

#[test]
fn aggregate_input_is_the_continuous_seeded_stream() {
    let n = 5000usize;
    let mut rng = ChaCha8Rng::seed_from_u64(AGGREGATE_SEED ^ (n as u64));
    let expected: Vec<u64> = (0..n).map(|_| rng.random_range(1..=1_000_000)).collect();
    assert_eq!(aggregate_input(n).data, expected);
}
