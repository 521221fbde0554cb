use parbench::flatmap::{
    execute, h_m, l_m, make_input, run_orx, run_rayon, run_seq, validate_output, IterationOrder, Output,
    FIB_UPPER_BOUND,
};
use parbench::method::Method;

/// A stand-in for the Fibonacci workload: the argument itself.
fn identity_fib(_upper: u64, n: u64) -> u64 {
    n
}

fn values(output: &Output) -> Vec<u64> {
    match output {
        Output::Vec(v) => v.clone(),
    }
}

fn light_reference(input: &[u64]) -> Vec<u64> {
    input
        .iter()
        .flat_map(|x| (0..7).map(move |y| match *x + y {
            999 => 999,
            n => 7 * n + 1000,
        }))
        .collect()
}

#[test]
fn light_workload_values() {
    assert_eq!(l_m(&0), vec![1000, 1007, 1014, 1021, 1028, 1035, 1042]);
    // 993 + 6 == 999 maps to itself
    assert_eq!(l_m(&993), vec![7951, 7958, 7965, 7972, 7979, 7986, 999]);
}

#[test]
fn heavy_workload_values() {
    // f = x + y, g = x + f, value 7 * (f + g) + 1000
    assert_eq!(h_m(&0, &identity_fib), vec![1000, 1014, 1028, 1042, 1056, 1070, 1084]);
    // f + g == 999 gives g - f == x
    let fib = |_upper: u64, _n: u64| 499u64;
    assert_eq!(h_m(&1, &fib), vec![1; 7]);
    // the bound is passed through
    let seen = |upper: u64, n: u64| upper * 1000 + n;
    let items = h_m(&2, &seen);
    assert_eq!(items[0], 7 * (2 * (FIB_UPPER_BOUND * 1000 + 2) + 2) + 1000);
}

#[test]
fn input_is_seeded_and_small() {
    let input = make_input(1000);
    assert_eq!(input.len(), 1000);
    assert!(input.iter().all(|x| *x < 150));
    assert_eq!(input, make_input(1000));
    assert!(input.iter().any(|x| *x != input[0]));
}

#[test]
fn sequential_flat_map() {
    let input = vec![0, 993, 5];
    let output = run_seq(&input, false, &identity_fib);
    assert_eq!(values(&output), light_reference(&input));
    assert_eq!(values(&output).len(), 21);
    let empty: Vec<u64> = vec![];
    assert_eq!(values(&run_seq(&empty, true, &identity_fib)), Vec::<u64>::new());
}

#[test]
fn parallel_flat_maps_keep_the_order() {
    let input = make_input(5000);
    for heavy in [false, true] {
        let expected = run_seq(&input, heavy, &identity_fib);
        assert_eq!(run_rayon(&input, heavy, &identity_fib), expected);
        assert_eq!(run_orx(&input, heavy, &identity_fib, IterationOrder::Ordered), expected);
    }
    assert_eq!(values(&run_rayon(&input, false, &identity_fib)), light_reference(&input));
}

#[test]
fn arbitrary_order_keeps_the_values() {
    let input = make_input(3000);
    let mut expected = values(&run_seq(&input, false, &identity_fib));
    let mut got = values(&run_orx(&input, false, &identity_fib, IterationOrder::Arbitrary));
    expected.sort();
    got.sort();
    assert_eq!(got, expected);
}

#[test]
fn every_method_agrees_with_the_sequential_run() {
    let input = make_input(2000);
    for heavy in [false, true] {
        for method in Method::get() {
            let (ordered, output) = execute(method, &input, heavy, &identity_fib);
            assert!(ordered);
            assert!(validate_output(&input, heavy, &identity_fib, ordered, &output));
        }
    }
}

#[test]
fn validation_checks_order_only_when_asked() {
    let input = vec![1, 2];
    let mut reversed = values(&run_seq(&input, false, &identity_fib));
    reversed.reverse();
    let output = Output::Vec(reversed);
    assert!(!validate_output(&input, false, &identity_fib, true, &output));
    assert!(validate_output(&input, false, &identity_fib, false, &output));
    let short = Output::Vec(vec![1000]);
    assert!(!validate_output(&input, false, &identity_fib, false, &short));
}

#[test]
fn flat_map_of_a_concatenation_concatenates() {
    let input = make_input(500);
    let (a, b) = input.split_at(200);
    for heavy in [false, true] {
        let mut parts = values(&run_seq(a, heavy, &identity_fib));
        parts.extend(values(&run_seq(b, heavy, &identity_fib)));
        assert_eq!(values(&run_seq(&input, heavy, &identity_fib)), parts);
    }
}

#[test]
fn a_longer_input_extends_a_shorter_one() {
    assert_eq!(make_input(40)[..], make_input(100)[..40]);
}
