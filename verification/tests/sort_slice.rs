use parbench::method::Method;
use parbench::sort_slice::{
    execute, key_string, make_input, run_orx, run_rayon, run_seq, same_output, validate_output,
    ElementType, Input, InputVariant, Output,
};

fn u64_values(input: &Input) -> Vec<u64> {
    match input {
        Input::U64(v) => v.clone(),
        Input::String(_) => panic!("expected integers"),
    }
}

fn strings(input: &Input) -> Vec<String> {
    match input {
        Input::String(v) => v.clone(),
        Input::U64(_) => panic!("expected strings"),
    }
}

#[test]
fn element_type_names() {
    assert_eq!(ElementType::U64.as_str(), "u64");
    assert_eq!(ElementType::String.as_str(), "String");
}

#[test]
fn variant_len_is_a_power_of_two() {
    let variant = InputVariant { n: 0, element_type: ElementType::U64 };
    assert_eq!(variant.len(), 1);
    let variant = InputVariant { n: 16, element_type: ElementType::String };
    assert_eq!(variant.len(), 65536);
    let variant = InputVariant { n: 20, element_type: ElementType::U64 };
    assert_eq!(variant.len(), 1 << 20);
}

#[test]
fn factors_name_the_size_and_the_type() {
    assert_eq!(InputVariant::factor_names(), vec!["n", "type"]);
    let variant = InputVariant { n: 16, element_type: ElementType::U64 };
    assert_eq!(variant.factor_levels(), vec!["2e16".to_string(), "u64".to_string()]);
    let variant = InputVariant { n: 0, element_type: ElementType::String };
    assert_eq!(variant.factor_levels(), vec!["2e0".to_string(), "String".to_string()]);
    let variant = InputVariant { n: 123, element_type: ElementType::String };
    assert_eq!(variant.factor_levels()[0], "2e123");
}

#[test]
fn key_strings_are_zero_padded_lowercase_hex() {
    assert_eq!(key_string(0), "key_0000000000000000");
    assert_eq!(key_string(0xab), "key_00000000000000ab");
    assert_eq!(key_string(0x0123_4567_89ab_cdef), "key_0123456789abcdef");
    assert_eq!(key_string(u64::MAX - 1), "key_fffffffffffffffe");
    assert_eq!(key_string(42), format!("key_{:016x}", 42u64));
}

#[test]
fn integer_input_has_two_to_the_n_drawn_values() {
    let variant = InputVariant { n: 10, element_type: ElementType::U64 };
    let values = u64_values(&make_input(&variant));
    assert_eq!(values.len(), 1024);
    assert!(values.iter().all(|v| *v < u64::MAX));
    // the generator is seeded: the same variant gives the same input
    assert_eq!(values, u64_values(&make_input(&variant)));
    // and the values are drawn, not constant
    assert!(values.iter().any(|v| *v != values[0]));
}

#[test]
fn string_input_holds_keys() {
    let variant = InputVariant { n: 6, element_type: ElementType::String };
    let keys = strings(&make_input(&variant));
    assert_eq!(keys.len(), 64);
    for key in &keys {
        assert!(key.starts_with("key_"));
        assert_eq!(key.len(), 20);
        assert!(u64::from_str_radix(&key[4..], 16).is_ok());
    }
    // the keys are those of the integers drawn from the same stream
    let values = u64_values(&make_input(&InputVariant { n: 6, element_type: ElementType::U64 }));
    for (key, value) in keys.iter().zip(values.iter()) {
        assert_eq!(*key, format!("key_{:016x}", value));
    }
}

#[test]
fn sequential_run_sorts_and_reports_the_largest() {
    let mut input = Input::U64(vec![5, 9, 2, 9, 0]);
    let output = run_seq(&mut input);
    assert_eq!(output, Output::U64(Some(9)));
    assert_eq!(u64_values(&input), vec![0, 2, 5, 9, 9]);

    let mut input = Input::String(vec!["pear".to_string(), "apple".to_string(), "zoo".to_string(), "b".to_string()]);
    let output = run_seq(&mut input);
    assert_eq!(output, Output::String(Some("zoo".to_string())));
    assert_eq!(strings(&input), vec!["apple", "b", "pear", "zoo"]);
}

#[test]
fn empty_input_reports_nothing() {
    let mut input = Input::U64(vec![]);
    assert_eq!(run_seq(&mut input), Output::U64(None));
    let mut input = Input::String(vec![]);
    assert_eq!(run_rayon(&mut input), Output::String(None));
    let mut input = Input::U64(vec![]);
    assert_eq!(run_orx(&mut input), Output::U64(None));
}

#[test]
fn parallel_sorts_agree_with_the_sequential_one() {
    let variant = InputVariant { n: 14, element_type: ElementType::U64 };
    let mut a = make_input(&variant);
    let mut b = make_input(&variant);
    let mut c = make_input(&variant);
    let expected = run_seq(&mut a);
    assert_eq!(run_rayon(&mut b), expected);
    assert_eq!(run_orx(&mut c), expected);
    let sorted = u64_values(&a);
    assert_eq!(u64_values(&b), sorted);
    assert_eq!(u64_values(&c), sorted);
    assert!(sorted.windows(2).all(|w| w[0] <= w[1]));
    assert_eq!(expected, Output::U64(sorted.last().cloned()));

    let variant = InputVariant { n: 12, element_type: ElementType::String };
    let mut a = make_input(&variant);
    let mut b = make_input(&variant);
    let mut c = make_input(&variant);
    let expected = run_seq(&mut a);
    assert_eq!(run_rayon(&mut b), expected);
    assert_eq!(run_orx(&mut c), expected);
    assert_eq!(strings(&b), strings(&a));
    assert_eq!(strings(&c), strings(&a));
}

#[test]
fn every_method_reports_the_maximum() {
    let variant = InputVariant { n: 11, element_type: ElementType::U64 };
    let maximum = *u64_values(&make_input(&variant)).iter().max().unwrap();
    for method in Method::get() {
        let mut input = make_input(&variant);
        let output = execute(method, &mut input);
        assert_eq!(output, Output::U64(Some(maximum)));
        assert!(validate_output(&mut input, &output));
    }
}

#[test]
fn validation_rejects_a_wrong_maximum() {
    let mut input = Input::U64(vec![3, 1, 2]);
    assert!(!validate_output(&mut input, &Output::U64(Some(2))));
    assert!(!validate_output(&mut input, &Output::U64(None)));
    assert!(validate_output(&mut input, &Output::U64(Some(3))));
    let mut input = Input::String(vec!["b".to_string(), "a".to_string()]);
    assert!(validate_output(&mut input, &Output::String(Some("b".to_string()))));
    assert!(!validate_output(&mut input, &Output::U64(Some(3))));
}

#[test]
fn outputs_compare_by_content() {
    assert!(same_output(&Output::U64(Some(4)), &Output::U64(Some(4))));
    assert!(!same_output(&Output::U64(Some(4)), &Output::U64(None)));
    assert!(same_output(&Output::String(Some("x".to_string())), &Output::String(Some("x".to_string()))));
    assert!(!same_output(&Output::String(Some("x".to_string())), &Output::String(Some("y".to_string()))));
    assert!(!same_output(&Output::String(None), &Output::U64(None)));
}

#[test]
fn validation_sorts_an_unsorted_input_and_accepts_its_maximum() {
    let mut input = Input::U64(vec![4, 8, 1, 6]);
    assert!(validate_output(&mut input, &Output::U64(Some(8))));
    assert_eq!(u64_values(&input), vec![1, 4, 6, 8]);
    let mut input = Input::String(vec!["kiwi".to_string(), "fig".to_string(), "plum".to_string()]);
    assert!(validate_output(&mut input, &Output::String(Some("plum".to_string()))));
    assert_eq!(strings(&input), vec!["fig", "kiwi", "plum"]);
}

#[test]
fn string_sorts_leave_the_same_order() {
    let words: Vec<String> = ["é", "z", "a", "ab", "", "Z", "aa"].iter().map(|w| w.to_string()).collect();
    let mut a = Input::String(words.clone());
    let mut b = Input::String(words.clone());
    let mut c = Input::String(words);
    let expected = run_seq(&mut a);
    assert_eq!(run_rayon(&mut b), expected);
    assert_eq!(run_orx(&mut c), expected);
    assert_eq!(strings(&a), vec!["", "Z", "a", "aa", "ab", "z", "é"]);
    assert_eq!(strings(&b), strings(&a));
    assert_eq!(strings(&c), strings(&a));
}

#[test]
fn a_larger_input_extends_the_draws() {
    let small = u64_values(&make_input(&InputVariant { n: 5, element_type: ElementType::U64 }));
    let large = u64_values(&make_input(&InputVariant { n: 6, element_type: ElementType::U64 }));
    assert_eq!(small[..], large[..32]);
}
