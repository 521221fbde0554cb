//! Sorting a slice of `u64` or `String` values and reporting its largest
//! element.

use vstd::prelude::*;
use vstd::arithmetic::power2::pow2;
use crate::method::Method;
use crate::order::{
    chars_le, lemma_chars_le_antisymmetric, lemma_sorted_permutations_equal,
    lemma_sorted_strings_unique, orx_sort_strings, orx_sort_u64s, string_views,
    par_sort_unstable_strings, par_sort_unstable_u64s, permutes, sort_unstable_strings,
    sort_unstable_u64s, sorted_strings, sorted_u64s,
};
use crate::rng::{draw_values, draws};
use crate::text::{decimal, hex16, push_decimal, push_hex16};

verus! {

/// The type of the elements that the sort benchmark works on.
#[derive(Clone, Copy, Debug, PartialEq, Eq, Structural)]
pub enum ElementType {
    U64,
    String,
}

impl ElementType {
    /// The name of the element type, as shown in reports.
    pub open spec fn name(self) -> Seq<char> {
        match self {
            ElementType::U64 => "u64"@,
            ElementType::String => "String"@,
        }
    }

    /// The name of the element type, as shown in reports.
    pub fn as_str(&self) -> (name: &'static str)
        ensures
            name@ == self.name(),
    {
        match self {
            ElementType::U64 => "u64",
            ElementType::String => "String",
        }
    }
}

/// One input setting of the sort benchmark: `2^n` elements of the given type.
#[derive(Clone, Copy, Debug)]
pub struct InputVariant {
    pub n: usize,
    pub element_type: ElementType,
}

impl InputVariant {
    /// The number of elements, `2^n`.
    pub fn len(&self) -> (len: usize)
        requires
            self.n < usize::BITS,
        ensures
            len == pow2(self.n as nat),
    {
        proof {
            vstd::bits::lemma_usize_pow2_no_overflow(self.n as nat);
            vstd::bits::lemma_usize_shl_is_mul(1, self.n);
        }
        1usize << self.n
    }
}


/// The seed of the generator that draws the benchmark's values.
pub const SEED: u64 = 654;

/// The elements to sort. Each run sorts them in place.
pub enum Input {
    U64(Vec<u64>),
    String(Vec<String>),
}

/// The largest element of the sorted input, if there is one.
#[derive(Debug, PartialEq, Eq)]
pub enum Output {
    U64(Option<u64>),
    String(Option<String>),
}

/// What an `Output` says, with strings taken by their characters.
pub enum OutputModel {
    U64(Option<u64>),
    Text(Option<Seq<char>>),
}

impl View for Output {
    type V = OutputModel;

    open spec fn view(&self) -> OutputModel {
        match self {
            Output::U64(m) => OutputModel::U64(*m),
            Output::String(None) => OutputModel::Text(None),
            Output::String(Some(s)) => OutputModel::Text(Some(s@)),
        }
    }
}

/// The string that the benchmark makes of the drawn value `k`: `key_`
/// followed by the 16 zero-padded lowercase hexadecimal digits of `k`.
pub open spec fn key_of(k: u64) -> Seq<char> {
    "key_"@ + hex16(k)
}

/// The values that the benchmark draws for `2^n` elements: the first `2^n`
/// draws from `0..=u64::MAX - 1` of the generator seeded with `SEED`.
pub open spec fn drawn_values(n: usize) -> Seq<u64> {
    draws(SEED, 0, (u64::MAX - 1) as u64, pow2(n as nat))
}

/// What `make_input` builds for `variant`: the drawn values as integers, or
/// the key strings of the same values.
pub open spec fn input_of(variant: InputVariant, input: Input) -> bool {
    match input {
        Input::U64(v) => {
            &&& variant.element_type == ElementType::U64
            &&& v@ == drawn_values(variant.n)
            &&& forall|i: int| 0 <= i < v.len() ==> v[i] < u64::MAX
        },
        Input::String(v) => {
            &&& variant.element_type == ElementType::String
            &&& v.len() == pow2(variant.n as nat)
            &&& forall|i: int| 0 <= i < v.len() ==> #[trigger] v@[i]@ == key_of(drawn_values(variant.n)[i])
        },
    }
}

/// A run of the benchmark took `before` to `after`, reporting `output`:
/// the elements were sorted in place, and the output is the last of them.
pub open spec fn sort_run(before: Input, after: Input, output: Output) -> bool {
    match before {
        Input::U64(v) => match after {
            Input::U64(w) => {
                &&& sorted_u64s(w@)
                &&& permutes(w@, v@)
                &&& output == Output::U64(if w.len() == 0 { None } else { Some(w@.last()) })
            },
            Input::String(_) => false,
        },
        Input::String(v) => match after {
            Input::String(w) => {
                &&& sorted_strings(w@)
                &&& permutes(w@, v@)
                &&& output == Output::String(if w.len() == 0 { None } else { Some(w@.last()) })
            },
            Input::U64(_) => false,
        },
    }
}

/// `m` is one of the values of `s`, and none of them is larger.
pub open spec fn largest_u64(s: Seq<u64>, m: u64) -> bool {
    &&& s.contains(m)
    &&& forall|i: int| 0 <= i < s.len() ==> s[i] <= m
}

/// `m` is one of the strings of `s`, and none of them comes after it.
pub open spec fn largest_string(s: Seq<String>, m: String) -> bool {
    &&& s.contains(m)
    &&& forall|i: int| 0 <= i < s.len() ==> chars_le(s[i]@, m@)
}

/// `output` reports the largest element of `input`, or nothing where it is empty.
pub open spec fn reports_largest(input: Input, output: Output) -> bool {
    match input {
        Input::U64(v) => match output {
            Output::U64(None) => v.len() == 0,
            Output::U64(Some(m)) => largest_u64(v@, m),
            Output::String(_) => false,
        },
        Input::String(v) => match output {
            Output::String(None) => v.len() == 0,
            Output::String(Some(m)) => largest_string(v@, m),
            Output::U64(_) => false,
        },
    }
}

/// The same elements, each as often, of the same type.
pub open spec fn same_elements(a: Input, b: Input) -> bool {
    match (a, b) {
        (Input::U64(v), Input::U64(w)) => permutes(v@, w@),
        (Input::String(v), Input::String(w)) => permutes(v@, w@),
        _ => false,
    }
}

/// The key string of `k`.
pub fn key_string(k: u64) -> (key: String)
    ensures
        key@ == key_of(k),
{
    let mut key = String::new();
    key.append("key_");
    push_hex16(&mut key, k);
    key
}

/// The benchmark's input for `variant`: `2^n` values drawn from a generator
/// seeded with `SEED`, as integers or as their key strings.
pub fn make_input(variant: &InputVariant) -> (input: Input)
    requires
        variant.n < usize::BITS,
    ensures
        input_of(*variant, input),
{
    let len = variant.len();
    let values = draw_values(SEED, 0, u64::MAX - 1, len);
    match variant.element_type {
        ElementType::U64 => Input::U64(values),
        ElementType::String => {
            let mut keys: Vec<String> = Vec::new();
            for i in 0..len
                invariant
                    len == values.len(),
                    keys.len() == i,
                    forall|j: int| 0 <= j < keys.len() ==> #[trigger] keys@[j]@ == key_of(values@[j]),
            {
                keys.push(key_string(values[i]));
            }
            Input::String(keys)
        },
    }
}

/// Where a run sorted the elements and reported the last of them, it
/// reported the largest one.
proof fn lemma_sort_run_reports_largest(before: Input, after: Input, output: Output)
    requires
        sort_run(before, after, output),
    ensures
        reports_largest(before, output),
        same_elements(before, after),
{
    match (before, after) {
        (Input::U64(v), Input::U64(w)) => {
            v@.to_multiset_ensures();
            w@.to_multiset_ensures();
            assert(w@.len() == v@.len());
            if w.len() > 0 {
                let m = w@.last();
                assert(w@.contains(m));
                assert(v@.to_multiset().count(m) > 0);
                assert forall|i: int| 0 <= i < v.len() implies v[i] <= m by {
                    assert(v@.contains(v[i]));
                    assert(v@.to_multiset().count(v[i]) > 0);
                    assert(w@.to_multiset().count(v[i]) > 0);
                    assert(w@.contains(v[i]));
                    let j = choose|j: int| 0 <= j < w.len() && w@[j] == v[i];
                }
            }
        },
        (Input::String(v), Input::String(w)) => {
            v@.to_multiset_ensures();
            w@.to_multiset_ensures();
            assert(w@.len() == v@.len());
            if w.len() > 0 {
                let m = w@.last();
                assert(w@.contains(m));
                assert(v@.to_multiset().count(m) > 0);
                assert forall|i: int| 0 <= i < v.len() implies chars_le(v@[i]@, m@) by {
                    assert(v@.contains(v@[i]));
                    assert(v@.to_multiset().count(v@[i]) > 0);
                    assert(w@.to_multiset().count(v@[i]) > 0);
                    assert(w@.contains(v@[i]));
                    let j = choose|j: int| 0 <= j < w.len() && w@[j] == v@[i];
                }
            }
        },
        _ => {},
    }
}

/// Sorts the elements with the standard library's unstable sort and reports
/// the largest.
pub fn run_seq(input: &mut Input) -> (output: Output)
    ensures
        sort_run(*old(input), *final(input), output),
        reports_largest(*old(input), output),
{
    let output = match input {
        Input::U64(values) => {
            sort_unstable_u64s(values);
            Output::U64(values.last().cloned())
        },
        Input::String(keys) => {
            sort_unstable_strings(keys);
            Output::String(keys.last().cloned())
        },
    };
    proof {
        lemma_sort_run_reports_largest(*old(input), *input, output);
    }
    output
}


/// Sorts the elements with rayon's parallel unstable sort and reports the
/// largest.
pub fn run_rayon(input: &mut Input) -> (output: Output)
    ensures
        sort_run(*old(input), *final(input), output),
        reports_largest(*old(input), output),
{
    let output = match input {
        Input::U64(values) => {
            par_sort_unstable_u64s(values);
            Output::U64(values.last().cloned())
        },
        Input::String(keys) => {
            par_sort_unstable_strings(keys);
            Output::String(keys.last().cloned())
        },
    };
    proof {
        lemma_sort_run_reports_largest(*old(input), *input, output);
    }
    output
}

/// Sorts the elements with orx-parallel's parallel sort and reports the
/// largest.
pub fn run_orx(input: &mut Input) -> (output: Output)
    ensures
        sort_run(*old(input), *final(input), output),
        reports_largest(*old(input), output),
{
    let output = match input {
        Input::U64(values) => {
            orx_sort_u64s(values);
            Output::U64(values.last().cloned())
        },
        Input::String(keys) => {
            orx_sort_strings(keys);
            Output::String(keys.last().cloned())
        },
    };
    proof {
        lemma_sort_run_reports_largest(*old(input), *input, output);
    }
    output
}

/// Runs the benchmark with `method`: the sequential sort, rayon's, or
/// orx-parallel's (whichever of its pools the process was set up with).
pub fn execute(method: Method, input: &mut Input) -> (output: Output)
    ensures
        sort_run(*old(input), *final(input), output),
        reports_largest(*old(input), output),
{
    match method {
        Method::Sequential => run_seq(input),
        Method::Rayon => run_rayon(input),
        Method::OrxOnce => run_orx(input),
        Method::OrxBasic => run_orx(input),
        Method::OrxRayon => run_orx(input),
    }
}

/// The two outputs say the same: the same integer, or strings of the same
/// characters, or both nothing.
pub fn same_output(a: &Output, b: &Output) -> (same: bool)
    ensures
        same == (a@ == b@),
{
    match (a, b) {
        (Output::U64(x), Output::U64(y)) => match (x, y) {
            (Some(x), Some(y)) => *x == *y,
            (None, None) => true,
            _ => false,
        },
        (Output::String(x), Output::String(y)) => match (x, y) {
            (Some(x), Some(y)) => *x == *y,
            (None, None) => true,
            _ => false,
        },
        _ => false,
    }
}

/// Checks `output` against the sequential run on the same input: whether
/// it reports the largest element. The sequential run sorts `input` in place.
pub fn validate_output(input: &mut Input, output: &Output) -> (valid: bool)
    ensures
        exists|expected: Output| sort_run(*old(input), *final(input), expected),
        valid == exists|largest: Output| reports_largest(*old(input), largest) && largest@ == output@,
{
    let expected = run_seq(input);
    let valid = same_output(&expected, output);
    proof {
        lemma_sort_run_reports_largest(*old(input), *input, expected);
        lemma_same_elements_reflexive(*old(input));
        if !valid {
            assert forall|largest: Output| reports_largest(*old(input), largest) implies largest@ != output@ by {
                lemma_largest_is_unique(*old(input), *old(input), largest, expected);
            }
        }
    }
    valid
}

/// Every input holds the same elements as itself.
proof fn lemma_same_elements_reflexive(input: Input)
    ensures
        same_elements(input, input),
{
}

/// Two outputs that each report the largest element of the same elements
/// say the same, whichever order the elements were in: every method of the
/// benchmark reports what the sequential run reports, also on an input that
/// an earlier run has sorted already.
pub proof fn lemma_largest_is_unique(a: Input, b: Input, out_a: Output, out_b: Output)
    requires
        same_elements(a, b),
        reports_largest(a, out_a),
        reports_largest(b, out_b),
    ensures
        out_a@ == out_b@,
{
    match (a, b) {
        (Input::U64(v), Input::U64(w)) => {
            v@.to_multiset_ensures();
            w@.to_multiset_ensures();
            match (out_a, out_b) {
                (Output::U64(Some(x)), Output::U64(Some(y))) => {
                    let i = choose|i: int| 0 <= i < v.len() && v@[i] == x;
                    let j = choose|j: int| 0 <= j < w.len() && w@[j] == y;
                    assert(v@.to_multiset().count(x) > 0);
                    assert(w@.contains(x));
                    assert(w@.to_multiset().count(y) > 0);
                    assert(v@.contains(y));
                    let k = choose|k: int| 0 <= k < w.len() && w@[k] == x;
                    let l = choose|l: int| 0 <= l < v.len() && v@[l] == y;
                },
                _ => {},
            }
        },
        (Input::String(v), Input::String(w)) => {
            v@.to_multiset_ensures();
            w@.to_multiset_ensures();
            match (out_a, out_b) {
                (Output::String(Some(x)), Output::String(Some(y))) => {
                    assert(v@.to_multiset().count(x) > 0);
                    assert(w@.contains(x));
                    assert(w@.to_multiset().count(y) > 0);
                    assert(v@.contains(y));
                    let k = choose|k: int| 0 <= k < w.len() && w@[k] == x;
                    let l = choose|l: int| 0 <= l < v.len() && v@[l] == y;
                    assert(chars_le(x@, y@));
                    assert(chars_le(y@, x@));
                    lemma_chars_le_antisymmetric(x@, y@);
                },
                _ => {},
            }
        },
        _ => {},
    }
}

impl InputVariant {
    /// The names of the factors that describe a variant.
    pub fn factor_names() -> (names: Vec<&'static str>)
        ensures
            names.len() == 2,
            names[0]@ == "n"@,
            names[1]@ == "type"@,
    {
        vec!["n", "type"]
    }

    /// The levels of the factors: `2e` followed by `n` in decimal, and the
    /// name of the element type.
    pub fn factor_levels(&self) -> (levels: Vec<String>)
        ensures
            levels.len() == 2,
            levels[0]@ == "2e"@ + decimal(self.n as nat),
            levels[1]@ == self.element_type.name(),
    {
        let mut size = String::new();
        size.append("2e");
        push_decimal(&mut size, self.n as u64);
        let mut name = String::new();
        name.append(self.element_type.as_str());
        vec![size, name]
    }
}


/// The same elements in the same order, strings taken by their characters.
pub open spec fn same_content(a: Input, b: Input) -> bool {
    match (a, b) {
        (Input::U64(v), Input::U64(w)) => v@ == w@,
        (Input::String(v), Input::String(w)) => string_views(v@) == string_views(w@),
        _ => false,
    }
}

/// Two runs on the same elements, by whichever methods and in whichever
/// order the elements came, leave the same sorted elements and report the
/// same: the rayon and orx-parallel sorts agree with the sequential one.
pub proof fn lemma_sort_runs_agree(
    before1: Input,
    after1: Input,
    out1: Output,
    before2: Input,
    after2: Input,
    out2: Output,
)
    requires
        sort_run(before1, after1, out1),
        sort_run(before2, after2, out2),
        same_elements(before1, before2),
    ensures
        same_content(after1, after2),
        out1@ == out2@,
{
    lemma_sort_run_reports_largest(before1, after1, out1);
    lemma_sort_run_reports_largest(before2, after2, out2);
    lemma_largest_is_unique(before1, before2, out1, out2);
    match (before1, after1, before2, after2) {
        (Input::U64(v1), Input::U64(w1), Input::U64(v2), Input::U64(w2)) => {
            assert(permutes(w1@, w2@));
            lemma_sorted_permutations_equal(w1@, w2@);
        },
        (Input::String(v1), Input::String(w1), Input::String(v2), Input::String(w2)) => {
            assert(permutes(w1@, w2@));
            lemma_sorted_strings_unique(w1@, w2@);
        },
        _ => {},
    }
}

} // verus!
