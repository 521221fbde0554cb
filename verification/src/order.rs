//! Orders on the values that the benchmarks sort, and the sorts themselves.

use rayon::slice::ParallelSliceMut;
use orx_parallel::{par_experimental_sort, Params, Runner};
use vstd::prelude::*;

verus! {

/// `a` precedes or equals `b` in the lexicographic order of their characters,
/// compared by code point. This is the order of `String`: byte-wise
/// lexicographic over UTF-8, which orders code points as their numbers do.
pub open spec fn chars_le(a: Seq<char>, b: Seq<char>) -> bool
    decreases a.len(),
{
    if a.len() == 0 {
        true
    } else if b.len() == 0 {
        false
    } else if (a[0] as int) != (b[0] as int) {
        (a[0] as int) < (b[0] as int)
    } else {
        chars_le(a.drop_first(), b.drop_first())
    }
}

/// The values are in ascending order.
pub open spec fn sorted_u64s(s: Seq<u64>) -> bool {
    forall|i: int, j: int| 0 <= i <= j < s.len() ==> s[i] <= s[j]
}

/// The strings are in ascending lexicographic order.
pub open spec fn sorted_strings(s: Seq<String>) -> bool {
    forall|i: int, j: int| 0 <= i <= j < s.len() ==> chars_le(s[i]@, s[j]@)
}

/// `a` and `b` hold the same values, each as often.
pub open spec fn permutes<T>(a: Seq<T>, b: Seq<T>) -> bool {
    a.to_multiset() == b.to_multiset()
}

/// `<[u64]>::sort_unstable`: sorts the slice in ascending order, keeping its
/// values.
#[verifier::external_body]
pub(crate) fn sort_unstable_u64s(v: &mut Vec<u64>)
    ensures
        sorted_u64s(final(v)@),
        permutes(final(v)@, old(v)@),
{
    v.sort_unstable()
}

/// `<[String]>::sort_unstable`: sorts the slice in the order of `String`,
/// keeping its values.
#[verifier::external_body]
pub(crate) fn sort_unstable_strings(v: &mut Vec<String>)
    ensures
        sorted_strings(final(v)@),
        permutes(final(v)@, old(v)@),
{
    v.sort_unstable()
}

/// `<[u64]>::sort` (stable): sorts the slice in ascending order, keeping its
/// values.
#[verifier::external_body]
pub(crate) fn sort_u64s(v: &mut Vec<u64>)
    ensures
        sorted_u64s(final(v)@),
        permutes(final(v)@, old(v)@),
{
    v.sort()
}

/// rayon's `ParallelSliceMut::par_sort_unstable`: sorts the slice in parallel
/// in ascending order, keeping its values.
#[verifier::external_body]
pub(crate) fn par_sort_unstable_u64s(v: &mut Vec<u64>)
    ensures
        sorted_u64s(final(v)@),
        permutes(final(v)@, old(v)@),
{
    v.par_sort_unstable()
}

/// rayon's `ParallelSliceMut::par_sort_unstable` on strings: sorts the slice
/// in parallel in the order of `String`, keeping its values.
#[verifier::external_body]
pub(crate) fn par_sort_unstable_strings(v: &mut Vec<String>)
    ensures
        sorted_strings(final(v)@),
        permutes(final(v)@, old(v)@),
{
    v.par_sort_unstable()
}

/// orx-parallel's `par_experimental_sort`, run with `Runner::fixed()` and
/// `Params::default()`: sorts the slice in parallel in ascending order,
/// keeping its values.
#[verifier::external_body]
pub(crate) fn orx_sort_u64s(v: &mut Vec<u64>)
    ensures
        sorted_u64s(final(v)@),
        permutes(final(v)@, old(v)@),
{
    let mut runner = Runner::fixed();
    par_experimental_sort(v.as_mut_slice(), &mut runner, Params::default())
}

/// orx-parallel's `par_experimental_sort` on strings, run with
/// `Runner::fixed()` and `Params::default()`: sorts the slice in parallel in
/// the order of `String`, keeping its values.
#[verifier::external_body]
pub(crate) fn orx_sort_strings(v: &mut Vec<String>)
    ensures
        sorted_strings(final(v)@),
        permutes(final(v)@, old(v)@),
{
    let mut runner = Runner::fixed();
    par_experimental_sort(v.as_mut_slice(), &mut runner, Params::default())
}

/// `chars_le` is reflexive.
pub proof fn lemma_chars_le_reflexive(a: Seq<char>)
    ensures
        chars_le(a, a),
    decreases a.len(),
{
    if a.len() > 0 {
        lemma_chars_le_reflexive(a.drop_first());
    }
}

/// `chars_le` is antisymmetric: two sequences that each precede the other are
/// equal.
pub proof fn lemma_chars_le_antisymmetric(a: Seq<char>, b: Seq<char>)
    requires
        chars_le(a, b),
        chars_le(b, a),
    ensures
        a == b,
    decreases a.len(),
{
    if a.len() > 0 && b.len() > 0 {
        lemma_chars_le_antisymmetric(a.drop_first(), b.drop_first());
        assert(a[0] == b[0]);
        assert(a =~= seq![a[0]] + a.drop_first());
        assert(b =~= seq![b[0]] + b.drop_first());
    } else {
        assert(a =~= b);
    }
}

/// `chars_le` is total: of two sequences, one precedes the other.
pub proof fn lemma_chars_le_total(a: Seq<char>, b: Seq<char>)
    ensures
        chars_le(a, b) || chars_le(b, a),
    decreases a.len(),
{
    if a.len() > 0 && b.len() > 0 {
        lemma_chars_le_total(a.drop_first(), b.drop_first());
    }
}

/// `chars_le` is transitive.
pub proof fn lemma_chars_le_transitive(a: Seq<char>, b: Seq<char>, c: Seq<char>)
    requires
        chars_le(a, b),
        chars_le(b, c),
    ensures
        chars_le(a, c),
    decreases a.len(),
{
    if a.len() > 0 && b.len() > 0 && c.len() > 0 {
        if (a[0] as int) == (b[0] as int) && (b[0] as int) == (c[0] as int) {
            lemma_chars_le_transitive(a.drop_first(), b.drop_first(), c.drop_first());
        }
    }
}


/// Sorting determines the result: two ascending sequences that hold the same
/// values, each as often, are equal.
pub proof fn lemma_sorted_permutations_equal(a: Seq<u64>, b: Seq<u64>)
    requires
        sorted_u64s(a),
        sorted_u64s(b),
        permutes(a, b),
    ensures
        a == b,
    decreases a.len(),
{
    a.to_multiset_ensures();
    b.to_multiset_ensures();
    if a.len() == 0 {
        assert(b.len() == 0);
        assert(a =~= b);
    } else {
        assert(b.len() == a.len());
        let n = a.len() - 1;
        let (x, y) = (a[n], b[n]);
        assert(a.to_multiset().count(y) > 0);
        assert(a.contains(y));
        assert(b.to_multiset().count(x) > 0);
        assert(b.contains(x));
        let i = choose|i: int| 0 <= i < a.len() && a[i] == y;
        let j = choose|j: int| 0 <= j < b.len() && b[j] == x;
        assert(x == y);
        assert(a.remove(n) =~= a.drop_last());
        assert(b.remove(n) =~= b.drop_last());
        assert(a.drop_last().to_multiset() =~= a.to_multiset().remove(x));
        assert(b.drop_last().to_multiset() =~= b.to_multiset().remove(y));
        lemma_sorted_permutations_equal(a.drop_last(), b.drop_last());
        assert(a =~= a.drop_last().push(x));
        assert(b =~= b.drop_last().push(y));
    }
}


/// The characters of each string.
pub open spec fn string_views(s: Seq<String>) -> Seq<Seq<char>> {
    s.map_values(|x: String| x@)
}

/// The character sequences are in ascending lexicographic order.
pub open spec fn sorted_chars(s: Seq<Seq<char>>) -> bool {
    forall|i: int, j: int| 0 <= i <= j < s.len() ==> chars_le(s[i], s[j])
}

/// Strings that are the same values, each as often, have the same
/// character sequences, each as often.
proof fn lemma_permutes_views(a: Seq<String>, b: Seq<String>)
    requires
        permutes(a, b),
    ensures
        permutes(string_views(a), string_views(b)),
    decreases a.len(),
{
    a.to_multiset_ensures();
    b.to_multiset_ensures();
    if a.len() == 0 {
        assert(b.len() == 0);
        assert(string_views(a) =~= string_views(b));
    } else {
        let x = a.last();
        assert(a.to_multiset().count(x) > 0);
        assert(b.contains(x));
        let i = choose|i: int| 0 <= i < b.len() && b[i] == x;
        assert(a.remove(a.len() - 1) =~= a.drop_last());
        assert(a.drop_last().to_multiset() =~= b.remove(i).to_multiset());
        lemma_permutes_views(a.drop_last(), b.remove(i));
        let (va, vb) = (string_views(a), string_views(b));
        assert(va =~= string_views(a.drop_last()).push(x@));
        assert(string_views(b.remove(i)) =~= vb.remove(i));
        string_views(a.drop_last()).to_multiset_ensures();
        vb.to_multiset_ensures();
        assert(vb[i] == x@);
        assert(vb.to_multiset().count(x@) > 0);
        assert(va.to_multiset() =~= vb.remove(i).to_multiset().insert(x@));
        assert(vb.remove(i).to_multiset().insert(x@) =~= vb.to_multiset());
    }
}

/// Two ascending sequences of character sequences that hold the same ones,
/// each as often, are equal.
proof fn lemma_sorted_chars_equal(a: Seq<Seq<char>>, b: Seq<Seq<char>>)
    requires
        sorted_chars(a),
        sorted_chars(b),
        permutes(a, b),
    ensures
        a == b,
    decreases a.len(),
{
    a.to_multiset_ensures();
    b.to_multiset_ensures();
    if a.len() == 0 {
        assert(b.len() == 0);
        assert(a =~= b);
    } else {
        assert(b.len() == a.len());
        let n = a.len() - 1;
        let (x, y) = (a[n], b[n]);
        assert(a.to_multiset().count(y) > 0);
        assert(a.contains(y));
        assert(b.to_multiset().count(x) > 0);
        assert(b.contains(x));
        let i = choose|i: int| 0 <= i < a.len() && a[i] == y;
        let j = choose|j: int| 0 <= j < b.len() && b[j] == x;
        assert(chars_le(y, x));
        assert(chars_le(x, y));
        lemma_chars_le_antisymmetric(x, y);
        assert(a.remove(n) =~= a.drop_last());
        assert(b.remove(n) =~= b.drop_last());
        assert(a.drop_last().to_multiset() =~= a.to_multiset().remove(x));
        assert(b.drop_last().to_multiset() =~= b.to_multiset().remove(y));
        lemma_sorted_chars_equal(a.drop_last(), b.drop_last());
        assert(a =~= a.drop_last().push(x));
        assert(b =~= b.drop_last().push(y));
    }
}

/// Sorting strings determines the result up to equal strings: two
/// ascending vectors that hold the same strings, each as often, have the
/// same characters at every position.
pub proof fn lemma_sorted_strings_unique(a: Seq<String>, b: Seq<String>)
    requires
        sorted_strings(a),
        sorted_strings(b),
        permutes(a, b),
    ensures
        string_views(a) == string_views(b),
{
    lemma_permutes_views(a, b);
    assert(sorted_chars(string_views(a)));
    assert(sorted_chars(string_views(b)));
    lemma_sorted_chars_equal(string_views(a), string_views(b));
}

} // verus!
