//! The aggregate that the arbitrary-iterator benchmark reduces its values to:
//! their wrapping sum, their xor and their count.

use vstd::prelude::*;
use crate::order::permutes;

verus! {

/// The wrapping sum, the xor and the number of a collection of values.
#[derive(Clone, Copy, Debug, PartialEq, Eq, Structural)]
pub struct Agg {
    pub sum: u64,
    pub xor_sum: u64,
    pub count: u64,
}

/// The aggregate of no values.
pub open spec fn agg_zero() -> Agg {
    Agg { sum: 0, xor_sum: 0, count: 0 }
}

/// The aggregate of the single value `v`.
pub open spec fn agg_of(v: u64) -> Agg {
    Agg { sum: v, xor_sum: v, count: 1 }
}

/// The aggregate of two collections together.
pub open spec fn combine(a: Agg, b: Agg) -> Agg {
    Agg {
        sum: a.sum.wrapping_add(b.sum),
        xor_sum: a.xor_sum ^ b.xor_sum,
        count: a.count.wrapping_add(b.count),
    }
}

/// The aggregates combined from the left, starting from the aggregate of no
/// values.
pub open spec fn combine_all(aggs: Seq<Agg>) -> Agg
    decreases aggs.len(),
{
    if aggs.len() == 0 {
        agg_zero()
    } else {
        combine(combine_all(aggs.drop_last()), aggs.last())
    }
}

/// The sum of the values, wrapping at `2^64`.
pub open spec fn wrapping_sum(values: Seq<u64>) -> u64
    decreases values.len(),
{
    if values.len() == 0 {
        0
    } else {
        wrapping_sum(values.drop_last()).wrapping_add(values.last())
    }
}

/// The xor of the values.
pub open spec fn xor_all(values: Seq<u64>) -> u64
    decreases values.len(),
{
    if values.len() == 0 {
        0
    } else {
        xor_all(values.drop_last()) ^ values.last()
    }
}

/// The aggregate of `values`: their wrapping sum, their xor and their number.
pub open spec fn summary(values: Seq<u64>) -> Agg {
    Agg { sum: wrapping_sum(values), xor_sum: xor_all(values), count: values.len() as u64 }
}

impl Default for Agg {
    /// The aggregate of no values.
    fn default() -> (agg: Agg)
        ensures
            agg == agg_zero(),
    {
        Agg { sum: 0, xor_sum: 0, count: 0 }
    }
}

impl Agg {
    /// The aggregate of the single value `v`.
    pub fn from_val(v: u64) -> (agg: Agg)
        ensures
            agg == agg_of(v),
    {
        Agg { sum: v, xor_sum: v, count: 1 }
    }
}

/// The aggregate of the collections of `a` and `b` together. The counts
/// must not overflow.
pub fn merge(a: Agg, b: Agg) -> (agg: Agg)
    requires
        a.count + b.count <= u64::MAX,
    ensures
        agg == combine(a, b),
{
    Agg { sum: a.sum.wrapping_add(b.sum), xor_sum: a.xor_sum ^ b.xor_sum, count: a.count + b.count }
}

/// Xor is associative.
proof fn lemma_xor_associative(x: u64, y: u64, z: u64)
    ensures
        (x ^ y) ^ z == x ^ (y ^ z),
{
    assert((x ^ y) ^ z == x ^ (y ^ z)) by (bit_vector);
}

/// Xor is commutative, and zero is its identity.
proof fn lemma_xor_commutative_zero(x: u64, y: u64)
    ensures
        x ^ y == y ^ x,
        x ^ 0 == x,
        0 ^ x == x,
{
    assert(x ^ y == y ^ x) by (bit_vector);
    assert(x ^ 0 == x) by (bit_vector);
    assert(0 ^ x == x) by (bit_vector);
}

/// Combining is associative.
pub proof fn lemma_combine_associative(a: Agg, b: Agg, c: Agg)
    ensures
        combine(combine(a, b), c) == combine(a, combine(b, c)),
{
    lemma_xor_associative(a.xor_sum, b.xor_sum, c.xor_sum);
}

/// Combining is commutative.
pub proof fn lemma_combine_commutative(a: Agg, b: Agg)
    ensures
        combine(a, b) == combine(b, a),
{
    lemma_xor_commutative_zero(a.xor_sum, b.xor_sum);
}

/// The aggregate of no values changes nothing it is combined with.
pub proof fn lemma_combine_zero(a: Agg)
    ensures
        combine(agg_zero(), a) == a,
        combine(a, agg_zero()) == a,
{
    lemma_xor_commutative_zero(a.xor_sum, 0);
}

/// Combining all the aggregates equals combining all but the `i`-th, then it.
proof fn lemma_combine_all_remove(aggs: Seq<Agg>, i: int)
    requires
        0 <= i < aggs.len(),
    ensures
        combine_all(aggs) == combine(combine_all(aggs.remove(i)), aggs[i]),
    decreases aggs.len(),
{
    let n = aggs.len() - 1;
    if i == n {
        assert(aggs.remove(i) =~= aggs.drop_last());
    } else {
        let rest = aggs.drop_last();
        lemma_combine_all_remove(rest, i);
        assert(aggs.remove(i).drop_last() =~= rest.remove(i));
        assert(aggs.remove(i).last() == aggs.last());
        let x = combine_all(rest.remove(i));
        lemma_combine_associative(x, aggs[i], aggs.last());
        lemma_combine_commutative(aggs[i], aggs.last());
        lemma_combine_associative(x, aggs.last(), aggs[i]);
    }
}

/// Combining does not depend on the order: aggregates that hold the same
/// values, each as often, combine to the same aggregate.
pub proof fn lemma_combine_all_permutation(a: Seq<Agg>, b: Seq<Agg>)
    requires
        permutes(a, b),
    ensures
        combine_all(a) == combine_all(b),
    decreases a.len(),
{
    a.to_multiset_ensures();
    b.to_multiset_ensures();
    if a.len() > 0 {
        let x = a.last();
        assert(a.to_multiset().count(x) > 0);
        assert(b.contains(x));
        let i = choose|i: int| 0 <= i < b.len() && b[i] == x;
        assert(a.remove(a.len() - 1) =~= a.drop_last());
        assert(a.drop_last().to_multiset() =~= b.remove(i).to_multiset());
        lemma_combine_all_permutation(a.drop_last(), b.remove(i));
        lemma_combine_all_remove(b, i);
    } else {
        assert(b.len() == 0);
    }
}

/// Combining the aggregates of single values gives the summary of the values.
pub proof fn lemma_combine_all_of_values(values: Seq<u64>)
    requires
        values.len() <= u64::MAX,
    ensures
        combine_all(values.map_values(|v: u64| agg_of(v))) == summary(values),
    decreases values.len(),
{
    let aggs = values.map_values(|v: u64| agg_of(v));
    if values.len() > 0 {
        lemma_combine_all_of_values(values.drop_last());
        assert(aggs.drop_last() =~= values.drop_last().map_values(|v: u64| agg_of(v)));
    } else {
        lemma_xor_commutative_zero(0, 0);
    }
}


/// The summary of two stretches of values, one after the other, combines
/// their summaries.
pub proof fn lemma_summary_concat(a: Seq<u64>, b: Seq<u64>)
    requires
        a.len() + b.len() <= u64::MAX,
    ensures
        summary(a + b) == combine(summary(a), summary(b)),
    decreases b.len(),
{
    if b.len() == 0 {
        assert(a + b =~= a);
        lemma_combine_zero(summary(a));
        assert(summary(b) == agg_zero());
    } else {
        let front = b.drop_last();
        lemma_summary_concat(a, front);
        assert((a + b).drop_last() =~= a + front);
        assert((a + b).last() == b.last());
        let v = b.last();
        lemma_xor_associative(xor_all(a), xor_all(front), v);
        assert(wrapping_sum(a + b) == wrapping_sum(a + front).wrapping_add(v));
        assert(xor_all(a + b) == xor_all(a + front) ^ v);
    }
}

} // verus!
