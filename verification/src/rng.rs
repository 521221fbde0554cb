//! The seeded pseudo-random stream that the benchmark inputs are drawn from.

use rand::{RngExt, SeedableRng};
use rand_chacha::ChaCha8Rng;
use vstd::prelude::*;

verus! {

/// The value that `RngExt::random_range(low..=high)` draws from a
/// `ChaCha8Rng` seeded with `seed_from_u64(seed)` and standing at 32-bit word
/// `word_pos` of its stream, and the word position that the generator stands
/// at after the draw.
pub uninterp spec fn chacha8_draw(seed: u64, word_pos: u128, low: u64, high: u64) -> (u64, u128);

/// One draw from the seeded ChaCha8 stream at a given position: the
/// generator is made by `ChaCha8Rng::seed_from_u64(seed)` and placed by
/// `set_word_pos(word_pos)`, then `random_range(low..=high)` draws the value
/// and `get_word_pos` reads the position after it. rand_chacha documents its
/// generators as deterministic and portable, and its state is the seed, the
/// stream and the word position (which its `PartialEq` compares), so the
/// pair depends on the four arguments alone; the value lies in the range, and
/// the empty range, on which `random_range` panics, is left out.
#[verifier::external_body]
pub(crate) fn draw_at(seed: u64, word_pos: u128, low: u64, high: u64) -> (drawn: (u64, u128))
    requires
        low <= high,
    ensures
        drawn == chacha8_draw(seed, word_pos, low, high),
        low <= drawn.0 <= high,
{
    let mut rng = ChaCha8Rng::seed_from_u64(seed);
    rng.set_word_pos(word_pos);
    let value = rng.random_range(low..=high);
    (value, rng.get_word_pos())
}

/// The word position of the stream of `seed` after `k` draws from
/// `low..=high`.
pub open spec fn stream_pos(seed: u64, low: u64, high: u64, k: nat) -> u128
    decreases k,
{
    if k == 0 {
        0
    } else {
        chacha8_draw(seed, stream_pos(seed, low, high, (k - 1) as nat), low, high).1
    }
}

/// The first `count` values that a `ChaCha8Rng` seeded with
/// `seed_from_u64(seed)` draws, one after the other, from `low..=high`.
pub open spec fn draws(seed: u64, low: u64, high: u64, count: nat) -> Seq<u64> {
    Seq::new(count, |k: int| chacha8_draw(seed, stream_pos(seed, low, high, k as nat), low, high).0)
}

/// A longer stream of draws begins with a shorter one: the same seed gives
/// the same values, and asking for more draws only adds values at the end.
pub proof fn lemma_draws_prefix(seed: u64, low: u64, high: u64, shorter: nat, longer: nat)
    requires
        shorter <= longer,
    ensures
        draws(seed, low, high, shorter) == draws(seed, low, high, longer).take(shorter as int),
{
    assert(draws(seed, low, high, shorter) =~= draws(seed, low, high, longer).take(shorter as int));
}

/// The first `count` values that the generator seeded with `seed` draws
/// from `low..=high`, each in that range.
pub fn draw_values(seed: u64, low: u64, high: u64, count: usize) -> (values: Vec<u64>)
    requires
        low <= high,
    ensures
        values@ == draws(seed, low, high, count as nat),
        forall|i: int| 0 <= i < count ==> low <= #[trigger] values[i] <= high,
{
    let mut values: Vec<u64> = Vec::new();
    let mut pos: u128 = 0;
    for i in 0..count
        invariant
            low <= high,
            pos == stream_pos(seed, low, high, i as nat),
            values@ == draws(seed, low, high, i as nat),
            forall|j: int| 0 <= j < i ==> low <= #[trigger] values[j] <= high,
    {
        let (value, next) = draw_at(seed, pos, low, high);
        values.push(value);
        pos = next;
        assert(values@ =~= draws(seed, low, high, (i + 1) as nat));
    }
    values
}

} // verus!
