//! Deterministic pseudo-random sources: every draw is a function of a 64-bit
//! state, so that walks and samples can be reproduced from a seed.

use vstd::prelude::*;
use crate::types::SEED_XOR;

verus! {

/// One round of the 64-bit xorshift generator with shifts 13, 7 and 17.
pub open spec fn xorshift_spec(state: u64) -> u64 {
    let a = state ^ (state << 13);
    let b = a ^ (a >> 7);
    b ^ (b << 17)
}

/// Advances a 64-bit xorshift state by one round.
pub fn xorshift(state: u64) -> (next: u64)
    ensures
        next == xorshift_spec(state),
{
    let a: u64 = state ^ (state << 13);
    let b: u64 = a ^ (a >> 7);
    b ^ (b << 17)
}

/// The state obtained from a caller's seed by mixing in the fixed mask.
pub open spec fn mix_seed_spec(seed: u64) -> u64 {
    seed ^ SEED_XOR
}

/// Mixes the fixed mask into a caller's seed.
pub fn mix_seed(seed: u64) -> (state: u64)
    ensures
        state == mix_seed_spec(seed),
{
    seed ^ SEED_XOR
}

/// The index that a uniform draw over `[0, number)` yields from `state`.
pub open spec fn sample_uniform_spec(number: u64, state: u64) -> int {
    (xorshift_spec(state) % number) as int
}

/// Draws an index in `[0, number)` from `state`.
pub fn sample_uniform(number: u64, state: u64) -> (index: u64)
    requires
        number > 0,
    ensures
        index == sample_uniform_spec(number, state),
        index < number,
{
    xorshift(state) % number
}

} // verus!

verus! {

/// The random state `state` advanced by `i`, wrapping around.
pub open spec fn random_state_at(state: u64, i: int) -> u64 {
    ((state as int + i) % 0x1_0000_0000_0000_0000) as u64
}

/// The `i`-th of `size` random values drawn from `state`.
pub open spec fn random_value_spec(state: u64, i: int) -> u64 {
    xorshift_spec(random_state_at(state, i))
}

/// Adds `i` to a random state, wrapping around.
pub fn advance_state(state: u64, i: u64) -> (next: u64)
    ensures
        next == random_state_at(state, i as int),
{
    state.wrapping_add(i)
}

/// A vector of `size` random values: the `i`-th is one round of xorshift
/// over the state advanced by `i`.
pub fn gen_random_vec(size: usize, state: u64) -> (values: Vec<u64>)
    ensures
        values@.len() == size,
        forall|i: int| 0 <= i < size ==> #[trigger] values@[i] == random_value_spec(state, i),
{
    let mut values: Vec<u64> = Vec::new();
    let mut i: usize = 0;
    while i < size
        invariant
            i <= size,
            values@.len() == i,
            forall|k: int| 0 <= k < i ==> #[trigger] values@[k] == random_value_spec(state, k),
        decreases size - i,
    {
        values.push(xorshift(advance_state(state, i as u64)));
        i += 1;
    }
    values
}

/// Where the `i`-th of `k` equal parts of `[low, low + range)` starts.
pub open spec fn part_start(low: int, range: int, k: int, i: int) -> int {
    low + (i * range) / k
}

/// The `i`-th of `k` distinct indices drawn from `[low, low + range)`: a
/// uniform draw from the `i`-th of `k` equal parts of the range.
pub open spec fn distinct_sample_spec(low: int, range: int, k: int, state: u64, i: int) -> int {
    let start = part_start(low, range, k, i);
    let width = part_start(low, range, k, i + 1) - start;
    start + (random_value_spec(state, i) as int) % width
}

/// The parts of a range that holds as many items as there are parts, or
/// more, follow one another and hold an item each.
proof fn lemma_parts(range: int, k: int, i: int)
    requires
        0 < k <= range,
        0 <= i < k,
    ensures
        0 <= (i * range) / k < ((i + 1) * range) / k <= range,
{
    assert(0 <= i * range) by (nonlinear_arith)
        requires
            0 <= i,
            0 <= range,
    ;
    assert((i + 1) * range == i * range + range) by (nonlinear_arith);
    assert((i + 1) * range <= k * range) by (nonlinear_arith)
        requires
            i + 1 <= k,
            0 <= range,
    ;
    assert(i * range + k <= (i + 1) * range);
    vstd::arithmetic::div_mod::lemma_div_is_ordered(i * range + k, (i + 1) * range, k);
    vstd::arithmetic::div_mod::lemma_div_plus_one(i * range, k);
    vstd::arithmetic::div_mod::lemma_div_is_ordered((i + 1) * range, k * range, k);
    vstd::arithmetic::div_mod::lemma_div_multiples_vanish(range, k);
    vstd::arithmetic::div_mod::lemma_div_pos_is_pos(i * range, k);
    assert(k * range == range * k) by (nonlinear_arith);
}

/// Draws `k` distinct indices from `[min_value, max_value)`, in increasing
/// order: the range is cut into `k` equal parts and one index is drawn from
/// each.
pub fn sample_k_distinct_uniform(min_value: u64, max_value: u64, k: u64, state: u64) -> (indices:
    Vec<u64>)
    requires
        0 < k <= max_value - min_value,
        k <= usize::MAX,
    ensures
        indices@.len() == k,
        forall|i: int|
            0 <= i < k ==> #[trigger] indices@[i] == distinct_sample_spec(
                min_value as int,
                max_value - min_value,
                k as int,
                state,
                i,
            ),
        forall|i: int| 0 <= i < k ==> min_value <= #[trigger] indices@[i] < max_value,
        forall|i: int, j: int| 0 <= i < j < k ==> indices@[i] < indices@[j],
{
    let range: u64 = max_value - min_value;
    let mut indices: Vec<u64> = Vec::new();
    let mut i: u64 = 0;
    while i < k
        invariant
            i <= k,
            0 < k <= range,
            k <= usize::MAX,
            range == max_value - min_value,
            indices@.len() == i,
            forall|j: int|
                0 <= j < i ==> #[trigger] indices@[j] == distinct_sample_spec(
                    min_value as int,
                    range as int,
                    k as int,
                    state,
                    j,
                ),
            forall|j: int|
                0 <= j < i ==> part_start(min_value as int, range as int, k as int, j)
                    <= #[trigger] indices@[j] < part_start(
                    min_value as int,
                    range as int,
                    k as int,
                    j + 1,
                ),
        decreases k - i,
    {
        proof {
            lemma_parts(range as int, k as int, i as int);
            assert(i * range <= 0xffff_ffff_ffff_ffff * 0xffff_ffff_ffff_ffff) by (nonlinear_arith)
                requires
                    0 <= i <= 0xffff_ffff_ffff_ffff,
                    0 <= range <= 0xffff_ffff_ffff_ffff,
            ;
            assert((i + 1) * range <= 0x1_0000_0000_0000_0000 * 0xffff_ffff_ffff_ffff)
                by (nonlinear_arith)
                requires
                    0 <= i + 1 <= 0x1_0000_0000_0000_0000,
                    0 <= range <= 0xffff_ffff_ffff_ffff,
            ;
        }
        let start: u64 = ((i as u128 * range as u128) / (k as u128)) as u64;
        let end: u64 = (((i as u128 + 1) * range as u128) / (k as u128)) as u64;
        let width: u64 = end - start;
        let value = xorshift(advance_state(state, i));
        indices.push(min_value + start + value % width);
        i += 1;
    }
    proof {
        assert forall|a: int, b: int| 0 <= a < b < k implies indices@[a] < indices@[b] by {
            lemma_parts_ordered(min_value as int, range as int, k as int, a + 1, b);
        }
        assert forall|j: int| 0 <= j < k implies min_value <= #[trigger] indices@[j] < max_value by {
            lemma_parts(range as int, k as int, j);
        }
    }
    indices
}

/// Later parts start no earlier.
proof fn lemma_parts_ordered(low: int, range: int, k: int, a: int, b: int)
    requires
        0 < k <= range,
        0 <= a <= b <= k,
    ensures
        part_start(low, range, k, a) <= part_start(low, range, k, b),
{
    assert(a * range <= b * range) by (nonlinear_arith)
        requires
            a <= b,
            0 <= range,
    ;
    vstd::arithmetic::div_mod::lemma_div_is_ordered(a * range, b * range, k);
}

} // verus!
