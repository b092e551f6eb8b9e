//! Sorting by key with the `permutation` crate: the order that sorts a list
//! of keys, and columns rearranged by it.

use vstd::prelude::*;

verus! {

/// The permutations of the `permutation` crate.
#[verifier::external_type_specification]
#[verifier::external_body]
pub struct ExPermutation(permutation::Permutation);

/// The one-line form of a permutation that `permutation::sort` made: entry
/// `i` is the place, in the list that was sorted, of the item that the
/// permutation puts at place `i`.
pub uninterp spec fn order_of(p: permutation::Permutation) -> Seq<int>;

/// Whether place `p` occurs in `order`.
pub open spec fn occurs(order: Seq<int>, p: int) -> bool {
    exists|i: int| 0 <= i < order.len() && order[i] == p
}

/// Whether `order` sorts `keys` and keeps equal keys in their order: every
/// place of `keys` occurs in it once, the keys taken in its order never
/// decrease, and of two equal keys the one that came first stays first.
pub open spec fn is_stable_order(order: Seq<int>, keys: Seq<u64>) -> bool {
    &&& order.len() == keys.len()
    &&& forall|i: int| 0 <= i < order.len() ==> 0 <= #[trigger] order[i] && order[i] < keys.len()
    &&& forall|p: int| 0 <= p < keys.len() ==> #[trigger] occurs(order, p)
    &&& forall|i: int, j: int|
        0 <= i < j < order.len() ==> #[trigger] order[i] != #[trigger] order[j]
    &&& forall|i: int, j: int|
        0 <= i < j < order.len() ==> keys[#[trigger] order[i]] <= keys[#[trigger] order[j]]
    &&& forall|i: int, j: int|
        0 <= i < j < order.len() && keys[#[trigger] order[i]] == keys[#[trigger] order[j]]
            ==> order[i] < order[j]
}

/// Entry `i` of a rising list of places is `i` or more.
pub proof fn lemma_rising_from_below(order: Seq<int>, i: int)
    requires
        forall|a: int| 0 <= a < order.len() ==> 0 <= #[trigger] order[a] && order[a] < order.len(),
        forall|a: int, b: int| 0 <= a < b < order.len() ==> #[trigger] order[a] < #[trigger] order[b],
        0 <= i < order.len(),
    ensures
        order[i] >= i,
    decreases i,
{
    if i > 0 {
        lemma_rising_from_below(order, i - 1);
        assert(order[i - 1] < order[i]);
    }
}

/// Entry `i` of a rising list of places is `i` or less.
pub proof fn lemma_rising_from_above(order: Seq<int>, i: int)
    requires
        forall|a: int| 0 <= a < order.len() ==> 0 <= #[trigger] order[a] && order[a] < order.len(),
        forall|a: int, b: int| 0 <= a < b < order.len() ==> #[trigger] order[a] < #[trigger] order[b],
        0 <= i < order.len(),
    ensures
        order[i] <= i,
    decreases order.len() - i,
{
    if i < order.len() - 1 {
        lemma_rising_from_above(order, i + 1);
        assert(order[i] < order[i + 1]);
    }
}

/// Keys have one stable order.
pub proof fn lemma_stable_order_is_unique(one: Seq<int>, other: Seq<int>, keys: Seq<u64>)
    requires
        is_stable_order(one, keys),
        is_stable_order(other, keys),
    ensures
        one == other,
{
    let n = keys.len() as int;
    let place = Seq::new(
        n as nat,
        |i: int| choose|j: int| 0 <= j < other.len() && other[j] == one[i],
    );
    assert forall|i: int| 0 <= i < n implies 0 <= #[trigger] place[i] && place[i] < n && other[place[i]]
        == one[i] by {
        assert(occurs(other, one[i]));
    }
    assert forall|a: int, b: int| 0 <= a < b < n implies #[trigger] place[a] < #[trigger] place[b] by {
        assert(one[a] != one[b]);
        assert(keys[one[a]] <= keys[one[b]]);
        if place[b] < place[a] {
            assert(keys[other[place[b]]] <= keys[other[place[a]]]);
            assert(other[place[b]] < other[place[a]]);
        }
    }
    assert forall|i: int| 0 <= i < n implies one[i] == other[i] by {
        lemma_rising_from_below(place, i);
        lemma_rising_from_above(place, i);
    }
    assert(one =~= other);
}

/// `permutation::sort`: the permutation that sorts `keys`. The crate sorts
/// the places `0..len` by their keys with a stable sort, so equal keys keep
/// their order.
#[verifier::external_body]
pub(crate) fn sort_keys(keys: &Vec<u64>) -> (p: permutation::Permutation)
    ensures
        is_stable_order(order_of(p), keys@),
{
    permutation::sort(keys)
}

/// `Permutation::apply_slice`: a copy of `column` rearranged by `p`, which
/// puts at place `i` the item that `column` holds at place `order_of(p)[i]`.
/// The crate refuses a column of another length than the permutation.
#[verifier::external_body]
pub(crate) fn apply_order<T: Copy>(p: &permutation::Permutation, column: &Vec<T>) -> (out: Vec<T>)
    requires
        column@.len() == order_of(*p).len(),
    ensures
        out@.len() == column@.len(),
        forall|i: int| 0 <= i < out@.len() ==> #[trigger] out@[i] == column@[order_of(*p)[i]],
{
    p.apply_slice(column)
}

} // verus!
