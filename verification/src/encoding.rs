//! How an edge is packed into one integer, and how a sorted list of such
//! integers is searched.

use vstd::prelude::*;
use vstd::arithmetic::div_mod::{lemma_fundamental_div_mod, lemma_fundamental_div_mod_converse};
use vstd::arithmetic::power2::{lemma2_to64, lemma_pow2_pos, lemma_pow2_strictly_increases, lemma_pow2_unfold, pow2};
use crate::types::{EdgeT, NodeT};

verus! {

/// The number of bits that tell `n` nodes apart: the least `b` with `n <= 2^b`.
pub open spec fn node_bits_spec(n: nat) -> nat
    decreases n,
{
    if n <= 1 {
        0
    } else {
        1 + node_bits_spec((n + 1) / 2)
    }
}

/// The factor that separates the source of an edge from its destination in
/// the edge's key: two to the number of node bits.
pub open spec fn radix_spec(n: nat) -> nat {
    pow2(node_bits_spec(n))
}

/// The key of the edge from `src` to `dst`.
pub open spec fn encode_spec(src: int, dst: int, radix: int) -> int {
    src * radix + dst
}

/// The source of the edge with key `key`.
pub open spec fn src_of(key: int, radix: int) -> int {
    key / radix
}

/// The destination of the edge with key `key`.
pub open spec fn dst_of(key: int, radix: int) -> int {
    key % radix
}

/// Whether `keys` never decreases.
pub open spec fn sorted(keys: Seq<u64>) -> bool {
    forall|i: int, j: int| 0 <= i <= j < keys.len() ==> keys[i] <= keys[j]
}

/// How many of `keys` lie below `bound`.
pub open spec fn count_below(keys: Seq<u64>, bound: int) -> nat
    decreases keys.len(),
{
    if keys.len() == 0 {
        0
    } else {
        count_below(keys.drop_last(), bound) + if keys.last() < bound {
            1nat
        } else {
            0nat
        }
    }
}

/// Only one exponent puts `n` between two neighbouring powers of two.
proof fn lemma_bits_unique(n: nat, b: nat)
    requires
        pow2(b) >= n,
        b == 0 || pow2((b - 1) as nat) < n,
    ensures
        b == node_bits_spec(n),
    decreases b,
{
    lemma2_to64();
    if n <= 1 {
        if b > 0 {
            lemma_pow2_pos((b - 1) as nat);
        }
    } else {
        assert(b > 0);
        lemma_pow2_unfold(b);
        if b - 1 > 0 {
            lemma_pow2_unfold((b - 1) as nat);
        }
        lemma_bits_unique((n + 1) / 2, (b - 1) as nat);
    }
}

/// The radix is at least the number of nodes and at most `2^32` for any
/// number of nodes that fits a node identifier.
pub proof fn lemma_radix_bounds(n: nat)
    requires
        n <= NodeT::MAX,
    ensures
        radix_spec(n) >= n,
        1 <= radix_spec(n) <= 0x1_0000_0000,
        node_bits_spec(n) <= 32,
    decreases n,
{
    lemma2_to64();
    if n > 1 {
        lemma_radix_bounds((n + 1) / 2);
        let b = node_bits_spec((n + 1) / 2);
        lemma_pow2_unfold(b + 1);
        if b == 32 {
            // 2^31 < (n + 1) / 2 would ask for more nodes than identifiers
            lemma_bits_upper((n + 1) / 2);
        }
    }
}

/// While `n` is at most `2^k`, it takes at most `k` bits.
proof fn lemma_bits_le(n: nat, k: nat)
    requires
        n <= pow2(k),
    ensures
        node_bits_spec(n) <= k,
    decreases k,
{
    lemma2_to64();
    if n > 1 {
        if k == 0 {
        } else {
            lemma_pow2_unfold(k);
            lemma_bits_le((n + 1) / 2, (k - 1) as nat);
        }
    }
}

/// Half the identifiers take at most 31 bits.
proof fn lemma_bits_upper(m: nat)
    requires
        m <= 0x8000_0000,
    ensures
        node_bits_spec(m) <= 31,
{
    lemma2_to64();
    lemma_bits_le(m, 31);
}

/// The number of bits that tell `nodes_number` nodes apart.
pub fn get_node_bits(nodes_number: NodeT) -> (bits: u8)
    ensures
        bits == node_bits_spec(nodes_number as nat),
        bits <= 32,
{
    let mut bits: u8 = 0;
    let mut radix: u64 = 1;
    proof {
        lemma2_to64();
    }
    while radix < nodes_number as u64
        invariant
            radix == pow2(bits as nat),
            bits <= 32,
            radix <= 0x1_0000_0000,
            radix >= 1,
            bits == 0 || pow2((bits - 1) as nat) < nodes_number,
        decreases 0x1_0000_0000 - radix,
    {
        proof {
            lemma2_to64();
            lemma_pow2_unfold((bits + 1) as nat);
            if bits + 1 < 32 {
                lemma_pow2_strictly_increases((bits + 1) as nat, 32);
            }
        }
        radix = radix * 2;
        bits = bits + 1;
    }
    proof {
        lemma_bits_unique(nodes_number as nat, bits as nat);
    }
    bits
}

/// The radix of the edge keys of a graph of `nodes_number` nodes.
pub fn get_radix(nodes_number: NodeT) -> (radix: u64)
    ensures
        radix == radix_spec(nodes_number as nat),
        1 <= radix <= 0x1_0000_0000,
        radix >= nodes_number,
{
    let bits = get_node_bits(nodes_number);
    proof {
        lemma_radix_bounds(nodes_number as nat);
        lemma2_to64();
    }
    let mut radix: u64 = 1;
    let mut b: u8 = 0;
    while b < bits
        invariant
            b <= bits <= 32,
            radix == pow2(b as nat),
            radix <= pow2(bits as nat) <= 0x1_0000_0000,
        decreases bits - b,
    {
        proof {
            lemma_pow2_unfold((b + 1) as nat);
            if b + 1 < bits {
                lemma_pow2_strictly_increases((b + 1) as nat, bits as nat);
            }
        }
        radix = radix * 2;
        b = b + 1;
    }
    radix
}

/// A key splits back into the source and the destination it was made of.
pub proof fn lemma_decode_encode(src: int, dst: int, radix: int)
    requires
        0 <= src,
        0 <= dst < radix,
    ensures
        src_of(encode_spec(src, dst, radix), radix) == src,
        dst_of(encode_spec(src, dst, radix), radix) == dst,
{
    lemma_fundamental_div_mod_converse(encode_spec(src, dst, radix), radix, src, dst);
}

/// A key is made of its source and destination.
pub proof fn lemma_encode_decode(key: int, radix: int)
    requires
        0 <= key,
        0 < radix,
    ensures
        encode_spec(src_of(key, radix), dst_of(key, radix), radix) == key,
        0 <= dst_of(key, radix) < radix,
        0 <= src_of(key, radix),
{
    lemma_fundamental_div_mod(key, radix);
    assert(radix * (key / radix) == (key / radix) * radix) by (nonlinear_arith);
    vstd::arithmetic::div_mod::lemma_mod_pos_bound(key, radix);
    vstd::arithmetic::div_mod::lemma_div_pos_is_pos(key, radix);
}

/// Keys order edges by source: a key lies below the first key of source `s`
/// exactly when its own source lies below `s`.
pub proof fn lemma_key_below_source(key: int, radix: int, s: int)
    requires
        0 <= key,
        0 < radix,
    ensures
        key < s * radix <==> src_of(key, radix) < s,
{
    lemma_encode_decode(key, radix);
    let q = key / radix;
    let r = key % radix;
    assert(key == q * radix + r);
    if q < s {
        assert(q * radix + r < s * radix) by (nonlinear_arith)
            requires
                q < s,
                0 <= r < radix,
        ;
    } else {
        assert(q * radix + r >= s * radix) by (nonlinear_arith)
            requires
                q >= s,
                0 <= r,
                0 < radix,
        ;
    }
}

/// The key of the edge from `src` to `dst`.
pub fn encode_edge(src: NodeT, dst: NodeT, radix: u64) -> (key: EdgeT)
    requires
        0 < radix <= 0x1_0000_0000,
        dst < radix,
    ensures
        key == encode_spec(src as int, dst as int, radix as int),
        src_of(key as int, radix as int) == src,
        dst_of(key as int, radix as int) == dst,
{
    proof {
        assert(src * radix <= 0xffff_ffff * 0x1_0000_0000) by (nonlinear_arith)
            requires
                src <= 0xffff_ffff,
                0 < radix <= 0x1_0000_0000,
        ;
        lemma_decode_encode(src as int, dst as int, radix as int);
    }
    src as u64 * radix + dst as u64
}

/// The first key of source `src`; for `src` one past the last node, the
/// bound above every key.
pub fn first_key_of(src: u64, radix: u64) -> (key: u64)
    requires
        0 < radix <= 0x1_0000_0000,
        src <= 0xffff_ffff,
    ensures
        key == src * radix,
{
    proof {
        assert(src * radix <= 0xffff_ffff * 0x1_0000_0000) by (nonlinear_arith)
            requires
                src <= 0xffff_ffff,
                0 < radix <= 0x1_0000_0000,
        ;
    }
    src * radix
}

/// The source and the destination of the edge with key `key`.
pub fn decode_edge(key: EdgeT, radix: u64) -> (ends: (NodeT, NodeT))
    requires
        0 < radix <= 0x1_0000_0000,
        src_of(key as int, radix as int) <= NodeT::MAX,
    ensures
        ends.0 == src_of(key as int, radix as int),
        ends.1 == dst_of(key as int, radix as int),
{
    proof {
        lemma_encode_decode(key as int, radix as int);
    }
    ((key / radix) as NodeT, (key % radix) as NodeT)
}

/// In a sorted list the keys below a bound are exactly the first
/// `count_below` of them.
pub proof fn lemma_count_below_sorted(keys: Seq<u64>, bound: int)
    requires
        sorted(keys),
    ensures
        count_below(keys, bound) <= keys.len(),
        forall|i: int| 0 <= i < keys.len() ==> (i < count_below(keys, bound) <==> keys[i] < bound),
    decreases keys.len(),
{
    if keys.len() > 0 {
        let front = keys.drop_last();
        assert(sorted(front)) by {
            assert forall|i: int, j: int| 0 <= i <= j < front.len() implies front[i] <= front[j] by {
                assert(keys[i] <= keys[j]);
            }
        }
        lemma_count_below_sorted(front, bound);
        assert forall|i: int| 0 <= i < keys.len() implies (i < count_below(keys, bound) <==> keys[i]
            < bound) by {
            if i < front.len() {
                assert(front[i] == keys[i]);
                assert(keys[i] <= keys[keys.len() - 1]);
            } else {
                if keys.last() < bound && front.len() > 0 {
                    assert(keys[front.len() - 1] <= keys[keys.len() - 1]);
                    assert(front[front.len() - 1] < bound);
                }
            }
        }
    }
}

/// A larger bound has no fewer keys below it.
pub proof fn lemma_count_below_monotonic(keys: Seq<u64>, low: int, high: int)
    requires
        low <= high,
    ensures
        count_below(keys, low) <= count_below(keys, high),
    decreases keys.len(),
{
    if keys.len() > 0 {
        lemma_count_below_monotonic(keys.drop_last(), low, high);
    }
}

/// A bound above every key has all keys below it.
pub proof fn lemma_count_below_all(keys: Seq<u64>, bound: int)
    requires
        forall|i: int| 0 <= i < keys.len() ==> keys[i] < bound,
    ensures
        count_below(keys, bound) == keys.len(),
    decreases keys.len(),
{
    if keys.len() > 0 {
        let front = keys.drop_last();
        assert forall|i: int| 0 <= i < front.len() implies front[i] < bound by {
            assert(keys[i] < bound);
        }
        lemma_count_below_all(front, bound);
        assert(keys[keys.len() - 1] < bound);
    }
}

/// Counts the keys of a sorted list that lie below `bound`, by bisection.
pub fn rank_of(keys: &Vec<u64>, bound: u64) -> (rank: usize)
    requires
        sorted(keys@),
    ensures
        rank == count_below(keys@, bound as int),
        rank <= keys@.len(),
{
    proof {
        lemma_count_below_sorted(keys@, bound as int);
    }
    let mut low: usize = 0;
    let mut high: usize = keys.len();
    while low < high
        invariant
            low <= high <= keys@.len(),
            low <= count_below(keys@, bound as int) <= high,
            forall|i: int|
                0 <= i < keys@.len() ==> (i < count_below(keys@, bound as int) <==> keys@[i] < bound),
        decreases high - low,
    {
        let middle = low + (high - low) / 2;
        if keys[middle] < bound {
            low = middle + 1;
        } else {
            high = middle;
        }
    }
    low
}

} // verus!
