//! The counters of a graph, computed from its sorted keys.

use vstd::prelude::*;
use crate::encoding::{
    count_below, dst_of, lemma_count_below_all, lemma_count_below_sorted, lemma_encode_decode,
    lemma_key_below_source, sorted, src_of,
};
use crate::graph::{
    key_is_loop, key_starts_run, key_touches, loop_runs_upto, loops_upto, repeats_upto, runs_upto,
    touched_upto,
};
use crate::types::{EdgeT, NodeT};

verus! {

/// Every edge starts a run or repeats the edge before it.
pub proof fn lemma_runs_and_repeats(keys: Seq<u64>, k: int)
    requires
        0 <= k,
    ensures
        runs_upto(keys, k) + repeats_upto(keys, k) == k,
    decreases k,
{
    if k > 0 {
        lemma_runs_and_repeats(keys, k - 1);
    }
}

/// Counts the self-loops, the nodes with a self-loop and the distinct keys
/// of a sorted list of keys.
pub(crate) fn count_runs(keys: &Vec<u64>, radix: u64, Ghost(n): Ghost<nat>) -> (c: (EdgeT, NodeT, EdgeT))
    requires
        sorted(keys@),
        0 < radix,
        n <= NodeT::MAX,
        forall|e: int| 0 <= e < keys@.len() ==> src_of(#[trigger] keys@[e] as int, radix as int) < n,
    ensures
        c.0 == loops_upto(keys@, radix as int, keys@.len() as int),
        c.1 == loop_runs_upto(keys@, radix as int, keys@.len() as int),
        c.2 == runs_upto(keys@, keys@.len() as int),
{
    let mut loops: EdgeT = 0;
    let mut loop_runs: NodeT = 0;
    let mut runs: EdgeT = 0;
    let ghost mut top: int = -1;
    let ghost mut at: int = -1;
    let mut e: usize = 0;
    while e < keys.len()
        invariant
            e <= keys@.len(),
            sorted(keys@),
            0 < radix,
            n <= NodeT::MAX,
            forall|i: int|
                0 <= i < keys@.len() ==> src_of(#[trigger] keys@[i] as int, radix as int) < n,
            loops == loops_upto(keys@, radix as int, e as int),
            loop_runs == loop_runs_upto(keys@, radix as int, e as int),
            runs == runs_upto(keys@, e as int),
            loops <= e,
            runs <= e,
            loop_runs <= top + 1,
            -1 <= top < n,
            top >= 0 ==> 0 <= at < e && keys@[at] == top * radix + top,
        decreases keys@.len() - e,
    {
        let key = keys[e];
        let src = key / radix;
        let dst = key % radix;
        let is_loop = src == dst;
        let starts = e == 0 || keys[e - 1] != key;
        proof {
            lemma_encode_decode(key as int, radix as int);
            assert(src_of(keys@[e as int] as int, radix as int) < n);
        }
        if is_loop {
            loops = loops + 1;
        }
        if starts {
            runs = runs + 1;
        }
        if is_loop && starts {
            proof {
                if top >= 0 {
                    assert(keys@[at] <= keys@[e as int]);
                    if e > 0 {
                        assert(keys@[at] <= keys@[e - 1]);
                        assert(keys@[e - 1] <= keys@[e as int]);
                    }
                    assert(keys@[at] < keys@[e as int]);
                    assert(src > top) by (nonlinear_arith)
                        requires
                            top * radix + top < src * radix + src,
                            radix > 0,
                            top >= 0,
                    ;
                }
                top = src as int;
                at = e as int;
            }
            loop_runs = loop_runs + 1;
        }
        e += 1;
    }
    (loops, loop_runs, runs)
}

/// Counts the nodes that some edge starts or ends at.
pub fn count_touched(keys: &Vec<u64>, radix: u64, nodes_number: NodeT) -> (touched: NodeT)
    requires
        0 < radix,
        forall|e: int|
            0 <= e < keys@.len() ==> src_of(#[trigger] keys@[e] as int, radix as int) < nodes_number
                && dst_of(keys@[e] as int, radix as int) < nodes_number,
    ensures
        touched == touched_upto(keys@, radix as int, nodes_number as int),
{
    let n = nodes_number as usize;
    let mut seen: Vec<bool> = Vec::new();
    let mut u: usize = 0;
    while u < n
        invariant
            u <= n,
            seen@.len() == u,
            forall|k: int| 0 <= k < u ==> !seen@[k],
        decreases n - u,
    {
        seen.push(false);
        u += 1;
    }
    let mut e: usize = 0;
    while e < keys.len()
        invariant
            e <= keys@.len(),
            0 < radix,
            n == nodes_number,
            seen@.len() == n,
            forall|i: int|
                0 <= i < keys@.len() ==> src_of(#[trigger] keys@[i] as int, radix as int)
                    < nodes_number && dst_of(keys@[i] as int, radix as int) < nodes_number,
            forall|k: int|
                0 <= k < n ==> (#[trigger] seen@[k] <==> exists|i: int|
                    0 <= i < e && (src_of(#[trigger] keys@[i] as int, radix as int) == k || dst_of(
                        keys@[i] as int,
                        radix as int,
                    ) == k)),
        decreases keys@.len() - e,
    {
        let key = keys[e];
        let src = (key / radix) as usize;
        let dst = (key % radix) as usize;
        let ghost before = seen@;
        proof {
            assert(src_of(keys@[e as int] as int, radix as int) < nodes_number);
        }
        seen.set(src, true);
        seen.set(dst, true);
        proof {
            assert forall|k: int| 0 <= k < n implies (#[trigger] seen@[k] <==> exists|i: int|
                0 <= i < e + 1 && (src_of(#[trigger] keys@[i] as int, radix as int) == k || dst_of(
                    keys@[i] as int,
                    radix as int,
                ) == k)) by {
                if before[k] {
                    let i = choose|i: int|
                        0 <= i < e && (src_of(#[trigger] keys@[i] as int, radix as int) == k
                            || dst_of(keys@[i] as int, radix as int) == k);
                    assert(0 <= i < e + 1);
                }
                if k == src || k == dst {
                    assert(src_of(keys@[e as int] as int, radix as int) == k || dst_of(
                        keys@[e as int] as int,
                        radix as int,
                    ) == k);
                }
                if exists|i: int|
                    0 <= i < e + 1 && (src_of(#[trigger] keys@[i] as int, radix as int) == k
                        || dst_of(keys@[i] as int, radix as int) == k) {
                    let i = choose|i: int|
                        0 <= i < e + 1 && (src_of(#[trigger] keys@[i] as int, radix as int) == k
                            || dst_of(keys@[i] as int, radix as int) == k);
                    if i < e {
                        assert(before[k]);
                    }
                }
            }
        }
        e += 1;
    }
    let mut touched: NodeT = 0;
    let mut u: usize = 0;
    while u < n
        invariant
            u <= n,
            n == nodes_number,
            seen@.len() == n,
            touched <= u,
            touched == touched_upto(keys@, radix as int, u as int),
            forall|k: int|
                0 <= k < n ==> (#[trigger] seen@[k] <==> key_touches(keys@, radix as int, k)),
        decreases n - u,
    {
        if seen[u] {
            touched = touched + 1;
        }
        u += 1;
    }
    touched
}

/// Whether `s` is the source of one of the first `k` keys.
pub open spec fn is_source_upto(keys: Seq<u64>, radix: int, s: int, k: int) -> bool {
    exists|e: int| 0 <= e < k && src_of(#[trigger] keys[e] as int, radix) == s
}

/// The sources of a sorted list of keys, each once, in increasing order.
pub(crate) fn collect_sources(keys: &Vec<u64>, radix: u64, Ghost(n): Ghost<nat>) -> (sources: Vec<NodeT>)
    requires
        sorted(keys@),
        0 < radix,
        n <= NodeT::MAX,
        forall|e: int| 0 <= e < keys@.len() ==> src_of(#[trigger] keys@[e] as int, radix as int) < n,
    ensures
        forall|i: int, j: int| 0 <= i < j < sources@.len() ==> sources@[i] < sources@[j],
        forall|i: int|
            0 <= i < sources@.len() ==> is_source_upto(
                keys@,
                radix as int,
                #[trigger] sources@[i] as int,
                keys@.len() as int,
            ),
        forall|e: int|
            0 <= e < keys@.len() ==> sources@.contains(
                src_of(#[trigger] keys@[e] as int, radix as int) as NodeT,
            ),
{
    let mut sources: Vec<NodeT> = Vec::new();
    let mut e: usize = 0;
    while e < keys.len()
        invariant
            e <= keys@.len(),
            sorted(keys@),
            0 < radix,
            n <= NodeT::MAX,
            forall|i: int|
                0 <= i < keys@.len() ==> src_of(#[trigger] keys@[i] as int, radix as int) < n,
            forall|i: int, j: int| 0 <= i < j < sources@.len() ==> sources@[i] < sources@[j],
            forall|i: int|
                0 <= i < sources@.len() ==> is_source_upto(
                    keys@,
                    radix as int,
                    #[trigger] sources@[i] as int,
                    e as int,
                ),
            forall|k: int|
                0 <= k < e ==> sources@.contains(
                    src_of(#[trigger] keys@[k] as int, radix as int) as NodeT,
                ),
            e > 0 ==> sources@.len() > 0 && sources@.last() == src_of(
                keys@[e - 1] as int,
                radix as int,
            ),
            e == 0 ==> sources@.len() == 0,
        decreases keys@.len() - e,
    {
        let key = keys[e];
        let src = (key / radix) as NodeT;
        proof {
            assert(src_of(keys@[e as int] as int, radix as int) < n);
            if e > 0 {
                assert(keys@[e - 1] <= keys@[e as int]);
                vstd::arithmetic::div_mod::lemma_div_is_ordered(
                    keys@[e - 1] as int,
                    keys@[e as int] as int,
                    radix as int,
                );
            }
        }
        let fresh = sources.len() == 0 || sources[sources.len() - 1] != src;
        let ghost before = sources@;
        if fresh {
            sources.push(src);
            proof {
                assert(sources@[before.len() as int] == src);
                assert forall|i: int| 0 <= i < sources@.len() implies is_source_upto(
                    keys@,
                    radix as int,
                    #[trigger] sources@[i] as int,
                    e + 1,
                ) by {
                    if i < before.len() {
                        assert(sources@[i] == before[i]);
                        assert(is_source_upto(keys@, radix as int, before[i] as int, e as int));
                        let k = choose|k: int|
                            0 <= k < e && src_of(#[trigger] keys@[k] as int, radix as int)
                                == before[i];
                        assert(0 <= k < e + 1);
                    } else {
                        assert(src_of(keys@[e as int] as int, radix as int) == sources@[i]);
                    }
                }
                assert forall|k: int| 0 <= k < e + 1 implies sources@.contains(
                    src_of(#[trigger] keys@[k] as int, radix as int) as NodeT,
                ) by {
                    if k < e {
                        let s = src_of(keys@[k] as int, radix as int) as NodeT;
                        assert(before.contains(s));
                        let i = choose|i: int| 0 <= i < before.len() && before[i] == s;
                        assert(sources@[i] == s);
                    }
                }
            }
        } else {
            proof {
                assert forall|i: int| 0 <= i < sources@.len() implies is_source_upto(
                    keys@,
                    radix as int,
                    #[trigger] sources@[i] as int,
                    e + 1,
                ) by {
                    assert(is_source_upto(keys@, radix as int, sources@[i] as int, e as int));
                    let k = choose|k: int|
                        0 <= k < e && src_of(#[trigger] keys@[k] as int, radix as int)
                            == sources@[i];
                    assert(0 <= k < e + 1);
                }
                assert(sources@[sources@.len() - 1] == src);
            }
        }
        e += 1;
    }
    sources
}

} // verus!

verus! {

/// How many keys of a sorted list lie below the first key of the source
/// after `s`, where the keys before `i` have sources up to `s` and the keys
/// from `i` on have larger ones.
proof fn lemma_upper_is(keys: Seq<u64>, radix: int, s: int, i: int)
    requires
        sorted(keys),
        0 < radix,
        0 <= i <= keys.len(),
        forall|j: int| 0 <= j < i ==> src_of(#[trigger] keys[j] as int, radix) <= s,
        forall|j: int| i <= j < keys.len() ==> src_of(#[trigger] keys[j] as int, radix) > s,
    ensures
        count_below(keys, (s + 1) * radix) == i,
{
    let bound = (s + 1) * radix;
    lemma_count_below_sorted(keys, bound);
    if i < keys.len() {
        lemma_key_below_source(keys[i] as int, radix, s + 1);
    }
    if i > 0 {
        lemma_key_below_source(keys[i - 1] as int, radix, s + 1);
    }
}

/// The exclusive upper bound of the edges of every source, by one scan of
/// the sorted keys.
pub fn compute_outbounds(nodes_number: NodeT, keys: &Vec<u64>, radix: u64) -> (outbounds: Vec<EdgeT>)
    requires
        sorted(keys@),
        0 < radix,
        forall|e: int|
            0 <= e < keys@.len() ==> src_of(#[trigger] keys@[e] as int, radix as int) < nodes_number,
    ensures
        outbounds@.len() == nodes_number,
        forall|s: int|
            0 <= s < nodes_number ==> #[trigger] outbounds@[s] == count_below(
                keys@,
                (s + 1) * radix,
            ),
{
    let n = nodes_number as usize;
    let total = keys.len() as EdgeT;
    let mut outbounds: Vec<EdgeT> = Vec::new();
    let mut s: usize = 0;
    while s < n
        invariant
            s <= n,
            outbounds@.len() == s,
            forall|k: int| 0 <= k < s ==> outbounds@[k] == total,
        decreases n - s,
    {
        outbounds.push(total);
        s += 1;
    }
    let mut last_src: usize = 0;
    let mut i: usize = 0;
    while i < keys.len()
        invariant
            i <= keys@.len(),
            sorted(keys@),
            0 < radix,
            n == nodes_number,
            total == keys@.len(),
            outbounds@.len() == n,
            forall|e: int|
                0 <= e < keys@.len() ==> src_of(#[trigger] keys@[e] as int, radix as int)
                    < nodes_number,
            i > 0 ==> last_src == src_of(keys@[i - 1] as int, radix as int),
            i == 0 ==> last_src == 0,
            last_src <= n,
            forall|k: int|
                0 <= k < last_src ==> #[trigger] outbounds@[k] == count_below(
                    keys@,
                    (k + 1) * radix,
                ),
            forall|k: int| last_src <= k < n ==> outbounds@[k] == total,
        decreases keys@.len() - i,
    {
        let src = (keys[i] / radix) as usize;
        proof {
            assert(src_of(keys@[i as int] as int, radix as int) < nodes_number);
            if i > 0 {
                assert(keys@[i - 1] <= keys@[i as int]);
                vstd::arithmetic::div_mod::lemma_div_is_ordered(
                    keys@[i - 1] as int,
                    keys@[i as int] as int,
                    radix as int,
                );
            }
        }
        if last_src != src {
            let mut k: usize = last_src;
            while k < src
                invariant
                    last_src <= k <= src < n,
                    i < keys@.len(),
                    sorted(keys@),
                    0 < radix,
                    n == nodes_number,
                    total == keys@.len(),
                    outbounds@.len() == n,
                    src == src_of(keys@[i as int] as int, radix as int),
                    i > 0 ==> last_src == src_of(keys@[i - 1] as int, radix as int),
                    forall|j: int|
                        0 <= j < k ==> #[trigger] outbounds@[j] == count_below(
                            keys@,
                            (j + 1) * radix,
                        ),
                    forall|j: int| src <= j < n ==> outbounds@[j] == total,
                decreases src - k,
            {
                proof {
                    assert forall|j: int| 0 <= j < i implies src_of(
                        #[trigger] keys@[j] as int,
                        radix as int,
                    ) <= k by {
                        assert(keys@[j] <= keys@[i - 1]);
                        vstd::arithmetic::div_mod::lemma_div_is_ordered(
                            keys@[j] as int,
                            keys@[i - 1] as int,
                            radix as int,
                        );
                    }
                    assert forall|j: int| i <= j < keys@.len() implies src_of(
                        #[trigger] keys@[j] as int,
                        radix as int,
                    ) > k by {
                        assert(keys@[i as int] <= keys@[j]);
                        vstd::arithmetic::div_mod::lemma_div_is_ordered(
                            keys@[i as int] as int,
                            keys@[j] as int,
                            radix as int,
                        );
                    }
                    lemma_upper_is(keys@, radix as int, k as int, i as int);
                }
                outbounds.set(k, i as EdgeT);
                k += 1;
            }
            last_src = src;
        }
        i += 1;
    }
    proof {
        assert forall|k: int| 0 <= k < nodes_number implies #[trigger] outbounds@[k] == count_below(
            keys@,
            (k + 1) * radix,
        ) by {
            if k >= last_src {
                assert forall|j: int| 0 <= j < keys@.len() implies src_of(
                    #[trigger] keys@[j] as int,
                    radix as int,
                ) <= k by {
                    assert(keys@[j] <= keys@[keys@.len() - 1]);
                    vstd::arithmetic::div_mod::lemma_div_is_ordered(
                        keys@[j] as int,
                        keys@[keys@.len() - 1] as int,
                        radix as int,
                    );
                }
                lemma_upper_is(keys@, radix as int, k, keys@.len() as int);
            }
        }
    }
    outbounds
}

} // verus!
