//! Building a graph: from edges between numbered nodes to the sorted,
//! deduplicated store with its ranges and counters.

use vstd::prelude::*;
use crate::encoding::{encode_edge, encode_spec, lemma_decode_encode};
use crate::errors::GraphError;
use crate::sorting::{apply_order, is_stable_order, occurs, order_of, sort_keys};
use crate::graph::Graph;
use crate::vocabulary::Vocabulary;
use crate::vocabulary_vec::VocabularyVec;
use crate::types::{valid_weight, EdgeT, EdgeTypeT, NodeT, WeightT};

verus! {

/// One edge between numbered nodes, with its type and its weight where the
/// graph has them.
#[derive(Clone, Copy, Debug)]
pub struct EdgeEntry {
    pub src: NodeT,
    pub dst: NodeT,
    pub edge_type: Option<EdgeTypeT>,
    pub weight: Option<WeightT>,
}

/// The entry the other way round.
pub open spec fn flip(e: EdgeEntry) -> EdgeEntry {
    EdgeEntry { src: e.dst, dst: e.src, edge_type: e.edge_type, weight: e.weight }
}

/// Whether two entries join the same nodes in the same direction with the
/// same type: a graph holds one edge of each such kind.
pub open spec fn same_slot(a: EdgeEntry, b: EdgeEntry) -> bool {
    a.src == b.src && a.dst == b.dst && a.edge_type == b.edge_type
}

/// The entries with the mirrors that an undirected graph holds: after every
/// entry that is no self-loop comes the entry the other way round.
pub open spec fn mirrored(entries: Seq<EdgeEntry>, directed: bool) -> Seq<EdgeEntry>
    decreases entries.len(),
{
    if entries.len() == 0 {
        Seq::empty()
    } else {
        let front = mirrored(entries.drop_last(), directed);
        let e = entries.last();
        if directed || e.src == e.dst {
            front.push(e)
        } else {
            front.push(e).push(flip(e))
        }
    }
}

/// Whether entry `i` repeats the slot of an entry before it.
pub open spec fn is_dup(s: Seq<EdgeEntry>, i: int) -> bool {
    exists|j: int| 0 <= j < i && same_slot(#[trigger] s[j], s[i])
}

/// Whether some entry repeats the slot of an earlier one.
pub open spec fn has_dup(s: Seq<EdgeEntry>) -> bool {
    exists|i: int| 0 <= i < s.len() && is_dup(s, i)
}

/// The first `k` entries without those that repeat an earlier slot.
pub open spec fn first_occurrences(s: Seq<EdgeEntry>, k: int) -> Seq<EdgeEntry>
    decreases k,
{
    if k <= 0 {
        Seq::empty()
    } else if is_dup(s, k - 1) {
        first_occurrences(s, k - 1)
    } else {
        first_occurrences(s, k - 1).push(s[k - 1])
    }
}

/// The keys of a list of entries.
pub open spec fn keys_of(s: Seq<EdgeEntry>, radix: int) -> Seq<u64> {
    Seq::new(s.len(), |i: int| encode_spec(s[i].src as int, s[i].dst as int, radix) as u64)
}

/// The entries rearranged by `order`.
pub open spec fn rearranged(s: Seq<EdgeEntry>, order: Seq<int>) -> Seq<EdgeEntry> {
    Seq::new(s.len(), |i: int| s[order[i]])
}

/// Whether every entry joins nodes of a graph of `n` nodes, has a type and a
/// weight exactly where the graph has them, a type below `types` and a
/// weight that is strictly positive and finite.
pub open spec fn entries_valid(
    s: Seq<EdgeEntry>,
    n: nat,
    has_types: bool,
    types: nat,
    has_weights: bool,
) -> bool {
    forall|i: int|
        0 <= i < s.len() ==> {
            let e = #[trigger] s[i];
            &&& e.src < n
            &&& e.dst < n
            &&& e.edge_type is Some <==> has_types
            &&& e.edge_type matches Some(t) ==> t < types
            &&& e.weight is Some <==> has_weights
            &&& e.weight matches Some(w) ==> valid_weight(w)
        }
}

/// Whether `partner` pairs every entry of `m` with its mirror: an entry and
/// its partner are each other's partners, lie side by side or are one, and
/// are each the other the other way round; a self-loop is its own partner.
pub open spec fn pairs_mirrors(m: Seq<EdgeEntry>, partner: Seq<int>) -> bool {
    &&& partner.len() == m.len()
    &&& forall|p: int|
        0 <= p < m.len() ==> {
            let q = #[trigger] partner[p];
            &&& 0 <= q < m.len()
            &&& p - 1 <= q <= p + 1
            &&& partner[q] == p
            &&& m[q] == flip(m[p])
            &&& m[p].src == m[p].dst ==> q == p
        }
}

/// Adds the mirrors that an undirected graph holds.
fn add_mirrors(entries: &Vec<EdgeEntry>, directed: bool) -> (r: (Vec<EdgeEntry>, Ghost<Seq<int>>))
    requires
        entries@.len() * 2 <= usize::MAX,
    ensures
        r.0@ == mirrored(entries@, directed),
        !directed ==> pairs_mirrors(r.0@, r.1@),
{
    let mut out: Vec<EdgeEntry> = Vec::new();
    let ghost mut partner: Seq<int> = Seq::empty();
    let mut i: usize = 0;
    proof {
        assert(entries@.take(0) =~= Seq::<EdgeEntry>::empty());
    }
    while i < entries.len()
        invariant
            i <= entries@.len(),
            entries@.len() * 2 <= usize::MAX,
            out@ == mirrored(entries@.take(i as int), directed),
            out@.len() <= 2 * i,
            !directed ==> pairs_mirrors(out@, partner),
        decreases entries@.len() - i,
    {
        let e = entries[i];
        proof {
            assert(entries@.take(i + 1).drop_last() =~= entries@.take(i as int));
            assert(entries@.take(i + 1).last() == e);
        }
        let ghost at = out@.len() as int;
        let ghost before = out@;
        if directed || e.src == e.dst {
            out.push(e);
            proof {
                partner = partner.push(at);
                if !directed {
                    assert(flip(e) == e);
                    assert forall|p: int| 0 <= p < out@.len() implies {
                        let q = #[trigger] partner[p];
                        &&& 0 <= q < out@.len()
                        &&& p - 1 <= q <= p + 1
                        &&& partner[q] == p
                        &&& out@[q] == flip(out@[p])
                        &&& out@[p].src == out@[p].dst ==> q == p
                    } by {
                        if p < at {
                            assert(before[p] == out@[p]);
                        }
                    }
                }
            }
        } else {
            out.push(e);
            out.push(EdgeEntry { src: e.dst, dst: e.src, edge_type: e.edge_type, weight: e.weight });
            proof {
                partner = partner.push(at + 1).push(at);
                assert(flip(flip(e)) == e);
                assert forall|p: int| 0 <= p < out@.len() implies {
                    let q = #[trigger] partner[p];
                    &&& 0 <= q < out@.len()
                    &&& p - 1 <= q <= p + 1
                    &&& partner[q] == p
                    &&& out@[q] == flip(out@[p])
                    &&& out@[p].src == out@[p].dst ==> q == p
                } by {
                    if p < at {
                        assert(before[p] == out@[p]);
                    }
                }
            }
        }
        i += 1;
    }
    proof {
        assert(entries@.take(i as int) =~= entries@);
    }
    (out, Ghost(partner))
}

/// Mirrors keep entries valid.
proof fn lemma_mirrored_valid(
    entries: Seq<EdgeEntry>,
    directed: bool,
    n: nat,
    has_types: bool,
    types: nat,
    has_weights: bool,
)
    requires
        entries_valid(entries, n, has_types, types, has_weights),
    ensures
        entries_valid(mirrored(entries, directed), n, has_types, types, has_weights),
    decreases entries.len(),
{
    if entries.len() > 0 {
        let front = entries.drop_last();
        assert(entries_valid(front, n, has_types, types, has_weights)) by {
            assert forall|i: int| 0 <= i < front.len() implies {
                let e = #[trigger] front[i];
                &&& e.src < n
                &&& e.dst < n
                &&& e.edge_type is Some <==> has_types
                &&& e.edge_type matches Some(t) ==> t < types
                &&& e.weight is Some <==> has_weights
                &&& e.weight matches Some(w) ==> valid_weight(w)
            } by {
                assert(front[i] == entries[i]);
            }
        }
        lemma_mirrored_valid(front, directed, n, has_types, types, has_weights);
        let m = mirrored(entries, directed);
        let mf = mirrored(front, directed);
        let last = entries[entries.len() - 1];
        assert forall|i: int| 0 <= i < m.len() implies {
            let e = #[trigger] m[i];
            &&& e.src < n
            &&& e.dst < n
            &&& e.edge_type is Some <==> has_types
            &&& e.edge_type matches Some(t) ==> t < types
            &&& e.weight is Some <==> has_weights
            &&& e.weight matches Some(w) ==> valid_weight(w)
        } by {
            if i < mf.len() {
                assert(m[i] == mf[i]);
            }
        }
    }
}

/// The keys of the entries.
fn encode_entries(entries: &Vec<EdgeEntry>, radix: u64, Ghost(n): Ghost<nat>) -> (keys: Vec<u64>)
    requires
        0 < radix <= 0x1_0000_0000,
        n <= radix,
        forall|i: int| 0 <= i < entries@.len() ==> (#[trigger] entries@[i]).dst < n,
    ensures
        keys@ == keys_of(entries@, radix as int),
{
    let mut keys: Vec<u64> = Vec::new();
    let mut i: usize = 0;
    while i < entries.len()
        invariant
            i <= entries@.len(),
            0 < radix <= 0x1_0000_0000,
            n <= radix,
            forall|k: int| 0 <= k < entries@.len() ==> (#[trigger] entries@[k]).dst < n,
            keys@.len() == i,
            forall|k: int| 0 <= k < i ==> #[trigger] keys@[k] == keys_of(entries@, radix as int)[k],
        decreases entries@.len() - i,
    {
        let e = entries[i];
        keys.push(encode_edge(e.src, e.dst, radix));
        i += 1;
    }
    proof {
        assert(keys@ =~= keys_of(entries@, radix as int));
    }
    keys
}

/// Whether the sorted entry at `i` repeats the slot of an earlier one. In a
/// sorted list only the entries of its own run of equal keys can.
fn repeats_slot(sorted: &Vec<EdgeEntry>, i: usize) -> (dup: bool)
    requires
        i < sorted@.len(),
        forall|a: int, b: int|
            0 <= a <= b < sorted@.len() ==> (#[trigger] sorted@[a]).src < (#[trigger] sorted@[b]).src
                || (sorted@[a].src == sorted@[b].src && sorted@[a].dst <= sorted@[b].dst),
    ensures
        dup == is_dup(sorted@, i as int),
{
    let e = sorted[i];
    let mut j: usize = i;
    while j > 0
        invariant
            j <= i < sorted@.len(),
            e == sorted@[i as int],
            forall|k: int| j <= k < i ==> !same_slot(#[trigger] sorted@[k], e),
            forall|a: int, b: int|
                0 <= a <= b < sorted@.len() ==> (#[trigger] sorted@[a]).src < (
                #[trigger] sorted@[b]).src || (sorted@[a].src == sorted@[b].src && sorted@[a].dst
                    <= sorted@[b].dst),
        decreases j,
    {
        let o = sorted[j - 1];
        if o.src != e.src || o.dst != e.dst {
            proof {
                assert forall|k: int| 0 <= k < i implies !same_slot(#[trigger] sorted@[k], e) by {
                    if k < j - 1 {
                        let a = sorted@[k];
                        let b = sorted@[j - 1];
                        let c = sorted@[i as int];
                        assert(a.src < b.src || (a.src == b.src && a.dst <= b.dst));
                        assert(b.src < c.src || (b.src == c.src && b.dst <= c.dst));
                    }
                }
            }
            return false;
        }
        let same_type = match (o.edge_type, e.edge_type) {
            (Some(a), Some(b)) => a == b,
            (None, None) => true,
            _ => false,
        };
        if same_type {
            proof {
                assert(same_slot(sorted@[j - 1], sorted@[i as int]));
            }
            return true;
        }
        j -= 1;
    }
    false
}

/// Drops the entries that repeat an earlier slot. Where the caller does not
/// allow repeats, the first one is a failure.
fn drop_repeats(sorted: &Vec<EdgeEntry>, ignore_duplicated_edges: bool) -> (r: Result<
    Vec<EdgeEntry>,
    GraphError,
>)
    requires
        forall|a: int, b: int|
            0 <= a <= b < sorted@.len() ==> (#[trigger] sorted@[a]).src < (#[trigger] sorted@[b]).src
                || (sorted@[a].src == sorted@[b].src && sorted@[a].dst <= sorted@[b].dst),
    ensures
        r is Err <==> has_dup(sorted@) && !ignore_duplicated_edges,
        r is Err ==> r->Err_0 == GraphError::DuplicatedEdge,
        r matches Ok(kept) ==> kept@ == first_occurrences(sorted@, sorted@.len() as int),
{
    let mut kept: Vec<EdgeEntry> = Vec::new();
    let mut i: usize = 0;
    while i < sorted.len()
        invariant
            i <= sorted@.len(),
            forall|a: int, b: int|
                0 <= a <= b < sorted@.len() ==> (#[trigger] sorted@[a]).src < (
                #[trigger] sorted@[b]).src || (sorted@[a].src == sorted@[b].src && sorted@[a].dst
                    <= sorted@[b].dst),
            kept@ == first_occurrences(sorted@, i as int),
            !ignore_duplicated_edges ==> forall|k: int| 0 <= k < i ==> !is_dup(sorted@, k),
        decreases sorted@.len() - i,
    {
        if repeats_slot(sorted, i) {
            if !ignore_duplicated_edges {
                return Err(GraphError::DuplicatedEdge);
            }
        } else {
            kept.push(sorted[i]);
        }
        i += 1;
    }
    Ok(kept)
}

} // verus!

verus! {

/// Whether entry `a` comes no later than entry `b` in the order of the
/// store: by source, then by destination.
pub open spec fn in_order(a: EdgeEntry, b: EdgeEntry) -> bool {
    a.src < b.src || (a.src == b.src && a.dst <= b.dst)
}

/// Keys order entries by source and then by destination.
proof fn lemma_key_order(a: EdgeEntry, b: EdgeEntry, radix: int)
    requires
        0 < radix,
        a.dst < radix,
        b.dst < radix,
    ensures
        encode_spec(a.src as int, a.dst as int, radix) <= encode_spec(
            b.src as int,
            b.dst as int,
            radix,
        ) <==> in_order(a, b),
        encode_spec(a.src as int, a.dst as int, radix) == encode_spec(
            b.src as int,
            b.dst as int,
            radix,
        ) <==> (a.src == b.src && a.dst == b.dst),
{
    let (sa, da, sb, db) = (a.src as int, a.dst as int, b.src as int, b.dst as int);
    if sa < sb {
        assert(sa * radix + da < sb * radix + db) by (nonlinear_arith)
            requires
                sa < sb,
                0 <= da < radix,
                0 <= db,
        ;
    } else if sa > sb {
        assert(sa * radix + da > sb * radix + db) by (nonlinear_arith)
            requires
                sa > sb,
                0 <= db < radix,
                0 <= da,
        ;
    }
}

/// The key of a valid entry fits an edge key.
proof fn lemma_key_fits(e: EdgeEntry, radix: int)
    requires
        0 < radix <= 0x1_0000_0000,
        e.dst < radix,
    ensures
        0 <= encode_spec(e.src as int, e.dst as int, radix) <= u64::MAX,
{
    let s = e.src as int;
    assert(s * radix <= 0xffff_ffff * 0x1_0000_0000) by (nonlinear_arith)
        requires
            0 <= s <= 0xffff_ffff,
            0 < radix <= 0x1_0000_0000,
    ;
    assert(0 <= s * radix) by (nonlinear_arith)
        requires
            0 <= s,
            0 < radix,
    ;
}

/// What is left of the first `k` entries is made of the entries that repeat
/// no earlier slot, and holds each of them.
proof fn lemma_first_occurrences(s: Seq<EdgeEntry>, k: int)
    requires
        0 <= k <= s.len(),
    ensures
        forall|e: int|
            0 <= e < first_occurrences(s, k).len() ==> exists|i: int|
                0 <= i < k && !is_dup(s, i) && s[i] == #[trigger] first_occurrences(s, k)[e],
        forall|i: int|
            0 <= i < k && !is_dup(s, i) ==> first_occurrences(s, k).contains(#[trigger] s[i]),
        first_occurrences(s, k).len() <= k,
    decreases k,
{
    if k > 0 {
        lemma_first_occurrences(s, k - 1);
        let front = first_occurrences(s, k - 1);
        let whole = first_occurrences(s, k);
        assert forall|e: int| 0 <= e < whole.len() implies exists|i: int|
            0 <= i < k && !is_dup(s, i) && s[i] == #[trigger] whole[e] by {
            if e < front.len() {
                let i = choose|i: int| 0 <= i < k - 1 && !is_dup(s, i) && s[i] == front[e];
                assert(0 <= i < k && !is_dup(s, i) && s[i] == whole[e]);
            } else {
                assert(!is_dup(s, k - 1) && s[k - 1] == whole[e]);
            }
        }
        assert forall|i: int| 0 <= i < k && !is_dup(s, i) implies whole.contains(#[trigger] s[i]) by {
            if i < k - 1 {
                assert(front.contains(s[i]));
                let e = choose|e: int| 0 <= e < front.len() && front[e] == s[i];
                assert(whole[e] == s[i]);
            } else {
                assert(whole[whole.len() - 1] == s[i]);
            }
        }
    }
}

/// What is left of a list in order is in order, and repeats no slot.
proof fn lemma_first_occurrences_order(s: Seq<EdgeEntry>, k: int)
    requires
        0 <= k <= s.len(),
        forall|a: int, b: int| 0 <= a <= b < s.len() ==> in_order(#[trigger] s[a], #[trigger] s[b]),
    ensures
        forall|a: int, b: int|
            0 <= a <= b < first_occurrences(s, k).len() ==> in_order(
                #[trigger] first_occurrences(s, k)[a],
                #[trigger] first_occurrences(s, k)[b],
            ),
        forall|a: int, b: int|
            0 <= a < b < first_occurrences(s, k).len() ==> !same_slot(
                #[trigger] first_occurrences(s, k)[a],
                #[trigger] first_occurrences(s, k)[b],
            ),
        forall|a: int|
            0 <= a < first_occurrences(s, k).len() ==> exists|i: int|
                0 <= i < k && s[i] == #[trigger] first_occurrences(s, k)[a],
    decreases k,
{
    if k > 0 {
        lemma_first_occurrences_order(s, k - 1);
        let front = first_occurrences(s, k - 1);
        let whole = first_occurrences(s, k);
        assert forall|a: int| 0 <= a < whole.len() implies exists|i: int|
            0 <= i < k && s[i] == #[trigger] whole[a] by {
            if a < front.len() {
                let i = choose|i: int| 0 <= i < k - 1 && s[i] == front[a];
                assert(0 <= i < k && s[i] == whole[a]);
            } else {
                assert(s[k - 1] == whole[a]);
            }
        }
        if !is_dup(s, k - 1) {
            assert forall|a: int, b: int| 0 <= a <= b < whole.len() implies in_order(
                #[trigger] whole[a],
                #[trigger] whole[b],
            ) by {
                if b == whole.len() - 1 && a < b {
                    let i = choose|i: int| 0 <= i < k - 1 && s[i] == front[a];
                    assert(in_order(s[i], s[k - 1]));
                }
            }
            assert forall|a: int, b: int| 0 <= a < b < whole.len() implies !same_slot(
                #[trigger] whole[a],
                #[trigger] whole[b],
            ) by {
                if b == whole.len() - 1 {
                    let i = choose|i: int| 0 <= i < k - 1 && s[i] == front[a];
                    assert(!same_slot(s[i], s[k - 1]));
                }
            }
        }
    }
}

/// In a list that a stable order sorts, an entry repeats an earlier slot
/// exactly when it did so in the list before sorting.
proof fn lemma_dup_before_sorting(m: Seq<EdgeEntry>, order: Seq<int>, radix: int, i: int)
    requires
        0 < radix <= 0x1_0000_0000,
        forall|p: int| 0 <= p < m.len() ==> (#[trigger] m[p]).dst < radix,
        is_stable_order(order, keys_of(m, radix)),
        0 <= i < m.len(),
    ensures
        is_dup(rearranged(m, order), i) <==> is_dup(m, order[i]),
{
    let s = rearranged(m, order);
    let keys = keys_of(m, radix);
    let p = order[i];
    if is_dup(s, i) {
        let j = choose|j: int| 0 <= j < i && same_slot(#[trigger] s[j], s[i]);
        lemma_key_order(m[order[j]], m[order[i]], radix);
        lemma_key_fits(m[order[j]], radix);
        lemma_key_fits(m[order[i]], radix);
        assert(keys[order[j]] == keys[order[i]]);
        assert(order[j] < order[i]);
        assert(same_slot(m[order[j]], m[p]));
    }
    if is_dup(m, p) {
        let q = choose|q: int| 0 <= q < p && same_slot(#[trigger] m[q], m[p]);
        assert(occurs(order, q));
        let j = choose|j: int| 0 <= j < order.len() && order[j] == q;
        lemma_key_order(m[q], m[p], radix);
        lemma_key_fits(m[q], radix);
        lemma_key_fits(m[p], radix);
        assert(keys[order[j]] == keys[order[i]]);
        if j > i {
            assert(order[i] < order[j]);
        }
        assert(j != i);
        assert(same_slot(s[j], s[i]));
    }
}

/// Where every entry has its mirror beside it, the mirror of an entry that
/// repeats no earlier slot repeats none either.
proof fn lemma_mirror_is_first(m: Seq<EdgeEntry>, partner: Seq<int>, p: int)
    requires
        pairs_mirrors(m, partner),
        0 <= p < m.len(),
        !is_dup(m, p),
    ensures
        !is_dup(m, partner[p]),
{
    let mate = partner[p];
    if is_dup(m, mate) {
        let earlier = choose|earlier: int| 0 <= earlier < mate && same_slot(#[trigger] m[earlier], m[mate]);
        let q = partner[earlier];
        assert(m[q] == flip(m[earlier]));
        assert(m[mate] == flip(m[p]));
        assert(partner[mate] == p);
        assert(same_slot(m[q], m[p]));
        assert(partner[q] == earlier);
        assert(p - 1 <= mate <= p + 1);
        assert(earlier - 1 <= q <= earlier + 1);
        if earlier == p {
            assert(m[p].src == m[p].dst);
        }
        assert(q < p);
    }
}

/// After sorting and dropping repeats, every entry that is left has its
/// mirror among those that are left.
proof fn lemma_kept_mirrors(
    m: Seq<EdgeEntry>,
    partner: Seq<int>,
    order: Seq<int>,
    radix: int,
    e: int,
)
    requires
        0 < radix <= 0x1_0000_0000,
        forall|p: int| 0 <= p < m.len() ==> (#[trigger] m[p]).dst < radix,
        pairs_mirrors(m, partner),
        is_stable_order(order, keys_of(m, radix)),
        0 <= e < first_occurrences(rearranged(m, order), m.len() as int).len(),
    ensures
        first_occurrences(rearranged(m, order), m.len() as int).contains(
            flip(first_occurrences(rearranged(m, order), m.len() as int)[e]),
        ),
{
    let s = rearranged(m, order);
    let kept = first_occurrences(s, m.len() as int);
    lemma_first_occurrences(s, m.len() as int);
    let i = choose|i: int| 0 <= i < m.len() && !is_dup(s, i) && s[i] == kept[e];
    lemma_dup_before_sorting(m, order, radix, i);
    let p = order[i];
    lemma_mirror_is_first(m, partner, p);
    let mate = partner[p];
    assert(occurs(order, mate));
    let place = choose|place: int| 0 <= place < order.len() && order[place] == mate;
    lemma_dup_before_sorting(m, order, radix, place);
    assert(s[place] == flip(s[i]));
    assert(kept.contains(s[place]));
}

} // verus!

verus! {

/// The edges of a graph as entries, in edge order.
pub open spec fn entries_of(g: &Graph) -> Seq<EdgeEntry> {
    Seq::new(
        g.edges_count(),
        |e: int|
            EdgeEntry {
                src: g.source(e) as NodeT,
                dst: g.destination(e) as NodeT,
                edge_type: g.edge_type_at(e),
                weight: g.weight_at(e),
            },
    )
}

/// Why no graph can be built from `entries`, if so: too many of them, a
/// slot given twice where that is not allowed, or none at all.
pub open spec fn build_failure(entries: Seq<EdgeEntry>, directed: bool, ignore_duplicated_edges: bool) -> Option<
    GraphError,
> {
    if entries.len() * 2 > usize::MAX {
        Some(GraphError::TooManyEdges)
    } else if !ignore_duplicated_edges && has_dup(mirrored(entries, directed)) {
        Some(GraphError::DuplicatedEdge)
    } else if entries.len() == 0 {
        Some(GraphError::EmptyGraph)
    } else {
        None
    }
}

/// Whether the edges of `g` are what is left of `entries`, with their
/// mirrors where the graph is undirected, after a stable sort by source and
/// destination and after dropping every entry that repeats an earlier slot.
pub open spec fn built_from(g: &Graph, entries: Seq<EdgeEntry>) -> bool {
    sorted_and_cleared(mirrored(entries, g.directed), g.radix as int, entries_of(g))
}

/// Whether `kept` is what is left of `m` after a stable sort by key and
/// after dropping every entry that repeats an earlier slot.
pub open spec fn sorted_and_cleared(m: Seq<EdgeEntry>, radix: int, kept: Seq<EdgeEntry>) -> bool {
    exists|order: Seq<int>| #[trigger]
        is_stable_order(order, keys_of(m, radix)) && kept == first_occurrences(
            rearranged(m, order),
            m.len() as int,
        )
}

/// A list repeats a slot after sorting exactly when it did before.
pub proof fn lemma_has_dup_sorted(m: Seq<EdgeEntry>, order: Seq<int>, radix: int)
    requires
        0 < radix <= 0x1_0000_0000,
        forall|p: int| 0 <= p < m.len() ==> (#[trigger] m[p]).dst < radix,
        is_stable_order(order, keys_of(m, radix)),
    ensures
        has_dup(rearranged(m, order)) <==> has_dup(m),
{
    let s = rearranged(m, order);
    if has_dup(s) {
        let i = choose|i: int| 0 <= i < s.len() && is_dup(s, i);
        lemma_dup_before_sorting(m, order, radix, i);
        assert(is_dup(m, order[i]));
    }
    if has_dup(m) {
        let p = choose|p: int| 0 <= p < m.len() && is_dup(m, p);
        assert(occurs(order, p));
        let i = choose|i: int| 0 <= i < order.len() && order[i] == p;
        lemma_dup_before_sorting(m, order, radix, i);
        assert(is_dup(s, i));
    }
}

/// The mirrored list holds an entry where the list it was made from does.
proof fn lemma_mirrored_len(entries: Seq<EdgeEntry>, directed: bool)
    ensures
        entries.len() <= mirrored(entries, directed).len() <= 2 * entries.len(),
    decreases entries.len(),
{
    if entries.len() > 0 {
        lemma_mirrored_len(entries.drop_last(), directed);
    }
}

/// The columns of a graph, taken from the entries that are left.
fn split_columns(kept: &Vec<EdgeEntry>, radix: u64, has_types: bool, has_weights: bool, Ghost(n): Ghost<
    nat,
>, Ghost(types): Ghost<nat>) -> (r: (Vec<EdgeT>, Vec<EdgeTypeT>, Vec<WeightT>))
    requires
        0 < radix <= 0x1_0000_0000,
        n <= radix,
        entries_valid(kept@, n, has_types, types, has_weights),
    ensures
        r.0@ == keys_of(kept@, radix as int),
        has_types ==> r.1@.len() == kept@.len() && forall|e: int|
            0 <= e < kept@.len() ==> kept@[e].edge_type == Some(#[trigger] r.1@[e]),
        has_weights ==> r.2@.len() == kept@.len() && forall|e: int|
            0 <= e < kept@.len() ==> kept@[e].weight == Some(#[trigger] r.2@[e]),
{
    let mut keys: Vec<EdgeT> = Vec::new();
    let mut ids: Vec<EdgeTypeT> = Vec::new();
    let mut weights: Vec<WeightT> = Vec::new();
    let mut e: usize = 0;
    while e < kept.len()
        invariant
            e <= kept@.len(),
            0 < radix <= 0x1_0000_0000,
            n <= radix,
            entries_valid(kept@, n, has_types, types, has_weights),
            keys@.len() == e,
            forall|k: int| 0 <= k < e ==> #[trigger] keys@[k] == keys_of(kept@, radix as int)[k],
            has_types ==> ids@.len() == e && forall|k: int|
                0 <= k < e ==> kept@[k].edge_type == Some(#[trigger] ids@[k]),
            has_weights ==> weights@.len() == e && forall|k: int|
                0 <= k < e ==> kept@[k].weight == Some(#[trigger] weights@[k]),
        decreases kept@.len() - e,
    {
        let entry = kept[e];
        proof {
            assert(kept@[e as int].dst < n);
        }
        keys.push(encode_edge(entry.src, entry.dst, radix));
        match entry.edge_type {
            Some(t) => {
                ids.push(t);
            },
            None => {},
        }
        match entry.weight {
            Some(w) => {
                weights.push(w);
            },
            None => {},
        }
        e += 1;
    }
    proof {
        assert(keys@ =~= keys_of(kept@, radix as int));
    }
    (keys, ids, weights)
}

} // verus!

verus! {

/// Whether a vocabulary can name the types of a graph: it is well formed,
/// its reverse mapping is built and its identifiers fit a type.
pub open spec fn types_ready(v: &Vocabulary) -> bool {
    &&& v.wf()
    &&& v.reverse_built()
    &&& forall|i: int| 0 <= i < v.values@.len() ==> #[trigger] v.values@[i] <= u16::MAX
}

/// The number of types that an optional vocabulary names.
pub open spec fn types_count(v: &Option<Vocabulary>) -> nat {
    match v {
        Some(v) => v.names().len(),
        None => 0,
    }
}

/// Whether the types of the nodes are ready for a graph of `n` nodes.
pub open spec fn node_types_ready(t: &VocabularyVec, n: nat) -> bool {
    &&& t.wf()
    &&& t.counted()
    &&& t.vocabulary.reverse_built()
    &&& t.ids@.len() == n
    &&& forall|u: int| 0 <= u < t.ids@.len() ==> #[trigger] t.ids@[u] < t.vocabulary.names().len()
}

/// What the columns of `g` say is what `kept` says, entry by entry.
proof fn lemma_entries_of(g: &Graph, kept: Seq<EdgeEntry>, n: nat, has_types: bool, types: nat, has_weights: bool)
    requires
        0 < g.radix <= 0x1_0000_0000,
        n <= g.radix,
        entries_valid(kept, n, has_types, types, has_weights),
        g.edges@ == keys_of(kept, g.radix as int),
        has_types <==> g.edge_types is Some,
        has_weights <==> g.weights is Some,
        g.edge_types matches Some(t) ==> t.ids@.len() == kept.len() && forall|e: int|
            0 <= e < kept.len() ==> kept[e].edge_type == Some(#[trigger] t.ids@[e]),
        g.weights matches Some(w) ==> w@.len() == kept.len() && forall|e: int|
            0 <= e < kept.len() ==> kept[e].weight == Some(#[trigger] w@[e]),
    ensures
        entries_of(g) == kept,
        forall|e: int| 0 <= e < kept.len() ==> #[trigger] g.source(e) == kept[e].src,
        forall|e: int| 0 <= e < kept.len() ==> #[trigger] g.destination(e) == kept[e].dst,
{
    assert forall|e: int| 0 <= e < kept.len() implies #[trigger] g.source(e) == kept[e].src
        && g.destination(e) == kept[e].dst && g.edge_type_at(e) == kept[e].edge_type && g.weight_at(e)
        == kept[e].weight by {
        lemma_key_fits(kept[e], g.radix as int);
        lemma_decode_encode(kept[e].src as int, kept[e].dst as int, g.radix as int);
    }
    assert(entries_of(g) =~= kept);
}

/// Whether no two entries of a list join the same nodes in the same
/// direction with the same type.
pub open spec fn distinct_slots(s: Seq<EdgeEntry>) -> bool {
    forall|a: int, b: int| 0 <= a < b < s.len() ==> !same_slot(#[trigger] s[a], #[trigger] s[b])
}

/// Whether a list of entries is fit to be the edges of a graph: in order,
/// with no slot twice and, where `closed`, with the mirror of every entry.
pub open spec fn fit_for_store(kept: Seq<EdgeEntry>, closed: bool) -> bool {
    &&& forall|a: int, b: int|
        0 <= a <= b < kept.len() ==> in_order(#[trigger] kept[a], #[trigger] kept[b])
    &&& distinct_slots(kept)
    &&& closed ==> forall|e: int| 0 <= e < kept.len() ==> kept.contains(flip(#[trigger] kept[e]))
}

/// Mirrors, sorts and clears the entries.
fn prepare(
    entries: &Vec<EdgeEntry>,
    directed: bool,
    ignore_duplicated_edges: bool,
    radix: u64,
    Ghost(n): Ghost<nat>,
    Ghost(has_types): Ghost<bool>,
    Ghost(types): Ghost<nat>,
    Ghost(has_weights): Ghost<bool>,
) -> (r: Result<Vec<EdgeEntry>, GraphError>)
    requires
        entries@.len() * 2 <= usize::MAX,
        0 < radix <= 0x1_0000_0000,
        n <= radix,
        entries_valid(entries@, n, has_types, types, has_weights),
    ensures
        r is Err <==> !ignore_duplicated_edges && has_dup(mirrored(entries@, directed)),
        r is Err ==> r->Err_0 == GraphError::DuplicatedEdge,
        r matches Ok(kept) ==> {
            &&& sorted_and_cleared(mirrored(entries@, directed), radix as int, kept@)
            &&& entries_valid(kept@, n, has_types, types, has_weights)
            &&& fit_for_store(kept@, !directed)
            &&& kept@.len() == 0 <==> entries@.len() == 0
        },
{
    let (m, Ghost(partner)) = add_mirrors(entries, directed);
    proof {
        lemma_mirrored_valid(entries@, directed, n, has_types, types, has_weights);
        lemma_mirrored_len(entries@, directed);
    }
    let keys = encode_entries(&m, radix, Ghost(n));
    let p = sort_keys(&keys);
    let sorted = apply_order(&p, &m);
    let ghost order = order_of(p);
    proof {
        assert(sorted@ =~= rearranged(m@, order));
        assert forall|a: int, b: int| 0 <= a <= b < sorted@.len() implies in_order(
            #[trigger] sorted@[a],
            #[trigger] sorted@[b],
        ) by {
            lemma_key_order(m@[order[a]], m@[order[b]], radix as int);
            lemma_key_fits(m@[order[a]], radix as int);
            lemma_key_fits(m@[order[b]], radix as int);
            if a < b {
                assert(keys@[order[a]] <= keys@[order[b]]);
            }
        }
        lemma_has_dup_sorted(m@, order, radix as int);
    }
    let kept = match drop_repeats(&sorted, ignore_duplicated_edges) {
        Err(e) => {
            return Err(e);
        },
        Ok(kept) => kept,
    };
    proof {
        lemma_first_occurrences(sorted@, sorted@.len() as int);
        lemma_first_occurrences_order(sorted@, sorted@.len() as int);
        if sorted@.len() > 0 {
            assert(!is_dup(sorted@, 0));
            assert(kept@.contains(sorted@[0]));
        }
        assert(entries_valid(kept@, n, has_types, types, has_weights)) by {
            assert forall|i: int| 0 <= i < kept@.len() implies {
                let e = #[trigger] kept@[i];
                &&& e.src < n
                &&& e.dst < n
                &&& e.edge_type is Some <==> has_types
                &&& e.edge_type matches Some(t) ==> t < types
                &&& e.weight is Some <==> has_weights
                &&& e.weight matches Some(w) ==> valid_weight(w)
            } by {
                let j = choose|j: int| 0 <= j < sorted@.len() && sorted@[j] == kept@[i];
                assert(sorted@[j] == m@[order[j]]);
            }
        }
        if !directed {
            assert forall|e: int| 0 <= e < kept@.len() implies kept@.contains(
                flip(#[trigger] kept@[e]),
            ) by {
                lemma_kept_mirrors(m@, partner, order, radix as int, e);
            }
        }
        assert(is_stable_order(order, keys_of(m@, radix as int)));
    }
    Ok(kept)
}

/// Puts together the graph whose edges are `kept`.
fn assemble(
    kept: Vec<EdgeEntry>,
    nodes: Vocabulary,
    node_types: Option<VocabularyVec>,
    edge_types_vocabulary: Option<Vocabulary>,
    has_weights: bool,
    directed: bool,
    name: String,
) -> (g: Graph)
    requires
        nodes.wf(),
        nodes.reverse_built(),
        node_types is Some ==> node_types_ready(&node_types->Some_0, nodes.names().len()),
        edge_types_vocabulary is Some ==> types_ready(&edge_types_vocabulary->Some_0),
        entries_valid(
            kept@,
            nodes.names().len(),
            edge_types_vocabulary is Some,
            types_count(&edge_types_vocabulary),
            has_weights,
        ),
        fit_for_store(kept@, !directed),
    ensures
        g.wf(),
        g.directed == directed,
        g.name@ == name@,
        g.nodes == nodes,
        g.node_types == node_types,
        g.edge_types is Some <==> edge_types_vocabulary is Some,
        g.edge_types matches Some(t) ==> Some(t.vocabulary) == edge_types_vocabulary,
        g.weights is Some <==> has_weights,
        g.destinations is None,
        g.cached_destinations is None,
        g.outbounds is Some,
        g.radix == crate::encoding::radix_spec(nodes.names().len()),
        entries_of(&g) == kept@,
        distinct_slots(entries_of(&g)),
{
    let nodes_number = nodes.len() as NodeT;
    let ghost n = nodes.names().len();
    let has_types = edge_types_vocabulary.is_some();
    let ghost types: nat = types_count(&edge_types_vocabulary);
    let radix = crate::encoding::get_radix(nodes_number);
    let (edges, ids, weights) = split_columns(
        &kept,
        radix,
        has_types,
        has_weights,
        Ghost(n),
        Ghost(types),
    );
    proof {
        assert forall|a: int, b: int| 0 <= a <= b < edges@.len() implies edges@[a] <= edges@[b] by {
            lemma_key_order(kept@[a], kept@[b], radix as int);
            lemma_key_fits(kept@[a], radix as int);
            lemma_key_fits(kept@[b], radix as int);
            assert(in_order(kept@[a], kept@[b]));
        }
        assert forall|e: int| 0 <= e < edges@.len() implies crate::encoding::src_of(
            #[trigger] edges@[e] as int,
            radix as int,
        ) < nodes_number && crate::encoding::dst_of(edges@[e] as int, radix as int) < nodes_number by {
            lemma_key_fits(kept@[e], radix as int);
            lemma_decode_encode(kept@[e].src as int, kept@[e].dst as int, radix as int);
        }
    }
    let (self_loop_number, unique_self_loop_number, unique_edges_number) = crate::stats::count_runs(
        &edges,
        radix,
        Ghost(n),
    );
    let not_singleton_nodes_number = crate::stats::count_touched(&edges, radix, nodes_number);
    let unique_sources = crate::stats::collect_sources(&edges, radix, Ghost(n));
    let outbounds = crate::stats::compute_outbounds(nodes_number, &edges, radix);
    let edge_types = VocabularyVec::from_structs(ids, edge_types_vocabulary);
    let g = Graph {
        directed,
        name,
        nodes,
        radix,
        edges,
        destinations: None,
        outbounds: Some(outbounds),
        cached_destinations: None,
        weights: if has_weights {
            Some(weights)
        } else {
            None
        },
        node_types,
        edge_types,
        unique_sources,
        self_loop_number,
        unique_self_loop_number,
        unique_edges_number,
        not_singleton_nodes_number,
    };
    proof {
        lemma_entries_of(&g, kept@, n, has_types, types, has_weights);
        lemma_assembled(&g, kept@, n, has_types, types, has_weights);
    }
    g
}

/// A graph whose columns say what a fit list of entries says, and whose
/// counters and ranges were computed from its keys, is well formed.
proof fn lemma_assembled(g: &Graph, kept: Seq<EdgeEntry>, n: nat, has_types: bool, types: nat, has_weights: bool)
    requires
        g.nodes.wf(),
        g.nodes.reverse_built(),
        n == g.nodes_count(),
        g.radix == crate::encoding::radix_spec(n),
        0 < g.radix <= 0x1_0000_0000,
        n <= g.radix,
        entries_valid(kept, n, has_types, types, has_weights),
        fit_for_store(kept, !g.directed),
        entries_of(g) == kept,
        g.edges@.len() == kept.len(),
        forall|e: int| 0 <= e < kept.len() ==> #[trigger] g.source(e) == kept[e].src,
        forall|e: int| 0 <= e < kept.len() ==> #[trigger] g.destination(e) == kept[e].dst,
        crate::encoding::sorted(g.edges@),
        g.destinations is None,
        g.cached_destinations is None,
        g.outbounds matches Some(o) && o@.len() == n && forall|s: int|
            0 <= s < n ==> #[trigger] o@[s] == crate::encoding::count_below(
                g.edges@,
                (s + 1) * g.radix,
            ),
        has_weights <==> g.weights is Some,
        has_types <==> g.edge_types is Some,
        g.weights matches Some(w) ==> w@.len() == kept.len(),
        g.edge_types matches Some(t) ==> t.wf() && t.counted() && t.vocabulary.reverse_built()
            && t.ids@.len() == kept.len() && types == t.vocabulary.names().len(),
        g.node_types is Some ==> node_types_ready(&g.node_types->Some_0, n),
        g.self_loop_number == g.self_loops(),
        g.unique_self_loop_number == g.unique_self_loops(),
        g.unique_edges_number == g.unique_edges(),
        g.not_singleton_nodes_number == g.not_singletons(),
        forall|i: int, j: int|
            0 <= i < j < g.unique_sources@.len() ==> g.unique_sources@[i] < g.unique_sources@[j],
        forall|i: int|
            0 <= i < g.unique_sources@.len() ==> crate::stats::is_source_upto(
                g.edges@,
                g.radix as int,
                #[trigger] g.unique_sources@[i] as int,
                g.edges@.len() as int,
            ),
        forall|e: int|
            0 <= e < g.edges@.len() ==> g.unique_sources@.contains(
                crate::encoding::src_of(#[trigger] g.edges@[e] as int, g.radix as int) as NodeT,
            ),
    ensures
        g.wf(),
{
    assert(g.wf_store()) by {
        assert forall|e: int| 0 <= e < g.edges_count() implies #[trigger] g.source(e)
            < g.nodes_count() by {
            assert(kept[e].src < n);
        }
        assert forall|e: int| 0 <= e < g.edges_count() implies #[trigger] g.destination(e)
            < g.nodes_count() by {
            assert(kept[e].dst < n);
        }
    }
    assert(g.wf_caches());
    assert(g.wf_labels()) by {
        if has_weights {
            assert forall|e: int| 0 <= e < g.edges_count() implies valid_weight(
                #[trigger] g.weights->Some_0@[e],
            ) by {
                assert(entries_of(g)[e].weight == Some(g.weights->Some_0@[e]));
                assert(kept[e].weight is Some);
            }
        }
        if has_types {
            let t = g.edge_types->Some_0;
            assert forall|e: int| 0 <= e < t.ids@.len() implies #[trigger] t.ids@[e]
                < t.vocabulary.names().len() by {
                assert(entries_of(g)[e].edge_type == Some(t.ids@[e]));
                assert(kept[e].edge_type is Some);
            }
        }
    }
    assert(g.wf_counters()) by {
        assert forall|i: int| 0 <= i < g.unique_sources@.len() implies (
        #[trigger] g.unique_sources@[i]) < g.nodes_count() && g.degree(g.unique_sources@[i] as int)
            > 0 by {
            assert(crate::stats::is_source_upto(
                g.edges@,
                g.radix as int,
                g.unique_sources@[i] as int,
                g.edges@.len() as int,
            ));
            let e = choose|e: int|
                0 <= e < g.edges@.len() && crate::encoding::src_of(
                    #[trigger] g.edges@[e] as int,
                    g.radix as int,
                ) == g.unique_sources@[i];
            assert(g.source(e) == g.unique_sources@[i]);
            g.lemma_degree_positive(g.unique_sources@[i] as int);
        }
        assert forall|s: int|
            0 <= s < g.nodes_count() && #[trigger] g.degree(s) > 0 implies g.unique_sources@.contains(
            s as NodeT,
        ) by {
            g.lemma_degree_positive(s);
            let e = choose|e: int| 0 <= e < g.edges_count() && #[trigger] g.source(e) == s;
            assert(g.unique_sources@.contains(
                crate::encoding::src_of(g.edges@[e] as int, g.radix as int) as NodeT,
            ));
        }
    }
    if !g.directed {
        assert forall|e: int| 0 <= e < g.edges_count() implies #[trigger] g.has_mirror(e) by {
            let f = flip(kept[e]);
            assert(kept.contains(f));
            let k = choose|k: int| 0 <= k < kept.len() && kept[k] == f;
            assert(entries_of(g)[k] == kept[k]);
            assert(entries_of(g)[e] == kept[e]);
            assert(g.is_mirror(e, k));
        }
    }
}

/// Builds a graph from edges between numbered nodes.
///
/// The entries are mirrored where the graph is undirected, sorted by source
/// and destination with a stable sort, and cleared of every entry that
/// repeats the slot of an earlier one; such a repeat is a failure unless
/// `ignore_duplicated_edges` allows it, and then the first entry of a slot
/// wins. The ranges of the sources and the counters are computed from what
/// is left.
pub fn build_graph(
    entries: &Vec<EdgeEntry>,
    nodes: Vocabulary,
    node_types: Option<VocabularyVec>,
    edge_types_vocabulary: Option<Vocabulary>,
    has_weights: bool,
    directed: bool,
    name: String,
    ignore_duplicated_edges: bool,
) -> (r: Result<Graph, GraphError>)
    requires
        nodes.wf(),
        nodes.reverse_built(),
        node_types is Some ==> node_types_ready(&node_types->Some_0, nodes.names().len()),
        edge_types_vocabulary is Some ==> types_ready(&edge_types_vocabulary->Some_0),
        entries_valid(
            entries@,
            nodes.names().len(),
            edge_types_vocabulary is Some,
            types_count(&edge_types_vocabulary),
            has_weights,
        ),
    ensures
        r is Err <==> build_failure(entries@, directed, ignore_duplicated_edges) is Some,
        r matches Err(e) ==> build_failure(entries@, directed, ignore_duplicated_edges) == Some(e),
        r matches Ok(g) ==> {
            &&& g.wf()
            &&& g.directed == directed
            &&& g.name@ == name@
            &&& g.nodes == nodes
            &&& g.node_types == node_types
            &&& g.edge_types is Some <==> edge_types_vocabulary is Some
            &&& g.edge_types matches Some(t) ==> Some(t.vocabulary) == edge_types_vocabulary
            &&& g.weights is Some <==> has_weights
            &&& g.destinations is None
            &&& g.cached_destinations is None
            &&& g.outbounds is Some
            &&& built_from(&g, entries@)
            &&& distinct_slots(entries_of(&g))
        },
{
    if entries.len() > usize::MAX / 2 {
        return Err(GraphError::TooManyEdges);
    }
    let nodes_number = nodes.len() as NodeT;
    let radix = crate::encoding::get_radix(nodes_number);
    let kept = match prepare(
        entries,
        directed,
        ignore_duplicated_edges,
        radix,
        Ghost(nodes.names().len()),
        Ghost(edge_types_vocabulary is Some),
        Ghost(types_count(&edge_types_vocabulary)),
        Ghost(has_weights),
    ) {
        Err(e) => {
            return Err(e);
        },
        Ok(kept) => kept,
    };
    if kept.len() == 0 {
        return Err(GraphError::EmptyGraph);
    }
    let g = assemble(kept, nodes, node_types, edge_types_vocabulary, has_weights, directed, name);
    Ok(g)
}

} // verus!
