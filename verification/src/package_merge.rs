//! Length-limited Huffman codes by the package-merge algorithm: packages of leaves are
//! merged row by row, and a symbol's code length is the number of times it appears in the
//! cheapest packages of the last row.

use vstd::prelude::*;
use vstd::arithmetic::power2::pow2;
use std::collections::HashMap;
use crate::bit_stream::BitStream;
use crate::weighted_sort::{
    sorted_by_weight, sort_by_weight, total, lemma_total_sorted, lemma_sorted_elements,
    lemma_sorted_map, lemma_sorted_ordered, lemma_sorted_no_duplicates,
};
use crate::huffman::{
    HuffmanNode, HuffmanCode, HuffmanCodeMap, leaves_of, lemma_leaves_shape, get_single_leaves,
    code_len_to_tree, tree_from, empty_node, leaf_node,
};

verus! {

broadcast use vstd::std_specs::hash::group_hash_axioms;

/// A package: its weight and the positions, in the list of symbols, of the leaves it holds
/// (a leaf may be held several times).
pub type Package = (u64, Vec<usize>);

/// A package as mathematical values.
pub open spec fn package_view(p: Package) -> (u64, Seq<usize>) {
    (p.0, p.1@)
}

/// A row of packages as mathematical values.
pub open spec fn row_view(r: Seq<Package>) -> Seq<(u64, Seq<usize>)> {
    r.map_values(|p: Package| package_view(p))
}

// ---------------------------------------------------------------------------------------
// Rows of packages

/// The first row: one package per symbol, holding only that symbol, with its weight.
pub open spec fn first_row(p: Seq<(u8, u64)>) -> Seq<(u64, Seq<usize>)> {
    Seq::new(p.len(), |i: int| (p[i].1, seq![i as usize]))
}

/// The packages made of neighbouring pairs of a row, an odd last package left out.
pub open spec fn paired(row: Seq<(u64, Seq<usize>)>) -> Seq<(u64, Seq<usize>)> {
    Seq::new(
        row.len() / 2,
        |i: int| ((row[2 * i].0 + row[2 * i + 1].0) as u64, row[2 * i].1 + row[2 * i + 1].1),
    )
}

/// The row after `row`: the first row and the pairs of `row`, sorted by weight.
pub open spec fn next_row(p: Seq<(u8, u64)>, row: Seq<(u64, Seq<usize>)>) -> Seq<
    (u64, Seq<usize>),
> {
    sorted_by_weight(first_row(p) + paired(row))
}

/// Row `k` of the package-merge table.
pub open spec fn row_at(p: Seq<(u8, u64)>, k: nat) -> Seq<(u64, Seq<usize>)>
    decreases k,
{
    if k == 0 {
        first_row(p)
    } else {
        next_row(p, row_at(p, (k - 1) as nat))
    }
}

/// How often `i` occurs in `s`.
pub open spec fn occurrences(s: Seq<usize>, i: usize) -> nat
    decreases s.len(),
{
    if s.len() == 0 {
        0
    } else {
        occurrences(s.drop_last(), i) + if s.last() == i {
            1nat
        } else {
            0nat
        }
    }
}

/// How often `i` occurs in the packages of `row`.
pub open spec fn count_in(row: Seq<(u64, Seq<usize>)>, i: usize) -> nat
    decreases row.len(),
{
    if row.len() == 0 {
        0
    } else {
        count_in(row.drop_last(), i) + occurrences(row.last().1, i)
    }
}

/// The code length of each of the `p.len()` symbols: how often it occurs in the first
/// `2 * p.len() - 2` packages of the last row; a single symbol gets length 1.
pub open spec fn code_lengths(n: nat, last: Seq<(u64, Seq<usize>)>) -> Seq<nat> {
    if n == 1 {
        seq![1nat]
    } else {
        Seq::new(n, |i: int| count_in(last.take(2 * n - 2), i as usize))
    }
}

/// The weight of the `i`-th pair of a row.
pub open spec fn pair_weight(row: Seq<(u64, Seq<usize>)>, i: int) -> int {
    row[2 * i].0 + row[2 * i + 1].0
}

/// The weight of a package.
pub open spec fn by_weight() -> spec_fn((u64, Seq<usize>)) -> nat {
    |x: (u64, Seq<usize>)| x.0 as nat
}

/// The number of leaves in a package.
pub open spec fn by_size() -> spec_fn((u64, Seq<usize>)) -> nat {
    |x: (u64, Seq<usize>)| x.1.len()
}

/// Every package of `row` holds only positions below `n`.
pub open spec fn members_below(row: Seq<(u64, Seq<usize>)>, n: nat) -> bool {
    forall|i: int, j: int| 0 <= i < row.len() && 0 <= j < row[i].1.len() ==> #[trigger] row[i].1[j] < n
}

proof fn lemma_total_concat<T>(a: Seq<(u64, T)>, b: Seq<(u64, T)>, f: spec_fn((u64, T)) -> nat)
    ensures
        total(a + b, f) == total(a, f) + total(b, f),
    decreases b.len(),
{
    if b.len() > 0 {
        lemma_total_concat(a, b.drop_last(), f);
        assert((a + b).drop_last() =~= a + b.drop_last());
    } else {
        assert(a + b =~= a);
    }
}

proof fn lemma_total_prefix<T>(s: Seq<(u64, T)>, k: int, f: spec_fn((u64, T)) -> nat)
    requires
        0 <= k <= s.len(),
    ensures
        total(s.take(k), f) <= total(s, f),
        k < s.len() ==> total(s.take(k + 1), f) == total(s.take(k), f) + f(s[k]),
    decreases s.len(),
{
    if k < s.len() {
        lemma_total_prefix(s.drop_last(), k, f);
        assert(s.drop_last().take(k) =~= s.take(k));
        if k + 1 < s.len() {
            lemma_total_prefix(s.drop_last(), k + 1, f);
            assert(s.drop_last().take(k + 1) =~= s.take(k + 1));
        } else {
            assert(s.take(k + 1) =~= s);
            assert(s.drop_last() =~= s.take(k));
        }
    } else {
        assert(s.take(k) =~= s);
    }
}

/// Pairing a row keeps its weight and size at most what they were, and no pair is
/// heavier than the whole row.
proof fn lemma_paired(row: Seq<(u64, Seq<usize>)>)
    requires
        total(row, by_weight()) <= u64::MAX,
    ensures
        total(paired(row), by_weight()) <= total(
            row,
            by_weight(),
        ),
        total(paired(row), by_size()) <= total(
            row,
            by_size(),
        ),
        forall|i: int|
            0 <= i < row.len() / 2 ==> #[trigger] pair_weight(row, i) <= total(
                row,
                by_weight(),
            ),
    decreases row.len(),
{
    let w = by_weight();
    let z = by_size();
    if row.len() >= 2 {
        let t = row.drop_last().drop_last();
        assert(t =~= row.take(row.len() - 2));
        assert(row.drop_last().last() == row[row.len() - 2]);
        assert(total(row, w) == total(row.drop_last(), w) + w(row.last()));
        assert(total(row.drop_last(), w) == total(t, w) + w(row.drop_last().last()));
        assert(total(row, z) == total(row.drop_last(), z) + z(row.last()));
        assert(total(row.drop_last(), z) == total(t, z) + z(row.drop_last().last()));
        lemma_paired(t);
        assert(total(row, w) == total(t, w) + row[row.len() - 2].0 + row[row.len() - 1].0);
        assert(total(row, z) == total(t, z) + row[row.len() - 2].1.len() + row[row.len() - 1].1.len());
        if row.len() % 2 == 0 {
            let pr = ((row[row.len() - 2].0 + row[row.len() - 1].0) as u64, row[row.len() - 2].1
                + row[row.len() - 1].1);
            assert(paired(row) =~= paired(t).push(pr));
            assert(paired(row).drop_last() =~= paired(t));
        } else {
            let u = row.drop_last();
            assert(paired(row) =~= paired(u));
            lemma_paired(u);
            assert(total(row, w) == total(u, w) + row[row.len() - 1].0);
            assert(total(row, z) == total(u, z) + row[row.len() - 1].1.len());
        }
        assert forall|i: int| 0 <= i < row.len() / 2 implies #[trigger] pair_weight(row, i) <= total(
            row,
            w,
        ) by {
            if row.len() % 2 == 1 {
                let u = row.drop_last();
                assert(pair_weight(u, i) == pair_weight(row, i));
            } else if 2 * i + 1 < row.len() - 2 {
                assert(t[2 * i] == row[2 * i] && t[2 * i + 1] == row[2 * i + 1]);
                assert(pair_weight(t, i) == pair_weight(row, i));
            }
        }
    } else {
        assert(paired(row) =~= Seq::<(u64, Seq<usize>)>::empty());
    }
}


proof fn lemma_first_row_totals(p: Seq<(u8, u64)>)
    ensures
        total(first_row(p), by_size()) == p.len(),
        members_below(first_row(p), p.len()),
    decreases p.len(),
{
    if p.len() > 0 {
        lemma_first_row_totals(p.drop_last());
        assert(first_row(p).drop_last() =~= first_row(p.drop_last()));
    }
}

/// Every row of the table weighs at most `k + 1` times the first row, holds at most `k + 1`
/// times as many leaves, and refers only to the symbols that exist.
proof fn lemma_row_bounds(p: Seq<(u8, u64)>, k: nat)
    requires
        (k + 1) * total(first_row(p), by_weight()) <= u64::MAX,
    ensures
        total(row_at(p, k), by_weight()) <= (k + 1) * total(first_row(p), by_weight()),
        total(row_at(p, k), by_size()) <= (k + 1) * p.len(),
        members_below(row_at(p, k), p.len()),
    decreases k,
{
    let w = total(first_row(p), by_weight());
    lemma_first_row_totals(p);
    if k == 0 {
        assert((k + 1) * w == w && (k + 1) * p.len() == p.len()) by (nonlinear_arith)
            requires k == 0;
    } else {
        let km = (k - 1) as nat;
        assert(k * w <= (k + 1) * w) by (nonlinear_arith);
        lemma_row_bounds(p, km);
        let prev = row_at(p, km);
        assert((km + 1) * w <= u64::MAX) by (nonlinear_arith)
            requires km + 1 == k, k * w <= (k + 1) * w, (k + 1) * w <= u64::MAX;
        lemma_paired(prev);
        let joined = first_row(p) + paired(prev);
        lemma_total_concat(first_row(p), paired(prev), by_weight());
        lemma_total_concat(first_row(p), paired(prev), by_size());
        lemma_total_sorted(joined, by_weight());
        lemma_total_sorted(joined, by_size());
        assert((k + 1) * w == w + k * w) by (nonlinear_arith);
        assert((k + 1) * p.len() == p.len() + k * p.len()) by (nonlinear_arith);
        lemma_sorted_elements(joined);
        let next = row_at(p, k);
        assert forall|i: int, j: int| 0 <= i < next.len() && 0 <= j < next[i].1.len() implies #[trigger] next[i].1[j]
            < p.len() by {
            let x = next[i];
            let u = choose|u: int| 0 <= u < joined.len() && joined[u] == x;
            if u >= first_row(p).len() {
                let v = u - first_row(p).len();
                assert(paired(prev)[v] == x);
                if j < prev[2 * v].1.len() {
                    assert(x.1[j] == prev[2 * v].1[j]);
                } else {
                    assert(x.1[j] == prev[2 * v + 1].1[j - prev[2 * v].1.len()]);
                }
            } else {
                assert(first_row(p)[u] == x);
            }
        }
    }
}

/// A sequence of distinct bytes below `k` has at most `k` elements.
proof fn lemma_distinct_bytes(s: Seq<u8>, k: nat)
    requires
        forall|i: int, j: int| 0 <= i < j < s.len() ==> s[i] != s[j],
        forall|i: int| 0 <= i < s.len() ==> s[i] < k,
    ensures
        s.len() <= k,
    decreases k,
{
    if k > 0 {
        if exists|i: int| 0 <= i < s.len() && s[i] == k - 1 {
            let i = choose|i: int| 0 <= i < s.len() && s[i] == k - 1;
            let t = s.remove(i);
            assert forall|a: int| 0 <= a < t.len() implies t[a] < k - 1 by {
                if a < i {
                    assert(t[a] == s[a]);
                } else {
                    assert(t[a] == s[a + 1]);
                }
            }
            assert forall|a: int, b: int| 0 <= a < b < t.len() implies t[a] != t[b] by {
                let sa = if a < i { a } else { a + 1 };
                let sb = if b < i { b } else { b + 1 };
                assert(t[a] == s[sa] && t[b] == s[sb]);
            }
            lemma_distinct_bytes(t, (k - 1) as nat);
        } else {
            lemma_distinct_bytes(s, (k - 1) as nat);
        }
    } else if s.len() > 0 {
        assert(s[0] < k);
    }
}

/// There are at most 256 leaves, one per byte value.
proof fn lemma_leaf_count(bytes: Seq<u8>)
    requires
        bytes.len() <= u64::MAX,
    ensures
        leaves_of(bytes).len() <= 256,
{
    lemma_leaves_shape(bytes);
    let l = leaves_of(bytes);
    let c = l.map_values(|n: HuffmanNode<u8>| n.content.unwrap());
    assert forall|i: int, j: int| 0 <= i < j < c.len() implies c[i] != c[j] by {
        assert(l[i].content != l[j].content);
    }
    lemma_distinct_bytes(c, 256);
}

// ---------------------------------------------------------------------------------------
// Leaves, weights and code lengths

/// Every node is a leaf with a symbol.
pub open spec fn all_leaves(nodes: Seq<HuffmanNode<u8>>) -> bool {
    forall|i: int|
        0 <= i < nodes.len() ==> (#[trigger] nodes[i]).content is Some && nodes[i].left is None
            && nodes[i].right is None
}

/// The symbol and chance of each leaf.
pub open spec fn symbol_weights(nodes: Seq<HuffmanNode<u8>>) -> Seq<(u8, u64)> {
    Seq::new(nodes.len(), |i: int| (nodes[i].content.unwrap(), nodes[i].chance))
}

/// The nodes, each with its total chance as weight.
pub open spec fn keyed_by_chance(nodes: Seq<HuffmanNode<u8>>) -> Seq<(u64, HuffmanNode<u8>)> {
    nodes.map_values(|n: HuffmanNode<u8>| (n.total_chance() as u64, n))
}

/// The nodes sorted by total chance; nodes of equal chance keep their order.
pub open spec fn sorted_by_chance(nodes: Seq<HuffmanNode<u8>>) -> Seq<HuffmanNode<u8>> {
    sorted_by_weight(keyed_by_chance(nodes)).map_values(|x: (u64, HuffmanNode<u8>)| x.1)
}

/// Each node with `u64::MAX` less its code length as chance, so that sorting by chance puts
/// the longest codes first.
pub open spec fn relabeled(nodes: Seq<HuffmanNode<u8>>, lengths: Seq<nat>) -> Seq<HuffmanNode<u8>> {
    Seq::new(
        nodes.len(),
        |i: int| HuffmanNode { chance: (u64::MAX - lengths[i]) as u64, ..nodes[i] },
    )
}

/// The code lengths of the first `k` symbols of `p` as a code map, each with code 0.
pub open spec fn lengths_map(p: Seq<(u8, u64)>, lengths: Seq<nat>, k: nat) -> Map<u8, HuffmanCode>
    decreases k,
{
    if k == 0 {
        Map::empty()
    } else {
        lengths_map(p, lengths, (k - 1) as nat).insert(
            p[k - 1].0,
            (lengths[k - 1] as u8, 0u16),
        )
    }
}

/// The numbers as mathematical values.
pub open spec fn as_nats(l: Seq<u64>) -> Seq<nat> {
    l.map_values(|x: u64| x as nat)
}

/// The sum of the chances of the nodes.
pub open spec fn chance_sum(nodes: Seq<HuffmanNode<u8>>) -> nat
    decreases nodes.len(),
{
    if nodes.len() == 0 {
        0
    } else {
        chance_sum(nodes.drop_last()) + nodes.last().chance as nat
    }
}

proof fn lemma_chance_sum_update(s: Seq<HuffmanNode<u8>>, i: int, x: HuffmanNode<u8>)
    requires
        0 <= i < s.len(),
    ensures
        chance_sum(s.update(i, x)) + s[i].chance == chance_sum(s) + x.chance,
    decreases s.len(),
{
    if i < s.len() - 1 {
        lemma_chance_sum_update(s.drop_last(), i, x);
        assert(s.update(i, x).drop_last() =~= s.drop_last().update(i, x));
    } else {
        assert(s.update(i, x).drop_last() =~= s.drop_last());
    }
}

/// The chances of the leaves of a byte sequence add up to its length.
proof fn lemma_leaves_sum(bytes: Seq<u8>)
    requires
        bytes.len() <= u64::MAX,
    ensures
        chance_sum(leaves_of(bytes)) == bytes.len(),
    decreases bytes.len(),
{
    if bytes.len() > 0 {
        let prev = leaves_of(bytes.drop_last());
        lemma_leaves_sum(bytes.drop_last());
        lemma_leaves_shape(bytes.drop_last());
        let v = bytes.last();
        let i = crate::huffman::leaf_index(prev, v);
        if i < prev.len() {
            let x = HuffmanNode { chance: (prev[i as int].chance + 1) as u64, ..prev[i as int] };
            lemma_chance_sum_update(prev, i as int, x);
        } else {
            assert(prev.push(leaf_node(Some(v), 1)).drop_last() =~= prev);
        }
    }
}

proof fn lemma_keyed_sum(k: Seq<(u64, HuffmanNode<u8>)>)
    ensures
        total(k, |x: (u64, HuffmanNode<u8>)| x.1.chance as nat) == chance_sum(
            k.map_values(|x: (u64, HuffmanNode<u8>)| x.1),
        ),
    decreases k.len(),
{
    if k.len() > 0 {
        lemma_keyed_sum(k.drop_last());
        assert(k.map_values(|x: (u64, HuffmanNode<u8>)| x.1).drop_last() =~= k.drop_last().map_values(
            |x: (u64, HuffmanNode<u8>)| x.1,
        ));
    }
}

proof fn lemma_weights_sum(nodes: Seq<HuffmanNode<u8>>)
    ensures
        total(first_row(symbol_weights(nodes)), by_weight()) == chance_sum(nodes),
    decreases nodes.len(),
{
    if nodes.len() > 0 {
        lemma_weights_sum(nodes.drop_last());
        assert(first_row(symbol_weights(nodes)).drop_last() =~= first_row(
            symbol_weights(nodes.drop_last()),
        ));
    }
}

/// Sorting by chance keeps the nodes, their number and the sum of their chances.
proof fn lemma_sorted_by_chance(nodes: Seq<HuffmanNode<u8>>)
    ensures
        sorted_by_chance(nodes).len() == nodes.len(),
        chance_sum(sorted_by_chance(nodes)) == chance_sum(nodes),
        forall|i: int|
            0 <= i < nodes.len() ==> nodes.contains(#[trigger] sorted_by_chance(nodes)[i]),
{
    let k = keyed_by_chance(nodes);
    let f = |x: (u64, HuffmanNode<u8>)| x.1.chance as nat;
    lemma_total_sorted(k, f);
    lemma_keyed_sum(k);
    lemma_keyed_sum(sorted_by_weight(k));
    assert(k.map_values(|x: (u64, HuffmanNode<u8>)| x.1) =~= nodes);
    lemma_sorted_elements(k);
    let r = sorted_by_chance(nodes);
    assert forall|i: int| 0 <= i < nodes.len() implies nodes.contains(#[trigger] r[i]) by {
        let x = sorted_by_weight(k)[i];
        let u = choose|u: int| 0 <= u < k.len() && k[u] == x;
        assert(nodes[u] == r[i]);
    }
}

proof fn lemma_count_in_step(row: Seq<(u64, Seq<usize>)>, k: int, i: usize)
    requires
        0 <= k < row.len(),
    ensures
        count_in(row.take(k + 1), i) == count_in(row.take(k), i) + occurrences(row[k].1, i),
{
    assert(row.take(k + 1).drop_last() =~= row.take(k));
}

proof fn lemma_count_in_bound(row: Seq<(u64, Seq<usize>)>, i: usize)
    ensures
        count_in(row, i) <= total(row, by_size()),
    decreases row.len(),
{
    if row.len() > 0 {
        lemma_count_in_bound(row.drop_last(), i);
        lemma_occurrences_bound(row.last().1, i);
    }
}

proof fn lemma_occurrences_bound(s: Seq<usize>, i: usize)
    ensures
        occurrences(s, i) <= s.len(),
    decreases s.len(),
{
    if s.len() > 0 {
        lemma_occurrences_bound(s.drop_last(), i);
    }
}

proof fn lemma_occurrences_step(s: Seq<usize>, j: int, i: usize)
    requires
        0 <= j < s.len(),
    ensures
        occurrences(s.take(j + 1), i) == occurrences(s.take(j), i) + if s[j] == i {
            1nat
        } else {
            0nat
        },
{
    assert(s.take(j + 1).drop_last() =~= s.take(j));
}

// ---------------------------------------------------------------------------------------
// The algorithm

/// Sort nodes by their total chance, keeping the order of nodes of equal chance.
fn sort_nodes_by_chance(nodes: Vec<HuffmanNode<u8>>) -> (r: Vec<HuffmanNode<u8>>)
    requires
        forall|i: int| 0 <= i < nodes.len() ==> (#[trigger] nodes[i]).total_chance() <= u64::MAX,
    ensures
        r@ == sorted_by_chance(nodes@),
{
    let ghost orig = nodes@;
    let mut rest = nodes;
    let mut keyed: Vec<(u64, HuffmanNode<u8>)> = Vec::new();
    let ghost mut k: int = 0;
    while rest.len() > 0
        invariant
            0 <= k <= orig.len(),
            rest@ == orig.skip(k),
            keyed@ == keyed_by_chance(orig).take(k),
            forall|i: int| 0 <= i < orig.len() ==> (#[trigger] orig[i]).total_chance() <= u64::MAX,
        decreases rest.len(),
    {
        let node = rest.remove(0);
        assert(node == orig[k]);
        let chance = node.chance();
        keyed.push((chance, node));
        proof {
            assert(keyed@ =~= keyed_by_chance(orig).take(k + 1));
            k = k + 1;
            assert(rest@ =~= orig.skip(k));
        }
    }
    proof {
        assert(keyed@ =~= keyed_by_chance(orig));
    }
    let mut sorted = sort_by_weight(keyed);
    let ghost srt = sorted@;
    let mut result: Vec<HuffmanNode<u8>> = Vec::new();
    let ghost mut j: int = 0;
    while sorted.len() > 0
        invariant
            0 <= j <= srt.len(),
            sorted@ == srt.skip(j),
            result@ == srt.map_values(|x: (u64, HuffmanNode<u8>)| x.1).take(j),
        decreases sorted.len(),
    {
        let (_, node) = sorted.remove(0);
        result.push(node);
        proof {
            assert(result@ =~= srt.map_values(|x: (u64, HuffmanNode<u8>)| x.1).take(j + 1));
            j = j + 1;
            assert(sorted@ =~= srt.skip(j));
        }
    }
    proof {
        assert(result@ =~= srt.map_values(|x: (u64, HuffmanNode<u8>)| x.1));
    }
    result
}

/// The symbol and chance of each leaf.
fn create_p(nodes: &Vec<HuffmanNode<u8>>) -> (r: Vec<(u8, u64)>)
    requires
        all_leaves(nodes@),
    ensures
        r@ == symbol_weights(nodes@),
{
    let mut p: Vec<(u8, u64)> = Vec::new();
    let mut i: usize = 0;
    while i < nodes.len()
        invariant
            i <= nodes.len(),
            all_leaves(nodes@),
            p@ == symbol_weights(nodes@).take(i as int),
        decreases nodes.len() - i,
    {
        let node = &nodes[i];
        assert(node.total_chance() == node.chance);
        p.push((node.content().unwrap(), node.chance()));
        i += 1;
        proof {
            assert(p@ =~= symbol_weights(nodes@).take(i as int));
        }
    }
    proof {
        assert(p@ =~= symbol_weights(nodes@));
    }
    p
}

/// A copy of a list of leaf positions.
fn copy_members(v: &Vec<usize>) -> (r: Vec<usize>)
    ensures
        r@ == v@,
{
    let mut r: Vec<usize> = Vec::new();
    let mut i: usize = 0;
    while i < v.len()
        invariant
            i <= v.len(),
            r@ == v@.take(i as int),
        decreases v.len() - i,
    {
        r.push(v[i]);
        i += 1;
        proof {
            assert(r@ =~= v@.take(i as int));
        }
    }
    proof {
        assert(r@ =~= v@);
    }
    r
}

/// The leaf positions of two packages, one after the other.
fn concat_members(a: &Vec<usize>, b: &Vec<usize>) -> (r: Vec<usize>)
    ensures
        r@ == a@ + b@,
{
    let mut r = copy_members(a);
    let mut i: usize = 0;
    while i < b.len()
        invariant
            i <= b.len(),
            r@ == a@ + b@.take(i as int),
        decreases b.len() - i,
    {
        r.push(b[i]);
        i += 1;
        proof {
            assert(r@ =~= a@ + b@.take(i as int));
        }
    }
    proof {
        assert(b@.take(b.len() as int) =~= b@);
    }
    r
}

/// The first row of the table: one package per symbol.
fn populate_first_q_row(p: &Vec<(u8, u64)>) -> (r: Vec<Package>)
    ensures
        row_view(r@) == first_row(p@),
{
    let mut q: Vec<Package> = Vec::new();
    let mut i: usize = 0;
    while i < p.len()
        invariant
            i <= p.len(),
            row_view(q@) == first_row(p@).take(i as int),
        decreases p.len() - i,
    {
        let mut members: Vec<usize> = Vec::new();
        members.push(i);
        assert(members@ =~= seq![i]);
        let ghost before = q@;
        q.push((p[i].1, members));
        proof {
            assert(row_view(q@) =~= row_view(before).push((p@[i as int].1, seq![i])));
            assert(first_row(p@).take(i + 1) =~= first_row(p@).take(i as int).push(
                first_row(p@)[i as int],
            ));
        }
        i += 1;
    }
    proof {
        assert(row_view(q@) =~= first_row(p@));
    }
    q
}

/// A copy of a row of packages.
fn copy_row(q: &Vec<Package>) -> (r: Vec<Package>)
    ensures
        row_view(r@) == row_view(q@),
{
    let mut r: Vec<Package> = Vec::new();
    let mut i: usize = 0;
    while i < q.len()
        invariant
            i <= q.len(),
            row_view(r@) == row_view(q@).take(i as int),
        decreases q.len() - i,
    {
        let members = copy_members(&q[i].1);
        let ghost before = r@;
        r.push((q[i].0, members));
        proof {
            assert(row_view(r@) =~= row_view(before).push(package_view(q@[i as int])));
            assert(row_view(q@).take(i + 1) =~= row_view(q@).take(i as int).push(
                row_view(q@)[i as int],
            ));
        }
        i += 1;
    }
    proof {
        assert(row_view(r@) =~= row_view(q@));
    }
    r
}

/// The next row of the table: the first row `q_0` and the neighbouring pairs of `q`
/// packaged together, sorted by weight.
fn package(q: &Vec<Package>, q_0: &Vec<Package>) -> (r: Vec<Package>)
    requires
        forall|i: int| 0 <= i < q.len() / 2 ==> #[trigger] pair_weight(row_view(q@), i) <= u64::MAX,
    ensures
        row_view(r@) == sorted_by_weight(row_view(q_0@) + paired(row_view(q@))),
{
    let mut next_row = copy_row(q_0);
    let half = q.len() / 2;
    let mut i: usize = 0;
    while i < half
        invariant
            half == q.len() / 2,
            i <= half,
            row_view(next_row@) == row_view(q_0@) + paired(row_view(q@)).take(i as int),
            forall|i: int| 0 <= i < q.len() / 2 ==> #[trigger] pair_weight(row_view(q@), i) <= u64::MAX,
        decreases half - i,
    {
        assert(pair_weight(row_view(q@), i as int) <= u64::MAX);
        let node = concat_members(&q[2 * i].1, &q[2 * i + 1].1);
        let ghost before = next_row@;
        next_row.push((q[2 * i].0 + q[2 * i + 1].0, node));
        proof {
            let pr = paired(row_view(q@))[i as int];
            assert(row_view(next_row@) =~= row_view(before).push(pr));
            assert(paired(row_view(q@)).take(i + 1) =~= paired(row_view(q@)).take(i as int).push(pr));
        }
        i += 1;
    }
    proof {
        assert(paired(row_view(q@)).take(half as int) =~= paired(row_view(q@)));
    }
    let ghost unsorted = next_row@;
    let sorted = sort_by_weight(next_row);
    proof {
        let f = |v: Vec<usize>| v@;
        lemma_sorted_map(unsorted, f);
        assert(row_view(sorted@) =~= sorted_by_weight(unsorted).map_values(
            |x: (u64, Vec<usize>)| (x.0, f(x.1)),
        ));
        assert(row_view(unsorted) =~= unsorted.map_values(|x: (u64, Vec<usize>)| (x.0, f(x.1))));
    }
    sorted
}

/// Compute the rows of the table after the first, up to row `height - 1`, and return the
/// last.
fn calculate_further_q_rows(q_0: &Vec<Package>, p: &Vec<(u8, u64)>, height: u16) -> (r: Vec<Package>)
    requires
        height >= 1,
        row_view(q_0@) == first_row(p@),
        height * total(first_row(p@), by_weight()) <= u64::MAX,
    ensures
        row_view(r@) == row_at(p@, (height - 1) as nat),
{
    let mut row = copy_row(q_0);
    let mut i: u16 = 0;
    let ghost w = total(first_row(p@), by_weight());
    while i < height - 1
        invariant
            i <= height - 1,
            row_view(q_0@) == first_row(p@),
            w == total(first_row(p@), by_weight()),
            height * w <= u64::MAX,
            row_view(row@) == row_at(p@, i as nat),
        decreases height - 1 - i,
    {
        proof {
            assert((i + 1) * w <= height * w) by (nonlinear_arith)
                requires i + 1 <= height;
            lemma_row_bounds(p@, i as nat);
            lemma_paired(row_view(row@));
        }
        row = package(&row, q_0);
        i += 1;
    }
    row
}

/// Each symbol's code length: how often it occurs in the first `2 * number_of_nodes - 2`
/// packages of the last row; a single symbol gets length 1. `None` where the row is
/// shorter than that.
fn calculate_code_lengths(q: &Vec<Package>, number_of_nodes: usize) -> (r: Option<Vec<u64>>)
    requires
        1 <= number_of_nodes <= 256,
        members_below(row_view(q@), number_of_nodes as nat),
        total(row_view(q@), by_size()) <= u64::MAX,
    ensures
        r is Some <==> (number_of_nodes == 1 || q.len() >= 2 * number_of_nodes - 2),
        r matches Some(l) ==> as_nats(l@) == code_lengths(number_of_nodes as nat, row_view(q@)),
{
    if number_of_nodes == 1 {
        let mut l: Vec<u64> = Vec::new();
        l.push(1);
        proof {
            assert(as_nats(l@) =~= code_lengths(1, row_view(q@)));
        }
        return Some(l);
    }
    let limit = 2 * number_of_nodes - 2;
    if q.len() < limit {
        return None;
    }
    let ghost rv = row_view(q@);
    let mut l: Vec<u64> = Vec::new();
    while l.len() < number_of_nodes
        invariant
            l.len() <= number_of_nodes,
            forall|i: int| 0 <= i < l.len() ==> l@[i] == 0,
        decreases number_of_nodes - l.len(),
    {
        l.push(0);
    }
    let mut k: usize = 0;
    while k < limit
        invariant
            limit == 2 * number_of_nodes - 2 <= q.len(),
            rv == row_view(q@),
            k <= limit,
            l.len() == number_of_nodes,
            members_below(rv, number_of_nodes as nat),
            total(rv, by_size()) <= u64::MAX,
            forall|i: int| 0 <= i < number_of_nodes ==> l@[i] == count_in(rv.take(k as int), i as usize),
        decreases limit - k,
    {
        let members = &q[k].1;
        assert(members@ == rv[k as int].1);
        let mut j: usize = 0;
        proof {
            lemma_total_prefix(rv, k as int, by_size());
            lemma_total_prefix(rv, k as int + 1, by_size());
            assert(members@.take(0) =~= Seq::<usize>::empty());
        }
        while j < members.len()
            invariant
                rv == row_view(q@),
                k < limit <= q.len(),
                members@ == rv[k as int].1,
                j <= members.len(),
                l.len() == number_of_nodes,
                members_below(rv, number_of_nodes as nat),
                total(rv.take(k as int), by_size()) + members@.len() <= total(rv, by_size()),
                total(rv, by_size()) <= u64::MAX,
                forall|i: int|
                    0 <= i < number_of_nodes ==> l@[i] == count_in(rv.take(k as int), i as usize)
                        + occurrences(members@.take(j as int), i as usize),
            decreases members.len() - j,
        {
            let m = members[j];
            assert(rv[k as int].1[j as int] < number_of_nodes);
            proof {
                lemma_count_in_bound(rv.take(k as int), m);
                lemma_occurrences_bound(members@.take(j as int), m);
            }
            l[m] = l[m] + 1;
            proof {
                assert forall|i: int| 0 <= i < number_of_nodes implies l@[i] == count_in(
                    rv.take(k as int),
                    i as usize,
                ) + occurrences(members@.take(j + 1), i as usize) by {
                    lemma_occurrences_step(members@, j as int, i as usize);
                }
            }
            j += 1;
        }
        proof {
            assert(members@.take(members.len() as int) =~= members@);
            assert forall|i: int| 0 <= i < number_of_nodes implies l@[i] == count_in(
                rv.take(k + 1),
                i as usize,
            ) by {
                lemma_count_in_step(rv, k as int, i as usize);
            }
        }
        k += 1;
    }
    proof {
        assert(as_nats(l@) =~= code_lengths(number_of_nodes as nat, rv));
    }
    Some(l)
}

/// Map each symbol to its code length with code 0, and give each leaf `u64::MAX` less its
/// code length as chance. `None`, with the leaves untouched, where a code length exceeds
/// `height`.
fn map_codes_to_code_length(
    p: &Vec<(u8, u64)>,
    l: &Vec<u64>,
    nodes: &mut Vec<HuffmanNode<u8>>,
    height: u16,
) -> (r: Option<HuffmanCodeMap>)
    requires
        p.len() == l.len() == old(nodes).len(),
    ensures
        r is Some <==> forall|i: int| 0 <= i < l.len() ==> l@[i] <= height,
        r matches Some(m) ==> m@ == lengths_map(p@, as_nats(l@), p.len() as nat) && final(nodes)@
            == relabeled(old(nodes)@, as_nats(l@)),
        r is None ==> final(nodes)@ == old(nodes)@,
{
    let mut i: usize = 0;
    while i < l.len()
        invariant
            i <= l.len(),
            forall|j: int| 0 <= j < i ==> l@[j] <= height,
        decreases l.len() - i,
    {
        if l[i] > height as u64 {
            return None;
        }
        i += 1;
    }
    let ghost orig = nodes@;
    let mut map: HuffmanCodeMap = HashMap::new();
    let mut relabeled_nodes: Vec<HuffmanNode<u8>> = Vec::new();
    let mut i: usize = 0;
    while i < p.len()
        invariant
            p.len() == l.len() == orig.len(),
            i <= p.len(),
            nodes@ == orig.skip(i as int),
            map@ == lengths_map(p@, as_nats(l@), i as nat),
            relabeled_nodes@ == relabeled(orig, as_nats(l@)).take(i as int),
            forall|j: int| 0 <= j < l.len() ==> l@[j] <= height,
        decreases p.len() - i,
    {
        let code_length = l[i];
        map.insert(p[i].0, (code_length as u8, 0));
        let node = nodes.remove(0);
        assert(node == orig[i as int]);
        let HuffmanNode { chance: _, content, left, right } = node;
        relabeled_nodes.push(HuffmanNode { chance: u64::MAX - code_length, content, left, right });
        i += 1;
        proof {
            assert(nodes@ =~= orig.skip(i as int));
            assert(relabeled_nodes@ =~= relabeled(orig, as_nats(l@)).take(i as int));
        }
    }
    proof {
        assert(relabeled_nodes@ =~= relabeled(orig, as_nats(l@)));
    }
    *nodes = relabeled_nodes;
    Some(map)
}

/// Whether there are more symbols than `2^height`, too many for codes of at most `height`
/// bits.
fn too_many_symbols(n: usize, height: u16) -> (r: bool)
    requires
        n <= 256,
    ensures
        r == (n > pow2(height as nat)),
{
    let mut cap: u64 = 1;
    let mut k: u16 = 0;
    proof {
        vstd::arithmetic::power2::lemma2_to64();
    }
    while k < height && cap < n as u64
        invariant
            k <= height,
            cap == pow2(k as nat),
            cap <= 512,
            n <= 256,
        decreases height - k,
    {
        proof {
            vstd::arithmetic::power2::lemma_pow2_unfold((k + 1) as nat);
        }
        cap = cap * 2;
        k += 1;
    }
    proof {
        if k < height {
            vstd::arithmetic::power2::lemma_pow2_strictly_increases(k as nat, height as nat);
        }
    }
    cap < n as u64
}

/// The leaves of a stream relabeled and ordered for tree building, longest codes first,
/// and the map of their code lengths; `None` where package-merge fails for `height`.
pub open spec fn planned(leaves: Seq<HuffmanNode<u8>>, height: u16) -> Option<
    (Seq<HuffmanNode<u8>>, Map<u8, HuffmanCode>),
> {
    let n = leaves.len();
    if n > pow2(height as nat) || height == 0 {
        None
    } else {
        let sorted = sorted_by_chance(leaves);
        let p = symbol_weights(sorted);
        let last = row_at(p, (height - 1) as nat);
        if n > 1 && last.len() < 2 * n - 2 {
            None
        } else {
            let l = code_lengths(n, last);
            if exists|i: int| 0 <= i < n && l[i] > height {
                None
            } else {
                Some((sorted_by_chance(relabeled(sorted, l)), lengths_map(p, l, n)))
            }
        }
    }
}

/// How often position `i` occurs in a package.
pub open spec fn holding(i: usize) -> spec_fn((u64, Seq<usize>)) -> nat {
    |x: (u64, Seq<usize>)| occurrences(x.1, i)
}

proof fn lemma_count_is_total(row: Seq<(u64, Seq<usize>)>, i: usize)
    ensures
        count_in(row, i) == total(row, holding(i)),
    decreases row.len(),
{
    if row.len() > 0 {
        lemma_count_is_total(row.drop_last(), i);
    }
}

proof fn lemma_occurrences_concat(a: Seq<usize>, b: Seq<usize>, i: usize)
    ensures
        occurrences(a + b, i) == occurrences(a, i) + occurrences(b, i),
    decreases b.len(),
{
    if b.len() == 0 {
        assert(a + b =~= a);
    } else {
        lemma_occurrences_concat(a, b.drop_last(), i);
        assert((a + b).drop_last() =~= a + b.drop_last());
    }
}

proof fn lemma_first_row_count(p: Seq<(u8, u64)>, i: usize)
    requires
        p.len() <= 256,
    ensures
        total(first_row(p), holding(i)) == if i < p.len() {
            1nat
        } else {
            0nat
        },
    decreases p.len(),
{
    if p.len() > 0 {
        lemma_first_row_count(p.drop_last(), i);
        assert(first_row(p).drop_last() =~= first_row(p.drop_last()));
        let j = (p.len() - 1) as usize;
        assert(first_row(p).last() == (p[p.len() - 1].1, seq![j]));
        assert(seq![j].drop_last() =~= Seq::<usize>::empty());
        assert(occurrences(Seq::<usize>::empty(), i) == 0);
        assert(seq![j].last() == j);
        assert(occurrences(seq![j], i) == occurrences(seq![j].drop_last(), i) + if seq![j].last()
            == i {
            1nat
        } else {
            0nat
        });
        assert(occurrences(seq![j], i) == if j == i {
            1nat
        } else {
            0nat
        });
        assert(total(first_row(p), holding(i)) == total(first_row(p.drop_last()), holding(i))
            + occurrences(seq![j], i));
    }
}

proof fn lemma_paired_count(row: Seq<(u64, Seq<usize>)>, i: usize)
    ensures
        total(paired(row), holding(i)) <= total(row, holding(i)),
    decreases row.len(),
{
    let f = holding(i);
    if row.len() >= 2 {
        let t = row.drop_last().drop_last();
        assert(row.drop_last().last() == row[row.len() - 2]);
        assert(total(row, f) == total(row.drop_last(), f) + f(row.last()));
        assert(total(row.drop_last(), f) == total(t, f) + f(row.drop_last().last()));
        if row.len() % 2 == 0 {
            lemma_paired_count(t, i);
            let pr = ((row[row.len() - 2].0 + row[row.len() - 1].0) as u64, row[row.len() - 2].1
                + row[row.len() - 1].1);
            assert(paired(row) =~= paired(t).push(pr));
            assert(paired(row).drop_last() =~= paired(t));
            lemma_occurrences_concat(row[row.len() - 2].1, row[row.len() - 1].1, i);
            assert(total(paired(row), f) == total(paired(t), f) + f(pr));
        } else {
            let u = row.drop_last();
            assert(paired(row) =~= paired(u));
            lemma_paired_count(u, i);
        }
    } else {
        assert(paired(row) =~= Seq::<(u64, Seq<usize>)>::empty());
    }
}

/// A position occurs at most `k + 1` times in row `k`: once in the first row, and each row
/// adds the first row to pairs of the row before.
proof fn lemma_row_count(p: Seq<(u8, u64)>, k: nat, i: usize)
    requires
        p.len() <= 256,
    ensures
        total(row_at(p, k), holding(i)) <= k + 1,
    decreases k,
{
    lemma_first_row_count(p, i);
    if k > 0 {
        let prev = row_at(p, (k - 1) as nat);
        lemma_row_count(p, (k - 1) as nat, i);
        lemma_paired_count(prev, i);
        let joined = first_row(p) + paired(prev);
        lemma_total_concat(first_row(p), paired(prev), holding(i));
        lemma_total_sorted(joined, holding(i));
    }
}

/// Row `k + 1` has the first row's packages and half of row `k`'s.
proof fn lemma_row_len(p: Seq<(u8, u64)>, k: nat)
    ensures
        row_at(p, 0).len() == p.len(),
        row_at(p, k + 1).len() == p.len() + row_at(p, k).len() / 2,
{
    lemma_sorted_elements(first_row(p) + paired(row_at(p, k)));
}

/// With at most `2^h` symbols, row `k` below `h` misses at most `2^(h - k) - 2` of the
/// `2n - 2` packages the code lengths are read from.
proof fn lemma_row_len_bound(p: Seq<(u8, u64)>, k: nat, h: nat)
    requires
        k < h,
        p.len() <= pow2(h),
    ensures
        row_at(p, k).len() + pow2((h - k) as nat) >= 2 * p.len(),
    decreases k,
{
    lemma_row_len(p, 0);
    if k > 0 {
        let km = (k - 1) as nat;
        lemma_row_len_bound(p, km, h);
        lemma_row_len(p, km);
        vstd::arithmetic::power2::lemma_pow2_unfold((h - km) as nat);
        assert(((h - km) - 1) as nat == (h - k) as nat);
    }
}

/// Package-merge finds code lengths of at most `height` bits for the bytes of a stream
/// whenever there is at least one byte value and no more than `2^height` of them.
pub proof fn lemma_lengths_found(bytes: Seq<u8>, height: u16)
    requires
        bytes.len() <= u64::MAX,
        height >= 1,
        1 <= leaves_of(bytes).len() <= pow2(height as nat),
    ensures
        planned(leaves_of(bytes), height) is Some,
{
    let leaves = leaves_of(bytes);
    lemma_leaf_count(bytes);
    let n = leaves.len();
    let sorted = sorted_by_chance(leaves);
    lemma_sorted_elements(keyed_by_chance(leaves));
    let p = symbol_weights(sorted);
    assert(p.len() == n);
    let h = height as nat;
    let last = row_at(p, (h - 1) as nat);
    lemma_row_len_bound(p, (h - 1) as nat, h);
    assert((h - (h - 1)) as nat == 1);
    vstd::arithmetic::power2::lemma_pow2_unfold(1);
    vstd::arithmetic::power2::lemma2_to64();
    let l = code_lengths(n, last);
    assert forall|i: int| 0 <= i < n implies l[i] <= height by {
        if n > 1 {
            let iu = i as usize;
            lemma_count_is_total(last.take(2 * n - 2), iu);
            lemma_total_prefix(last, 2 * n - 2, holding(iu));
            lemma_row_count(p, (h - 1) as nat, iu);
        }
    }
}

/// The tree that [`package_merge`] builds from the bytes of a stream.
pub open spec fn merged_tree(bytes: Seq<u8>, height: u16) -> Option<HuffmanNode<u8>> {
    if leaves_of(bytes).len() == 0 {
        Some(empty_node())
    } else {
        match planned(leaves_of(bytes), height) {
            Some((nodes, map)) => tree_from(empty_node(), nodes, map),
            None => None,
        }
    }
}

/// Sort the leaves by chance, run package-merge on them, give each leaf `u64::MAX` less its
/// code length as chance, sort them again (longest codes first) and map each symbol to its
/// code length.
fn plan_code_lengths(leaves: Vec<HuffmanNode<u8>>, height: u16, Ghost(bytes): Ghost<Seq<u8>>) -> (r:
    Option<(Vec<HuffmanNode<u8>>, HuffmanCodeMap)>)
    requires
        leaves@ == leaves_of(bytes),
        leaves@.len() > 0,
        bytes.len() <= u64::MAX,
        bytes.len() * height <= u64::MAX,
    ensures
        match r {
            Some((nodes, map)) => planned(leaves@, height) == Some((nodes@, map@)),
            None => planned(leaves@, height) is None,
        },
{
    let mut nodes = leaves;
    proof {
        lemma_leaves_shape(bytes);
        lemma_leaf_count(bytes);
        lemma_leaves_sum(bytes);
    }
    if too_many_symbols(nodes.len(), height) {
        return None;
    }
    if height == 0 {
        return None;
    }
    let ghost leaves = nodes@;
    proof {
        assert forall|i: int| 0 <= i < leaves.len() implies (#[trigger] leaves[i]).total_chance()
            <= u64::MAX by {
            assert(leaves[i].total_chance() == leaves[i].chance);
        }
    }
    nodes = sort_nodes_by_chance(nodes);
    let ghost sorted = nodes@;
    proof {
        lemma_sorted_by_chance(leaves);
        assert forall|i: int| 0 <= i < sorted.len() implies (#[trigger] sorted[i]).content is Some
            && sorted[i].left is None && sorted[i].right is None by {
            let u = choose|u: int| 0 <= u < leaves.len() && leaves[u] == sorted[i];
        }
    }
    let p = create_p(&nodes);
    let q_0 = populate_first_q_row(&p);
    proof {
        lemma_weights_sum(sorted);
        assert(total(first_row(p@), by_weight()) == bytes.len());
        assert(height * bytes.len() <= u64::MAX) by (nonlinear_arith)
            requires bytes.len() * height <= u64::MAX;
    }
    let last = calculate_further_q_rows(&q_0, &p, height);
    proof {
        lemma_row_bounds(p@, (height - 1) as nat);
        assert(((height - 1) as nat + 1) * p@.len() <= height * bytes.len()) by (nonlinear_arith)
            requires p@.len() <= bytes.len(), height >= 1;
    }
    let l = match calculate_code_lengths(&last, nodes.len()) {
        Some(l) => l,
        None => return None,
    };
    let ghost lens = as_nats(l@);
    assert(code_lengths(nodes.len() as nat, row_view(last@)).len() == nodes.len());
    assert(lens.len() == l@.len());
    let map = match map_codes_to_code_length(&p, &l, &mut nodes, height) {
        Some(m) => m,
        None => {
            let ghost i = choose|i: int| 0 <= i < l.len() && !(l@[i] <= height);
            assert(lens[i] > height);
            return None;
        },
    };
    proof {
        assert(!exists|i: int| 0 <= i < leaves.len() && lens[i] > height);
        assert forall|i: int| 0 <= i < nodes@.len() implies (#[trigger] nodes@[i]).total_chance()
            <= u64::MAX by {
            assert(nodes@[i].total_chance() == nodes@[i].chance);
        }
    }
    nodes = sort_nodes_by_chance(nodes);
    Some((nodes, map))
}

/// Build a Huffman tree for the bytes of a stream whose codes are at most `height` bits
/// long, by the package-merge algorithm. An empty stream gives an empty tree. `None` where
/// there are more distinct bytes than `height`-bit codes can tell apart (or `height` is 0
/// and there is a byte); otherwise package-merge always finds code lengths of at most
/// `height` bits, and `None` comes only where no tree with those lengths comes out.
pub fn package_merge(stream: &mut BitStream, height: u16) -> (r: Option<HuffmanNode<u8>>)
    requires
        old(stream)@.bytes.len() * height <= u64::MAX,
    ensures
        r == merged_tree(old(stream)@.bytes, height),
        leaves_of(old(stream)@.bytes).len() > pow2(height as nat) ==> r is None,
        leaves_of(old(stream)@.bytes).len() > 0 && height == 0 ==> r is None,
        height >= 1 && 1 <= leaves_of(old(stream)@.bytes).len() <= pow2(height as nat)
            ==> planned(leaves_of(old(stream)@.bytes), height) is Some,
        *final(stream) == *old(stream),
{
    let ghost bytes = stream@.bytes;
    let byte_count = stream.data().len();
    assert(bytes.len() <= u64::MAX);
    proof {
        if height >= 1 && 1 <= leaves_of(bytes).len() <= pow2(height as nat) {
            lemma_lengths_found(bytes, height);
        }
    }
    let nodes = get_single_leaves(stream);
    if nodes.len() == 0 {
        return Some(HuffmanNode { chance: 0, content: None, left: None, right: None });
    }
    let (mut nodes, mut map) = match plan_code_lengths(nodes, height, Ghost(bytes)) {
        Some(plan) => plan,
        None => return None,
    };
    code_len_to_tree(&mut nodes, &mut map)
}

/// The state of code assignment after `k` of the nodes, taken from the last one back, have
/// their codes; see [`code_step`].
pub open spec fn codes_after(
    nodes: Seq<HuffmanNode<u8>>,
    k: nat,
    st: (Map<u8, HuffmanCode>, u16, bool),
) -> Option<(Map<u8, HuffmanCode>, u16, bool)>
    decreases k,
{
    if k == 0 {
        Some(st)
    } else {
        match codes_after(nodes, (k - 1) as nat, st) {
            Some(prev) => code_step(nodes, (k - 1) as nat, prev),
            None => None,
        }
    }
}

/// Give the `i`-th node from the back its code. The state holds the map, the current
/// code and whether no code has been given yet. Where the next node's code length differs
/// (and is not 0), this node's length grows by one and the code moves to the next length;
/// otherwise the code counts up by one. `None` where a symbol or its length is missing or a
/// number overflows.
pub open spec fn code_step(
    nodes: Seq<HuffmanNode<u8>>,
    i: nat,
    st: (Map<u8, HuffmanCode>, u16, bool),
) -> Option<(Map<u8, HuffmanCode>, u16, bool)> {
    let (m, code, start) = st;
    let n = nodes.len();
    let node = nodes[n - 1 - i];
    if node.content is None || !m.contains_key(node.content.unwrap()) {
        None
    } else if i + 1 < n && (nodes[n - i - 2].content is None || !m.contains_key(
        nodes[n - i - 2].content.unwrap(),
    )) {
        None
    } else {
        let val = node.content.unwrap();
        let len = m[val].0;
        let next_len: u8 = if i + 1 < n {
            m[nodes[n - i - 2].content.unwrap()].0
        } else {
            0
        };
        if len != next_len && next_len != 0 {
            if len == u8::MAX || (!start && code == u16::MAX) {
                None
            } else {
                let c: u16 = if !start {
                    ((code + 1) as u16) << 1u16
                } else {
                    code
                };
                Some((m.insert(val, ((len + 1) as u8, c)), c, false))
            }
        } else if !start {
            if code == u16::MAX {
                None
            } else {
                Some((m.insert(val, (len, (code + 1) as u16)), (code + 1) as u16, false))
            }
        } else {
            Some((m.insert(val, (len, code)), code, false))
        }
    }
}

/// The codes [`nodes_to_code`] writes into `map`; `None` where it cannot: where `2^height`
/// is the number of nodes (a code of ones only could not be avoided), where `2^height`
/// does not fit an `i32`, or where a step fails.
pub open spec fn assigned_codes(nodes: Seq<HuffmanNode<u8>>, map: Map<u8, HuffmanCode>, height: u16) -> Option<
    Map<u8, HuffmanCode>,
> {
    if height >= 31 || pow2(height as nat) == (nodes.len() as i32) {
        None
    } else {
        match codes_after(nodes, nodes.len(), (map, 0, true)) {
            Some(st) => Some(st.0),
            None => None,
        }
    }
}

/// Give the nodes, from the shortest code length to the longest, canonical codes that
/// avoid the code made of ones only. Returns whether it succeeded; see [`assigned_codes`].
fn nodes_to_code(nodes: &Vec<HuffmanNode<u8>>, map: &mut HuffmanCodeMap, height: u16) -> (r: bool)
    ensures
        r <==> assigned_codes(nodes@, old(map)@, height) is Some,
        r ==> final(map)@ == assigned_codes(nodes@, old(map)@, height).unwrap(),
{
    if height >= 31 {
        return false;
    }
    let mut pw: i32 = 1;
    let mut k: u16 = 0;
    proof {
        vstd::arithmetic::power2::lemma2_to64();
    }
    while k < height
        invariant
            k <= height < 31,
            pw == pow2(k as nat),
        decreases height - k,
    {
        proof {
            vstd::arithmetic::power2::lemma2_to64();
            vstd::arithmetic::power2::lemma_pow2_unfold((k + 1) as nat);
            if k + 1 < 31 {
                vstd::arithmetic::power2::lemma_pow2_strictly_increases((k + 1) as nat, 31);
            }
        }
        pw = pw * 2;
        k += 1;
    }
    let node_count: i32 = #[verifier::truncate] (nodes.len() as i32);
    if pw == node_count {
        return false;
    }
    let n = nodes.len();
    let ghost m0 = map@;
    let mut current_code: u16 = 0;
    let mut start = true;
    let mut i: usize = 0;
    while i < n
        invariant
            n == nodes.len(),
            i <= n,
            m0 == old(map)@,
            height < 31,
            pow2(height as nat) != (n as i32),
            codes_after(nodes@, i as nat, (m0, 0, true)) == Some((map@, current_code, start)),
        decreases n - i,
    {
        let node = &nodes[n - 1 - i];
        let val = match node.content {
            Some(v) => v,
            None => {
                proof {
                    lemma_codes_after_none(nodes@, (i + 1) as nat, n as nat, (m0, 0, true));
                }
                return false;
            },
        };
        let mut code_length: u8 = match map.get(&val) {
            Some(code) => code.0,
            None => {
                proof {
                    lemma_codes_after_none(nodes@, (i + 1) as nat, n as nat, (m0, 0, true));
                }
                return false;
            },
        };
        let next_node_code_length: u8 = if i < n - 1 {
            let key = match nodes[n - i - 2].content {
                Some(v) => v,
                None => {
                    proof {
                        lemma_codes_after_none(nodes@, (i + 1) as nat, n as nat, (m0, 0, true));
                    }
                    return false;
                },
            };
            match map.get(&key) {
                Some(code) => code.0,
                None => {
                    proof {
                        lemma_codes_after_none(nodes@, (i + 1) as nat, n as nat, (m0, 0, true));
                    }
                    return false;
                },
            }
        } else {
            0
        };
        if code_length != next_node_code_length && next_node_code_length != 0 {
            if code_length == u8::MAX || (!start && current_code == u16::MAX) {
                proof {
                    lemma_codes_after_none(nodes@, (i + 1) as nat, n as nat, (m0, 0, true));
                }
                return false;
            }
            code_length += 1;
            if !start {
                current_code += 1;
                current_code <<= 1;
            }
            start = false;
        } else if !start {
            if current_code == u16::MAX {
                proof {
                    lemma_codes_after_none(nodes@, (i + 1) as nat, n as nat, (m0, 0, true));
                }
                return false;
            }
            current_code += 1;
        } else {
            start = false;
        }
        map.insert(val, (code_length, current_code));
        i += 1;
    }
    true
}

/// Once a step fails, every later state is missing too.
proof fn lemma_codes_after_none(
    nodes: Seq<HuffmanNode<u8>>,
    k: nat,
    total_steps: nat,
    st: (Map<u8, HuffmanCode>, u16, bool),
)
    requires
        k <= total_steps,
        codes_after(nodes, k, st) is None,
    ensures
        codes_after(nodes, total_steps, st) is None,
    decreases total_steps - k,
{
    if k < total_steps {
        lemma_codes_after_none(nodes, k + 1, total_steps, st);
    }
}

/// The codes that package-merge with canonical code assignment gives the bytes of a
/// stream.
pub open spec fn experimental_codes(bytes: Seq<u8>, height: u16) -> Option<Map<u8, HuffmanCode>> {
    if leaves_of(bytes).len() == 0 {
        None
    } else {
        match planned(leaves_of(bytes), height) {
            Some((nodes, map)) => assigned_codes(nodes, map, height),
            None => None,
        }
    }
}

/// Compute code lengths by package-merge and give the symbols canonical codes of those
/// lengths directly, without building a tree. `None` for an empty stream and wherever the
/// code lengths or codes cannot be had (see [`experimental_codes`]).
pub fn package_merge_experimental(stream: &mut BitStream, height: u16) -> (r: Option<HuffmanCodeMap>)
    requires
        old(stream)@.bytes.len() * height <= u64::MAX,
    ensures
        match r {
            Some(m) => experimental_codes(old(stream)@.bytes, height) == Some(m@),
            None => experimental_codes(old(stream)@.bytes, height) is None,
        },
        *final(stream) == *old(stream),
{
    let ghost bytes = stream@.bytes;
    let byte_count = stream.data().len();
    assert(bytes.len() <= u64::MAX);
    let nodes = get_single_leaves(stream);
    if nodes.len() == 0 {
        return None;
    }
    let (nodes, mut map) = match plan_code_lengths(nodes, height, Ghost(bytes)) {
        Some(plan) => plan,
        None => return None,
    };
    if nodes_to_code(&nodes, &mut map, height) {
        Some(map)
    } else {
        None
    }
}

proof fn lemma_lengths_map_bound(p: Seq<(u8, u64)>, l: Seq<nat>, k: nat, h: nat)
    requires
        k <= l.len(),
        h < 256,
        forall|i: int| 0 <= i < k ==> l[i] <= h,
    ensures
        forall|c: u8| #[trigger] lengths_map(p, l, k).contains_key(c) ==> lengths_map(p, l, k)[c].0 <= h,
    decreases k,
{
    if k > 0 {
        lemma_lengths_map_bound(p, l, (k - 1) as nat, h);
        assert(l[k - 1] <= h);
        assert((l[k - 1] as u8) == l[k - 1]);
        let prev = lengths_map(p, l, (k - 1) as nat);
        let m = lengths_map(p, l, k);
        assert forall|c: u8| #[trigger] m.contains_key(c) implies m[c].0 <= h by {
            if c != p[k - 1].0 {
                assert(prev.contains_key(c));
                assert(m[c] == prev[c]);
            }
        }
    }
}

/// A tree built by package-merge for codes of at most `height` bits is at most
/// `height + 1` nodes deep.
pub proof fn lemma_merged_tree_depth(bytes: Seq<u8>, height: u16)
    requires
        bytes.len() <= u64::MAX,
        height < 256,
    ensures
        merged_tree(bytes, height) matches Some(t) ==> t.deepest() <= height + 1,
{
    let leaves = leaves_of(bytes);
    let n = leaves.len();
    if n == 0 {
        assert(empty_node().deepest() == 1);
    } else if let Some((nodes, map)) = planned(leaves, height) {
        lemma_leaves_shape(bytes);
        let sorted = sorted_by_chance(leaves);
        let p = symbol_weights(sorted);
        let last = row_at(p, (height - 1) as nat);
        let l = code_lengths(n, last);
        lemma_sorted_by_chance(leaves);
        let rel = relabeled(sorted, l);
        assert forall|i: int| 0 <= i < rel.len() implies (#[trigger] rel[i]).left is None
            && rel[i].right is None by {
            let u = choose|u: int| 0 <= u < leaves.len() && leaves[u] == sorted[i];
        }
        lemma_sorted_by_chance(rel);
        assert forall|i: int| 0 <= i < nodes.len() implies (#[trigger] nodes[i]).left is None
            && nodes[i].right is None by {
            let u = choose|u: int| 0 <= u < rel.len() && rel[u] == nodes[i];
        }
        assert(l.len() == n);
        lemma_lengths_map_bound(p, l, n, height as nat);
        assert(empty_node().deepest() == 1);
        crate::huffman::lemma_tree_from_depth(empty_node(), nodes, map, height as nat);
    }
}

/// With distinct symbols, each of the first `k` symbols maps to its own length.
proof fn lemma_lengths_map_at(p: Seq<(u8, u64)>, l: Seq<nat>, k: nat, i: int)
    requires
        0 <= i < k <= p.len(),
        forall|a: int, b: int| 0 <= a < b < k ==> (#[trigger] p[a]).0 != (#[trigger] p[b]).0,
    ensures
        lengths_map(p, l, k).contains_key(p[i].0),
        lengths_map(p, l, k)[p[i].0] == (l[i] as u8, 0u16),
    decreases k,
{
    if i < k - 1 {
        lemma_lengths_map_at(p, l, (k - 1) as nat, i);
        assert(p[i].0 != p[k - 1].0);
    }
}

/// The leaves package-merge plans come longest code first: each is a leaf with a symbol
/// that the plan maps to a length, and the lengths do not grow along them.
pub proof fn lemma_planned_order(bytes: Seq<u8>, height: u16)
    requires
        bytes.len() <= u64::MAX,
        height < 256,
        planned(leaves_of(bytes), height) is Some,
    ensures
        ({
            let (nodes, map) = planned(leaves_of(bytes), height).unwrap();
            &&& forall|k: int|
                0 <= k < nodes.len() ==> {
                    &&& (#[trigger] nodes[k]).content is Some
                    &&& nodes[k].left is None
                    &&& nodes[k].right is None
                    &&& map.contains_key(nodes[k].content.unwrap())
                }
            &&& forall|i: int, j: int|
                0 <= i < j < nodes.len() ==> map[(#[trigger] nodes[j]).content.unwrap()].0 <= map[(
                #[trigger] nodes[i]).content.unwrap()].0
        }),
{
    let leaves = leaves_of(bytes);
    let n = leaves.len();
    let height_n = height as nat;
    lemma_leaves_shape(bytes);
    let kl = keyed_by_chance(leaves);
    let sorted = sorted_by_chance(leaves);
    let p = symbol_weights(sorted);
    let last = row_at(p, (height - 1) as nat);
    let l = code_lengths(n, last);
    let rel = relabeled(sorted, l);
    let kr = keyed_by_chance(rel);
    let nodes = sorted_by_chance(rel);
    let map = lengths_map(p, l, n);
    assert(planned(leaves, height) == Some((nodes, map)));
    lemma_sorted_by_chance(leaves);
    assert(kl.no_duplicates()) by {
        assert forall|a: int, b: int| 0 <= a < kl.len() && 0 <= b < kl.len() && a != b implies kl[a]
            != kl[b] by {
            if a < b {
                assert(leaves[a].content != leaves[b].content);
            } else {
                assert(leaves[b].content != leaves[a].content);
            }
        }
    }
    lemma_sorted_no_duplicates(kl);
    lemma_sorted_elements(kl);
    assert forall|a: int, b: int| 0 <= a < b < n implies (#[trigger] p[a]).0 != (#[trigger] p[b]).0 by {
        let x = sorted_by_weight(kl)[a];
        let y = sorted_by_weight(kl)[b];
        assert(x != y);
        assert(kl.contains(x) && kl.contains(y));
        let u = choose|u: int| 0 <= u < kl.len() && kl[u] == x;
        let w = choose|w: int| 0 <= w < kl.len() && kl[w] == y;
        assert(u != w);
        if u < w {
            assert(leaves[u].content != leaves[w].content);
        } else {
            assert(leaves[w].content != leaves[u].content);
        }
        assert(sorted[a] == x.1 && sorted[b] == y.1);
        assert(leaves[u].content is Some && leaves[w].content is Some);
    }
    assert(l.len() == n);
    assert forall|i: int| 0 <= i < n implies l[i] <= height_n by {
        if l[i] > height_n {
            assert(exists|j: int| 0 <= j < n && l[j] > height);
        }
    }
    lemma_sorted_by_chance(rel);
    lemma_sorted_ordered(kr);
    lemma_sorted_elements(kr);
    assert forall|k: int| 0 <= k < nodes.len() implies exists|i: int|
        0 <= i < n && #[trigger] nodes[k] == rel[i] by {
        assert(rel.contains(nodes[k]));
    }
    assert forall|k: int| 0 <= k < nodes.len() implies {
        &&& (#[trigger] nodes[k]).content is Some
        &&& nodes[k].left is None
        &&& nodes[k].right is None
        &&& map.contains_key(nodes[k].content.unwrap())
        &&& map[nodes[k].content.unwrap()].0 == l[choose|i: int| 0 <= i < n && nodes[k] == rel[i]]
        &&& nodes[k].chance == u64::MAX - l[choose|i: int| 0 <= i < n && nodes[k] == rel[i]]
    } by {
        let i = choose|i: int| 0 <= i < n && nodes[k] == rel[i];
        assert(leaves.contains(sorted[i]));
        let u = choose|u: int| 0 <= u < leaves.len() && leaves[u] == sorted[i];
        assert(p[i].0 == sorted[i].content.unwrap());
        lemma_lengths_map_at(p, l, n, i);
        assert(l[i] <= height_n);
    }
    assert forall|a: int, b: int| 0 <= a < b < nodes.len() implies map[(
    #[trigger] nodes[b]).content.unwrap()].0 <= map[(#[trigger] nodes[a]).content.unwrap()].0 by {
        let ia = choose|i: int| 0 <= i < n && nodes[a] == rel[i];
        let ib = choose|i: int| 0 <= i < n && nodes[b] == rel[i];
        let xa = sorted_by_weight(kr)[a];
        let xb = sorted_by_weight(kr)[b];
        assert(xa.0 <= xb.0);
        assert(kr.contains(xa) && kr.contains(xb));
        let ua = choose|u: int| 0 <= u < kr.len() && kr[u] == xa;
        let ub = choose|u: int| 0 <= u < kr.len() && kr[u] == xb;
        assert(nodes[a] == xa.1 && nodes[b] == xb.1);
        assert(xa.0 == nodes[a].total_chance() as u64);
        assert(xb.0 == nodes[b].total_chance() as u64);
        assert(nodes[a].total_chance() == nodes[a].chance);
        assert(nodes[b].total_chance() == nodes[b].chance);
    }
}

} // verus!
