//! The shape of Huffman trees whose codes the canonical search decodes: symbols only at
//! leaves, and every leaf of a left subtree no deeper than every leaf of the right subtree.

use vstd::prelude::*;
use crate::bit_stream::BitStreamView;
use crate::huffman::{
    HuffmanNode, HuffmanCode, empty_node, max_nat, tree_from, tree_step, leaves_of, parsed_tree,
    encoded_bits, all_coded, lemma_moved_left_depth,
};
use crate::package_merge::{merged_tree, planned, lemma_planned_order, lemma_merged_tree_depth};
use crate::huffman_decoder::{
    two_to, codes_fit, codes_ordered, canonical_code, canonical_table, max_code_len, decoded_from,
    lemma_two_to_add, lemma_ordered_code_is_canonical, lemma_decode_inverts_encoding,
};

verus! {

/// The node `len` levels below `n` reached by the bits of `code`, most significant first,
/// 0 for left and 1 for right.
pub open spec fn node_at(n: HuffmanNode<u8>, len: nat, code: nat) -> Option<HuffmanNode<u8>>
    decreases len,
{
    if len == 0 {
        if code == 0 {
            Some(n)
        } else {
            None
        }
    } else {
        let half = two_to((len - 1) as nat);
        if code < half {
            match n.left {
                Some(l) => node_at(*l, (len - 1) as nat, code),
                None => None,
            }
        } else if code < 2 * half {
            match n.right {
                Some(r) => node_at(*r, (len - 1) as nat, (code - half) as nat),
                None => None,
            }
        } else {
            None
        }
    }
}

/// The symbol at that position, if a node there carries one.
pub open spec fn symbol_at(n: HuffmanNode<u8>, len: nat, code: nat) -> Option<u8> {
    match node_at(n, len, code) {
        Some(k) => k.content,
        None => None,
    }
}

/// Some node of `n` carries a symbol.
pub open spec fn has_symbol(n: HuffmanNode<u8>) -> bool
    decreases n,
{
    n.content is Some || (match n.left {
        Some(l) => has_symbol(*l),
        None => false,
    }) || (match n.right {
        Some(r) => has_symbol(*r),
        None => false,
    })
}

/// The length of the longest code of a symbol below `n`, relative to `n`.
pub open spec fn max_symbol_len(n: HuffmanNode<u8>) -> nat
    decreases n,
{
    let l = match n.left {
        Some(l) => if has_symbol(*l) {
            1 + max_symbol_len(*l)
        } else {
            0
        },
        None => 0,
    };
    let r = match n.right {
        Some(r) => if has_symbol(*r) {
            1 + max_symbol_len(*r)
        } else {
            0
        },
        None => 0,
    };
    if l >= r {
        l
    } else {
        r
    }
}

/// The length of the shortest code of a symbol below `n`, relative to `n`.
pub open spec fn min_symbol_len(n: HuffmanNode<u8>) -> nat
    decreases n,
{
    if n.content is Some {
        0
    } else {
        let l = match n.left {
            Some(l) => if has_symbol(*l) {
                Some(1 + min_symbol_len(*l))
            } else {
                None
            },
            None => None,
        };
        let r = match n.right {
            Some(r) => if has_symbol(*r) {
                Some(1 + min_symbol_len(*r))
            } else {
                None
            },
            None => None,
        };
        match (l, r) {
            (Some(a), Some(b)) => if a <= b {
                a
            } else {
                b
            },
            (Some(a), None) => a,
            (None, Some(b)) => b,
            (None, None) => 0,
        }
    }
}

/// Only nodes without children carry symbols.
pub open spec fn leaf_shaped(n: HuffmanNode<u8>) -> bool
    decreases n,
{
    &&& n.content is Some ==> n.left is None && n.right is None
    &&& match n.left {
        Some(l) => leaf_shaped(*l),
        None => true,
    }
    &&& match n.right {
        Some(r) => leaf_shaped(*r),
        None => true,
    }
}

/// At every node, the symbols of the left subtree have codes no longer than those of the
/// right subtree.
pub open spec fn ordered(n: HuffmanNode<u8>) -> bool
    decreases n,
{
    &&& match n.left {
        Some(l) => ordered(*l),
        None => true,
    }
    &&& match n.right {
        Some(r) => ordered(*r),
        None => true,
    }
    &&& match (n.left, n.right) {
        (Some(l), Some(r)) => has_symbol(*l) && has_symbol(*r) ==> max_symbol_len(*l)
            <= min_symbol_len(*r),
        _ => true,
    }
}

/// A symbol at a position lies within the code lengths of the tree.
proof fn lemma_symbol_len_bounds(n: HuffmanNode<u8>, len: nat, code: nat)
    requires
        symbol_at(n, len, code) is Some,
    ensures
        has_symbol(n),
        min_symbol_len(n) <= len <= max_symbol_len(n),
        code < two_to(len),
    decreases len,
{
    if len > 0 {
        let half = two_to((len - 1) as nat);
        if code < half {
            let l = *n.left.unwrap();
            lemma_symbol_len_bounds(l, (len - 1) as nat, code);
        } else {
            let r = *n.right.unwrap();
            lemma_symbol_len_bounds(r, (len - 1) as nat, (code - half) as nat);
        }
    }
}

/// In a leaf-shaped, ordered tree, a shorter code lies, as a range of codes of the longer
/// length, before each longer code.
pub proof fn lemma_positions_ordered(n: HuffmanNode<u8>, l1: nat, c1: nat, l2: nat, c2: nat)
    requires
        leaf_shaped(n),
        ordered(n),
        symbol_at(n, l1, c1) is Some,
        symbol_at(n, l2, c2) is Some,
        l1 < l2,
    ensures
        (c1 + 1) * two_to((l2 - l1) as nat) <= c2,
    decreases l1,
{
    let g = two_to((l2 - l1) as nat);
    if l1 == 0 {
        assert(n.content is Some);
        assert(l2 > 0);
        assert(node_at(n, l2, c2) is None);
    } else {
        let h1 = two_to((l1 - 1) as nat);
        let h2 = two_to((l2 - 1) as nat);
        lemma_two_to_add((l1 - 1) as nat, (l2 - l1) as nat);
        assert(h2 == h1 * g);
        lemma_symbol_len_bounds(n, l1, c1);
        lemma_symbol_len_bounds(n, l2, c2);
        if c1 < h1 && c2 < h2 {
            let l = *n.left.unwrap();
            lemma_positions_ordered(l, (l1 - 1) as nat, c1, (l2 - 1) as nat, c2);
        } else if c1 >= h1 && c2 >= h2 {
            let r = *n.right.unwrap();
            lemma_positions_ordered(r, (l1 - 1) as nat, (c1 - h1) as nat, (l2 - 1) as nat, (c2 - h2) as nat);
            assert((c1 + 1) * g <= c2) by (nonlinear_arith)
                requires
                    (c1 - h1 + 1) * g <= c2 - h2,
                    h2 == h1 * g,
                    c1 >= h1,
                    c2 >= h2,
            ;
        } else if c1 < h1 {
            assert((c1 + 1) * g <= c2) by (nonlinear_arith)
                requires c1 + 1 <= h1, h2 == h1 * g, c2 >= h2, g >= 0;
        } else {
            let l = *n.left.unwrap();
            let r = *n.right.unwrap();
            lemma_symbol_len_bounds(l, (l2 - 1) as nat, c2);
            lemma_symbol_len_bounds(r, (l1 - 1) as nat, (c1 - h1) as nat);
            assert(false);
        }
    }
}

/// Each code the map gets from `n`, whose own code is `code` of `len` bits, is the code of
/// a position of `n` carrying that symbol; every other entry is the map's.
pub proof fn lemma_codes_into_positions(n: HuffmanNode<u8>, m: Map<u8, HuffmanCode>, code: u16, len: u8)
    requires
        (code as nat) < two_to(len as nat),
        len + n.deepest() <= 17,
    ensures
        forall|x: u8|
            #[trigger] n.codes_into(m, code, len).contains_key(x) ==> (m.contains_key(x) && n.codes_into(
                m,
                code,
                len,
            )[x] == m[x]) || exists|l: nat, c: nat|
                #[trigger] symbol_at(n, l, c) == Some(x) && len + l <= 16 && code * two_to(l) + c
                    < two_to(len as nat + l) && n.codes_into(m, code, len)[x] == (
                    (len + l) as u8,
                    (code * two_to(l) + c) as u16,
                ),
    decreases n,
{
    let m1 = match n.content {
        Some(c0) => m.insert(c0, (len, code)),
        None => m,
    };
    assert forall|x: u8| #[trigger] m1.contains_key(x) implies (m.contains_key(x) && m1[x] == m[x])
        || exists|l: nat, c: nat|
        #[trigger] symbol_at(n, l, c) == Some(x) && len + l <= 16 && code * two_to(l) + c < two_to(
            len as nat + l,
        ) && m1[x] == ((len + l) as u8, (code * two_to(l) + c) as u16) by {
        if n.content == Some(x) {
            assert(symbol_at(n, 0, 0) == Some(x));
            assert(two_to(0) == 1);
            assert(code * two_to(0) + 0 == code);
        }
    }
    if n.left is Some || n.right is Some {
        match n.left {
            Some(l) => assert(l.deepest() >= 1),
            None => {},
        }
        match n.right {
            Some(r) => assert(r.deepest() >= 1),
            None => {},
        }
        assert(n.deepest() >= 2);
        assert(len <= 15);
        assert(code < 32768) by {
            crate::huffman_decoder::lemma_two_to_mono(len as nat, 15);
            reveal_with_fuel(two_to, 16);
        }
        assert((code << 1u16) == code * 2 && ((code << 1u16) + 1) as u16 == code * 2 + 1) by (
        bit_vector)
            requires
                code < 32768,
        ;
    }
    let m2 = match n.left {
        Some(l) => l.codes_into(m1, code << 1u16, (len + 1) as u8),
        None => m1,
    };
    let m3 = match n.right {
        Some(r) => r.codes_into(m2, ((code << 1u16) + 1) as u16, (len + 1) as u8),
        None => m2,
    };
    assert(m3 == n.codes_into(m, code, len));
    let inner = |mm: Map<u8, HuffmanCode>|
        forall|x: u8|
            #[trigger] mm.contains_key(x) ==> (m.contains_key(x) && mm[x] == m[x]) || exists|
                l: nat,
                c: nat,
            |
                #[trigger] symbol_at(n, l, c) == Some(x) && len + l <= 16 && code * two_to(l) + c
                    < two_to(len as nat + l) && mm[x] == ((len + l) as u8, (code * two_to(l) + c) as u16);
    assert(inner(m1));
    match n.left {
        Some(lb) => {
            let lt = *lb;
            let c2 = (code * 2) as u16;
            assert(c2 < two_to((len + 1) as nat));
            assert(lt.deepest() < n.deepest());
            lemma_codes_into_positions(lt, m1, c2, (len + 1) as u8);
            assert forall|x: u8| #[trigger] m2.contains_key(x) implies (m.contains_key(x) && m2[x]
                == m[x]) || exists|l: nat, c: nat|
                #[trigger] symbol_at(n, l, c) == Some(x) && len + l <= 16 && code * two_to(l) + c
                    < two_to(len as nat + l) && m2[x] == ((len + l) as u8, (code * two_to(l) + c) as u16) by {
                if !(m1.contains_key(x) && m2[x] == m1[x]) {
                    let (l, c) = choose|l: nat, c: nat|
                        #[trigger] symbol_at(lt, l, c) == Some(x) && len + 1 + l <= 16 && c2
                            * two_to(l) + c < two_to(len as nat + 1 + l) && m2[x] == (
                            (len + 1 + l) as u8,
                            (c2 * two_to(l) + c) as u16,
                        );
                    lemma_symbol_len_bounds(lt, l, c);
                    assert(two_to(l + 1) == 2 * two_to(l));
                    assert(symbol_at(n, l + 1, c) == Some(x));
                    assert(code * two_to(l + 1) + c == c2 * two_to(l) + c) by (nonlinear_arith)
                        requires c2 == code * 2, two_to(l + 1) == 2 * two_to(l);
                    assert(len + (l + 1) == len + 1 + l);
                }
            }
        },
        None => {},
    }
    assert(inner(m2));
    match n.right {
        Some(rb) => {
            let rt = *rb;
            let c3 = (code * 2 + 1) as u16;
            assert(c3 < two_to((len + 1) as nat));
            assert(rt.deepest() < n.deepest());
            lemma_codes_into_positions(rt, m2, c3, (len + 1) as u8);
            assert forall|x: u8| #[trigger] m3.contains_key(x) implies (m.contains_key(x) && m3[x]
                == m[x]) || exists|l: nat, c: nat|
                #[trigger] symbol_at(n, l, c) == Some(x) && len + l <= 16 && code * two_to(l) + c
                    < two_to(len as nat + l) && m3[x] == ((len + l) as u8, (code * two_to(l) + c) as u16) by {
                if !(m2.contains_key(x) && m3[x] == m2[x]) {
                    let (l, c) = choose|l: nat, c: nat|
                        #[trigger] symbol_at(rt, l, c) == Some(x) && len + 1 + l <= 16 && c3
                            * two_to(l) + c < two_to(len as nat + 1 + l) && m3[x] == (
                            (len + 1 + l) as u8,
                            (c3 * two_to(l) + c) as u16,
                        );
                    lemma_symbol_len_bounds(rt, l, c);
                    assert(two_to(l + 1) == 2 * two_to(l));
                    let cc = two_to(l) + c;
                    assert(symbol_at(n, l + 1, cc) == Some(x));
                    assert(code * two_to(l + 1) + cc == c3 * two_to(l) + c) by (nonlinear_arith)
                        requires
                            c3 == code * 2 + 1,
                            two_to(l + 1) == 2 * two_to(l),
                            cc == two_to(l) + c,
                    ;
                    assert(len + (l + 1) == len + 1 + l);
                }
            }
        },
        None => {},
    }
}

/// A value below 2 to the `l` has no bit at or above position `l`.
proof fn lemma_shr_below(v: u16, l: nat)
    requires
        l < 16,
        (v as nat) < two_to(l),
    ensures
        v >> (l as u16) == 0,
    decreases l,
{
    if l == 0 {
        assert(v == 0);
        assert(0u16 >> 0u16 == 0) by (bit_vector);
    } else {
        let w = v >> 1u16;
        assert((v >> 1u16) == v / 2) by (bit_vector);
        assert(two_to(l) == 2 * two_to((l - 1) as nat));
        lemma_shr_below(w, (l - 1) as nat);
        let k = (l - 1) as u16;
        assert((v >> 1u16) >> k == v >> ((k + 1) as u16)) by (bit_vector)
            requires k < 15;
    }
}

/// The codes of a leaf-shaped, ordered tree of at most 17 levels without a symbol at its
/// root fit their lengths and lie in order of their length: the canonical search decodes
/// them.
pub proof fn lemma_tree_codes_canonical(t: HuffmanNode<u8>)
    requires
        t.deepest() <= 17,
        t.content is None,
        leaf_shaped(t),
        ordered(t),
    ensures
        codes_fit(t.codes()),
        codes_ordered(t.codes()),
        canonical_code(t.codes()),
{
    let m = t.codes();
    assert(two_to(0) == 1);
    lemma_codes_into_positions(t, Map::empty(), 0, 0);
    assert forall|x: u8| #[trigger] m.contains_key(x) implies exists|l: nat, c: nat|
        #[trigger] symbol_at(t, l, c) == Some(x) && 1 <= l <= 16 && c < two_to(l) && m[x] == (
            l as u8,
            c as u16,
        ) by {
        let (l, c) = choose|l: nat, c: nat|
            #[trigger] symbol_at(t, l, c) == Some(x) && 0 + l <= 16 && 0 * two_to(l) + c < two_to(
                0 + l,
            ) && m[x] == ((0 + l) as u8, (0 * two_to(l) + c) as u16);
        assert(0 * two_to(l) + c == c);
        assert(l != 0);
    }
    assert forall|x: u8| #[trigger] m.contains_key(x) implies 1 <= m[x].0 <= 16 && (m[x].0 < 16 ==> (
    m[x].1 >> (m[x].0 as u16)) == 0) by {
        let (l, c) = choose|l: nat, c: nat|
            #[trigger] symbol_at(t, l, c) == Some(x) && 1 <= l <= 16 && c < two_to(l) && m[x] == (
                l as u8,
                c as u16,
            );
        crate::huffman_decoder::lemma_two_to_mono(l, 16);
        crate::huffman_decoder::lemma_two_to_16();
        if l < 16 {
            lemma_shr_below(c as u16, l);
        }
    }
    assert forall|a: u8, b: u8|
        #[trigger] m.contains_key(a) && #[trigger] m.contains_key(b) && m[a].0 < m[b].0 implies (m[a].1
        + 1) * two_to((m[b].0 - m[a].0) as nat) <= m[b].1 by {
        let (la, ca) = choose|l: nat, c: nat|
            #[trigger] symbol_at(t, l, c) == Some(a) && 1 <= l <= 16 && c < two_to(l) && m[a] == (
                l as u8,
                c as u16,
            );
        let (lb, cb) = choose|l: nat, c: nat|
            #[trigger] symbol_at(t, l, c) == Some(b) && 1 <= l <= 16 && c < two_to(l) && m[b] == (
                l as u8,
                c as u16,
            );
        crate::huffman_decoder::lemma_two_to_mono(la, 16);
        crate::huffman_decoder::lemma_two_to_mono(lb, 16);
        crate::huffman_decoder::lemma_two_to_16();
        lemma_positions_ordered(t, la, ca, lb, cb);
    }
    assert forall|a: u8, b: u8|
        #[trigger] m.contains_key(a) && #[trigger] m.contains_key(b) && a != b implies m[a] != m[b] by {
        let (la, ca) = choose|l: nat, c: nat|
            #[trigger] symbol_at(t, l, c) == Some(a) && 1 <= l <= 16 && c < two_to(l) && m[a] == (
                l as u8,
                c as u16,
            );
        let (lb, cb) = choose|l: nat, c: nat|
            #[trigger] symbol_at(t, l, c) == Some(b) && 1 <= l <= 16 && c < two_to(l) && m[b] == (
                l as u8,
                c as u16,
            );
        crate::huffman_decoder::lemma_two_to_mono(la, 16);
        crate::huffman_decoder::lemma_two_to_mono(lb, 16);
        crate::huffman_decoder::lemma_two_to_16();
        if m[a] == m[b] {
            assert(la == lb && ca == cb);
        }
    }
    lemma_ordered_code_is_canonical(m);
}

/// A node without a right child has no left child either.
pub open spec fn right_first(n: HuffmanNode<u8>) -> bool
    decreases n,
{
    &&& n.right is None ==> n.left is None
    &&& match n.left {
        Some(l) => right_first(*l),
        None => true,
    }
    &&& match n.right {
        Some(r) => right_first(*r),
        None => true,
    }
}

/// `t` less one, and 0 for 0.
pub open spec fn below(t: nat) -> nat {
    if t == 0 {
        0
    } else {
        (t - 1) as nat
    }
}

/// At every node, where the left subtree carries a symbol, the right subtree has no free
/// place for a code of up to `t` bits counted from that node.
pub open spec fn full_after_left(n: HuffmanNode<u8>, t: nat) -> bool
    decreases n,
{
    &&& match n.left {
        Some(l) => t >= 2 && has_symbol(*l) ==> match n.right {
            Some(r) => !r.has_space((t - 2) as nat, false),
            None => false,
        },
        None => true,
    }
    &&& match n.left {
        Some(l) => full_after_left(*l, below(t)),
        None => true,
    }
    &&& match n.right {
        Some(r) => full_after_left(*r, below(t)),
        None => true,
    }
}

/// The shape of a tree that leaves of codes of `t` bits or fewer are placed into, longest
/// first: leaf-shaped, ordered, filled right first, full on the right where the left is
/// used, and with codes of at least `t` bits.
pub open spec fn built_shape(n: HuffmanNode<u8>, t: nat) -> bool {
    &&& leaf_shaped(n)
    &&& ordered(n)
    &&& right_first(n)
    &&& full_after_left(n, t)
    &&& has_symbol(n) ==> min_symbol_len(n) >= t
}

proof fn lemma_space_mono(n: HuffmanNode<u8>, k: nat, k2: nat)
    requires
        n.has_space(k, false),
        k <= k2,
    ensures
        n.has_space(k2, false),
    decreases n,
{
    if n.content is None && n.right is Some && n.left is Some && k > 0 {
        let l = *n.left.unwrap();
        let r = *n.right.unwrap();
        if l.has_space((k - 1) as nat, false) {
            lemma_space_mono(l, (k - 1) as nat, (k2 - 1) as nat);
        } else {
            lemma_space_mono(r, (k - 1) as nat, (k2 - 1) as nat);
        }
    }
}

proof fn lemma_full_mono(n: HuffmanNode<u8>, t: nat, t2: nat)
    requires
        full_after_left(n, t),
        t2 <= t,
    ensures
        full_after_left(n, t2),
    decreases n,
{
    match n.left {
        Some(l) => {
            lemma_full_mono(*l, below(t), below(t2));
            if t2 >= 2 && has_symbol(*l) {
                let r = *n.right.unwrap();
                if r.has_space((t2 - 2) as nat, false) {
                    lemma_space_mono(r, (t2 - 2) as nat, (t - 2) as nat);
                }
            }
        },
        None => {},
    }
    match n.right {
        Some(r) => lemma_full_mono(*r, below(t), below(t2)),
        None => {},
    }
}

/// Placing a leaf into a tree of that shape, at a code length no longer than any before,
/// keeps the shape, with the new length as bound; the new longest code is no longer than
/// the old one or the leaf's.
pub proof fn lemma_placed_shape(n: HuffmanNode<u8>, leaf: HuffmanNode<u8>, r: nat, t: nat)
    requires
        built_shape(n, t),
        n.content is None,
        leaf.content is Some,
        leaf.left is None,
        leaf.right is None,
        r + 1 <= t,
        n.placed(leaf, r) is Some,
    ensures
        built_shape(n.placed(leaf, r).unwrap(), r + 1),
        has_symbol(n.placed(leaf, r).unwrap()),
        n.placed(leaf, r).unwrap().content is None,
        max_symbol_len(n.placed(leaf, r).unwrap()) <= max_nat(max_symbol_len(n), r + 1),
    decreases r,
{
    let n2 = n.placed(leaf, r).unwrap();
    assert(has_symbol(leaf));
    assert(max_symbol_len(leaf) == 0);
    assert(min_symbol_len(leaf) == 0);
    assert(leaf_shaped(leaf) && ordered(leaf) && right_first(leaf));
    assert(full_after_left(leaf, 0));
    if r == 0 {
        if n.right is None {
            assert(n.left is None);
            assert(n2 == HuffmanNode { right: Some(Box::new(leaf)), ..n });
            assert(full_after_left(n2, 1));
            assert(min_symbol_len(n2) == 1);
        } else {
            let rt = *n.right.unwrap();
            assert(n.left is None);
            assert(n2 == HuffmanNode { left: Some(Box::new(leaf)), ..n });
            lemma_full_mono(rt, below(t), 0);
            assert(full_after_left(rt, below(1)));
            assert(full_after_left(n2, 1));
            assert(min_symbol_len(n2) >= 1);
        }
    } else if n.right is None && n.left is None {
        let c = empty_node().placed(leaf, (r - 1) as nat).unwrap();
        assert(built_shape(empty_node(), r));
        lemma_placed_shape(empty_node(), leaf, (r - 1) as nat, r);
        assert(n2.right == Some(Box::new(c)));
    } else if n.right is Some && n.right.unwrap().has_space((r - 1) as nat, false) {
        let rt = *n.right.unwrap();
        let c = rt.placed(leaf, (r - 1) as nat).unwrap();
        assert(built_shape(rt, below(t)));
        lemma_placed_shape(rt, leaf, (r - 1) as nat, below(t));
        lemma_space_mono(rt, (r - 1) as nat, (t - 2) as nat);
        match n.left {
            Some(lb) => {
                let lt = *lb;
                assert(!has_symbol(lt));
                lemma_full_mono(lt, below(t), r);
            },
            None => {},
        }
        assert(n2.right == Some(Box::new(c)));
    } else if n.left is Some && n.left.unwrap().has_space((r - 1) as nat, false) {
        let lt = *n.left.unwrap();
        let rt = *n.right.unwrap();
        let c = lt.placed(leaf, (r - 1) as nat).unwrap();
        assert(built_shape(lt, below(t)));
        lemma_placed_shape(lt, leaf, (r - 1) as nat, below(t));
        lemma_full_mono(rt, below(t), r);
        assert(n2.left == Some(Box::new(c)));
        assert(!rt.has_space((r - 1) as nat, false));
    } else {
        let rt = *n.right.unwrap();
        let c = empty_node().placed(leaf, (r - 1) as nat).unwrap();
        assert(built_shape(empty_node(), r));
        lemma_placed_shape(empty_node(), leaf, (r - 1) as nat, r);
        lemma_full_mono(rt, below(t), r);
        assert(n2.left == Some(Box::new(c)));
        assert(!rt.has_space((r - 1) as nat, false));
    }
}

/// Placing leaves one after the other, longest code first, into a tree of that shape gives
/// a leaf-shaped, ordered tree filled right first, still without a symbol at its root.
pub proof fn lemma_tree_from_shape(root: HuffmanNode<u8>, nodes: Seq<HuffmanNode<u8>>, map: Map<u8, HuffmanCode>, b: nat)
    requires
        built_shape(root, b),
        root.content is None,
        forall|k: int|
            0 <= k < nodes.len() ==> (#[trigger] nodes[k]).content is Some && nodes[k].left is None
                && nodes[k].right is None,
        forall|i: int, j: int|
            0 <= i < j < nodes.len() ==> map[(#[trigger] nodes[j]).content.unwrap()].0 <= map[(
            #[trigger] nodes[i]).content.unwrap()].0,
        nodes.len() > 0 ==> map[nodes[0].content.unwrap()].0 <= b,
        tree_from(root, nodes, map) is Some,
    ensures
        leaf_shaped(tree_from(root, nodes, map).unwrap()),
        ordered(tree_from(root, nodes, map).unwrap()),
        right_first(tree_from(root, nodes, map).unwrap()),
        tree_from(root, nodes, map).unwrap().content is None,
    decreases nodes.len(),
{
    if nodes.len() > 0 {
        let leaf = nodes[0];
        let c = leaf.content.unwrap();
        let len = map[c].0;
        assert(tree_step(root, leaf, map) is Some);
        assert(map.contains_key(c) && len >= 1);
        let r2 = root.placed(leaf, (len - 1) as nat).unwrap();
        lemma_placed_shape(root, leaf, (len - 1) as nat, b);
        let rest = nodes.skip(1);
        assert forall|k: int| 0 <= k < rest.len() implies (#[trigger] rest[k]).content is Some
            && rest[k].left is None && rest[k].right is None by {
            assert(rest[k] == nodes[k + 1]);
        }
        assert forall|i: int, j: int| 0 <= i < j < rest.len() implies map[(
        #[trigger] rest[j]).content.unwrap()].0 <= map[(#[trigger] rest[i]).content.unwrap()].0 by {
            assert(rest[i] == nodes[i + 1] && rest[j] == nodes[j + 1]);
        }
        if rest.len() > 0 {
            assert(rest[0] == nodes[1]);
        }
        lemma_tree_from_shape(r2, rest, map, len as nat);
    }
}

/// Moving the rightmost leaf of a tree filled right first one level down, to the left,
/// keeps the tree leaf-shaped and ordered, and its codes no shorter.
proof fn lemma_moved_left_shape(n: HuffmanNode<u8>)
    requires
        leaf_shaped(n),
        ordered(n),
        right_first(n),
    ensures
        leaf_shaped(n.with_rightmost_moved_left()),
        ordered(n.with_rightmost_moved_left()),
        has_symbol(n.with_rightmost_moved_left()) == has_symbol(n),
        has_symbol(n) ==> min_symbol_len(n.with_rightmost_moved_left()) >= min_symbol_len(n),
    decreases n,
{
    let n2 = n.with_rightmost_moved_left();
    match n.right {
        Some(rb) => {
            let r = *rb;
            lemma_moved_left_shape(r);
            assert(n.content is None);
            assert(n2 == HuffmanNode { right: Some(Box::new(r.with_rightmost_moved_left())), ..n });
        },
        None => {
            assert(n.left is None);
            let leaf = HuffmanNode { chance: n.chance, content: n.content, left: None, right: None };
            assert(n2 == HuffmanNode {
                chance: 0,
                content: None,
                left: Some(Box::new(leaf)),
                right: None,
            });
            assert(has_symbol(leaf) == (n.content is Some));
            assert(leaf_shaped(leaf) && ordered(leaf));
            assert(max_symbol_len(leaf) == 0 && min_symbol_len(leaf) == 0);
        },
    }
}

/// Removing the code of only ones keeps a leaf-shaped, ordered tree filled right first
/// leaf-shaped and ordered, without a symbol at its root.
pub proof fn lemma_without_only_ones_shape(n: HuffmanNode<u8>)
    requires
        leaf_shaped(n),
        ordered(n),
        right_first(n),
        n.content is None,
    ensures
        leaf_shaped(n.without_only_ones_code()),
        ordered(n.without_only_ones_code()),
        n.without_only_ones_code().content is None,
{
    if n.right is Some {
        lemma_moved_left_shape(n);
        let r = *n.right.unwrap();
        assert(n.with_rightmost_moved_left() == HuffmanNode {
            right: Some(Box::new(r.with_rightmost_moved_left())),
            ..n
        });
    }
}

/// No code of `m` is all one bits.
pub open spec fn no_all_ones_code(m: Map<u8, HuffmanCode>) -> bool {
    forall|x: u8| #[trigger] m.contains_key(x) ==> m[x].1 + 1 != two_to(m[x].0 as nat)
}

/// After moving the rightmost node of a leaf-shaped tree to the left, no symbol sits where
/// a code of only ones leads.
proof fn lemma_no_symbol_on_ones(n: HuffmanNode<u8>, l: nat)
    requires
        leaf_shaped(n),
    ensures
        symbol_at(n.with_rightmost_moved_left(), l, (two_to(l) - 1) as nat) is None,
    decreases n,
{
    let w = n.with_rightmost_moved_left();
    lemma_two_to_add(l, 0);
    if l > 0 {
        let half = two_to((l - 1) as nat);
        lemma_two_to_add((l - 1) as nat, 0);
        assert(two_to(l) == 2 * half);
        let code = (two_to(l) - 1) as nat;
        assert(half <= code < 2 * half);
        match n.right {
            Some(r) => {
                assert(w.right == Some(Box::new(r.with_rightmost_moved_left())));
                lemma_no_symbol_on_ones(*r, (l - 1) as nat);
                assert((code - half) as nat == (two_to((l - 1) as nat) - 1) as nat);
            },
            None => {},
        }
    } else {
        assert(two_to(0) == 1);
    }
}

/// A leaf-shaped tree of at most 17 levels without a symbol at its root gives, once its
/// code of only ones is removed, no code of only ones.
proof fn lemma_without_only_ones_codes(n: HuffmanNode<u8>)
    requires
        leaf_shaped(n),
        n.content is None,
        n.without_only_ones_code().deepest() <= 17,
    ensures
        no_all_ones_code(n.without_only_ones_code().codes()),
{
    let t = n.without_only_ones_code();
    let m = t.codes();
    assert(two_to(0) == 1);
    lemma_codes_into_positions(t, Map::empty(), 0, 0);
    assert forall|x: u8| #[trigger] m.contains_key(x) implies m[x].1 + 1 != two_to(
        m[x].0 as nat,
    ) by {
        let (l, c) = choose|l: nat, c: nat|
            #[trigger] symbol_at(t, l, c) == Some(x) && 0 + l <= 16 && 0 * two_to(l) + c < two_to(
                0 + l,
            ) && m[x] == ((0 + l) as u8, (0 * two_to(l) + c) as u16);
        assert(0 * two_to(l) + c == c);
        crate::huffman_decoder::lemma_two_to_mono(l, 16);
        crate::huffman_decoder::lemma_two_to_16();
        assert(m[x].0 == l && m[x].1 == c);
        if c + 1 == two_to(l) {
            if n.right is Some {
                lemma_no_symbol_on_ones(n, l);
            } else {
                if l > 0 {
                    let half = two_to((l - 1) as nat);
                    assert(two_to(l) == 2 * half);
                    lemma_two_to_add((l - 1) as nat, 0);
                    assert(c >= half);
                }
            }
            assert(false);
        }
    }
}

/// The codes of every tree the encoder builds lie in order of their length, so the
/// canonical search decodes them, and none of them is all one bits.
pub proof fn lemma_parsed_tree_canonical(bytes: Seq<u8>)
    requires
        bytes.len() * 15 <= u64::MAX,
    ensures
        parsed_tree(bytes) matches Some(t) ==> canonical_code(t.codes()) && no_all_ones_code(
            t.codes(),
        ),
{
    if let Some(m) = merged_tree(bytes, 15) {
        if leaves_of(bytes).len() == 0 {
            assert(m == empty_node());
        } else {
            let (nodes, map) = planned(leaves_of(bytes), 15).unwrap();
            lemma_planned_order(bytes, 15);
            assert(built_shape(empty_node(), 255));
            assert(m == tree_from(empty_node(), nodes, map).unwrap());
            lemma_tree_from_shape(empty_node(), nodes, map, 255);
        }
        lemma_without_only_ones_shape(m);
        lemma_merged_tree_depth(bytes, 15);
        lemma_moved_left_depth(m);
        let t = m.without_only_ones_code();
        lemma_tree_codes_canonical(t);
        lemma_without_only_ones_codes(m);
    }
}

/// Decoding gives back what was encoded: the stream the encoder writes for `bytes` decodes,
/// under the code the encoder returns with it, to those bytes, and is left empty.
pub proof fn lemma_decode_after_encode(bytes: Seq<u8>, t: HuffmanNode<u8>, s: BitStreamView)
    requires
        bytes.len() * 15 <= u64::MAX,
        parsed_tree(bytes) == Some(t),
        all_coded(bytes, t.codes()),
        s.wf(),
        s.bits() == encoded_bits(bytes, t.codes()),
    ensures
        decoded_from(s, canonical_table(t.codes()), max_code_len(t.codes())) matches Some(
            (out, rest),
        ) && out == bytes && rest.is_empty(),
{
    lemma_parsed_tree_canonical(bytes);
    lemma_decode_inverts_encoding(t.codes(), bytes, s);
}

} // verus!
