//! Huffman trees: building them from symbol counts and code lengths, and reading the
//! code of each symbol off a tree.

use vstd::prelude::*;
use std::collections::HashMap;
use crate::bit_stream::BitStream;
use crate::bits::low_bits_u16;
use crate::package_merge::{merged_tree, package_merge, lemma_merged_tree_depth};

verus! {

broadcast use vstd::std_specs::hash::group_hash_axioms;

/// A huffman-encoded value, containing both the code length and code.
pub type HuffmanCode = (u8, u16);

/// A map mapping input values to their respective huffman encoded version
pub type HuffmanCodeMap = HashMap<u8, HuffmanCode>;

/// A node of a Huffman tree. Leaves carry a symbol in `content`; the path from the root to a
/// leaf, 0 for left and 1 for right, is the symbol's code.
#[derive(PartialEq, Debug)]
pub struct HuffmanNode<T: PartialEq> {
    pub chance: u64,
    pub content: Option<T>,
    pub left: Option<Box<HuffmanNode<T>>>,
    pub right: Option<Box<HuffmanNode<T>>>,
}

impl<T: PartialEq> HuffmanNode<T> {
    /// The symbol held by this node, if it is a leaf.
    pub fn content(&self) -> (r: &Option<T>)
        ensures
            *r == self.content,
    {
        &self.content
    }

    /// The left child.
    pub fn left(&self) -> (r: &Option<Box<HuffmanNode<T>>>)
        ensures
            *r == self.left,
    {
        &self.left
    }

    /// The right child.
    pub fn right(&self) -> (r: &Option<Box<HuffmanNode<T>>>)
        ensures
            *r == self.right,
    {
        &self.right
    }
}

/// A node without symbol, chance or children.
pub open spec fn empty_node() -> HuffmanNode<u8> {
    HuffmanNode { chance: 0, content: None, left: None, right: None }
}

/// A leaf holding `content` with the given chance.
pub open spec fn leaf_node(content: Option<u8>, chance: u64) -> HuffmanNode<u8> {
    HuffmanNode { chance, content, left: None, right: None }
}

pub open spec fn max_nat(a: nat, b: nat) -> nat {
    if a >= b { a } else { b }
}

pub open spec fn min_nat(a: nat, b: nat) -> nat {
    if a <= b { a } else { b }
}

impl HuffmanNode<u8> {
    /// The number of nodes on the longest path from this node down to a leaf, both ends
    /// included.
    pub open spec fn deepest(self) -> nat
        decreases self,
    {
        1 + max_nat(
            match self.left {
                Some(l) => l.deepest(),
                None => 0,
            },
            match self.right {
                Some(r) => r.deepest(),
                None => 0,
            },
        )
    }

    /// The number of nodes on the shortest path from this node down to a node without
    /// children, both ends included.
    pub open spec fn shallowest(self) -> nat
        decreases self,
    {
        match (self.left, self.right) {
            (None, None) => 1,
            (Some(l), None) => 1 + l.shallowest(),
            (None, Some(r)) => 1 + r.shallowest(),
            (Some(l), Some(r)) => 1 + min_nat(l.shallowest(), r.shallowest()),
        }
    }

    /// Every node of this tree has a shallowest path of at most `u16::MAX` nodes.
    pub open spec fn shallowest_fits(self) -> bool
        decreases self,
    {
        &&& self.shallowest() <= u16::MAX
        &&& match self.left {
            Some(l) => l.shallowest_fits(),
            None => true,
        }
        &&& match self.right {
            Some(r) => r.shallowest_fits(),
            None => true,
        }
    }

    /// The sum of the chances of this node and all nodes below it.
    pub open spec fn total_chance(self) -> nat
        decreases self,
    {
        (self.chance + match self.left {
            Some(l) => l.total_chance(),
            None => 0,
        } + match self.right {
            Some(r) => r.total_chance(),
            None => 0,
        }) as nat
    }

    /// `m` with the code of every symbol below this node written in, this node's own symbol
    /// first, then the left subtree's, then the right subtree's; a symbol met twice keeps its
    /// last code. `code` and `len` are the code of this node.
    pub open spec fn codes_into(self, m: Map<u8, HuffmanCode>, code: u16, len: u8) -> Map<
        u8,
        HuffmanCode,
    >
        decreases self,
    {
        let m1 = match self.content {
            Some(c) => m.insert(c, (len, code)),
            None => m,
        };
        let m2 = match self.left {
            Some(l) => l.codes_into(m1, code << 1u16, (len + 1) as u8),
            None => m1,
        };
        match self.right {
            Some(r) => r.codes_into(m2, ((code << 1u16) + 1) as u16, (len + 1) as u8),
            None => m2,
        }
    }

    /// The code of every symbol in this tree, the root having the empty code.
    pub open spec fn codes(self) -> Map<u8, HuffmanCode> {
        self.codes_into(Map::empty(), 0, 0)
    }

    /// Whether a new node can hang `depth` levels below this one: a leaf has room only when
    /// `leaves_count_as_space` holds and `depth` is not 0, a node with a free child always
    /// has room, and a full node has room where one of its children has room a level lower.
    pub open spec fn has_space(self, depth: nat, leaves_count_as_space: bool) -> bool
        decreases self,
    {
        if self.content is Some {
            leaves_count_as_space && depth != 0
        } else if self.right is None || self.left is None {
            true
        } else if depth == 0 {
            false
        } else {
            self.left.unwrap().has_space((depth - 1) as nat, leaves_count_as_space)
                || self.right.unwrap().has_space((depth - 1) as nat, leaves_count_as_space)
        }
    }

    /// This tree with its rightmost node, reached by following right children from a node
    /// that has one, turned into an inner node whose only child is a left leaf carrying
    /// that node's symbol and chance. A tree without right child is left as it is.
    pub open spec fn without_only_ones_code(self) -> HuffmanNode<u8> {
        if self.right is None {
            self
        } else {
            self.with_rightmost_moved_left()
        }
    }

    pub open spec fn with_rightmost_moved_left(self) -> HuffmanNode<u8>
        decreases self,
    {
        match self.right {
            Some(r) => HuffmanNode {
                chance: self.chance,
                content: self.content,
                left: self.left,
                right: Some(Box::new(r.with_rightmost_moved_left())),
            },
            None => HuffmanNode {
                chance: 0,
                content: None,
                left: Some(Box::new(leaf_node(self.content, self.chance))),
                right: None,
            },
        }
    }
}

impl HuffmanNode<u8> {
    /// get an immutable reference to this node's left child.
    pub fn left_unchecked(&self) -> (r: &HuffmanNode<u8>)
        requires
            self.left is Some,
        ensures
            *r == *self.left.unwrap(),
    {
        self.left.as_ref().unwrap()
    }

    /// get an immutable reference to this node's right child.
    pub fn right_unchecked(&self) -> (r: &HuffmanNode<u8>)
        requires
            self.right is Some,
        ensures
            *r == *self.right.unwrap(),
    {
        self.right.as_ref().unwrap()
    }

    /// get a mutable reference to this node's left child.
    pub fn left_unchecked_mut(&mut self) -> (r: &mut HuffmanNode<u8>)
        requires
            old(self).left is Some,
        ensures
            *r == *old(self).left.unwrap(),
            final(self).left == Some(Box::new(*final(r))),
            final(self).right == old(self).right,
            final(self).chance == old(self).chance,
            final(self).content == old(self).content,
    {
        self.left.as_mut().unwrap()
    }

    /// get a mutable reference to this node's right child.
    pub fn right_unchecked_mut(&mut self) -> (r: &mut HuffmanNode<u8>)
        requires
            old(self).right is Some,
        ensures
            *r == *old(self).right.unwrap(),
            final(self).right == Some(Box::new(*final(r))),
            final(self).left == old(self).left,
            final(self).chance == old(self).chance,
            final(self).content == old(self).content,
    {
        self.right.as_mut().unwrap()
    }

    /// Calculate the chance/frequency for all symbols in this node and its child nodes.
    pub(crate) fn chance(&self) -> (r: u64)
        requires
            self.total_chance() <= u64::MAX,
        ensures
            r == self.total_chance(),
        decreases self,
    {
        let mut result = self.chance;
        if self.left.is_some() {
            result += self.left_unchecked().chance();
        }
        if self.right.is_some() {
            result += self.right_unchecked().chance();
        }
        result
    }

    /// Set the chance for this node.
    pub fn set_chance(&mut self, chance: u64)
        ensures
            *final(self) == (HuffmanNode { chance, ..*old(self) }),
    {
        self.chance = chance;
    }

    /// Get the maximum depth (i.e. the maximum possible amount of nodes to go through before
    /// arriving at a leaf) of this node. Leaves are counted too, so if this node is a leaf,
    /// this function returns 1.
    pub fn max_depth(&self) -> (r: u16)
        requires
            self.deepest() <= u16::MAX,
        ensures
            r == self.deepest(),
        decreases self,
    {
        let left: u16 = match &self.left {
            Some(left) => left.max_depth(),
            None => 0,
        };
        let right: u16 = match &self.right {
            Some(right) => right.max_depth(),
            None => 0,
        };
        1 + if left >= right { left } else { right }
    }

    /// Get the minimum depth (i.e. the minimum possible amount of nodes to go through before
    /// arriving at a leaf) of this node. Leaves are counted too, so if this node is a leaf,
    /// this function returns 1.
    pub fn min_depth(&self) -> (r: u16)
        requires
            self.shallowest_fits(),
        ensures
            r == self.shallowest(),
        decreases self,
    {
        let left: Option<u16> = match &self.left {
            Some(left) => Some(left.min_depth()),
            None => None,
        };
        let right: Option<u16> = match &self.right {
            Some(right) => Some(right.min_depth()),
            None => None,
        };
        if left.is_none() && right.is_none() {
            return 1;
        }
        let l: u16 = match left {
            Some(value) => value,
            None => u16::MAX,
        };
        let r: u16 = match right {
            Some(value) => value,
            None => u16::MAX,
        };
        1 + if l <= r { l } else { r }
    }

    /// Create a clone of this leaf node.
    /// Only content and chance are kept, left and right child nodes are not included in the
    /// clone.
    fn clone_leaf(&self) -> (r: HuffmanNode<u8>)
        ensures
            r == leaf_node(self.content, self.chance),
    {
        HuffmanNode { content: self.content, chance: self.chance, left: None, right: None }
    }

    /// Create a code from this tree: a map from each symbol to its code length and code.
    pub fn code_map(&self) -> (r: HuffmanCodeMap)
        requires
            self.deepest() <= 30,
        ensures
            r@ == self.codes(),
    {
        let mut map: HuffmanCodeMap = HashMap::new();
        self.append_to_map(&mut map, 0, 0);
        map
    }

    /// Append this node's data to the map. Then recursively call child nodes to append
    /// their data.
    pub fn append_to_map(&self, map: &mut HuffmanCodeMap, code: u16, code_len: u8)
        requires
            code_len + self.deepest() <= 256,
        ensures
            final(map)@ == self.codes_into(old(map)@, code, code_len),
        decreases self,
    {
        if self.content.is_some() {
            map.insert(self.content.unwrap(), (code_len, code));
        }
        assert((code << 1u16) < 0xffffu16) by (bit_vector);
        if self.left.is_some() {
            assert(self.left.unwrap().deepest() < self.deepest());
            self.left_unchecked().append_to_map(map, code << 1, code_len + 1);
        }
        if self.right.is_some() {
            assert(self.right.unwrap().deepest() < self.deepest());
            self.right_unchecked().append_to_map(map, (code << 1) + 1, code_len + 1);
        }
    }

    /// Checks if a new node can be placed `depth` levels below this node; see
    /// [`HuffmanNode::has_space`].
    fn has_space_at_depth(&self, depth: u16, leaves_count_as_space: bool) -> (r: bool)
        ensures
            r == self.has_space(depth as nat, leaves_count_as_space),
        decreases self,
    {
        if self.content.is_some() {
            if leaves_count_as_space {
                depth != 0
            } else {
                false
            }
        } else if self.right.is_none() || self.left.is_none() {
            true
        } else if depth == 0 {
            false
        } else {
            self.left_unchecked().has_space_at_depth(depth - 1, leaves_count_as_space)
                || self.right_unchecked().has_space_at_depth(depth - 1, leaves_count_as_space)
        }
    }

    /// Remove the lower right leaf (1*) and replace it with a node which has only a leaf on
    /// the left. This will lead to a less optimised code, but no code consists of ones only.
    pub fn remove_only_ones_code(&mut self)
        ensures
            *final(self) == old(self).without_only_ones_code(),
    {
        if self.right.is_none() {
            return;
        }
        let mut node = HuffmanNode { chance: 0, content: None, left: None, right: None };
        std::mem::swap(&mut node, self);
        let moved = move_rightmost_left(node);
        *self = moved;
    }
}

impl HuffmanNode<u8> {
    /// The number of nodes of this tree.
    pub open spec fn size(self) -> nat
        decreases self,
    {
        1 + match self.left {
            Some(l) => l.size(),
            None => 0,
        } + match self.right {
            Some(r) => r.size(),
            None => 0,
        }
    }

    /// This node with its two children exchanged.
    pub open spec fn with_children_swapped(self) -> HuffmanNode<u8> {
        HuffmanNode { left: self.right, right: self.left, ..self }
    }

    /// This node, both of whose children exist, with the deeper child on the right, and
    /// then the right child's left child exchanged with the left child's right child.
    pub open spec fn with_inner_nodes_swapped(self) -> HuffmanNode<u8> {
        let s = if self.left.unwrap().deepest() > self.right.unwrap().deepest() {
            self.with_children_swapped()
        } else {
            self
        };
        let l = *s.left.unwrap();
        let r = *s.right.unwrap();
        HuffmanNode {
            left: Some(Box::new(HuffmanNode { right: r.left, ..l })),
            right: Some(Box::new(HuffmanNode { left: l.right, ..r })),
            ..s
        }
    }

    /// This node rearranged so that it grows to the right: an only left child moves to the
    /// right; where the left child reaches deeper than the right one's shallowest path, the
    /// children are exchanged when the left one is nowhere shallower than the right one's
    /// deepest path, and their inner children are exchanged otherwise.
    pub open spec fn swapped_here(self) -> HuffmanNode<u8> {
        if self.left is Some && self.right is None {
            HuffmanNode { left: None, right: self.left, ..self }
        } else if self.left is Some && self.left.unwrap().deepest() > self.right.unwrap().shallowest() {
            if self.left.unwrap().shallowest() >= self.right.unwrap().deepest() {
                self.with_children_swapped()
            } else {
                self.with_inner_nodes_swapped()
            }
        } else {
            self
        }
    }

    /// This tree rearranged at every node, from the root down, as [`Self::swapped_here`]
    /// rearranges one node.
    pub open spec fn grown_right(self) -> HuffmanNode<u8>
        decreases self.size(),
    {
        let t = self.swapped_here();
        proof {
            lemma_swapped_here_size(self);
        }
        HuffmanNode {
            left: match t.left {
                Some(l) => Some(Box::new(l.grown_right())),
                None => None,
            },
            right: match t.right {
                Some(r) => Some(Box::new(r.grown_right())),
                None => None,
            },
            ..t
        }
    }
}

/// Rearranging a node keeps its depth, and each child it is left with is smaller than it.
pub proof fn lemma_swapped_here_size(node: HuffmanNode<u8>)
    ensures
        node.swapped_here().deepest() == node.deepest(),
        node.swapped_here().left matches Some(l) ==> l.size() < node.size(),
        node.swapped_here().right matches Some(r) ==> r.size() < node.size(),
{
    if node.left is Some && node.right is Some {
        let s = if node.left.unwrap().deepest() > node.right.unwrap().deepest() {
            node.with_children_swapped()
        } else {
            node
        };
        let l = *s.left.unwrap();
        let r = *s.right.unwrap();
        assert(s.deepest() == node.deepest());
        assert(s.size() == node.size());
        let nl = HuffmanNode { right: r.left, ..l };
        let nr = HuffmanNode { left: l.right, ..r };
        assert(nl.size() + nr.size() == l.size() + r.size());
        assert(max_nat(nl.deepest(), nr.deepest()) == max_nat(l.deepest(), r.deepest()));
    }
}

/// The shallowest path is never longer than the deepest one, in any subtree.
proof fn lemma_shallowest_fits(node: HuffmanNode<u8>)
    requires
        node.deepest() <= u16::MAX,
    ensures
        node.shallowest() <= node.deepest(),
        node.shallowest_fits(),
    decreases node,
{
    match node.left {
        Some(l) => lemma_shallowest_fits(*l),
        None => {},
    }
    match node.right {
        Some(r) => lemma_shallowest_fits(*r),
        None => {},
    }
}

/// Rearranging a tree so that it grows to the right keeps its depth.
pub proof fn lemma_grown_right_depth(node: HuffmanNode<u8>)
    ensures
        node.grown_right().deepest() == node.deepest(),
    decreases node.size(),
{
    let t = node.swapped_here();
    lemma_swapped_here_size(node);
    match t.left {
        Some(l) => lemma_grown_right_depth(*l),
        None => {},
    }
    match t.right {
        Some(r) => lemma_grown_right_depth(*r),
        None => {},
    }
}

impl HuffmanNode<u8> {
    /// Update this tree so that it grows to the right, node by node from the root down:
    /// see [`HuffmanNode::swapped_here`].
    pub fn ensure_tree_grows_right(&mut self)
        requires
            old(self).deepest() <= u16::MAX,
        ensures
            *final(self) == old(self).grown_right(),
        decreases old(self).size(),
    {
        let ghost orig = *self;
        proof {
            lemma_swapped_here_size(orig);
            lemma_shallowest_fits(orig);
        }
        if self.left.is_some() && self.right.is_none() {
            let left = self.left.take();
            self.right = left;
        } else if self.left.is_some() && self.left_unchecked().max_depth()
            > self.right_unchecked().min_depth() {
            if self.left_unchecked().min_depth() >= self.right_unchecked().max_depth() {
                std::mem::swap(&mut self.right, &mut self.left);
            } else {
                self.swap_inner_nodes();
            }
        }
        let ghost t = *self;
        assert(t == orig.swapped_here());
        if self.left.is_some() {
            self.left_unchecked_mut().ensure_tree_grows_right();
        }
        if self.right.is_some() {
            self.right_unchecked_mut().ensure_tree_grows_right();
        }
    }

    /// With the deeper child on the right, exchange the right child's left child with the
    /// left child's right child.
    pub fn swap_inner_nodes(&mut self)
        requires
            old(self).left is Some,
            old(self).right is Some,
            old(self).deepest() <= u16::MAX,
        ensures
            *final(self) == old(self).with_inner_nodes_swapped(),
    {
        if self.left_unchecked().max_depth() > self.right_unchecked().max_depth() {
            std::mem::swap(&mut self.right, &mut self.left);
        }
        let mut node = HuffmanNode { chance: 0, content: None, left: None, right: None };
        std::mem::swap(&mut node, self);
        let HuffmanNode { chance, content, left, right } = node;
        let l = *left.unwrap();
        let r = *right.unwrap();
        let HuffmanNode { chance: lc, content: lt, left: ll, right: lr } = l;
        let HuffmanNode { chance: rc, content: rt, left: rl, right: rr } = r;
        *self = HuffmanNode {
            chance,
            content,
            left: Some(Box::new(HuffmanNode { chance: lc, content: lt, left: ll, right: rl })),
            right: Some(Box::new(HuffmanNode { chance: rc, content: rt, left: lr, right: rr })),
        };
    }
}

/// `node` with its rightmost node turned into an inner node whose only child is a left leaf
/// with that node's symbol and chance.
fn move_rightmost_left(node: HuffmanNode<u8>) -> (r: HuffmanNode<u8>)
    ensures
        r == node.with_rightmost_moved_left(),
    decreases node,
{
    let HuffmanNode { chance, content, left, right } = node;
    match right {
        Some(r) => {
            let moved = move_rightmost_left(*r);
            HuffmanNode { chance, content, left, right: Some(Box::new(moved)) }
        },
        None => HuffmanNode {
            chance: 0,
            content: None,
            left: Some(Box::new(HuffmanNode { chance, content, left: None, right: None })),
            right: None,
        },
    }
}

/// Position of the first node of `nodes` that holds `value`, or the length of `nodes` when
/// none does.
pub open spec fn leaf_index(nodes: Seq<HuffmanNode<u8>>, value: u8) -> nat
    decreases nodes.len(),
{
    if nodes.len() == 0 {
        0
    } else {
        let i = leaf_index(nodes.drop_last(), value);
        if i < nodes.len() - 1 {
            i
        } else if nodes.last().content == Some(value) {
            (nodes.len() - 1) as nat
        } else {
            nodes.len()
        }
    }
}

/// `nodes` with the chance of the first node holding `value` raised by one, or with a new
/// leaf for `value` of chance 1 at the end when no node holds it.
pub open spec fn incremented(nodes: Seq<HuffmanNode<u8>>, value: u8) -> Seq<HuffmanNode<u8>> {
    let i = leaf_index(nodes, value);
    if i < nodes.len() {
        nodes.update(
            i as int,
            HuffmanNode { chance: (nodes[i as int].chance + 1) as u64, ..nodes[i as int] },
        )
    } else {
        nodes.push(leaf_node(Some(value), 1))
    }
}

/// One leaf per distinct byte of `bytes`, in the order of first appearance, each with the
/// number of times its byte occurs as chance.
pub open spec fn leaves_of(bytes: Seq<u8>) -> Seq<HuffmanNode<u8>>
    decreases bytes.len(),
{
    if bytes.len() == 0 {
        Seq::empty()
    } else {
        incremented(leaves_of(bytes.drop_last()), bytes.last())
    }
}

proof fn lemma_leaf_index(nodes: Seq<HuffmanNode<u8>>, value: u8, i: int)
    requires
        0 <= i <= nodes.len(),
        forall|j: int| 0 <= j < i ==> nodes[j].content != Some(value),
        i < nodes.len() ==> nodes[i].content == Some(value),
    ensures
        leaf_index(nodes, value) == i,
    decreases nodes.len(),
{
    if nodes.len() > 0 {
        if i < nodes.len() - 1 {
            lemma_leaf_index(nodes.drop_last(), value, i);
        } else {
            lemma_leaf_index(nodes.drop_last(), value, nodes.len() - 1);
        }
    }
}

/// Every node built from `bytes` is a leaf with a symbol, the symbols are distinct, each
/// chance is between 1 and the number of bytes, and there are no more leaves than bytes.
pub proof fn lemma_leaves_shape(bytes: Seq<u8>)
    requires
        bytes.len() <= u64::MAX,
    ensures
        leaves_of(bytes).len() <= bytes.len(),
        forall|j: int| 0 <= j < leaves_of(bytes).len() ==> {
            &&& (#[trigger] leaves_of(bytes)[j]).content is Some
            &&& leaves_of(bytes)[j].left is None
            &&& leaves_of(bytes)[j].right is None
            &&& 1 <= leaves_of(bytes)[j].chance <= bytes.len()
        },
        forall|j: int, k: int|
            0 <= j < k < leaves_of(bytes).len() ==> (#[trigger] leaves_of(bytes)[j]).content
                != (#[trigger] leaves_of(bytes)[k]).content,
    decreases bytes.len(),
{
    if bytes.len() > 0 {
        let prev = leaves_of(bytes.drop_last());
        lemma_leaves_shape(bytes.drop_last());
        let v = bytes.last();
        let i = leaf_index(prev, v);
        lemma_leaf_index_found(prev, v);
        let cur = leaves_of(bytes);
        assert(cur == incremented(prev, v));
        assert forall|j: int| 0 <= j < cur.len() implies {
            &&& (#[trigger] cur[j]).content is Some
            &&& cur[j].left is None
            &&& cur[j].right is None
            &&& 1 <= cur[j].chance <= bytes.len()
        } by {
            if i < prev.len() {
                if j == i {
                    assert(cur[j] == HuffmanNode { chance: (prev[j].chance + 1) as u64, ..prev[j] });
                    assert(prev[j].chance <= bytes.len() - 1);
                } else {
                    assert(cur[j] == prev[j]);
                    assert(prev[j].chance <= bytes.len() - 1);
                }
            } else if j < prev.len() {
                assert(cur[j] == prev[j]);
                assert(prev[j].chance <= bytes.len() - 1);
            } else {
                assert(cur[j] == leaf_node(Some(v), 1));
            }
        }
        assert forall|j: int, k: int| 0 <= j < k < cur.len() implies (#[trigger] cur[j]).content
            != (#[trigger] cur[k]).content by {
            if k == prev.len() {
                assert(prev[j].content != Some(v));
            }
        }
    }
}

proof fn lemma_leaf_index_found(nodes: Seq<HuffmanNode<u8>>, value: u8)
    ensures
        leaf_index(nodes, value) <= nodes.len(),
        leaf_index(nodes, value) < nodes.len() ==> nodes[leaf_index(nodes, value) as int].content
            == Some(value),
        forall|j: int| 0 <= j < leaf_index(nodes, value) ==> nodes[j].content != Some(value),
    decreases nodes.len(),
{
    if nodes.len() > 0 {
        lemma_leaf_index_found(nodes.drop_last(), value);
        assert forall|j: int| 0 <= j < leaf_index(nodes, value) implies nodes[j].content != Some(
            value,
        ) by {
            if j < nodes.len() - 1 {
                assert(nodes.drop_last()[j] == nodes[j]);
            }
        }
    }
}

/// With a vec of huffman nodes, either increment the chance of the node with the given value
/// or create a new node with the value if none exists yet.
pub fn increment_or_append(nodes: &mut Vec<HuffmanNode<u8>>, value: u8)
    requires
        forall|j: int|
            0 <= j < old(nodes).len() && j <= leaf_index(old(nodes)@, value) ==> (
            #[trigger] old(nodes)[j]).content is Some,
        leaf_index(old(nodes)@, value) < old(nodes).len() ==> old(nodes)[leaf_index(
            old(nodes)@,
            value,
        ) as int].chance < u64::MAX,
    ensures
        final(nodes)@ == incremented(old(nodes)@, value),
{
    proof {
        lemma_leaf_index_found(nodes@, value);
    }
    let ghost n0 = nodes@;
    let mut i: usize = 0;
    while i < nodes.len()
        invariant
            nodes@ == n0,
            n0 == old(nodes)@,
            i <= nodes.len(),
            forall|j: int| 0 <= j < i ==> nodes[j].content != Some(value),
            leaf_index(n0, value) >= i,
            leaf_index(n0, value) <= n0.len(),
            leaf_index(n0, value) < n0.len() ==> n0[leaf_index(n0, value) as int].content == Some(
                value,
            ),
            forall|j: int|
                0 <= j < n0.len() && j <= leaf_index(n0, value) ==> (#[trigger] n0[j]).content is Some,
            leaf_index(n0, value) < n0.len() ==> n0[leaf_index(n0, value) as int].chance
                < u64::MAX,
        decreases nodes.len() - i,
    {
        assert(n0[i as int].content is Some);
        if nodes[i].content.unwrap() == value {
            proof {
                lemma_leaf_index(n0, value, i as int);
            }
            let node = nodes.remove(i);
            let ghost removed = nodes@;
            assert(removed =~= n0.remove(i as int));
            assert(node == n0[i as int]);
            let HuffmanNode { chance, content, left, right } = node;
            let bumped = HuffmanNode { chance: chance + 1, content, left, right };
            assert(bumped == HuffmanNode { chance: (n0[i as int].chance + 1) as u64, ..n0[i as int] });
            nodes.insert(i, bumped);
            proof {
                assert(nodes@ =~= n0.update(i as int, bumped));
                assert(leaf_index(n0, value) == i);
                assert(nodes@ == incremented(n0, value));
            }
            return;
        }
        i += 1;
    }
    proof {
        lemma_leaf_index(n0, value, n0.len() as int);
    }
    nodes.push(HuffmanNode { chance: 1, content: Some(value), left: None, right: None });
}

/// Create all huffman leaves for a stream of u8 values: one per distinct byte, in order of
/// first appearance, with its number of occurrences as chance.
pub fn get_single_leaves(stream: &mut BitStream) -> (r: Vec<HuffmanNode<u8>>)
    ensures
        r@ == leaves_of(old(stream)@.bytes),
        *final(stream) == *old(stream),
{
    let data = stream.data();
    let mut nodes: Vec<HuffmanNode<u8>> = Vec::new();
    let mut i: usize = 0;
    while i < data.len()
        invariant
            i <= data.len(),
            nodes@ == leaves_of(data@.take(i as int)),
        decreases data.len() - i,
    {
        proof {
            lemma_leaves_shape(data@.take(i as int));
            lemma_leaf_index_found(nodes@, data@[i as int]);
            assert(data@.take(i + 1).drop_last() =~= data@.take(i as int));
        }
        increment_or_append(&mut nodes, data[i]);
        i += 1;
    }
    proof {
        assert(data@.take(data.len() as int) =~= data@);
    }
    nodes
}

impl HuffmanNode<u8> {
    /// This tree with `leaf` hung `remaining` levels below this node, found by walking down:
    /// a node without children grows a right child; otherwise the walk goes right where the
    /// right child has room a level lower, else left where the left child has, else into a
    /// new left child. At the end the leaf takes the free right place, else the free left
    /// one. `None` where the walk finds no way.
    pub open spec fn placed(self, leaf: HuffmanNode<u8>, remaining: nat) -> Option<HuffmanNode<u8>>
        decreases remaining,
    {
        if remaining == 0 {
            if self.right is None {
                Some(HuffmanNode { right: Some(Box::new(leaf)), ..self })
            } else if self.left is None {
                Some(HuffmanNode { left: Some(Box::new(leaf)), ..self })
            } else {
                None
            }
        } else if self.right is None && self.left is None {
            match empty_node().placed(leaf, (remaining - 1) as nat) {
                Some(c) => Some(HuffmanNode { right: Some(Box::new(c)), ..self }),
                None => None,
            }
        } else if self.right is Some && self.right.unwrap().has_space(
            (remaining - 1) as nat,
            false,
        ) {
            match self.right.unwrap().placed(leaf, (remaining - 1) as nat) {
                Some(c) => Some(HuffmanNode { right: Some(Box::new(c)), ..self }),
                None => None,
            }
        } else if self.left is Some && self.left.unwrap().has_space(
            (remaining - 1) as nat,
            false,
        ) {
            match self.left.unwrap().placed(leaf, (remaining - 1) as nat) {
                Some(c) => Some(HuffmanNode { left: Some(Box::new(c)), ..self }),
                None => None,
            }
        } else if self.left is None {
            match empty_node().placed(leaf, (remaining - 1) as nat) {
                Some(c) => Some(HuffmanNode { left: Some(Box::new(c)), ..self }),
                None => None,
            }
        } else {
            None
        }
    }
}

/// `root` with `leaf` placed at the depth its code length in `map` asks for: the leaf ends
/// up `length` edges below the root. `None` where the leaf has no symbol, its symbol no
/// length, its length is 0, or there is no room.
pub open spec fn tree_step(root: HuffmanNode<u8>, leaf: HuffmanNode<u8>, map: Map<u8, HuffmanCode>) -> Option<
    HuffmanNode<u8>,
> {
    match leaf.content {
        Some(c) => if map.contains_key(c) && map[c].0 >= 1 {
            root.placed(leaf, (map[c].0 - 1) as nat)
        } else {
            None
        },
        None => None,
    }
}

/// `root` with the leaves of `nodes` placed one after the other, as [`tree_step`] places
/// them.
pub open spec fn tree_from(root: HuffmanNode<u8>, nodes: Seq<HuffmanNode<u8>>, map: Map<u8, HuffmanCode>) -> Option<
    HuffmanNode<u8>,
>
    decreases nodes.len(),
{
    if nodes.len() == 0 {
        Some(root)
    } else {
        match tree_step(root, nodes[0], map) {
            Some(r) => tree_from(r, nodes.skip(1), map),
            None => None,
        }
    }
}

/// Hang `leaf` `remaining` levels below `node`; see [`HuffmanNode::placed`].
fn place_leaf(node: HuffmanNode<u8>, leaf: HuffmanNode<u8>, remaining: u8) -> (r: Option<HuffmanNode<u8>>)
    ensures
        r == node.placed(leaf, remaining as nat),
    decreases remaining,
{
    let HuffmanNode { chance, content, left, right } = node;
    if remaining == 0 {
        if right.is_none() {
            return Some(HuffmanNode { chance, content, left, right: Some(Box::new(leaf)) });
        }
        if left.is_none() {
            return Some(HuffmanNode { chance, content, left: Some(Box::new(leaf)), right });
        }
        return None;
    }
    if right.is_none() && left.is_none() {
        let fresh = HuffmanNode { chance: 0, content: None, left: None, right: None };
        return match place_leaf(fresh, leaf, remaining - 1) {
            Some(c) => Some(HuffmanNode { chance, content, left, right: Some(Box::new(c)) }),
            None => None,
        };
    }
    let right_has_space = match &right {
        Some(r) => r.has_space_at_depth((remaining - 1) as u16, false),
        None => false,
    };
    if right_has_space {
        let r = right.unwrap();
        return match place_leaf(*r, leaf, remaining - 1) {
            Some(c) => Some(HuffmanNode { chance, content, left, right: Some(Box::new(c)) }),
            None => None,
        };
    }
    let left_has_space = match &left {
        Some(l) => l.has_space_at_depth((remaining - 1) as u16, false),
        None => false,
    };
    if left_has_space {
        let l = left.unwrap();
        return match place_leaf(*l, leaf, remaining - 1) {
            Some(c) => Some(HuffmanNode { chance, content, left: Some(Box::new(c)), right }),
            None => None,
        };
    }
    if left.is_none() {
        let fresh = HuffmanNode { chance: 0, content: None, left: None, right: None };
        return match place_leaf(fresh, leaf, remaining - 1) {
            Some(c) => Some(HuffmanNode { chance, content, left: Some(Box::new(c)), right }),
            None => None,
        };
    }
    None
}

/// Constructs a Huffman tree from a list of leaves and a map of their code lengths: each
/// leaf, in the order of `nodes`, is placed as deep as its code length says (see
/// [`tree_from`]). The leaves are taken out of `nodes`. `None` where no such tree comes
/// out: a leaf without symbol or length, a length of 0, or no room left on the way.
pub fn code_len_to_tree(nodes: &mut Vec<HuffmanNode<u8>>, map: &mut HuffmanCodeMap) -> (r: Option<
    HuffmanNode<u8>,
>)
    ensures
        r == tree_from(empty_node(), old(nodes)@, old(map)@),
        final(map)@ == old(map)@,
        r is Some ==> final(nodes)@.len() == 0,
{
    let mut root = HuffmanNode { chance: 0, content: None, left: None, right: None };
    while nodes.len() > 0
        invariant
            tree_from(root, nodes@, map@) == tree_from(empty_node(), old(nodes)@, old(map)@),
            map@ == old(map)@,
        decreases nodes.len(),
    {
        let ghost before = nodes@;
        let leaf = nodes.remove(0);
        proof {
            assert(nodes@ =~= before.skip(1));
        }
        let c = match leaf.content {
            Some(c) => c,
            None => return None,
        };
        let len: u8 = match map.get(&c) {
            Some(code) => code.0,
            None => return None,
        };
        if len == 0 {
            return None;
        }
        root = match place_leaf(root, leaf, len - 1) {
            Some(t) => t,
            None => return None,
        };
    }
    Some(root)
}

/// Placing a leaf no deeper than the tree already reaches keeps the tree's depth.
proof fn lemma_placed_depth(node: HuffmanNode<u8>, leaf: HuffmanNode<u8>, remaining: nat, d: nat)
    requires
        leaf.left is None && leaf.right is None,
        node.deepest() <= d,
        remaining + 2 <= d,
    ensures
        node.placed(leaf, remaining) matches Some(t) ==> t.deepest() <= d,
    decreases remaining,
{
    assert(leaf.deepest() == 1);
    assert(empty_node().deepest() == 1);
    if node.right is Some {
        assert(node.right.unwrap().deepest() < node.deepest());
    }
    if node.left is Some {
        assert(node.left.unwrap().deepest() < node.deepest());
    }
    if remaining > 0 {
        let r = (remaining - 1) as nat;
        lemma_placed_depth(empty_node(), leaf, r, (d - 1) as nat);
        if node.right is Some {
            lemma_placed_depth(*node.right.unwrap(), leaf, r, (d - 1) as nat);
        }
        if node.left is Some {
            lemma_placed_depth(*node.left.unwrap(), leaf, r, (d - 1) as nat);
        }
        if let Some(t) = node.placed(leaf, remaining) {
            if t.right is Some {
                assert(t.right.unwrap().deepest() <= d - 1);
            }
            if t.left is Some {
                assert(t.left.unwrap().deepest() <= d - 1);
            }
        }
    } else {
        if let Some(t) = node.placed(leaf, remaining) {
            if t.right is Some {
                assert(t.right.unwrap().deepest() <= d - 1);
            }
            if t.left is Some {
                assert(t.left.unwrap().deepest() <= d - 1);
            }
        }
    }
}

/// A tree built from leaves whose code lengths are at most `h` is at most `h + 1` nodes
/// deep.
pub proof fn lemma_tree_from_depth(root: HuffmanNode<u8>, nodes: Seq<HuffmanNode<u8>>, map: Map<u8, HuffmanCode>, h: nat)
    requires
        root.deepest() <= h + 1,
        forall|i: int| 0 <= i < nodes.len() ==> (#[trigger] nodes[i]).left is None
            && nodes[i].right is None,
        forall|c: u8| map.contains_key(c) ==> map[c].0 <= h,
    ensures
        tree_from(root, nodes, map) matches Some(t) ==> t.deepest() <= h + 1,
    decreases nodes.len(),
{
    if nodes.len() > 0 {
        let leaf = nodes[0];
        if let Some(c) = leaf.content {
            if map.contains_key(c) && map[c].0 >= 1 {
                lemma_placed_depth(root, leaf, (map[c].0 - 1) as nat, h + 1);
                if let Some(t) = tree_step(root, leaf, map) {
                    assert forall|i: int| 0 <= i < nodes.skip(1).len() implies (
                    #[trigger] nodes.skip(1)[i]).left is None && nodes.skip(1)[i].right is None by {
                        assert(nodes.skip(1)[i] == nodes[i + 1]);
                    }
                    lemma_tree_from_depth(t, nodes.skip(1), map, h);
                }
            }
        }
    }
}

/// Moving the rightmost leaf one level down makes the tree at most one level deeper.
pub proof fn lemma_moved_left_depth(node: HuffmanNode<u8>)
    ensures
        node.with_rightmost_moved_left().deepest() <= node.deepest() + 1,
    decreases node,
{
    let m = node.with_rightmost_moved_left();
    if let Some(r) = node.right {
        lemma_moved_left_depth(*r);
        assert(m.right.unwrap().deepest() <= r.deepest() + 1);
        if node.left is Some {
            assert(m.left.unwrap().deepest() < node.deepest());
        }
    } else {
        assert(leaf_node(node.content, node.chance).deepest() == 1);
        assert(m.left.unwrap().deepest() == 1);
    }
}


/// Every code below this node is no longer than the path to the deepest leaf.
proof fn lemma_codes_len(node: HuffmanNode<u8>, m: Map<u8, HuffmanCode>, code: u16, len: u8)
    requires
        len + node.deepest() <= 256,
    ensures
        forall|k: u8|
            #[trigger] node.codes_into(m, code, len).contains_key(k) ==> (m.contains_key(k)
                && node.codes_into(m, code, len)[k] == m[k]) || node.codes_into(m, code, len)[k].0
                <= len + node.deepest() - 1,
    decreases node,
{
    let m1 = match node.content {
        Some(c) => m.insert(c, (len, code)),
        None => m,
    };
    let m2 = match node.left {
        Some(l) => l.codes_into(m1, code << 1u16, (len + 1) as u8),
        None => m1,
    };
    let bound = len + node.deepest() - 1;
    assert(node.deepest() >= 1);
    assert forall|k: u8| #[trigger] m1.contains_key(k) implies (m.contains_key(k) && m1[k] == m[k])
        || m1[k].0 <= bound by {}
    if let Some(l) = node.left {
        assert(l.deepest() < node.deepest());
        assert((len + 1) as u8 == len + 1);
        lemma_codes_len(*l, m1, code << 1u16, (len + 1) as u8);
    }
    assert forall|k: u8| #[trigger] m2.contains_key(k) implies (m.contains_key(k) && m2[k] == m[k])
        || m2[k].0 <= bound by {
        if let Some(l) = node.left {
            if m1.contains_key(k) && m2[k] == m1[k] {
                assert(m1.contains_key(k));
            }
        }
    }
    let m3 = node.codes_into(m, code, len);
    if let Some(r) = node.right {
        assert(r.deepest() < node.deepest());
        lemma_codes_len(*r, m2, ((code << 1u16) + 1) as u16, (len + 1) as u8);
        assert((len + 1) as u8 == len + 1);
        assert(m3 == r.codes_into(m2, ((code << 1u16) + 1) as u16, (len + 1) as u8));
        assert forall|k: u8| #[trigger] m3.contains_key(k) implies (m.contains_key(k) && m3[k] == m[k])
            || m3[k].0 <= bound by {
            if m2.contains_key(k) && m3[k] == m2[k] {
                assert(m2.contains_key(k));
            }
        }
    }
}

/// The tree [`parse_u8_stream`] builds from the bytes of a stream.
pub open spec fn parsed_tree(bytes: Seq<u8>) -> Option<HuffmanNode<u8>> {
    match merged_tree(bytes, 15) {
        Some(t) => Some(t.without_only_ones_code()),
        None => None,
    }
}

/// Parse a stream of u8 values and create a huffman tree for them, with codes of at most
/// 16 bits none of which consists of ones only. `None` where package-merge gives no tree.
pub fn parse_u8_stream(stream: &mut BitStream) -> (r: Option<HuffmanNode<u8>>)
    requires
        old(stream)@.bytes.len() * 15 <= u64::MAX,
    ensures
        r == parsed_tree(old(stream)@.bytes),
        r matches Some(t) ==> t.deepest() <= 17,
        *final(stream) == *old(stream),
{
    let ghost bytes = stream@.bytes;
    let byte_count = stream.data().len();
    proof {
        lemma_merged_tree_depth(bytes, 15);
    }
    let mut tree = match package_merge(stream, 15) {
        Some(t) => t,
        None => return None,
    };
    proof {
        lemma_moved_left_depth(tree);
    }
    tree.remove_only_ones_code();
    Some(tree)
}

/// The bits of the codes of `bytes`, one after the other.
pub open spec fn encoded_bits(bytes: Seq<u8>, m: Map<u8, HuffmanCode>) -> Seq<bool>
    decreases bytes.len(),
{
    if bytes.len() == 0 {
        Seq::empty()
    } else {
        encoded_bits(bytes.drop_last(), m) + low_bits_u16(
            m[bytes.last()].1,
            m[bytes.last()].0 as nat,
        )
    }
}

/// Every byte has a code in `m`.
pub open spec fn all_coded(bytes: Seq<u8>, m: Map<u8, HuffmanCode>) -> bool {
    forall|i: int| 0 <= i < bytes.len() ==> m.contains_key(#[trigger] bytes[i])
}

/// Parse a stream of values, create a huffman tree and encode the values. Returns the
/// stream of encoded data and the map used for encoding; `None` where no tree is built or
/// a byte has no code.
pub fn encode(stream: &mut BitStream) -> (r: Option<(BitStream, HuffmanCodeMap)>)
    requires
        old(stream)@.bytes.len() * 15 <= u64::MAX,
    ensures
        match r {
            Some((out, map)) => {
                &&& parsed_tree(old(stream)@.bytes) matches Some(t)
                &&& map@ == t.codes()
                &&& all_coded(old(stream)@.bytes, map@)
                &&& out@.wf()
                &&& out@.bits() == encoded_bits(old(stream)@.bytes, map@)
            },
            None => match parsed_tree(old(stream)@.bytes) {
                Some(t) => !all_coded(old(stream)@.bytes, t.codes()),
                None => true,
            },
        },
        *final(stream) == *old(stream),
{
    let tree = match parse_u8_stream(stream) {
        Some(t) => t,
        None => return None,
    };
    let code_map = tree.code_map();
    proof {
        lemma_codes_len(tree, Map::empty(), 0, 0);
    }
    let mut result = BitStream::open();
    let data = stream.data();
    let mut i: usize = 0;
    while i < data.len()
        invariant
            i <= data.len(),
            data@ == old(stream)@.bytes,
            *stream == *old(stream),
            parsed_tree(old(stream)@.bytes) == Some(tree),
            code_map@ == tree.codes(),
            forall|k: u8| #[trigger] code_map@.contains_key(k) ==> code_map@[k].0 <= 16,
            result@.wf(),
            result@.bits() == encoded_bits(data@.take(i as int), code_map@),
            all_coded(data@.take(i as int), code_map@),
        decreases data.len() - i,
    {
        let byte = data[i];
        let (len, code) = match code_map.get(&byte) {
            Some(c) => *c,
            None => {
                proof {
                    assert(data@[i as int] == byte);
                    assert(!code_map@.contains_key(data@[i as int]));
                }
                return None;
            },
        };
        let ghost before = result@;
        result.append_n_bits(code, len);
        proof {
            assert(data@.take(i + 1).drop_last() =~= data@.take(i as int));
            assert forall|j: int| 0 <= j < i + 1 implies code_map@.contains_key(
                #[trigger] data@.take(i + 1)[j],
            ) by {
                if j < i {
                    assert(data@.take(i + 1)[j] == data@.take(i as int)[j]);
                }
            }
        }
        i += 1;
    }
    proof {
        assert(data@.take(data.len() as int) =~= data@);
    }
    Some((result, code_map))
}

impl Default for HuffmanNode<u8> {
    fn default() -> (r: Self)
        ensures
            r == empty_node(),
    {
        HuffmanNode { chance: 0, content: None, left: None, right: None }
    }
}

/// Combine two nodes and make them leaves of a new node: the second on the left, the first
/// on the right.
fn combine_nodes(node_1: HuffmanNode<u8>, node_2: HuffmanNode<u8>) -> (r: HuffmanNode<u8>)
    ensures
        r == (HuffmanNode {
            chance: 0,
            content: None,
            left: Some(Box::new(node_2)),
            right: Some(Box::new(node_1)),
        }),
{
    HuffmanNode {
        left: Some(Box::new(node_2)),
        right: Some(Box::new(node_1)),
        chance: 0,
        content: None,
    }
}

} // verus!
