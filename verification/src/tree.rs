//! The Huffman code tree: a pure, immutable binary tree value, built
//! bottom-up and never mutated afterwards. Every internal node carries the
//! sum of its children's weights; every leaf carries a symbol and its count.

use vstd::prelude::*;

verus! {

/// A Huffman tree node. `LeafNode` holds one symbol with its frequency;
/// `InternalNode` owns its two subtrees and weighs as much as both together.
#[derive(Debug, PartialEq, Eq)]
pub enum HuffmanTree {
    InternalNode { weight: u64, right: Box<HuffmanTree>, left: Box<HuffmanTree> },
    LeafNode { weight: u64, element: char },
}

impl HuffmanTree {
    /// The weight stored at the root of this subtree.
    pub open spec fn spec_weight(&self) -> u64 {
        match self {
            HuffmanTree::InternalNode { weight, .. } => *weight,
            HuffmanTree::LeafNode { weight, .. } => *weight,
        }
    }

    /// Weight invariant: at every internal node the stored weight equals
    /// the sum of the children's weights.
    pub open spec fn well_formed(&self) -> bool
        decreases self,
    {
        match self {
            HuffmanTree::LeafNode { .. } => true,
            HuffmanTree::InternalNode { weight, right, left } => {
                &&& left.well_formed()
                &&& right.well_formed()
                &&& *weight == left.spec_weight() + right.spec_weight()
            },
        }
    }

    /// The leaves of this subtree, in left-to-right order, as
    /// (symbol, weight) pairs.
    pub open spec fn leaves(&self) -> Seq<(char, u64)>
        decreases self,
    {
        match self {
            HuffmanTree::LeafNode { weight, element } => seq![(*element, *weight)],
            HuffmanTree::InternalNode { right, left, .. } => left.leaves() + right.leaves(),
        }
    }

    /// The symbols at the leaves, in left-to-right order.
    pub open spec fn leaf_symbols(&self) -> Seq<char> {
        self.leaves().map_values(|p: (char, u64)| p.0)
    }

    pub fn new_leaf(weight: u64, element: char) -> (r: Self)
        ensures
            r == (HuffmanTree::LeafNode { weight, element }),
    {
        HuffmanTree::LeafNode { weight, element }
    }

    pub fn new_internal(weight: u64, right: Box<HuffmanTree>, left: Box<HuffmanTree>) -> (r: Self)
        ensures
            r == (HuffmanTree::InternalNode { weight, right, left }),
    {
        HuffmanTree::InternalNode { weight, right, left }
    }

    /// The stored root weight.
    pub fn weight(&self) -> (r: u64)
        ensures
            r == self.spec_weight(),
    {
        match self {
            HuffmanTree::InternalNode { weight, .. } => *weight,
            HuffmanTree::LeafNode { weight, .. } => *weight,
        }
    }

    /// The sum of all leaf weights equals the root weight of a
    /// well-formed tree.
    pub proof fn lemma_weight_is_leaf_sum(&self)
        requires
            self.well_formed(),
        ensures
            self.spec_weight() == sum_weights(self.leaves()),
        decreases self,
    {
        match self {
            HuffmanTree::LeafNode { .. } => {
                let l = self.leaves();
                assert(l.drop_last() =~= Seq::<(char, u64)>::empty());
                assert(sum_weights(Seq::<(char, u64)>::empty()) == 0);
                assert(sum_weights(l) == sum_weights(l.drop_last()) + l.last().1);
            },
            HuffmanTree::InternalNode { right, left, .. } => {
                left.lemma_weight_is_leaf_sum();
                right.lemma_weight_is_leaf_sum();
                lemma_sum_weights_add(left.leaves(), right.leaves());
            },
        }
    }
}

/// Every tree has at least one leaf.
pub proof fn lemma_leaves_nonempty(t: &HuffmanTree)
    ensures
        t.leaves().len() >= 1,
    decreases t,
{
    match t {
        HuffmanTree::LeafNode { .. } => {
        },
        HuffmanTree::InternalNode { right, left, .. } => {
            lemma_leaves_nonempty(left);
            lemma_leaves_nonempty(right);
        },
    }
}

/// The sum of the weight components of a sequence of (symbol, weight) pairs.
pub open spec fn sum_weights(s: Seq<(char, u64)>) -> int
    decreases s.len(),
{
    if s.len() == 0 {
        0
    } else {
        sum_weights(s.drop_last()) + s.last().1
    }
}

/// `sum_weights` distributes over concatenation.
pub proof fn lemma_sum_weights_add(a: Seq<(char, u64)>, b: Seq<(char, u64)>)
    ensures
        sum_weights(a + b) == sum_weights(a) + sum_weights(b),
    decreases b.len(),
{
    if b.len() == 0 {
        assert(a + b =~= a);
    } else {
        lemma_sum_weights_add(a, b.drop_last());
        assert((a + b).drop_last() =~= a + b.drop_last());
        assert((a + b).last() == b.last());
    }
}

} // verus!
