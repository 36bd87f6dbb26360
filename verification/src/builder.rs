//! Huffman tree construction from a frequency table, via a weighted
//! min-priority queue held in a `Vec`. Each round removes the two
//! lightest nodes and replaces them with one internal node carrying their
//! combined weight. Ties on weight are broken deterministically: the node
//! standing earliest in the working list wins, so leaves compete in
//! first-occurrence order and merged nodes, pushed to the back, lose ties
//! against older nodes. The first node removed becomes the right child,
//! the second the left child.

use vstd::prelude::*;
use vstd::multiset::Multiset;
use vstd::seq_lib::lemma_multiset_commutative;
use crate::errors::HuffmanError;
use crate::frequency::FrequencyTable;
use crate::tree::HuffmanTree;
use crate::tree::sum_weights;

verus! {

/// The position of the lightest node in the working list; on equal
/// weights, the earliest position wins.
pub open spec fn spec_min_index(nodes: Seq<HuffmanTree>) -> int
    recommends
        nodes.len() >= 1,
    decreases nodes.len(),
{
    if nodes.len() <= 1 {
        0
    } else {
        let rest = spec_min_index(nodes.drop_first());
        if nodes[0].spec_weight() <= nodes[rest + 1].spec_weight() {
            0
        } else {
            rest + 1
        }
    }
}

/// `spec_min_index` names a position of minimal weight, and every earlier
/// position is strictly heavier.
pub proof fn lemma_spec_min_index_props(nodes: Seq<HuffmanTree>)
    requires
        nodes.len() >= 1,
    ensures
        0 <= spec_min_index(nodes) < nodes.len(),
        forall|k: int|
            0 <= k < nodes.len() ==> nodes[spec_min_index(nodes)].spec_weight() <= (
            #[trigger] nodes[k]).spec_weight(),
        forall|k: int|
            0 <= k < spec_min_index(nodes) ==> (#[trigger] nodes[k]).spec_weight()
                > nodes[spec_min_index(nodes)].spec_weight(),
    decreases nodes.len(),
{
    if nodes.len() > 1 {
        let d = nodes.drop_first();
        lemma_spec_min_index_props(d);
        let rest = spec_min_index(d);
        assert(forall|k: int| 0 <= k < d.len() ==> #[trigger] d[k] == nodes[k + 1]);
        let m = spec_min_index(nodes);
        if nodes[0].spec_weight() <= nodes[rest + 1].spec_weight() {
            assert(m == 0);
            assert forall|k: int|
                0 <= k < nodes.len() implies nodes[m].spec_weight() <= (
            #[trigger] nodes[k]).spec_weight() by {
                if k >= 1 {
                    assert(d[rest].spec_weight() <= d[k - 1].spec_weight());
                }
            }
        } else {
            assert(m == rest + 1);
            assert forall|k: int|
                0 <= k < nodes.len() implies nodes[m].spec_weight() <= (
            #[trigger] nodes[k]).spec_weight() by {
                if k >= 1 {
                    assert(d[rest].spec_weight() <= d[k - 1].spec_weight());
                }
            }
            assert forall|k: int|
                0 <= k < m implies (#[trigger] nodes[k]).spec_weight()
                > nodes[m].spec_weight() by {
                if k >= 1 {
                    assert(d[k - 1].spec_weight() > d[rest].spec_weight());
                }
            }
        }
    }
}

/// One round of the documented rule: remove the two lightest nodes
/// (earliest position wins ties), combine them into an internal node with
/// the first removed as the right child and the second as the left, and
/// push the combination to the back.
pub open spec fn spec_merge_round(nodes: Seq<HuffmanTree>) -> Seq<HuffmanTree>
    recommends
        nodes.len() >= 2,
{
    let a = spec_min_index(nodes);
    let right = nodes[a];
    let rest = nodes.remove(a);
    let b = spec_min_index(rest);
    let left = rest[b];
    rest.remove(b).push(
        HuffmanTree::InternalNode {
            weight: (right.spec_weight() + left.spec_weight()) as u64,
            right: Box::new(right),
            left: Box::new(left),
        },
    )
}

#[via_fn]
proof fn spec_build_decreases(nodes: Seq<HuffmanTree>) {
    if nodes.len() >= 2 {
        lemma_spec_min_index_props(nodes);
        lemma_spec_min_index_props(nodes.remove(spec_min_index(nodes)));
    }
}

/// The tree the documented rule produces from the working list: merge
/// rounds until one node remains.
pub open spec fn spec_build(nodes: Seq<HuffmanTree>) -> HuffmanTree
    decreases nodes.len(),
    when nodes.len() >= 1
    via spec_build_decreases
{
    if nodes.len() == 1 {
        nodes[0]
    } else {
        spec_build(spec_merge_round(nodes))
    }
}

/// An index with the minimum-and-earliest properties is `spec_min_index`.
proof fn lemma_min_index_agrees(nodes: Seq<HuffmanTree>, r: int)
    requires
        nodes.len() >= 1,
        0 <= r < nodes.len(),
        forall|k: int|
            0 <= k < nodes.len() ==> nodes[r].spec_weight() <= (#[trigger] nodes[k]).spec_weight(),
        forall|k: int| 0 <= k < r ==> (#[trigger] nodes[k]).spec_weight() > nodes[r].spec_weight(),
    ensures
        spec_min_index(nodes) == r,
{
    lemma_spec_min_index_props(nodes);
    let m = spec_min_index(nodes);
    if m < r {
        assert(nodes[m].spec_weight() > nodes[r].spec_weight());
        assert(nodes[r].spec_weight() >= nodes[m].spec_weight());
    } else if r < m {
        assert(nodes[r].spec_weight() > nodes[m].spec_weight());
        assert(nodes[m].spec_weight() >= nodes[r].spec_weight());
    }
}

/// The key (symbol) column of a frequency table.
pub open spec fn table_keys(s: Seq<(char, u64)>) -> Seq<char> {
    s.map_values(|p: (char, u64)| p.0)
}

/// One leaf per table entry, in table order.
pub open spec fn table_leaves(s: Seq<(char, u64)>) -> Seq<HuffmanTree>
    decreases s.len(),
{
    if s.len() == 0 {
        Seq::empty()
    } else {
        table_leaves(s.drop_last()).push(
            HuffmanTree::LeafNode { weight: s.last().1, element: s.last().0 },
        )
    }
}

/// The combined weight of every node in the working list.
pub open spec fn pool_weight(nodes: Seq<HuffmanTree>) -> int
    decreases nodes.len(),
{
    if nodes.len() == 0 {
        0
    } else {
        pool_weight(nodes.drop_last()) + nodes.last().spec_weight()
    }
}

/// The leaf symbols of every node in the working list, as one multiset.
pub open spec fn pool_symbols(nodes: Seq<HuffmanTree>) -> Multiset<char>
    decreases nodes.len(),
{
    if nodes.len() == 0 {
        Multiset::empty()
    } else {
        pool_symbols(nodes.drop_last()).add(nodes.last().leaf_symbols().to_multiset())
    }
}

/// The (symbol, weight) leaves of every node in the working list, as one
/// multiset.
pub open spec fn pool_leaves(nodes: Seq<HuffmanTree>) -> Multiset<(char, u64)>
    decreases nodes.len(),
{
    if nodes.len() == 0 {
        Multiset::empty()
    } else {
        pool_leaves(nodes.drop_last()).add(nodes.last().leaves().to_multiset())
    }
}

/// Every node in the working list satisfies the weight invariant.
pub open spec fn pool_wf(nodes: Seq<HuffmanTree>) -> bool {
    forall|i: int| 0 <= i < nodes.len() ==> (#[trigger] nodes[i]).well_formed()
}

proof fn lemma_pool_weight_nonneg(nodes: Seq<HuffmanTree>)
    ensures
        pool_weight(nodes) >= 0,
    decreases nodes.len(),
{
    if nodes.len() > 0 {
        lemma_pool_weight_nonneg(nodes.drop_last());
    }
}

/// Appending a node adds its weight, its leaf symbols and its leaves to
/// the pool.
proof fn lemma_pool_push(nodes: Seq<HuffmanTree>, t: HuffmanTree)
    ensures
        pool_weight(nodes.push(t)) == pool_weight(nodes) + t.spec_weight(),
        pool_symbols(nodes.push(t)) == pool_symbols(nodes).add(t.leaf_symbols().to_multiset()),
        pool_leaves(nodes.push(t)) == pool_leaves(nodes).add(t.leaves().to_multiset()),
{
    assert(nodes.push(t).drop_last() =~= nodes);
    assert(nodes.push(t).last() == t);
}

/// Removing the node at `i` takes exactly its weight, its leaf symbols
/// and its leaves out of the pool.
proof fn lemma_pool_remove(nodes: Seq<HuffmanTree>, i: int)
    requires
        0 <= i < nodes.len(),
    ensures
        pool_weight(nodes) == pool_weight(nodes.remove(i)) + nodes[i].spec_weight(),
        pool_symbols(nodes) =~= pool_symbols(nodes.remove(i)).add(
            nodes[i].leaf_symbols().to_multiset(),
        ),
        pool_leaves(nodes) =~= pool_leaves(nodes.remove(i)).add(nodes[i].leaves().to_multiset()),
    decreases nodes.len(),
{
    broadcast use vstd::multiset::group_multiset_axioms;

    if i == nodes.len() - 1 {
        assert(nodes.remove(i) =~= nodes.drop_last());
    } else {
        assert(nodes.remove(i).drop_last() =~= nodes.drop_last().remove(i));
        assert(nodes.remove(i).last() == nodes.last());
        lemma_pool_remove(nodes.drop_last(), i);
    }
}

/// The position of the lightest node; on equal weights, the earliest
/// position wins.
fn min_weight_index(nodes: &Vec<HuffmanTree>) -> (r: usize)
    requires
        nodes@.len() >= 1,
    ensures
        r < nodes@.len(),
        forall|k: int|
            0 <= k < nodes@.len() ==> nodes@[r as int].spec_weight() <= (
            #[trigger] nodes@[k]).spec_weight(),
        forall|k: int|
            0 <= k < r ==> (#[trigger] nodes@[k]).spec_weight() > nodes@[
                r as int
            ].spec_weight(),
{
    let mut best: usize = 0;
    let mut best_weight: u64 = nodes[0].weight();
    let mut j: usize = 1;
    while j < nodes.len()
        invariant
            best < j <= nodes@.len(),
            nodes@.len() >= 1,
            best_weight == nodes@[best as int].spec_weight(),
            forall|k: int| 0 <= k < j ==> best_weight <= (#[trigger] nodes@[k]).spec_weight(),
            forall|k: int| 0 <= k < best ==> (#[trigger] nodes@[k]).spec_weight() > best_weight,
        decreases nodes@.len() - j,
    {
        let w = nodes[j].weight();
        if w < best_weight {
            best = j;
            best_weight = w;
        }
        j += 1;
    }
    best
}

/// Merges the working list down to a single well-formed tree: exactly the
/// tree of the documented rule (`spec_build`), whose weight is the pool's
/// combined weight and whose leaves carry exactly the pool's symbols.
pub fn build_tree(nodes: &mut Vec<HuffmanTree>)
    requires
        old(nodes)@.len() >= 1,
        pool_wf(old(nodes)@),
        pool_weight(old(nodes)@) <= u64::MAX,
    ensures
        final(nodes)@.len() == 1,
        final(nodes)@[0] == spec_build(old(nodes)@),
        final(nodes)@[0].well_formed(),
        final(nodes)@[0].spec_weight() == pool_weight(old(nodes)@),
        final(nodes)@[0].leaf_symbols().to_multiset() == pool_symbols(old(nodes)@),
        final(nodes)@[0].leaves().to_multiset() == pool_leaves(old(nodes)@),
{
    while nodes.len() > 1
        invariant
            nodes@.len() >= 1,
            pool_wf(nodes@),
            pool_weight(nodes@) == pool_weight(old(nodes)@),
            pool_symbols(nodes@) == pool_symbols(old(nodes)@),
            pool_leaves(nodes@) == pool_leaves(old(nodes)@),
            pool_weight(old(nodes)@) <= u64::MAX,
            spec_build(nodes@) == spec_build(old(nodes)@),
        decreases nodes@.len(),
    {
        let ghost s0 = nodes@;
        let a = min_weight_index(nodes);
        proof {
            lemma_min_index_agrees(s0, a as int);
            lemma_pool_remove(s0, a as int);
            lemma_pool_weight_nonneg(s0.remove(a as int));
        }
        let right_node = nodes.remove(a);
        let ghost s1 = nodes@;
        let b = min_weight_index(nodes);
        proof {
            lemma_min_index_agrees(s1, b as int);
            lemma_pool_remove(s1, b as int);
            lemma_pool_weight_nonneg(s1.remove(b as int));
        }
        let left_node = nodes.remove(b);
        let node_weight = right_node.weight() + left_node.weight();
        let internal = HuffmanTree::new_internal(
            node_weight,
            Box::new(right_node),
            Box::new(left_node),
        );
        proof {
            assert(internal.leaf_symbols() =~= left_node.leaf_symbols()
                + right_node.leaf_symbols());
            assert(internal.leaves() == left_node.leaves() + right_node.leaves());
            lemma_multiset_commutative(left_node.leaf_symbols(), right_node.leaf_symbols());
            lemma_multiset_commutative(left_node.leaves(), right_node.leaves());
            lemma_pool_push(nodes@, internal);
            broadcast use vstd::multiset::group_multiset_axioms;

            assert(pool_symbols(nodes@.push(internal)) =~= pool_symbols(s0));
            assert(pool_leaves(nodes@.push(internal)) =~= pool_leaves(s0));
            assert(nodes@.push(internal) =~= spec_merge_round(s0));
            assert(spec_build(nodes@.push(internal)) == spec_build(s0));
        }
        nodes.push(internal);
    }
    proof {
        broadcast use vstd::multiset::group_multiset_axioms;

        assert(nodes@.drop_last() =~= Seq::<HuffmanTree>::empty());
        assert(nodes@.last() == nodes@[0]);
        assert(pool_weight(Seq::<HuffmanTree>::empty()) == 0);
        assert(pool_symbols(Seq::<HuffmanTree>::empty()) == Multiset::<char>::empty());
        assert(pool_leaves(Seq::<HuffmanTree>::empty()) == Multiset::<(char, u64)>::empty());
        assert(pool_weight(nodes@) == pool_weight(nodes@.drop_last()) + nodes@.last().spec_weight());
        assert(pool_symbols(nodes@) == pool_symbols(nodes@.drop_last()).add(
            nodes@.last().leaf_symbols().to_multiset(),
        ));
        assert(pool_leaves(nodes@) == pool_leaves(nodes@.drop_last()).add(
            nodes@.last().leaves().to_multiset(),
        ));
        assert(pool_symbols(nodes@) =~= nodes@[0].leaf_symbols().to_multiset());
        assert(pool_leaves(nodes@) =~= nodes@[0].leaves().to_multiset());
        assert(spec_build(nodes@) == nodes@[0]);
    }
}

/// Builds the Huffman tree of a frequency table: exactly the tree of the
/// documented rule run on one leaf per table entry, in table order. Fails
/// exactly on an empty table; on success the tree is well-formed, its
/// root weight is the sum of all counts, and its leaves carry exactly the
/// table's entries.
pub fn generate_huffman_tree(table: &FrequencyTable) -> (r: Result<HuffmanTree, HuffmanError>)
    requires
        sum_weights(table@) <= u64::MAX,
    ensures
        r is Err <==> table@.len() == 0,
        r is Err ==> r == Err::<HuffmanTree, HuffmanError>(HuffmanError::EmptyTable),
        r matches Ok(t) ==> {
            &&& t == spec_build(table_leaves(table@))
            &&& t.well_formed()
            &&& t.spec_weight() == sum_weights(table@)
            &&& t.leaf_symbols().to_multiset() == table_keys(table@).to_multiset()
            &&& t.leaves().to_multiset() == table@.to_multiset()
        },
{
    broadcast use vstd::seq_lib::group_to_multiset_ensures;

    if table.is_empty() {
        return Err(HuffmanError::EmptyTable);
    }
    let n = table.len();
    let mut nodes: Vec<HuffmanTree> = Vec::new();
    proof {
        assert(table@.take(0) =~= Seq::<(char, u64)>::empty());
        assert(table_keys(table@.take(0)) =~= Seq::<char>::empty());
        assert(table_leaves(table@.take(0)).len() == 0);
        assert(table_leaves(table@.take(0)) =~= Seq::<HuffmanTree>::empty());
        assert(Seq::<char>::empty().to_multiset() =~= Multiset::<char>::empty());
        assert(Seq::<(char, u64)>::empty().to_multiset() =~= Multiset::<(char, u64)>::empty());
    }
    let mut i: usize = 0;
    while i < n
        invariant
            n == table@.len(),
            i <= n,
            nodes@.len() == i,
            pool_wf(nodes@),
            pool_weight(nodes@) == sum_weights(table@.take(i as int)),
            pool_symbols(nodes@) == table_keys(table@.take(i as int)).to_multiset(),
            pool_leaves(nodes@) == table@.take(i as int).to_multiset(),
            nodes@ == table_leaves(table@.take(i as int)),
            sum_weights(table@) <= u64::MAX,
        decreases n - i,
    {
        broadcast use vstd::seq_lib::group_to_multiset_ensures;

        let entry = table.get(i);
        let leaf = HuffmanTree::new_leaf(entry.1, entry.0);
        proof {
            lemma_pool_push(nodes@, leaf);
            assert(leaf.leaf_symbols() =~= seq![entry.0]);
            assert(seq![entry.0] =~= Seq::<char>::empty().push(entry.0));
            assert(seq![entry.0].to_multiset() =~= Multiset::<char>::empty().insert(entry.0));
            assert(leaf.leaves() =~= Seq::<(char, u64)>::empty().push(entry));
            assert(leaf.leaves().to_multiset() =~= Multiset::<(char, u64)>::empty().insert(entry));
            assert(table@.take(i + 1).drop_last() =~= table@.take(i as int));
            assert(table@.take(i + 1) =~= table@.take(i as int).push(entry));
            assert(table_keys(table@.take(i + 1)) =~= table_keys(table@.take(i as int)).push(
                entry.0,
            ));
            assert(table@.take(i + 1).last() == entry);
            assert(table_leaves(table@.take(i + 1)) == table_leaves(table@.take(i as int)).push(
                leaf,
            ));
        }
        nodes.push(leaf);
        i += 1;
    }
    proof {
        assert(table@.take(n as int) =~= table@);
        assert(nodes@ == table_leaves(table@));
    }
    build_tree(&mut nodes);
    let t = nodes.pop().unwrap();
    Ok(t)
}

} // verus!
