//! Prefix-code generation: one full descent of the Huffman tree assigns
//! every leaf the bit string spelled by its path, '0' for a left branch
//! and '1' for a right branch. A tree that is a single leaf gets the fixed
//! one-bit code "0" for its sole symbol, so that every code is non-empty
//! and the greedy decoder needs no special case.

use vstd::prelude::*;
use crate::tree::HuffmanTree;

verus! {

/// The (symbol, code) pairs of the leaves under `t`, left to right, each
/// code extending `prefix` by the path below `t`.
pub open spec fn code_entries(t: HuffmanTree, prefix: Seq<char>) -> Seq<(char, Seq<char>)>
    decreases t,
{
    match t {
        HuffmanTree::LeafNode { element, .. } => seq![(element, prefix)],
        HuffmanTree::InternalNode { right, left, .. } => code_entries(*left, prefix.push('0'))
            + code_entries(*right, prefix.push('1')),
    }
}

/// The code assignment of a whole tree: path bit strings, except that the
/// sole symbol of a single-leaf tree gets the one-bit code "0".
pub open spec fn tree_codes(t: HuffmanTree) -> Seq<(char, Seq<char>)> {
    match t {
        HuffmanTree::LeafNode { element, .. } => seq![(element, seq!['0'])],
        HuffmanTree::InternalNode { .. } => code_entries(t, Seq::empty()),
    }
}

/// A symbol-to-code table: one entry per leaf of the tree it was built
/// from, in leaf order.
pub struct CodeTable {
    entries: Vec<(char, String)>,
}

impl View for CodeTable {
    type V = Seq<(char, Seq<char>)>;

    closed spec fn view(&self) -> Seq<(char, Seq<char>)> {
        self.entries.deep_view()
    }
}

impl CodeTable {
    pub fn new() -> (r: Self)
        ensures
            r@ == Seq::<(char, Seq<char>)>::empty(),
    {
        let entries: Vec<(char, String)> = Vec::new();
        assert(entries.deep_view() =~= Seq::<(char, Seq<char>)>::empty());
        CodeTable { entries }
    }

    /// The number of entries.
    pub fn len(&self) -> (r: usize)
        ensures
            r == self@.len(),
    {
        self.entries.len()
    }

    /// The entry at position `i`: the symbol and a copy of its code.
    pub fn get(&self, i: usize) -> (r: (char, String))
        requires
            i < self@.len(),
        ensures
            (r.0, r.1@) == self@[i as int],
    {
        let p = &self.entries[i];
        (p.0, p.1.clone())
    }
}

/// The code of the first entry that carries symbol `c`, if any.
pub open spec fn code_of(entries: Seq<(char, Seq<char>)>, c: char) -> Option<Seq<char>>
    decreases entries.len(),
{
    if entries.len() == 0 {
        None
    } else if entries[0].0 == c {
        Some(entries[0].1)
    } else {
        code_of(entries.drop_first(), c)
    }
}

/// The symbol of the first entry that carries exactly `code`, if any.
pub open spec fn symbol_of(entries: Seq<(char, Seq<char>)>, code: Seq<char>) -> Option<char>
    decreases entries.len(),
{
    if entries.len() == 0 {
        None
    } else if entries[0].1 == code {
        Some(entries[0].0)
    } else {
        symbol_of(entries.drop_first(), code)
    }
}

/// Two entries share one code, so no inverse mapping exists.
pub open spec fn has_duplicate_codes(entries: Seq<(char, Seq<char>)>) -> bool {
    exists|i: int, j: int|
        0 <= i < j < entries.len() && (#[trigger] entries[i]).1 == (#[trigger] entries[j]).1
}

impl CodeTable {
    /// A copy of the code recorded for symbol `c`, if any entry carries it.
    pub fn code_for(&self, c: char) -> (r: Option<String>)
        ensures
            match r {
                Some(s) => code_of(self@, c) == Some(s@),
                None => code_of(self@, c) is None,
            },
    {
        let mut j: usize = 0;
        proof {
            assert(self@.skip(0) =~= self@);
        }
        while j < self.entries.len()
            invariant
                j <= self@.len(),
                self@.len() == self.entries@.len(),
                code_of(self@, c) == code_of(self@.skip(j as int), c),
            decreases self@.len() - j,
        {
            proof {
                assert(self@.skip(j as int)[0] == self@[j as int]);
            }
            if self.entries[j].0 == c {
                return Some(self.entries[j].1.clone());
            }
            proof {
                assert(self@.skip(j as int).drop_first() =~= self@.skip(j as int + 1));
            }
            j += 1;
        }
        proof {
            assert(self@.skip(j as int).len() == 0);
        }
        None
    }

    /// The symbol whose code is exactly `code`, if any entry carries it.
    pub fn symbol_for(&self, code: &String) -> (r: Option<char>)
        ensures
            r == symbol_of(self@, code@),
    {
        let mut j: usize = 0;
        proof {
            assert(self@.skip(0) =~= self@);
        }
        while j < self.entries.len()
            invariant
                j <= self@.len(),
                self@.len() == self.entries@.len(),
                symbol_of(self@, code@) == symbol_of(self@.skip(j as int), code@),
            decreases self@.len() - j,
        {
            proof {
                assert(self@.skip(j as int)[0] == self@[j as int]);
            }
            if self.entries[j].1.eq(code) {
                return Some(self.entries[j].0);
            }
            proof {
                assert(self@.skip(j as int).drop_first() =~= self@.skip(j as int + 1));
            }
            j += 1;
        }
        proof {
            assert(self@.skip(j as int).len() == 0);
        }
        None
    }

    /// Appends one entry. The table does not police prefix-freeness:
    /// decoding checks an untrusted table itself.
    pub fn push_entry(&mut self, symbol: char, code: String)
        ensures
            final(self)@ == old(self)@.push((symbol, code@)),
    {
        let ghost old_view = self@;
        let ghost code_view = code@;
        self.entries.push((symbol, code));
        proof {
            assert(self@ =~= old_view.push((symbol, code_view)));
        }
    }

    /// Whether two entries share one code.
    pub fn has_ambiguity(&self) -> (r: bool)
        ensures
            r == has_duplicate_codes(self@),
    {
        let n = self.entries.len();
        let mut i: usize = 0;
        while i < n
            invariant
                n == self@.len(),
                i <= n,
                forall|p: int, q: int|
                    0 <= p < q < n && p < i ==> (#[trigger] self@[p]).1 != (
                    #[trigger] self@[q]).1,
            decreases n - i,
        {
            let mut j: usize = i + 1;
            while j < n
                invariant
                    n == self@.len(),
                    i < j <= n,
                    forall|q: int| i < q < j ==> (#[trigger] self@[q]).1 != self@[i as int].1,
                decreases n - j,
            {
                if self.entries[i].1.eq(&self.entries[j].1) {
                    proof {
                        assert(self@[i as int].1 == self@[j as int].1);
                        assert(0 <= i < j < self@.len());
                    }
                    return true;
                }
                j += 1;
            }
            i += 1;
        }
        false
    }
}

/// Walks the subtree `t`, recording under each leaf the accumulated path
/// string, and appends the new entries to `out` in leaf order.
fn collect_codes(t: &HuffmanTree, prefix: &String, out: &mut Vec<(char, String)>)
    ensures
        final(out).deep_view() == old(out).deep_view() + code_entries(*t, prefix@),
    decreases t,
{
    match t {
        HuffmanTree::LeafNode { element, .. } => {
            out.push((*element, prefix.clone()));
            proof {
                assert(out.deep_view() =~= old(out).deep_view() + code_entries(*t, prefix@));
            }
        },
        HuffmanTree::InternalNode { right, left, .. } => {
            let mut p0 = prefix.clone();
            p0.append("0");
            let mut p1 = prefix.clone();
            p1.append("1");
            proof {
                reveal_strlit("0");
                reveal_strlit("1");
                assert(p0@ =~= prefix@.push('0'));
                assert(p1@ =~= prefix@.push('1'));
            }
            collect_codes(left, &p0, out);
            collect_codes(right, &p1, out);
            proof {
                assert(out.deep_view() =~= old(out).deep_view() + code_entries(*t, prefix@));
            }
        },
    }
}

/// Builds the code table of `huffman_tree`: exactly the tree's code
/// assignment, with the single-leaf degenerate case mapped to "0".
pub fn generate_huffman_code(huffman_tree: &HuffmanTree) -> (r: CodeTable)
    ensures
        r@ == tree_codes(*huffman_tree),
{
    let mut entries: Vec<(char, String)> = Vec::new();
    match huffman_tree {
        HuffmanTree::LeafNode { element, .. } => {
            let mut code = String::new();
            code.append("0");
            proof {
                reveal_strlit("0");
                assert(code@ =~= seq!['0']);
            }
            entries.push((*element, code));
            proof {
                assert(entries.deep_view() =~= tree_codes(*huffman_tree));
            }
        },
        HuffmanTree::InternalNode { .. } => {
            let prefix = String::new();
            collect_codes(huffman_tree, &prefix, &mut entries);
            proof {
                assert(Seq::<(char, Seq<char>)>::empty() + code_entries(*huffman_tree, prefix@)
                    =~= code_entries(*huffman_tree, prefix@));
                assert(prefix@ =~= Seq::<char>::empty());
            }
        },
    }
    CodeTable { entries }
}

/// Every code under `t` extends `prefix` and a leaf at the root keeps it
/// exactly.
proof fn lemma_entries_extend(t: HuffmanTree, prefix: Seq<char>)
    ensures
        forall|k: int|
            0 <= k < code_entries(t, prefix).len() ==> {
                &&& (#[trigger] code_entries(t, prefix)[k]).1.len() >= prefix.len()
                &&& code_entries(t, prefix)[k].1.take(prefix.len() as int) == prefix
            },
    decreases t,
{
    match t {
        HuffmanTree::LeafNode { .. } => {
            assert(prefix.take(prefix.len() as int) =~= prefix);
        },
        HuffmanTree::InternalNode { right, left, .. } => {
            lemma_entries_extend(*left, prefix.push('0'));
            lemma_entries_extend(*right, prefix.push('1'));
            let l = code_entries(*left, prefix.push('0'));
            let r = code_entries(*right, prefix.push('1'));
            assert forall|k: int| 0 <= k < code_entries(t, prefix).len() implies {
                &&& (#[trigger] code_entries(t, prefix)[k]).1.len() >= prefix.len()
                &&& code_entries(t, prefix)[k].1.take(prefix.len() as int) == prefix
            } by {
                let e = code_entries(t, prefix)[k];
                if k < l.len() {
                    assert(e == l[k]);
                    assert(e.1.take(prefix.push('0').len() as int) == prefix.push('0'));
                    assert(e.1.take(prefix.len() as int) =~= prefix);
                } else {
                    assert(e == r[k - l.len()]);
                    assert(e.1.take(prefix.push('1').len() as int) == prefix.push('1'));
                    assert(e.1.take(prefix.len() as int) =~= prefix);
                }
            }
        },
    }
}

/// Distinct leaves under `t` get codes of which neither is a prefix of
/// the other.
proof fn lemma_entries_prefix_free(t: HuffmanTree, prefix: Seq<char>, i: int, j: int)
    requires
        0 <= i < code_entries(t, prefix).len(),
        0 <= j < code_entries(t, prefix).len(),
        i != j,
    ensures
        !code_entries(t, prefix)[i].1.is_prefix_of(code_entries(t, prefix)[j].1),
    decreases t,
{
    match t {
        HuffmanTree::LeafNode { .. } => {
            assert(false);
        },
        HuffmanTree::InternalNode { right, left, .. } => {
            let l = code_entries(*left, prefix.push('0'));
            let r = code_entries(*right, prefix.push('1'));
            let a = code_entries(t, prefix)[i].1;
            let b = code_entries(t, prefix)[j].1;
            if i < l.len() && j < l.len() {
                lemma_entries_prefix_free(*left, prefix.push('0'), i, j);
            } else if i >= l.len() && j >= l.len() {
                lemma_entries_prefix_free(*right, prefix.push('1'), i - l.len(), j - l.len());
            } else {
                lemma_entries_extend(*left, prefix.push('0'));
                lemma_entries_extend(*right, prefix.push('1'));
                let p = prefix.len() as int;
                if i < l.len() {
                    assert(a == l[i].1 && b == r[j - l.len()].1);
                    assert(a.take(p + 1) == prefix.push('0'));
                    assert(b.take(p + 1) == prefix.push('1'));
                    assert(a[p] == a.take(p + 1)[p]);
                    assert(b[p] == b.take(p + 1)[p]);
                    assert(a[p] == '0' && b[p] == '1');
                    if a.is_prefix_of(b) {
                        assert(b.take(a.len() as int)[p] == a[p]);
                        assert(false);
                    }
                } else {
                    assert(a == r[i - l.len()].1);
                    assert(b == l[j].1);
                    assert(a.take(p + 1) == prefix.push('1'));
                    assert(b.take(p + 1) == prefix.push('0'));
                    assert(a[p] == a.take(p + 1)[p]);
                    assert(b[p] == b.take(p + 1)[p]);
                    assert(a[p] == '1' && b[p] == '0');
                    if a.is_prefix_of(b) {
                        assert(b.take(a.len() as int)[p] == a[p]);
                        assert(false);
                    }
                }
            }
        },
    }
}

/// Prefix-free invariant: among the codes a tree assigns, no code is a
/// prefix of another (nor equal to it). This holds for every tree; the
/// single-leaf tree assigns one code only, so the claim is vacuous there.
pub proof fn lemma_codes_prefix_free(t: HuffmanTree, i: int, j: int)
    requires
        0 <= i < tree_codes(t).len(),
        0 <= j < tree_codes(t).len(),
        i != j,
    ensures
        !tree_codes(t)[i].1.is_prefix_of(tree_codes(t)[j].1),
{
    match t {
        HuffmanTree::LeafNode { .. } => {
            assert(false);
        },
        HuffmanTree::InternalNode { .. } => {
            lemma_entries_prefix_free(t, Seq::empty(), i, j);
        },
    }
}

/// Every code a tree assigns is non-empty.
pub proof fn lemma_codes_nonempty(t: HuffmanTree, i: int)
    requires
        0 <= i < tree_codes(t).len(),
    ensures
        tree_codes(t)[i].1.len() >= 1,
{
    match t {
        HuffmanTree::LeafNode { element, .. } => {
            assert(tree_codes(t).len() == 1);
            assert(tree_codes(t)[0] == (element, seq!['0']));
            assert(tree_codes(t)[i].1 == seq!['0']);
            assert(seq!['0'].len() == 1);
            assert(tree_codes(t)[i].1.len() >= 1);
        },
        HuffmanTree::InternalNode { right, left, .. } => {
            lemma_entries_extend(*left, Seq::<char>::empty().push('0'));
            lemma_entries_extend(*right, Seq::<char>::empty().push('1'));
            let l = code_entries(*left, Seq::<char>::empty().push('0'));
            let r = code_entries(*right, Seq::<char>::empty().push('1'));
            assert(tree_codes(t) == l + r);
            if i < l.len() {
                assert(tree_codes(t)[i] == l[i]);
                assert(l[i].1.len() >= Seq::<char>::empty().push('0').len());
            } else {
                assert(tree_codes(t)[i] == r[i - l.len()]);
                assert(r[i - l.len()].1.len() >= Seq::<char>::empty().push('1').len());
            }
        },
    }
}

/// Every code under `t` is at most `prefix.len()` plus the depth budget:
/// one bit per leaf below `t`, less one.
proof fn lemma_entries_code_len(t: HuffmanTree, prefix: Seq<char>)
    ensures
        forall|k: int|
            0 <= k < code_entries(t, prefix).len() ==> (#[trigger] code_entries(t, prefix)[k]).1.len()
                <= prefix.len() + t.leaves().len() - 1,
    decreases t,
{
    match t {
        HuffmanTree::LeafNode { .. } => {
        },
        HuffmanTree::InternalNode { right, left, .. } => {
            lemma_entries_code_len(*left, prefix.push('0'));
            lemma_entries_code_len(*right, prefix.push('1'));
            crate::tree::lemma_leaves_nonempty(&left);
            crate::tree::lemma_leaves_nonempty(&right);
            let l = code_entries(*left, prefix.push('0'));
            let r = code_entries(*right, prefix.push('1'));
            assert forall|k: int|
                0 <= k < code_entries(t, prefix).len() implies (#[trigger] code_entries(
                t,
                prefix,
            )[k]).1.len() <= prefix.len() + t.leaves().len() - 1 by {
                assert(t.leaves().len() == left.leaves().len() + right.leaves().len());
                if k < l.len() {
                    assert(code_entries(t, prefix)[k] == l[k]);
                } else {
                    assert(code_entries(t, prefix)[k] == r[k - l.len()]);
                }
            }
        },
    }
}

/// No code a tree assigns is longer than the tree's number of leaves.
pub proof fn lemma_codes_length_bound(t: HuffmanTree)
    ensures
        forall|k: int|
            0 <= k < tree_codes(t).len() ==> (#[trigger] tree_codes(t)[k]).1.len() <= t.leaves().len(),
{
    match t {
        HuffmanTree::LeafNode { element, .. } => {
            assert(tree_codes(t)[0] == (element, seq!['0']));
            assert(seq!['0'].len() == 1);
        },
        HuffmanTree::InternalNode { .. } => {
            lemma_entries_code_len(t, Seq::empty());
        },
    }
}

/// Every code under a binary prefix is a '0'/'1' string.
proof fn lemma_entries_binary(t: HuffmanTree, prefix: Seq<char>)
    requires
        crate::bits::is_bit_string(prefix),
    ensures
        forall|k: int|
            0 <= k < code_entries(t, prefix).len() ==> crate::bits::is_bit_string(
                (#[trigger] code_entries(t, prefix)[k]).1,
            ),
    decreases t,
{
    match t {
        HuffmanTree::LeafNode { .. } => {
        },
        HuffmanTree::InternalNode { right, left, .. } => {
            assert(crate::bits::is_bit_string(prefix.push('0')));
            assert(crate::bits::is_bit_string(prefix.push('1')));
            lemma_entries_binary(*left, prefix.push('0'));
            lemma_entries_binary(*right, prefix.push('1'));
            let l = code_entries(*left, prefix.push('0'));
            let r = code_entries(*right, prefix.push('1'));
            assert forall|k: int|
                0 <= k < code_entries(t, prefix).len() implies crate::bits::is_bit_string(
                (#[trigger] code_entries(t, prefix)[k]).1,
            ) by {
                if k < l.len() {
                    assert(code_entries(t, prefix)[k] == l[k]);
                } else {
                    assert(code_entries(t, prefix)[k] == r[k - l.len()]);
                }
            }
        },
    }
}

/// Every code a tree assigns is a '0'/'1' string.
pub proof fn lemma_codes_binary(t: HuffmanTree)
    ensures
        forall|k: int|
            0 <= k < tree_codes(t).len() ==> crate::bits::is_bit_string(
                (#[trigger] tree_codes(t)[k]).1,
            ),
{
    match t {
        HuffmanTree::LeafNode { .. } => {
            assert(crate::bits::is_bit_string(seq!['0']));
        },
        HuffmanTree::InternalNode { .. } => {
            assert(crate::bits::is_bit_string(Seq::<char>::empty()));
            lemma_entries_binary(t, Seq::empty());
        },
    }
}

/// The symbol column of a code entry sequence.
pub open spec fn entry_symbols(s: Seq<(char, Seq<char>)>) -> Seq<char> {
    s.map_values(|e: (char, Seq<char>)| e.0)
}

/// The symbol column of a tree's code table is exactly the tree's leaf
/// symbol sequence.
pub proof fn lemma_code_symbols(t: HuffmanTree)
    ensures
        entry_symbols(tree_codes(t)) == t.leaf_symbols(),
{
    lemma_entry_symbols_general(t, Seq::empty());
    match t {
        HuffmanTree::LeafNode { .. } => {
            assert(entry_symbols(tree_codes(t)) =~= t.leaf_symbols());
        },
        HuffmanTree::InternalNode { .. } => {
        },
    }
}

/// The symbol column of `code_entries` is the leaf symbol sequence,
/// whatever the prefix.
proof fn lemma_entry_symbols_general(t: HuffmanTree, prefix: Seq<char>)
    ensures
        entry_symbols(code_entries(t, prefix)) == t.leaf_symbols(),
    decreases t,
{
    match t {
        HuffmanTree::LeafNode { .. } => {
            assert(entry_symbols(code_entries(t, prefix)) =~= t.leaf_symbols());
        },
        HuffmanTree::InternalNode { right, left, .. } => {
            lemma_entry_symbols_general(*left, prefix.push('0'));
            lemma_entry_symbols_general(*right, prefix.push('1'));
            let l = code_entries(*left, prefix.push('0'));
            let r = code_entries(*right, prefix.push('1'));
            assert(entry_symbols(l).len() == left.leaf_symbols().len());
            assert(entry_symbols(r).len() == right.leaf_symbols().len());
            assert(l.len() == left.leaves().len());
            assert(r.len() == right.leaves().len());
            assert(t.leaves() == left.leaves() + right.leaves());
            assert forall|k: int|
                0 <= k < code_entries(t, prefix).len() implies entry_symbols(
                code_entries(t, prefix),
            )[k] == t.leaf_symbols()[k] by {
                assert(t.leaf_symbols()[k] == t.leaves()[k].0);
                assert(entry_symbols(code_entries(t, prefix))[k] == code_entries(t, prefix)[k].0);
                if k < l.len() {
                    assert(code_entries(t, prefix)[k] == l[k]);
                    assert(t.leaves()[k] == left.leaves()[k]);
                    assert(entry_symbols(l)[k] == left.leaf_symbols()[k]);
                } else {
                    assert(code_entries(t, prefix)[k] == r[k - l.len()]);
                    assert(t.leaves()[k] == right.leaves()[k - l.len()]);
                    assert(entry_symbols(r)[k - l.len()] == right.leaf_symbols()[k - l.len()]);
                }
            }
            assert(entry_symbols(code_entries(t, prefix)).len() == t.leaf_symbols().len());
            assert(entry_symbols(code_entries(t, prefix)) =~= t.leaf_symbols());
        },
    }
}

} // verus!
