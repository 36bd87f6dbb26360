//! The laws that tie the components together: a tree whose leaves carry
//! distinct symbols yields a valid code table, that table covers every
//! text drawn from the leaf symbols, and greedy decoding inverts encoding
//! over it.

use vstd::prelude::*;
use crate::codec::codes_nonempty;
use crate::codec::covers;
use crate::codec::distinct_symbols;
use crate::codec::encoded_bits;
use crate::codec::greedy_decode;
use crate::codec::lemma_decode_encode;
use crate::codec::prefix_free;
use crate::codes::code_of;
use crate::codes::entry_symbols;
use crate::codes::has_duplicate_codes;
use crate::codes::lemma_code_symbols;
use crate::codes::lemma_codes_nonempty;
use crate::codes::lemma_codes_prefix_free;
use crate::codes::tree_codes;
use crate::tree::HuffmanTree;

verus! {

/// A tree with distinct leaf symbols assigns a prefix-free set of
/// non-empty codes, one per symbol, with no code repeated.
pub proof fn lemma_tree_code_table_valid(t: HuffmanTree)
    requires
        t.leaf_symbols().no_duplicates(),
    ensures
        prefix_free(tree_codes(t)),
        distinct_symbols(tree_codes(t)),
        codes_nonempty(tree_codes(t)),
        !has_duplicate_codes(tree_codes(t)),
{
    let entries = tree_codes(t);
    assert forall|i: int, j: int|
        0 <= i < entries.len() && 0 <= j < entries.len() && i != j implies !(
    #[trigger] entries[i]).1.is_prefix_of((#[trigger] entries[j]).1) by {
        lemma_codes_prefix_free(t, i, j);
    }
    lemma_code_symbols(t);
    assert forall|i: int, j: int|
        0 <= i < j < entries.len() implies (#[trigger] entries[i]).0 != (
    #[trigger] entries[j]).0 by {
        assert(entry_symbols(entries)[i] == entries[i].0);
        assert(entry_symbols(entries)[j] == entries[j].0);
        assert(t.leaf_symbols()[i] != t.leaf_symbols()[j]);
    }
    assert forall|i: int| 0 <= i < entries.len() implies (#[trigger] entries[i]).1.len() >= 1 by {
        lemma_codes_nonempty(t, i);
    }
    if has_duplicate_codes(entries) {
        let (i, j): (int, int) = choose|i: int, j: int|
            0 <= i < j < entries.len() && (#[trigger] entries[i]).1 == (#[trigger] entries[j]).1;
        assert(entries[i].1.is_prefix_of(entries[j].1)) by {
            assert(entries[j].1.take(entries[i].1.len() as int) =~= entries[i].1);
        }
        assert(false);
    }
}

/// Every text drawn from the tree's leaf symbols has a code for each of
/// its symbols.
pub proof fn lemma_tree_covers(t: HuffmanTree, text: Seq<char>)
    requires
        forall|i: int| 0 <= i < text.len() ==> t.leaf_symbols().contains(#[trigger] text[i]),
    ensures
        covers(tree_codes(t), text),
{
    let entries = tree_codes(t);
    lemma_code_symbols(t);
    assert forall|i: int| 0 <= i < text.len() implies code_of(entries, #[trigger] text[i]) is Some by {
        let k = choose|k: int| 0 <= k < t.leaf_symbols().len() && t.leaf_symbols()[k] == text[i];
        assert(entry_symbols(entries)[k] == entries[k].0);
        assert(entries[k].0 == text[i]);
        crate::codec::lemma_code_of_some(entries, k);
    }
}

/// Corruption is never silent: against a tree with distinct leaf symbols,
/// a bit string that is not the encoding of `txt` never decodes to `txt`.
/// (This speaks of the meaningful bits; the padding bits of a packed
/// payload's last byte are discarded before decoding ever sees them.)
pub proof fn lemma_tree_decode_detects_change(t: HuffmanTree, bits: Seq<char>, txt: Seq<char>)
    requires
        t.leaf_symbols().no_duplicates(),
        bits != encoded_bits(txt, tree_codes(t)),
    ensures
        greedy_decode(tree_codes(t), Seq::empty(), bits) != Some(txt),
{
    lemma_tree_code_table_valid(t);
    crate::codec::lemma_decode_detects_change(tree_codes(t), bits, txt);
}

/// Round-trip law: for a tree with distinct leaf symbols and a text drawn
/// from them, greedy decoding of the encoded bit string returns the text.
pub proof fn lemma_tree_round_trip(t: HuffmanTree, text: Seq<char>)
    requires
        t.leaf_symbols().no_duplicates(),
        forall|i: int| 0 <= i < text.len() ==> t.leaf_symbols().contains(#[trigger] text[i]),
    ensures
        greedy_decode(tree_codes(t), Seq::empty(), encoded_bits(text, tree_codes(t))) == Some(
            text,
        ),
{
    lemma_tree_code_table_valid(t);
    lemma_tree_covers(t, text);
    lemma_decode_encode(tree_codes(t), text);
}

} // verus!
