//! The container format. The tree is serialized into a self-delimiting
//! preorder byte encoding: a leaf is tag 0, an 8-byte big-endian weight
//! and a 4-byte big-endian code point; an internal node is tag 1, its
//! weight, then its left and right subtrees. The container length-prefixes
//! the tree segment (4 bytes, big-endian) instead of relying on a sentinel
//! byte, so no tree byte can collide with the framing; the packed payload
//! follows directly.

use vstd::prelude::*;
use vstd::slice::slice_subrange;
use crate::bits::pack_bits;
use crate::bits::spec_be32;
use crate::bits::spec_from_be32;
use crate::bits::spec_pack;
use crate::bits::spec_unpack;
use crate::bits::unpack_bits;
use crate::codec::decode_text;
use crate::builder::generate_huffman_tree;
use crate::codec::encode_text;
use crate::codec::encoded_bits;
use crate::codec::greedy_decode;
use crate::codes::generate_huffman_code;
use crate::codes::has_duplicate_codes;
use crate::codes::tree_codes;
use crate::errors::HuffmanError;
use crate::frequency::generate_frequency_table;
use crate::tree::HuffmanTree;

verus! {

/// The eight big-endian bytes of a 64-bit value.
pub open spec fn spec_be64(n: u64) -> Seq<u8> {
    seq![
        (n >> 56) as u8,
        (n >> 48) as u8,
        (n >> 40) as u8,
        (n >> 32) as u8,
        (n >> 24) as u8,
        (n >> 16) as u8,
        (n >> 8) as u8,
        n as u8,
    ]
}

/// The 64-bit value read from eight big-endian bytes.
pub open spec fn spec_from_be64(b: Seq<u8>) -> u64
    recommends
        b.len() == 8,
{
    ((b[0] as int) * 0x100000000000000 + (b[1] as int) * 0x1000000000000 + (b[2] as int)
        * 0x10000000000 + (b[3] as int) * 0x100000000 + (b[4] as int) * 0x1000000 + (b[5] as int)
        * 0x10000 + (b[6] as int) * 0x100 + (b[7] as int)) as u64
}

/// The eight header bytes read back as the value written.
proof fn lemma_be64_roundtrip(n: u64)
    ensures
        spec_from_be64(spec_be64(n)) == n,
{
    let b0 = (n >> 56) as u8;
    let b1 = (n >> 48) as u8;
    let b2 = (n >> 40) as u8;
    let b3 = (n >> 32) as u8;
    let b4 = (n >> 24) as u8;
    let b5 = (n >> 16) as u8;
    let b6 = (n >> 8) as u8;
    let b7 = n as u8;
    assert((b0 as int) * 0x100000000000000 + (b1 as int) * 0x1000000000000 + (b2 as int)
        * 0x10000000000 + (b3 as int) * 0x100000000 + (b4 as int) * 0x1000000 + (b5 as int)
        * 0x10000 + (b6 as int) * 0x100 + (b7 as int) == n) by (bit_vector)
        requires
            b0 == (n >> 56) as u8 && b1 == (n >> 48) as u8 && b2 == (n >> 40) as u8 && b3 == (n
                >> 32) as u8 && b4 == (n >> 24) as u8 && b5 == (n >> 16) as u8 && b6 == (n
                >> 8) as u8 && b7 == n as u8,
    ;
}

/// The self-delimiting preorder encoding of a tree.
pub open spec fn spec_serialize_tree(t: HuffmanTree) -> Seq<u8>
    decreases t,
{
    match t {
        HuffmanTree::LeafNode { weight, element } => seq![0u8] + spec_be64(weight) + crate::bits::spec_be32(
            element as u32,
        ),
        HuffmanTree::InternalNode { weight, right, left } => seq![1u8] + spec_be64(weight)
            + spec_serialize_tree(*left) + spec_serialize_tree(*right),
    }
}

/// Every tree encoding takes at least 13 bytes (tag, weight, and either a
/// code point or two subtrees).
proof fn lemma_serialize_min_len(t: HuffmanTree)
    ensures
        spec_serialize_tree(t).len() >= 13,
    decreases t,
{
    match t {
        HuffmanTree::LeafNode { .. } => {
        },
        HuffmanTree::InternalNode { right, left, .. } => {
            lemma_serialize_min_len(*left);
            lemma_serialize_min_len(*right);
        },
    }
}

/// A tree with `L` leaves serializes to exactly `22 L - 9` bytes.
proof fn lemma_serialize_len(t: HuffmanTree)
    ensures
        spec_serialize_tree(t).len() == 22 * t.leaves().len() - 9,
    decreases t,
{
    match t {
        HuffmanTree::LeafNode { .. } => {
        },
        HuffmanTree::InternalNode { right, left, .. } => {
            lemma_serialize_len(*left);
            lemma_serialize_len(*right);
            assert(t.leaves().len() == left.leaves().len() + right.leaves().len());
        },
    }
}

/// Pushes the eight big-endian bytes of `n`.
fn push_be64(out: &mut Vec<u8>, n: u64)
    ensures
        final(out)@ == old(out)@ + spec_be64(n),
{
    out.push(#[verifier::truncate] ((n >> 56) as u8));
    out.push(#[verifier::truncate] ((n >> 48) as u8));
    out.push(#[verifier::truncate] ((n >> 40) as u8));
    out.push(#[verifier::truncate] ((n >> 32) as u8));
    out.push(#[verifier::truncate] ((n >> 24) as u8));
    out.push(#[verifier::truncate] ((n >> 16) as u8));
    out.push(#[verifier::truncate] ((n >> 8) as u8));
    out.push(#[verifier::truncate] (n as u8));
    proof {
        assert(out@ =~= old(out)@ + spec_be64(n));
    }
}

/// Pushes the four big-endian bytes of `n`.
fn push_be32(out: &mut Vec<u8>, n: u32)
    ensures
        final(out)@ == old(out)@ + crate::bits::spec_be32(n),
{
    out.push(#[verifier::truncate] ((n >> 24) as u8));
    out.push(#[verifier::truncate] ((n >> 16) as u8));
    out.push(#[verifier::truncate] ((n >> 8) as u8));
    out.push(#[verifier::truncate] (n as u8));
    proof {
        assert(out@ =~= old(out)@ + crate::bits::spec_be32(n));
    }
}

/// Appends the preorder encoding of `t` to `out`.
fn serialize_tree_into(t: &HuffmanTree, out: &mut Vec<u8>)
    ensures
        final(out)@ == old(out)@ + spec_serialize_tree(*t),
    decreases t,
{
    match t {
        HuffmanTree::LeafNode { weight, element } => {
            out.push(0u8);
            push_be64(out, *weight);
            push_be32(out, *element as u32);
            proof {
                assert(out@ =~= old(out)@ + spec_serialize_tree(*t));
            }
        },
        HuffmanTree::InternalNode { weight, right, left } => {
            out.push(1u8);
            push_be64(out, *weight);
            serialize_tree_into(left, out);
            serialize_tree_into(right, out);
            proof {
                assert(out@ =~= old(out)@ + spec_serialize_tree(*t));
            }
        },
    }
}

/// Serializes a tree into its self-delimiting binary encoding.
pub fn serialize_tree(huffman_tree: &HuffmanTree) -> (r: Vec<u8>)
    ensures
        r@ == spec_serialize_tree(*huffman_tree),
{
    let mut out: Vec<u8> = Vec::new();
    serialize_tree_into(huffman_tree, &mut out);
    proof {
        assert(Seq::<u8>::empty() + spec_serialize_tree(*huffman_tree) =~= spec_serialize_tree(
            *huffman_tree,
        ));
    }
    out
}

/// The eight big-endian bytes of a parsed 64-bit value are the bytes read.
proof fn lemma_be64_bytes(b0: u8, b1: u8, b2: u8, b3: u8, b4: u8, b5: u8, b6: u8, b7: u8)
    ensures
        spec_be64(spec_from_be64(seq![b0, b1, b2, b3, b4, b5, b6, b7])) == seq![
            b0,
            b1,
            b2,
            b3,
            b4,
            b5,
            b6,
            b7,
        ],
{
    let s = seq![b0, b1, b2, b3, b4, b5, b6, b7];
    let n = spec_from_be64(s);
    assert((n >> 56) as u8 == b0 && (n >> 48) as u8 == b1 && (n >> 40) as u8 == b2 && (n
        >> 32) as u8 == b3 && (n >> 24) as u8 == b4 && (n >> 16) as u8 == b5 && (n >> 8) as u8
        == b6 && n as u8 == b7) by (bit_vector)
        requires
            n == ((b0 as int) * 0x100000000000000 + (b1 as int) * 0x1000000000000 + (b2 as int)
                * 0x10000000000 + (b3 as int) * 0x100000000 + (b4 as int) * 0x1000000 + (
            b5 as int) * 0x10000 + (b6 as int) * 0x100 + (b7 as int)) as u64,
    ;
    assert(spec_be64(n) =~= s);
}

/// The four big-endian bytes of a parsed 32-bit value are the bytes read.
proof fn lemma_be32_bytes(b0: u8, b1: u8, b2: u8, b3: u8)
    ensures
        crate::bits::spec_be32(crate::bits::spec_from_be32(seq![b0, b1, b2, b3])) == seq![
            b0,
            b1,
            b2,
            b3,
        ],
{
    let s = seq![b0, b1, b2, b3];
    let n = crate::bits::spec_from_be32(s);
    assert((n >> 24) as u8 == b0 && (n >> 16) as u8 == b1 && (n >> 8) as u8 == b2 && n as u8
        == b3) by (bit_vector)
        requires
            n == ((b0 as int) * 0x1000000 + (b1 as int) * 0x10000 + (b2 as int) * 0x100 + (
            b3 as int)) as u32,
    ;
    assert(crate::bits::spec_be32(n) =~= s);
}

/// Relies on std's char::from_u32: `Some` holds the character with the
/// given code point, exactly when one exists.
#[verifier::external_body]
fn char_from_u32(v: u32) -> (r: Option<char>)
    ensures
        match r {
            Some(c) => c as u32 == v,
            None => forall|c: char| #[trigger] (c as u32) != v,
        },
{
    char::from_u32(v)
}

/// Reads eight big-endian bytes at `pos`.
fn read_be64(bytes: &[u8], pos: usize) -> (r: u64)
    requires
        pos + 8 <= bytes@.len(),
    ensures
        r == spec_from_be64(bytes@.subrange(pos as int, pos + 8)),
{
    let b0 = bytes[pos];
    let b1 = bytes[pos + 1];
    let b2 = bytes[pos + 2];
    let b3 = bytes[pos + 3];
    let b4 = bytes[pos + 4];
    let b5 = bytes[pos + 5];
    let b6 = bytes[pos + 6];
    let b7 = bytes[pos + 7];
    let hi: u64 = (b0 as u64) * 0x100000000000000 + (b1 as u64) * 0x1000000000000 + (b2 as u64)
        * 0x10000000000 + (b3 as u64) * 0x100000000;
    let lo: u64 = (b4 as u64) * 0x1000000 + (b5 as u64) * 0x10000 + (b6 as u64) * 0x100 + (
    b7 as u64);
    proof {
        let s = bytes@.subrange(pos as int, pos + 8);
        assert(s =~= seq![b0, b1, b2, b3, b4, b5, b6, b7]);
    }
    hi + lo
}

/// Reads four big-endian bytes at `pos`.
fn read_be32(bytes: &[u8], pos: usize) -> (r: u32)
    requires
        pos + 4 <= bytes@.len(),
    ensures
        r == crate::bits::spec_from_be32(bytes@.subrange(pos as int, pos + 4)),
{
    let b0 = bytes[pos];
    let b1 = bytes[pos + 1];
    let b2 = bytes[pos + 2];
    let b3 = bytes[pos + 3];
    proof {
        let s = bytes@.subrange(pos as int, pos + 4);
        assert(s =~= seq![b0, b1, b2, b3]);
    }
    (b0 as u32) * 0x1000000 + (b1 as u32) * 0x10000 + (b2 as u32) * 0x100 + (b3 as u32)
}

/// The encoding of a leaf, spelled out.
proof fn lemma_serialize_leaf(w: u64, element: char)
    ensures
        spec_serialize_tree(HuffmanTree::LeafNode { weight: w, element }) == seq![0u8] + spec_be64(
            w,
        ) + crate::bits::spec_be32(element as u32),
{
}

/// The encoding of `t` stands in `bytes` starting at `pos`.
pub open spec fn is_encoding_at(bytes: Seq<u8>, pos: int, t: HuffmanTree) -> bool {
    &&& 0 <= pos
    &&& pos + spec_serialize_tree(t).len() <= bytes.len()
    &&& bytes.subrange(pos, pos + spec_serialize_tree(t).len()) == spec_serialize_tree(t)
}

/// Parses one tree encoding beginning at `pos`. Sound: a parsed tree's
/// encoding is exactly the bytes consumed. Complete: where the encoding of
/// some tree starts at `pos`, that tree and the position after it are
/// returned.
#[verifier::rlimit(100)]
fn parse_tree_at(bytes: &[u8], pos: usize) -> (r: Result<(HuffmanTree, usize), HuffmanError>)
    requires
        pos <= bytes@.len(),
    ensures
        r matches Ok(p) ==> {
            &&& pos + 13 <= p.1 <= bytes@.len()
            &&& bytes@.subrange(pos as int, p.1 as int) == spec_serialize_tree(p.0)
        },
        r is Err ==> r == Err::<(HuffmanTree, usize), HuffmanError>(HuffmanError::CorruptContainer),
        forall|t: HuffmanTree|
            is_encoding_at(bytes@, pos as int, t) ==> (r matches Ok(p) && p.0 == t && p.1 == pos
                + spec_serialize_tree(t).len()),
    decreases bytes@.len() - pos,
{
    if bytes.len() - pos < 13 {
        proof {
            assert forall|t: HuffmanTree| !is_encoding_at(bytes@, pos as int, t) by {
                lemma_serialize_min_len(t);
            }
        }
        return Err(HuffmanError::CorruptContainer);
    }
    let tag = bytes[pos];
    if tag == 0 {
        let w = read_be64(bytes, pos + 1);
        let v = read_be32(bytes, pos + 9);
        proof {
            lemma_be64_bytes(
                bytes@[pos + 1],
                bytes@[pos + 2],
                bytes@[pos + 3],
                bytes@[pos + 4],
                bytes@[pos + 5],
                bytes@[pos + 6],
                bytes@[pos + 7],
                bytes@[pos + 8],
            );
            lemma_be32_bytes(bytes@[pos + 9], bytes@[pos + 10], bytes@[pos + 11], bytes@[pos + 12]);
            assert(bytes@.subrange(pos + 1, pos + 9) =~= seq![
                bytes@[pos + 1],
                bytes@[pos + 2],
                bytes@[pos + 3],
                bytes@[pos + 4],
                bytes@[pos + 5],
                bytes@[pos + 6],
                bytes@[pos + 7],
                bytes@[pos + 8],
            ]);
            assert(bytes@.subrange(pos + 9, pos + 13) =~= seq![
                bytes@[pos + 9],
                bytes@[pos + 10],
                bytes@[pos + 11],
                bytes@[pos + 12],
            ]);
            assert(spec_be64(w) == bytes@.subrange(pos + 1, pos + 9));
            assert(crate::bits::spec_be32(v) == bytes@.subrange(pos + 9, pos + 13));
        }
        match char_from_u32(v) {
            Some(element) => {
                let node = HuffmanTree::LeafNode { weight: w, element };
                proof {
                    broadcast use vstd::utf8::char_u32_cast;

                    let piece = seq![0u8] + spec_be64(w) + crate::bits::spec_be32(v);
                    assert forall|k: int| 0 <= k < 13 implies bytes@.subrange(pos as int, pos + 13)[k]
                        == piece[k] by {
                        assert(bytes@.subrange(pos as int, pos + 13)[k] == bytes@[pos + k]);
                        if k == 0 {
                            assert(bytes@[pos as int] == 0u8);
                        } else if k < 9 {
                            assert(bytes@.subrange(pos + 1, pos + 9)[k - 1] == bytes@[pos + k]);
                        } else {
                            assert(bytes@.subrange(pos + 9, pos + 13)[k - 9] == bytes@[pos + k]);
                        }
                    }
                    assert(bytes@.subrange(pos as int, pos + 13) =~= piece);
                    assert(element as u32 == v);
                    assert(crate::bits::spec_be32(element as u32) == crate::bits::spec_be32(v));
                    lemma_serialize_leaf(w, element);
                    assert(spec_serialize_tree(node) == seq![0u8] + spec_be64(w)
                        + crate::bits::spec_be32(element as u32));
                    assert(bytes@.subrange(pos as int, pos + 13) == spec_serialize_tree(node));
                    assert forall|t: HuffmanTree|
                        is_encoding_at(bytes@, pos as int, t) implies t == node
                        && spec_serialize_tree(t).len() == 13 by {
                        lemma_parse_unique_leaf(bytes@, pos as int, t, node);
                    }
                }
                Ok((node, pos + 13))
            },
            None => {
                proof {
                    assert forall|t: HuffmanTree| !is_encoding_at(bytes@, pos as int, t) by {
                        if is_encoding_at(bytes@, pos as int, t) {
                            match t {
                                HuffmanTree::LeafNode { weight, element } => {
                                    let ser = spec_serialize_tree(t);
                                    assert(ser == seq![0u8] + spec_be64(weight)
                                        + crate::bits::spec_be32(element as u32));
                                    assert(ser.len() == 13);
                                    assert forall|q: int| pos + 9 <= q < pos + 13 implies bytes@[q]
                                        == crate::bits::spec_be32(element as u32)[q - pos
                                        - 9] by {
                                        assert(bytes@.subrange(pos as int, pos + 13)[q
                                            - pos as int] == bytes@[q]);
                                    }
                                    assert(bytes@.subrange(pos + 9, pos + 13)
                                        =~= crate::bits::spec_be32(element as u32));
                                    crate::bits::lemma_be32_roundtrip(element as u32);
                                    assert(v == element as u32);
                                    assert(false);
                                },
                                HuffmanTree::InternalNode { .. } => {
                                    assert(spec_serialize_tree(t)[0] == 1u8);
                                    assert(bytes@.subrange(
                                        pos as int,
                                        pos + spec_serialize_tree(t).len(),
                                    )[0] == bytes@[pos as int]);
                                    assert(false);
                                },
                            }
                        }
                    }
                }
                Err(HuffmanError::CorruptContainer)
            },
        }
    } else if tag == 1 {
        let w = read_be64(bytes, pos + 1);
        proof {
            lemma_be64_bytes(
                bytes@[pos + 1],
                bytes@[pos + 2],
                bytes@[pos + 3],
                bytes@[pos + 4],
                bytes@[pos + 5],
                bytes@[pos + 6],
                bytes@[pos + 7],
                bytes@[pos + 8],
            );
            assert(bytes@.subrange(pos + 1, pos + 9) =~= seq![
                bytes@[pos + 1],
                bytes@[pos + 2],
                bytes@[pos + 3],
                bytes@[pos + 4],
                bytes@[pos + 5],
                bytes@[pos + 6],
                bytes@[pos + 7],
                bytes@[pos + 8],
            ]);
            assert(spec_be64(w) == bytes@.subrange(pos + 1, pos + 9));
        }
        let left_parse = parse_tree_at(bytes, pos + 9);
        match left_parse {
            Ok((left_node, after_left)) => {
                let right_parse = parse_tree_at(bytes, after_left);
                match right_parse {
                    Ok((right_node, after_right)) => {
                        let node = HuffmanTree::InternalNode {
                            weight: w,
                            right: Box::new(right_node),
                            left: Box::new(left_node),
                        };
                        proof {
                            assert(bytes@.subrange(pos as int, after_right as int) =~= seq![1u8]
                                + spec_be64(w) + spec_serialize_tree(left_node)
                                + spec_serialize_tree(right_node)) by {
                                assert(bytes@.subrange(pos + 9, after_left as int)
                                    == spec_serialize_tree(left_node));
                                assert(bytes@.subrange(after_left as int, after_right as int)
                                    == spec_serialize_tree(right_node));
                            }
                            assert(bytes@.subrange(pos as int, after_right as int)
                                == spec_serialize_tree(node));
                            assert forall|t: HuffmanTree|
                                is_encoding_at(bytes@, pos as int, t) implies t == node
                                && pos + spec_serialize_tree(t).len() == after_right by {
                                lemma_split_internal(bytes@, pos as int, t);
                                match t {
                                    HuffmanTree::LeafNode { .. } => {
                                        assert(false);
                                    },
                                    HuffmanTree::InternalNode { weight, right, left } => {
                                        assert(is_encoding_at(bytes@, pos + 9, *left));
                                        assert(left_node == *left);
                                        assert(after_left == pos + 9 + spec_serialize_tree(
                                            *left,
                                        ).len());
                                        assert(is_encoding_at(bytes@, after_left as int, *right));
                                        assert(right_node == *right);
                                        lemma_be64_roundtrip(weight);
                                        assert(weight == w);
                                    },
                                }
                            }
                        }
                        Ok((node, after_right))
                    },
                    Err(_) => {
                        proof {
                            assert forall|t: HuffmanTree|
                                !is_encoding_at(bytes@, pos as int, t) by {
                                if is_encoding_at(bytes@, pos as int, t) {
                                    lemma_split_internal(bytes@, pos as int, t);
                                    match t {
                                        HuffmanTree::LeafNode { .. } => {
                                            assert(false);
                                        },
                                        HuffmanTree::InternalNode { weight, right, left } => {
                                            assert(is_encoding_at(bytes@, pos + 9, *left));
                                            assert(after_left == pos + 9 + spec_serialize_tree(
                                                *left,
                                            ).len());
                                            assert(is_encoding_at(
                                                bytes@,
                                                after_left as int,
                                                *right,
                                            ));
                                            assert(false);
                                        },
                                    }
                                }
                            }
                        }
                        Err(HuffmanError::CorruptContainer)
                    },
                }
            },
            Err(_) => {
                proof {
                    assert forall|t: HuffmanTree| !is_encoding_at(bytes@, pos as int, t) by {
                        if is_encoding_at(bytes@, pos as int, t) {
                            lemma_split_internal(bytes@, pos as int, t);
                            match t {
                                HuffmanTree::LeafNode { .. } => {
                                    assert(false);
                                },
                                HuffmanTree::InternalNode { right, left, .. } => {
                                    assert(is_encoding_at(bytes@, pos + 9, *left));
                                    assert(false);
                                },
                            }
                        }
                    }
                }
                Err(HuffmanError::CorruptContainer)
            },
        }
    } else {
        proof {
            assert forall|t: HuffmanTree| !is_encoding_at(bytes@, pos as int, t) by {
                if is_encoding_at(bytes@, pos as int, t) {
                    let ser = spec_serialize_tree(t);
                    assert(ser[0] == 0u8 || ser[0] == 1u8);
                    assert(bytes@.subrange(pos as int, pos + ser.len())[0] == bytes@[pos as int]);
                    assert(false);
                }
            }
        }
        Err(HuffmanError::CorruptContainer)
    }
}

/// Two leaf encodings at one position are encodings of one leaf.
proof fn lemma_parse_unique_leaf(bytes: Seq<u8>, pos: int, t: HuffmanTree, node: HuffmanTree)
    requires
        is_encoding_at(bytes, pos, t),
        is_encoding_at(bytes, pos, node),
        node is LeafNode,
        spec_serialize_tree(node).len() == 13,
    ensures
        t == node,
        spec_serialize_tree(t).len() == 13,
{
    broadcast use vstd::utf8::char_u32_cast;

    match t {
        HuffmanTree::InternalNode { .. } => {
            assert(spec_serialize_tree(t)[0] == 1u8);
            assert(spec_serialize_tree(node)[0] == 0u8);
            assert(bytes.subrange(pos, pos + spec_serialize_tree(t).len())[0] == bytes[pos]);
            assert(bytes.subrange(pos, pos + 13)[0] == bytes[pos]);
            assert(false);
        },
        HuffmanTree::LeafNode { weight, element } => {
            match node {
                HuffmanTree::InternalNode { .. } => {
                    assert(false);
                },
                HuffmanTree::LeafNode { weight: w2, element: e2 } => {
                    let sa = spec_serialize_tree(t);
                    let sb = spec_serialize_tree(node);
                    assert(sa.len() == 13);
                    assert(sa =~= sb) by {
                        assert(forall|q: int|
                            0 <= q < 13 ==> sa[q] == bytes.subrange(pos, pos + 13)[q] && sb[q]
                                == bytes.subrange(pos, pos + 13)[q]);
                    }
                    assert(spec_be64(weight) =~= sa.subrange(1, 9));
                    assert(spec_be64(w2) =~= sb.subrange(1, 9));
                    lemma_be64_roundtrip(weight);
                    lemma_be64_roundtrip(w2);
                    assert(weight == w2);
                    assert(crate::bits::spec_be32(element as u32) =~= sa.subrange(9, 13));
                    assert(crate::bits::spec_be32(e2 as u32) =~= sb.subrange(9, 13));
                    crate::bits::lemma_be32_roundtrip(element as u32);
                    crate::bits::lemma_be32_roundtrip(e2 as u32);
                    assert(element as u32 == e2 as u32);
                    assert(element == e2);
                },
            }
        },
    }
}

/// An internal node's encoding at `pos` places its weight at `pos + 1`,
/// its left subtree's encoding at `pos + 9` and its right subtree's
/// encoding directly after the left one.
proof fn lemma_split_internal(bytes: Seq<u8>, pos: int, t: HuffmanTree)
    requires
        is_encoding_at(bytes, pos, t),
        bytes[pos] == 1u8,
    ensures
        t matches HuffmanTree::InternalNode { weight, right, left } ==> {
            &&& is_encoding_at(bytes, pos + 9, *left)
            &&& is_encoding_at(bytes, pos + 9 + spec_serialize_tree(*left).len() as int, *right)
            &&& bytes.subrange(pos + 1, pos + 9) == spec_be64(weight)
            &&& spec_serialize_tree(t).len() == 9 + spec_serialize_tree(*left).len()
                + spec_serialize_tree(*right).len()
        },
        t is LeafNode ==> false,
{
    let ser = spec_serialize_tree(t);
    assert(bytes.subrange(pos, pos + ser.len())[0] == bytes[pos]);
    match t {
        HuffmanTree::LeafNode { .. } => {
            assert(ser[0] == 0u8);
        },
        HuffmanTree::InternalNode { weight, right, left } => {
            let sl = spec_serialize_tree(*left);
            let sr = spec_serialize_tree(*right);
            assert(ser == seq![1u8] + spec_be64(weight) + sl + sr);
            assert(ser.len() == 9 + sl.len() + sr.len());
            assert forall|q: int| pos <= q < pos + ser.len() implies #[trigger] bytes[q] == ser[q
                - pos] by {
                assert(bytes.subrange(pos, pos + ser.len())[q - pos] == bytes[q]);
            }
            assert(bytes.subrange(pos + 1, pos + 9) =~= spec_be64(weight)) by {
                assert forall|k: int| 0 <= k < 8 implies bytes.subrange(pos + 1, pos + 9)[k]
                    == spec_be64(weight)[k] by {
                    assert(bytes.subrange(pos + 1, pos + 9)[k] == bytes[pos + 1 + k]);
                    assert(ser[1 + k] == spec_be64(weight)[k]);
                }
            }
            assert(bytes.subrange(pos + 9, pos + 9 + sl.len()) =~= sl) by {
                assert forall|k: int| 0 <= k < sl.len() implies bytes.subrange(
                    pos + 9,
                    pos + 9 + sl.len(),
                )[k] == sl[k] by {
                    assert(bytes.subrange(pos + 9, pos + 9 + sl.len())[k] == bytes[pos + 9 + k]);
                    assert(ser[9 + k] == sl[k]);
                }
            }
            assert(bytes.subrange(pos + 9 + sl.len(), pos + 9 + sl.len() + sr.len()) =~= sr) by {
                assert forall|k: int| 0 <= k < sr.len() implies bytes.subrange(
                    pos + 9 + sl.len(),
                    pos + 9 + sl.len() + sr.len(),
                )[k] == sr[k] by {
                    assert(bytes.subrange(pos + 9 + sl.len(), pos + 9 + sl.len() + sr.len())[k]
                        == bytes[pos + 9 + sl.len() + k]);
                    assert(ser[9 + sl.len() + k] == sr[k]);
                }
            }
        },
    }
}

/// Deserializes a tree from its exact encoding: sound (the result
/// re-serializes to the input) and complete (every encoding parses back to
/// the tree that produced it). Trailing bytes make the input corrupt.
pub fn deserialize_tree(serialized_tree: &[u8]) -> (r: Result<HuffmanTree, HuffmanError>)
    ensures
        r matches Ok(t) ==> serialized_tree@ == spec_serialize_tree(t),
        r is Err ==> r == Err::<HuffmanTree, HuffmanError>(HuffmanError::CorruptContainer),
        forall|t: HuffmanTree|
            serialized_tree@ == spec_serialize_tree(t) ==> r == Ok::<
                HuffmanTree,
                HuffmanError,
            >(t),
{
    match parse_tree_at(serialized_tree, 0) {
        Ok((node, end)) => {
            if end == serialized_tree.len() {
                proof {
                    assert(serialized_tree@.subrange(0, serialized_tree@.len() as int)
                        =~= serialized_tree@);
                    assert forall|t: HuffmanTree|
                        serialized_tree@ == spec_serialize_tree(t) implies node == t by {
                        assert(is_encoding_at(serialized_tree@, 0, t)) by {
                            assert(serialized_tree@.subrange(0, spec_serialize_tree(t).len() as int)
                                =~= serialized_tree@);
                        }
                    }
                }
                Ok(node)
            } else {
                proof {
                    assert forall|t: HuffmanTree|
                        serialized_tree@ != spec_serialize_tree(t) by {
                        if serialized_tree@ == spec_serialize_tree(t) {
                            assert(is_encoding_at(serialized_tree@, 0, t)) by {
                                assert(serialized_tree@.subrange(
                                    0,
                                    spec_serialize_tree(t).len() as int,
                                ) =~= serialized_tree@);
                            }
                            assert(false);
                        }
                    }
                }
                Err(HuffmanError::CorruptContainer)
            }
        },
        Err(e) => {
            proof {
                assert forall|t: HuffmanTree| serialized_tree@ != spec_serialize_tree(t) by {
                    if serialized_tree@ == spec_serialize_tree(t) {
                        assert(is_encoding_at(serialized_tree@, 0, t)) by {
                            assert(serialized_tree@.subrange(0, spec_serialize_tree(t).len() as int)
                                =~= serialized_tree@);
                        }
                        assert(false);
                    }
                }
            }
            Err(e)
        },
    }
}

/// The whole container: the length-prefixed tree segment, then the packed
/// payload of the text's encoding under that tree's codes.
pub open spec fn spec_container(t: HuffmanTree, text: Seq<char>) -> Seq<u8> {
    let ser = spec_serialize_tree(t);
    let bits = encoded_bits(text, tree_codes(t));
    spec_be32(ser.len() as u32) + ser + spec_pack(bits, bits.len() as u32)
}

/// `out` is the container of `text` under a tree fit to carry it: the
/// tree is well-formed, weighs the text's length, assigns each of its
/// distinct leaf symbols to the text's symbols, and both segments fit
/// their 32-bit length fields.
pub open spec fn compressed_as(text: Seq<char>, t: HuffmanTree, out: Seq<u8>) -> bool {
    &&& t.well_formed()
    &&& t.spec_weight() == text.len()
    &&& t.leaf_symbols().no_duplicates()
    &&& forall|i: int| 0 <= i < text.len() ==> t.leaf_symbols().contains(#[trigger] text[i])
    &&& encoded_bits(text, tree_codes(t)).len() <= u32::MAX
    &&& spec_serialize_tree(t).len() <= u32::MAX
    &&& out == spec_container(t, text)
}

/// Every leaf of `t` records exactly its symbol's count in `text`.
pub open spec fn leaf_counts_match(t: HuffmanTree, text: Seq<char>) -> bool {
    forall|k: int|
        0 <= k < t.leaves().len() ==> (#[trigger] t.leaves()[k]).1 == crate::frequency::count_in(
            text,
            t.leaves()[k].0,
        )
}

/// The result holds exactly the given text.
pub open spec fn is_ok_with(r: Result<String, HuffmanError>, text: Seq<char>) -> bool {
    match r {
        Ok(s) => s@ == text,
        Err(_) => false,
    }
}

/// Builds the container of `text` under `huffman_tree`. Fails with
/// `MissingCode` exactly when some symbol of `text` has no code, and with
/// `PayloadTooLarge` when a segment outgrows its 32-bit length field.
pub fn build_container(huffman_tree: &HuffmanTree, text: &str) -> (r: Result<
    Vec<u8>,
    HuffmanError,
>)
    ensures
        r == Err::<Vec<u8>, HuffmanError>(HuffmanError::MissingCode) <==> !crate::codec::covers(
            tree_codes(*huffman_tree),
            text@,
        ),
        r is Err ==> (r == Err::<Vec<u8>, HuffmanError>(HuffmanError::MissingCode) || r == Err::<
            Vec<u8>,
            HuffmanError,
        >(HuffmanError::PayloadTooLarge)),
        r matches Ok(v) ==> {
            &&& v@ == spec_container(*huffman_tree, text@)
            &&& encoded_bits(text@, tree_codes(*huffman_tree)).len() <= u32::MAX
            &&& spec_serialize_tree(*huffman_tree).len() <= u32::MAX
        },
        (crate::codec::covers(tree_codes(*huffman_tree), text@) && encoded_bits(
            text@,
            tree_codes(*huffman_tree),
        ).len() <= u32::MAX && spec_serialize_tree(*huffman_tree).len() <= u32::MAX) ==> r is Ok,
{
    let table = generate_huffman_code(huffman_tree);
    let (encoded, length) = match encode_text(text, &table) {
        Ok(p) => p,
        Err(e) => {
            return Err(e);
        },
    };
    if length > u32::MAX as usize {
        return Err(HuffmanError::PayloadTooLarge);
    }
    let mut tree_bytes = serialize_tree(huffman_tree);
    if tree_bytes.len() > u32::MAX as usize {
        return Err(HuffmanError::PayloadTooLarge);
    }
    let mut packed = pack_bits(encoded.as_str(), length);
    let mut out: Vec<u8> = Vec::new();
    push_be32(&mut out, tree_bytes.len() as u32);
    out.append(&mut tree_bytes);
    out.append(&mut packed);
    proof {
        assert(out@ =~= spec_container(*huffman_tree, text@));
    }
    Ok(out)
}

/// What decoding a payload against a serialized tree must return: the
/// greedy decoding where the table is unambiguous and the payload carries
/// its header, the fitting error otherwise.
pub open spec fn decode_outcome(
    t: HuffmanTree,
    payload: Seq<u8>,
    r: Result<String, HuffmanError>,
) -> bool {
    if payload.len() < 4 {
        r == Err::<String, HuffmanError>(HuffmanError::CorruptContainer)
    } else if has_duplicate_codes(tree_codes(t)) {
        r == Err::<String, HuffmanError>(HuffmanError::AmbiguousCode)
    } else {
        match greedy_decode(tree_codes(t), Seq::empty(), spec_unpack(payload)) {
            Some(txt) => r matches Ok(s) && s@ == txt,
            None => r == Err::<String, HuffmanError>(HuffmanError::IncompleteCode),
        }
    }
}

/// Deserializes the tree, unpacks the payload's bits and decodes them
/// greedily against the tree's code table.
pub fn decode_data(tree_bytes: &[u8], encoded_bytes: &[u8]) -> (r: Result<String, HuffmanError>)
    ensures
        r is Err ==> (r == Err::<String, HuffmanError>(HuffmanError::CorruptContainer) || r
            == Err::<String, HuffmanError>(HuffmanError::AmbiguousCode) || r == Err::<
            String,
            HuffmanError,
        >(HuffmanError::IncompleteCode)),
        forall|t: HuffmanTree|
            tree_bytes@ == #[trigger] spec_serialize_tree(t) ==> decode_outcome(
                t,
                encoded_bytes@,
                r,
            ),
        (forall|t: HuffmanTree| tree_bytes@ != #[trigger] spec_serialize_tree(t)) ==> r == Err::<
            String,
            HuffmanError,
        >(HuffmanError::CorruptContainer),
        r matches Ok(s) ==> exists|t: HuffmanTree|
            {
                &&& tree_bytes@ == #[trigger] spec_serialize_tree(t)
                &&& !has_duplicate_codes(tree_codes(t))
                &&& greedy_decode(tree_codes(t), Seq::empty(), spec_unpack(encoded_bytes@))
                    == Some(s@)
            },
{
    if encoded_bytes.len() < 4 {
        return Err(HuffmanError::CorruptContainer);
    }
    let huffman_tree = match deserialize_tree(tree_bytes) {
        Ok(t) => t,
        Err(e) => {
            return Err(e);
        },
    };
    let (bit_string, _bit_count) = unpack_bits(encoded_bytes);
    let encoding_table = generate_huffman_code(&huffman_tree);
    let r = decode_text(&encoding_table, bit_string.as_str());
    proof {
        assert forall|t: HuffmanTree|
            tree_bytes@ == #[trigger] spec_serialize_tree(t) implies decode_outcome(
            t,
            encoded_bytes@,
            r,
        ) by {
            assert(t == huffman_tree);
        }
        assert(tree_bytes@ == spec_serialize_tree(huffman_tree));
    }
    r
}

/// The tree that compression builds for `text`: the documented rule, run
/// on one leaf per entry of the text's frequency table.
pub open spec fn spec_text_tree(text: Seq<char>) -> HuffmanTree {
    crate::builder::spec_build(
        crate::builder::table_leaves(crate::frequency::spec_freq_table(text)),
    )
}

/// Compresses `text` into a container, under exactly the tree of
/// `spec_text_tree`. Fails with `EmptyInput` exactly on an empty text and
/// with `PayloadTooLarge` where a segment outgrows its length field; the
/// tree is built from the text's own frequency table, so every symbol has
/// a code and `MissingCode` cannot occur.
pub fn compress_text(text: &str) -> (r: Result<Vec<u8>, HuffmanError>)
    ensures
        r == Err::<Vec<u8>, HuffmanError>(HuffmanError::EmptyInput) <==> text@.len() == 0,
        r is Err ==> (r == Err::<Vec<u8>, HuffmanError>(HuffmanError::EmptyInput) || r == Err::<
            Vec<u8>,
            HuffmanError,
        >(HuffmanError::PayloadTooLarge)),
        r matches Ok(v) ==> compressed_as(text@, spec_text_tree(text@), v@) && leaf_counts_match(
            spec_text_tree(text@),
            text@,
        ),
        1 <= text@.len() < 65536 ==> r is Ok,
{
    let table = match generate_frequency_table(text) {
        Ok(t) => t,
        Err(e) => {
            return Err(e);
        },
    };
    let huffman_tree = match generate_huffman_tree(&table) {
        Ok(t) => t,
        Err(_) => {
            proof {
                assert(false);
            }
            return Err(HuffmanError::EmptyTable);
        },
    };
    proof {
        lemma_table_tree_fit(table@, text@, huffman_tree);
        crate::laws::lemma_tree_covers(huffman_tree, text@);
        if text@.len() < 65536 {
            broadcast use vstd::seq_lib::group_to_multiset_ensures;

            let n = text@.len() as int;
            let leaves = huffman_tree.leaves().len() as int;
            assert(leaves == table@.len()) by {
                assert(huffman_tree.leaves().to_multiset().len()
                    == table@.to_multiset().len());
            }
            crate::frequency::lemma_len_le_sum(table@);
            assert(leaves <= n);
            crate::codes::lemma_codes_length_bound(huffman_tree);
            crate::codec::lemma_encoded_length_bound(
                tree_codes(huffman_tree),
                text@,
                leaves,
            );
            assert(n * leaves <= n * n) by (nonlinear_arith)
                requires
                    0 <= leaves <= n,
            ;
            assert(n * n < 0x100000000) by (nonlinear_arith)
                requires
                    0 <= n < 65536,
            ;
            lemma_serialize_len(huffman_tree);
            assert(encoded_bits(text@, tree_codes(huffman_tree)).len() <= u32::MAX);
            assert(spec_serialize_tree(huffman_tree).len() <= u32::MAX);
        }
    }
    match build_container(&huffman_tree, text) {
        Ok(v) => {
            proof {
                assert(huffman_tree == spec_text_tree(text@));
                assert(compressed_as(text@, huffman_tree, v@));
                assert(leaf_counts_match(huffman_tree, text@));
            }
            Ok(v)
        },
        Err(e) => {
            proof {
                assert(e == HuffmanError::PayloadTooLarge);
            }
            Err(e)
        },
    }
}

/// A tree whose leaf-symbol multiset is the key multiset of a well-formed
/// frequency table of `text` has distinct leaf symbols that carry every
/// symbol of `text`.
proof fn lemma_table_tree_fit(entries: Seq<(char, u64)>, text: Seq<char>, t: HuffmanTree)
    requires
        forall|i: int, j: int|
            0 <= i < j < entries.len() ==> (#[trigger] entries[i]).0 != (#[trigger] entries[j]).0,
        forall|c: char| crate::frequency::lookup_count(entries, c) == crate::frequency::count_in(
            text,
            c,
        ),
        t.leaf_symbols().to_multiset() == crate::builder::table_keys(entries).to_multiset(),
        t.leaves().to_multiset() == entries.to_multiset(),
    ensures
        t.leaf_symbols().no_duplicates(),
        forall|i: int| 0 <= i < text.len() ==> t.leaf_symbols().contains(#[trigger] text[i]),
        leaf_counts_match(t, text),
{
    broadcast use vstd::seq_lib::group_to_multiset_ensures;

    assert forall|k: int|
        0 <= k < t.leaves().len() implies (#[trigger] t.leaves()[k]).1
        == crate::frequency::count_in(text, t.leaves()[k].0) by {
        let (c, w) = t.leaves()[k];
        assert(t.leaves().contains((c, w)));
        assert(t.leaves().to_multiset().count((c, w)) > 0);
        assert(entries.to_multiset().count((c, w)) > 0);
        assert(entries.contains((c, w)));
        let m = choose|m: int| 0 <= m < entries.len() && entries[m] == (c, w);
        crate::frequency::lemma_spec_lookup_at(entries, m, c);
        assert(crate::frequency::lookup_count(entries, c) == w);
    }
    let keys = crate::builder::table_keys(entries);
    assert(keys.no_duplicates()) by {
        assert(forall|i: int| 0 <= i < keys.len() ==> keys[i] == (#[trigger] entries[i]).0);
    }
    keys.lemma_multiset_has_no_duplicates();
    t.leaf_symbols().lemma_multiset_has_no_duplicates_conv();
    assert forall|i: int| 0 <= i < text.len() implies t.leaf_symbols().contains(
        #[trigger] text[i],
    ) by {
        let c = text[i];
        crate::frequency::lemma_count_in_positive(text, i);
        assert(crate::frequency::lookup_count(entries, c) >= 1);
        assert(crate::frequency::spec_lookup(entries, c) is Some);
        crate::frequency::lemma_spec_lookup_witness(entries, c);
        let k = choose|k: int| 0 <= k < entries.len() && (#[trigger] entries[k]).0 == c;
        assert(keys[k] == c);
        assert(keys.contains(c));
        assert(keys.to_multiset().count(c) > 0);
        assert(t.leaf_symbols().to_multiset().count(c) > 0);
    }
}

/// The length header of a container names its tree segment's exact
/// length, and the container is long enough for both segments.
proof fn lemma_container_header(data: Seq<u8>, t: HuffmanTree, text: Seq<char>, v: u32)
    requires
        compressed_as(text, t, data),
        v == spec_from_be32(data.take(4)),
    ensures
        v == spec_serialize_tree(t).len(),
        data.len() >= 4 + spec_serialize_tree(t).len() + 4,
{
    let ser = spec_serialize_tree(t);
    assert(data.take(4) =~= spec_be32(ser.len() as u32));
    crate::bits::lemma_be32_roundtrip(ser.len() as u32);
}

/// Round-trip law over the container format itself: in the container of
/// `text` under a fitting tree, the header names the tree segment's
/// length, the tree segment is the tree's encoding, and the unpacked
/// payload decodes greedily back to `text`.
pub proof fn lemma_container_round_trip(t: HuffmanTree, text: Seq<char>)
    requires
        t.leaf_symbols().no_duplicates(),
        forall|i: int| 0 <= i < text.len() ==> t.leaf_symbols().contains(#[trigger] text[i]),
        encoded_bits(text, tree_codes(t)).len() <= u32::MAX,
        spec_serialize_tree(t).len() <= u32::MAX,
    ensures
        ({
            let data = spec_container(t, text);
            let sl = spec_serialize_tree(t).len() as int;
            &&& spec_from_be32(data.take(4)) == sl
            &&& data.subrange(4, 4 + sl) == spec_serialize_tree(t)
            &&& data.len() >= 4 + sl + 4
            &&& greedy_decode(tree_codes(t), Seq::empty(), spec_unpack(data.skip(4 + sl)))
                == Some(text)
        }),
{
    let data = spec_container(t, text);
    let ser = spec_serialize_tree(t);
    let sl = ser.len() as int;
    let bits = encoded_bits(text, tree_codes(t));
    assert(data.take(4) =~= spec_be32(ser.len() as u32));
    crate::bits::lemma_be32_roundtrip(ser.len() as u32);
    assert(data.subrange(4, 4 + sl) =~= ser);
    assert(data.skip(4 + sl) =~= spec_pack(bits, bits.len() as u32));
    crate::codes::lemma_codes_binary(t);
    crate::codec::lemma_encoded_binary(tree_codes(t), text);
    crate::bits::lemma_pack_unpack_roundtrip(bits);
    crate::laws::lemma_tree_round_trip(t, text);
}

/// Parses a container and decodes its payload. On every container that
/// `compress` can produce for some text, returns exactly that text.
pub fn decompress_bytes(data: &[u8]) -> (r: Result<String, HuffmanError>)
    ensures
        r is Err ==> (r == Err::<String, HuffmanError>(HuffmanError::CorruptContainer) || r
            == Err::<String, HuffmanError>(HuffmanError::AmbiguousCode) || r == Err::<
            String,
            HuffmanError,
        >(HuffmanError::IncompleteCode)),
        forall|t: HuffmanTree, text: Seq<char>|
            #[trigger] compressed_as(text, t, data@) ==> is_ok_with(r, text),
{
    if data.len() < 8 {
        proof {
            assert forall|t: HuffmanTree, text: Seq<char>|
                !compressed_as(text, t, data@) by {
                if compressed_as(text, t, data@) {
                    lemma_serialize_min_len(t);
                    assert(data@.len() >= 4 + spec_serialize_tree(t).len() + 4);
                    assert(false);
                }
            }
        }
        return Err(HuffmanError::CorruptContainer);
    }
    let tree_len32 = read_be32(data, 0);
    let tree_len = tree_len32 as usize;
    proof {
        assert forall|t: HuffmanTree, text: Seq<char>|
            #[trigger] compressed_as(text, t, data@) implies tree_len == spec_serialize_tree(
            t,
        ).len() && data@.len() >= 4 + tree_len + 4 by {
            lemma_container_header(data@, t, text, tree_len32);
        }
    }
    if data.len() - 4 < tree_len {
        return Err(HuffmanError::CorruptContainer);
    }
    if data.len() - 4 - tree_len < 4 {
        return Err(HuffmanError::CorruptContainer);
    }
    let tree_seg = slice_subrange(data, 4, 4 + tree_len);
    let payload = slice_subrange(data, 4 + tree_len, data.len());
    let r = decode_data(tree_seg, payload);
    proof {
        assert forall|t: HuffmanTree, text: Seq<char>|
            #[trigger] compressed_as(text, t, data@) implies is_ok_with(r, text) by {
            lemma_container_header(data@, t, text, tree_len32);
            lemma_container_round_trip(t, text);
            crate::laws::lemma_tree_code_table_valid(t);
            let ser = spec_serialize_tree(t);
            let sl = ser.len() as int;
            assert(tree_seg@ == ser);
            assert(payload@ =~= data@.skip(4 + sl));
            assert(decode_outcome(t, payload@, r));
        }
    }
    r
}

} // verus!
