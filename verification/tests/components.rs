use huffman::config::Config;
use huffman::errors::HuffmanError;
use huffman::tree::HuffmanTree;
use huffman::{
    decode_text, deserialize_tree, encode_text, generate_frequency_table, generate_huffman_code,
    generate_huffman_tree, pack_bits, serialize_tree, unpack_bits, CodeTable, FrequencyTable,
};

#[test]
fn frequency_counts_basic() {
    let table = generate_frequency_table("aaaabbbcc").unwrap();
    assert_eq!(table.len(), 3);
    assert_eq!(table.count_of('a'), Some(4));
    assert_eq!(table.count_of('b'), Some(3));
    assert_eq!(table.count_of('c'), Some(2));
    assert_eq!(table.count_of('d'), None);
}

#[test]
fn frequency_first_occurrence_order() {
    let table = generate_frequency_table("banana").unwrap();
    assert_eq!(table.get(0), ('b', 1));
    assert_eq!(table.get(1), ('a', 3));
    assert_eq!(table.get(2), ('n', 2));
}

#[test]
fn frequency_empty_input_is_error() {
    assert_eq!(
        generate_frequency_table(""),
        Err(HuffmanError::EmptyInput)
    );
}

#[test]
fn frequency_handles_multibyte_symbols() {
    let table = generate_frequency_table("héé").unwrap();
    assert_eq!(table.count_of('h'), Some(1));
    assert_eq!(table.count_of('é'), Some(2));
}

#[test]
fn tree_weight_invariant_concrete() {
    let table = generate_frequency_table("aaaabbbcc").unwrap();
    let tree = generate_huffman_tree(&table).unwrap();
    assert_eq!(tree.weight(), 9);
    match &tree {
        HuffmanTree::InternalNode { weight, right, left } => {
            assert_eq!(*weight, right.weight() + left.weight());
        }
        HuffmanTree::LeafNode { .. } => panic!("three symbols need an internal root"),
    }
}

#[test]
fn tree_from_empty_table_is_error() {
    let empty = FrequencyTable::new();
    let r = generate_huffman_tree(&empty);
    assert!(matches!(r, Err(HuffmanError::EmptyTable)));
}

#[test]
fn code_lengths_follow_weights() {
    let table = generate_frequency_table("aaaabbbcc").unwrap();
    let tree = generate_huffman_tree(&table).unwrap();
    let codes = generate_huffman_code(&tree);
    assert_eq!(codes.code_for('a').unwrap().len(), 1);
    assert_eq!(codes.code_for('b').unwrap().len(), 2);
    assert_eq!(codes.code_for('c').unwrap().len(), 2);
}

#[test]
fn codes_follow_documented_tie_break() {
    // pool [a:4, b:3, c:2] — first round removes c (lightest), then b;
    // c becomes the right child, b the left. second round removes a
    // (weight 4 beats the merged 5), then the merged node; a becomes the
    // right child. so: a = "1", b = "00", c = "01".
    let table = generate_frequency_table("aaaabbbcc").unwrap();
    let tree = generate_huffman_tree(&table).unwrap();
    let codes = generate_huffman_code(&tree);
    assert_eq!(codes.code_for('a').unwrap(), "1");
    assert_eq!(codes.code_for('b').unwrap(), "00");
    assert_eq!(codes.code_for('c').unwrap(), "01");
}

#[test]
fn equal_inputs_give_identical_output() {
    let first = generate_huffman_tree(&generate_frequency_table("mississippi").unwrap()).unwrap();
    let second = generate_huffman_tree(&generate_frequency_table("mississippi").unwrap()).unwrap();
    assert_eq!(first, second);
    let c1 = huffman::compress_text("mississippi").unwrap();
    let c2 = huffman::compress_text("mississippi").unwrap();
    assert_eq!(c1, c2);
}

#[test]
fn codes_are_prefix_free() {
    let table = generate_frequency_table("the quick brown fox jumps over the lazy dog").unwrap();
    let tree = generate_huffman_tree(&table).unwrap();
    let codes = generate_huffman_code(&tree);
    for i in 0..codes.len() {
        for j in 0..codes.len() {
            if i != j {
                let (_, a) = codes.get(i);
                let (_, b) = codes.get(j);
                assert!(!b.starts_with(&a), "{a} is a prefix of {b}");
            }
        }
    }
}

#[test]
fn single_leaf_gets_one_bit_code() {
    let table = generate_frequency_table("zzzz").unwrap();
    let tree = generate_huffman_tree(&table).unwrap();
    assert!(matches!(tree, HuffmanTree::LeafNode { weight: 4, element: 'z' }));
    let codes = generate_huffman_code(&tree);
    assert_eq!(codes.len(), 1);
    assert_eq!(codes.code_for('z').unwrap(), "0");
}

#[test]
fn encoded_length_is_weighted_sum() {
    let table = generate_frequency_table("aaaabbbcc").unwrap();
    let tree = generate_huffman_tree(&table).unwrap();
    let codes = generate_huffman_code(&tree);
    let (bits, length) = encode_text("aaaabbbcc", &codes).unwrap();
    assert_eq!(length, bits.len());
    assert_eq!(length, 4 * 1 + 3 * 2 + 2 * 2);
}

#[test]
fn encode_unknown_symbol_is_error() {
    let table = generate_frequency_table("aabb").unwrap();
    let tree = generate_huffman_tree(&table).unwrap();
    let codes = generate_huffman_code(&tree);
    assert_eq!(encode_text("abc", &codes), Err(HuffmanError::MissingCode));
}

#[test]
fn pack_exact_bytes() {
    let packed = pack_bits("101", 3);
    assert_eq!(packed, vec![0, 0, 0, 3, 0xA0]);
}

#[test]
fn pack_empty_bit_string() {
    let packed = pack_bits("", 0);
    assert_eq!(packed, vec![0, 0, 0, 0]);
    assert_eq!(unpack_bits(&packed), (String::new(), 0));
}

#[test]
fn pack_unpack_full_byte() {
    let packed = pack_bits("10111010", 8);
    assert_eq!(packed, vec![0, 0, 0, 8, 0xBA]);
    let (bits, n) = unpack_bits(&packed);
    assert_eq!(bits, "10111010");
    assert_eq!(n, 8);
}

#[test]
fn pack_unpack_uneven_length() {
    let s = "1100101011101";
    let packed = pack_bits(s, s.len());
    assert_eq!(packed.len(), 4 + (s.len() + 7) / 8);
    let (bits, n) = unpack_bits(&packed);
    assert_eq!(bits, s);
    assert_eq!(n, s.len());
}

#[test]
fn decode_incomplete_code_is_error() {
    let mut codes = CodeTable::new();
    codes.push_entry('a', "00".to_string());
    codes.push_entry('b', "01".to_string());
    assert_eq!(decode_text(&codes, "0"), Err(HuffmanError::IncompleteCode));
    assert_eq!(decode_text(&codes, "000"), Err(HuffmanError::IncompleteCode));
}

#[test]
fn decode_ambiguous_table_is_error() {
    let mut codes = CodeTable::new();
    codes.push_entry('a', "0".to_string());
    codes.push_entry('b', "0".to_string());
    assert!(codes.has_ambiguity());
    assert_eq!(decode_text(&codes, "00"), Err(HuffmanError::AmbiguousCode));
}

#[test]
fn decode_plain_table() {
    let mut codes = CodeTable::new();
    codes.push_entry('a', "0".to_string());
    codes.push_entry('b', "10".to_string());
    codes.push_entry('c', "11".to_string());
    assert_eq!(decode_text(&codes, "010110").unwrap(), "abca");
}

#[test]
fn serialize_leaf_exact_bytes() {
    let leaf = HuffmanTree::new_leaf(4, 'z');
    let bytes = serialize_tree(&leaf);
    assert_eq!(bytes, vec![0, 0, 0, 0, 0, 0, 0, 0, 4, 0, 0, 0, 122]);
}

#[test]
fn serialize_deserialize_roundtrip() {
    let tree = HuffmanTree::new_internal(
        7,
        Box::new(HuffmanTree::new_leaf(3, 'x')),
        Box::new(HuffmanTree::new_leaf(4, 'é')),
    );
    let bytes = serialize_tree(&tree);
    let back = deserialize_tree(&bytes).unwrap();
    match back {
        HuffmanTree::InternalNode { weight, right, left } => {
            assert_eq!(weight, 7);
            assert!(matches!(*right, HuffmanTree::LeafNode { weight: 3, element: 'x' }));
            assert!(matches!(*left, HuffmanTree::LeafNode { weight: 4, element: 'é' }));
        }
        HuffmanTree::LeafNode { .. } => panic!("internal node expected"),
    }
}

#[test]
fn deserialize_rejects_garbage() {
    assert_eq!(deserialize_tree(&[]), Err(HuffmanError::CorruptContainer));
    assert_eq!(
        deserialize_tree(&[7, 0, 0, 0, 0, 0, 0, 0, 4, 0, 0, 0, 122]),
        Err(HuffmanError::CorruptContainer)
    );
    // a valid leaf followed by trailing bytes
    assert_eq!(
        deserialize_tree(&[0, 0, 0, 0, 0, 0, 0, 0, 4, 0, 0, 0, 122, 9]),
        Err(HuffmanError::CorruptContainer)
    );
}

#[test]
fn deserialize_rejects_surrogate_code_point() {
    // 0xD800 is no Unicode scalar value
    assert_eq!(
        deserialize_tree(&[0, 0, 0, 0, 0, 0, 0, 0, 4, 0, 0, 0xD8, 0]),
        Err(HuffmanError::CorruptContainer)
    );
}

#[test]
fn config_needs_two_paths() {
    let args = vec!["prog".to_string(), "in.txt".to_string()];
    assert!(Config::build_config(&args).is_err());
}

#[test]
fn config_takes_first_two_arguments() {
    let args = vec![
        "prog".to_string(),
        "in.txt".to_string(),
        "out.bin".to_string(),
    ];
    let config = Config::build_config(&args).unwrap();
    assert_eq!(config.input, "in.txt");
    assert_eq!(config.output, "out.bin");
}

#[test]
fn error_messages_are_nonempty() {
    let all = [
        HuffmanError::EmptyInput,
        HuffmanError::EmptyTable,
        HuffmanError::MissingCode,
        HuffmanError::AmbiguousCode,
        HuffmanError::IncompleteCode,
        HuffmanError::CorruptContainer,
        HuffmanError::PayloadTooLarge,
    ];
    for e in all {
        assert!(!e.message().is_empty());
    }
}
