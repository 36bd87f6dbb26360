use huffman::errors::HuffmanError;
use huffman::{
    compress_text, decode_data, decode_text, decompress_bytes, encode_text,
    generate_frequency_table, generate_huffman_code, generate_huffman_tree, pack_bits,
    serialize_tree,
};

#[test]
fn encode_decode_roundtrip() {
    let text = "aaaabbbcc";
    let table = generate_frequency_table(text).unwrap();
    let tree = generate_huffman_tree(&table).unwrap();
    let codes = generate_huffman_code(&tree);
    let (bits, _) = encode_text(text, &codes).unwrap();
    assert_eq!(decode_text(&codes, &bits).unwrap(), text);
}

#[test]
fn compress_decompress_roundtrip() {
    let text = "aaaabbbcc";
    let container = compress_text(text).unwrap();
    assert_eq!(decompress_bytes(&container).unwrap(), text);
}

#[test]
fn compress_decompress_single_symbol() {
    let container = compress_text("zzzz").unwrap();
    assert_eq!(decompress_bytes(&container).unwrap(), "zzzz");
}

#[test]
fn compress_decompress_longer_text() {
    let text = "it was the best of times, it was the worst of times — däs Üben!";
    let container = compress_text(text).unwrap();
    assert_eq!(decompress_bytes(&container).unwrap(), text);
}

#[test]
fn compress_empty_input_is_error() {
    assert_eq!(compress_text(""), Err(HuffmanError::EmptyInput));
}

#[test]
fn corrupt_payload_byte_never_decodes_silently() {
    let text = "aaaabbbcc";
    let mut container = compress_text(text).unwrap();
    let last = container.len() - 1;
    container[last] ^= 0xFF;
    match decompress_bytes(&container) {
        Ok(decoded) => assert_ne!(decoded, text),
        Err(e) => assert!(matches!(
            e,
            HuffmanError::IncompleteCode
                | HuffmanError::CorruptContainer
                | HuffmanError::AmbiguousCode
        )),
    }
}

#[test]
fn corrupt_tree_segment_is_rejected() {
    let mut container = compress_text("aaaabbbcc").unwrap();
    // the byte behind the length header is the root node's tag
    container[4] = 7;
    assert!(decompress_bytes(&container).is_err());
}

#[test]
fn truncated_container_is_rejected() {
    let container = compress_text("aaaabbbcc").unwrap();
    assert_eq!(
        decompress_bytes(&container[..3]),
        Err(HuffmanError::CorruptContainer)
    );
    assert_eq!(
        decompress_bytes(&container[..container.len() - 5]),
        Err(HuffmanError::CorruptContainer)
    );
}

#[test]
fn decode_data_matches_decompress() {
    let text = "mississippi";
    let table = generate_frequency_table(text).unwrap();
    let tree = generate_huffman_tree(&table).unwrap();
    let codes = generate_huffman_code(&tree);
    let (bits, length) = encode_text(text, &codes).unwrap();
    let tree_bytes = serialize_tree(&tree);
    let payload = pack_bits(&bits, length);
    assert_eq!(decode_data(&tree_bytes, &payload).unwrap(), text);
}

#[test]
fn decode_data_needs_payload_header() {
    let tree_bytes = serialize_tree(&huffman::HuffmanTree::new_leaf(1, 'a'));
    assert_eq!(
        decode_data(&tree_bytes, &[0, 0]),
        Err(HuffmanError::CorruptContainer)
    );
}
