//! A verified Huffman compressor: frequency analysis, minimum-redundancy
//! prefix codes, bit-level packing, and a self-delimiting container format
//! that round-trips the code tree together with the packed payload.

pub mod bits;
pub mod builder;
pub mod codec;
pub mod codes;
pub mod config;
pub mod container;
pub mod errors;
pub mod frequency;
pub mod laws;
pub mod tree;

pub use bits::pack_bits;
pub use bits::unpack_bits;
pub use builder::build_tree;
pub use builder::generate_huffman_tree;
pub use codec::decode_text;
pub use codec::encode_text;
pub use codes::CodeTable;
pub use codes::generate_huffman_code;
pub use config::Config;
pub use container::compress_text;
pub use container::decode_data;
pub use container::decompress_bytes;
pub use container::deserialize_tree;
pub use container::serialize_tree;
pub use errors::HuffmanError;
pub use frequency::FrequencyTable;
pub use frequency::generate_frequency_table;
pub use tree::HuffmanTree;
