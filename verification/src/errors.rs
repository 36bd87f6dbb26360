//! The failure taxonomy of the codec. Every fallible operation of the
//! library reports one of these variants; nothing is silently defaulted.

use vstd::prelude::*;

verus! {

/// Typed failures surfaced by the codec.
#[derive(Clone, Copy, Debug, PartialEq, Eq, Structural)]
pub enum HuffmanError {
    /// The input text holds no symbol at all.
    EmptyInput,
    /// A frequency table with no entries was handed to the tree builder.
    EmptyTable,
    /// A symbol of the text has no entry in the code table.
    MissingCode,
    /// Two entries of a code table share one code, so no inverse exists.
    AmbiguousCode,
    /// The bit stream ran out in the middle of a code.
    IncompleteCode,
    /// A container's framing or tree segment cannot be parsed.
    CorruptContainer,
    /// The encoded bit length does not fit the container's 32-bit header.
    PayloadTooLarge,
}

impl HuffmanError {
    /// A short human-readable description of the failure.
    pub fn message(&self) -> (r: &'static str)
        ensures
            r@.len() > 0,
    {
        proof {
            reveal_strlit("input text is empty");
            reveal_strlit("frequency table is empty");
            reveal_strlit("symbol has no code");
            reveal_strlit("two symbols share one code");
            reveal_strlit("bit stream ends inside a code");
            reveal_strlit("container is corrupt");
            reveal_strlit("payload exceeds the 32-bit length header");
        }
        match self {
            HuffmanError::EmptyInput => "input text is empty",
            HuffmanError::EmptyTable => "frequency table is empty",
            HuffmanError::MissingCode => "symbol has no code",
            HuffmanError::AmbiguousCode => "two symbols share one code",
            HuffmanError::IncompleteCode => "bit stream ends inside a code",
            HuffmanError::CorruptContainer => "container is corrupt",
            HuffmanError::PayloadTooLarge => "payload exceeds the 32-bit length header",
        }
    }
}

} // verus!
