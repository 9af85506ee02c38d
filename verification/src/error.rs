use vstd::prelude::*;

verus! {

/// A decode failure; every variant carries the byte offset at which the
/// problem was detected.
#[derive(Debug, Clone, Copy, PartialEq, Eq, Structural)]
pub enum BertError {
    /// The leading format marker byte was not the expected value.
    InvalidMagicNumber(usize),
    /// An unrecognized type tag; carries the offset of the tag and its value.
    InvalidTag(usize, u8),
    /// A read was attempted past the end of the input.
    EOF(usize),
    /// The text payload of a legacy float is not a valid float literal.
    InvalidFloat(usize),
    /// Reserved for atom payloads that fail single-byte decoding; every byte
    /// is a valid Latin-1 codepoint, so the decoder never returns it.
    InvalidLatin1Atom(usize),
    /// The payload of a UTF-8 atom is not valid UTF-8.
    InvalidUTF8Atom(usize),
    /// Bytes remain after a complete top-level term.
    ExtraData(usize),
    /// A variable-length integer ran past its eight-byte budget.
    VarintTooLarge(usize),
}

} // verus!
