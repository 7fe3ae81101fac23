use vstd::prelude::*;

pub mod bits;
pub mod canonical;
pub mod codec;
pub mod frequency;
pub mod strutil;
pub mod text;
pub mod tree;
pub mod utf8x;

verus! {

/// The failures an archive encoding can end in.
#[derive(Debug, PartialEq, Eq, Structural, Clone, Copy)]
pub enum EncodeError {
    /// A read or write on the file system failed (raised by callers that do I/O).
    IoError,
    /// The merged input holds no symbols at all.
    EmptyAlphabet,
    /// The alphabet cannot be serialized: fewer than two symbols,
    /// more than 255 symbols, or code lengths no prefix code can carry.
    UnsupportedAlphabet,
    /// A character of the input has no canonical code.
    MissingSymbol,
    /// A symbol occurs more often than the frequency counter can count.
    FrequencyOverflow,
}

/// The failures an archive decoding can end in.
#[derive(Debug, PartialEq, Eq, Structural, Clone, Copy)]
pub enum DecodeError {
    /// A read or write on the file system failed (raised by callers that do I/O).
    IoError,
    /// The header's code table holds at most one entry.
    DegenerateTable,
    /// The header is malformed or truncated.
    InvalidHeader,
}

/// What an invocation asks for: packing files into an archive, or
/// unpacking archives.
pub enum Action {
    Compress,
    Decompress,
}

/// The compression algorithm to apply.
pub enum EncodingMethod {
    Huffman,
}

/// One parsed invocation: the archive to write, the files or archives to
/// work on, the action and the encoding.
pub struct Config {
    pub archive_name: String,
    pub files: Vec<String>,
    pub action: Action,
    pub encoding: EncodingMethod,
}

} // verus!
