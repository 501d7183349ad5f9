//! OpenPresser Middle-Out (PPMO) compression engine.
//!
//! The engine splits its input into blocks, tokenises each block with a
//! hash-chain LZ77 pass started from a pivot inside the block, entropy-codes
//! the tokens with a canonical Huffman code, and frames the blocks behind a
//! checksummed header.
use vstd::prelude::*;

pub mod bitseq;
pub mod bitio;
pub mod block;
pub mod canon;
pub mod codec;
pub mod compress;
pub mod decompress;
pub mod format;
pub mod huffman;
pub mod info;
pub mod lz;
pub mod middle_out;
pub mod pm;
pub mod table_io;
pub mod text;

pub use compress::{compress, CompressOptions};
pub use decompress::decompress;
pub use info::{inspect, verify, ArchiveInfo};

verus! {

/// The I/O error type of std, carried by [`EngineError::Io`].
#[verifier::external_type_specification]
#[verifier::external_body]
pub struct ExIoError(std::io::Error);

/// Errors reported by the engine.
#[derive(Debug)]
pub enum EngineError {
    /// The archive header is malformed.
    InvalidHeader(String),
    /// A stored CRC32 does not match the data it protects.
    ChecksumMismatch,
    /// A block payload could not be decoded.
    DecompressError(String),
    /// Reading or writing an archive failed (raised by callers that do I/O;
    /// the engine itself works in memory).
    Io(std::io::Error),
}

/// The mathematical value of an [`EngineError`]: its variant and message text.
pub enum ErrorView {
    InvalidHeader(Seq<char>),
    ChecksumMismatch,
    DecompressError(Seq<char>),
    Io,
}

impl View for EngineError {
    type V = ErrorView;

    open spec fn view(&self) -> ErrorView {
        match self {
            EngineError::InvalidHeader(m) => ErrorView::InvalidHeader(m@),
            EngineError::ChecksumMismatch => ErrorView::ChecksumMismatch,
            EngineError::DecompressError(m) => ErrorView::DecompressError(m@),
            EngineError::Io(_) => ErrorView::Io,
        }
    }
}

} // verus!
