//! Decoder for the wxapkg container: a 14-byte framed header, a directory of
//! named records, and a data region that the records point into by absolute
//! byte offset.

use vstd::prelude::*;

pub mod decoder;
pub mod laws;
pub mod model;

pub use decoder::decode_wxapkg;

verus! {

/// One decoded entry: its logical path and a copy of its content bytes.
pub struct MiniappFile {
    /// Full path of the file, e.g. `/pages/webview/webview.html`.
    pub filename: String,
    /// Raw content of the file.
    pub content: Vec<u8>,
}

impl View for MiniappFile {
    type V = (Seq<char>, Seq<u8>);

    open spec fn view(&self) -> (Seq<char>, Seq<u8>) {
        (self.filename@, self.content@)
    }
}

/// Why a buffer is not a well-formed container.
#[derive(Debug, Clone, Copy, PartialEq, Eq, Structural)]
pub enum DecodeError {
    /// The buffer cannot even hold the fixed header; `len` is its length.
    Truncated { len: usize },
    /// The start or end marker of the header is wrong; the bytes found there.
    BadMagic { first: u8, last: u8 },
    /// One of the four reserved bytes after the start marker is not zero.
    BadPadding,
    /// The name of the record whose name starts at `offset` is not UTF-8.
    InvalidFilenameEncoding { offset: usize },
    /// `count` bytes were needed at `start`, but the buffer holds only `len`.
    OutOfBounds { start: usize, count: usize, len: usize },
}

/// The header's two declared lengths; the decoder does not rely on them.
#[derive(Debug, Clone, Copy, PartialEq, Eq, Structural)]
pub struct WxapkgHeader {
    pub len_index: u32,
    pub len_data: u32,
}

} // verus!
