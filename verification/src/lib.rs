//! A baseline JPEG encoder: bit streams, Huffman coding, the entropy coding
//! of quantized blocks and the JPEG byte layout.
use vstd::prelude::*;

pub mod bitstream;
pub mod bloc;
pub mod cmd;
pub mod encoding;
pub mod file_reader;


pub mod huffman;
pub mod jpeg_format;
pub mod laws;
pub mod text;

verus! {

/// What can go wrong while encoding an image.
#[derive(Debug, Clone, Copy, PartialEq, Eq, Structural)]
pub enum JpegError {
    FileError,
    FormatError,
    HelpError,
    ReadError,
    OutOfRange,
    HuffmanError,
    ParseError,
}

} // verus!
