//! What holds of the encoder as a whole: the bit packing, the coding of
//! coefficients, the Huffman code, the layout of the file and the reading of
//! input files.
pub mod coefficients;
pub mod huffman_code;
pub mod layout;
pub mod packing;
pub mod reading;
