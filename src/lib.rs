//! Header and segment layer of a JPEG decoder: marker scanning, segment
//! parsing and canonical Huffman decode-tree construction.
pub mod error;
pub mod util;

pub use error::Error;
pub use util::{read_bytes, read_u16_be, read_u8, ByteReader};
pub mod marker;
pub use marker::Marker;
pub mod huffman_tree;
pub use huffman_tree::{HuffmanNode, HuffmanTable, HuffmanTree};
pub mod decoder;
pub use decoder::{
    Decoder, EncodingProcess, FrameComponentHeader, FrameHeader, Image, QuantizationTable, Scan,
    ScanComponentHeader, ScanHeader,
};
