//! Decoding of the read path of ORC columnar files: compression blocks,
//! run-length encodings (boolean, and RLE v2 integers), fixed-width floats, the
//! location of files' and stripes' parts and of column streams, and typed reads
//! of a column's values.
pub mod bits;
pub mod error;
pub mod proto;
pub mod source;
pub mod decompress;
pub mod varint;
pub mod rle_v2;
pub mod boolean_rle;
pub mod float;
pub mod values;
pub mod stripe;
pub mod read;
pub mod adapters;
