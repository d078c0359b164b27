//! The parts of ORC's protobuf messages that the decoders read, as plain values.
use vstd::prelude::*;

verus! {

/// The compression of the file's streams.
#[derive(Debug, Clone, Copy, PartialEq, Eq, Structural)]
pub enum CompressionKind {
    Uncompressed,
    Zlib,
    Snappy,
    Lzo,
    Lz4,
    Zstd,
}

/// The kind of a stream within a stripe.
#[derive(Debug, Clone, Copy, PartialEq, Eq, Structural)]
pub enum StreamKind {
    Present,
    Data,
    Length,
    DictionaryData,
    DictionaryCount,
    Secondary,
    RowIndex,
    BloomFilter,
    BloomFilterUtf8,
}

/// One stream of a stripe: the column it belongs to, its kind and its length in bytes.
#[derive(Debug, Clone, Copy, PartialEq, Eq, Structural)]
pub struct Stream {
    pub column: u32,
    pub kind: StreamKind,
    pub length: u64,
}

/// How the values of a column are encoded within a stripe.
#[derive(Debug, Clone, Copy, PartialEq, Eq, Structural)]
pub enum ColumnEncodingKind {
    Direct,
    Dictionary,
    DirectV2,
    DictionaryV2,
}

/// The encoding of one column within a stripe.
#[derive(Debug, Clone, Copy, PartialEq, Eq, Structural)]
pub struct ColumnEncoding {
    pub kind: ColumnEncodingKind,
    pub dictionary_size: Option<u32>,
}

/// The footer of a stripe: its streams, in the order they are laid out, and the
/// encoding of each column.
#[derive(Debug, Clone)]
pub struct StripeFooter {
    pub streams: Vec<Stream>,
    pub columns: Vec<ColumnEncoding>,
}

/// Where a stripe lies in the file, and how many rows it holds.
#[derive(Debug, Clone, Copy, PartialEq, Eq, Structural)]
pub struct StripeInformation {
    pub offset: u64,
    pub index_length: u64,
    pub data_length: u64,
    pub footer_length: u64,
    pub number_of_rows: u64,
}

/// The postscript of a file: the compression of its streams and the lengths of its
/// footer and metadata.
#[derive(Debug, Clone, Copy, PartialEq, Eq, Structural)]
pub struct PostScript {
    pub footer_length: Option<u64>,
    pub compression: CompressionKind,
    pub metadata_length: Option<u64>,
}

/// One node of the schema: its kind (as numbered by ORC), its children and their
/// field names.
#[derive(Debug, Clone)]
pub struct Type {
    pub kind: i32,
    pub subtypes: Vec<u32>,
    pub field_names: Vec<String>,
}

/// The footer of a file: its stripes and its schema, a flat parent-first array of
/// types.
#[derive(Debug, Clone)]
pub struct Footer {
    pub stripes: Vec<StripeInformation>,
    pub types: Vec<Type>,
    pub number_of_rows: Option<u64>,
}

} // verus!
