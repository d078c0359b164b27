//! Contains [`Error`]
use vstd::prelude::*;

use crate::proto::StreamKind;

verus! {

/// Possible errors from this crate.
#[derive(Debug, Clone, Copy, PartialEq, Eq, Structural)]
pub enum Error {
    /// Generic error returned when the file is out of spec
    OutOfSpec,
    /// A boolean literal run announces more bytes than remain
    RleLiteralTooLarge,
    /// When a string column contains a value with invalid UTF8
    InvalidUtf8,
    /// When the user requests a column that does not exist
    InvalidColumn(u32),
    /// When the user requests a stream kind that does not exist for the given column
    InvalidKind(u32, StreamKind),
    /// When decoding a float fails
    DecodeFloat,
    /// When decompression fails
    Decompression,
    /// When decoding the protobuf messages fails
    InvalidProto,
}

} // verus!
