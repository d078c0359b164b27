//! Where the parts of an ORC file lie: its tail (postscript, footer, metadata), the
//! footer of each stripe, and the streams of each column.
use vstd::prelude::*;

use crate::error::Error;
use crate::proto::{Footer, PostScript, StripeFooter, StripeInformation};
use crate::stripe::{column_length, column_range, column_start, lemma_length_nonneg, lemma_start_bound};

verus! {

/// The number of bytes read at once from the end of a file to find its tail.
pub const DEFAULT_FOOTER_SIZE: u64 = 16 * 1024;

/// The file's metadata.
#[derive(Debug, Clone)]
pub struct FileMetadata {
    pub postscript: PostScript,
    pub footer: Footer,
    /// The decompressed bytes of the file's `Metadata` message (stripe statistics).
    pub metadata: Vec<u8>,
}

/// The number of bytes to read from the end of a file of `file_len` bytes: all of
/// it, or [`DEFAULT_FOOTER_SIZE`] where it is longer.
pub fn tail_length(file_len: u64) -> (r: u64)
    ensures
        r == if file_len < DEFAULT_FOOTER_SIZE {
            file_len
        } else {
            DEFAULT_FOOTER_SIZE
        },
{
    if file_len < DEFAULT_FOOTER_SIZE {
        file_len
    } else {
        DEFAULT_FOOTER_SIZE
    }
}

/// Locates the postscript within the `tail` of a file: its last byte is the
/// postscript's length `L`, with `0 < L < 256`, and the `L` bytes before it are the
/// postscript. Returns the range of those bytes.
pub fn locate_postscript(tail: &[u8]) -> (r: Result<(usize, usize), Error>)
    ensures
        tail@.len() == 0 ==> r == Err::<(usize, usize), Error>(Error::OutOfSpec),
        tail@.len() > 0 ==> {
            let l = tail@.last() as int;
            if 0 < l && l < tail@.len() {
                r == Ok::<(usize, usize), Error>(((tail@.len() - 1 - l) as usize, (tail@.len() - 1) as usize))
            } else {
                r == Err::<(usize, usize), Error>(Error::OutOfSpec)
            }
        },
{
    if tail.len() == 0 {
        return Err(Error::OutOfSpec);
    }
    let end = tail.len() - 1;
    let length = tail[end] as usize;
    if length == 0 || length > end {
        return Err(Error::OutOfSpec);
    }
    Ok((end - length, end))
}

/// Locates the footer and the metadata, which lie just before the postscript (that
/// starts at `postscript_start`): the footer right before it, the metadata right
/// before the footer. Fails where the postscript does not give their lengths or
/// they do not fit.
pub fn locate_footer_and_metadata(postscript_start: usize, postscript: &PostScript) -> (r: Result<((usize, usize), (usize, usize)), Error>)
    ensures
        match (postscript.footer_length, postscript.metadata_length) {
            (Some(f), Some(m)) => if f + m <= postscript_start {
                let footer_start = postscript_start - f;
                r == Ok::<((usize, usize), (usize, usize)), Error>((
                    (footer_start as usize, postscript_start),
                    ((footer_start - m) as usize, footer_start as usize),
                ))
            } else {
                r == Err::<((usize, usize), (usize, usize)), Error>(Error::OutOfSpec)
            },
            _ => r == Err::<((usize, usize), (usize, usize)), Error>(Error::OutOfSpec),
        },
{
    let footer_length = match postscript.footer_length {
        Some(f) => f,
        None => {
            return Err(Error::OutOfSpec);
        },
    };
    if footer_length > postscript_start as u64 {
        return Err(Error::OutOfSpec);
    }
    let footer_start = postscript_start - footer_length as usize;
    let metadata_length = match postscript.metadata_length {
        Some(m) => m,
        None => {
            return Err(Error::OutOfSpec);
        },
    };
    if metadata_length > footer_start as u64 {
        return Err(Error::OutOfSpec);
    }
    let metadata_start = footer_start - metadata_length as usize;
    Ok(((footer_start, postscript_start), (metadata_start, footer_start)))
}

/// Where the footer of `stripe` lies in the file: after its index and data
/// regions. Returns its offset and its length.
pub fn stripe_footer_range(stripe: &StripeInformation) -> (r: Result<(u64, u64), Error>)
    ensures
        stripe.offset + stripe.index_length + stripe.data_length <= u64::MAX ==> r == Ok::<
            (u64, u64),
            Error,
        >(((stripe.offset + stripe.index_length + stripe.data_length) as u64, stripe.footer_length)),
        stripe.offset + stripe.index_length + stripe.data_length > u64::MAX ==> r == Err::<
            (u64, u64),
            Error,
        >(Error::OutOfSpec),
{
    let start = match stripe.offset.checked_add(stripe.index_length) {
        Some(s) => s,
        None => {
            return Err(Error::OutOfSpec);
        },
    };
    match start.checked_add(stripe.data_length) {
        Some(s) => Ok((s, stripe.footer_length)),
        None => Err(Error::OutOfSpec),
    }
}

/// Where the decoded streams of `column` lie in the file, for the stripe `stripe`
/// whose footer is `footer`: their offset and their total length. Fails with
/// `InvalidColumn` where the stripe has no stream of the column.
pub fn stripe_column_range(stripe: &StripeInformation, footer: &StripeFooter, column: u32) -> (r: Result<(u64, u64), Error>)
    ensures
        match column_start(footer.streams@, column, 0) {
            None => r == Err::<(u64, u64), Error>(Error::InvalidColumn(column)),
            Some(start) => {
                let length = column_length(footer.streams@, column);
                if stripe.offset + start + length <= u64::MAX {
                    r == Ok::<(u64, u64), Error>(((stripe.offset + start) as u64, length as u64))
                } else {
                    r == Err::<(u64, u64), Error>(Error::OutOfSpec)
                }
            },
        },
{
    proof {
        lemma_length_nonneg(footer.streams@, column);
        lemma_start_bound(footer.streams@, column, 0);
    }
    let (start, length) = match column_range(footer, column) {
        Ok(range) => range,
        Err(e) => {
            return Err(e);
        },
    };
    match stripe.offset.checked_add(start) {
        Some(s) => match s.checked_add(length) {
            Some(_) => Ok((s, length)),
            None => Err(Error::OutOfSpec),
        },
        None => Err(Error::OutOfSpec),
    }
}

} // verus!
