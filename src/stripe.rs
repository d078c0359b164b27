//! The streams of one column within a stripe: where they lie, and access to each.
use vstd::prelude::*;

use crate::decompress::{logical_bytes, logical_failure, stream_end_error, Decompressor};
use crate::error::Error;
use crate::proto::{ColumnEncoding, CompressionKind, Stream, StreamKind, StripeFooter};
use crate::source::ByteSource;

verus! {

/// Whether `s` is one of the streams of `column` that are decoded (not an index).
pub open spec fn is_column_stream(s: Stream, column: u32) -> bool {
    s.column == column && s.kind != StreamKind::RowIndex
}

/// The start and length, within the region of the column's streams, of the first
/// stream of kind `kind` of `column`, where the streams before it in that region
/// take `offset` bytes.
pub open spec fn find_stream(streams: Seq<Stream>, column: u32, kind: StreamKind, offset: int) -> Option<(int, int)>
    decreases streams.len(),
{
    if streams.len() == 0 {
        None
    } else {
        let s = streams[0];
        if is_column_stream(s, column) {
            if s.kind == kind {
                Some((offset, s.length as int))
            } else {
                find_stream(streams.drop_first(), column, kind, offset + s.length)
            }
        } else {
            find_stream(streams.drop_first(), column, kind, offset)
        }
    }
}

/// The sum of the lengths of the streams of `column` that are decoded.
pub open spec fn column_length(streams: Seq<Stream>, column: u32) -> int
    decreases streams.len(),
{
    if streams.len() == 0 {
        0
    } else {
        let rest = column_length(streams.drop_first(), column);
        if is_column_stream(streams[0], column) {
            streams[0].length + rest
        } else {
            rest
        }
    }
}

/// The offset, from the start of the stripe, of the first decoded stream of
/// `column`, where the streams before `streams` take `offset` bytes.
pub open spec fn column_start(streams: Seq<Stream>, column: u32, offset: int) -> Option<int>
    decreases streams.len(),
{
    if streams.len() == 0 {
        None
    } else if is_column_stream(streams[0], column) {
        Some(offset)
    } else {
        column_start(streams.drop_first(), column, offset + streams[0].length)
    }
}

/// Locates the region of a stripe that holds the decoded streams of `column`: its
/// offset from the start of the stripe, and its length. Streams are laid out in the
/// order of the footer, those of a column next to each other.
pub fn column_range(footer: &StripeFooter, column: u32) -> (r: Result<(u64, u64), Error>)
    ensures
        match column_start(footer.streams@, column, 0) {
            None => r == Err::<(u64, u64), Error>(Error::InvalidColumn(column)),
            Some(start) => {
                let length = column_length(footer.streams@, column);
                if start + length <= u64::MAX {
                    r == Ok::<(u64, u64), Error>((start as u64, length as u64))
                } else {
                    r == Err::<(u64, u64), Error>(Error::OutOfSpec)
                }
            },
        },
{
    let streams = &footer.streams;
    let ghost all = streams@;
    // the first stream of the column
    let mut first: usize = 0;
    while first < streams.len() && !(streams[first].column == column && streams[first].kind
        != StreamKind::RowIndex)
        invariant
            first <= streams@.len(),
            all == streams@,
            all == footer.streams@,
            forall|j: int| 0 <= j < first ==> !is_column_stream(#[trigger] all[j], column),
        decreases streams.len() - first,
    {
        first += 1;
    }
    if first == streams.len() {
        proof {
            lemma_start_none(all, column, 0);
        }
        return Err(Error::InvalidColumn(column));
    }
    // the offset of that stream
    let mut i: usize = 0;
    let mut offset: u64 = 0;
    assert(all.skip(0) =~= all);
    while i < first
        invariant
            i <= first < streams@.len(),
            all == streams@,
            all == footer.streams@,
            is_column_stream(all[first as int], column),
            forall|j: int| 0 <= j < first ==> !is_column_stream(#[trigger] all[j], column),
            column_start(all, column, 0) == column_start(all.skip(i as int), column, offset as int),
        decreases first - i,
    {
        assert(all.skip(i as int).drop_first() =~= all.skip(i as int + 1));
        assert(all.skip(i as int)[0] == all[i as int]);
        assert(!is_column_stream(all[i as int], column));
        assert(column_start(all.skip(i as int), column, offset as int) == column_start(
            all.skip(i as int + 1),
            column,
            offset + all[i as int].length,
        ));
        match offset.checked_add(streams[i].length) {
            Some(o) => offset = o,
            None => {
                proof {
                    lemma_start_bound(all.skip(i as int + 1), column, offset + streams[i as int].length);
                    assert(all.skip(i as int + 1)[first - i - 1] == all[first as int]);
                    lemma_start_some(all.skip(i as int + 1), column, offset + streams[i as int].length, first - i - 1);
                    lemma_length_nonneg(all, column);
                }
                return Err(Error::OutOfSpec);
            },
        }
        i += 1;
    }
    assert(all.skip(i as int)[0] == all[first as int]);
    let start = offset;
    let ghost start_at = i;
    assert(column_start(all, column, 0) == Some(start as int));
    // the length of its streams: they are read from the first one on
    let mut length: u64 = 0;
    proof {
        lemma_length_skip(all, column, i as int);
    }
    while i < streams.len()
        invariant
            start_at <= i <= streams@.len(),
            all == streams@,
            all == footer.streams@,
            column_length(all, column) == length + column_length(all.skip(i as int), column),
            start + length <= u64::MAX,
            column_start(all, column, 0) == Some(start as int),
        decreases streams.len() - i,
    {
        assert(all.skip(i as int).drop_first() =~= all.skip(i as int + 1));
        assert(all.skip(i as int)[0] == all[i as int]);
        assert(column_length(all.skip(i as int), column) == if is_column_stream(all[i as int], column) {
            all[i as int].length + column_length(all.skip(i as int + 1), column)
        } else {
            column_length(all.skip(i as int + 1), column)
        });
        if streams[i].column == column && streams[i].kind != StreamKind::RowIndex {
            let next = match length.checked_add(streams[i].length) {
                Some(l) => l,
                None => {
                    proof {
                        lemma_length_nonneg(all.skip(i as int + 1), column);
                    }
                    return Err(Error::OutOfSpec);
                },
            };
            if start.checked_add(next).is_none() {
                proof {
                    lemma_length_nonneg(all.skip(i as int + 1), column);
                }
                return Err(Error::OutOfSpec);
            }
            length = next;
        }
        i += 1;
    }
    assert(all.skip(i as int) =~= seq![]);
    Ok((start, length))
}

pub proof fn lemma_length_nonneg(streams: Seq<Stream>, column: u32)
    ensures
        column_length(streams, column) >= 0,
    decreases streams.len(),
{
    if streams.len() > 0 {
        lemma_length_nonneg(streams.drop_first(), column);
    }
}

proof fn lemma_start_none(streams: Seq<Stream>, column: u32, offset: int)
    requires
        forall|j: int| 0 <= j < streams.len() ==> !is_column_stream(#[trigger] streams[j], column),
    ensures
        column_start(streams, column, offset) is None,
    decreases streams.len(),
{
    if streams.len() > 0 {
        assert(forall|j: int| 0 <= j < streams.len() - 1 ==> streams.drop_first()[j] == streams[j + 1]);
        lemma_start_none(streams.drop_first(), column, offset + streams[0].length);
    }
}

proof fn lemma_start_some(streams: Seq<Stream>, column: u32, offset: int, k: int)
    requires
        0 <= k < streams.len(),
        is_column_stream(streams[k], column),
    ensures
        column_start(streams, column, offset) is Some,
    decreases streams.len(),
{
    if !is_column_stream(streams[0], column) {
        assert(streams.drop_first()[k - 1] == streams[k]);
        lemma_start_some(streams.drop_first(), column, offset + streams[0].length, k - 1);
    }
}

pub proof fn lemma_start_bound(streams: Seq<Stream>, column: u32, offset: int)
    ensures
        column_start(streams, column, offset) is Some ==> column_start(streams, column, offset)->Some_0
            >= offset,
    decreases streams.len(),
{
    if streams.len() > 0 && !is_column_stream(streams[0], column) {
        lemma_start_bound(streams.drop_first(), column, offset + streams[0].length);
    }
}

/// The streams of a column before the first one add nothing to its length.
proof fn lemma_length_skip(streams: Seq<Stream>, column: u32, i: int)
    requires
        0 <= i <= streams.len(),
        forall|j: int| 0 <= j < i ==> !is_column_stream(#[trigger] streams[j], column),
    ensures
        column_length(streams, column) == column_length(streams.skip(i), column),
    decreases i,
{
    if i > 0 {
        assert(streams.drop_first().skip(i - 1) =~= streams.skip(i));
        assert(!is_column_stream(streams[0], column));
        assert forall|j: int| 0 <= j < i - 1 implies !is_column_stream(
            #[trigger] streams.drop_first()[j],
            column,
        ) by {
            assert(streams.drop_first()[j] == streams[j + 1]);
        }
        lemma_length_skip(streams.drop_first(), column, i - 1);
        assert(column_length(streams, column) == column_length(streams.drop_first(), column));
        assert(column_length(streams.drop_first(), column) == column_length(streams.drop_first().skip(i - 1), column));
    } else {
        assert(streams.skip(0) =~= streams);
    }
}

/// The streams of one column within a stripe, and what is needed to decode them.
/// Its main use is [`Column::get_stream`], to get a stream.
pub struct Column {
    data: Vec<u8>,
    column: u32,
    number_of_rows: u64,
    footer: StripeFooter,
    compression: CompressionKind,
}

impl Column {
    /// The bytes of the column's decoded streams, as laid out in the stripe.
    pub closed spec fn data(&self) -> Seq<u8> {
        self.data@
    }

    /// The id of the column.
    pub closed spec fn column(&self) -> u32 {
        self.column
    }

    /// The streams of the stripe, in their order on disk.
    pub closed spec fn streams(&self) -> Seq<Stream> {
        self.footer.streams@
    }

    /// The encodings of the stripe's columns, by column id.
    pub closed spec fn encodings(&self) -> Seq<ColumnEncoding> {
        self.footer.columns@
    }

    /// The compression of the streams.
    pub closed spec fn compression(&self) -> CompressionKind {
        self.compression
    }

    /// The number of rows of the stripe.
    pub closed spec fn rows(&self) -> u64 {
        self.number_of_rows
    }

    /// A column of id `column` whose decoded streams, as laid out in the stripe, are
    /// `data`.
    pub fn new(
        data: Vec<u8>,
        column: u32,
        number_of_rows: u64,
        footer: StripeFooter,
        compression: CompressionKind,
    ) -> (r: Self)
        ensures
            r.data() == data@,
            r.column() == column,
            r.rows() == number_of_rows,
            r.streams() == footer.streams@,
            r.encodings() == footer.columns@,
            r.compression() == compression,
    {
        Column { data, column, number_of_rows, footer, compression }
    }

    /// Returns the stream `kind` of this column as a [`Decompressor`], which takes
    /// `scratch` as its own: recover it with `into_inner`. Fails with `InvalidKind`
    /// where the column has no such stream, and with `OutOfSpec` where the stream
    /// lies beyond the column's bytes.
    pub fn get_stream(&self, kind: StreamKind, scratch: Vec<u8>) -> (r: Result<Decompressor<'_>, Error>)
        ensures
            match find_stream(self.streams(), self.column(), kind, 0) {
                None => r is Err && r->Err_0 == Error::InvalidKind(self.column(), kind),
                Some((start, length)) => if start + length <= self.data().len() {
                    let bytes = self.data().subrange(start, start + length);
                    &&& r is Ok
                    &&& r->Ok_0.wf()
                    &&& r->Ok_0.compression() == self.compression()
                    &&& r->Ok_0.rest() == logical_bytes(self.compression(), bytes)
                    &&& r->Ok_0.end_error() == stream_end_error(self.compression(), bytes)
                    &&& r->Ok_0.failure() == logical_failure(self.compression(), bytes)
                } else {
                    r is Err && r->Err_0 == Error::OutOfSpec
                },
            },
    {
        let streams = &self.footer.streams;
        let ghost all = streams@;
        let mut i: usize = 0;
        let mut start: usize = 0;
        // whether a stream before lies beyond the column's bytes
        let mut beyond = false;
        let ghost mut offset: int = 0;
        assert(all.skip(0) =~= all);
        while i < streams.len()
            invariant
                i <= streams@.len(),
                all == streams@,
                all == self.footer.streams@,
                start <= self.data@.len(),
                !beyond ==> offset == start,
                beyond ==> offset > self.data@.len(),
                find_stream(all, self.column, kind, 0) == find_stream(
                    all.skip(i as int),
                    self.column,
                    kind,
                    offset,
                ),
            decreases streams.len() - i,
        {
            let stream = streams[i];
            assert(all.skip(i as int).drop_first() =~= all.skip(i as int + 1));
            assert(all.skip(i as int)[0] == stream);
            if stream.column == self.column && stream.kind != StreamKind::RowIndex {
                if stream.kind == kind {
                    if beyond || stream.length > (self.data.len() - start) as u64 {
                        return Err(Error::OutOfSpec);
                    }
                    let length = stream.length as usize;
                    let data = &self.data[start..start + length];
                    return Ok(Decompressor::new(data, self.compression, scratch));
                }
                proof {
                    offset = offset + stream.length;
                }
                if !beyond {
                    if stream.length > (self.data.len() - start) as u64 {
                        beyond = true;
                    } else {
                        start = start + stream.length as usize;
                    }
                }
            }
            i += 1;
        }
        Err(Error::InvalidKind(self.column, kind))
    }

    /// The encoding of this column.
    pub fn encoding(&self) -> (r: Option<&ColumnEncoding>)
        ensures
            (self.column() as int) < self.encodings().len() ==> r == Some(
                &self.encodings()[self.column() as int],
            ),
            (self.column() as int) >= self.encodings().len() ==> r is None,
    {
        if (self.column as usize) < self.footer.columns.len() {
            Some(&self.footer.columns[self.column as usize])
        } else {
            None
        }
    }

    /// The number of entries of the column's dictionary, where it has one.
    pub fn dictionary_size(&self) -> (r: Option<usize>)
        ensures
            (self.column() as int) < self.encodings().len() ==> r == match self.encodings()[self.column() as int].dictionary_size {
                Some(x) => Some(x as usize),
                None => None::<usize>,
            },
            (self.column() as int) >= self.encodings().len() ==> r is None,
    {
        if (self.column as usize) < self.footer.columns.len() {
            match self.footer.columns[self.column as usize].dictionary_size {
                Some(x) => Some(x as usize),
                None => None,
            }
        } else {
            None
        }
    }

    /// The number of rows on this column.
    pub fn number_of_rows(&self) -> (r: u64)
        ensures
            r == self.rows(),
    {
        self.number_of_rows
    }

    /// Returns the underlying region holding the (compressed) streams of this column,
    /// so it can be re-used.
    pub fn into_inner(self) -> (r: Vec<u8>)
        ensures
            r@ == self.data(),
    {
        self.data
    }
}

} // verus!
