//! Typed reads of a column: its validity, and its valid values as booleans,
//! integers, floats (as bit patterns) or byte strings, direct or by dictionary.
use vstd::prelude::*;

use crate::boolean_rle::{boolean_outcome, lemma_boolean_count, BooleanIter};
use crate::decompress::{logical_bytes, stream_end_error};
use crate::error::Error;
use crate::float::{float_outcome, FloatIter, FloatWidth};
use crate::proto::{ColumnEncodingKind, StreamKind};
use crate::rle_v2::{decode_signed, decode_unsigned, read_signed_values, read_unsigned_values};
use crate::source::{read_bytes, ByteSource};
use crate::stripe::{find_stream, Column};

verus! {

/// The logical bytes of the stream `kind` of `column` and the error of a read past
/// them, or the error of locating the stream.
pub open spec fn stream_of(column: &Column, kind: StreamKind) -> Result<(Seq<u8>, Error), Error> {
    match find_stream(column.streams(), column.column(), kind, 0) {
        None => Err(Error::InvalidKind(column.column(), kind)),
        Some((start, length)) => if start + length <= column.data().len() {
            let bytes = column.data().subrange(start, start + length);
            Ok((logical_bytes(column.compression(), bytes), stream_end_error(column.compression(), bytes)))
        } else {
            Err(Error::OutOfSpec)
        },
    }
}

/// The first `n` booleans of the boolean stream `kind` of `column`.
pub open spec fn boolean_stream(column: &Column, kind: StreamKind, n: nat) -> Result<Seq<bool>, Error> {
    match stream_of(column, kind) {
        Err(e) => Err(e),
        Ok((bytes, end)) => match boolean_outcome(bytes, end, n) {
            (values, None) => Ok(values),
            (_, Some(e)) => Err(e),
        },
    }
}

/// The validity of the rows of `column`: its Present stream, or every row valid
/// where it has none.
pub open spec fn validity_of(column: &Column) -> Result<Seq<bool>, Error> {
    match stream_of(column, StreamKind::Present) {
        Err(Error::InvalidKind(_, _)) => Ok(Seq::new(column.rows() as nat, |i: int| true)),
        _ => boolean_stream(column, StreamKind::Present, column.rows() as nat),
    }
}

/// The number of `true` in `s`.
pub open spec fn count_true(s: Seq<bool>) -> nat
    decreases s.len(),
{
    if s.len() == 0 {
        0
    } else {
        count_true(s.drop_last()) + if s.last() {
            1nat
        } else {
            0
        }
    }
}

/// Reads the `n` booleans of a boolean stream.
fn collect_booleans<R: ByteSource>(reader: R, n: usize) -> (r: Result<Vec<bool>, Error>)
    requires
        reader.wf(),
    ensures
        match boolean_outcome(reader.rest(), reader.end_error(), n as nat) {
            (values, None) => r is Ok && r->Ok_0@ == values,
            (_, Some(e)) => r == Err::<Vec<bool>, Error>(e),
        },
{
    let ghost target = boolean_outcome(reader.rest(), reader.end_error(), n as nat);
    let mut iter = BooleanIter::new(reader, n);
    let mut out: Vec<bool> = Vec::new();
    proof {
        lemma_boolean_count(reader.rest(), reader.end_error(), n as nat);
        assert(out@ + iter.outcome().0 =~= target.0);
    }
    loop
        invariant
            iter.wf(),
            target == boolean_outcome(reader.rest(), reader.end_error(), n as nat),
            out@ + iter.outcome().0 == target.0,
            iter.outcome().1 == target.1,
        decreases iter.outcome().0.len() + if iter.outcome().1 is Some {
            1int
        } else {
            0
        },
    {
        let ghost before = iter.outcome();
        match iter.next() {
            Some(Ok(v)) => {
                out.push(v);
                assert(out@ + iter.outcome().0 =~= target.0) by {
                    assert(before.0 =~= seq![v] + iter.outcome().0);
                }
            },
            Some(Err(e)) => {
                return Err(e);
            },
            None => {
                assert(out@ =~= target.0);
                return Ok(out);
            },
        }
    }
}

/// Reads the validity of the rows of `column`: the booleans of its Present stream,
/// or every row valid where it has none.
pub fn read_validity(column: &Column, scratch: Vec<u8>) -> (r: Result<Vec<bool>, Error>)
    requires
        column.rows() <= usize::MAX,
    ensures
        match validity_of(column) {
            Ok(v) => r is Ok && r->Ok_0@ == v,
            Err(e) => r == Err::<Vec<bool>, Error>(e),
        },
{
    let rows = column.number_of_rows() as usize;
    match column.get_stream(StreamKind::Present, scratch) {
        Ok(reader) => collect_booleans(reader, rows),
        Err(Error::InvalidKind(c, k)) => {
            let mut out: Vec<bool> = Vec::new();
            let mut i: usize = 0;
            while i < rows
                invariant
                    i <= rows,
                    out@ == Seq::new(i as nat, |j: int| true),
                decreases rows - i,
            {
                out.push(true);
                i += 1;
                assert(out@ =~= Seq::new(i as nat, |j: int| true));
            }
            Ok(out)
        },
        Err(e) => Err(e),
    }
}

/// The number of valid rows.
pub fn count_valid(validity: &Vec<bool>) -> (r: usize)
    ensures
        r == count_true(validity@),
{
    let mut count: usize = 0;
    let mut i: usize = 0;
    while i < validity.len()
        invariant
            i <= validity@.len(),
            count == count_true(validity@.take(i as int)),
            count <= i,
        decreases validity.len() - i,
    {
        assert(validity@.take(i as int + 1).drop_last() =~= validity@.take(i as int));
        if validity[i] {
            count = count + 1;
        }
        i += 1;
    }
    assert(validity@.take(i as int) =~= validity@);
    count
}

/// The validity of `column` and the values that `values_of` gives for its valid
/// rows.
pub open spec fn typed_column<T>(
    column: &Column,
    values_of: spec_fn(nat) -> Result<Seq<T>, Error>,
) -> Result<(Seq<bool>, Seq<T>), Error> {
    match validity_of(column) {
        Err(e) => Err(e),
        Ok(validity) => match values_of(count_true(validity)) {
            Err(e) => Err(e),
            Ok(values) => Ok((validity, values)),
        },
    }
}

/// Reads a boolean column: its validity, and the booleans of its valid rows.
pub fn read_boolean_column(column: &Column) -> (r: Result<(Vec<bool>, Vec<bool>), Error>)
    requires
        column.rows() <= usize::MAX,
    ensures
        match typed_column(column, |n: nat| boolean_stream(column, StreamKind::Data, n)) {
            Ok((validity, values)) => r is Ok && r->Ok_0.0@ == validity && r->Ok_0.1@ == values,
            Err(e) => r is Err && r->Err_0 == e,
        },
{
    let validity = match read_validity(column, Vec::new()) {
        Ok(v) => v,
        Err(e) => {
            return Err(e);
        },
    };
    let n = count_valid(&validity);
    let reader = match column.get_stream(StreamKind::Data, Vec::new()) {
        Ok(reader) => reader,
        Err(e) => {
            return Err(e);
        },
    };
    match collect_booleans(reader, n) {
        Ok(values) => Ok((validity, values)),
        Err(e) => Err(e),
    }
}

/// The first `n` values of the signed integer stream `kind` of `column`.
pub open spec fn signed_stream(column: &Column, kind: StreamKind, n: nat) -> Result<Seq<i64>, Error> {
    match stream_of(column, kind) {
        Err(e) => Err(e),
        Ok((bytes, end)) => decode_signed(bytes, end, n),
    }
}

/// The first `n` values of the unsigned integer stream `kind` of `column`.
pub open spec fn unsigned_stream(column: &Column, kind: StreamKind, n: nat) -> Result<Seq<u64>, Error> {
    match stream_of(column, kind) {
        Err(e) => Err(e),
        Ok((bytes, end)) => decode_unsigned(bytes, end, n),
    }
}

/// Reads a signed integer column: its validity, and the integers of its valid rows.
pub fn read_integer_column(column: &Column) -> (r: Result<(Vec<bool>, Vec<i64>), Error>)
    requires
        column.rows() <= usize::MAX,
    ensures
        match typed_column(column, |n: nat| signed_stream(column, StreamKind::Data, n)) {
            Ok((validity, values)) => r is Ok && r->Ok_0.0@ == validity && r->Ok_0.1@ == values,
            Err(e) => r is Err && r->Err_0 == e,
        },
{
    let validity = match read_validity(column, Vec::new()) {
        Ok(v) => v,
        Err(e) => {
            return Err(e);
        },
    };
    let n = count_valid(&validity);
    let mut reader = match column.get_stream(StreamKind::Data, Vec::new()) {
        Ok(reader) => reader,
        Err(e) => {
            return Err(e);
        },
    };
    match read_signed_values(&mut reader, n) {
        Ok(values) => Ok((validity, values)),
        Err(e) => Err(e),
    }
}

/// The first `n` floats of width `width` of the stream `kind` of `column`, as bit
/// patterns.
pub open spec fn float_stream(column: &Column, kind: StreamKind, width: FloatWidth, n: nat) -> Result<Seq<u64>, Error> {
    match stream_of(column, kind) {
        Err(e) => Err(e),
        Ok((bytes, end)) => match float_outcome(bytes, width, n) {
            (values, None) => Ok(values),
            (_, Some(e)) => Err(e),
        },
    }
}

/// Reads a float column: its validity, and the bit patterns of the floats of its
/// valid rows.
pub fn read_float_column(column: &Column, width: FloatWidth) -> (r: Result<(Vec<bool>, Vec<u64>), Error>)
    requires
        column.rows() <= usize::MAX,
    ensures
        match typed_column(column, |n: nat| float_stream(column, StreamKind::Data, width, n)) {
            Ok((validity, values)) => r is Ok && r->Ok_0.0@ == validity && r->Ok_0.1@ == values,
            Err(e) => r is Err && r->Err_0 == e,
        },
{
    let validity = match read_validity(column, Vec::new()) {
        Ok(v) => v,
        Err(e) => {
            return Err(e);
        },
    };
    let n = count_valid(&validity);
    let reader = match column.get_stream(StreamKind::Data, Vec::new()) {
        Ok(reader) => reader,
        Err(e) => {
            return Err(e);
        },
    };
    let mut iter = FloatIter::new(reader, n, width);
    let ghost target = iter.outcome();
    let mut out: Vec<u64> = Vec::new();
    assert(out@ + iter.outcome().0 =~= target.0);
    loop
        invariant
            iter.wf(),
            out@ + iter.outcome().0 == target.0,
            iter.outcome().1 == target.1,
            target == float_outcome(
                stream_of(column, StreamKind::Data)->Ok_0.0,
                width,
                count_true(validity@),
            ),
            stream_of(column, StreamKind::Data) is Ok,
            validity_of(column) == Ok::<Seq<bool>, Error>(validity@),
            n == count_true(validity@),
        decreases iter.outcome().0.len() + if iter.outcome().1 is Some {
            1int
        } else {
            0
        },
    {
        let ghost before = iter.outcome();
        match iter.next() {
            Some(Ok(v)) => {
                out.push(v);
                assert(out@ + iter.outcome().0 =~= target.0) by {
                    assert(before.0 =~= seq![v] + iter.outcome().0);
                }
            },
            Some(Err(e)) => {
                return Err(e);
            },
            None => {
                assert(out@ =~= target.0);
                return Ok((validity, out));
            },
        }
    }
}

/// `bytes` cut into consecutive pieces of the given lengths, or the error of a read
/// past its end (`end`), or `OutOfSpec` for a length beyond the address space.
pub open spec fn split_lengths(bytes: Seq<u8>, end: Error, lengths: Seq<u64>) -> Result<Seq<Seq<u8>>, Error>
    decreases lengths.len(),
{
    if lengths.len() == 0 {
        Ok(seq![])
    } else {
        let l = lengths[0] as int;
        if l > usize::MAX {
            Err(Error::OutOfSpec)
        } else if bytes.len() < l {
            Err(end)
        } else {
            match split_lengths(bytes.skip(l), end, lengths.drop_first()) {
                Ok(t) => Ok(seq![bytes.take(l)] + t),
                Err(e) => Err(e),
            }
        }
    }
}

/// Whether the vectors `v` hold the byte strings `s`.
pub open spec fn holds_strings(v: Seq<Vec<u8>>, s: Seq<Seq<u8>>) -> bool {
    &&& v.len() == s.len()
    &&& forall|i: int| 0 <= i < s.len() ==> #[trigger] v[i]@ == s[i]
}

/// Reads from `reader` one byte string for each of `lengths`.
fn read_strings<R: ByteSource>(reader: &mut R, lengths: &Vec<u64>) -> (r: Result<Vec<Vec<u8>>, Error>)
    requires
        old(reader).wf(),
    ensures
        match split_lengths(old(reader).rest(), old(reader).end_error(), lengths@) {
            Ok(t) => r is Ok && holds_strings(r->Ok_0@, t),
            Err(e) => r == Err::<Vec<Vec<u8>>, Error>(e),
        },
{
    let ghost s0 = reader.rest();
    let ghost end = reader.end_error();
    let mut out: Vec<Vec<u8>> = Vec::new();
    let mut i: usize = 0;
    assert(lengths@.skip(0) =~= lengths@);
    while i < lengths.len()
        invariant
            i <= lengths@.len(),
            reader.wf(),
            reader.end_error() == end,
            end == old(reader).end_error(),
            s0 == old(reader).rest(),
            split_lengths(s0, end, lengths@) == match split_lengths(
                reader.rest(),
                end,
                lengths@.skip(i as int),
            ) {
                Ok(t) => Ok(out@.map_values(|v: Vec<u8>| v@) + t),
                Err(e) => Err(e),
            },
        decreases lengths.len() - i,
    {
        let ghost rest = reader.rest();
        assert(lengths@.skip(i as int).drop_first() =~= lengths@.skip(i as int + 1));
        assert(lengths@.skip(i as int)[0] == lengths@[i as int]);
        let l = lengths[i];
        if l > usize::MAX as u64 {
            return Err(Error::OutOfSpec);
        }
        let mut value: Vec<u8> = Vec::new();
        match read_bytes(reader, l as usize, &mut value) {
            Ok(()) => {},
            Err(e) => {
                return Err(e);
            },
        }
        let ghost before = out@.map_values(|v: Vec<u8>| v@);
        out.push(value);
        assert(out@.map_values(|v: Vec<u8>| v@) =~= before.push(rest.take(l as int)));
        proof {
            let tail = split_lengths(reader.rest(), end, lengths@.skip(i as int + 1));
            if let Ok(t) = tail {
                assert(before + (seq![rest.take(l as int)] + t) =~= before.push(rest.take(l as int))
                    + t);
            }
        }
        i += 1;
    }
    proof {
        assert(lengths@.skip(i as int) =~= Seq::<u64>::empty());
        let all = out@.map_values(|v: Vec<u8>| v@);
        assert(all + seq![] =~= all);
    }
    Ok(out)
}

/// The byte strings of the valid rows of a column of directly encoded strings:
/// `n` lengths from its Length stream cut its Data stream.
pub open spec fn direct_strings(column: &Column, n: nat) -> Result<Seq<Seq<u8>>, Error> {
    match stream_of(column, StreamKind::Data) {
        Err(e) => Err(e),
        Ok((bytes, end)) => match unsigned_stream(column, StreamKind::Length, n) {
            Err(e) => Err(e),
            Ok(lengths) => split_lengths(bytes, end, lengths),
        },
    }
}

/// Reads a column of directly encoded strings: its validity, and the bytes of the
/// strings of its valid rows (UTF-8 is not checked here).
pub fn read_direct_string_column(column: &Column) -> (r: Result<(Vec<bool>, Vec<Vec<u8>>), Error>)
    requires
        column.rows() <= usize::MAX,
    ensures
        match typed_column(column, |n: nat| direct_strings(column, n)) {
            Ok((validity, values)) => r is Ok && r->Ok_0.0@ == validity && holds_strings(
                r->Ok_0.1@,
                values,
            ),
            Err(e) => r is Err && r->Err_0 == e,
        },
{
    let validity = match read_validity(column, Vec::new()) {
        Ok(v) => v,
        Err(e) => {
            return Err(e);
        },
    };
    let n = count_valid(&validity);
    let mut data = match column.get_stream(StreamKind::Data, Vec::new()) {
        Ok(reader) => reader,
        Err(e) => {
            return Err(e);
        },
    };
    let mut length_stream = match column.get_stream(StreamKind::Length, Vec::new()) {
        Ok(reader) => reader,
        Err(e) => {
            return Err(e);
        },
    };
    let lengths = match read_unsigned_values(&mut length_stream, n) {
        Ok(lengths) => lengths,
        Err(e) => {
            return Err(e);
        },
    };
    match read_strings(&mut data, &lengths) {
        Ok(values) => Ok((validity, values)),
        Err(e) => Err(e),
    }
}

/// The entries of the dictionary of `column`: `dictionary_size` lengths from its
/// Length stream cut its DictionaryData stream.
pub open spec fn dictionary_of(column: &Column) -> Result<Seq<Seq<u8>>, Error> {
    if column.column() as int >= column.encodings().len() {
        Err(Error::OutOfSpec)
    } else {
        match column.encodings()[column.column() as int].dictionary_size {
            None => Err(Error::OutOfSpec),
            Some(size) => match stream_of(column, StreamKind::DictionaryData) {
                Err(e) => Err(e),
                Ok((bytes, end)) => match unsigned_stream(column, StreamKind::Length, size as nat) {
                    Err(e) => Err(e),
                    Ok(lengths) => split_lengths(bytes, end, lengths),
                },
            },
        }
    }
}

/// The byte strings of the valid rows of a dictionary-encoded column: each of the
/// `n` indices of its Data stream picks an entry of the dictionary.
pub open spec fn dictionary_strings(column: &Column, n: nat) -> Result<Seq<Seq<u8>>, Error> {
    match dictionary_of(column) {
        Err(e) => Err(e),
        Ok(dictionary) => match unsigned_stream(column, StreamKind::Data, n) {
            Err(e) => Err(e),
            Ok(indices) => if forall|i: int| 0 <= i < indices.len() ==> #[trigger] indices[i] < dictionary.len() {
                Ok(Seq::new(indices.len(), |i: int| dictionary[indices[i] as int]))
            } else {
                Err(Error::OutOfSpec)
            },
        },
    }
}

/// Reads a dictionary-encoded string column: its validity, and the bytes of the
/// strings of its valid rows (UTF-8 is not checked here). Fails with `OutOfSpec`
/// where an index lies outside the dictionary.
pub fn read_dictionary_string_column(column: &Column) -> (r: Result<(Vec<bool>, Vec<Vec<u8>>), Error>)
    requires
        column.rows() <= usize::MAX,
    ensures
        match typed_column(column, |n: nat| dictionary_strings(column, n)) {
            Ok((validity, values)) => r is Ok && r->Ok_0.0@ == validity && holds_strings(
                r->Ok_0.1@,
                values,
            ),
            Err(e) => r is Err && r->Err_0 == e,
        },
{
    let validity = match read_validity(column, Vec::new()) {
        Ok(v) => v,
        Err(e) => {
            return Err(e);
        },
    };
    let n = count_valid(&validity);
    let size = match column.dictionary_size() {
        Some(size) => size,
        None => {
            return Err(Error::OutOfSpec);
        },
    };
    let mut entries_stream = match column.get_stream(StreamKind::DictionaryData, Vec::new()) {
        Ok(reader) => reader,
        Err(e) => {
            return Err(e);
        },
    };
    let mut length_stream = match column.get_stream(StreamKind::Length, Vec::new()) {
        Ok(reader) => reader,
        Err(e) => {
            return Err(e);
        },
    };
    let lengths = match read_unsigned_values(&mut length_stream, size) {
        Ok(lengths) => lengths,
        Err(e) => {
            return Err(e);
        },
    };
    let dictionary = match read_strings(&mut entries_stream, &lengths) {
        Ok(entries) => entries,
        Err(e) => {
            return Err(e);
        },
    };
    let ghost dict = dictionary_of(column)->Ok_0;
    let mut index_stream = match column.get_stream(StreamKind::Data, Vec::new()) {
        Ok(reader) => reader,
        Err(e) => {
            return Err(e);
        },
    };
    let indices = match read_unsigned_values(&mut index_stream, n) {
        Ok(indices) => indices,
        Err(e) => {
            return Err(e);
        },
    };
    let mut out: Vec<Vec<u8>> = Vec::new();
    let mut i: usize = 0;
    while i < indices.len()
        invariant
            i <= indices@.len(),
            holds_strings(dictionary@, dict),
            validity_of(column) == Ok::<Seq<bool>, Error>(validity@),
            n == count_true(validity@),
            dictionary_of(column) == Ok::<Seq<Seq<u8>>, Error>(dict),
            unsigned_stream(column, StreamKind::Data, n as nat) == Ok::<Seq<u64>, Error>(indices@),
            out@.len() == i,
            forall|j: int| 0 <= j < i ==> indices@[j] < dict.len(),
            forall|j: int| 0 <= j < i ==> #[trigger] out@[j]@ == dict[indices@[j] as int],
        decreases indices.len() - i,
    {
        let index = indices[i];
        if index >= dictionary.len() as u64 {
            assert(!(forall|j: int| 0 <= j < indices@.len() ==> #[trigger] indices@[j] < dict.len()));
            return Err(Error::OutOfSpec);
        }
        let entry = vstd::slice::slice_to_vec(dictionary[index as usize].as_slice());
        out.push(entry);
        i += 1;
    }
    proof {
        let expected = Seq::new(indices@.len(), |j: int| dict[indices@[j] as int]);
        assert(holds_strings(out@, expected));
    }
    Ok((validity, out))
}

/// The byte strings of the valid rows of a string column, by its encoding: Direct
/// v2 or Dictionary v2; other encodings are not supported.
pub open spec fn string_values(column: &Column, n: nat) -> Result<Seq<Seq<u8>>, Error> {
    if column.column() as int >= column.encodings().len() {
        Err(Error::OutOfSpec)
    } else {
        match column.encodings()[column.column() as int].kind {
            ColumnEncodingKind::DirectV2 => direct_strings(column, n),
            ColumnEncodingKind::DictionaryV2 => dictionary_strings(column, n),
            _ => Err(Error::OutOfSpec),
        }
    }
}

/// Reads a string column, direct or dictionary encoded as its encoding says: its
/// validity, and the bytes of the strings of its valid rows.
pub fn read_string_column(column: &Column) -> (r: Result<(Vec<bool>, Vec<Vec<u8>>), Error>)
    requires
        column.rows() <= usize::MAX,
    ensures
        match typed_column(column, |n: nat| string_values(column, n)) {
            Ok((validity, values)) => r is Ok && r->Ok_0.0@ == validity && holds_strings(
                r->Ok_0.1@,
                values,
            ),
            Err(e) => r is Err && r->Err_0 == e,
        },
{
    let kind = match column.encoding() {
        Some(encoding) => encoding.kind,
        None => {
            return match read_validity(column, Vec::new()) {
                Ok(_) => Err(Error::OutOfSpec),
                Err(e) => Err(e),
            };
        },
    };
    match kind {
        ColumnEncodingKind::DirectV2 => read_direct_string_column(column),
        ColumnEncodingKind::DictionaryV2 => read_dictionary_string_column(column),
        _ => match read_validity(column, Vec::new()) {
            Ok(_) => Err(Error::OutOfSpec),
            Err(e) => Err(e),
        },
    }
}

} // verus!
