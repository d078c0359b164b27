use std::io::Write;

use orc_format::adapters::{
    count_valid, read_boolean_column, read_dictionary_string_column, read_direct_string_column,
    read_float_column, read_integer_column, read_string_column, read_validity,
};
use orc_format::error::Error;
use orc_format::float::FloatWidth;
use orc_format::proto::{
    ColumnEncoding, ColumnEncodingKind, CompressionKind, Stream, StreamKind, StripeFooter,
};
use orc_format::stripe::Column;

const VALID: [bool; 5] = [true, true, false, true, true];
// boolean RLE: one literal byte, 0b1101_1000
const PRESENT: [u8; 2] = [0xff, 0xd8];

fn column(
    streams: Vec<(StreamKind, Vec<u8>)>,
    kind: ColumnEncodingKind,
    dictionary_size: Option<u32>,
    rows: u64,
    compression: CompressionKind,
) -> Column {
    let mut data = vec![];
    let mut list = vec![Stream { column: 0, kind: StreamKind::RowIndex, length: 0 }];
    for (kind, bytes) in streams {
        list.push(Stream { column: 1, kind, length: bytes.len() as u64 });
        data.extend(bytes);
    }
    let footer = StripeFooter {
        streams: list,
        columns: vec![
            ColumnEncoding { kind: ColumnEncodingKind::Direct, dictionary_size: None },
            ColumnEncoding { kind, dictionary_size },
        ],
    };
    Column::new(data, 1, rows, footer, compression)
}

fn deflate_block(data: &[u8]) -> Vec<u8> {
    let mut encoder =
        flate2::write::DeflateEncoder::new(Vec::new(), flate2::Compression::default());
    encoder.write_all(data).unwrap();
    let body = encoder.finish().unwrap();
    let value = (body.len() as u32) << 1;
    let mut out = vec![value as u8, (value >> 8) as u8, (value >> 16) as u8];
    out.extend(body);
    out
}

#[test]
fn validity() {
    let c = column(
        vec![(StreamKind::Present, PRESENT.to_vec())],
        ColumnEncodingKind::DirectV2,
        None,
        5,
        CompressionKind::Uncompressed,
    );
    let validity = read_validity(&c, vec![]).unwrap();
    assert_eq!(validity, VALID.to_vec());
    assert_eq!(count_valid(&validity), 4);

    // no Present stream: every row is valid
    let c = column(vec![], ColumnEncodingKind::DirectV2, None, 3, CompressionKind::Uncompressed);
    assert_eq!(read_validity(&c, vec![]).unwrap(), vec![true; 3]);

    // a Present stream shorter than the rows
    let c = column(
        vec![(StreamKind::Present, PRESENT.to_vec())],
        ColumnEncodingKind::DirectV2,
        None,
        9,
        CompressionKind::Uncompressed,
    );
    assert!(matches!(read_validity(&c, vec![]), Err(Error::OutOfSpec)));
}

#[test]
fn integer_column() {
    // direct, 8 bits, zigzag of [-1, 2, 5, -3]
    let values = vec![0x4e, 0x03, 1, 4, 10, 5];
    let c = column(
        vec![(StreamKind::Present, PRESENT.to_vec()), (StreamKind::Data, values.clone())],
        ColumnEncodingKind::DirectV2,
        None,
        5,
        CompressionKind::Uncompressed,
    );
    let (validity, values_read) = read_integer_column(&c).unwrap();
    assert_eq!(validity, VALID.to_vec());
    assert_eq!(values_read, vec![-1, 2, 5, -3]);

    // the same column, each stream compressed
    let c = column(
        vec![
            (StreamKind::Present, deflate_block(&PRESENT)),
            (StreamKind::Data, deflate_block(&values)),
        ],
        ColumnEncodingKind::DirectV2,
        None,
        5,
        CompressionKind::Zlib,
    );
    let (validity, values_read) = read_integer_column(&c).unwrap();
    assert_eq!(validity, VALID.to_vec());
    assert_eq!(values_read, vec![-1, 2, 5, -3]);

    // no Data stream
    let c = column(
        vec![(StreamKind::Present, PRESENT.to_vec())],
        ColumnEncodingKind::DirectV2,
        None,
        5,
        CompressionKind::Uncompressed,
    );
    assert!(matches!(read_integer_column(&c), Err(Error::InvalidKind(1, StreamKind::Data))));
}

#[test]
fn boolean_column() {
    let c = column(
        vec![(StreamKind::Data, vec![0xff, 0x80])],
        ColumnEncodingKind::Direct,
        None,
        8,
        CompressionKind::Uncompressed,
    );
    let (validity, values) = read_boolean_column(&c).unwrap();
    assert_eq!(validity, vec![true; 8]);
    assert_eq!(values, vec![true, false, false, false, false, false, false, false]);
}

#[test]
fn float_column() {
    let mut data = vec![];
    data.extend_from_slice(&1.5f32.to_le_bytes());
    data.extend_from_slice(&(-0.25f32).to_le_bytes());
    let c = column(
        vec![(StreamKind::Present, vec![0xff, 0xa0]), (StreamKind::Data, data)],
        ColumnEncodingKind::Direct,
        None,
        3,
        CompressionKind::Uncompressed,
    );
    let (validity, bits) = read_float_column(&c, FloatWidth::Single).unwrap();
    assert_eq!(validity, vec![true, false, true]);
    let values: Vec<f32> = bits.iter().map(|b| f32::from_bits(*b as u32)).collect();
    assert_eq!(values, vec![1.5, -0.25]);
    // too few bytes for doubles
    assert!(matches!(read_float_column(&c, FloatWidth::Double), Err(Error::DecodeFloat)));
}

fn strings(values: Vec<Vec<u8>>) -> Vec<String> {
    values.into_iter().map(|v| String::from_utf8(v).unwrap()).collect()
}

#[test]
fn direct_string_column() {
    let c = column(
        vec![
            (StreamKind::Present, PRESENT.to_vec()),
            (StreamKind::Data, b"accccccdddee".to_vec()),
            (StreamKind::Length, vec![0x4e, 0x03, 1, 6, 3, 2]),
        ],
        ColumnEncodingKind::DirectV2,
        None,
        5,
        CompressionKind::Uncompressed,
    );
    let (validity, values) = read_direct_string_column(&c).unwrap();
    assert_eq!(validity, VALID.to_vec());
    assert_eq!(strings(values), vec!["a", "cccccc", "ddd", "ee"]);
    let (_, values) = read_string_column(&c).unwrap();
    assert_eq!(strings(values), vec!["a", "cccccc", "ddd", "ee"]);

    // lengths that run past the data
    let c = column(
        vec![
            (StreamKind::Present, PRESENT.to_vec()),
            (StreamKind::Data, b"acccccc".to_vec()),
            (StreamKind::Length, vec![0x4e, 0x03, 1, 6, 3, 2]),
        ],
        ColumnEncodingKind::DirectV2,
        None,
        5,
        CompressionKind::Uncompressed,
    );
    assert!(matches!(read_direct_string_column(&c), Err(Error::OutOfSpec)));
}

fn dictionary_column(indices: Vec<u8>) -> Column {
    column(
        vec![
            (StreamKind::Present, PRESENT.to_vec()),
            (StreamKind::Data, indices),
            (StreamKind::Length, vec![0x4e, 0x01, 3, 4]),
            (StreamKind::DictionaryData, b"abcefgh".to_vec()),
        ],
        ColumnEncodingKind::DictionaryV2,
        Some(2),
        5,
        CompressionKind::Uncompressed,
    )
}

#[test]
fn dictionary_string_column() {
    let c = dictionary_column(vec![0x4e, 0x03, 1, 0, 1, 1]);
    let (validity, values) = read_dictionary_string_column(&c).unwrap();
    assert_eq!(validity, VALID.to_vec());
    assert_eq!(strings(values), vec!["efgh", "abc", "efgh", "efgh"]);
    let (_, values) = read_string_column(&c).unwrap();
    assert_eq!(strings(values), vec!["efgh", "abc", "efgh", "efgh"]);

    // an index outside the dictionary
    let c = dictionary_column(vec![0x4e, 0x03, 1, 0, 2, 1]);
    assert!(matches!(read_dictionary_string_column(&c), Err(Error::OutOfSpec)));

    // a dictionary column without a dictionary size
    let c = column(
        vec![(StreamKind::Present, PRESENT.to_vec())],
        ColumnEncodingKind::DictionaryV2,
        None,
        5,
        CompressionKind::Uncompressed,
    );
    assert!(matches!(read_dictionary_string_column(&c), Err(Error::OutOfSpec)));
}

#[test]
fn unsupported_string_encoding() {
    let c = column(
        vec![(StreamKind::Present, PRESENT.to_vec())],
        ColumnEncodingKind::Direct,
        None,
        5,
        CompressionKind::Uncompressed,
    );
    assert!(matches!(read_string_column(&c), Err(Error::OutOfSpec)));
}
