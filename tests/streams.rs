use std::io::Write;

use orc_format::boolean_rle::BooleanIter;
use orc_format::decompress::{decode_header, decompress, Decompressor, DecompressorIter};
use orc_format::error::Error;
use orc_format::proto::{
    ColumnEncoding, ColumnEncodingKind, CompressionKind, PostScript, Stream, StreamKind,
    StripeFooter, StripeInformation,
};
use orc_format::read::{
    locate_footer_and_metadata, locate_postscript, stripe_column_range, stripe_footer_range,
    tail_length, DEFAULT_FOOTER_SIZE,
};
use orc_format::rle_v2::read_unsigned_values;
use orc_format::source::ByteSource;
use orc_format::stripe::{column_range, Column};

fn deflate(data: &[u8]) -> Vec<u8> {
    let mut encoder =
        flate2::write::DeflateEncoder::new(Vec::new(), flate2::Compression::default());
    encoder.write_all(data).unwrap();
    encoder.finish().unwrap()
}

fn header(length: usize, is_original: bool) -> [u8; 3] {
    let value = ((length as u32) << 1) | is_original as u32;
    [value as u8, (value >> 8) as u8, (value >> 16) as u8]
}

fn original_block(data: &[u8]) -> Vec<u8> {
    let mut out = header(data.len(), true).to_vec();
    out.extend_from_slice(data);
    out
}

fn compressed_block(data: &[u8]) -> Vec<u8> {
    let body = deflate(data);
    let mut out = header(body.len(), false).to_vec();
    out.extend_from_slice(&body);
    out
}

fn read_all<R: ByteSource>(reader: &mut R) -> Vec<u8> {
    let mut out = vec![];
    while let Ok(b) = reader.read_u8() {
        out.push(b);
    }
    out
}

#[test]
fn decode_uncompressed() {
    // 5 uncompressed = [0x0b, 0x00, 0x00] = [0b1011, 0, 0]
    let bytes = &[0b1011, 0, 0, 0];

    let (is_original, length) = decode_header(bytes);
    assert!(is_original);
    assert_eq!(length, 5);
}

#[test]
fn decode_compressed() {
    // 100_000 compressed = [0x40, 0x0d, 0x03] = [0b01000000, 0b00001101, 0b00000011]
    let bytes = &[0b01000000, 0b00001101, 0b00000011, 0];

    let (is_original, length) = decode_header(bytes);
    assert!(!is_original);
    assert_eq!(length, 100_000);
}

#[test]
fn header_scenarios() {
    assert_eq!(decode_header(&[0x0b, 0x00, 0x00]), (true, 5));
    assert_eq!(decode_header(&[0x40, 0x0d, 0x03]), (false, 100_000));
    assert_eq!(decode_header(&header(8_388_607, true)), (true, 8_388_607));
}

#[test]
fn uncompressed_round_trip() {
    let data = b"hello, world".to_vec();
    assert_eq!(decompress(&data, CompressionKind::Uncompressed).unwrap(), data);
    let mut reader = Decompressor::new(&data, CompressionKind::Uncompressed, vec![]);
    assert_eq!(read_all(&mut reader), data);
    assert_eq!(decompress(&[], CompressionKind::Uncompressed).unwrap(), Vec::<u8>::new());
}

#[test]
fn zlib_round_trip() {
    let first: Vec<u8> = (0..5000u32).map(|i| (i % 251) as u8).collect();
    let second = b"second block, kept as it is".to_vec();
    let third = vec![7u8; 10_000];
    let mut stream = compressed_block(&first);
    stream.extend(original_block(&second));
    stream.extend(compressed_block(&third));

    let mut expected = first.clone();
    expected.extend_from_slice(&second);
    expected.extend_from_slice(&third);

    assert_eq!(decompress(&stream, CompressionKind::Zlib).unwrap(), expected);

    let mut reader = Decompressor::new(&stream, CompressionKind::Zlib, vec![]);
    let mut out = vec![];
    reader.read_to_end(&mut out).unwrap();
    assert_eq!(out, expected);

    let mut reader = Decompressor::new(&stream, CompressionKind::Zlib, vec![]);
    assert_eq!(read_all(&mut reader), expected);
    let _ = reader.into_inner();
}

#[test]
fn zlib_blocks() {
    let mut stream = original_block(b"abc");
    stream.extend(compressed_block(b"defdefdef"));
    let mut iter = DecompressorIter::new(&stream, CompressionKind::Zlib, vec![]);
    assert!(iter.get().is_none());
    iter.advance().unwrap();
    assert_eq!(iter.get().unwrap(), b"abc");
    iter.advance().unwrap();
    assert_eq!(iter.get().unwrap(), b"defdefdef");
    iter.advance().unwrap();
    assert!(iter.get().is_none());
    assert!(iter.is_finished());
    let _ = iter.into_inner();
}

#[test]
fn zlib_errors() {
    // a header that announces more than there is
    let mut stream = original_block(b"abc");
    stream.extend_from_slice(&header(10, true));
    stream.extend_from_slice(b"xy");
    assert!(matches!(decompress(&stream, CompressionKind::Zlib), Err(Error::OutOfSpec)));
    // the bytes of the well formed block come out before the error
    let mut reader = Decompressor::new(&stream, CompressionKind::Zlib, vec![]);
    assert_eq!(read_all(&mut reader), b"abc");
    assert!(matches!(reader.read_u8(), Err(Error::OutOfSpec)));

    // a truncated header
    assert!(matches!(decompress(&[0x0b, 0x00], CompressionKind::Zlib), Err(Error::OutOfSpec)));

    // a body that is no valid DEFLATE data
    let mut stream = header(4, false).to_vec();
    stream.extend_from_slice(&[0xff, 0xff, 0xff, 0xff]);
    assert!(matches!(decompress(&stream, CompressionKind::Zlib), Err(Error::Decompression)));
    let mut reader = Decompressor::new(&stream, CompressionKind::Zlib, vec![]);
    assert!(matches!(reader.read_u8(), Err(Error::Decompression)));

    // compressions other than zlib are not supported
    assert!(matches!(decompress(b"abc", CompressionKind::Snappy), Err(Error::Decompression)));
    assert_eq!(decompress(&[], CompressionKind::Zlib).unwrap(), Vec::<u8>::new());
}

#[test]
fn booleans_through_zlib() {
    // run of 0x61 + 3 = 100 bytes of 0x00, then literal 0xff
    let rle = [0x61u8, 0x00, 0xff, 0xff];
    let stream = compressed_block(&rle);
    let reader = Decompressor::new(&stream, CompressionKind::Zlib, vec![]);
    let mut iter = BooleanIter::new(reader, 808);
    let mut values = vec![];
    while let Some(v) = iter.next() {
        values.push(v.unwrap());
    }
    assert_eq!(values.len(), 808);
    assert!(values[..800].iter().all(|v| !v));
    assert!(values[800..].iter().all(|v| *v));
}

fn footer() -> StripeFooter {
    StripeFooter {
        streams: vec![
            Stream { column: 0, kind: StreamKind::RowIndex, length: 7 },
            Stream { column: 1, kind: StreamKind::RowIndex, length: 5 },
            Stream { column: 0, kind: StreamKind::Present, length: 2 },
            Stream { column: 1, kind: StreamKind::Present, length: 2 },
            Stream { column: 1, kind: StreamKind::Data, length: 3 },
            Stream { column: 1, kind: StreamKind::Length, length: 4 },
            Stream { column: 2, kind: StreamKind::Data, length: 1 },
        ],
        columns: vec![
            ColumnEncoding { kind: ColumnEncodingKind::Direct, dictionary_size: None },
            ColumnEncoding { kind: ColumnEncodingKind::DictionaryV2, dictionary_size: Some(3) },
        ],
    }
}

#[test]
fn column_ranges() {
    let footer = footer();
    assert_eq!(column_range(&footer, 1).unwrap(), (14, 9));
    assert_eq!(column_range(&footer, 0).unwrap(), (12, 2));
    assert_eq!(column_range(&footer, 2).unwrap(), (23, 1));
    assert!(matches!(column_range(&footer, 3), Err(Error::InvalidColumn(3))));

    let stripe = StripeInformation {
        offset: 100,
        index_length: 12,
        data_length: 12,
        footer_length: 30,
        number_of_rows: 5,
    };
    assert_eq!(stripe_column_range(&stripe, &footer, 1).unwrap(), (114, 9));
    assert_eq!(stripe_footer_range(&stripe).unwrap(), (124, 30));
    let huge = StripeInformation { offset: u64::MAX, ..stripe };
    assert!(matches!(stripe_footer_range(&huge), Err(Error::OutOfSpec)));
    assert!(matches!(stripe_column_range(&huge, &footer, 1), Err(Error::OutOfSpec)));
}

#[test]
fn column_streams() {
    // present: run of 3 bytes 0xff; data: short repeat of 7, three times; length: 4 bytes
    let data = vec![0x00, 0xff, 0x00, 0x07, 0x00, 1, 2, 3, 4];
    let column = Column::new(data, 1, 5, footer(), CompressionKind::Uncompressed);
    assert_eq!(column.number_of_rows(), 5);
    assert_eq!(column.dictionary_size(), Some(3));
    assert_eq!(column.encoding().unwrap().kind, ColumnEncodingKind::DictionaryV2);

    let mut present = column.get_stream(StreamKind::Present, vec![]).unwrap();
    assert_eq!(read_all(&mut present), vec![0x00, 0xff]);

    let mut values = column.get_stream(StreamKind::Data, vec![]).unwrap();
    assert_eq!(read_unsigned_values(&mut values, 3).unwrap(), vec![7, 7, 7]);

    let mut lengths = column.get_stream(StreamKind::Length, vec![]).unwrap();
    assert_eq!(read_all(&mut lengths), vec![1, 2, 3, 4]);

    assert!(matches!(
        column.get_stream(StreamKind::DictionaryData, vec![]),
        Err(Error::InvalidKind(1, StreamKind::DictionaryData))
    ));
    assert!(matches!(
        column.get_stream(StreamKind::RowIndex, vec![]),
        Err(Error::InvalidKind(1, StreamKind::RowIndex))
    ));
    assert_eq!(column.into_inner().len(), 9);

    // a column whose bytes are shorter than its streams
    let column = Column::new(vec![0x00, 0xff, 0x00], 1, 5, footer(), CompressionKind::Uncompressed);
    assert!(matches!(column.get_stream(StreamKind::Data, vec![]), Err(Error::OutOfSpec)));
    assert!(matches!(column.get_stream(StreamKind::Length, vec![]), Err(Error::OutOfSpec)));

    let column = Column::new(vec![0x00], 7, 5, footer(), CompressionKind::Uncompressed);
    assert!(column.encoding().is_none());
    assert_eq!(column.dictionary_size(), None);
}

#[test]
fn file_tail() {
    assert_eq!(tail_length(100), 100);
    assert_eq!(tail_length(1 << 20), DEFAULT_FOOTER_SIZE);
    assert_eq!(DEFAULT_FOOTER_SIZE, 16384);

    // metadata (2 bytes), footer (3 bytes), postscript (4 bytes), its length
    let tail = [9u8, 9, 8, 8, 8, 7, 7, 7, 7, 4];
    assert_eq!(locate_postscript(&tail).unwrap(), (5, 9));
    let postscript = PostScript {
        footer_length: Some(3),
        compression: CompressionKind::Uncompressed,
        metadata_length: Some(2),
    };
    assert_eq!(
        locate_footer_and_metadata(5, &postscript).unwrap(),
        ((2, 5), (0, 2))
    );
    let missing = PostScript { metadata_length: None, ..postscript };
    assert!(matches!(locate_footer_and_metadata(5, &missing), Err(Error::OutOfSpec)));
    let too_long = PostScript { footer_length: Some(6), ..postscript };
    assert!(matches!(locate_footer_and_metadata(5, &too_long), Err(Error::OutOfSpec)));

    assert!(matches!(locate_postscript(&[]), Err(Error::OutOfSpec)));
    assert!(matches!(locate_postscript(&[1, 2, 0]), Err(Error::OutOfSpec)));
    assert!(matches!(locate_postscript(&[1, 2, 3]), Err(Error::OutOfSpec)));
}
