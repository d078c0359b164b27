use orc_format::bits::{unpack, zigzag};
use orc_format::boolean_rle::{BooleanIter, BooleanRleIter, BooleanRleRunIter, BooleanRun};
use orc_format::error::Error;
use orc_format::float::{FloatIter, FloatWidth};
use orc_format::rle_v2::{
    read_signed_values, read_unsigned_values, SignedDeltaRun, SignedDirectRun, SignedRleV2Iter,
    SignedRleV2Run, SignedShortRepeat, UnsignedDeltaRun, UnsignedDirectRun, UnsignedRleV2Iter,
    UnsignedRleV2Run, UnsignedShortRepeat,
};
use orc_format::source::{ByteSource, SliceReader};
use orc_format::values::Values;
use orc_format::varint::{signed_varint, unsigned_varint};

fn booleans(data: &[u8], length: usize) -> Result<Vec<bool>, Error> {
    let mut iter = BooleanIter::new(SliceReader::new(data), length);
    let mut out = vec![];
    while let Some(item) = iter.next() {
        out.push(item?);
    }
    Ok(out)
}

fn drain_unsigned(mut run: UnsignedRleV2Run) -> Vec<u64> {
    let mut out = vec![];
    while let Some(v) = run.next() {
        out.push(v);
    }
    out
}

fn drain_signed(mut run: SignedRleV2Run) -> Vec<i64> {
    let mut out = vec![];
    while let Some(v) = run.next() {
        out.push(v);
    }
    out
}

#[test]
fn basic() {
    let data = [0x61u8, 0x00];
    let iter = booleans(&data, 100).unwrap();
    assert_eq!(iter, vec![false; 100])
}

#[test]
fn literals() {
    let data = [0xfeu8, 0b01000100, 0b01000101];
    let iter = booleans(&data, 16).unwrap();
    assert_eq!(
        iter,
        vec![
            false, true, false, false, false, true, false, false, // 0b01000100
            false, true, false, false, false, true, false, true, // 0b01000101
        ]
    )
}

#[test]
fn another() {
    // the byte sequence [0xff, 0x80] is one true followed by seven false values
    let data = [0xff, 0x80];
    let iter = booleans(&data, 8).unwrap();
    assert_eq!(
        iter,
        vec![true, false, false, false, false, false, false, false,]
    )
}

#[test]
fn test_zigzag() {
    assert_eq!(zigzag(2), 1);
    assert_eq!(zigzag(4), 2);
}

#[test]
fn unpacking() {
    let bytes = [0b01000000u8];
    assert_eq!(unpack(&bytes, 2, 0), 1);
    assert_eq!(unpack(&bytes, 2, 1), 0);
}

#[test]
fn short_repeat() {
    // [10000, 10000, 10000, 10000, 10000]
    let data: [u8; 3] = [0x0a, 0x27, 0x10];

    let mut run = UnsignedShortRepeat::try_new(data[0], &mut SliceReader::new(&data[1..]), vec![])
        .unwrap();
    let mut a = vec![];
    while let Some(v) = run.next() {
        a.push(v);
    }
    assert_eq!(a, vec![10000, 10000, 10000, 10000, 10000]);
}

#[test]
fn direct() {
    // [23713, 43806, 57005, 48879]
    let data: [u8; 10] = [0x5e, 0x03, 0x5c, 0xa1, 0xab, 0x1e, 0xde, 0xad, 0xbe, 0xef];

    let mut run = UnsignedDirectRun::try_new(data[0], &mut SliceReader::new(&data[1..]), vec![])
        .unwrap();
    let mut a = vec![];
    while let Some(v) = run.next() {
        a.push(v);
    }
    assert_eq!(a, vec![23713, 43806, 57005, 48879]);
}

#[test]
fn delta() {
    // [2, 3, 5, 7, 11, 13, 17, 19, 23, 29]
    let data: [u8; 8] = [0xc6, 0x09, 0x02, 0x02, 0x22, 0x42, 0x42, 0x46];

    let mut run = UnsignedDeltaRun::try_new(data[0], &mut SliceReader::new(&data[1..]), vec![])
        .unwrap();
    let mut a = vec![];
    while let Some(v) = run.next() {
        a.push(v);
    }
    assert_eq!(a, vec![2, 3, 5, 7, 11, 13, 17, 19, 23, 29]);
}

#[test]
fn boolean_run_layer() {
    let data = [0xfeu8, 0x12, 0x34, 0x02, 0x80];
    let mut runs = BooleanRleRunIter::new(SliceReader::new(&data));
    match runs.next().unwrap() {
        BooleanRun::Literals(bytes) => assert_eq!(bytes, vec![0x12, 0x34]),
        BooleanRun::Run(..) => panic!("expected literals"),
    }
    match runs.next().unwrap() {
        BooleanRun::Run(value, count) => {
            assert_eq!(value, 0x80);
            assert_eq!(count, 5);
        }
        BooleanRun::Literals(_) => panic!("expected a run"),
    }
    assert!(matches!(runs.next(), Err(Error::OutOfSpec)));
}

#[test]
fn boolean_literal_too_large() {
    // announces 3 literal bytes, holds 2
    let data = [0xfdu8, 0xff, 0xff];
    let mut iter = BooleanRleIter::new(SliceReader::new(&data), 8);
    assert!(matches!(iter.next(), Some(Err(Error::RleLiteralTooLarge))));
    assert!(iter.next().is_none());
}

#[test]
fn boolean_values_then_error() {
    // one literal byte gives 8 values; the 9th has no run to come from
    let data = [0xffu8, 0b1010_0000];
    let mut iter = BooleanRleIter::new(SliceReader::new(&data), 9);
    let mut values = vec![];
    for _ in 0..8 {
        values.push(iter.next().unwrap().unwrap());
    }
    assert_eq!(values, vec![true, false, true, false, false, false, false, false]);
    assert!(matches!(iter.next(), Some(Err(Error::OutOfSpec))));
    assert!(iter.next().is_none());
}

#[test]
fn boolean_bits_announced() {
    // a run of 3 + 2 = 5 bytes, then 2 literal bytes: 56 booleans in all
    let data = [0x02u8, 0xf0, 0xfe, 0x0f, 0xff];
    let values = booleans(&data, 56).unwrap();
    assert_eq!(values.len(), 56);
    assert_eq!(values.iter().filter(|b| **b).count(), 5 * 4 + 4 + 8);
    // asking for more than the stream holds fails after the 56 values
    assert!(booleans(&data, 57).is_err());
}

#[test]
fn boolean_empty() {
    assert_eq!(booleans(&[], 0).unwrap(), Vec::<bool>::new());
}

#[test]
fn unpack_widths() {
    // 0xABCD_EF01 as two 16-bit values, and as nibbles
    let bytes = [0xabu8, 0xcd, 0xef, 0x01];
    assert_eq!(unpack(&bytes, 16, 0), 0xabcd);
    assert_eq!(unpack(&bytes, 16, 1), 0xef01);
    assert_eq!(unpack(&bytes, 4, 3), 0xd);
    assert_eq!(unpack(&bytes, 0, 3), 0);
    assert_eq!(unpack(&bytes, 32, 0), 0xabcd_ef01);
    let all = [0xffu8; 8];
    assert_eq!(unpack(&all, 64, 0), u64::MAX);
    assert_eq!(unpack(&[0x12, 0x34, 0x56], 24, 0), 0x123456);
}

#[test]
fn zigzag_values() {
    assert_eq!(zigzag(0), 0);
    assert_eq!(zigzag(1), -1);
    assert_eq!(zigzag(3), -2);
    assert_eq!(zigzag(u64::MAX), i64::MIN);
    assert_eq!(zigzag(u64::MAX - 1), i64::MAX);
    for z in [0i64, 1, -1, 1234, -98765, i64::MAX, i64::MIN] {
        let encoded = ((z << 1) ^ (z >> 63)) as u64;
        assert_eq!(zigzag(encoded), z);
    }
}

#[test]
fn varints() {
    let data = [0x96u8, 0x01, 0x03];
    let mut reader = SliceReader::new(&data);
    assert_eq!(unsigned_varint(&mut reader).unwrap(), 150);
    assert_eq!(signed_varint(&mut reader).unwrap(), -2);
    assert!(matches!(unsigned_varint(&mut reader), Err(Error::OutOfSpec)));

    let too_long = [0xffu8; 11];
    assert!(matches!(
        unsigned_varint(&mut SliceReader::new(&too_long)),
        Err(Error::OutOfSpec)
    ));
    let mut max = vec![0xffu8; 9];
    max.push(0x01);
    assert_eq!(unsigned_varint(&mut SliceReader::new(&max)).unwrap(), u64::MAX);
}

#[test]
fn short_repeat_run() {
    let data = [0x0au8, 0x27, 0x10];
    let run = UnsignedRleV2Run::try_new(&mut SliceReader::new(&data), vec![]).unwrap();
    assert_eq!(run.len(), 5);
    assert_eq!(drain_unsigned(run), vec![10000; 5]);
}

#[test]
fn direct_run() {
    let data = [0x5eu8, 0x03, 0x5c, 0xa1, 0xab, 0x1e, 0xde, 0xad, 0xbe, 0xef];
    let run = UnsignedRleV2Run::try_new(&mut SliceReader::new(&data), vec![]).unwrap();
    assert_eq!(drain_unsigned(run), vec![23713, 43806, 57005, 48879]);
}

#[test]
fn delta_run() {
    let data = [0xc6u8, 0x09, 0x02, 0x02, 0x22, 0x42, 0x42, 0x46];
    let run = UnsignedRleV2Run::try_new(&mut SliceReader::new(&data), vec![]).unwrap();
    assert_eq!(drain_unsigned(run), vec![2, 3, 5, 7, 11, 13, 17, 19, 23, 29]);
}

#[test]
fn signed_runs() {
    // short repeat of zigzag(3) = -2, three times
    let data = [0x00u8, 0x03];
    let run = SignedShortRepeat::try_new(data[0], &mut SliceReader::new(&data[1..]), vec![]).unwrap();
    assert_eq!(run.len(), 3);
    let run = SignedRleV2Run::try_new(&mut SliceReader::new(&data), vec![]).unwrap();
    assert_eq!(drain_signed(run), vec![-2, -2, -2]);

    // direct, 8 bits, 2 values: zigzag 1 -> -1, 4 -> 2
    let data = [0x4eu8, 0x01, 0x01, 0x04];
    let run = SignedDirectRun::try_new(data[0], &mut SliceReader::new(&data[1..]), vec![]).unwrap();
    assert_eq!(run.len(), 2);
    let run = SignedRleV2Run::try_new(&mut SliceReader::new(&data), vec![]).unwrap();
    assert_eq!(drain_signed(run), vec![-1, 2]);

    // delta with fixed step: base zigzag 20 -> 10, step zigzag 3 -> -2, 5 values
    let data = [0xc0u8, 0x04, 0x14, 0x03];
    let run = SignedDeltaRun::try_new(data[0], &mut SliceReader::new(&data[1..]), vec![]).unwrap();
    assert_eq!(run.len(), 5);
    let run = SignedRleV2Run::try_new(&mut SliceReader::new(&data), vec![]).unwrap();
    assert_eq!(drain_signed(run), vec![10, 8, 6, 4, 2]);
}

#[test]
fn unsigned_delta_fixed_step_descending() {
    // base 10, step zigzag 3 -> -2, 4 values
    let data = [0xc0u8, 0x03, 0x0a, 0x03];
    let run = UnsignedRleV2Run::try_new(&mut SliceReader::new(&data), vec![]).unwrap();
    assert_eq!(drain_unsigned(run), vec![10, 8, 6, 4]);
}

#[test]
fn rle_v2_errors() {
    // patched base is not supported
    assert!(matches!(
        UnsignedRleV2Run::try_new(&mut SliceReader::new(&[0x80u8, 0x00]), vec![]),
        Err(Error::OutOfSpec)
    ));
    // a direct width code without a width (2)
    assert!(matches!(
        UnsignedRleV2Run::try_new(&mut SliceReader::new(&[0x44u8, 0x00, 0x00]), vec![]),
        Err(Error::OutOfSpec)
    ));
    // a delta run of one value
    assert!(matches!(
        UnsignedRleV2Run::try_new(&mut SliceReader::new(&[0xc0u8, 0x00, 0x00, 0x00]), vec![]),
        Err(Error::OutOfSpec)
    ));
    // short repeat missing its value bytes
    assert!(matches!(
        UnsignedRleV2Run::try_new(&mut SliceReader::new(&[0x0au8, 0x27]), vec![]),
        Err(Error::OutOfSpec)
    ));
    // empty stream
    assert!(matches!(
        UnsignedRleV2Run::try_new(&mut SliceReader::new(&[]), vec![]),
        Err(Error::OutOfSpec)
    ));
}

#[test]
fn run_iterators() {
    let data = [0x0au8, 0x27, 0x10, 0x5e, 0x03, 0x5c, 0xa1, 0xab, 0x1e, 0xde, 0xad, 0xbe, 0xef];
    let mut iter = UnsignedRleV2Iter::new(SliceReader::new(&data), 9, vec![]);
    let first = iter.next().unwrap().unwrap();
    assert_eq!(first.len(), 5);
    let second = iter.next().unwrap().unwrap();
    assert_eq!(drain_unsigned(second), vec![23713, 43806, 57005, 48879]);
    assert!(iter.next().is_none());
    let (reader, _) = iter.into_inner();
    assert!(reader.is_empty());

    // a run announcing more values than asked for
    let mut iter = UnsignedRleV2Iter::new(SliceReader::new(&data), 3, vec![]);
    assert!(matches!(iter.next(), Some(Err(Error::OutOfSpec))));
    assert!(iter.next().is_none());

    let data = [0x00u8, 0x03, 0x00, 0x04];
    let mut iter = SignedRleV2Iter::new(SliceReader::new(&data), 6, vec![]);
    assert_eq!(drain_signed(iter.next().unwrap().unwrap()), vec![-2, -2, -2]);
    assert_eq!(drain_signed(iter.next().unwrap().unwrap()), vec![2, 2, 2]);
    assert!(iter.next().is_none());
}

#[test]
fn flat_values() {
    let data = [0x0au8, 0x27, 0x10, 0x5e, 0x03, 0x5c, 0xa1, 0xab, 0x1e, 0xde, 0xad, 0xbe, 0xef];
    let values = read_unsigned_values(&mut SliceReader::new(&data), 9).unwrap();
    assert_eq!(
        values,
        vec![10000, 10000, 10000, 10000, 10000, 23713, 43806, 57005, 48879]
    );
    assert!(read_unsigned_values(&mut SliceReader::new(&data), 10).is_err());
    assert!(read_unsigned_values(&mut SliceReader::new(&data), 7).is_err());
    assert_eq!(read_unsigned_values(&mut SliceReader::new(&[]), 0).unwrap(), vec![]);

    let data = [0x00u8, 0x03, 0x00, 0x04];
    assert_eq!(
        read_signed_values(&mut SliceReader::new(&data), 6).unwrap(),
        vec![-2, -2, -2, 2, 2, 2]
    );
}

#[test]
fn floats() {
    let mut data = vec![];
    data.extend_from_slice(&1.5f32.to_le_bytes());
    data.extend_from_slice(&(-2.25f32).to_le_bytes());
    data.push(0x00);
    let mut iter = FloatIter::new(SliceReader::new(&data), 3, FloatWidth::Single);
    assert_eq!(iter.len(), 3);
    let a = iter.next().unwrap().unwrap();
    assert_eq!(f32::from_bits(a as u32), 1.5);
    let b = iter.next().unwrap().unwrap();
    assert_eq!(f32::from_bits(b as u32), -2.25);
    assert!(matches!(iter.next(), Some(Err(Error::DecodeFloat))));
    assert!(iter.next().is_none());
    assert!(iter.is_empty());

    let data = 3.25f64.to_le_bytes();
    let mut iter = FloatIter::new(SliceReader::new(&data), 1, FloatWidth::Double);
    assert_eq!(f64::from_bits(iter.next().unwrap().unwrap()), 3.25);
    assert!(iter.next().is_none());
}

#[test]
fn length_prefixed_values() {
    let data = b"abcdefg";
    let mut values = Values::new(SliceReader::new(data), vec![]);
    assert_eq!(values.next(1).unwrap(), b"a");
    assert_eq!(values.next(0).unwrap(), b"");
    assert_eq!(values.next(4).unwrap(), b"bcde");
    assert!(matches!(values.next(3), Err(Error::OutOfSpec)));
    let _ = values.into_inner();
}

#[test]
fn slice_reader() {
    let data = [1u8, 2];
    let mut reader = SliceReader::new(&data);
    assert_eq!(reader.len(), 2);
    assert_eq!(reader.read_u8().unwrap(), 1);
    assert_eq!(reader.read_u8().unwrap(), 2);
    assert!(reader.is_empty());
    assert!(matches!(reader.read_u8(), Err(Error::OutOfSpec)));
}

fn pack(values: &[u64], width: usize) -> Vec<u8> {
    let mut out = vec![0u8; (values.len() * width + 7) / 8];
    for (i, v) in values.iter().enumerate() {
        for j in 0..width {
            let bit = (v >> (width - 1 - j)) & 1;
            let k = i * width + j;
            out[k / 8] |= (bit as u8) << (7 - k % 8);
        }
    }
    out
}

#[test]
fn unpack_of_pack() {
    for width in [1usize, 2, 4, 8, 16, 24, 32, 40, 48, 56, 64] {
        let max = if width == 64 { u64::MAX } else { (1u64 << width) - 1 };
        let values = vec![0, 1, max, max / 3, max / 2 + 1, 5 & max, max - 1];
        let packed = pack(&values, width);
        for (i, v) in values.iter().enumerate() {
            assert_eq!(unpack(&packed, width as u8, i), *v, "width {width} index {i}");
        }
    }
    assert_eq!(unpack(&[], 0, 7), 0);
}

fn varint(mut v: u64) -> Vec<u8> {
    let mut out = vec![];
    loop {
        if v < 128 {
            out.push(v as u8);
            return out;
        }
        out.push((v % 128) as u8 | 0x80);
        v /= 128;
    }
}

#[test]
fn delta_round_trip() {
    // base 1000, first step -7, then deltas 3, 0, 12 (subtracted: the first step is negative)
    let mut data = vec![0xc0 | (3 << 1), 4];
    data.extend(varint(1000));
    data.extend(varint(((-7i64 << 1) ^ (-7i64 >> 63)) as u64));
    data.extend(pack(&[3, 0, 12], 4));
    let run = UnsignedRleV2Run::try_new(&mut SliceReader::new(&data), vec![]).unwrap();
    assert_eq!(drain_unsigned(run), vec![1000, 993, 990, 990, 978]);
}

#[test]
fn direct_round_trip() {
    let values = [7u64, 0, 1 << 20, 123_456];
    let mut data = vec![0x40 | (23 << 1), 3];
    data.extend(pack(&values, 24));
    let run = UnsignedRleV2Run::try_new(&mut SliceReader::new(&data), vec![]).unwrap();
    assert_eq!(drain_unsigned(run), values.to_vec());
}
