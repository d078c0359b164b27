//! Run-length encoding version 2, for 64-bit unsigned and signed integers.
//!
//! A stream is a sequence of runs; the top two bits of a run's first header byte
//! select its sub-encoding: Short-Repeat, Direct, Patched-Base or Delta.
use vstd::arithmetic::div_mod::lemma_fundamental_div_mod;
use vstd::arithmetic::power2::{lemma2_to64, lemma2_to64_rest, lemma_pow2_adds, lemma_pow2_pos, pow2};
use vstd::prelude::*;

use crate::bits::{encode_zigzag, lemma_unpack_pack, pack, unpack, unpacked, zigzag, zigzag_value};
use crate::error::Error;
use crate::source::{read_bytes, ByteSource};
use crate::varint::{encode_varint, lemma_varint_length, lemma_varint_round_trip, parse_signed_varint, parse_unsigned_varint, signed_varint, unsigned_varint};

verus! {

/// The sub-encoding of a run.
#[derive(Debug, Clone, Copy, PartialEq, Eq, Structural)]
pub enum EncodingTypeV2 {
    ShortRepeat,
    Direct,
    PatchedBase,
    Delta,
}

/// The sub-encoding selected by the top two bits of a header byte.
pub open spec fn spec_run_encoding(header: u8) -> EncodingTypeV2 {
    if header >= 192 {
        EncodingTypeV2::Delta
    } else if header >= 128 {
        EncodingTypeV2::PatchedBase
    } else if header >= 64 {
        EncodingTypeV2::Direct
    } else {
        EncodingTypeV2::ShortRepeat
    }
}

/// Reads the sub-encoding from the top two bits of a header byte.
pub fn run_encoding(header: u8) -> (r: EncodingTypeV2)
    ensures
        r == spec_run_encoding(header),
{
    if header >= 192 {
        EncodingTypeV2::Delta
    } else if header >= 128 {
        EncodingTypeV2::PatchedBase
    } else if header >= 64 {
        EncodingTypeV2::Direct
    } else {
        EncodingTypeV2::ShortRepeat
    }
}

/// The number of bytes of a Short-Repeat value: bits 3 to 5 of the header, plus one.
pub open spec fn short_repeat_width(header: u8) -> nat {
    ((header >> 3u8) & 7u8) as nat + 1
}

/// How often a Short-Repeat value repeats: the low 3 bits of the header, plus three.
pub open spec fn short_repeat_count(header: u8) -> nat {
    (header & 7u8) as nat + 3
}

/// The code of the packed bit width, bits 1 to 5 of a Direct or Delta header.
pub open spec fn width_code(header: u8) -> u8 {
    (header >> 1u8) & 31u8
}

/// The bit width of the values of a Direct run, by its code.
pub open spec fn direct_width(code: u8) -> Option<u8> {
    if code == 0 {
        Some(1u8)
    } else {
        delta_width(code)
    }
}

/// The bit width of the deltas of a Delta run, by its code; 0 stands for a fixed step.
pub open spec fn delta_width(code: u8) -> Option<u8> {
    if code == 0 {
        Some(0u8)
    } else if code == 1 {
        Some(2u8)
    } else if code == 3 {
        Some(4u8)
    } else if code == 7 {
        Some(8u8)
    } else if code == 15 {
        Some(16u8)
    } else if code == 23 {
        Some(24u8)
    } else if code == 27 {
        Some(32u8)
    } else if code == 28 {
        Some(40u8)
    } else if code == 29 {
        Some(48u8)
    } else if code == 30 {
        Some(56u8)
    } else if code == 31 {
        Some(64u8)
    } else {
        None
    }
}

/// The number of values of a Direct or Delta run: the low bit of the header and the
/// next byte form a 9-bit number, plus one.
pub open spec fn run_length(header: u8, header1: u8) -> nat {
    (header % 2) as nat * 256 + header1 as nat + 1
}

/// The number of bytes that `count` values of `width` bits take.
pub open spec fn packed_len(count: nat, width: nat) -> nat {
    (count * width + 7) / 8
}

/// The number written by the bytes `b`, most significant first.
pub open spec fn be_value(b: Seq<u8>) -> nat
    decreases b.len(),
{
    if b.len() == 0 {
        0
    } else {
        be_value(b.drop_last()) * 256 + b.last() as nat
    }
}

proof fn lemma_be_value_bound(b: Seq<u8>)
    ensures
        be_value(b) < pow2(8 * b.len()),
    decreases b.len(),
{
    lemma2_to64();
    if b.len() > 0 {
        lemma_be_value_bound(b.drop_last());
        lemma_pow2_adds(8 * (b.len() - 1) as nat, 8);
        assert(8 * (b.len() - 1) as nat + 8 == 8 * b.len());
    }
}

/// The Short-Repeat run of header `h` at the start of `s` (the bytes after the
/// header): its values and the number of bytes of `s` it takes.
pub open spec fn parse_short_repeat(h: u8, s: Seq<u8>, end: Error) -> Result<(Seq<u64>, nat), Error> {
    let w = short_repeat_width(h);
    if s.len() < w {
        Err(end)
    } else {
        let v = be_value(s.take(w as int)) as u64;
        Ok((Seq::new(short_repeat_count(h), |i: int| v), w))
    }
}

/// The Direct run of header `h` at the start of `s`.
pub open spec fn parse_direct(h: u8, s: Seq<u8>, end: Error) -> Result<(Seq<u64>, nat), Error> {
    if s.len() < 1 {
        Err(end)
    } else {
        match direct_width(width_code(h)) {
            None => Err(Error::OutOfSpec),
            Some(w) => {
                let n = run_length(h, s[0]);
                let p = packed_len(n, w as nat);
                if s.len() < 1 + p {
                    Err(end)
                } else {
                    let data = s.subrange(1, 1 + p as int);
                    Ok((Seq::new(n, |i: int| unpacked(data, w as nat, i) as u64), 1 + p))
                }
            },
        }
    }
}

/// The value at position `k` of a Delta run whose value at position `p` is `known`.
/// The first step is the delta base; each later one is a packed absolute delta,
/// added where the delta base is positive and subtracted otherwise, or the delta
/// base again where the deltas have width 0 (a fixed step).
pub open spec fn delta_from(known: u64, p: nat, delta_base: i64, deltas: Seq<u8>, w: nat, k: nat) -> u64
    decreases k - p,
{
    if k <= p {
        known
    } else {
        let prev = delta_from(known, p, delta_base, deltas, w, (k - 1) as nat);
        if k == 1 || w == 0 {
            prev.wrapping_add_signed(delta_base)
        } else if delta_base > 0 {
            prev.wrapping_add(unpacked(deltas, w, k - 2) as u64)
        } else {
            prev.wrapping_sub(unpacked(deltas, w, k - 2) as u64)
        }
    }
}

/// The Delta run of header `h` at the start of `s`.
pub open spec fn parse_delta(h: u8, s: Seq<u8>, end: Error) -> Result<(Seq<u64>, nat), Error> {
    if s.len() < 1 {
        Err(end)
    } else {
        match delta_width(width_code(h)) {
            None => Err(Error::OutOfSpec),
            Some(w) => {
                let n = run_length(h, s[0]);
                if n < 2 {
                    Err(Error::OutOfSpec)
                } else {
                    match parse_unsigned_varint(s.skip(1), end) {
                        Err(e) => Err(e),
                        Ok((base, k1)) => match parse_signed_varint(s.skip(1 + k1 as int), end) {
                            Err(e) => Err(e),
                            Ok((delta_base, k2)) => {
                                let p = packed_len((n - 2) as nat, w as nat);
                                let start = 1 + k1 + k2;
                                if s.len() < start + p {
                                    Err(end)
                                } else {
                                    let deltas = s.subrange(start as int, (start + p) as int);
                                    Ok((
                                        Seq::new(
                                            n,
                                            |i: int|
                                                delta_from(base, 0, delta_base, deltas, w as nat, i as nat),
                                        ),
                                        start + p,
                                    ))
                                }
                            },
                        },
                    }
                }
            },
        }
    }
}

/// The run at the start of `s`, header included: its values and the number of
/// bytes it takes. Patched-Base runs are not supported.
pub open spec fn parse_unsigned_run(s: Seq<u8>, end: Error) -> Result<(Seq<u64>, nat), Error> {
    if s.len() == 0 {
        Err(end)
    } else {
        let h = s[0];
        let body = match spec_run_encoding(h) {
            EncodingTypeV2::ShortRepeat => parse_short_repeat(h, s.drop_first(), end),
            EncodingTypeV2::Direct => parse_direct(h, s.drop_first(), end),
            EncodingTypeV2::Delta => parse_delta(h, s.drop_first(), end),
            EncodingTypeV2::PatchedBase => Err(Error::OutOfSpec),
        };
        match body {
            Ok((v, n)) => Ok((v, n + 1)),
            Err(e) => Err(e),
        }
    }
}

/// Reads the code of a Direct bit width into the width.
fn rle_v2_direct_bit_width(value: u8) -> (r: Option<u8>)
    ensures
        r == direct_width(value),
{
    if value == 0 {
        Some(1)
    } else {
        rle_v2_delta_bit_width(value)
    }
}

/// Reads the code of a Delta bit width into the width.
fn rle_v2_delta_bit_width(value: u8) -> (r: Option<u8>)
    ensures
        r == delta_width(value),
{
    match value {
        0 => Some(0),
        1 => Some(2),
        3 => Some(4),
        7 => Some(8),
        15 => Some(16),
        23 => Some(24),
        27 => Some(32),
        28 => Some(40),
        29 => Some(48),
        30 => Some(56),
        31 => Some(64),
        _ => None,
    }
}

fn header_to_width_code(header: u8) -> (r: u8)
    ensures
        r == width_code(header),
        r < 32,
{
    let r = (header >> 1) & 31;
    assert(r < 32) by (bit_vector)
        requires
            r == (header >> 1u8) & 31u8,
    ;
    r
}

fn header_to_rle_v2_direct_length(header: u8, header1: u8) -> (r: u16)
    ensures
        r as nat == run_length(header, header1),
{
    (header % 2) as u16 * 256 + header1 as u16 + 1
}

/// Each value of a Delta run follows from the one before it.
proof fn lemma_delta_from_shift(known: u64, p: nat, delta_base: i64, deltas: Seq<u8>, w: nat, k: nat)
    requires
        k >= p + 1,
    ensures
        delta_from(known, p, delta_base, deltas, w, k) == delta_from(
            delta_from(known, p, delta_base, deltas, w, p + 1),
            p + 1,
            delta_base,
            deltas,
            w,
            k,
        ),
    decreases k - p,
{
    if k > p + 1 {
        lemma_delta_from_shift(known, p, delta_base, deltas, w, (k - 1) as nat);
    }
}

proof fn lemma_packed_fits(count: nat, width: nat)
    ensures
        count * width <= 8 * packed_len(count, width),
{
}

/// A Short-Repeat run: one value, repeated.
pub struct UnsignedShortRepeat {
    value: u64,
    remaining: usize,
    scratch: Vec<u8>,
}

impl View for UnsignedShortRepeat {
    type V = Seq<u64>;

    /// The values not yielded yet.
    closed spec fn view(&self) -> Seq<u64> {
        Seq::new(self.remaining as nat, |i: int| self.value)
    }
}

impl UnsignedShortRepeat {
    /// Reads the run of header `header` from `reader`, moving `scratch` to itself.
    pub fn try_new<R: ByteSource>(header: u8, reader: &mut R, scratch: Vec<u8>) -> (r: Result<Self, Error>)
        requires
            old(reader).wf(),
        ensures
            match parse_short_repeat(header, old(reader).rest(), old(reader).end_error()) {
                Ok((values, n)) => {
                    &&& r is Ok
                    &&& r->Ok_0@ == values
                    &&& final(reader).wf()
                    &&& final(reader).rest() == old(reader).rest().skip(n as int)
                    &&& final(reader).end_error() == old(reader).end_error()
                },
                Err(e) => r == Err::<Self, Error>(e),
            },
    {
        let mut scratch = scratch;
        let width = ((header >> 3) & 7) as usize + 1;
        let count = (header & 7) as usize + 3;
        assert(width <= 8) by (bit_vector)
            requires
                width == ((header >> 3u8) & 7u8) as usize + 1,
        ;
        scratch.clear();
        let ghost s = reader.rest();
        if let Err(e) = read_bytes(reader, width, &mut scratch) {
            return Err(e);
        }
        let mut value: u64 = 0;
        let mut i: usize = 0;
        while i < width
            invariant
                i <= width,
                width <= 8,
                scratch@ == s.take(width as int),
                scratch@.len() == width,
                value as nat == be_value(scratch@.take(i as int)),
            decreases width - i,
        {
            proof {
                let t = scratch@.take(i as int + 1);
                assert(t.drop_last() =~= scratch@.take(i as int));
                lemma_be_value_bound(t);
                lemma2_to64();
                lemma2_to64_rest();
                if i + 1 < 8 {
                    vstd::arithmetic::power2::lemma_pow2_strictly_increases(8 * (i as nat + 1), 64);
                }
            }
            value = value * 256 + scratch[i] as u64;
            i += 1;
        }
        assert(scratch@.take(width as int) =~= s.take(width as int));
        scratch.clear();
        Ok(UnsignedShortRepeat { value, remaining: count, scratch })
    }

    /// The number of values not yielded yet.
    pub fn len(&self) -> (r: usize)
        ensures
            r == self@.len(),
    {
        self.remaining
    }

    /// Whether every value has been yielded.
    pub fn is_empty(&self) -> (r: bool)
        ensures
            r <==> self@.len() == 0,
    {
        self.remaining == 0
    }

    /// Yields the next value.
    pub fn next(&mut self) -> (r: Option<u64>)
        ensures
            old(self)@.len() == 0 ==> r is None && final(self)@ == old(self)@,
            old(self)@.len() > 0 ==> r == Some(old(self)@[0]) && final(self)@ == old(self)@.drop_first(),
    {
        if self.remaining == 0 {
            None
        } else {
            self.remaining = self.remaining - 1;
            assert(self@ =~= old(self)@.drop_first());
            Some(self.value)
        }
    }

    /// Returns the memory region it owns, so it can be re-used.
    pub fn into_inner(self) -> Vec<u8> {
        self.scratch
    }
}

/// A Direct run: values of a fixed bit width, packed.
pub struct UnsignedDirectRun {
    data: Vec<u8>,
    bit_width: u8,
    index: usize,
    length: usize,
}

impl View for UnsignedDirectRun {
    type V = Seq<u64>;

    /// The values not yielded yet.
    closed spec fn view(&self) -> Seq<u64> {
        Seq::new(
            (self.length - self.index) as nat,
            |j: int| unpacked(self.data@, self.bit_width as nat, self.index + j) as u64,
        )
    }
}

impl UnsignedDirectRun {
    /// Whether the run's state is consistent.
    pub closed spec fn wf(&self) -> bool {
        &&& self.index <= self.length <= 512
        &&& self.bit_width <= 64
        &&& self.length * self.bit_width <= 8 * self.data@.len()
    }

    /// Reads the run of header `header` from `reader`, moving `scratch` to itself.
    pub fn try_new<R: ByteSource>(header: u8, reader: &mut R, scratch: Vec<u8>) -> (r: Result<Self, Error>)
        requires
            old(reader).wf(),
        ensures
            match parse_direct(header, old(reader).rest(), old(reader).end_error()) {
                Ok((values, n)) => {
                    &&& r is Ok
                    &&& r->Ok_0.wf()
                    &&& r->Ok_0@ == values
                    &&& final(reader).wf()
                    &&& final(reader).rest() == old(reader).rest().skip(n as int)
                    &&& final(reader).end_error() == old(reader).end_error()
                },
                Err(e) => r == Err::<Self, Error>(e),
            },
    {
        let mut scratch = scratch;
        let ghost s = reader.rest();
        let header1 = match reader.read_u8() {
            Ok(b) => b,
            Err(e) => {
                return Err(e);
            },
        };
        let bit_width = match rle_v2_direct_bit_width(header_to_width_code(header)) {
            Some(w) => w,
            None => {
                return Err(Error::OutOfSpec);
            },
        };
        let length = header_to_rle_v2_direct_length(header, header1) as usize;
        assert(bit_width <= 64 && length <= 512);
        assert(length * bit_width as usize <= 512 * 64) by (nonlinear_arith)
            requires
                bit_width <= 64 && length <= 512,
        ;
        let additional = (length * bit_width as usize + 7) / 8;
        assert(header1 == s[0]);
        assert(additional as nat == packed_len(length as nat, bit_width as nat));
        scratch.clear();
        if let Err(e) = read_bytes(reader, additional, &mut scratch) {
            return Err(e);
        }
        proof {
            lemma_packed_fits(length as nat, bit_width as nat);
            assert(s.drop_first().take(additional as int) =~= s.subrange(1, 1 + additional as int));
            assert(s.drop_first().skip(additional as int) =~= s.skip(1 + additional as int));
        }
        let r = UnsignedDirectRun { data: scratch, bit_width, index: 0, length };
        assert(r@ =~= parse_direct(header, s, reader.end_error())->Ok_0.0);
        Ok(r)
    }

    /// The number of values not yielded yet.
    pub fn len(&self) -> (r: usize)
        requires
            self.wf(),
        ensures
            r == self@.len(),
    {
        self.length - self.index
    }

    /// Whether every value has been yielded.
    pub fn is_empty(&self) -> (r: bool)
        requires
            self.wf(),
        ensures
            r <==> self@.len() == 0,
    {
        self.length == self.index
    }

    /// Yields the next value.
    pub fn next(&mut self) -> (r: Option<u64>)
        requires
            old(self).wf(),
        ensures
            final(self).wf(),
            old(self)@.len() == 0 ==> r is None && final(self)@ == old(self)@,
            old(self)@.len() > 0 ==> r == Some(old(self)@[0]) && final(self)@ == old(self)@.drop_first(),
    {
        if self.index == self.length {
            None
        } else {
            proof {
                assert((self.index as int + 1) * (self.bit_width as int) <= (self.length as int) * (
                self.bit_width as int)) by (nonlinear_arith)
                    requires
                        self.index < self.length,
                ;
                assert((self.length as int) * (self.bit_width as int) <= 512 * 64) by (nonlinear_arith)
                    requires
                        self.length <= 512,
                        self.bit_width <= 64,
                ;
            }
            let v = unpack(self.data.as_slice(), self.bit_width, self.index);
            self.index = self.index + 1;
            assert(self@ =~= old(self)@.drop_first());
            Some(v)
        }
    }

    /// Returns the memory region it owns, so it can be re-used.
    pub fn into_inner(self) -> Vec<u8> {
        self.data
    }
}

/// The position whose value a Delta run in state `index` holds.
pub open spec fn known_position(index: nat) -> nat {
    if index == 0 {
        0
    } else {
        (index - 1) as nat
    }
}

/// A Delta run: a base, a first step, and packed absolute steps after it.
pub struct UnsignedDeltaRun {
    encoded_deltas: Vec<u8>,
    bit_width: u8,
    index: usize,
    length: usize,
    base: u64,
    delta_base: i64,
}

impl View for UnsignedDeltaRun {
    type V = Seq<u64>;

    /// The values not yielded yet.
    closed spec fn view(&self) -> Seq<u64> {
        Seq::new(
            (self.length - self.index) as nat,
            |j: int|
                delta_from(
                    self.base,
                    known_position(self.index as nat),
                    self.delta_base,
                    self.encoded_deltas@,
                    self.bit_width as nat,
                    (self.index + j) as nat,
                ),
        )
    }
}

impl UnsignedDeltaRun {
    /// Whether the run's state is consistent.
    pub closed spec fn wf(&self) -> bool {
        &&& self.index <= self.length <= 512
        &&& 2 <= self.length
        &&& self.bit_width <= 64
        &&& (self.length - 2) * self.bit_width <= 8 * self.encoded_deltas@.len()
    }

    /// Reads the run of header `header` from `reader`, moving `scratch` to itself.
    pub fn try_new<R: ByteSource>(header: u8, reader: &mut R, scratch: Vec<u8>) -> (r: Result<Self, Error>)
        requires
            old(reader).wf(),
        ensures
            match parse_delta(header, old(reader).rest(), old(reader).end_error()) {
                Ok((values, n)) => {
                    &&& r is Ok
                    &&& r->Ok_0.wf()
                    &&& r->Ok_0@ == values
                    &&& final(reader).wf()
                    &&& final(reader).rest() == old(reader).rest().skip(n as int)
                    &&& final(reader).end_error() == old(reader).end_error()
                },
                Err(e) => r == Err::<Self, Error>(e),
            },
    {
        let mut scratch = scratch;
        let ghost s = reader.rest();
        let ghost end = reader.end_error();
        let header1 = match reader.read_u8() {
            Ok(b) => b,
            Err(e) => {
                return Err(e);
            },
        };
        let bit_width = match rle_v2_delta_bit_width(header_to_width_code(header)) {
            Some(w) => w,
            None => {
                return Err(Error::OutOfSpec);
            },
        };
        let length = header_to_rle_v2_direct_length(header, header1) as usize;
        assert(header1 == s[0]);
        if length < 2 {
            return Err(Error::OutOfSpec);
        }
        let ghost s1 = reader.rest();
        let base = match unsigned_varint(reader) {
            Ok(v) => v,
            Err(e) => {
                return Err(e);
            },
        };
        let ghost k1 = parse_unsigned_varint(s1, end)->Ok_0.1;
        assert(s1 == s.skip(1));
        proof {
            lemma_varint_length(s1, 0, 0, end);
        }
        assert(s1.skip(k1 as int) =~= s.skip(1 + k1 as int));
        let ghost s2 = reader.rest();
        let delta_base = match signed_varint(reader) {
            Ok(v) => v,
            Err(e) => {
                return Err(e);
            },
        };
        let ghost k2 = parse_signed_varint(s2, end)->Ok_0.1;
        proof {
            lemma_varint_length(s2, 0, 0, end);
        }
        assert(s2.skip(k2 as int) =~= s.skip((1 + k1 + k2) as int));
        assert(bit_width <= 64 && length <= 512);
        assert((length - 2) * bit_width as usize <= 512 * 64) by (nonlinear_arith)
            requires
                bit_width <= 64 && length <= 512 && length >= 2,
        ;
        let additional = ((length - 2) * bit_width as usize + 7) / 8;
        assert(additional as nat == packed_len((length - 2) as nat, bit_width as nat));
        scratch.clear();
        if let Err(e) = read_bytes(reader, additional, &mut scratch) {
            return Err(e);
        }
        proof {
            lemma_packed_fits((length - 2) as nat, bit_width as nat);
            let start = 1 + k1 + k2;
            assert(s.skip(start as int).take(additional as int) =~= s.subrange(
                start as int,
                start + additional as int,
            ));
            assert(s.skip(start as int).skip(additional as int) =~= s.skip(start + additional as int));
        }
        let r = UnsignedDeltaRun {
            encoded_deltas: scratch,
            bit_width,
            index: 0,
            length,
            base,
            delta_base,
        };
        assert(r@ =~= parse_delta(header, s, end)->Ok_0.0);
        Ok(r)
    }

    /// The number of values not yielded yet.
    pub fn len(&self) -> (r: usize)
        requires
            self.wf(),
        ensures
            r == self@.len(),
    {
        self.length - self.index
    }

    /// Whether every value has been yielded.
    pub fn is_empty(&self) -> (r: bool)
        requires
            self.wf(),
        ensures
            r <==> self@.len() == 0,
    {
        self.length == self.index
    }

    /// Yields the next value.
    pub fn next(&mut self) -> (r: Option<u64>)
        requires
            old(self).wf(),
        ensures
            final(self).wf(),
            old(self)@.len() == 0 ==> r is None && final(self)@ == old(self)@,
            old(self)@.len() > 0 ==> r == Some(old(self)@[0]) && final(self)@ == old(self)@.drop_first(),
    {
        let ghost w = self.bit_width as nat;
        let ghost d = self.encoded_deltas@;
        if self.index == self.length {
            return None;
        }
        if self.index == 0 {
            self.index = 1;
            assert(self@ =~= old(self)@.drop_first());
            return Some(self.base);
        }
        let index = self.index;
        if index == 1 || self.bit_width == 0 {
            self.base = self.base.wrapping_add_signed(self.delta_base);
        } else {
            proof {
                assert((index as int - 1) * (w as int) <= (self.length as int - 2) * (w as int))
                    by (nonlinear_arith)
                    requires
                        index < self.length,
                ;
                assert((self.length as int - 2) * (w as int) <= 512 * 64) by (nonlinear_arith)
                    requires
                        self.length <= 512,
                        w <= 64,
                ;
            }
            let delta = unpack(self.encoded_deltas.as_slice(), self.bit_width, index - 2);
            if self.delta_base > 0 {
                self.base = self.base.wrapping_add(delta);
            } else {
                self.base = self.base.wrapping_sub(delta);
            }
        }
        self.index = index + 1;
        proof {
            let old_base = old(self).base;
            let db = self.delta_base;
            reveal_with_fuel(delta_from, 2);
            assert(self.base == delta_from(old_base, (index - 1) as nat, db, d, w, index as nat));
            assert forall|j: int| 0 <= j < self@.len() implies self@[j] == old(self)@.drop_first()[j] by {
                lemma_delta_from_shift(old_base, (index - 1) as nat, db, d, w, (index + 1 + j) as nat);
            }
            assert(self@ =~= old(self)@.drop_first());
        }
        Some(self.base)
    }

    /// Returns the memory region it owns, so it can be re-used.
    pub fn into_inner(self) -> Vec<u8> {
        let mut deltas = self.encoded_deltas;
        deltas.clear();
        deltas
    }
}

/// One of the RLE v2 runs for unsigned integers.
pub enum UnsignedRleV2Run {
    /// Direct
    Direct(UnsignedDirectRun),
    /// Delta
    Delta(UnsignedDeltaRun),
    /// Short repeat
    ShortRepeat(UnsignedShortRepeat),
}

impl View for UnsignedRleV2Run {
    type V = Seq<u64>;

    /// The values not yielded yet.
    closed spec fn view(&self) -> Seq<u64> {
        match self {
            UnsignedRleV2Run::Direct(run) => run@,
            UnsignedRleV2Run::Delta(run) => run@,
            UnsignedRleV2Run::ShortRepeat(run) => run@,
        }
    }
}

impl UnsignedRleV2Run {
    /// Whether the run's state is consistent.
    pub closed spec fn wf(&self) -> bool {
        match self {
            UnsignedRleV2Run::Direct(run) => run.wf(),
            UnsignedRleV2Run::Delta(run) => run.wf(),
            UnsignedRleV2Run::ShortRepeat(run) => true,
        }
    }

    /// Reads the next run from `reader`, moving `scratch` to itself.
    pub fn try_new<R: ByteSource>(reader: &mut R, scratch: Vec<u8>) -> (r: Result<Self, Error>)
        requires
            old(reader).wf(),
        ensures
            match parse_unsigned_run(old(reader).rest(), old(reader).end_error()) {
                Ok((values, n)) => {
                    &&& r is Ok
                    &&& r->Ok_0.wf()
                    &&& r->Ok_0@ == values
                    &&& final(reader).wf()
                    &&& final(reader).rest() == old(reader).rest().skip(n as int)
                    &&& final(reader).end_error() == old(reader).end_error()
                },
                Err(e) => r == Err::<Self, Error>(e),
            },
    {
        let ghost s = reader.rest();
        let header = match reader.read_u8() {
            Ok(b) => b,
            Err(e) => {
                return Err(e);
            },
        };
        let ghost t = reader.rest();
        assert(t == s.drop_first());
        let r = match run_encoding(header) {
            EncodingTypeV2::Direct => match UnsignedDirectRun::try_new(header, reader, scratch) {
                Ok(run) => Ok(UnsignedRleV2Run::Direct(run)),
                Err(e) => Err(e),
            },
            EncodingTypeV2::Delta => match UnsignedDeltaRun::try_new(header, reader, scratch) {
                Ok(run) => Ok(UnsignedRleV2Run::Delta(run)),
                Err(e) => Err(e),
            },
            EncodingTypeV2::ShortRepeat => match UnsignedShortRepeat::try_new(header, reader, scratch) {
                Ok(run) => Ok(UnsignedRleV2Run::ShortRepeat(run)),
                Err(e) => Err(e),
            },
            EncodingTypeV2::PatchedBase => Err(Error::OutOfSpec),
        };
        proof {
            if let Ok((v, n)) = parse_unsigned_run(s, old(reader).end_error()) {
                assert(t.skip(n - 1) =~= s.skip(n as int));
            }
        }
        r
    }

    /// The number of values not yielded yet.
    pub fn len(&self) -> (r: usize)
        requires
            self.wf(),
        ensures
            r == self@.len(),
    {
        match self {
            UnsignedRleV2Run::Direct(run) => run.len(),
            UnsignedRleV2Run::Delta(run) => run.len(),
            UnsignedRleV2Run::ShortRepeat(run) => run.len(),
        }
    }

    /// Whether every value has been yielded.
    pub fn is_empty(&self) -> (r: bool)
        requires
            self.wf(),
        ensures
            r <==> self@.len() == 0,
    {
        self.len() == 0
    }

    /// Yields the next value.
    pub fn next(&mut self) -> (r: Option<u64>)
        requires
            old(self).wf(),
        ensures
            final(self).wf(),
            old(self)@.len() == 0 ==> r is None && final(self)@ == old(self)@,
            old(self)@.len() > 0 ==> r == Some(old(self)@[0]) && final(self)@ == old(self)@.drop_first(),
    {
        match self {
            UnsignedRleV2Run::Direct(run) => run.next(),
            UnsignedRleV2Run::Delta(run) => run.next(),
            UnsignedRleV2Run::ShortRepeat(run) => run.next(),
        }
    }

    /// Returns the memory region it owns, so it can be re-used.
    pub fn into_inner(self) -> Vec<u8> {
        match self {
            UnsignedRleV2Run::Direct(run) => run.into_inner(),
            UnsignedRleV2Run::Delta(run) => run.into_inner(),
            UnsignedRleV2Run::ShortRepeat(run) => run.into_inner(),
        }
    }
}

/// The first `n` values of the stream `s` of unsigned runs; the runs must end
/// exactly after the `n`-th value.
pub open spec fn decode_unsigned(s: Seq<u8>, end: Error, n: nat) -> Result<Seq<u64>, Error>
    decreases n,
{
    if n == 0 {
        Ok(seq![])
    } else {
        match parse_unsigned_run(s, end) {
            Err(e) => Err(e),
            Ok((v, k)) => if v.len() == 0 || v.len() > n {
                Err(Error::OutOfSpec)
            } else {
                match decode_unsigned(s.skip(k as int), end, (n - v.len()) as nat) {
                    Ok(t) => Ok(v + t),
                    Err(e) => Err(e),
                }
            },
        }
    }
}

/// Appends every value of `run` to `out`.
fn drain_unsigned(run: &mut UnsignedRleV2Run, out: &mut Vec<u64>)
    requires
        old(run).wf(),
    ensures
        final(run).wf(),
        final(out)@ == old(out)@ + old(run)@,
{
    let ghost values = run@;
    let ghost start = out@;
    while !run.is_empty()
        invariant
            run.wf(),
            values == old(run)@,
            start == old(out)@,
            start + values == out@ + run@,
        decreases run@.len(),
    {
        let ghost before = run@;
        match run.next() {
            Some(v) => {
                out.push(v);
                assert(out@ + run@ =~= start + values) by {
                    assert(before =~= seq![v] + run@);
                }
            },
            None => {},
        }
    }
    assert(run@ =~= seq![]);
}

/// Reads the `n` values of a stream of unsigned runs.
pub fn read_unsigned_values<R: ByteSource>(reader: &mut R, n: usize) -> (r: Result<Vec<u64>, Error>)
    requires
        old(reader).wf(),
    ensures
        match decode_unsigned(old(reader).rest(), old(reader).end_error(), n as nat) {
            Ok(values) => r is Ok && r->Ok_0@ == values,
            Err(e) => r == Err::<Vec<u64>, Error>(e),
        },
{
    let ghost end = reader.end_error();
    let ghost s0 = reader.rest();
    let mut out: Vec<u64> = Vec::new();
    let mut scratch: Vec<u8> = Vec::new();
    let mut remaining = n;
    while remaining > 0
        invariant
            reader.wf(),
            reader.end_error() == end,
            end == old(reader).end_error(),
            s0 == old(reader).rest(),
            decode_unsigned(s0, end, n as nat) == match decode_unsigned(
                reader.rest(),
                end,
                remaining as nat,
            ) {
                Ok(t) => Ok(out@ + t),
                Err(e) => Err(e),
            },
        decreases remaining,
    {
        let ghost s = reader.rest();
        let mut run = match UnsignedRleV2Run::try_new(reader, scratch) {
            Ok(run) => run,
            Err(e) => {
                return Err(e);
            },
        };
        let len = run.len();
        if len == 0 || len > remaining {
            return Err(Error::OutOfSpec);
        }
        let ghost before = out@;
        drain_unsigned(&mut run, &mut out);
        remaining = remaining - len;
        scratch = run.into_inner();
        proof {
            let t = decode_unsigned(reader.rest(), end, remaining as nat);
            if let Ok(tt) = t {
                assert(before + (run_values(s, end) + tt) =~= out@ + tt);
            }
        }
    }
    Ok(out)
}

spec fn run_values(s: Seq<u8>, end: Error) -> Seq<u64> {
    parse_unsigned_run(s, end)->Ok_0.0
}

/// A reader of the runs of a stream of unsigned RLE v2 integers, until `length`
/// values have been announced.
pub struct UnsignedRleV2Iter<R: ByteSource> {
    reader: R,
    scratch: Vec<u8>,
    length: usize,
}

impl<R: ByteSource> UnsignedRleV2Iter<R> {
    /// The source the runs are read from.
    pub closed spec fn source(&self) -> R {
        self.reader
    }

    /// The number of values still to be announced.
    pub closed spec fn remaining(&self) -> nat {
        self.length as nat
    }

    /// Returns a new [`UnsignedRleV2Iter`] announcing `length` values.
    pub fn new(reader: R, length: usize, scratch: Vec<u8>) -> (r: Self)
        ensures
            r.source() == reader,
            r.remaining() == length,
    {
        UnsignedRleV2Iter { reader, scratch, length }
    }

    /// Reads the next run. Once `length` values have been announced there is none;
    /// a run that would announce more fails with `OutOfSpec`. After an error there is
    /// no run left.
    pub fn next(&mut self) -> (r: Option<Result<UnsignedRleV2Run, Error>>)
        requires
            old(self).source().wf(),
        ensures
            old(self).remaining() == 0 ==> r is None,
            old(self).remaining() > 0 ==> match parse_unsigned_run(
                old(self).source().rest(),
                old(self).source().end_error(),
            ) {
                Ok((values, n)) => if values.len() <= old(self).remaining() {
                    &&& r matches Some(Ok(run))
                    &&& run.wf() && run@ == values
                    &&& final(self).source().wf()
                    &&& final(self).source().rest() == old(self).source().rest().skip(n as int)
                    &&& final(self).source().end_error() == old(self).source().end_error()
                    &&& final(self).remaining() == old(self).remaining() - values.len()
                } else {
                    &&& r == Some(Err::<UnsignedRleV2Run, Error>(Error::OutOfSpec))
                    &&& final(self).remaining() == 0
                },
                Err(e) => {
                    &&& r == Some(Err::<UnsignedRleV2Run, Error>(e))
                    &&& final(self).remaining() == 0
                },
            },
    {
        if self.length == 0 {
            return None;
        }
        let mut scratch = Vec::new();
        std::mem::swap(&mut scratch, &mut self.scratch);
        match UnsignedRleV2Run::try_new(&mut self.reader, scratch) {
            Ok(run) => {
                let len = run.len();
                if len > self.length {
                    self.length = 0;
                    Some(Err(Error::OutOfSpec))
                } else {
                    self.length = self.length - len;
                    Some(Ok(run))
                }
            },
            Err(e) => {
                self.length = 0;
                Some(Err(e))
            },
        }
    }

    /// Returns the source and the memory region, so they can be re-used.
    pub fn into_inner(self) -> (r: (R, Vec<u8>))
        ensures
            r.0 == self.source(),
    {
        (self.reader, self.scratch)
    }
}

/// The zigzag decoding of each value of `v`.
pub open spec fn zigzag_all(v: Seq<u64>) -> Seq<i64> {
    v.map_values(|z: u64| zigzag_value(z) as i64)
}

/// The value at position `k` of a signed Delta run whose value at position `p` is
/// `known`.
pub open spec fn signed_delta_from(known: i64, p: nat, delta_base: i64, deltas: Seq<u8>, w: nat, k: nat) -> i64
    decreases k - p,
{
    if k <= p {
        known
    } else {
        let prev = signed_delta_from(known, p, delta_base, deltas, w, (k - 1) as nat);
        if k == 1 || w == 0 {
            prev.wrapping_add(delta_base)
        } else if delta_base > 0 {
            prev.wrapping_add((unpacked(deltas, w, k - 2) as u64) as i64)
        } else {
            prev.wrapping_sub((unpacked(deltas, w, k - 2) as u64) as i64)
        }
    }
}

proof fn lemma_signed_delta_from_shift(known: i64, p: nat, delta_base: i64, deltas: Seq<u8>, w: nat, k: nat)
    requires
        k >= p + 1,
    ensures
        signed_delta_from(known, p, delta_base, deltas, w, k) == signed_delta_from(
            signed_delta_from(known, p, delta_base, deltas, w, p + 1),
            p + 1,
            delta_base,
            deltas,
            w,
            k,
        ),
    decreases k - p,
{
    if k > p + 1 {
        lemma_signed_delta_from_shift(known, p, delta_base, deltas, w, (k - 1) as nat);
    }
}

/// The signed Delta run of header `h` at the start of `s`: as the unsigned one, but
/// with a zigzag-encoded base and signed arithmetic.
pub open spec fn parse_signed_delta(h: u8, s: Seq<u8>, end: Error) -> Result<(Seq<i64>, nat), Error> {
    if s.len() < 1 {
        Err(end)
    } else {
        match delta_width(width_code(h)) {
            None => Err(Error::OutOfSpec),
            Some(w) => {
                let n = run_length(h, s[0]);
                if n < 2 {
                    Err(Error::OutOfSpec)
                } else {
                    match parse_signed_varint(s.skip(1), end) {
                        Err(e) => Err(e),
                        Ok((base, k1)) => match parse_signed_varint(s.skip(1 + k1 as int), end) {
                            Err(e) => Err(e),
                            Ok((delta_base, k2)) => {
                                let p = packed_len((n - 2) as nat, w as nat);
                                let start = 1 + k1 + k2;
                                if s.len() < start + p {
                                    Err(end)
                                } else {
                                    let deltas = s.subrange(start as int, (start + p) as int);
                                    Ok((
                                        Seq::new(
                                            n,
                                            |i: int|
                                                signed_delta_from(
                                                    base,
                                                    0,
                                                    delta_base,
                                                    deltas,
                                                    w as nat,
                                                    i as nat,
                                                ),
                                        ),
                                        start + p,
                                    ))
                                }
                            },
                        },
                    }
                }
            },
        }
    }
}

/// The signed run at the start of `s`, header included: Short-Repeat and Direct
/// values are zigzag decoded.
pub open spec fn parse_signed_run(s: Seq<u8>, end: Error) -> Result<(Seq<i64>, nat), Error> {
    if s.len() == 0 {
        Err(end)
    } else {
        let h = s[0];
        let body = match spec_run_encoding(h) {
            EncodingTypeV2::ShortRepeat => match parse_short_repeat(h, s.drop_first(), end) {
                Ok((v, n)) => Ok((zigzag_all(v), n)),
                Err(e) => Err(e),
            },
            EncodingTypeV2::Direct => match parse_direct(h, s.drop_first(), end) {
                Ok((v, n)) => Ok((zigzag_all(v), n)),
                Err(e) => Err(e),
            },
            EncodingTypeV2::Delta => parse_signed_delta(h, s.drop_first(), end),
            EncodingTypeV2::PatchedBase => Err(Error::OutOfSpec),
        };
        match body {
            Ok((v, n)) => Ok((v, n + 1)),
            Err(e) => Err(e),
        }
    }
}

/// A Direct run of zigzag-encoded values.
pub struct SignedDirectRun(UnsignedDirectRun);

impl View for SignedDirectRun {
    type V = Seq<i64>;

    /// The values not yielded yet.
    closed spec fn view(&self) -> Seq<i64> {
        zigzag_all(self.0@)
    }
}

impl SignedDirectRun {
    /// Whether the run's state is consistent.
    pub closed spec fn wf(&self) -> bool {
        self.0.wf()
    }

    /// Reads the run of header `header` from `reader`, moving `scratch` to itself.
    pub fn try_new<R: ByteSource>(header: u8, reader: &mut R, scratch: Vec<u8>) -> (r: Result<Self, Error>)
        requires
            old(reader).wf(),
        ensures
            match parse_direct(header, old(reader).rest(), old(reader).end_error()) {
                Ok((values, n)) => {
                    &&& r is Ok
                    &&& r->Ok_0.wf()
                    &&& r->Ok_0@ == zigzag_all(values)
                    &&& final(reader).wf()
                    &&& final(reader).rest() == old(reader).rest().skip(n as int)
                    &&& final(reader).end_error() == old(reader).end_error()
                },
                Err(e) => r == Err::<Self, Error>(e),
            },
    {
        match UnsignedDirectRun::try_new(header, reader, scratch) {
            Ok(run) => Ok(SignedDirectRun(run)),
            Err(e) => Err(e),
        }
    }

    /// The number of values not yielded yet.
    pub fn len(&self) -> (r: usize)
        requires
            self.wf(),
        ensures
            r == self@.len(),
    {
        self.0.len()
    }

    /// Whether every value has been yielded.
    pub fn is_empty(&self) -> (r: bool)
        requires
            self.wf(),
        ensures
            r <==> self@.len() == 0,
    {
        self.len() == 0
    }

    /// Yields the next value.
    pub fn next(&mut self) -> (r: Option<i64>)
        requires
            old(self).wf(),
        ensures
            final(self).wf(),
            old(self)@.len() == 0 ==> r is None && final(self)@ == old(self)@,
            old(self)@.len() > 0 ==> r == Some(old(self)@[0]) && final(self)@ == old(self)@.drop_first(),
    {
        let r = match self.0.next() {
            Some(z) => Some(zigzag(z)),
            None => None,
        };
        assert(self@ =~= old(self)@.drop_first() || old(self)@.len() == 0);
        r
    }

    /// Returns the memory region it owns, so it can be re-used.
    pub fn into_inner(self) -> Vec<u8> {
        self.0.into_inner()
    }
}

/// A Short-Repeat run of a zigzag-encoded value.
pub struct SignedShortRepeat(UnsignedShortRepeat);

impl View for SignedShortRepeat {
    type V = Seq<i64>;

    /// The values not yielded yet.
    closed spec fn view(&self) -> Seq<i64> {
        zigzag_all(self.0@)
    }
}

impl SignedShortRepeat {
    /// Reads the run of header `header` from `reader`, moving `scratch` to itself.
    pub fn try_new<R: ByteSource>(header: u8, reader: &mut R, scratch: Vec<u8>) -> (r: Result<Self, Error>)
        requires
            old(reader).wf(),
        ensures
            match parse_short_repeat(header, old(reader).rest(), old(reader).end_error()) {
                Ok((values, n)) => {
                    &&& r is Ok
                    &&& r->Ok_0@ == zigzag_all(values)
                    &&& final(reader).wf()
                    &&& final(reader).rest() == old(reader).rest().skip(n as int)
                    &&& final(reader).end_error() == old(reader).end_error()
                },
                Err(e) => r == Err::<Self, Error>(e),
            },
    {
        match UnsignedShortRepeat::try_new(header, reader, scratch) {
            Ok(run) => Ok(SignedShortRepeat(run)),
            Err(e) => Err(e),
        }
    }

    /// The number of values not yielded yet.
    pub fn len(&self) -> (r: usize)
        ensures
            r == self@.len(),
    {
        self.0.len()
    }

    /// Whether every value has been yielded.
    pub fn is_empty(&self) -> (r: bool)
        ensures
            r <==> self@.len() == 0,
    {
        self.len() == 0
    }

    /// Yields the next value.
    pub fn next(&mut self) -> (r: Option<i64>)
        ensures
            old(self)@.len() == 0 ==> r is None && final(self)@ == old(self)@,
            old(self)@.len() > 0 ==> r == Some(old(self)@[0]) && final(self)@ == old(self)@.drop_first(),
    {
        let r = match self.0.next() {
            Some(z) => Some(zigzag(z)),
            None => None,
        };
        assert(self@ =~= old(self)@.drop_first() || old(self)@.len() == 0);
        r
    }

    /// Returns the memory region it owns, so it can be re-used.
    pub fn into_inner(self) -> Vec<u8> {
        self.0.into_inner()
    }
}

/// A Delta run of signed integers.
pub struct SignedDeltaRun {
    encoded_deltas: Vec<u8>,
    bit_width: u8,
    index: usize,
    length: usize,
    base: i64,
    delta_base: i64,
}

impl View for SignedDeltaRun {
    type V = Seq<i64>;

    /// The values not yielded yet.
    closed spec fn view(&self) -> Seq<i64> {
        Seq::new(
            (self.length - self.index) as nat,
            |j: int|
                signed_delta_from(
                    self.base,
                    known_position(self.index as nat),
                    self.delta_base,
                    self.encoded_deltas@,
                    self.bit_width as nat,
                    (self.index + j) as nat,
                ),
        )
    }
}

impl SignedDeltaRun {
    /// Whether the run's state is consistent.
    pub closed spec fn wf(&self) -> bool {
        &&& self.index <= self.length <= 512
        &&& 2 <= self.length
        &&& self.bit_width <= 64
        &&& (self.length - 2) * self.bit_width <= 8 * self.encoded_deltas@.len()
    }

    /// Reads the run of header `header` from `reader`, moving `scratch` to itself.
    pub fn try_new<R: ByteSource>(header: u8, reader: &mut R, scratch: Vec<u8>) -> (r: Result<Self, Error>)
        requires
            old(reader).wf(),
        ensures
            match parse_signed_delta(header, old(reader).rest(), old(reader).end_error()) {
                Ok((values, n)) => {
                    &&& r is Ok
                    &&& r->Ok_0.wf()
                    &&& r->Ok_0@ == values
                    &&& final(reader).wf()
                    &&& final(reader).rest() == old(reader).rest().skip(n as int)
                    &&& final(reader).end_error() == old(reader).end_error()
                },
                Err(e) => r == Err::<Self, Error>(e),
            },
    {
        let mut scratch = scratch;
        let ghost s = reader.rest();
        let ghost end = reader.end_error();
        let header1 = match reader.read_u8() {
            Ok(b) => b,
            Err(e) => {
                return Err(e);
            },
        };
        let bit_width = match rle_v2_delta_bit_width(header_to_width_code(header)) {
            Some(w) => w,
            None => {
                return Err(Error::OutOfSpec);
            },
        };
        let length = header_to_rle_v2_direct_length(header, header1) as usize;
        assert(header1 == s[0]);
        if length < 2 {
            return Err(Error::OutOfSpec);
        }
        let ghost s1 = reader.rest();
        let base = match signed_varint(reader) {
            Ok(v) => v,
            Err(e) => {
                return Err(e);
            },
        };
        let ghost k1 = parse_signed_varint(s1, end)->Ok_0.1;
        assert(s1 == s.skip(1));
        proof {
            lemma_varint_length(s1, 0, 0, end);
        }
        assert(s1.skip(k1 as int) =~= s.skip(1 + k1 as int));
        let ghost s2 = reader.rest();
        let delta_base = match signed_varint(reader) {
            Ok(v) => v,
            Err(e) => {
                return Err(e);
            },
        };
        let ghost k2 = parse_signed_varint(s2, end)->Ok_0.1;
        proof {
            lemma_varint_length(s2, 0, 0, end);
        }
        assert(s2.skip(k2 as int) =~= s.skip((1 + k1 + k2) as int));
        assert(bit_width <= 64 && length <= 512);
        assert((length - 2) * bit_width as usize <= 512 * 64) by (nonlinear_arith)
            requires
                bit_width <= 64 && length <= 512 && length >= 2,
        ;
        let additional = ((length - 2) * bit_width as usize + 7) / 8;
        assert(additional as nat == packed_len((length - 2) as nat, bit_width as nat));
        scratch.clear();
        if let Err(e) = read_bytes(reader, additional, &mut scratch) {
            return Err(e);
        }
        proof {
            lemma_packed_fits((length - 2) as nat, bit_width as nat);
            let start = 1 + k1 + k2;
            assert(s.skip(start as int).take(additional as int) =~= s.subrange(
                start as int,
                start + additional as int,
            ));
            assert(s.skip(start as int).skip(additional as int) =~= s.skip(start + additional as int));
        }
        let r = SignedDeltaRun { encoded_deltas: scratch, bit_width, index: 0, length, base, delta_base };
        assert(r@ =~= parse_signed_delta(header, s, end)->Ok_0.0);
        Ok(r)
    }

    /// The number of values not yielded yet.
    pub fn len(&self) -> (r: usize)
        requires
            self.wf(),
        ensures
            r == self@.len(),
    {
        self.length - self.index
    }

    /// Whether every value has been yielded.
    pub fn is_empty(&self) -> (r: bool)
        requires
            self.wf(),
        ensures
            r <==> self@.len() == 0,
    {
        self.len() == 0
    }

    /// Yields the next value.
    pub fn next(&mut self) -> (r: Option<i64>)
        requires
            old(self).wf(),
        ensures
            final(self).wf(),
            old(self)@.len() == 0 ==> r is None && final(self)@ == old(self)@,
            old(self)@.len() > 0 ==> r == Some(old(self)@[0]) && final(self)@ == old(self)@.drop_first(),
    {
        let ghost w = self.bit_width as nat;
        let ghost d = self.encoded_deltas@;
        if self.index == self.length {
            return None;
        }
        if self.index == 0 {
            self.index = 1;
            assert(self@ =~= old(self)@.drop_first());
            return Some(self.base);
        }
        let index = self.index;
        if index == 1 || self.bit_width == 0 {
            self.base = self.base.wrapping_add(self.delta_base);
        } else {
            proof {
                assert((index as int - 1) * (w as int) <= (self.length as int - 2) * (w as int))
                    by (nonlinear_arith)
                    requires
                        index < self.length,
                ;
                assert((self.length as int - 2) * (w as int) <= 512 * 64) by (nonlinear_arith)
                    requires
                        self.length <= 512,
                        w <= 64,
                ;
            }
            let delta = unpack(self.encoded_deltas.as_slice(), self.bit_width, index - 2);
            if self.delta_base > 0 {
                self.base = self.base.wrapping_add(delta as i64);
            } else {
                self.base = self.base.wrapping_sub(delta as i64);
            }
        }
        self.index = index + 1;
        proof {
            let old_base = old(self).base;
            let db = self.delta_base;
            reveal_with_fuel(signed_delta_from, 2);
            assert(self.base == signed_delta_from(old_base, (index - 1) as nat, db, d, w, index as nat));
            assert forall|j: int| 0 <= j < self@.len() implies self@[j] == old(self)@.drop_first()[j] by {
                lemma_signed_delta_from_shift(old_base, (index - 1) as nat, db, d, w, (index + 1 + j) as nat);
            }
            assert(self@ =~= old(self)@.drop_first());
        }
        Some(self.base)
    }

    /// Returns the memory region it owns, so it can be re-used.
    pub fn into_inner(self) -> Vec<u8> {
        let mut deltas = self.encoded_deltas;
        deltas.clear();
        deltas
    }
}

/// One of the RLE v2 runs for signed integers.
pub enum SignedRleV2Run {
    /// Direct
    Direct(SignedDirectRun),
    /// Delta
    Delta(SignedDeltaRun),
    /// Short repeat
    ShortRepeat(SignedShortRepeat),
}

impl View for SignedRleV2Run {
    type V = Seq<i64>;

    /// The values not yielded yet.
    closed spec fn view(&self) -> Seq<i64> {
        match self {
            SignedRleV2Run::Direct(run) => run@,
            SignedRleV2Run::Delta(run) => run@,
            SignedRleV2Run::ShortRepeat(run) => run@,
        }
    }
}

impl SignedRleV2Run {
    /// Whether the run's state is consistent.
    pub closed spec fn wf(&self) -> bool {
        match self {
            SignedRleV2Run::Direct(run) => run.wf(),
            SignedRleV2Run::Delta(run) => run.wf(),
            SignedRleV2Run::ShortRepeat(run) => true,
        }
    }

    /// Reads the next run from `reader`, moving `scratch` to itself.
    pub fn try_new<R: ByteSource>(reader: &mut R, scratch: Vec<u8>) -> (r: Result<Self, Error>)
        requires
            old(reader).wf(),
        ensures
            match parse_signed_run(old(reader).rest(), old(reader).end_error()) {
                Ok((values, n)) => {
                    &&& r is Ok
                    &&& r->Ok_0.wf()
                    &&& r->Ok_0@ == values
                    &&& final(reader).wf()
                    &&& final(reader).rest() == old(reader).rest().skip(n as int)
                    &&& final(reader).end_error() == old(reader).end_error()
                },
                Err(e) => r == Err::<Self, Error>(e),
            },
    {
        let ghost s = reader.rest();
        let header = match reader.read_u8() {
            Ok(b) => b,
            Err(e) => {
                return Err(e);
            },
        };
        let ghost t = reader.rest();
        assert(t == s.drop_first());
        let r = match run_encoding(header) {
            EncodingTypeV2::Direct => match SignedDirectRun::try_new(header, reader, scratch) {
                Ok(run) => Ok(SignedRleV2Run::Direct(run)),
                Err(e) => Err(e),
            },
            EncodingTypeV2::Delta => match SignedDeltaRun::try_new(header, reader, scratch) {
                Ok(run) => Ok(SignedRleV2Run::Delta(run)),
                Err(e) => Err(e),
            },
            EncodingTypeV2::ShortRepeat => match SignedShortRepeat::try_new(header, reader, scratch) {
                Ok(run) => Ok(SignedRleV2Run::ShortRepeat(run)),
                Err(e) => Err(e),
            },
            EncodingTypeV2::PatchedBase => Err(Error::OutOfSpec),
        };
        proof {
            if let Ok((v, n)) = parse_signed_run(s, old(reader).end_error()) {
                assert(t.skip(n - 1) =~= s.skip(n as int));
            }
        }
        r
    }

    /// The number of values not yielded yet.
    pub fn len(&self) -> (r: usize)
        requires
            self.wf(),
        ensures
            r == self@.len(),
    {
        match self {
            SignedRleV2Run::Direct(run) => run.len(),
            SignedRleV2Run::Delta(run) => run.len(),
            SignedRleV2Run::ShortRepeat(run) => run.len(),
        }
    }

    /// Whether every value has been yielded.
    pub fn is_empty(&self) -> (r: bool)
        requires
            self.wf(),
        ensures
            r <==> self@.len() == 0,
    {
        self.len() == 0
    }

    /// Yields the next value.
    pub fn next(&mut self) -> (r: Option<i64>)
        requires
            old(self).wf(),
        ensures
            final(self).wf(),
            old(self)@.len() == 0 ==> r is None && final(self)@ == old(self)@,
            old(self)@.len() > 0 ==> r == Some(old(self)@[0]) && final(self)@ == old(self)@.drop_first(),
    {
        match self {
            SignedRleV2Run::Direct(run) => run.next(),
            SignedRleV2Run::Delta(run) => run.next(),
            SignedRleV2Run::ShortRepeat(run) => run.next(),
        }
    }

    /// Returns the memory region it owns, so it can be re-used.
    pub fn into_inner(self) -> Vec<u8> {
        match self {
            SignedRleV2Run::Direct(run) => run.into_inner(),
            SignedRleV2Run::Delta(run) => run.into_inner(),
            SignedRleV2Run::ShortRepeat(run) => run.into_inner(),
        }
    }
}

/// The first `n` values of the stream `s` of signed runs; the runs must end
/// exactly after the `n`-th value.
pub open spec fn decode_signed(s: Seq<u8>, end: Error, n: nat) -> Result<Seq<i64>, Error>
    decreases n,
{
    if n == 0 {
        Ok(seq![])
    } else {
        match parse_signed_run(s, end) {
            Err(e) => Err(e),
            Ok((v, k)) => if v.len() == 0 || v.len() > n {
                Err(Error::OutOfSpec)
            } else {
                match decode_signed(s.skip(k as int), end, (n - v.len()) as nat) {
                    Ok(t) => Ok(v + t),
                    Err(e) => Err(e),
                }
            },
        }
    }
}

/// Appends every value of `run` to `out`.
fn drain_signed(run: &mut SignedRleV2Run, out: &mut Vec<i64>)
    requires
        old(run).wf(),
    ensures
        final(run).wf(),
        final(out)@ == old(out)@ + old(run)@,
{
    let ghost values = run@;
    let ghost start = out@;
    while !run.is_empty()
        invariant
            run.wf(),
            values == old(run)@,
            start == old(out)@,
            start + values == out@ + run@,
        decreases run@.len(),
    {
        let ghost before = run@;
        match run.next() {
            Some(v) => {
                out.push(v);
                assert(out@ + run@ =~= start + values) by {
                    assert(before =~= seq![v] + run@);
                }
            },
            None => {},
        }
    }
    assert(run@ =~= seq![]);
}

/// Reads the `n` values of a stream of signed runs.
pub fn read_signed_values<R: ByteSource>(reader: &mut R, n: usize) -> (r: Result<Vec<i64>, Error>)
    requires
        old(reader).wf(),
    ensures
        match decode_signed(old(reader).rest(), old(reader).end_error(), n as nat) {
            Ok(values) => r is Ok && r->Ok_0@ == values,
            Err(e) => r == Err::<Vec<i64>, Error>(e),
        },
{
    let ghost end = reader.end_error();
    let ghost s0 = reader.rest();
    let mut out: Vec<i64> = Vec::new();
    let mut scratch: Vec<u8> = Vec::new();
    let mut remaining = n;
    while remaining > 0
        invariant
            reader.wf(),
            reader.end_error() == end,
            end == old(reader).end_error(),
            s0 == old(reader).rest(),
            decode_signed(s0, end, n as nat) == match decode_signed(
                reader.rest(),
                end,
                remaining as nat,
            ) {
                Ok(t) => Ok(out@ + t),
                Err(e) => Err(e),
            },
        decreases remaining,
    {
        let ghost s = reader.rest();
        let mut run = match SignedRleV2Run::try_new(reader, scratch) {
            Ok(run) => run,
            Err(e) => {
                return Err(e);
            },
        };
        let len = run.len();
        if len == 0 || len > remaining {
            return Err(Error::OutOfSpec);
        }
        let ghost before = out@;
        drain_signed(&mut run, &mut out);
        remaining = remaining - len;
        scratch = run.into_inner();
        proof {
            let t = decode_signed(reader.rest(), end, remaining as nat);
            if let Ok(tt) = t {
                assert(before + (signed_run_values(s, end) + tt) =~= out@ + tt);
            }
        }
    }
    Ok(out)
}

spec fn signed_run_values(s: Seq<u8>, end: Error) -> Seq<i64> {
    parse_signed_run(s, end)->Ok_0.0
}

/// A reader of the runs of a stream of signed RLE v2 integers, until `length`
/// values have been announced.
pub struct SignedRleV2Iter<R: ByteSource> {
    reader: R,
    scratch: Vec<u8>,
    length: usize,
}

impl<R: ByteSource> SignedRleV2Iter<R> {
    /// The source the runs are read from.
    pub closed spec fn source(&self) -> R {
        self.reader
    }

    /// The number of values still to be announced.
    pub closed spec fn remaining(&self) -> nat {
        self.length as nat
    }

    /// Returns a new [`SignedRleV2Iter`] announcing `length` values.
    pub fn new(reader: R, length: usize, scratch: Vec<u8>) -> (r: Self)
        ensures
            r.source() == reader,
            r.remaining() == length,
    {
        SignedRleV2Iter { reader, scratch, length }
    }

    /// Reads the next run. Once `length` values have been announced there is none;
    /// a run that would announce more fails with `OutOfSpec`. After an error there is
    /// no run left.
    pub fn next(&mut self) -> (r: Option<Result<SignedRleV2Run, Error>>)
        requires
            old(self).source().wf(),
        ensures
            old(self).remaining() == 0 ==> r is None,
            old(self).remaining() > 0 ==> match parse_signed_run(
                old(self).source().rest(),
                old(self).source().end_error(),
            ) {
                Ok((values, n)) => if values.len() <= old(self).remaining() {
                    &&& r matches Some(Ok(run))
                    &&& run.wf() && run@ == values
                    &&& final(self).source().wf()
                    &&& final(self).source().rest() == old(self).source().rest().skip(n as int)
                    &&& final(self).source().end_error() == old(self).source().end_error()
                    &&& final(self).remaining() == old(self).remaining() - values.len()
                } else {
                    &&& r == Some(Err::<SignedRleV2Run, Error>(Error::OutOfSpec))
                    &&& final(self).remaining() == 0
                },
                Err(e) => {
                    &&& r == Some(Err::<SignedRleV2Run, Error>(e))
                    &&& final(self).remaining() == 0
                },
            },
    {
        if self.length == 0 {
            return None;
        }
        let mut scratch = Vec::new();
        std::mem::swap(&mut scratch, &mut self.scratch);
        match SignedRleV2Run::try_new(&mut self.reader, scratch) {
            Ok(run) => {
                let len = run.len();
                if len > self.length {
                    self.length = 0;
                    Some(Err(Error::OutOfSpec))
                } else {
                    self.length = self.length - len;
                    Some(Ok(run))
                }
            },
            Err(e) => {
                self.length = 0;
                Some(Err(e))
            },
        }
    }

    /// Returns the source and the memory region, so they can be re-used.
    pub fn into_inner(self) -> (r: (R, Vec<u8>))
        ensures
            r.0 == self.source(),
    {
        (self.reader, self.scratch)
    }
}

/// The `w` bytes of `v`, most significant first.
pub open spec fn be_bytes(v: nat, w: nat) -> Seq<u8>
    decreases w,
{
    if w == 0 {
        seq![]
    } else {
        be_bytes(v / 256, (w - 1) as nat).push((v % 256) as u8)
    }
}

proof fn lemma_be_bytes(v: nat, w: nat)
    requires
        v < pow2(8 * w),
    ensures
        be_bytes(v, w).len() == w,
        be_value(be_bytes(v, w)) == v,
    decreases w,
{
    lemma2_to64();
    if w == 0 {
    } else {
        lemma_pow2_adds(8 * (w - 1) as nat, 8);
        assert(8 * (w - 1) as nat + 8 == 8 * w);
        lemma_pow2_pos(8 * (w - 1) as nat);
        let q = v / 256;
        lemma_fundamental_div_mod(v as int, 256);
        assert(q < pow2(8 * (w - 1) as nat)) by (nonlinear_arith)
            requires
                v < pow2(8 * (w - 1) as nat) * 256,
                v == 256 * q + v % 256,
                v % 256 >= 0,
        ;
        lemma_be_bytes(q, (w - 1) as nat);
        assert(be_bytes(v, w).drop_last() =~= be_bytes(q, (w - 1) as nat));
    }
}

/// A Short-Repeat run of `count` copies of `v`, written in `w` bytes: the header
/// holds `w - 1` in bits 3 to 5 and `count - 3` in the low bits.
pub open spec fn encode_short_repeat(v: u64, w: nat, count: nat) -> Seq<u8> {
    seq![((((w - 1) as u8) << 3u8) | ((count - 3) as u8))] + be_bytes(v as nat, w)
}

/// Decoding an encoded Short-Repeat run gives back its values.
pub proof fn lemma_short_repeat_round_trip(v: u64, w: nat, count: nat, end: Error)
    requires
        1 <= w <= 8,
        3 <= count <= 10,
        v < pow2(8 * w),
    ensures
        parse_unsigned_run(encode_short_repeat(v, w, count), end) == Ok::<(Seq<u64>, nat), Error>(
            (Seq::new(count, |i: int| v), w + 1),
        ),
{
    let s = encode_short_repeat(v, w, count);
    let a = (w - 1) as u8;
    let c = (count - 3) as u8;
    let h = (a << 3u8) | c;
    assert(h < 64 && (h >> 3u8) & 7u8 == a && h & 7u8 == c) by (bit_vector)
        requires
            a < 8 && c < 8 && h == (a << 3u8) | c,
    ;
    lemma_be_bytes(v as nat, w);
    assert(s.drop_first() =~= be_bytes(v as nat, w));
    assert(s.drop_first().take(w as int) =~= be_bytes(v as nat, w));
    let values = Seq::new(count, |i: int| v);
    assert(parse_short_repeat(h, s.drop_first(), end)->Ok_0.0 =~= values);
}

/// Whether `w` is the bit width of some Direct run.
pub open spec fn is_direct_width(w: u8) -> bool {
    w == 1 || w == 2 || w == 4 || w == 8 || w == 16 || w == 24 || w == 32 || w == 40 || w == 48
        || w == 56 || w == 64
}

/// The code of a Direct bit width.
pub open spec fn direct_code(w: u8) -> u8 {
    if w == 1 {
        0
    } else if w == 2 {
        1
    } else if w == 4 {
        3
    } else if w == 8 {
        7
    } else if w == 16 {
        15
    } else if w == 24 {
        23
    } else if w == 32 {
        27
    } else if w == 40 {
        28
    } else if w == 48 {
        29
    } else if w == 56 {
        30
    } else {
        31
    }
}

/// A Direct run of `values` at `w` bits each: two header bytes (the encoding, the
/// code of `w` and the 9-bit length minus one), then the packed values.
pub open spec fn encode_direct(values: Seq<u64>, w: u8) -> Seq<u8> {
    let n1 = (values.len() - 1) as nat;
    seq![(64u8 | (direct_code(w) << 1u8) | ((n1 / 256) as u8)), (n1 % 256) as u8] + pack(
        values,
        w as nat,
    )
}

/// The header of an encoded Direct run announces its width and its length.
proof fn lemma_direct_header(n: nat, w: u8)
    requires
        is_direct_width(w),
        1 <= n <= 512,
    ensures
        ({
            let n1 = (n - 1) as nat;
            let h = 64u8 | (direct_code(w) << 1u8) | ((n1 / 256) as u8);
            &&& spec_run_encoding(h) == EncodingTypeV2::Direct
            &&& direct_width(width_code(h)) == Some(w)
            &&& run_length(h, (n1 % 256) as u8) == n
        }),
{
    let n1 = (n - 1) as nat;
    let c = direct_code(w);
    let hi = (n1 / 256) as u8;
    let h = 64u8 | (c << 1u8) | hi;
    assert(c < 32);
    assert(hi <= 1);
    assert(64 <= h < 128 && (h >> 1u8) & 31u8 == c && h % 2 == hi) by (bit_vector)
        requires
            c < 32 && hi <= 1 && h == 64u8 | (c << 1u8) | hi,
    ;
    assert(direct_width(c) == Some(w));
}

/// Decoding an encoded Direct run gives back its values, when each fits in `w` bits.
pub proof fn lemma_direct_round_trip(values: Seq<u64>, w: u8, end: Error)
    requires
        is_direct_width(w),
        1 <= values.len() <= 512,
        forall|i: int| 0 <= i < values.len() ==> values[i] < pow2(w as nat),
    ensures
        parse_unsigned_run(encode_direct(values, w), end) == Ok::<(Seq<u64>, nat), Error>(
            (values, 2 + packed_len(values.len(), w as nat)),
        ),
{
    let s = encode_direct(values, w);
    let n1 = (values.len() - 1) as nat;
    let h = 64u8 | (direct_code(w) << 1u8) | ((n1 / 256) as u8);
    lemma_direct_header(values.len(), w);
    let body = s.drop_first();
    let p = packed_len(values.len(), w as nat);
    let packed = pack(values, w as nat);
    assert(packed.len() == p);
    assert(s[0] == h);
    assert(body[0] == (n1 % 256) as u8);
    let data = body.subrange(1, 1 + p as int);
    assert(data =~= packed);
    let decoded = Seq::new(values.len(), |i: int| unpacked(data, w as nat, i) as u64);
    assert(decoded =~= values) by {
        assert forall|i: int| 0 <= i < values.len() implies decoded[i] == values[i] by {
            lemma_unpack_pack(values, w as nat, i);
        }
    }
    assert(parse_direct(h, body, end) == Ok::<(Seq<u64>, nat), Error>((decoded, 1 + p)));
}

/// Whether `w` is the bit width of the deltas of some Delta run.
pub open spec fn is_delta_width(w: u8) -> bool {
    w == 0 || (is_direct_width(w) && w != 1)
}

/// The code of a Delta bit width.
pub open spec fn delta_code(w: u8) -> u8 {
    if w == 0 {
        0
    } else {
        direct_code(w)
    }
}

/// The value at position `k` of the Delta run of base `base`, first step
/// `delta_base` and absolute deltas `deltas` of `w` bits.
pub open spec fn delta_values(base: u64, delta_base: i64, deltas: Seq<u64>, w: nat, k: nat) -> u64
    decreases k,
{
    if k == 0 {
        base
    } else {
        let prev = delta_values(base, delta_base, deltas, w, (k - 1) as nat);
        if k == 1 || w == 0 {
            prev.wrapping_add_signed(delta_base)
        } else if delta_base > 0 {
            prev.wrapping_add(deltas[k - 2])
        } else {
            prev.wrapping_sub(deltas[k - 2])
        }
    }
}

/// A Delta run of `n` values: two header bytes (the encoding, the code of `w` and the
/// 9-bit length minus one), the base and the zigzag-encoded delta base as varints,
/// then the packed deltas.
pub open spec fn encode_delta(base: u64, delta_base: i64, deltas: Seq<u64>, w: u8, n: nat) -> Seq<u8> {
    let n1 = (n - 1) as nat;
    seq![(192u8 | (delta_code(w) << 1u8) | ((n1 / 256) as u8)), (n1 % 256) as u8] + encode_varint(
        base,
    ) + encode_varint(encode_zigzag(delta_base)) + pack(deltas, w as nat)
}

proof fn lemma_delta_header(n: nat, w: u8)
    requires
        is_delta_width(w),
        2 <= n <= 512,
    ensures
        ({
            let n1 = (n - 1) as nat;
            let h = 192u8 | (delta_code(w) << 1u8) | ((n1 / 256) as u8);
            &&& spec_run_encoding(h) == EncodingTypeV2::Delta
            &&& delta_width(width_code(h)) == Some(w)
            &&& run_length(h, (n1 % 256) as u8) == n
        }),
{
    let n1 = (n - 1) as nat;
    let c = delta_code(w);
    let hi = (n1 / 256) as u8;
    let h = 192u8 | (c << 1u8) | hi;
    assert(c < 32);
    assert(hi <= 1);
    assert(192 <= h && (h >> 1u8) & 31u8 == c && h % 2 == hi) by (bit_vector)
        requires
            c < 32 && hi <= 1 && h == 192u8 | (c << 1u8) | hi,
    ;
    assert(delta_width(c) == Some(w));
}

proof fn lemma_delta_values(base: u64, delta_base: i64, deltas: Seq<u64>, w: nat, k: nat)
    requires
        w <= 64,
        k < deltas.len() + 2,
        forall|i: int| 0 <= i < deltas.len() ==> deltas[i] < pow2(w),
    ensures
        delta_from(base, 0, delta_base, pack(deltas, w), w, k) == delta_values(
            base,
            delta_base,
            deltas,
            w,
            k,
        ),
    decreases k,
{
    if k > 0 {
        lemma_delta_values(base, delta_base, deltas, w, (k - 1) as nat);
        if k >= 2 && w > 0 {
            lemma_unpack_pack(deltas, w, k - 2);
        }
    }
}

/// Decoding an encoded Delta run gives back its values, when each delta fits in `w`
/// bits.
pub proof fn lemma_delta_round_trip(
    base: u64,
    delta_base: i64,
    deltas: Seq<u64>,
    w: u8,
    n: nat,
    end: Error,
)
    requires
        is_delta_width(w),
        2 <= n <= 512,
        deltas.len() == n - 2,
        forall|i: int| 0 <= i < deltas.len() ==> deltas[i] < pow2(w as nat),
    ensures
        parse_unsigned_run(encode_delta(base, delta_base, deltas, w, n), end) == Ok::<
            (Seq<u64>, nat),
            Error,
        >(
            (
                Seq::new(n, |k: int| delta_values(base, delta_base, deltas, w as nat, k as nat)),
                encode_delta(base, delta_base, deltas, w, n).len(),
            ),
        ),
{
    let s = encode_delta(base, delta_base, deltas, w, n);
    let n1 = (n - 1) as nat;
    let h = 192u8 | (delta_code(w) << 1u8) | ((n1 / 256) as u8);
    lemma_delta_header(n, w);
    let vb = encode_varint(base);
    let zz = encode_zigzag(delta_base);
    let vd = encode_varint(zz);
    let packed = pack(deltas, w as nat);
    let body = s.drop_first();
    assert(s[0] == h);
    assert(body[0] == (n1 % 256) as u8);
    // the base
    let after_header = body.skip(1);
    assert(after_header =~= vb + (vd + packed));
    lemma_varint_round_trip(base, vd + packed, end);
    let k1 = vb.len();
    // the delta base
    let after_base = body.skip(1 + k1 as int);
    assert(after_base =~= vd + packed);
    lemma_varint_round_trip(zz, packed, end);
    let k2 = vd.len();
    assert(zigzag_value(zz) as i64 == delta_base);
    // the deltas
    let start = 1 + k1 + k2;
    let p = packed_len((n - 2) as nat, w as nat);
    assert(packed.len() == p);
    assert(body.len() == start + p);
    assert(body.subrange(start as int, (start + p) as int) =~= packed);
    let decoded = Seq::new(n, |i: int| delta_from(base, 0, delta_base, packed, w as nat, i as nat));
    assert(decoded =~= Seq::new(n, |k: int| delta_values(base, delta_base, deltas, w as nat, k as nat)))
        by {
        assert forall|i: int| 0 <= i < n implies decoded[i] == delta_values(
            base,
            delta_base,
            deltas,
            w as nat,
            i as nat,
        ) by {
            lemma_delta_values(base, delta_base, deltas, w as nat, i as nat);
        }
    }
    assert(parse_delta(h, body, end) == Ok::<(Seq<u64>, nat), Error>((decoded, start + p)));
}

} // verus!
