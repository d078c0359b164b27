//! Base-128 varints, as RLE v2 writes the base and the delta base of delta runs.
use vstd::arithmetic::div_mod::lemma_fundamental_div_mod;
use vstd::arithmetic::power2::{lemma2_to64, lemma2_to64_rest, lemma_pow2_adds, lemma_pow2_pos, pow2};
use vstd::bits::lemma_u64_shl_is_mul;
use vstd::prelude::*;

use crate::bits::{zigzag, zigzag_value};
use crate::error::Error;
use crate::source::ByteSource;

verus! {

/// Reading a varint from byte `j` of `s` on, with `acc` holding the bits of the
/// bytes before: its value and the number of bytes it takes, or the error.
/// Each byte gives its 7 low bits, least significant group first; a byte whose
/// top bit is clear ends the varint; ten bytes without an end are out of spec.
pub open spec fn varint_from(s: Seq<u8>, j: nat, acc: u64, end: Error) -> Result<(u64, nat), Error>
    decreases 10 - j,
{
    if j >= 10 {
        Err(Error::OutOfSpec)
    } else if j >= s.len() {
        Err(end)
    } else {
        let acc2 = acc | (((s[j as int] & 0x7fu8) as u64) << ((7 * j) as u64));
        if s[j as int] < 0x80 {
            Ok((acc2, j + 1))
        } else {
            varint_from(s, j + 1, acc2, end)
        }
    }
}

/// A varint takes at least one byte, and no more than there are.
pub proof fn lemma_varint_length(s: Seq<u8>, j: nat, acc: u64, end: Error)
    ensures
        varint_from(s, j, acc, end) is Ok ==> j < varint_from(s, j, acc, end)->Ok_0.1 <= s.len(),
    decreases 10 - j,
{
    if j < 10 && j < s.len() {
        let acc2 = acc | (((s[j as int] & 0x7fu8) as u64) << ((7 * j) as u64));
        lemma_varint_length(s, j + 1, acc2, end);
    }
}

/// The unsigned varint at the start of `s`, and the number of bytes it takes;
/// `end` is the error of a read past the end of `s`.
pub open spec fn parse_unsigned_varint(s: Seq<u8>, end: Error) -> Result<(u64, nat), Error> {
    varint_from(s, 0, 0, end)
}

/// Reads an unsigned varint.
pub fn unsigned_varint<R: ByteSource>(reader: &mut R) -> (r: Result<u64, Error>)
    requires
        old(reader).wf(),
    ensures
        match parse_unsigned_varint(old(reader).rest(), old(reader).end_error()) {
            Ok((v, n)) => {
                &&& r == Ok::<u64, Error>(v)
                &&& final(reader).wf()
                &&& final(reader).rest() == old(reader).rest().skip(n as int)
                &&& final(reader).end_error() == old(reader).end_error()
            },
            Err(e) => r == Err::<u64, Error>(e),
        },
{
    let ghost s = reader.rest();
    let ghost end = reader.end_error();
    let mut value: u64 = 0;
    let mut j: usize = 0;
    loop
        invariant
            j <= 10,
            s == old(reader).rest(),
            end == old(reader).end_error(),
            reader.wf(),
            j <= s.len(),
            reader.rest() == s.skip(j as int),
            reader.end_error() == end,
            varint_from(s, j as nat, value, end) == parse_unsigned_varint(s, end),
        decreases 10 - j,
    {
        if j > 9 {
            return Err(Error::OutOfSpec);
        }
        let b = match reader.read_u8() {
            Ok(b) => b,
            Err(e) => {
                return Err(e);
            },
        };
        assert(b == s[j as int]);
        value = value | (((b & 0x7f) as u64) << ((7 * j) as u64));
        proof {
            assert(s.skip(j as int).drop_first() =~= s.skip(j as int + 1));
        }
        if b < 0x80 {
            return Ok(value);
        }
        j += 1;
    }
}

/// The signed varint at the start of `s`: an unsigned one, zigzag decoded.
pub open spec fn parse_signed_varint(s: Seq<u8>, end: Error) -> Result<(i64, nat), Error> {
    match parse_unsigned_varint(s, end) {
        Ok((v, n)) => Ok((zigzag_value(v) as i64, n)),
        Err(e) => Err(e),
    }
}

/// Reads a signed varint.
pub fn signed_varint<R: ByteSource>(reader: &mut R) -> (r: Result<i64, Error>)
    requires
        old(reader).wf(),
    ensures
        match parse_signed_varint(old(reader).rest(), old(reader).end_error()) {
            Ok((v, n)) => {
                &&& r == Ok::<i64, Error>(v)
                &&& final(reader).wf()
                &&& final(reader).rest() == old(reader).rest().skip(n as int)
                &&& final(reader).end_error() == old(reader).end_error()
            },
            Err(e) => r == Err::<i64, Error>(e),
        },
{
    match unsigned_varint(reader) {
        Ok(v) => Ok(zigzag(v)),
        Err(e) => Err(e),
    }
}

/// The unsigned varint of `v`: 7 bits per byte, least significant group first, the
/// top bit set on every byte but the last.
pub open spec fn encode_varint(v: u64) -> Seq<u8>
    decreases v,
{
    if v < 128 {
        seq![v as u8]
    } else {
        seq![((v % 128) + 128) as u8] + encode_varint(v / 128)
    }
}

proof fn lemma_encode_varint_len(v: u64, j: nat)
    requires
        (v as int) * pow2(7 * j) < pow2(64),
        j <= 9,
    ensures
        1 <= encode_varint(v).len() <= 10 - j,
    decreases v,
{
    lemma_pow2_pos(7 * j);
    if v >= 128 {
        lemma_pow2_adds(7 * j, 7);
        lemma2_to64();
        lemma2_to64_rest();
        assert(7 * j + 7 == 7 * (j + 1));
        lemma_fundamental_div_mod(v as int, 128);
        let q = v / 128;
        assert((q as int) * pow2(7 * (j + 1)) <= (v as int) * pow2(7 * j)) by (nonlinear_arith)
            requires
                v == 128 * q + v % 128,
                v % 128 >= 0,
                pow2(7 * (j + 1)) == pow2(7 * j) * 128,
                pow2(7 * j) > 0,
        ;
        if j == 9 {
            assert((v as int) * pow2(63) >= 128 * pow2(63)) by (nonlinear_arith)
                requires
                    v >= 128,
                    pow2(63) > 0,
            ;
        }
        lemma_encode_varint_len(q, j + 1);
    }
}

/// Reading the varint of `x` from byte `j` on, with `acc` holding the bits before,
/// gives the number that `acc` and `x` make together.
proof fn lemma_varint_from_encoded(s: Seq<u8>, j: nat, acc: u64, x: u64, end: Error)
    requires
        j <= 9,
        (acc as int) < pow2(7 * j),
        (acc as int) + (x as int) * pow2(7 * j) < pow2(64),
        j + encode_varint(x).len() <= s.len(),
        s.subrange(j as int, (j + encode_varint(x).len()) as int) == encode_varint(x),
    ensures
        varint_from(s, j, acc, end) == Ok::<(u64, nat), Error>(
            (((acc as int) + (x as int) * pow2(7 * j)) as u64, j + encode_varint(x).len()),
        ),
    decreases x,
{
    lemma2_to64();
    lemma2_to64_rest();
    lemma_pow2_pos(7 * j);
    let e = encode_varint(x);
    let b = s[j as int];
    assert(b == e[0]);
    let c = (b & 0x7fu8) as u64;
    let sh = (7 * j) as u64;
    let c_low = if x < 128 {
        x
    } else {
        x % 128
    };
    assert(c == c_low) by {
        if x < 128 {
            assert(b == x as u8);
            assert(b < 128);
            assert(b & 0x7fu8 == b) by (bit_vector)
                requires
                    b < 128,
            ;
        } else {
            let r = (x % 128) as u8;
            assert(b == r + 128);
            assert((r + 128) as u8 & 0x7fu8 == r) by (bit_vector)
                requires
                    r < 128,
            ;
        }
    }
    assert((c as int) * pow2(7 * j) <= (x as int) * pow2(7 * j)) by (nonlinear_arith)
        requires
            c <= x,
            pow2(7 * j) > 0,
    ;
    lemma_u64_shl_is_mul(c, sh);
    lemma_u64_shl_is_mul(1, sh);
    let p = 1u64 << sh;
    assert(acc | (c << sh) == acc + (c << sh)) by (bit_vector)
        requires
            acc < p,
            p == 1u64 << sh,
            sh < 64,
    ;
    let acc2 = acc | (c << sh);
    assert(acc2 as int == (acc as int) + (c as int) * pow2(7 * j));
    if x < 128 {
        assert(b < 0x80);
    } else {
        assert(b >= 0x80);
        let q = x / 128;
        lemma_fundamental_div_mod(x as int, 128);
        lemma_pow2_adds(7 * j, 7);
        assert(7 * j + 7 == 7 * (j + 1));
        assert((acc2 as int) + (q as int) * pow2(7 * (j + 1)) == (acc as int) + (x as int) * pow2(
            7 * j,
        )) by (nonlinear_arith)
            requires
                acc2 as int == (acc as int) + (c as int) * pow2(7 * j),
                x == 128 * q + c,
                pow2(7 * (j + 1)) == pow2(7 * j) * 128,
        ;
        assert((acc2 as int) < pow2(7 * (j + 1))) by (nonlinear_arith)
            requires
                acc2 as int == (acc as int) + (c as int) * pow2(7 * j),
                (acc as int) < pow2(7 * j),
                c <= 127,
                pow2(7 * (j + 1)) == pow2(7 * j) * 128,
        ;
        if j == 9 {
            assert((x as int) * pow2(63) >= 128 * pow2(63)) by (nonlinear_arith)
                requires
                    x >= 128,
                    pow2(63) > 0,
            ;
        }
        assert(e == seq![b] + encode_varint(q));
        let eq = encode_varint(q);
        assert forall|i: int| 0 <= i < eq.len() implies s[j + 1 + i] == eq[i] by {
            assert(s.subrange(j as int, (j + e.len()) as int)[1 + i] == s[j + 1 + i]);
            assert(e[1 + i] == eq[i]);
        }
        assert(s.subrange((j + 1) as int, (j + 1 + encode_varint(q).len()) as int) =~= encode_varint(q));
        lemma_varint_from_encoded(s, j + 1, acc2, q, end);
    }
}

/// Reading an encoded unsigned varint gives back its value, and takes exactly its
/// bytes, whatever follows them.
pub proof fn lemma_varint_round_trip(v: u64, rest: Seq<u8>, end: Error)
    ensures
        parse_unsigned_varint(encode_varint(v) + rest, end) == Ok::<(u64, nat), Error>(
            (v, encode_varint(v).len()),
        ),
        1 <= encode_varint(v).len() <= 10,
{
    lemma2_to64();
    lemma2_to64_rest();
    let s = encode_varint(v) + rest;
    assert(pow2(7 * 0nat) == 1);
    assert((v as int) * pow2(7 * 0nat) == v);
    lemma_encode_varint_len(v, 0);
    assert(s.subrange(0, encode_varint(v).len() as int) =~= encode_varint(v));
    lemma_varint_from_encoded(s, 0, 0, v, end);
}

} // verus!
