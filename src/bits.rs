//! Bit unpacking of big-endian packed integers, and zigzag decoding.
use vstd::arithmetic::div_mod::{
    lemma_div_denominator, lemma_div_multiples_vanish_fancy, lemma_fundamental_div_mod,
};
use vstd::arithmetic::power2::{
    lemma2_to64, lemma2_to64_rest, lemma_pow2_pos, lemma_pow2_unfold, pow2,
};
use vstd::prelude::*;

verus! {

/// The bit at position `k` of `data`, where bit 0 is the most significant bit of
/// the first byte.
pub open spec fn bit_at(data: Seq<u8>, k: int) -> nat {
    ((data[k / 8] >> ((7 - k % 8) as u8)) & 1u8) as nat
}

/// The number written by the `w` bits of `data` that start at bit `start`, most
/// significant bit first.
pub open spec fn bits_value(data: Seq<u8>, start: int, w: nat) -> nat
    decreases w,
{
    if w == 0 {
        0
    } else {
        2 * bits_value(data, start, (w - 1) as nat) + bit_at(data, start + w - 1)
    }
}

/// The `index`-th value of `width` bits packed in `data`.
pub open spec fn unpacked(data: Seq<u8>, width: nat, index: int) -> nat {
    bits_value(data, index * width, width)
}

/// A number of `w` bits is below `2^w`.
pub proof fn lemma_bits_value_bound(data: Seq<u8>, start: int, w: nat)
    ensures
        bits_value(data, start, w) < pow2(w),
    decreases w,
{
    if w > 0 {
        lemma_bits_value_bound(data, start, (w - 1) as nat);
        lemma_pow2_unfold(w);
        assert(forall|x: u8, s: u8| (x >> s) & 1u8 <= 1u8) by (bit_vector);
    } else {
        lemma2_to64();
    }
}

/// Extracts the `index`-th value of `num_bits` bits from `bytes`, where values are
/// packed most significant bit first. A width of 0 gives 0.
pub fn unpack(bytes: &[u8], num_bits: u8, index: usize) -> (r: u64)
    requires
        num_bits <= 64,
        (index as int + 1) * (num_bits as int) <= 8 * bytes@.len(),
        (index as int + 1) * (num_bits as int) <= usize::MAX,
    ensures
        r as nat == unpacked(bytes@, num_bits as nat, index as int),
{
    let w = num_bits as usize;
    proof {
        assert((index as int) * (w as int) + (w as int) == (index as int + 1) * (w as int))
            by (nonlinear_arith);
    }
    let start = index * w;
    let mut value: u64 = 0;
    let mut k: usize = 0;
    while k < w
        invariant
            k <= w,
            w <= 64,
            w == num_bits as usize,
            start == index * w,
            start as int + w as int <= 8 * bytes@.len(),
            start as int + w as int <= usize::MAX,
            value as nat == bits_value(bytes@, start as int, k as nat),
        decreases w - k,
    {
        let pos = start + k;
        let byte = bytes[pos / 8];
        let bit = (byte >> ((7 - pos % 8) as u8)) & 1;
        proof {
            lemma_bits_value_bound(bytes@, start as int, k as nat);
            lemma2_to64_rest();
            if k < 63 {
                vstd::arithmetic::power2::lemma_pow2_strictly_increases(k as nat, 63);
            }
            assert(bit <= 1u8) by (bit_vector)
                requires
                    bit == (byte >> ((7 - pos % 8) as u8)) & 1u8,
            ;
            assert(value < 0x8000_0000_0000_0000u64);
        }
        value = value * 2 + bit as u64;
        k += 1;
    }
    value
}

/// Bit `k` of the packing of `values` at `w` bits each, most significant first:
/// bit `w - 1 - k % w` of value `k / w`; 0 past the last value.
pub open spec fn packed_bit(values: Seq<u64>, w: nat, k: int) -> u8 {
    if 0 <= k < values.len() * w {
        (((values[k / (w as int)] as nat) / pow2((w - 1 - k % (w as int)) as nat)) % 2) as u8
    } else {
        0
    }
}

/// Byte `b` of the packing of `values` at `w` bits each.
#[verifier::opaque]
pub open spec fn packed_byte(values: Seq<u64>, w: nat, b: int) -> u8 {
    (packed_bit(values, w, 8 * b) << 7u8) | (packed_bit(values, w, 8 * b + 1) << 6u8) | (
    packed_bit(values, w, 8 * b + 2) << 5u8) | (packed_bit(values, w, 8 * b + 3) << 4u8) | (
    packed_bit(values, w, 8 * b + 4) << 3u8) | (packed_bit(values, w, 8 * b + 5) << 2u8) | (
    packed_bit(values, w, 8 * b + 6) << 1u8) | packed_bit(values, w, 8 * b + 7)
}

/// `values` packed at `w` bits each, most significant bit first, the last byte
/// padded with zeros.
pub open spec fn pack(values: Seq<u64>, w: nat) -> Seq<u8> {
    Seq::new((values.len() * w + 7) / 8, |b: int| packed_byte(values, w, b))
}

proof fn lemma_byte_bits(x: u8, b0: u8, b1: u8, b2: u8, b3: u8, b4: u8, b5: u8, b6: u8, b7: u8)
    requires
        b0 <= 1 && b1 <= 1 && b2 <= 1 && b3 <= 1 && b4 <= 1 && b5 <= 1 && b6 <= 1 && b7 <= 1,
        x == (b0 << 7u8) | (b1 << 6u8) | (b2 << 5u8) | (b3 << 4u8) | (b4 << 3u8) | (b5 << 2u8) | (b6
            << 1u8) | b7,
    ensures
        (x >> 7u8) & 1u8 == b0,
        (x >> 6u8) & 1u8 == b1,
        (x >> 5u8) & 1u8 == b2,
        (x >> 4u8) & 1u8 == b3,
        (x >> 3u8) & 1u8 == b4,
        (x >> 2u8) & 1u8 == b5,
        (x >> 1u8) & 1u8 == b6,
        (x >> 0u8) & 1u8 == b7,
{
    assert((x >> 7u8) & 1u8 == b0 && (x >> 6u8) & 1u8 == b1 && (x >> 5u8) & 1u8 == b2 && (x >> 4u8)
        & 1u8 == b3) by (bit_vector)
        requires
            b0 <= 1 && b1 <= 1 && b2 <= 1 && b3 <= 1 && b4 <= 1 && b5 <= 1 && b6 <= 1 && b7 <= 1,
            x == (b0 << 7u8) | (b1 << 6u8) | (b2 << 5u8) | (b3 << 4u8) | (b4 << 3u8) | (b5 << 2u8)
                | (b6 << 1u8) | b7,
    ;
    assert((x >> 3u8) & 1u8 == b4 && (x >> 2u8) & 1u8 == b5 && (x >> 1u8) & 1u8 == b6 && (x >> 0u8)
        & 1u8 == b7) by (bit_vector)
        requires
            b0 <= 1 && b1 <= 1 && b2 <= 1 && b3 <= 1 && b4 <= 1 && b5 <= 1 && b6 <= 1 && b7 <= 1,
            x == (b0 << 7u8) | (b1 << 6u8) | (b2 << 5u8) | (b3 << 4u8) | (b4 << 3u8) | (b5 << 2u8)
                | (b6 << 1u8) | b7,
    ;
}

/// Each bit of a packing is the bit of the value it comes from.
proof fn lemma_pack_bit(values: Seq<u64>, w: nat, k: int)
    requires
        0 <= k < values.len() * w,
    ensures
        bit_at(pack(values, w), k) == packed_bit(values, w, k) as nat,
{
    let b = k / 8;
    let t = k % 8;
    reveal(packed_byte);
    assert(b < (values.len() * w + 7) / 8);
    assert forall|j: int| #[trigger] packed_bit(values, w, j) <= 1 by {
        if 0 <= j < values.len() * w {
            let x = (values[j / (w as int)] as nat) / pow2((w - 1 - j % (w as int)) as nat);
            assert(x % 2 <= 1);
        }
    }
    lemma_byte_bits(
        packed_byte(values, w, b),
        packed_bit(values, w, 8 * b),
        packed_bit(values, w, 8 * b + 1),
        packed_bit(values, w, 8 * b + 2),
        packed_bit(values, w, 8 * b + 3),
        packed_bit(values, w, 8 * b + 4),
        packed_bit(values, w, 8 * b + 5),
        packed_bit(values, w, 8 * b + 6),
        packed_bit(values, w, 8 * b + 7),
    );
    assert(k == 8 * b + t);
}

/// The first `m` of the `w` bits of `v` make `v / 2^(w - m)`.
proof fn lemma_bits_value_of(data: Seq<u8>, start: int, v: nat, w: nat, m: nat)
    requires
        m <= w,
        v < pow2(w),
        forall|k: int|
            start <= k < start + w ==> #[trigger] bit_at(data, k) == (v / pow2(
                (w - 1 - (k - start)) as nat,
            )) % 2,
    ensures
        bits_value(data, start, m) == v / pow2((w - m) as nat),
    decreases m,
{
    lemma_pow2_pos((w - m) as nat);
    if m == 0 {
        assert(v / pow2(w) == 0) by (nonlinear_arith)
            requires
                v < pow2(w),
        ;
    } else {
        lemma_bits_value_of(data, start, v, w, (m - 1) as nat);
        let e = (w - m) as nat;
        lemma_pow2_unfold(e + 1);
        lemma_pow2_pos(e);
        lemma_div_denominator(v as int, pow2(e) as int, 2);
        let x = v / pow2(e);
        assert(bit_at(data, start + (m - 1)) == x % 2);
        assert((e + 1) as nat == (w - (m - 1)) as nat);
        assert(pow2(e) * 2 == pow2(e + 1));
        lemma_fundamental_div_mod(x as int, 2);
    }
}

/// Unpacking the `i`-th value of `values` packed at `w` bits each gives it back,
/// when it fits in `w` bits.
pub proof fn lemma_unpack_pack(values: Seq<u64>, w: nat, i: int)
    requires
        w <= 64,
        0 <= i < values.len(),
        values[i] < pow2(w),
    ensures
        unpacked(pack(values, w), w, i) == values[i],
{
    let data = pack(values, w);
    let v = values[i] as nat;
    if w > 0 {
        assert forall|k: int| i * w <= k < i * w + w implies #[trigger] bit_at(data, k) == (v / pow2(
            (w - 1 - (k - i * w)) as nat,
        )) % 2 by {
            let j = k - i * w;
            assert(k < values.len() * w) by (nonlinear_arith)
                requires
                    k == i * w + j,
                    j < w,
                    i + 1 <= values.len(),
            ;
            lemma_div_multiples_vanish_fancy(i, j, w as int);
            assert(k / (w as int) == i) by {
                assert(k == (w as int) * i + j) by (nonlinear_arith)
                    requires
                        k == i * w + j,
                ;
            }
            lemma_fundamental_div_mod(k, w as int);
            assert(k % (w as int) == j) by (nonlinear_arith)
                requires
                    k == (w as int) * (k / (w as int)) + k % (w as int),
                    k / (w as int) == i,
                    k == i * w + j,
            ;
            lemma_pack_bit(values, w, k);
        }
        lemma_bits_value_of(data, i * w, v, w, w);
        assert(pow2(0) == 1) by {
            lemma2_to64();
        }
        assert(v / 1 == v);
        assert(bits_value(data, i * w, w) == v);
    } else {
        assert(pow2(0) == 1) by {
            lemma2_to64();
        }
    }
}

/// The signed integer that the zigzag encoding `z` stands for.
pub open spec fn zigzag_value(z: u64) -> int {
    if z % 2 == 0 {
        (z / 2) as int
    } else {
        -((z / 2) as int) - 1
    }
}

/// The zigzag encoding of `n`: non-negative values to even numbers, negative ones to odd.
pub open spec fn encode_zigzag(n: i64) -> u64 {
    if n >= 0 {
        (2 * n) as u64
    } else {
        (-2 * n - 1) as u64
    }
}

/// Decodes a zigzag-encoded integer: `(z >> 1) ^ -(z & 1)`.
pub fn zigzag(z: u64) -> (r: i64)
    ensures
        r as int == zigzag_value(z),
{
    let half = z >> 1;
    proof {
        assert(z >> 1 == z / 2) by (bit_vector);
        assert(z & 1 == z % 2) by (bit_vector);
    }
    if z & 1 == 0 {
        half as i64
    } else {
        -(half as i64) - 1
    }
}

/// Zigzag decoding undoes zigzag encoding, for every 64-bit pattern read as a signed integer.
pub proof fn lemma_zigzag_round_trip(z: u64)
    ensures
        zigzag_value(encode_zigzag(z as i64)) == (z as i64) as int,
{
}

} // verus!
