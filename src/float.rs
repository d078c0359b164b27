//! Fixed-width floating point values, read as the little-endian bit patterns that
//! `f32::from_bits` and `f64::from_bits` take.
use vstd::arithmetic::power2::{lemma2_to64, lemma2_to64_rest, lemma_pow2_adds, pow2};
use vstd::prelude::*;

use crate::error::Error;
use crate::source::{read_bytes, ByteSource};

verus! {

/// The width of the floats of a stream.
#[derive(Debug, Clone, Copy, PartialEq, Eq, Structural)]
pub enum FloatWidth {
    /// 4 bytes, `f32`
    Single,
    /// 8 bytes, `f64`
    Double,
}

/// The number of bytes of a float of width `w`.
pub open spec fn width_bytes(w: FloatWidth) -> nat {
    match w {
        FloatWidth::Single => 4,
        FloatWidth::Double => 8,
    }
}

/// The number written by the bytes `b`, least significant first.
pub open spec fn le_value(b: Seq<u8>) -> nat
    decreases b.len(),
{
    if b.len() == 0 {
        0
    } else {
        b[0] as nat + 256 * le_value(b.drop_first())
    }
}

proof fn lemma_le_value_bound(b: Seq<u8>)
    ensures
        le_value(b) < pow2(8 * b.len()),
    decreases b.len(),
{
    lemma2_to64();
    if b.len() > 0 {
        lemma_le_value_bound(b.drop_first());
        lemma_pow2_adds(8, 8 * (b.len() - 1) as nat);
        assert(8 + 8 * (b.len() - 1) as nat == 8 * b.len());
    }
}

/// The floats that reading `n` of width `w` from `s` yields, as bit patterns, and
/// the error that follows them when `s` holds fewer than `n`.
pub open spec fn float_outcome(s: Seq<u8>, w: FloatWidth, n: nat) -> (Seq<u64>, Option<Error>) {
    let size = width_bytes(w);
    let k = if n <= s.len() / size {
        n
    } else {
        s.len() / size
    };
    (
        Seq::new(k, |i: int| le_value(s.subrange(i * size, i * size + size)) as u64),
        if k < n {
            Some(Error::DecodeFloat)
        } else {
            None
        },
    )
}

/// A reader of `length` floats.
pub struct FloatIter<R: ByteSource> {
    reader: R,
    remaining: usize,
    width: FloatWidth,
    buffer: Vec<u8>,
}

impl<R: ByteSource> FloatIter<R> {
    /// Whether the reader's state is consistent.
    pub closed spec fn wf(&self) -> bool {
        self.remaining > 0 ==> self.reader.wf()
    }

    /// The floats still to be yielded, and the error that follows them, if any.
    pub closed spec fn outcome(&self) -> (Seq<u64>, Option<Error>) {
        float_outcome(self.reader.rest(), self.width, self.remaining as nat)
    }

    /// The number of floats still to be yielded, if no error comes first.
    pub closed spec fn remaining(&self) -> nat {
        self.remaining as nat
    }

    /// A reader of `length` floats of width `width` from `reader`.
    pub fn new(reader: R, length: usize, width: FloatWidth) -> (r: Self)
        requires
            reader.wf(),
        ensures
            r.wf(),
            r.remaining() == length,
            r.outcome() == float_outcome(reader.rest(), width, length as nat),
    {
        FloatIter { reader, remaining: length, width, buffer: Vec::new() }
    }

    /// The number of floats still to be yielded, if no error comes first.
    pub fn len(&self) -> (r: usize)
        ensures
            r == self.remaining(),
    {
        self.remaining
    }

    /// Whether nothing is left to be yielded.
    pub fn is_empty(&self) -> (r: bool)
        ensures
            r <==> self.remaining() == 0,
    {
        self.remaining == 0
    }

    /// Yields the bit pattern of the next float, or `DecodeFloat` where fewer bytes
    /// than a float remain. After an error there is nothing left.
    pub fn next(&mut self) -> (r: Option<Result<u64, Error>>)
        requires
            old(self).wf(),
        ensures
            final(self).wf(),
            old(self).outcome().0.len() > 0 ==> {
                &&& r == Some(Ok::<u64, Error>(old(self).outcome().0[0]))
                &&& final(self).outcome() == (old(self).outcome().0.drop_first(), old(self).outcome().1)
            },
            old(self).outcome().0.len() == 0 ==> match old(self).outcome().1 {
                Some(e) => r == Some(Err::<u64, Error>(e)) && final(self).outcome() == (
                    Seq::<u64>::empty(),
                    None::<Error>,
                ),
                None => r is None,
            },
    {
        if self.remaining == 0 {
            return None;
        }
        let size: usize = match self.width {
            FloatWidth::Single => 4,
            FloatWidth::Double => 8,
        };
        let ghost s = self.reader.rest();
        let ghost n = self.remaining as nat;
        self.buffer.clear();
        if read_bytes(&mut self.reader, size, &mut self.buffer).is_err() {
            self.remaining = 0;
            assert(self.outcome().0 =~= Seq::<u64>::empty());
            return Some(Err(Error::DecodeFloat));
        }
        let mut value: u64 = 0;
        let mut i: usize = size;
        while i > 0
            invariant
                i <= size <= 8,
                self.buffer@.len() == size,
                value as nat == le_value(self.buffer@.skip(i as int)),
            decreases i,
        {
            proof {
                let t = self.buffer@.skip(i as int - 1);
                assert(t.drop_first() =~= self.buffer@.skip(i as int));
                lemma_le_value_bound(t);
                lemma2_to64();
                lemma2_to64_rest();
                if t.len() < 8 {
                    vstd::arithmetic::power2::lemma_pow2_strictly_increases(8 * t.len(), 64);
                }
            }
            value = value * 256 + self.buffer[i - 1] as u64;
            i -= 1;
        }
        self.remaining = self.remaining - 1;
        proof {
            assert(self.buffer@.skip(0) =~= s.subrange(0, size as int));
            let w = self.width;
            assert forall|j: int| 0 <= j < self.outcome().0.len() implies #[trigger] self.outcome().0[j]
                == old(self).outcome().0[j + 1] by {
                assert((j + 1) * size == j * size + size) by (nonlinear_arith);
                assert(s.skip(size as int).subrange(j * size, j * size + size) =~= s.subrange(
                    (j + 1) * size,
                    (j + 1) * size + size,
                ));
            }
            let len = s.len() as int;
            let sz = size as int;
            assert((len - sz) / sz == len / sz - 1) by (nonlinear_arith)
                requires
                    len >= sz,
                    sz > 0,
            ;
            assert(self.outcome().0 =~= old(self).outcome().0.drop_first());
        }
        Some(Ok(value))
    }

    /// The source the floats are read from.
    pub closed spec fn source(&self) -> R {
        self.reader
    }

    /// Returns the source, so it can be re-used.
    pub fn into_inner(self) -> (r: R)
        ensures
            r == self.source(),
    {
        self.reader
    }
}

} // verus!
