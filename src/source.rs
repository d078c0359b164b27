//! Sources of bytes that the decoders pull from.
use vstd::prelude::*;

use crate::error::Error;

verus! {

/// A pull-based source of bytes.
///
/// Its model is the sequence of bytes that can still be read, `rest`, and the
/// error that a read returns once `rest` is exhausted.
pub trait ByteSource {
    /// Whether the source's internal state is consistent.
    spec fn wf(&self) -> bool;

    /// The bytes that can still be read, in order.
    spec fn rest(&self) -> Seq<u8>;

    /// The error returned by a read past the end of `rest`.
    spec fn end_error(&self) -> Error;

    /// Reads the next byte.
    fn read_u8(&mut self) -> (r: Result<u8, Error>)
        requires
            old(self).wf(),
        ensures
            old(self).rest().len() > 0 ==> {
                &&& r == Ok::<u8, Error>(old(self).rest()[0])
                &&& final(self).wf()
                &&& final(self).rest() == old(self).rest().drop_first()
                &&& final(self).end_error() == old(self).end_error()
            },
            old(self).rest().len() == 0 ==> r == Err::<u8, Error>(old(self).end_error()),
    ;
}

/// Reads `n` bytes from `reader` and appends them to `out`.
pub fn read_bytes<R: ByteSource>(reader: &mut R, n: usize, out: &mut Vec<u8>) -> (r: Result<(), Error>)
    requires
        old(reader).wf(),
    ensures
        r is Ok <==> old(reader).rest().len() >= n,
        r is Ok ==> {
            &&& final(out)@ == old(out)@ + old(reader).rest().take(n as int)
            &&& final(reader).wf()
            &&& final(reader).rest() == old(reader).rest().skip(n as int)
            &&& final(reader).end_error() == old(reader).end_error()
        },
        r is Err ==> r == Err::<(), Error>(old(reader).end_error()),
{
    let ghost start = reader.rest();
    let ghost out0 = out@;
    let mut i: usize = 0;
    while i < n
        invariant
            i <= n,
            start == old(reader).rest(),
            out0 == old(out)@,
            i <= start.len(),
            reader.wf(),
            reader.rest() == start.skip(i as int),
            reader.end_error() == old(reader).end_error(),
            out@ == out0 + start.take(i as int),
        decreases n - i,
    {
        match reader.read_u8() {
            Ok(b) => {
                out.push(b);
                proof {
                    assert(start.take(i as int + 1) == start.take(i as int).push(b));
                    assert(start.skip(i as int).drop_first() == start.skip(i as int + 1));
                }
                i += 1;
            },
            Err(e) => {
                return Err(e);
            },
        }
    }
    Ok(())
}

/// A [`ByteSource`] over a slice in memory.
pub struct SliceReader<'a> {
    data: &'a [u8],
    position: usize,
}

impl<'a> SliceReader<'a> {
    /// The bytes of the slice not read yet.
    pub closed spec fn remaining(&self) -> Seq<u8> {
        self.data@.subrange(self.position as int, self.data@.len() as int)
    }

    /// A reader positioned at the start of `data`.
    pub fn new(data: &'a [u8]) -> (r: Self)
        ensures
            r.wf(),
            r.rest() == data@,
            r.end_error() == Error::OutOfSpec,
    {
        let r = SliceReader { data, position: 0 };
        assert(r.rest() == data@);
        r
    }

    /// The number of bytes not read yet.
    pub fn len(&self) -> (r: usize)
        requires
            self.wf(),
        ensures
            r == self.rest().len(),
    {
        self.data.len() - self.position
    }

    /// Whether every byte has been read.
    pub fn is_empty(&self) -> (r: bool)
        requires
            self.wf(),
        ensures
            r <==> self.rest().len() == 0,
    {
        self.position == self.data.len()
    }
}

impl<'a> ByteSource for SliceReader<'a> {
    closed spec fn wf(&self) -> bool {
        self.position <= self.data@.len()
    }

    closed spec fn rest(&self) -> Seq<u8> {
        self.remaining()
    }

    open spec fn end_error(&self) -> Error {
        Error::OutOfSpec
    }

    fn read_u8(&mut self) -> (r: Result<u8, Error>) {
        if self.position < self.data.len() {
            let b = self.data[self.position];
            self.position = self.position + 1;
            assert(self.rest() == old(self).rest().drop_first());
            Ok(b)
        } else {
            Err(Error::OutOfSpec)
        }
    }
}

} // verus!
