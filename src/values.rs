//! Length-prefixed values: each call takes the next `length` bytes of a stream.
use vstd::prelude::*;

use crate::error::Error;
use crate::source::{read_bytes, ByteSource};

verus! {

/// A reader of consecutive byte strings of given lengths, using a scratch region.
pub struct Values<R: ByteSource> {
    reader: R,
    scratch: Vec<u8>,
}

impl<R: ByteSource> Values<R> {
    /// The source the values are read from.
    pub closed spec fn source(&self) -> R {
        self.reader
    }

    /// A reader of the values of `reader`, using `scratch` for the bytes of each.
    pub fn new(reader: R, scratch: Vec<u8>) -> (r: Self)
        ensures
            r.source() == reader,
    {
        Values { reader, scratch }
    }

    /// Reads the next `length` bytes. Fails with the source's error where fewer remain.
    pub fn next(&mut self, length: usize) -> (r: Result<&[u8], Error>)
        requires
            old(self).source().wf(),
        ensures
            r is Ok <==> old(self).source().rest().len() >= length,
            r is Ok ==> {
                &&& r->Ok_0@ == old(self).source().rest().take(length as int)
                &&& final(self).source().wf()
                &&& final(self).source().rest() == old(self).source().rest().skip(length as int)
                &&& final(self).source().end_error() == old(self).source().end_error()
            },
            r is Err ==> r == Err::<&[u8], Error>(old(self).source().end_error()),
    {
        self.scratch.clear();
        match read_bytes(&mut self.reader, length, &mut self.scratch) {
            Ok(()) => {
                assert(self.scratch@ =~= old(self).source().rest().take(length as int));
                Ok(self.scratch.as_slice())
            },
            Err(e) => Err(e),
        }
    }

    /// Returns the scratch region, so it can be re-used.
    pub fn into_inner(self) -> Vec<u8> {
        self.scratch
    }
}

} // verus!
