//! Boolean run-length encoding (RLE v1 over bytes, then bits most significant first).
use vstd::prelude::*;

use crate::bits::bit_at;
use crate::error::Error;
use crate::source::{read_bytes, ByteSource, SliceReader};

verus! {

/// One run of the byte layer.
pub enum BooleanRun {
    /// A byte, repeated a number of times.
    Run(u8, u16),
    /// Bytes as they are.
    Literals(Vec<u8>),
}

impl View for BooleanRun {
    type V = Seq<u8>;

    /// The bytes the run stands for.
    open spec fn view(&self) -> Seq<u8> {
        match self {
            BooleanRun::Run(value, count) => Seq::new(*count as nat, |i: int| *value),
            BooleanRun::Literals(bytes) => bytes@,
        }
    }
}

/// The number of bytes a run header announces: read as a signed byte, a negative
/// header `h` announces `-h` literal bytes, any other `h + 3` repetitions.
pub open spec fn announced_bytes(header: u8) -> nat {
    if header >= 128 {
        (256 - header) as nat
    } else {
        header as nat + 3
    }
}

/// The run at the start of `s`: the bytes it stands for and the number of bytes of
/// `s` it takes.
pub open spec fn parse_boolean_run(s: Seq<u8>, end: Error) -> Result<(Seq<u8>, nat), Error> {
    if s.len() == 0 {
        Err(end)
    } else if s[0] >= 128 {
        let n = announced_bytes(s[0]);
        if s.len() < 1 + n {
            Err(Error::RleLiteralTooLarge)
        } else {
            Ok((s.subrange(1, 1 + n as int), 1 + n))
        }
    } else if s.len() < 2 {
        Err(end)
    } else {
        Ok((Seq::new(announced_bytes(s[0]), |i: int| s[1]), 2))
    }
}

/// The bits of `bytes`, most significant first within each byte.
pub open spec fn bits_of(bytes: Seq<u8>) -> Seq<bool> {
    Seq::new(8 * bytes.len(), |i: int| bit_at(bytes, i) == 1)
}

/// The booleans that decoding `n` values from the stream `s` yields, and the error
/// that follows them if fewer than `n` can be decoded.
pub open spec fn boolean_outcome(s: Seq<u8>, end: Error, n: nat) -> (Seq<bool>, Option<Error>)
    decreases n,
{
    if n == 0 {
        (seq![], None)
    } else {
        match parse_boolean_run(s, end) {
            Err(e) => (seq![], Some(e)),
            Ok((b, k)) => {
                let bits = bits_of(b);
                if bits.len() >= n || bits.len() == 0 {
                    (bits.take(n as int), None)
                } else {
                    let rest = boolean_outcome(s.skip(k as int), end, (n - bits.len()) as nat);
                    (bits + rest.0, rest.1)
                }
            },
        }
    }
}

/// The booleans still to be yielded after `prefix`, which is what remains of the
/// current run, when `n` values remain to be yielded in all.
pub open spec fn outcome_after(prefix: Seq<bool>, s: Seq<u8>, end: Error, n: nat) -> (Seq<bool>, Option<Error>) {
    if prefix.len() >= n {
        (prefix.take(n as int), None)
    } else {
        let rest = boolean_outcome(s, end, (n - prefix.len()) as nat);
        (prefix + rest.0, rest.1)
    }
}

/// Every run announces a number of bytes and stands for exactly that many, that is
/// eight booleans for each byte announced.
pub proof fn lemma_run_bit_count(s: Seq<u8>, end: Error)
    requires
        parse_boolean_run(s, end) is Ok,
    ensures
        bits_of(parse_boolean_run(s, end)->Ok_0.0).len() == 8 * announced_bytes(s[0]),
{
}

/// When decoding `n` booleans fails nowhere, exactly `n` booleans come out.
pub proof fn lemma_boolean_count(s: Seq<u8>, end: Error, n: nat)
    ensures
        boolean_outcome(s, end, n).1 is None ==> boolean_outcome(s, end, n).0.len() == n,
    decreases n,
{
    if n > 0 {
        if let Ok((b, k)) = parse_boolean_run(s, end) {
            let bits = bits_of(b);
            if bits.len() < n && bits.len() > 0 {
                lemma_boolean_count(s.skip(k as int), end, (n - bits.len()) as nat);
            }
            if bits.len() == 0 {
                assert(b.len() > 0);
            }
        }
    }
}

/// A reader of the runs of a boolean stream.
pub struct BooleanRleRunIter<R: ByteSource> {
    reader: R,
}

impl<R: ByteSource> BooleanRleRunIter<R> {
    /// The source the runs are read from.
    pub closed spec fn source(&self) -> R {
        self.reader
    }

    /// A reader of the runs of `reader`.
    pub fn new(reader: R) -> (r: Self)
        ensures
            r.source() == reader,
    {
        BooleanRleRunIter { reader }
    }

    /// Reads the next run.
    pub fn next(&mut self) -> (r: Result<BooleanRun, Error>)
        requires
            old(self).source().wf(),
        ensures
            match parse_boolean_run(old(self).source().rest(), old(self).source().end_error()) {
                Ok((bytes, n)) => {
                    &&& r is Ok
                    &&& r->Ok_0@ == bytes
                    &&& final(self).source().wf()
                    &&& final(self).source().rest() == old(self).source().rest().skip(n as int)
                    &&& final(self).source().end_error() == old(self).source().end_error()
                },
                Err(e) => r == Err::<BooleanRun, Error>(e),
            },
    {
        let ghost s = self.reader.rest();
        let header = match self.reader.read_u8() {
            Ok(b) => b,
            Err(e) => {
                return Err(e);
            },
        };
        if header >= 128 {
            read_literals(&mut self.reader, header)
        } else {
            let value = match self.reader.read_u8() {
                Ok(b) => b,
                Err(e) => {
                    return Err(e);
                },
            };
            let run = BooleanRun::Run(value, header as u16 + 3);
            assert(run@ =~= parse_boolean_run(s, old(self).source().end_error())->Ok_0.0);
            assert(s.drop_first().drop_first() =~= s.skip(2));
            Ok(run)
        }
    }

    /// Returns the source, so it can be re-used.
    pub fn into_inner(self) -> (r: R)
        ensures
            r == self.source(),
    {
        self.reader
    }
}

/// Reads the literal bytes that the negative header `header` announces.
fn read_literals<R: ByteSource>(reader: &mut R, header: u8) -> (r: Result<BooleanRun, Error>)
    requires
        old(reader).wf(),
        header >= 128,
    ensures
        old(reader).rest().len() >= announced_bytes(header) ==> {
            &&& r is Ok
            &&& r->Ok_0@ == old(reader).rest().take(announced_bytes(header) as int)
            &&& final(reader).wf()
            &&& final(reader).rest() == old(reader).rest().skip(announced_bytes(header) as int)
            &&& final(reader).end_error() == old(reader).end_error()
        },
        old(reader).rest().len() < announced_bytes(header) ==> r == Err::<BooleanRun, Error>(
            Error::RleLiteralTooLarge,
        ),
{
    let length = (256 - header as usize) as usize;
    let mut literals: Vec<u8> = Vec::new();
    match read_bytes(reader, length, &mut literals) {
        Ok(()) => Ok(BooleanRun::Literals(literals)),
        Err(_) => Err(Error::RleLiteralTooLarge),
    }
}

/// A reader of the booleans of a boolean stream held in memory.
pub type BooleanRleIter<'a> = BooleanIter<SliceReader<'a>>;

/// A reader of the booleans of a boolean stream, at most `length` of them.
pub struct BooleanIter<R: ByteSource> {
    iter: BooleanRleRunIter<R>,
    bytes: Vec<u8>,
    position: usize,
    remaining: usize,
}

impl<R: ByteSource> BooleanIter<R> {
    /// Whether the reader's state is consistent.
    pub closed spec fn wf(&self) -> bool {
        &&& self.remaining > 0 ==> self.iter.source().wf()
        &&& self.position <= 8 * self.bytes@.len()
        &&& self.bytes@.len() <= 256
    }

    /// The booleans still to be yielded, and the error that follows them, if any.
    pub closed spec fn outcome(&self) -> (Seq<bool>, Option<Error>) {
        outcome_after(
            bits_of(self.bytes@).skip(self.position as int),
            self.iter.source().rest(),
            self.iter.source().end_error(),
            self.remaining as nat,
        )
    }

    /// A reader of the first `length` booleans of `reader`.
    pub fn new(reader: R, length: usize) -> (r: Self)
        requires
            reader.wf(),
        ensures
            r.wf(),
            r.outcome() == boolean_outcome(reader.rest(), reader.end_error(), length as nat),
    {
        let r = BooleanIter { iter: BooleanRleRunIter::new(reader), bytes: Vec::new(), position: 0, remaining: length };
        assert(bits_of(r.bytes@).skip(0) =~= seq![]);
        assert(seq![] + boolean_outcome(reader.rest(), reader.end_error(), length as nat).0
            =~= boolean_outcome(reader.rest(), reader.end_error(), length as nat).0);
        r
    }

    /// The source the booleans are read from.
    pub closed spec fn source(&self) -> R {
        self.iter.source()
    }

    /// The number of booleans still to be yielded, if no error comes first.
    pub closed spec fn remaining(&self) -> nat {
        self.remaining as nat
    }

    /// The number of booleans still to be yielded, if no error comes first.
    pub fn len(&self) -> (r: usize)
        ensures
            r == self.remaining(),
    {
        self.remaining
    }

    /// Yields the next boolean, or the error that comes before it. After an error
    /// there is nothing left.
    pub fn next(&mut self) -> (r: Option<Result<bool, Error>>)
        requires
            old(self).wf(),
        ensures
            final(self).wf(),
            old(self).outcome().0.len() > 0 ==> {
                &&& r == Some(Ok::<bool, Error>(old(self).outcome().0[0]))
                &&& final(self).outcome() == (old(self).outcome().0.drop_first(), old(self).outcome().1)
            },
            old(self).outcome().0.len() == 0 ==> match old(self).outcome().1 {
                Some(e) => r == Some(Err::<bool, Error>(e)) && final(self).outcome() == (
                    Seq::<bool>::empty(),
                    None::<Error>,
                ),
                None => r is None,
            },
    {
        if self.remaining == 0 {
            assert(old(self).outcome().0 =~= seq![]);
            return None;
        }
        if self.position == 8 * self.bytes.len() {
            let ghost s = self.iter.source().rest();
            let ghost end = self.iter.source().end_error();
            proof {
                assert(bits_of(self.bytes@).skip(self.position as int) =~= seq![]);
                assert(seq![] + boolean_outcome(s, end, self.remaining as nat).0
                    =~= boolean_outcome(s, end, self.remaining as nat).0);
            }
            match self.iter.next() {
                Ok(run) => {
                    let bytes = match run {
                        BooleanRun::Run(value, count) => vec![value; count as usize],
                        BooleanRun::Literals(literals) => literals,
                    };
                    self.bytes = bytes;
                    self.position = 0;
                    proof {
                        let b = parse_boolean_run(s, end)->Ok_0.0;
                        assert(self.bytes@ =~= b);
                        assert(bits_of(self.bytes@).skip(0) =~= bits_of(b));
                    }
                },
                Err(e) => {
                    self.remaining = 0;
                    return Some(Err(e));
                },
            }
            if self.bytes.len() == 0 {
                self.remaining = 0;
                assert(old(self).outcome().0 =~= seq![]);
                return None;
            }
        }
        let ghost prefix = bits_of(self.bytes@).skip(self.position as int);
        let ghost before = self.outcome();
        let pos = self.position;
        let byte = self.bytes[pos / 8];
        let value = (byte >> ((7 - pos % 8) as u8)) & 1 == 1;
        assert(value == prefix[0]);
        self.position = pos + 1;
        self.remaining = self.remaining - 1;
        proof {
            assert(bits_of(self.bytes@).skip(self.position as int) =~= prefix.drop_first());
            if prefix.len() >= self.remaining + 1 {
                assert(prefix.drop_first().take(self.remaining as int) =~= prefix.take(
                    self.remaining + 1,
                ).drop_first());
            } else {
                let rest = boolean_outcome(
                    self.iter.source().rest(),
                    self.iter.source().end_error(),
                    (self.remaining + 1 - prefix.len()) as nat,
                );
                assert(prefix.drop_first() + rest.0 =~= (prefix + rest.0).drop_first());
            }
        }
        Some(Ok(value))
    }

    /// Returns the source, so it can be re-used.
    pub fn into_inner(self) -> (r: R)
        ensures
            r == self.source(),
    {
        self.iter.into_inner()
    }
}

} // verus!
