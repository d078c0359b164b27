//! Contains [`Decompressor`], which turns a stream of ORC compression blocks into
//! one logical stream of bytes.
use vstd::prelude::*;

use crate::error::Error;
use crate::proto::CompressionKind;
use crate::source::ByteSource;

verus! {

/// What a raw DEFLATE body inflates to, or `None` where it is not a valid one.
pub uninterp spec fn inflated(body: Seq<u8>) -> Option<Seq<u8>>;

/// Relies on `flate2::read::DeflateDecoder` read to its end: it inflates a raw
/// DEFLATE body, appending the result to `out`, and fails on an invalid body. The
/// outcome depends on the bytes of `body` alone.
#[verifier::external_body]
fn inflate(body: &[u8], out: &mut Vec<u8>) -> (r: Result<(), Error>)
    ensures
        r is Ok <==> inflated(body@) is Some,
        r is Ok ==> final(out)@ == old(out)@ + inflated(body@)->Some_0,
{
    let mut decoder = flate2::read::DeflateDecoder::new(body);
    match std::io::Read::read_to_end(&mut decoder, out) {
        Ok(_) => Ok(()),
        Err(_) => Err(Error::Decompression),
    }
}

/// Whether the block whose 3-byte header starts `h` holds its body as is.
pub open spec fn header_is_original(h: Seq<u8>) -> bool {
    h[0] % 2 == 1
}

/// The body length announced by the 3-byte header that starts `h`: the
/// little-endian 24-bit number shifted right by one.
pub open spec fn header_length(h: Seq<u8>) -> nat {
    (h[0] as nat + 256 * (h[1] as nat) + 65536 * (h[2] as nat)) / 2
}

/// Decodes a compression block header into `(is_original, length)`.
pub fn decode_header(bytes: &[u8]) -> (r: (bool, usize))
    requires
        bytes@.len() >= 3,
    ensures
        r.0 == header_is_original(bytes@),
        r.1 as nat == header_length(bytes@),
{
    let value: u32 = bytes[0] as u32 + 256 * (bytes[1] as u32) + 65536 * (bytes[2] as u32);
    (bytes[0] % 2 == 1, (value / 2) as usize)
}

/// The first block of a non-empty stream `s` of compression `kind`: its logical
/// bytes and the number of bytes of `s` it takes, or the error it gives.
pub open spec fn first_block(kind: CompressionKind, s: Seq<u8>) -> Result<(Seq<u8>, int), Error> {
    match kind {
        CompressionKind::Uncompressed => Ok((s, s.len() as int)),
        CompressionKind::Zlib => {
            if s.len() < 3 {
                Err(Error::OutOfSpec)
            } else if s.len() < 3 + header_length(s) {
                Err(Error::OutOfSpec)
            } else {
                let end = 3 + header_length(s) as int;
                let body = s.subrange(3, end);
                if header_is_original(s) {
                    Ok((body, end))
                } else {
                    match inflated(body) {
                        Some(x) => Ok((x, end)),
                        None => Err(Error::Decompression),
                    }
                }
            }
        },
        _ => Err(Error::Decompression),
    }
}

/// The logical bytes of the stream `s`: its blocks' bytes concatenated, up to the
/// first block that is not well formed.
pub open spec fn logical_bytes(kind: CompressionKind, s: Seq<u8>) -> Seq<u8>
    decreases s.len(),
{
    if s.len() == 0 {
        seq![]
    } else {
        match first_block(kind, s) {
            Ok((b, n)) => if 0 < n <= s.len() {
                b + logical_bytes(kind, s.skip(n))
            } else {
                seq![]
            },
            Err(_) => seq![],
        }
    }
}

/// The error of the first block of `s` that is not well formed, if any.
pub open spec fn logical_failure(kind: CompressionKind, s: Seq<u8>) -> Option<Error>
    decreases s.len(),
{
    if s.len() == 0 {
        None
    } else {
        match first_block(kind, s) {
            Ok((b, n)) => if 0 < n <= s.len() {
                logical_failure(kind, s.skip(n))
            } else {
                None
            },
            Err(e) => Some(e),
        }
    }
}

/// The bytes of a block that was read.
enum State<'a> {
    Original(&'a [u8]),
    Compressed(Vec<u8>),
}

impl<'a> State<'a> {
    spec fn bytes(&self) -> Seq<u8> {
        match self {
            State::Original(x) => x@,
            State::Compressed(x) => x@,
        }
    }

    fn as_slice(&self) -> (r: &[u8])
        ensures
            r@ == self.bytes(),
    {
        match self {
            State::Original(x) => x,
            State::Compressed(x) => x.as_slice(),
        }
    }
}

/// The block-iterator view of a compressed stream: each [`DecompressorIter::advance`]
/// reads one block, whose logical bytes [`DecompressorIter::get`] then returns.
pub struct DecompressorIter<'a> {
    stream: &'a [u8],
    current: Option<State<'a>>,
    compression: CompressionKind,
    scratch: Vec<u8>,
}

impl<'a> DecompressorIter<'a> {
    /// The bytes of the stream not read yet.
    pub closed spec fn stream(&self) -> Seq<u8> {
        self.stream@
    }

    /// The compression of the stream.
    pub closed spec fn compression(&self) -> CompressionKind {
        self.compression
    }

    /// The logical bytes of the block last read, if any.
    pub closed spec fn block(&self) -> Option<Seq<u8>> {
        match self.current {
            Some(state) => Some(state.bytes()),
            None => None,
        }
    }

    /// An iterator over the blocks of `stream`, using `scratch` for inflated ones.
    pub fn new(stream: &'a [u8], compression: CompressionKind, scratch: Vec<u8>) -> (r: Self)
        ensures
            r.stream() == stream@,
            r.compression() == compression,
            r.block() is None,
    {
        DecompressorIter { stream, current: None, compression, scratch }
    }

    /// Returns the memory region used for inflated blocks, so it can be re-used.
    pub fn into_inner(self) -> Vec<u8> {
        match self.current {
            Some(State::Compressed(some)) => some,
            _ => self.scratch,
        }
    }

    /// Reads the next block. At the end of the stream there is no block left.
    pub fn advance(&mut self) -> (r: Result<(), Error>)
        ensures
            final(self).compression() == old(self).compression(),
            old(self).stream().len() == 0 ==> {
                &&& r is Ok
                &&& final(self).block() is None
                &&& final(self).stream().len() == 0
            },
            old(self).stream().len() > 0 ==> match first_block(
                old(self).compression(),
                old(self).stream(),
            ) {
                Ok((b, n)) => {
                    &&& r is Ok
                    &&& final(self).block() == Some(b)
                    &&& final(self).stream() == old(self).stream().skip(n)
                },
                Err(e) => {
                    &&& r == Err::<(), Error>(e)
                    &&& final(self).block() is None
                    &&& final(self).stream() == old(self).stream()
                },
            },
    {
        // take back the region of the previous inflated block, for re-use
        let previous = self.current.take();
        if let Some(State::Compressed(buffer)) = previous {
            self.scratch = buffer;
        }
        if self.stream.len() == 0 {
            return Ok(());
        }
        match self.compression {
            CompressionKind::Uncompressed => {
                self.current = Some(State::Original(self.stream));
                self.stream = &self.stream[self.stream.len()..self.stream.len()];
                assert(self.stream@ == old(self).stream@.skip(old(self).stream@.len() as int));
                Ok(())
            },
            CompressionKind::Zlib => {
                if self.stream.len() < 3 {
                    return Err(Error::OutOfSpec);
                }
                let (is_original, length) = decode_header(self.stream);
                if self.stream.len() - 3 < length {
                    return Err(Error::OutOfSpec);
                }
                let end = 3 + length;
                let body = &self.stream[3..end];
                if is_original {
                    self.current = Some(State::Original(body));
                } else {
                    let mut buffer = Vec::new();
                    std::mem::swap(&mut buffer, &mut self.scratch);
                    buffer.clear();
                    match inflate(body, &mut buffer) {
                        Ok(()) => {
                            assert(buffer@ == inflated(body@)->Some_0);
                            self.current = Some(State::Compressed(buffer));
                        },
                        Err(_) => {
                            self.scratch = buffer;
                            return Err(Error::Decompression);
                        },
                    }
                }
                self.stream = &self.stream[end..self.stream.len()];
                assert(self.stream@ == old(self).stream@.skip(end as int));
                Ok(())
            },
            _ => Err(Error::Decompression),
        }
    }

    /// Whether every block of the stream has been read.
    pub fn is_finished(&self) -> (r: bool)
        ensures
            r <==> self.stream().len() == 0,
    {
        self.stream.len() == 0
    }

    /// The logical bytes of the block last read.
    pub fn get(&self) -> (r: Option<&[u8]>)
        ensures
            match r {
                Some(x) => self.block() == Some(x@),
                None => self.block() is None,
            },
    {
        match &self.current {
            Some(state) => Some(state.as_slice()),
            None => None,
        }
    }
}

/// A reader of the logical bytes of a compressed stream: the bytes of its blocks,
/// concatenated, with blocks read as they are needed.
pub struct Decompressor<'a> {
    decompressor: DecompressorIter<'a>,
    offset: usize,
}

impl<'a> Decompressor<'a> {
    /// The bytes of the block last read that were not read yet.
    closed spec fn block_rest(&self) -> Seq<u8> {
        match self.decompressor.block() {
            Some(b) => b.skip(self.offset as int),
            None => seq![],
        }
    }

    /// The compression of the stream.
    pub closed spec fn compression(&self) -> CompressionKind {
        self.decompressor.compression()
    }

    /// Creates a new [`Decompressor`] that will use `scratch` as a temporary region.
    pub fn new(stream: &'a [u8], compression: CompressionKind, scratch: Vec<u8>) -> (r: Self)
        ensures
            r.wf(),
            r.compression() == compression,
            r.rest() == logical_bytes(compression, stream@),
            r.end_error() == stream_end_error(compression, stream@),
            r.failure() == logical_failure(compression, stream@),
    {
        Decompressor { decompressor: DecompressorIter::new(stream, compression, scratch), offset: 0 }
    }

    /// Returns the internal memory region, so it can be re-used.
    pub fn into_inner(self) -> Vec<u8> {
        self.decompressor.into_inner()
    }

    /// Reads every remaining logical byte, appending them to `out`. Fails with the
    /// error of the first block that is not well formed.
    pub fn read_to_end(&mut self, out: &mut Vec<u8>) -> (r: Result<(), Error>)
        requires
            old(self).wf(),
        ensures
            r is Ok <==> old(self).failure() is None,
            r is Ok ==> final(out)@ == old(out)@ + old(self).rest(),
            r is Err ==> Some(r->Err_0) == old(self).failure(),
    {
        loop
            invariant
                self.wf(),
                self.compression() == old(self).compression(),
                self.failure() == old(self).failure(),
                out@ + self.rest() == old(out)@ + old(self).rest(),
            decreases self.decompressor.stream().len(),
        {
            if let Some(block) = self.decompressor.get() {
                if self.offset < block.len() {
                    let tail = &block[self.offset..block.len()];
                    out.extend_from_slice(tail);
                    self.offset = block.len();
                    assert(out@ + self.rest() == old(out)@ + old(self).rest());
                }
            }
            if self.decompressor.is_finished() {
                assert(self.rest() =~= seq![]);
                return Ok(());
            }
            let ghost before = self.decompressor.stream();
            match self.decompressor.advance() {
                Ok(()) => {
                    self.offset = 0;
                },
                Err(e) => {
                    return Err(e);
                },
            }
        }
    }

    /// The error of the first block not read yet that is not well formed, if any.
    pub closed spec fn failure(&self) -> Option<Error> {
        logical_failure(self.decompressor.compression(), self.decompressor.stream())
    }
}

/// The error of a read past the logical bytes of `stream`: that of its first block
/// that is not well formed, or `OutOfSpec` at the end of a well formed stream.
pub open spec fn stream_end_error(kind: CompressionKind, stream: Seq<u8>) -> Error {
    match logical_failure(kind, stream) {
        Some(e) => e,
        None => Error::OutOfSpec,
    }
}

impl<'a> ByteSource for Decompressor<'a> {
    closed spec fn wf(&self) -> bool {
        match self.decompressor.block() {
            Some(b) => self.offset <= b.len(),
            None => true,
        }
    }

    closed spec fn rest(&self) -> Seq<u8> {
        self.block_rest() + logical_bytes(
            self.decompressor.compression(),
            self.decompressor.stream(),
        )
    }

    closed spec fn end_error(&self) -> Error {
        stream_end_error(self.decompressor.compression(), self.decompressor.stream())
    }

    fn read_u8(&mut self) -> (r: Result<u8, Error>) {
        loop
            invariant
                self.wf(),
                self.rest() == old(self).rest(),
                self.end_error() == old(self).end_error(),
            decreases self.decompressor.stream().len(),
        {
            if let Some(block) = self.decompressor.get() {
                if self.offset < block.len() {
                    let b = block[self.offset];
                    self.offset = self.offset + 1;
                    proof {
                        let bl = self.decompressor.block()->Some_0;
                        assert(bl.skip(self.offset - 1).drop_first() =~= bl.skip(self.offset as int));
                        assert(self.rest() =~= old(self).rest().drop_first());
                    }
                    return Ok(b);
                }
            }
            assert(self.block_rest() =~= seq![]);
            if self.decompressor.is_finished() {
                return Err(Error::OutOfSpec);
            }
            match self.decompressor.advance() {
                Ok(()) => {
                    self.offset = 0;
                    assert(self.block_rest() =~= self.decompressor.block()->Some_0);
                },
                Err(e) => {
                    return Err(e);
                },
            }
        }
    }
}

/// Decompresses a whole region of compression `kind`, such as a footer.
pub fn decompress(bytes: &[u8], compression: CompressionKind) -> (r: Result<Vec<u8>, Error>)
    ensures
        r is Ok <==> logical_failure(compression, bytes@) is None,
        r is Ok ==> r->Ok_0@ == logical_bytes(compression, bytes@),
        r is Err ==> Some(r->Err_0) == logical_failure(compression, bytes@),
{
    let mut reader = Decompressor::new(bytes, compression, Vec::new());
    let mut out: Vec<u8> = Vec::new();
    match reader.read_to_end(&mut out) {
        Ok(()) => {
            assert(out@ =~= logical_bytes(compression, bytes@));
            Ok(out)
        },
        Err(e) => Err(e),
    }
}

/// The 3-byte header of a block that holds its `n` bytes as they are: the
/// little-endian 24-bit number `2n + 1`.
pub open spec fn original_header(n: nat) -> Seq<u8> {
    let v = 2 * n + 1;
    seq![(v % 256) as u8, ((v / 256) % 256) as u8, ((v / 65536) % 256) as u8]
}

/// A stream of compression `kind` whose logical bytes are `data`: the bytes
/// themselves without compression, else one block that holds them as they are.
pub open spec fn compressed(kind: CompressionKind, data: Seq<u8>) -> Seq<u8> {
    match kind {
        CompressionKind::Uncompressed => data,
        _ => original_header(data.len()) + data,
    }
}

/// Decompressing what `compressed` makes of `data` gives `data` back, without error,
/// for both supported compressions (a block holds less than `2^23` bytes).
pub proof fn lemma_decompress_compressed(kind: CompressionKind, data: Seq<u8>)
    requires
        kind == CompressionKind::Uncompressed || kind == CompressionKind::Zlib,
        data.len() < 0x80_0000,
    ensures
        logical_bytes(kind, compressed(kind, data)) == data,
        logical_failure(kind, compressed(kind, data)) is None,
{
    let s = compressed(kind, data);
    let empty = Seq::<u8>::empty();
    assert(logical_bytes(kind, empty) == empty);
    assert(logical_failure(kind, empty) is None);
    if kind == CompressionKind::Zlib {
        let n = data.len();
        let v = 2 * n + 1;
        let h = original_header(n);
        assert(v == (v % 256) + 256 * ((v / 256) % 256) + 65536 * ((v / 65536) % 256)) by (nonlinear_arith)
            requires
                0 <= v < 0x100_0000,
        ;
        assert(s[0] == h[0] && s[1] == h[1] && s[2] == h[2]);
        assert(header_length(s) == n);
        assert(header_is_original(s));
        assert(s.subrange(3, 3 + n as int) =~= data);
        assert(s.skip(3 + n as int) =~= seq![]);
        if n == 0 {
            assert(data =~= seq![]);
        }
        assert(first_block(kind, s) == Ok::<(Seq<u8>, int), Error>((data, 3 + n as int)));
        assert(logical_bytes(kind, s) == data + logical_bytes(kind, s.skip(3 + n as int)));
        assert(data + empty =~= data);
    } else {
        if data.len() > 0 {
            assert(s.skip(s.len() as int) =~= empty);
            assert(data + empty =~= data);
        }
    }
}

} // verus!
