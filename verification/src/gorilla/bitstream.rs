//! Bit-granular writer and reader over a byte buffer.

use crate::gorilla::bits::{bits_value, low_bits, low_mask, pack, unpack};
use crate::gorilla::bits::{lemma_low_bits_masked, lemma_unpack_pack, lemma_zero_bits};
use crate::gorilla::error::Error;
use crate::wire::{read_u32_le, write_u32_le};
use vstd::bytes::{spec_u32_from_le_bytes, spec_u32_to_le_bytes};
use vstd::prelude::*;

verus! {

/// A byte vector behind `bitstream_io::BitWriter` in little-endian bit order.
#[verifier::external_body]
pub struct BitSink {
    inner: bitstream_io::BitWriter<Vec<u8>, bitstream_io::LittleEndian>,
}

/// The bits that have been handed to a sink so far, oldest first.
pub uninterp spec fn sink_bits(w: BitSink) -> Seq<bool>;

/// `bitstream_io::BitWriter::endian` over an empty vector: nothing written yet.
#[verifier::external_body]
fn sink_new() -> (w: BitSink)
    ensures
        sink_bits(w) == Seq::<bool>::empty(),
{
    BitSink { inner: bitstream_io::BitWriter::endian(Vec::new(), bitstream_io::LittleEndian) }
}

/// `bitstream_io::BitWriter::write_bit`: one more bit at the end. The writer's only
/// failure is that of the byte stream under it, and a vector does not fail.
#[verifier::external_body]
fn sink_write_bit(w: &mut BitSink, bit: bool) -> (r: Result<(), std::io::Error>)
    ensures
        r is Ok,
        sink_bits(*final(w)) == sink_bits(*old(w)).push(bit),
{
    w.inner.write_bit(bit)
}

/// `bitstream_io::BitWriter::write` for a `u64`: the `bits` lowest bits of `value`
/// at the end, lowest first. It refuses more than 64 bits and a value that does
/// not fit in `bits` bits; otherwise its only failure is that of the byte stream
/// under it, and a vector does not fail.
#[verifier::external_body]
fn sink_write(w: &mut BitSink, bits: u32, value: u64) -> (r: Result<(), std::io::Error>)
    requires
        bits <= 64,
        value <= low_mask(bits as nat),
    ensures
        r is Ok,
        sink_bits(*final(w)) == sink_bits(*old(w)) + low_bits(value, bits as nat),
{
    w.inner.write(bits, value)
}

/// `bitstream_io::BitWriter::into_writer`: the whole bytes written, each holding
/// eight bits of the stream with the earliest in its lowest place; bits after
/// the last whole byte are dropped.
#[verifier::external_body]
fn sink_into_bytes(w: BitSink) -> (bytes: Vec<u8>)
    ensures
        bytes@ == pack(sink_bits(w)),
{
    w.inner.into_writer()
}

/// A byte vector behind `bitstream_io::BitReader` in little-endian bit order.
#[verifier::external_body]
pub struct BitSource {
    inner: bitstream_io::BitReader<std::io::Cursor<Vec<u8>>, bitstream_io::LittleEndian>,
}

/// The bits that a source has not handed out yet, next first.
pub uninterp spec fn source_bits(r: BitSource) -> Seq<bool>;

/// `bitstream_io::BitReader::endian` over a cursor at the start of `bytes`: every
/// bit of every byte is still to come, the lowest bit of each byte first.
#[verifier::external_body]
fn source_new(bytes: Vec<u8>) -> (r: BitSource)
    ensures
        source_bits(r) == unpack(bytes@),
{
    BitSource {
        inner: bitstream_io::BitReader::endian(std::io::Cursor::new(bytes), bitstream_io::LittleEndian),
    }
}

/// `bitstream_io::BitReader::read_bit`: takes the next bit, or fails where the
/// bytes are used up.
#[verifier::external_body]
fn source_read_bit(r: &mut BitSource) -> (res: Result<bool, std::io::Error>)
    ensures
        source_bits(*old(r)).len() >= 1 ==> res is Ok && res->Ok_0 == source_bits(*old(r))[0]
            && source_bits(*final(r)) == source_bits(*old(r)).skip(1),
        source_bits(*old(r)).len() < 1 ==> res is Err,
{
    r.inner.read_bit()
}

/// `bitstream_io::BitReader::read` for a `u64`: takes the next `bits` bits as a
/// number, the first as its lowest bit, or fails where fewer bits are left.
#[verifier::external_body]
fn source_read(r: &mut BitSource, bits: u32) -> (res: Result<u64, std::io::Error>)
    requires
        bits <= 64,
    ensures
        source_bits(*old(r)).len() >= bits ==> res is Ok && res->Ok_0 == bits_value(
            source_bits(*old(r)).subrange(0, bits as int),
        ) && source_bits(*final(r)) == source_bits(*old(r)).skip(bits as int),
        source_bits(*old(r)).len() < bits ==> res is Err,
{
    r.inner.read::<u64>(bits)
}

/// `bits` followed by as many zero bits as fill its last byte.
pub open spec fn byte_aligned(bits: Seq<bool>) -> Seq<bool> {
    bits + Seq::new(((8 - bits.len() % 8) % 8) as nat, |i: int| false)
}

/// What a reader of a stream of `bits`, closed by its writer, holds at first.
pub open spec fn fresh_reader(bits: Seq<bool>) -> ReaderView {
    ReaderView { length: bits.len(), cursor: 0, rest: byte_aligned(bits) }
}

/// A finished bit stream: a length in bits and the bytes that hold them.
#[derive(Debug)]
pub struct BitStream {
    n: usize,
    bitstream: Vec<u8>,
}

impl Clone for BitStream {
    fn clone(&self) -> (copy: Self)
        ensures
            copy.bit_length() == self.bit_length(),
            copy.bytes() == self.bytes(),
    {
        BitStream { n: self.n, bitstream: self.bitstream.clone() }
    }
}

impl BitStream {
    /// The number of bits that count.
    pub closed spec fn bit_length(&self) -> nat {
        self.n as nat
    }

    /// The bytes that hold the bits, padding included.
    pub closed spec fn bytes(&self) -> Seq<u8> {
        self.bitstream@
    }

    /// What a reader of this stream holds at first.
    pub open spec fn opened(&self) -> ReaderView {
        ReaderView { length: self.bit_length(), cursor: 0, rest: unpack(self.bytes()) }
    }

    /// The stream on the wire: its length in bits as four little-endian bytes, then its bytes.
    pub open spec fn wire(&self) -> Seq<u8> {
        spec_u32_to_le_bytes(self.bit_length() as u32) + self.bytes()
    }

    /// The number of bits that count.
    pub fn length(&self) -> (n: usize)
        ensures
            n == self.bit_length(),
    {
        self.n
    }

    /// The wire form of the stream.
    pub fn to_string(&self) -> (out: Vec<u8>)
        requires
            self.bit_length() <= u32::MAX,
        ensures
            out@ == self.wire(),
    {
        let mut buf: Vec<u8> = Vec::new();
        let _ = write_u32_le(&mut buf, self.n as u32);
        let mut i: usize = 0;
        while i < self.bitstream.len()
            invariant
                i <= self.bitstream@.len(),
                buf@ == spec_u32_to_le_bytes(self.n as u32) + self.bitstream@.subrange(0, i as int),
            decreases self.bitstream@.len() - i,
        {
            buf.push(self.bitstream[i]);
            i += 1;
            assert(self.bitstream@.subrange(0, i as int) == self.bitstream@.subrange(0, i - 1).push(
                self.bitstream@[i - 1],
            ));
        }
        assert(self.bitstream@.subrange(0, i as int) == self.bitstream@);
        buf
    }

    /// Reads a stream back from its wire form.
    pub fn new(block: &[u8]) -> (stream: Self)
        requires
            block@.len() >= 4,
        ensures
            stream.bit_length() == spec_u32_from_le_bytes(block@.subrange(0, 4)),
            stream.bytes() == block@.subrange(4, block@.len() as int),
    {
        // the four bytes of the length are there, so reading them does not fail
        let n: usize = match read_u32_le(block, 0) {
            Ok(v) => v as usize,
            Err(_) => 0,
        };
        let mut bytes: Vec<u8> = Vec::new();
        let mut i: usize = 4;
        while i < block.len()
            invariant
                4 <= i <= block@.len(),
                bytes@ == block@.subrange(4, i as int),
            decreases block@.len() - i,
        {
            bytes.push(block[i]);
            i += 1;
            assert(block@.subrange(4, i as int) == block@.subrange(4, i - 1).push(block@[i - 1]));
        }
        BitStream { n, bitstream: bytes }
    }
}

/// Collects bits, to be closed into a `BitStream`.
pub struct BitWriter {
    n: usize,
    bitstream: BitSink,
}

impl BitWriter {
    /// The count of bits agrees with the bits written.
    pub closed spec fn wf(&self) -> bool {
        self.n == sink_bits(self.bitstream).len()
    }

    /// The bits written so far, oldest first.
    pub closed spec fn view(&self) -> Seq<bool> {
        sink_bits(self.bitstream)
    }

    pub fn new() -> (w: Self)
        ensures
            w.wf(),
            w@ == Seq::<bool>::empty(),
    {
        BitWriter { n: 0, bitstream: sink_new() }
    }

    /// Appends one bit.
    pub fn write_bit(&mut self, bit: bool) -> (r: Result<(), Error>)
        requires
            old(self).wf(),
            old(self)@.len() < usize::MAX,
        ensures
            r is Ok,
            final(self).wf(),
            final(self)@ == old(self)@.push(bit),
    {
        match sink_write_bit(&mut self.bitstream, bit) {
            Ok(()) => {},
            Err(e) => {
                return Err(Error::BitStreamIOError(e));
            },
        }
        self.n += 1;
        Ok(())
    }

    /// Appends the `nbits` lowest bits of `val`, lowest first; higher bits of `val` are ignored.
    pub fn write(&mut self, nbits: u32, val: u64) -> (r: Result<(), Error>)
        requires
            old(self).wf(),
            nbits <= 64,
            old(self)@.len() + nbits <= usize::MAX,
        ensures
            r is Ok,
            final(self).wf(),
            final(self)@ == old(self)@ + low_bits(val, nbits as nat),
    {
        proof {
            assert(nbits < 64 ==> (1u64 << nbits) >= 1) by (bit_vector);
        }
        let mask: u64 = if nbits < 64 {
            (1u64 << nbits) - 1
        } else {
            u64::MAX
        };
        proof {
            assert(val & mask <= mask) by (bit_vector);
            lemma_low_bits_masked(val, nbits as nat);
        }
        match sink_write(&mut self.bitstream, nbits, val & mask) {
            Ok(()) => {},
            Err(e) => {
                return Err(Error::BitStreamIOError(e));
            },
        }
        self.n += nbits as usize;
        Ok(())
    }

    /// The number of bits written so far.
    pub fn length(&self) -> (n: usize)
        requires
            self.wf(),
        ensures
            n == self@.len(),
    {
        self.n
    }

    /// Pads with zero bits to a whole byte and hands the stream over.
    pub fn close(self) -> (stream: BitStream)
        requires
            self.wf(),
        ensures
            stream.bit_length() == self@.len(),
            stream.bytes() == pack(byte_aligned(self@)),
            stream.opened() == fresh_reader(self@),
    {
        proof {
            lemma_unpack_pack(byte_aligned(self@));
        }
        let mut this = self;
        let fill_bits: usize = if this.n % 8 == 0 {
            0
        } else {
            8 - this.n % 8
        };
        proof {
            assert(0u64 <= low_mask(fill_bits as nat));
            lemma_zero_bits(fill_bits as nat);
            assert(low_bits(0, fill_bits as nat) =~= Seq::new(fill_bits as nat, |i: int| false));
        }
        let _ = sink_write(&mut this.bitstream, fill_bits as u32, 0);
        let n = this.n;
        let v = sink_into_bytes(this.bitstream);
        BitStream { n, bitstream: v }
    }
}

/// How a read of some bits from a reader would end.
pub enum ReadStatus {
    /// The bits are there.
    Ready,
    /// The read would pass the recorded length of the stream.
    PastEnd,
    /// The recorded length allows the read, but the bytes hold too few bits.
    Exhausted,
}

/// What a reader holds: the recorded length of its stream, how many bits it has
/// handed out, and the bits of the underlying bytes that are still to come.
pub struct ReaderView {
    pub length: nat,
    pub cursor: nat,
    pub rest: Seq<bool>,
}

impl ReaderView {
    pub open spec fn status(self, k: nat) -> ReadStatus {
        if self.cursor + k > self.length {
            ReadStatus::PastEnd
        } else if k > self.rest.len() {
            ReadStatus::Exhausted
        } else {
            ReadStatus::Ready
        }
    }

    /// The next `k` bits as a number, the first as its lowest bit.
    pub open spec fn peek(self, k: nat) -> u64 {
        bits_value(self.rest.subrange(0, k as int))
    }

    /// The reader after `k` bits have been taken.
    pub open spec fn advance(self, k: nat) -> ReaderView {
        ReaderView { length: self.length, cursor: self.cursor + k, rest: self.rest.skip(k as int) }
    }
}

/// Hands out the bits of a `BitStream` in order, up to its recorded length.
pub struct BitReader {
    n: usize,
    c: usize,
    bitstream: BitSource,
}

impl BitReader {
    pub closed spec fn view(&self) -> ReaderView {
        ReaderView { length: self.n as nat, cursor: self.c as nat, rest: source_bits(self.bitstream) }
    }

    pub fn new(stream: BitStream) -> (r: Self)
        ensures
            r@ == stream.opened(),
    {
        BitReader { n: stream.n, c: 0, bitstream: source_new(stream.bitstream) }
    }

    /// The recorded length of the stream in bits.
    pub fn length(&self) -> (n: usize)
        ensures
            n == self@.length,
    {
        self.n
    }

    /// The number of bits handed out so far.
    pub fn cursor(&self) -> (c: usize)
        ensures
            c == self@.cursor,
    {
        self.c
    }

    /// Takes the next bit.
    pub fn read_bit(&mut self) -> (r: Result<bool, Error>)
        ensures
            match old(self)@.status(1) {
                ReadStatus::Ready => r is Ok && r->Ok_0 == old(self)@.rest[0] && final(self)@ == old(self)@.advance(1),
                ReadStatus::PastEnd => r matches Err(Error::BitReaderError(_)) && final(self)@ == old(self)@,
                ReadStatus::Exhausted => r matches Err(Error::BitStreamIOError(_)) && final(self)@.length == old(self)@.length && final(self)@.cursor == old(self)@.cursor,
            },
    {
        if self.c < self.n {
            match source_read_bit(&mut self.bitstream) {
                Ok(x) => {
                    self.c += 1;
                    Ok(x)
                },
                Err(e) => Err(Error::BitStreamIOError(e)),
            }
        } else {
            Err(Error::BitReaderError("Exceeds bitstream contents"))
        }
    }

    /// Takes the next `n` bits as a number, the first as its lowest bit.
    pub fn read(&mut self, n: usize) -> (r: Result<u64, Error>)
        requires
            n <= 64,
        ensures
            match old(self)@.status(n as nat) {
                ReadStatus::Ready => r is Ok && r->Ok_0 == old(self)@.peek(n as nat) && final(self)@
                    == old(self)@.advance(n as nat),
                ReadStatus::PastEnd => r matches Err(Error::BitReaderError(_)) && final(self)@ == old(self)@,
                ReadStatus::Exhausted => r matches Err(Error::BitStreamIOError(_)) && final(self)@.length == old(self)@.length && final(self)@.cursor == old(self)@.cursor,
            },
    {
        if n <= self.n && self.c <= self.n - n {
            match source_read(&mut self.bitstream, n as u32) {
                Ok(x) => {
                    self.c += n;
                    Ok(x)
                },
                Err(e) => Err(Error::BitStreamIOError(e)),
            }
        } else {
            Err(Error::BitReaderError("Exceeds bitstream contents"))
        }
    }
}

} // verus!
