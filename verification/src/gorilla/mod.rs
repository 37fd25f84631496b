//! Delta-of-delta and XOR compression of timestamped samples.

pub mod api;
pub mod bits;
pub mod bitstream;
pub mod codec;
pub mod error;
pub mod laws;
pub mod reader;
pub mod reader_mv;
pub mod writer;
pub mod writer_mv;

pub use bitstream::{BitReader, BitStream, BitWriter};
pub use error::Error;
pub use reader::GorillaReader;
pub use reader_mv::GorillaReaderMV;
pub use writer::GorillaWriter;
pub use writer_mv::GorillaWriterMV;

use vstd::prelude::*;

verus! {

/// An instant, in whole seconds since the Unix epoch.
pub type GorillaDateTime = i64;

/// The Unix epoch.
pub const EPOCH: GorillaDateTime = 0;

/// The nominal span of one block, in seconds.
pub const BLOCK_DURATION: i64 = 7200;

/// The predictor window of a series: how many zero bits were assumed above and
/// below the bits that differ between two consecutive values.
#[derive(Clone, Copy, Debug, PartialEq, Eq, Structural)]
pub struct Zeros {
    pub leading: u8,
    pub trailing: u8,
}

/// A compressed block: the bits of a header timestamp and of the samples after it.
#[derive(Debug)]
pub struct GorillaBlock {
    pub data: BitStream,
}

impl Clone for GorillaBlock {
    fn clone(&self) -> (copy: Self)
        ensures
            copy.data.bit_length() == self.data.bit_length(),
            copy.data.bytes() == self.data.bytes(),
    {
        GorillaBlock { data: self.data.clone() }
    }
}

impl GorillaBlock {
    /// Reads a block back from its wire form.
    pub fn new(datastr: &[u8]) -> (block: Self)
        requires
            datastr@.len() >= 4,
        ensures
            block.data.bit_length() == vstd::bytes::spec_u32_from_le_bytes(datastr@.subrange(0, 4)),
            block.data.bytes() == datastr@.subrange(4, datastr@.len() as int),
    {
        Self { data: BitStream::new(datastr) }
    }

    /// The wire form of the block.
    pub fn to_string(&self) -> (out: Vec<u8>)
        requires
            self.data.bit_length() <= u32::MAX,
        ensures
            out@ == self.data.wire(),
    {
        self.data.to_string()
    }
}

/// One sample of a series of single values. The value is held as the bit
/// pattern of a 64-bit IEEE-754 number.
#[derive(Clone, Copy, Debug)]
pub struct Entry {
    pub time: GorillaDateTime,
    pub value: u64,
}

impl Entry {
    pub fn new(time: GorillaDateTime, value: u64) -> (e: Self)
        ensures
            e.time == time,
            e.value == value,
    {
        Entry { time, value }
    }
}

/// A sample as a mathematical value: its timestamp and its values.
pub struct Sample {
    pub time: i64,
    pub values: Seq<u64>,
}

/// One sample of a series of vectors of values. Each value is held as the bit
/// pattern of a 64-bit IEEE-754 number.
#[derive(Debug)]
pub struct MVEntry {
    pub time: GorillaDateTime,
    pub values: Vec<u64>,
}

impl View for MVEntry {
    type V = Sample;

    open spec fn view(&self) -> Sample {
        Sample { time: self.time, values: self.values@ }
    }
}

impl Clone for MVEntry {
    fn clone(&self) -> (e: Self)
        ensures
            e@ == self@,
    {
        MVEntry { time: self.time, values: self.values.clone() }
    }
}

impl MVEntry {
    pub fn new(time: GorillaDateTime, values: Vec<u64>) -> (e: Self)
        ensures
            e.time == time,
            e.values == values,
    {
        MVEntry { time, values }
    }

    pub fn time(&self) -> (t: GorillaDateTime)
        ensures
            t == self.time,
    {
        self.time
    }

    pub fn values(&self) -> (v: Vec<u64>)
        ensures
            v@ == self.values@,
    {
        self.values.clone()
    }
}

} // verus!
