//! Writer of a block of single-valued samples.

use crate::gorilla::bits::low_bits;
use crate::gorilla::bitstream::{byte_aligned, fresh_reader, BitWriter};
use crate::gorilla::bits::pack;
use crate::gorilla::codec::{dod_bits, next_window, put_dod, put_xor, xor_bits};
use crate::gorilla::codec::{MAX_DELTA, MAX_TIME_BITS, MAX_VALUE_BITS};
use crate::gorilla::error::Error;
use crate::gorilla::{Entry, GorillaBlock, GorillaDateTime, Zeros};
use vstd::prelude::*;

verus! {

/// Whether a sample at `time` may follow one at `prev`: it is not older, and at
/// most `MAX_DELTA` seconds younger.
pub open spec fn may_follow(prev: i64, time: i64) -> bool {
    0 <= time - prev <= MAX_DELTA
}

/// The gap between a sample at `prev` and one at `time` that may follow it.
pub(crate) fn gap_between(prev: i64, time: i64) -> (r: Result<u32, Error>)
    ensures
        match r {
            Ok(delta) => may_follow(prev, time) && delta == time - prev,
            Err(e) => (time < prev && e is AppendOrderError) || (time - prev > MAX_DELTA && e
                is AppendDurationError),
        },
{
    let delta: i128 = time as i128 - prev as i128;
    if delta < 0 {
        Err(Error::AppendOrderError)
    } else if delta > 16384 {
        Err(Error::AppendDurationError)
    } else {
        Ok(delta as u32)
    }
}

/// What a writer of single-valued samples holds.
pub struct WriterState {
    pub header: i64,
    pub prev_ts: i64,
    pub prev_delta: u32,
    pub prev_value: u64,
    pub prev_zeros: Zeros,
    pub bits: Seq<bool>,
}

/// Compresses a series of single-valued samples into a block.
pub struct GorillaWriter {
    header: GorillaDateTime,
    prev_ts: GorillaDateTime,
    prev_delta: u32,
    prev_value: u64,
    prev_zeros: Zeros,
    pub body: BitWriter,
}

impl GorillaWriter {
    pub closed spec fn view(&self) -> WriterState {
        WriterState {
            header: self.header,
            prev_ts: self.prev_ts,
            prev_delta: self.prev_delta,
            prev_value: self.prev_value,
            prev_zeros: self.prev_zeros,
            bits: self.body@,
        }
    }

    pub closed spec fn wf(&self) -> bool {
        &&& self.body.wf()
        &&& self.prev_zeros.wf()
        &&& self.prev_delta <= MAX_DELTA
    }

    /// Whether `extra` more bits fit the counter of bits.
    pub open spec fn has_room(&self, extra: nat) -> bool {
        self@.bits.len() + extra <= usize::MAX
    }

    /// A writer of a block whose header timestamp is `header`.
    pub fn with_vec(header: GorillaDateTime) -> (w: Self)
        ensures
            w.wf(),
            w@ == (WriterState {
                header,
                prev_ts: header,
                prev_delta: 0,
                prev_value: 0,
                prev_zeros: Zeros::initial(),
                bits: low_bits(header as u64, 64),
            }),
    {
        let prev_zeros = Zeros { leading: 32u8, trailing: 32u8 };
        let mut block = GorillaWriter {
            header,
            prev_ts: header,
            prev_delta: 0,
            prev_value: 0,
            prev_zeros,
            body: BitWriter::new(),
        };
        let timestamp = header;
        let _ = block.body.write(64, #[verifier::truncate] (timestamp as u64));
        assert(block.body@ =~= low_bits(header as u64, 64));
        block
    }

    /// Ends the block.
    pub fn close(self) -> (block: GorillaBlock)
        requires
            self.wf(),
        ensures
            block.data.bit_length() == self@.bits.len(),
            block.data.bytes() == pack(byte_aligned(self@.bits)),
            block.data.opened() == fresh_reader(self@.bits),
    {
        GorillaBlock { data: self.body.close() }
    }

    fn validate_timestamp(&self, time: GorillaDateTime) -> (r: Result<u32, Error>)
        ensures
            match r {
                Ok(delta) => may_follow(self@.prev_ts, time) && delta == time - self@.prev_ts,
                Err(e) => (time < self@.prev_ts && e is AppendOrderError) || (time - self@.prev_ts
                    > MAX_DELTA && e is AppendDurationError),
            },
    {
        gap_between(self.prev_ts, time)
    }

    /// Writes the first sample of the block, before any other: its distance
    /// from the header timestamp in 14 bits, then its value in full.
    pub fn append_first(&mut self, entry: Entry) -> (r: Result<(), Error>)
        requires
            old(self).wf(),
            old(self)@.bits.len() == 64,
        ensures
            final(self).wf(),
            match r {
                Ok(()) => may_follow(old(self)@.prev_ts, entry.time) && final(self)@ == (WriterState {
                    prev_ts: entry.time,
                    prev_delta: (entry.time - old(self)@.prev_ts) as u32,
                    prev_value: entry.value,
                    bits: old(self)@.bits + low_bits((entry.time - old(self)@.prev_ts) as u64, 14)
                        + low_bits(entry.value, 64),
                    ..old(self)@
                }),
                Err(e) => final(self)@ == old(self)@ && ((entry.time < old(self)@.prev_ts && e
                    is AppendOrderError) || (entry.time - old(self)@.prev_ts > MAX_DELTA && e
                    is AppendDurationError)),
            },
    {
        let delta = self.validate_timestamp(entry.time)?;
        let val = entry.value;
        self.body.write(14, delta as u64)?;
        self.body.write(64, val)?;
        self.prev_value = entry.value;
        self.prev_ts = entry.time;
        self.prev_delta = delta;
        Ok(())
    }

    /// Writes one sample: its timestamp, then its value.
    pub fn append_entry(&mut self, entry: Entry) -> (r: Result<(), Error>)
        requires
            old(self).wf(),
            old(self).has_room((MAX_TIME_BITS + MAX_VALUE_BITS) as nat),
        ensures
            final(self).wf(),
            match r {
                Ok(()) => may_follow(old(self)@.prev_ts, entry.time) && final(self)@ == (WriterState {
                    prev_ts: entry.time,
                    prev_delta: (entry.time - old(self)@.prev_ts) as u32,
                    prev_value: entry.value,
                    prev_zeros: next_window(entry.value ^ old(self)@.prev_value, old(self)@.prev_zeros),
                    bits: old(self)@.bits + dod_bits(
                        entry.time - old(self)@.prev_ts - old(self)@.prev_delta,
                    ) + xor_bits(entry.value ^ old(self)@.prev_value, old(self)@.prev_zeros),
                    ..old(self)@
                }),
                Err(e) => final(self)@ == old(self)@ && ((entry.time < old(self)@.prev_ts && e
                    is AppendOrderError) || (entry.time - old(self)@.prev_ts > MAX_DELTA && e
                    is AppendDurationError)),
            },
    {
        self.append_time(entry.time)?;
        self.append_value(entry.value)?;
        Ok(())
    }

    /// Writes the value of a sample as the window of bits in which it differs
    /// from the value before it.
    pub fn append_value(&mut self, value: u64) -> (r: Result<(), Error>)
        requires
            old(self).wf(),
            old(self).has_room(MAX_VALUE_BITS as nat),
        ensures
            r is Ok,
            final(self).wf(),
            final(self)@ == (WriterState {
                prev_value: value,
                prev_zeros: next_window(value ^ old(self)@.prev_value, old(self)@.prev_zeros),
                bits: old(self)@.bits + xor_bits(value ^ old(self)@.prev_value, old(self)@.prev_zeros),
                ..old(self)@
            }),
    {
        let xored = value ^ self.prev_value;
        let window = put_xor(&mut self.body, xored, self.prev_zeros)?;
        self.prev_zeros = window;
        self.prev_value = value;
        Ok(())
    }

    /// Writes the timestamp of a sample as the change of its distance from the
    /// sample before it.
    pub fn append_time(&mut self, time: GorillaDateTime) -> (r: Result<(), Error>)
        requires
            old(self).wf(),
            old(self).has_room(MAX_TIME_BITS as nat),
        ensures
            final(self).wf(),
            match r {
                Ok(()) => may_follow(old(self)@.prev_ts, time) && final(self)@ == (WriterState {
                    prev_ts: time,
                    prev_delta: (time - old(self)@.prev_ts) as u32,
                    bits: old(self)@.bits + dod_bits(time - old(self)@.prev_ts - old(self)@.prev_delta),
                    ..old(self)@
                }),
                Err(e) => final(self)@ == old(self)@ && ((time < old(self)@.prev_ts && e
                    is AppendOrderError) || (time - old(self)@.prev_ts > MAX_DELTA && e
                    is AppendDurationError)),
            },
    {
        let delta = self.validate_timestamp(time)?;
        let delta_of_delta: i32 = delta as i32 - self.prev_delta as i32;
        self.prev_delta = delta;
        self.prev_ts = time;
        put_dod(&mut self.body, delta_of_delta)?;
        Ok(())
    }
}

} // verus!
