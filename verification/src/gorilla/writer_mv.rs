//! Writer of a block of samples that hold a vector of values each.

use crate::gorilla::bits::{low_bits, pack};
use crate::gorilla::bitstream::{byte_aligned, fresh_reader, BitWriter};
use crate::gorilla::codec::{dod_bits, next_windows, put_dod, put_xor, raw_bits, values_bits};
use crate::gorilla::codec::{lemma_xor_bits_len, next_window, windows_wf, xor_bits};
use crate::gorilla::codec::{MAX_DELTA, MAX_TIME_BITS, MAX_VALUE_BITS};
use crate::gorilla::error::Error;
use crate::gorilla::writer::{gap_between, may_follow};
use crate::gorilla::{GorillaBlock, GorillaDateTime, MVEntry, Zeros};
use vstd::prelude::*;

verus! {

/// What a writer of vector samples holds.
pub struct WriterMVState {
    pub dim: nat,
    pub header: i64,
    pub prev_ts: i64,
    pub prev_delta: u32,
    pub prev_value: Seq<u64>,
    pub prev_zeros: Seq<Zeros>,
    pub bits: Seq<bool>,
}

/// Compresses a series of vector samples of one dimension into a block.
pub struct GorillaWriterMV {
    dim: usize,
    header: GorillaDateTime,
    prev_ts: GorillaDateTime,
    prev_delta: u32,
    prev_value: Vec<u64>,
    prev_zeros: Vec<Zeros>,
    pub body: BitWriter,
}

/// `n` times the value 0.
pub(crate) fn zero_values(n: usize) -> (v: Vec<u64>)
    ensures
        v@ == Seq::new(n as nat, |i: int| 0u64),
{
    let mut v: Vec<u64> = Vec::new();
    let mut i: usize = 0;
    while i < n
        invariant
            i <= n,
            v@ == Seq::new(i as nat, |j: int| 0u64),
        decreases n - i,
    {
        v.push(0);
        i += 1;
        assert(v@ =~= Seq::new(i as nat, |j: int| 0u64));
    }
    v
}

/// `n` times the window that a series starts with.
pub(crate) fn initial_windows(n: usize) -> (v: Vec<Zeros>)
    ensures
        v@ == Seq::new(n as nat, |i: int| Zeros::initial()),
{
    let mut v: Vec<Zeros> = Vec::new();
    let mut i: usize = 0;
    while i < n
        invariant
            i <= n,
            v@ == Seq::new(i as nat, |j: int| Zeros::initial()),
        decreases n - i,
    {
        v.push(Zeros { leading: 32u8, trailing: 32u8 });
        i += 1;
        assert(v@ =~= Seq::new(i as nat, |j: int| Zeros::initial()));
    }
    v
}

impl GorillaWriterMV {
    pub closed spec fn view(&self) -> WriterMVState {
        WriterMVState {
            dim: self.dim as nat,
            header: self.header,
            prev_ts: self.prev_ts,
            prev_delta: self.prev_delta,
            prev_value: self.prev_value@,
            prev_zeros: self.prev_zeros@,
            bits: self.body@,
        }
    }

    pub closed spec fn wf(&self) -> bool {
        &&& self.body.wf()
        &&& self.prev_value@.len() == self.dim
        &&& self.prev_zeros@.len() == self.dim
        &&& windows_wf(self.prev_zeros@)
        &&& self.prev_delta <= MAX_DELTA
    }

    /// Whether `extra` more bits fit the counter of bits.
    pub open spec fn has_room(&self, extra: nat) -> bool {
        self@.bits.len() + extra <= usize::MAX
    }

    /// A writer of a block of `dim` dimensions whose header timestamp is `header`.
    pub fn with_vec(header: GorillaDateTime, dim: usize) -> (w: Self)
        ensures
            w.wf(),
            w@ == (WriterMVState {
                dim: dim as nat,
                header,
                prev_ts: header,
                prev_delta: 0,
                prev_value: Seq::new(dim as nat, |i: int| 0u64),
                prev_zeros: Seq::new(dim as nat, |i: int| Zeros::initial()),
                bits: low_bits(header as u64, 64),
            }),
    {
        let prev_zeros = initial_windows(dim);
        let mut block = GorillaWriterMV {
            dim,
            header,
            prev_ts: header,
            prev_delta: 0,
            prev_value: zero_values(dim),
            prev_zeros,
            body: BitWriter::new(),
        };
        let timestamp = header;
        let _ = block.body.write(64, #[verifier::truncate] (timestamp as u64));
        assert(block.body@ =~= low_bits(header as u64, 64));
        block
    }

    /// The number of values in each sample.
    pub fn dim(&self) -> (d: usize)
        ensures
            d == self@.dim,
    {
        self.dim
    }

    /// Ends the block.
    pub fn close(self) -> (block: GorillaBlock)
        requires
            self.wf(),
        ensures
            block.data.bit_length() == self@.bits.len(),
            block.data.bytes() == pack(byte_aligned(self@.bits)),
            block.data.opened() == fresh_reader(self@.bits),
    {
        GorillaBlock { data: self.body.close() }
    }

    fn validate_values(&self, values: &Vec<u64>) -> (r: Result<(), Error>)
        ensures
            match r {
                Ok(()) => values@.len() == self@.dim,
                Err(e) => values@.len() != self@.dim && e is BadDimensionError,
            },
    {
        if values.len() != self.dim {
            Err(Error::BadDimensionError)
        } else {
            Ok(())
        }
    }

    fn validate_timestamp(&self, time: GorillaDateTime) -> (r: Result<u32, Error>)
        ensures
            match r {
                Ok(delta) => may_follow(self@.prev_ts, time) && delta == time - self@.prev_ts,
                Err(e) => (time < self@.prev_ts && e is AppendOrderError) || (time - self@.prev_ts
                    > MAX_DELTA && e is AppendDurationError),
            },
    {
        gap_between(self.prev_ts, time)
    }

    /// Writes one sample: its timestamp, then its values in the order of the dimensions.
    pub fn append_entry(&mut self, entry: MVEntry) -> (r: Result<(), Error>)
        requires
            old(self).wf(),
            old(self).has_room(MAX_TIME_BITS as nat + old(self)@.dim * MAX_VALUE_BITS as nat),
        ensures
            final(self).wf(),
            match r {
                Ok(()) => entry@.values.len() == old(self)@.dim && may_follow(
                    old(self)@.prev_ts,
                    entry.time,
                ) && final(self)@ == (WriterMVState {
                    prev_ts: entry.time,
                    prev_delta: (entry.time - old(self)@.prev_ts) as u32,
                    prev_value: entry@.values,
                    prev_zeros: next_windows(
                        entry@.values,
                        old(self)@.prev_value,
                        old(self)@.prev_zeros,
                    ),
                    bits: old(self)@.bits + dod_bits(
                        entry.time - old(self)@.prev_ts - old(self)@.prev_delta,
                    ) + values_bits(entry@.values, old(self)@.prev_value, old(self)@.prev_zeros, 0),
                    ..old(self)@
                }),
                Err(e) => final(self)@ == old(self)@ && if entry@.values.len() != old(self)@.dim {
                    e is BadDimensionError
                } else {
                    (entry.time < old(self)@.prev_ts && e is AppendOrderError) || (entry.time - old(self)@.prev_ts > MAX_DELTA && e is AppendDurationError)
                },
            },
    {
        self.validate_values(&(entry.values))?;
        self.append_time(entry.time)?;
        self.append_values(entry.values)?;
        Ok(())
    }

    /// Writes the first sample of the block, before any other: its distance
    /// from the header timestamp in 14 bits, then each of its values in full.
    pub fn append_first(&mut self, entry: MVEntry) -> (r: Result<(), Error>)
        requires
            old(self).wf(),
            old(self)@.bits.len() == 64,
            old(self).has_room(14 + old(self)@.dim * 64),
        ensures
            final(self).wf(),
            match r {
                Ok(()) => entry@.values.len() == old(self)@.dim && may_follow(
                    old(self)@.prev_ts,
                    entry.time,
                ) && final(self)@ == (WriterMVState {
                    prev_ts: entry.time,
                    prev_delta: (entry.time - old(self)@.prev_ts) as u32,
                    prev_value: entry@.values,
                    bits: old(self)@.bits + low_bits((entry.time - old(self)@.prev_ts) as u64, 14)
                        + raw_bits(entry@.values, 0),
                    ..old(self)@
                }),
                Err(e) => final(self)@ == old(self)@ && if entry@.values.len() != old(self)@.dim {
                    e is BadDimensionError
                } else {
                    (entry.time < old(self)@.prev_ts && e is AppendOrderError) || (entry.time - old(self)@.prev_ts > MAX_DELTA && e is AppendDurationError)
                },
            },
    {
        self.validate_values(&(entry.values))?;
        let delta = self.validate_timestamp(entry.time)?;
        self.body.write(14, delta as u64)?;
        let ghost head = self.body@;
        let mut i: usize = 0;
        while i < self.dim
            invariant
                i <= self.dim,
                self.dim == entry.values@.len(),
                self.body.wf(),
                self.body@.len() + (self.dim - i) * 64 <= usize::MAX,
                self.body@ + raw_bits(entry@.values, i as int) == head + raw_bits(entry@.values, 0),
                self.dim == old(self).dim,
                self.header == old(self).header,
                self.prev_ts == old(self).prev_ts,
                self.prev_delta == old(self).prev_delta,
                self.prev_value == old(self).prev_value,
                self.prev_zeros == old(self).prev_zeros,
            decreases self.dim - i,
        {
            let val = entry.values[i];
            let ghost before = self.body@;
            self.body.write(64, val)?;
            proof {
                let rest = raw_bits(entry@.values, i + 1);
                assert((before + low_bits(val, 64)) + rest =~= before + (low_bits(val, 64) + rest));
            }
            i += 1;
        }
        assert(self.body@ =~= self.body@ + raw_bits(entry@.values, i as int));
        assert(head + raw_bits(entry@.values, 0) =~= old(self)@.bits + low_bits(
            (entry.time - old(self)@.prev_ts) as u64,
            14,
        ) + raw_bits(entry@.values, 0));
        self.prev_value = entry.values;
        self.prev_ts = entry.time;
        self.prev_delta = delta;
        Ok(())
    }

    /// Writes the values of a sample, each as the window of bits in which it
    /// differs from the value before it in its dimension.
    pub fn append_values(&mut self, values: Vec<u64>) -> (r: Result<(), Error>)
        requires
            old(self).wf(),
            old(self).has_room(old(self)@.dim * MAX_VALUE_BITS as nat),
        ensures
            final(self).wf(),
            match r {
                Ok(()) => values@.len() == old(self)@.dim && final(self)@ == (WriterMVState {
                    prev_value: values@,
                    prev_zeros: next_windows(values@, old(self)@.prev_value, old(self)@.prev_zeros),
                    bits: old(self)@.bits + values_bits(
                        values@,
                        old(self)@.prev_value,
                        old(self)@.prev_zeros,
                        0,
                    ),
                    ..old(self)@
                }),
                Err(e) => final(self)@ == old(self)@ && values@.len() != old(self)@.dim && e
                    is BadDimensionError,
            },
    {
        self.validate_values(&values)?;
        let ghost prev = self.prev_value@;
        let ghost windows = self.prev_zeros@;
        let ghost head = self.body@;
        let mut i: usize = 0;
        while i < self.dim
            invariant
                i <= self.dim,
                self.dim == values@.len(),
                self.body.wf(),
                self.body@.len() + (self.dim - i) * MAX_VALUE_BITS <= usize::MAX,
                self.prev_value@.len() == self.dim,
                self.prev_zeros@.len() == self.dim,
                prev.len() == self.dim,
                windows.len() == self.dim,
                windows_wf(self.prev_zeros@),
                forall|j: int| 0 <= j < i ==> self.prev_value@[j] == values@[j],
                forall|j: int|
                    0 <= j < i ==> self.prev_zeros@[j] == next_window(values@[j] ^ prev[j], windows[j]),
                forall|j: int| i <= j < self.dim ==> self.prev_value@[j] == prev[j],
                forall|j: int| i <= j < self.dim ==> self.prev_zeros@[j] == windows[j],
                self.body@ + values_bits(values@, prev, windows, i as int) == head + values_bits(
                    values@,
                    prev,
                    windows,
                    0,
                ),
                self.dim == old(self).dim,
                self.header == old(self).header,
                self.prev_ts == old(self).prev_ts,
                self.prev_delta == old(self).prev_delta,
            decreases self.dim - i,
        {
            let xored = values[i] ^ self.prev_value[i];
            let ghost before = self.body@;
            let ghost w = self.prev_zeros@[i as int];
            proof {
                lemma_xor_bits_len(xored, w);
            }
            let window = put_xor(&mut self.body, xored, self.prev_zeros[i])?;
            proof {
                let rest = values_bits(values@, prev, windows, i + 1);
                assert((before + xor_bits(xored, w)) + rest =~= before + (xor_bits(xored, w) + rest));
            }
            self.prev_zeros.set(i, window);
            self.prev_value.set(i, values[i]);
            i += 1;
        }
        assert(self.body@ =~= self.body@ + values_bits(values@, prev, windows, i as int));
        assert(self.prev_value@ =~= values@);
        assert(self.prev_zeros@ =~= next_windows(values@, prev, windows));
        Ok(())
    }

    /// Writes the timestamp of a sample as the change of its distance from the
    /// sample before it.
    pub fn append_time(&mut self, time: GorillaDateTime) -> (r: Result<(), Error>)
        requires
            old(self).wf(),
            old(self).has_room(MAX_TIME_BITS as nat),
        ensures
            final(self).wf(),
            match r {
                Ok(()) => may_follow(old(self)@.prev_ts, time) && final(self)@ == (WriterMVState {
                    prev_ts: time,
                    prev_delta: (time - old(self)@.prev_ts) as u32,
                    bits: old(self)@.bits + dod_bits(time - old(self)@.prev_ts - old(self)@.prev_delta),
                    ..old(self)@
                }),
                Err(e) => final(self)@ == old(self)@ && ((time < old(self)@.prev_ts && e
                    is AppendOrderError) || (time - old(self)@.prev_ts > MAX_DELTA && e
                    is AppendDurationError)),
            },
    {
        let delta = self.validate_timestamp(time)?;
        let delta_of_delta: i32 = delta as i32 - self.prev_delta as i32;
        self.prev_delta = delta;
        self.prev_ts = time;
        put_dod(&mut self.body, delta_of_delta)?;
        Ok(())
    }
}

} // verus!
