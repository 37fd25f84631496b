//! Reader of a block of samples that hold a vector of values each.

use crate::gorilla::bits::{lemma_bits_value_bound, lemma_mask_values};
use crate::gorilla::bitstream::{fresh_reader, BitReader, ReaderView};
use crate::gorilla::codec::{decode_raw, decode_time, decode_values, take};
use crate::gorilla::codec::{get_time, get_value, windows_wf};
use crate::gorilla::codec::{Decoded, Fault};
use crate::gorilla::error::Error;
use crate::gorilla::writer_mv::{initial_windows, zero_values, GorillaWriterMV};
use crate::gorilla::{GorillaBlock, GorillaDateTime, MVEntry, Sample, Zeros};
use vstd::prelude::*;

verus! {

/// The start of a block of vector samples.
pub struct HeadMV {
    pub header: i64,
    pub first: Sample,
}

/// Decodes the start of a block of `dim` dimensions: the header timestamp in 64
/// bits, the distance of the first sample from it in 14 bits, and the values
/// of the first sample in 64 bits each. A first timestamp outside the 64-bit
/// range is a fault.
pub open spec fn decode_head_mv(s: ReaderView, dim: nat) -> Decoded<HeadMV> {
    match take(s, 64) {
        Decoded::Failed(f) => Decoded::Failed(f),
        Decoded::Done(header, s1) => match take(s1, 14) {
            Decoded::Failed(f) => Decoded::Failed(f),
            Decoded::Done(diff, s2) => if (header as i64) + diff > i64::MAX {
                Decoded::Failed(Fault::Reader)
            } else {
                match decode_raw(s2, dim, Seq::empty()) {
                    Decoded::Failed(f) => Decoded::Failed(f),
                    Decoded::Done(values, s3) => Decoded::Done(
                        HeadMV {
                            header: header as i64,
                            first: Sample { time: ((header as i64) + diff) as i64, values },
                        },
                        s3,
                    ),
                }
            },
        },
    }
}

/// A decoded sample, with the gap before it and the windows after it.
pub struct Step {
    pub sample: Sample,
    pub diff: i64,
    pub windows: Seq<Zeros>,
}

/// Decodes one sample: its timestamp, then its values.
pub open spec fn decode_sample(s: ReaderView, prev: Sample, prev_diff: i64, windows: Seq<Zeros>) -> Decoded<
    Step,
> {
    match decode_time(s, prev.time, prev_diff) {
        Decoded::Failed(f) => Decoded::Failed(f),
        Decoded::Done(t, s1) => match decode_values(s1, prev.values, windows, 0) {
            Decoded::Failed(f) => Decoded::Failed(f),
            Decoded::Done(v, s2) => Decoded::Done(
                Step { sample: Sample { time: t.0, values: v.0 }, diff: t.1, windows: v.1 },
                s2,
            ),
        },
    }
}

/// What a reader of vector samples holds: the sample it stands on, the sample
/// that the next one is decoded against, the gap before that sample, the
/// window of each dimension, and the bits to come.
pub struct ReaderMVState {
    pub dim: nat,
    pub entry: Sample,
    pub prev: Sample,
    pub prev_diff: i64,
    pub prev_zeros: Seq<Zeros>,
    pub source: ReaderView,
}

/// Decompresses a block of vector samples of one dimension.
pub struct GorillaReaderMV {
    dim: usize,
    entry: MVEntry,
    prev_entry: MVEntry,
    prev_diff: i64,
    prev_zeros: Vec<Zeros>,
    reader: BitReader,
}

impl GorillaReaderMV {
    pub closed spec fn view(&self) -> ReaderMVState {
        ReaderMVState {
            dim: self.dim as nat,
            entry: self.entry@,
            prev: self.prev_entry@,
            prev_diff: self.prev_diff,
            prev_zeros: self.prev_zeros@,
            source: self.reader@,
        }
    }

    pub closed spec fn wf(&self) -> bool {
        &&& self.entry@.values.len() == self.dim
        &&& self.prev_entry@.values.len() == self.dim
        &&& self.prev_zeros@.len() == self.dim
        &&& windows_wf(self.prev_zeros@)
    }

    /// Closes `writer` and stands on the first sample of its block.
    #[verifier::loop_isolation(false)]
    pub fn from_writer(writer: GorillaWriterMV) -> (r: Result<Self, Error>)
        requires
            writer.wf(),
        ensures
            match decode_head_mv(fresh_reader(writer@.bits), writer@.dim) {
                Decoded::Done(head, s) => r is Ok && r->Ok_0.wf() && r->Ok_0@ == (ReaderMVState {
                    dim: writer@.dim,
                    entry: head.first,
                    prev: Sample {
                        time: head.header,
                        values: Seq::new(writer@.dim, |i: int| 0u64),
                    },
                    prev_diff: 0,
                    prev_zeros: Seq::new(writer@.dim, |i: int| Zeros::initial()),
                    source: s,
                }),
                Decoded::Failed(f) => r is Err && f.reported_by(r->Err_0),
            },
    {
        let dim = writer.dim();
        let block = writer.close();
        let mut reader = BitReader::new(block.data);
        let header: i64 = #[verifier::truncate]
        (reader.read(64)? as i64);
        let ghost s1 = reader@;
        let diff = reader.read(14)?;
        proof {
            lemma_bits_value_bound(s1.rest.subrange(0, 14));
            lemma_mask_values();
        }
        let time = match header.checked_add(diff as i64) {
            Some(t) => t,
            None => {
                return Err(Error::BitReaderError("Timestamp out of range"));
            },
        };
        let ghost s2 = reader@;
        let mut values: Vec<u64> = Vec::new();
        let mut i: usize = 0;
        while i < dim
            invariant
                i <= dim,
                values@.len() == i,
                decode_raw(reader@, (dim - i) as nat, values@) == decode_raw(
                    s2,
                    dim as nat,
                    Seq::empty(),
                ),
            decreases dim - i,
        {
            let v = reader.read(64)?;
            values.push(v);
            i += 1;
        }
        let prev_entry = MVEntry { time: header, values: zero_values(dim) };
        Ok(
            GorillaReaderMV {
                dim,
                entry: MVEntry { time, values },
                prev_entry,
                prev_diff: 0,
                prev_zeros: initial_windows(dim),
                reader,
            },
        )
    }

    /// Reads the header timestamp of `block` and stands before its first sample.
    pub fn from_block(block: GorillaBlock, dim: usize) -> (r: Result<Self, Error>)
        ensures
            match take(block.data.opened(), 64) {
                Decoded::Done(header, s) => r is Ok && r->Ok_0.wf() && r->Ok_0@ == (ReaderMVState {
                    dim: dim as nat,
                    entry: Sample {
                        time: header as i64,
                        values: Seq::new(dim as nat, |i: int| 0u64),
                    },
                    prev: Sample {
                        time: header as i64,
                        values: Seq::new(dim as nat, |i: int| 0u64),
                    },
                    prev_diff: 0,
                    prev_zeros: Seq::new(dim as nat, |i: int| Zeros::initial()),
                    source: s,
                }),
                Decoded::Failed(f) => r is Err && f.reported_by(r->Err_0),
            },
    {
        let mut reader = BitReader::new(block.data);
        let header: i64 = #[verifier::truncate]
        (reader.read(64)? as i64);
        let prev_entry = MVEntry { time: header, values: zero_values(dim) };
        Ok(
            GorillaReaderMV {
                dim,
                entry: MVEntry { time: header, values: zero_values(dim) },
                prev_entry,
                prev_diff: 0,
                prev_zeros: initial_windows(dim),
                reader,
            },
        )
    }

    /// The bit reader under this reader.
    pub fn get_reader(&self) -> (r: &BitReader)
        ensures
            r@ == self@.source,
    {
        &self.reader
    }

    /// Gives the sample that the reader stands on, and makes it the one that
    /// the next sample is decoded against.
    pub fn next(&mut self) -> (entry: MVEntry)
        requires
            old(self).wf(),
            i64::MIN <= old(self)@.entry.time - old(self)@.prev.time <= i64::MAX,
        ensures
            final(self).wf(),
            entry@ == old(self)@.entry,
            final(self)@ == (ReaderMVState {
                prev: old(self)@.entry,
                prev_diff: (old(self)@.entry.time - old(self)@.prev.time) as i64,
                ..old(self)@
            }),
    {
        let entry_time = self.entry.time;
        self.prev_diff = entry_time - self.prev_entry.time;
        self.prev_entry = MVEntry { time: entry_time, values: self.entry.values.clone() };
        MVEntry { time: entry_time, values: self.entry.values.clone() }
    }

    /// Decodes the values of the next sample.
    #[verifier::loop_isolation(false)]
    pub fn get_next_values(&mut self) -> (r: Result<Vec<u64>, Error>)
        requires
            old(self).wf(),
        ensures
            final(self).wf(),
            final(self)@.dim == old(self)@.dim,
            match decode_values(old(self)@.source, old(self)@.prev.values, old(self)@.prev_zeros, 0) {
                Decoded::Done(v, s) => r is Ok && r->Ok_0@ == v.0 && final(self)@ == (ReaderMVState {
                    prev: Sample { time: old(self)@.prev.time, values: v.0 },
                    prev_zeros: v.1,
                    source: s,
                    ..old(self)@
                }),
                Decoded::Failed(f) => r is Err && f.reported_by(r->Err_0),
            },
    {
        let mut values: Vec<u64> = zero_values(self.dim);
        let ghost s0 = self.reader@;
        let ghost prev0 = self.prev_entry@.values;
        let ghost windows0 = self.prev_zeros@;
        let mut i: usize = 0;
        while i < self.dim
            invariant
                i <= self.dim,
                self.wf(),
                values@.len() == self.dim,
                forall|j: int| 0 <= j < i ==> values@[j] == self.prev_entry@.values[j],
                decode_values(self.reader@, self.prev_entry@.values, self.prev_zeros@, i as int)
                    == decode_values(s0, prev0, windows0, 0),
                self.dim == old(self).dim,
                self.entry == old(self).entry,
                self.prev_entry.time == old(self).prev_entry.time,
                self.prev_diff == old(self).prev_diff,
            decreases self.dim - i,
        {
            let (val, window) = get_value(&mut self.reader, self.prev_entry.values[i], self.prev_zeros[i])?;
            self.prev_zeros.set(i, window);
            self.prev_entry.values.set(i, val);
            values.set(i, val);
            i += 1;
        }
        assert(values@ =~= self.prev_entry@.values);
        Ok(values)
    }

    /// Decodes the timestamp of the next sample.
    pub fn get_next_time(&mut self) -> (r: Result<GorillaDateTime, Error>)
        requires
            old(self).wf(),
        ensures
            final(self).wf(),
            final(self)@.dim == old(self)@.dim,
            match decode_time(old(self)@.source, old(self)@.prev.time, old(self)@.prev_diff) {
                Decoded::Done(v, s) => r is Ok && r->Ok_0 == v.0 && final(self)@ == (ReaderMVState {
                    prev: Sample { time: v.0, values: old(self)@.prev.values },
                    prev_diff: v.1,
                    source: s,
                    ..old(self)@
                }),
                Decoded::Failed(f) => r is Err && f.reported_by(r->Err_0),
            },
    {
        let (time, diff) = get_time(&mut self.reader, self.prev_entry.time, self.prev_diff)?;
        self.prev_entry.time = time;
        self.prev_diff = diff;
        Ok(time)
    }

    /// Decodes the next sample and stands on it.
    pub fn get_next_entry(&mut self) -> (r: Result<MVEntry, Error>)
        requires
            old(self).wf(),
        ensures
            final(self).wf(),
            final(self)@.dim == old(self)@.dim,
            match decode_sample(
                old(self)@.source,
                old(self)@.prev,
                old(self)@.prev_diff,
                old(self)@.prev_zeros,
            ) {
                Decoded::Done(step, s) => r is Ok && r->Ok_0@ == step.sample && final(self)@ == (
                ReaderMVState {
                    entry: step.sample,
                    prev: step.sample,
                    prev_diff: step.diff,
                    prev_zeros: step.windows,
                    source: s,
                    ..old(self)@
                }),
                Decoded::Failed(f) => r is Err && f.reported_by(r->Err_0),
            },
    {
        let time = self.get_next_time()?;
        let values = self.get_next_values()?;
        self.entry = MVEntry { time, values: values.clone() };
        Ok(MVEntry { time, values })
    }
}

} // verus!
