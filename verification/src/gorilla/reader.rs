//! Reader of a block of single-valued samples.

use crate::gorilla::bits::{lemma_bits_value_bound, lemma_mask_values};
use crate::gorilla::bitstream::{fresh_reader, BitReader, ReaderView};
use crate::gorilla::codec::{decode_time, decode_value, get_time, get_value, take};
use crate::gorilla::codec::{Decoded, Fault};
use crate::gorilla::error::Error;
use crate::gorilla::writer::GorillaWriter;
use crate::gorilla::{Entry, GorillaDateTime, Zeros};
use vstd::prelude::*;

verus! {

/// The start of a block of single-valued samples.
pub struct Head {
    pub header: i64,
    pub time: i64,
    pub value: u64,
}

/// Decodes the start of a block: the header timestamp in 64 bits, the distance
/// of the first sample from it in 14 bits, and the first value in 64 bits. A
/// first timestamp outside the 64-bit range is a fault.
pub open spec fn decode_head(s: ReaderView) -> Decoded<Head> {
    match take(s, 64) {
        Decoded::Failed(f) => Decoded::Failed(f),
        Decoded::Done(header, s1) => match take(s1, 14) {
            Decoded::Failed(f) => Decoded::Failed(f),
            Decoded::Done(diff, s2) => if (header as i64) + diff > i64::MAX {
                Decoded::Failed(Fault::Reader)
            } else {
                match take(s2, 64) {
                    Decoded::Failed(f) => Decoded::Failed(f),
                    Decoded::Done(value, s3) => Decoded::Done(
                        Head { header: header as i64, time: ((header as i64) + diff) as i64, value },
                        s3,
                    ),
                }
            },
        },
    }
}

/// What a reader of single-valued samples holds: the sample it stands on, the
/// sample that the next one is decoded against, the gap before that sample,
/// the window of the series, and the bits to come.
pub struct ReaderState {
    pub entry_time: i64,
    pub entry_value: u64,
    pub prev_time: i64,
    pub prev_value: u64,
    pub prev_diff: i64,
    pub prev_zeros: Zeros,
    pub source: ReaderView,
}

/// Decompresses a block of single-valued samples.
pub struct GorillaReader {
    entry: Entry,
    prev_entry: Entry,
    prev_diff: i64,
    prev_zeros: Zeros,
    reader: BitReader,
}

impl GorillaReader {
    pub closed spec fn view(&self) -> ReaderState {
        ReaderState {
            entry_time: self.entry.time,
            entry_value: self.entry.value,
            prev_time: self.prev_entry.time,
            prev_value: self.prev_entry.value,
            prev_diff: self.prev_diff,
            prev_zeros: self.prev_zeros,
            source: self.reader@,
        }
    }

    pub closed spec fn wf(&self) -> bool {
        self.prev_zeros.wf()
    }

    /// Closes `writer` and stands on the first sample of its block.
    pub fn from_writer(writer: GorillaWriter) -> (r: Result<Self, Error>)
        requires
            writer.wf(),
        ensures
            match decode_head(fresh_reader(writer@.bits)) {
                Decoded::Done(head, s) => r is Ok && r->Ok_0.wf() && r->Ok_0@ == (ReaderState {
                    entry_time: head.time,
                    entry_value: head.value,
                    prev_time: head.header,
                    prev_value: 0,
                    prev_diff: 0,
                    prev_zeros: Zeros::initial(),
                    source: s,
                }),
                Decoded::Failed(f) => r is Err && f.reported_by(r->Err_0),
            },
    {
        let block = writer.close();
        let mut reader = BitReader::new(block.data);
        let ghost s0 = reader@;
        let header: i64 = #[verifier::truncate]
        (reader.read(64)? as i64);
        let ghost s1 = reader@;
        let diff = reader.read(14)?;
        proof {
            lemma_bits_value_bound(s1.rest.subrange(0, 14));
            lemma_mask_values();
        }
        let time = match header.checked_add(diff as i64) {
            Some(t) => t,
            None => {
                return Err(Error::BitReaderError("Timestamp out of range"));
            },
        };
        let value = reader.read(64)?;
        let prev_entry = Entry { time: header, value: 0 };
        Ok(
            GorillaReader {
                entry: Entry { time, value },
                prev_entry,
                prev_diff: 0,
                prev_zeros: Zeros { leading: 32, trailing: 32 },
                reader,
            },
        )
    }

    /// Gives the sample that the reader stands on, and makes it the one that
    /// the next sample is decoded against.
    pub fn next(&mut self) -> (entry: Entry)
        requires
            old(self).wf(),
            i64::MIN <= old(self)@.entry_time - old(self)@.prev_time <= i64::MAX,
        ensures
            final(self).wf(),
            entry.time == old(self)@.entry_time,
            entry.value == old(self)@.entry_value,
            final(self)@ == (ReaderState {
                prev_time: old(self)@.entry_time,
                prev_value: old(self)@.entry_value,
                prev_diff: (old(self)@.entry_time - old(self)@.prev_time) as i64,
                ..old(self)@
            }),
    {
        let entry = self.entry;
        self.prev_diff = entry.time - self.prev_entry.time;
        self.prev_entry = entry;
        entry
    }

    /// Decodes the next value.
    pub fn get_next_value(&mut self) -> (r: Result<u64, Error>)
        requires
            old(self).wf(),
        ensures
            final(self).wf(),
            match decode_value(old(self)@.source, old(self)@.prev_value, old(self)@.prev_zeros) {
                Decoded::Done(v, s) => r is Ok && r->Ok_0 == v.0 && final(self)@ == (ReaderState {
                    prev_value: v.0,
                    prev_zeros: v.1,
                    source: s,
                    ..old(self)@
                }),
                Decoded::Failed(f) => r is Err && f.reported_by(r->Err_0),
            },
    {
        let (val, window) = get_value(&mut self.reader, self.prev_entry.value, self.prev_zeros)?;
        self.prev_zeros = window;
        self.prev_entry.value = val;
        Ok(val)
    }

    /// Decodes the next timestamp.
    pub fn get_next_time(&mut self) -> (r: Result<GorillaDateTime, Error>)
        requires
            old(self).wf(),
        ensures
            final(self).wf(),
            match decode_time(old(self)@.source, old(self)@.prev_time, old(self)@.prev_diff) {
                Decoded::Done(v, s) => r is Ok && r->Ok_0 == v.0 && final(self)@ == (ReaderState {
                    prev_time: v.0,
                    prev_diff: v.1,
                    source: s,
                    ..old(self)@
                }),
                Decoded::Failed(f) => r is Err && f.reported_by(r->Err_0),
            },
    {
        let (time, diff) = get_time(&mut self.reader, self.prev_entry.time, self.prev_diff)?;
        self.prev_entry.time = time;
        self.prev_diff = diff;
        Ok(time)
    }
}

} // verus!
