//! Whole blocks: a series of vector samples to a block and back.

use crate::gorilla::bits::low_bits;
use crate::gorilla::bitstream::{fresh_reader, ReaderView};
use crate::gorilla::codec::{dod_bits, next_windows, take, values_bits, windows_wf};
use crate::gorilla::codec::{lemma_dod_bits_len, lemma_values_bits_len};
use crate::gorilla::codec::{Decoded, MAX_DELTA, MAX_TIME_BITS, MAX_VALUE_BITS};
use crate::gorilla::error::Error;
use crate::gorilla::reader_mv::{decode_sample, GorillaReaderMV};
use crate::gorilla::writer_mv::GorillaWriterMV;
use crate::gorilla::{GorillaBlock, GorillaDateTime, MVEntry, Sample, Zeros};
use vstd::prelude::*;

verus! {

/// What the next sample is encoded against: the timestamp of the sample
/// before it, the gap before that sample, and, for each dimension, the value
/// before and the window.
pub struct Predictor {
    pub time: i64,
    pub delta: int,
    pub values: Seq<u64>,
    pub windows: Seq<Zeros>,
}

/// Why a sample cannot be appended.
pub enum Rejection {
    /// It has another number of values than the block has dimensions.
    Dimension,
    /// It is older than the sample before it.
    Order,
    /// It is more than `MAX_DELTA` seconds younger than the sample before it.
    Duration,
}

impl Rejection {
    /// Whether `e` is the error that reports this rejection.
    pub open spec fn reported_by(self, e: Error) -> bool {
        match self {
            Rejection::Dimension => e is BadDimensionError,
            Rejection::Order => e is AppendOrderError,
            Rejection::Duration => e is AppendDurationError,
        }
    }
}

impl Predictor {
    /// The predictor at the start of a block of `dim` dimensions.
    pub open spec fn start(header: i64, dim: nat) -> Predictor {
        Predictor {
            time: header,
            delta: 0,
            values: Seq::new(dim, |i: int| 0u64),
            windows: Seq::new(dim, |i: int| Zeros::initial()),
        }
    }

    /// Why `sample` cannot follow, if it cannot.
    pub open spec fn rejection(self, sample: Sample) -> Option<Rejection> {
        if sample.values.len() != self.values.len() {
            Some(Rejection::Dimension)
        } else if sample.time < self.time {
            Some(Rejection::Order)
        } else if sample.time - self.time > MAX_DELTA {
            Some(Rejection::Duration)
        } else {
            None
        }
    }

    /// The bits of `sample`: its timestamp, then its values.
    pub open spec fn bits_of(self, sample: Sample) -> Seq<bool> {
        dod_bits(sample.time - self.time - self.delta) + values_bits(
            sample.values,
            self.values,
            self.windows,
            0,
        )
    }

    /// The predictor after `sample`.
    pub open spec fn after(self, sample: Sample) -> Predictor {
        Predictor {
            time: sample.time,
            delta: sample.time - self.time,
            values: sample.values,
            windows: next_windows(sample.values, self.values, self.windows),
        }
    }
}

/// The samples that a vector of entries holds.
pub open spec fn samples_of(entries: Seq<MVEntry>) -> Seq<Sample> {
    Seq::new(entries.len(), |i: int| entries[i]@)
}

/// Why the first sample from `from` on that cannot be appended is refused; `None`
/// where all can be appended.
pub open spec fn first_rejection(p: Predictor, samples: Seq<Sample>, from: int) -> Option<Rejection>
    decreases samples.len() - from,
{
    if from < 0 || from >= samples.len() {
        None
    } else {
        match p.rejection(samples[from]) {
            Some(r) => Some(r),
            None => first_rejection(p.after(samples[from]), samples, from + 1),
        }
    }
}

/// The bits of the samples from `from` on.
pub open spec fn samples_bits(p: Predictor, samples: Seq<Sample>, from: int) -> Seq<bool>
    decreases samples.len() - from,
{
    if from < 0 || from >= samples.len() {
        Seq::empty()
    } else {
        p.bits_of(samples[from]) + samples_bits(p.after(samples[from]), samples, from + 1)
    }
}

/// The bits of a block: the header timestamp in 64 bits, then the samples.
pub open spec fn block_bits(samples: Seq<Sample>, header: i64, dim: nat) -> Seq<bool> {
    low_bits(header as u64, 64) + samples_bits(Predictor::start(header, dim), samples, 0)
}

/// The most bits that one sample of `dim` dimensions takes.
pub open spec fn max_sample_bits(dim: nat) -> nat {
    MAX_TIME_BITS as nat + dim * MAX_VALUE_BITS as nat
}

/// Decodes `n` samples and appends them to `acc`.
pub open spec fn decode_samples(
    s: ReaderView,
    prev: Sample,
    prev_diff: i64,
    windows: Seq<Zeros>,
    n: nat,
    acc: Seq<Sample>,
) -> Decoded<Seq<Sample>>
    decreases n,
{
    if n == 0 {
        Decoded::Done(acc, s)
    } else {
        match decode_sample(s, prev, prev_diff, windows) {
            Decoded::Failed(f) => Decoded::Failed(f),
            Decoded::Done(step, rest) => decode_samples(
                rest,
                step.sample,
                step.diff,
                step.windows,
                (n - 1) as nat,
                acc.push(step.sample),
            ),
        }
    }
}

/// Decodes a block of `dim` dimensions that holds `n` samples.
pub open spec fn decode_block(s: ReaderView, dim: nat, n: nat) -> Decoded<Seq<Sample>> {
    match take(s, 64) {
        Decoded::Failed(f) => Decoded::Failed(f),
        Decoded::Done(header, rest) => decode_samples(
            rest,
            Sample { time: header as i64, values: Seq::new(dim, |i: int| 0u64) },
            0,
            Seq::new(dim, |i: int| Zeros::initial()),
            n,
            Seq::empty(),
        ),
    }
}

/// Compresses samples of `dim` values each into a block whose header timestamp
/// is `header`. Fails at the first sample that cannot be appended.
#[verifier::loop_isolation(false)]
pub fn compress_values(mv_entries: Vec<MVEntry>, header: GorillaDateTime, dim: usize) -> (r: Result<
    GorillaBlock,
    Error,
>)
    requires
        64 + mv_entries@.len() * max_sample_bits(dim as nat) <= usize::MAX,
    ensures
        match first_rejection(Predictor::start(header, dim as nat), samples_of(mv_entries@), 0) {
            None => r is Ok && r->Ok_0.data.opened() == fresh_reader(
                block_bits(samples_of(mv_entries@), header, dim as nat),
            ) && r->Ok_0.data.bit_length() == block_bits(
                samples_of(mv_entries@),
                header,
                dim as nat,
            ).len(),
            Some(rejection) => r is Err && rejection.reported_by(r->Err_0),
        },
{
    let mut writer = GorillaWriterMV::with_vec(header, dim);
    let ghost samples = samples_of(mv_entries@);
    let ghost start = Predictor::start(header, dim as nat);
    let ghost per = max_sample_bits(dim as nat) as int;
    let ghost mut p = start;
    let n = mv_entries.len();
    let mut i: usize = 0;
    while i < n
        invariant
            i <= n,
            writer.wf(),
            writer@.dim == dim,
            writer@.header == header,
            p.time == writer@.prev_ts,
            p.delta == writer@.prev_delta,
            p.values == writer@.prev_value,
            p.windows == writer@.prev_zeros,
            p.values.len() == dim,
            p.windows.len() == dim,
            windows_wf(p.windows),
            writer@.bits.len() + (n - i) * per <= usize::MAX,
            first_rejection(p, samples, i as int) == first_rejection(start, samples, 0),
            writer@.bits + samples_bits(p, samples, i as int) == block_bits(samples, header, dim as nat),
        decreases n - i,
    {
        let entry = mv_entries[i].clone();
        let ghost sample = samples[i as int];
        let ghost before = writer@.bits;
        proof {
            assert((n - i) * per == (n - i - 1) * per + per) by (nonlinear_arith);
            assert((n - i - 1) * per >= 0) by (nonlinear_arith)
                requires
                    n - i - 1 >= 0,
                    per >= 0,
            ;
            assert(per == MAX_TIME_BITS + dim * MAX_VALUE_BITS);
        }
        writer.append_entry(entry)?;
        proof {
            lemma_dod_bits_len(sample.time - p.time - p.delta);
            lemma_values_bits_len(sample.values, p.values, p.windows, 0);
            let rest = samples_bits(p.after(sample), samples, i + 1);
            assert((before + dod_bits(sample.time - p.time - p.delta)) + values_bits(
                sample.values,
                p.values,
                p.windows,
                0,
            ) =~= before + p.bits_of(sample));
            assert((before + p.bits_of(sample)) + rest =~= before + (p.bits_of(sample) + rest));
            assert forall|j: int| 0 <= j < dim implies (#[trigger] p.after(sample).windows[j]).wf() by {
                crate::gorilla::codec::lemma_next_window_wf(
                    sample.values[j] ^ p.values[j],
                    p.windows[j],
                );
            }
            p = p.after(sample);
        }
        i += 1;
    }
    assert(writer@.bits =~= writer@.bits + samples_bits(p, samples, i as int));
    Ok(writer.close())
}

/// Decompresses `num_entries` samples of `dim` values each from a block.
#[verifier::loop_isolation(false)]
pub fn retrieve_values(block: GorillaBlock, dim: usize, num_entries: usize) -> (r: Result<
    Vec<MVEntry>,
    Error,
>)
    ensures
        match decode_block(block.data.opened(), dim as nat, num_entries as nat) {
            Decoded::Done(samples, s) => r is Ok && samples_of(r->Ok_0@) == samples,
            Decoded::Failed(f) => r is Err && f.reported_by(r->Err_0),
        },
{
    let mut reader = GorillaReaderMV::from_block(block, dim)?;
    let ghost first = reader@;
    let mut result: Vec<MVEntry> = Vec::new();
    assert(samples_of(result@) =~= Seq::<Sample>::empty());
    let mut i: usize = 0;
    while i < num_entries
        invariant
            i <= num_entries,
            reader.wf(),
            reader@.dim == dim,
            decode_samples(
                reader@.source,
                reader@.prev,
                reader@.prev_diff,
                reader@.prev_zeros,
                (num_entries - i) as nat,
                samples_of(result@),
            ) == decode_samples(
                first.source,
                first.prev,
                first.prev_diff,
                first.prev_zeros,
                num_entries as nat,
                Seq::empty(),
            ),
        decreases num_entries - i,
    {
        let ghost acc = samples_of(result@);
        let ts = reader.get_next_time()?;
        let values = reader.get_next_values()?;
        result.push(MVEntry { time: ts, values });
        assert(samples_of(result@) =~= acc.push(Sample { time: ts, values: values@ }));
        i += 1;
    }
    Ok(result)
}

} // verus!
