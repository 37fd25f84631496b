//! The two fields of a compressed sample: a timestamp as a delta of deltas, and
//! a value as the window of bits in which it differs from the value before it.

use crate::gorilla::bits::{low_bits, low_mask};
use crate::gorilla::bits::{lemma_bits_value_bound, lemma_mask_values};
use crate::gorilla::bitstream::{BitReader, BitWriter, ReadStatus, ReaderView};
use crate::gorilla::error::Error;
use crate::gorilla::Zeros;
use vstd::prelude::*;
use vstd::std_specs::bits::{axiom_u64_leading_zeros, axiom_u64_trailing_zeros};
use vstd::std_specs::bits::{u64_leading_zeros, u64_trailing_zeros};

verus! {

/// The longest gap, in seconds, between two consecutive samples of a block.
pub const MAX_DELTA: i64 = 16384;

/// The most bits that one timestamp takes.
pub const MAX_TIME_BITS: usize = 36;

/// The most bits that one value takes.
pub const MAX_VALUE_BITS: usize = 77;

/// The two's-complement form of `dod` in a field that counts modulo `modulus`.
pub open spec fn dod_payload(dod: int, modulus: int) -> u64 {
    (if dod >= 0 {
        dod
    } else {
        dod + modulus
    }) as u64
}

/// The bits of a delta of deltas: a prefix that names the range, then the payload.
pub open spec fn dod_bits(dod: int) -> Seq<bool> {
    if dod == 0 {
        seq![false]
    } else if -63 <= dod <= 64 {
        seq![true, false] + low_bits(dod_payload(dod, 128), 7)
    } else if -255 <= dod <= 256 {
        seq![true, true, false] + low_bits(dod_payload(dod, 512), 9)
    } else if -2047 <= dod <= 2048 {
        seq![true, true, true, false] + low_bits(dod_payload(dod, 4096), 12)
    } else {
        seq![true, true, true, true] + low_bits(dod_payload(dod, 0x1_0000_0000), 32)
    }
}

/// The number of zero bits above the highest set bit of `x`; 64 for 0.
pub open spec fn leading(x: u64) -> int {
    u64_leading_zeros(x)
}

/// The number of zero bits below the lowest set bit of `x`; 64 for 0.
pub open spec fn trailing(x: u64) -> int {
    u64_trailing_zeros(x) as int
}

impl Zeros {
    /// The window that a series starts with: it holds no set bit.
    pub open spec fn initial() -> Zeros {
        Zeros { leading: 32, trailing: 32 }
    }

    pub open spec fn wf(self) -> bool {
        self.leading + self.trailing <= 64 && self.trailing <= 63
    }

    /// The number of bits inside the window.
    pub open spec fn width(self) -> nat {
        (64 - self.leading - self.trailing) as nat
    }

    /// Whether every set bit of `x` lies inside the window.
    pub open spec fn holds(self, x: u64) -> bool {
        leading(x) >= self.leading && trailing(x) >= self.trailing
    }
}

/// The tightest window around the set bits of `x`.
pub open spec fn window_of(x: u64) -> Zeros {
    Zeros { leading: leading(x) as u8, trailing: trailing(x) as u8 }
}

/// The bits of a value whose XOR with the value before it is `x`, under the window `w`.
pub open spec fn xor_bits(x: u64, w: Zeros) -> Seq<bool> {
    if x == 0 {
        seq![false]
    } else if w.holds(x) {
        seq![true, false] + low_bits(x >> w.trailing, w.width())
    } else {
        seq![true, true] + low_bits(leading(x) as u64, 5) + low_bits(
            window_of(x).width() as u64,
            6,
        ) + low_bits(x >> window_of(x).trailing, window_of(x).width())
    }
}

/// The window after a value whose XOR with the value before it is `x`.
pub open spec fn next_window(x: u64, w: Zeros) -> Zeros {
    if x == 0 || w.holds(x) {
        w
    } else {
        window_of(x)
    }
}

/// The bits of the values of a sample from dimension `from` on, each against the
/// value and under the window of its own dimension.
pub open spec fn values_bits(values: Seq<u64>, prev: Seq<u64>, windows: Seq<Zeros>, from: int) -> Seq<
    bool,
>
    decreases values.len() - from,
{
    if from < 0 || from >= values.len() {
        Seq::empty()
    } else {
        xor_bits(values[from] ^ prev[from], windows[from]) + values_bits(
            values,
            prev,
            windows,
            from + 1,
        )
    }
}

/// The windows of all dimensions after a sample.
pub open spec fn next_windows(values: Seq<u64>, prev: Seq<u64>, windows: Seq<Zeros>) -> Seq<Zeros> {
    Seq::new(values.len(), |i: int| next_window(values[i] ^ prev[i], windows[i]))
}

/// The values of a sample in full, 64 bits each, from dimension `from` on.
pub open spec fn raw_bits(values: Seq<u64>, from: int) -> Seq<bool>
    decreases values.len() - from,
{
    if from < 0 || from >= values.len() {
        Seq::empty()
    } else {
        low_bits(values[from], 64) + raw_bits(values, from + 1)
    }
}

/// Whether every window is well formed.
pub open spec fn windows_wf(windows: Seq<Zeros>) -> bool {
    forall|i: int| 0 <= i < windows.len() ==> (#[trigger] windows[i]).wf()
}

/// Why a field could not be decoded.
pub enum Fault {
    /// The field passes the recorded end of the stream, or is malformed.
    Reader,
    /// The bytes of the stream hold fewer bits than its recorded length.
    Stream,
}

impl Fault {
    /// Whether `e` is the error that reports this fault.
    pub open spec fn reported_by(self, e: Error) -> bool {
        match self {
            Fault::Reader => e is BitReaderError,
            Fault::Stream => e is BitStreamIOError,
        }
    }
}

/// The outcome of decoding one field: its value and the reader after it, or a fault.
pub enum Decoded<T> {
    Done(T, ReaderView),
    Failed(Fault),
}

/// Takes `k` bits as a number.
pub open spec fn take(s: ReaderView, k: nat) -> Decoded<u64> {
    match s.status(k) {
        ReadStatus::Ready => Decoded::Done(s.peek(k), s.advance(k)),
        ReadStatus::PastEnd => Decoded::Failed(Fault::Reader),
        ReadStatus::Exhausted => Decoded::Failed(Fault::Stream),
    }
}

/// Takes one bit.
pub open spec fn take_bit(s: ReaderView) -> Decoded<bool> {
    match s.status(1) {
        ReadStatus::Ready => Decoded::Done(s.rest[0], s.advance(1)),
        ReadStatus::PastEnd => Decoded::Failed(Fault::Reader),
        ReadStatus::Exhausted => Decoded::Failed(Fault::Stream),
    }
}

/// Takes a payload of `width` bits and reads it as a signed number: a payload
/// above `max` stands for itself less `modulus`.
pub open spec fn take_signed(s: ReaderView, width: nat, max: u64, modulus: int) -> Decoded<int> {
    match take(s, width) {
        Decoded::Failed(f) => Decoded::Failed(f),
        Decoded::Done(x, rest) => Decoded::Done(
            if x > max {
                x - modulus
            } else {
                x as int
            },
            rest,
        ),
    }
}

/// Decodes a delta of deltas.
pub open spec fn decode_dod(s: ReaderView) -> Decoded<int> {
    match take_bit(s) {
        Decoded::Failed(f) => Decoded::Failed(f),
        Decoded::Done(b1, s1) => if !b1 {
            Decoded::Done(0int, s1)
        } else {
            match take_bit(s1) {
                Decoded::Failed(f) => Decoded::Failed(f),
                Decoded::Done(b2, s2) => if !b2 {
                    take_signed(s2, 7, 64, 128)
                } else {
                    match take_bit(s2) {
                        Decoded::Failed(f) => Decoded::Failed(f),
                        Decoded::Done(b3, s3) => if !b3 {
                            take_signed(s3, 9, 256, 512)
                        } else {
                            match take_bit(s3) {
                                Decoded::Failed(f) => Decoded::Failed(f),
                                Decoded::Done(b4, s4) => if !b4 {
                                    take_signed(s4, 12, 2048, 4096)
                                } else {
                                    take_signed(s4, 32, 0x7fff_ffff, 0x1_0000_0000)
                                },
                            }
                        },
                    }
                },
            }
        },
    }
}

/// Decodes a timestamp that follows `prev_time`, where the gap before
/// `prev_time` was `prev_diff`: the timestamp and the new gap. A result outside
/// the 64-bit range is a fault.
pub open spec fn decode_time(s: ReaderView, prev_time: i64, prev_diff: i64) -> Decoded<(i64, i64)> {
    match decode_dod(s) {
        Decoded::Failed(f) => Decoded::Failed(f),
        Decoded::Done(dod, rest) => {
            let diff = prev_diff + dod;
            let time = prev_time + diff;
            if i64::MIN <= diff <= i64::MAX && i64::MIN <= time <= i64::MAX {
                Decoded::Done((time as i64, diff as i64), rest)
            } else {
                Decoded::Failed(Fault::Reader)
            }
        },
    }
}

/// Takes the payload of a value under the window `w` and rebuilds the value from
/// the one before it.
pub open spec fn take_xor(s: ReaderView, prev: u64, w: Zeros) -> Decoded<(u64, Zeros)> {
    match take(s, w.width()) {
        Decoded::Failed(f) => Decoded::Failed(f),
        Decoded::Done(payload, rest) => Decoded::Done((prev ^ (payload << w.trailing), w), rest),
    }
}

/// Decodes a value that follows `prev` under the window `w`: the value and the
/// window after it. A new window that does not fit in 64 bits, or that is
/// empty with no zero bit above it, is a fault.
pub open spec fn decode_value(s: ReaderView, prev: u64, w: Zeros) -> Decoded<(u64, Zeros)> {
    match take_bit(s) {
        Decoded::Failed(f) => Decoded::Failed(f),
        Decoded::Done(b1, s1) => if !b1 {
            Decoded::Done((prev, w), s1)
        } else {
            match take_bit(s1) {
                Decoded::Failed(f) => Decoded::Failed(f),
                Decoded::Done(b2, s2) => if !b2 {
                    take_xor(s2, prev, w)
                } else {
                    match take(s2, 5) {
                        Decoded::Failed(f) => Decoded::Failed(f),
                        Decoded::Done(lead, s3) => match take(s3, 6) {
                            Decoded::Failed(f) => Decoded::Failed(f),
                            Decoded::Done(nbits, s4) => if lead + nbits > 64 || lead + nbits == 0 {
                                Decoded::Failed(Fault::Reader)
                            } else {
                                take_xor(
                                    s4,
                                    prev,
                                    Zeros {
                                        leading: lead as u8,
                                        trailing: (64 - lead - nbits) as u8,
                                    },
                                )
                            },
                        },
                    }
                },
            }
        },
    }
}

/// Decodes the values of a sample from dimension `from` on, each against the
/// value and under the window of its own dimension: the values and the windows
/// of all dimensions afterwards.
pub open spec fn decode_values(s: ReaderView, prev: Seq<u64>, windows: Seq<Zeros>, from: int) -> Decoded<
    (Seq<u64>, Seq<Zeros>),
>
    decreases prev.len() - from,
{
    if from < 0 || from >= prev.len() {
        Decoded::Done((prev, windows), s)
    } else {
        match decode_value(s, prev[from], windows[from]) {
            Decoded::Failed(f) => Decoded::Failed(f),
            Decoded::Done(v, rest) => decode_values(
                rest,
                prev.update(from, v.0),
                windows.update(from, v.1),
                from + 1,
            ),
        }
    }
}

/// Takes `n` values of 64 bits each and appends them to `acc`.
pub open spec fn decode_raw(s: ReaderView, n: nat, acc: Seq<u64>) -> Decoded<Seq<u64>>
    decreases n,
{
    if n == 0 {
        Decoded::Done(acc, s)
    } else {
        match take(s, 64) {
            Decoded::Failed(f) => Decoded::Failed(f),
            Decoded::Done(v, rest) => decode_raw(rest, (n - 1) as nat, acc.push(v)),
        }
    }
}

/// A word with a set bit has at most 63 zero bits around its set bits.
pub proof fn lemma_window_of_nonzero(x: u64)
    requires
        x != 0,
    ensures
        0 <= leading(x) <= 63,
        0 <= trailing(x) <= 63,
        leading(x) + trailing(x) <= 63,
        window_of(x).wf(),
        1 <= window_of(x).width() <= 64,
{
    axiom_u64_leading_zeros(x);
    axiom_u64_trailing_zeros(x);
    if leading(x) + trailing(x) > 63 {
        let j = (63 - leading(x)) as u64;
        assert((x >> j) & 1u64 == 0u64);
    }
}

/// A value takes at least one bit and at most `MAX_VALUE_BITS`.
pub proof fn lemma_xor_bits_len(x: u64, w: Zeros)
    requires
        w.wf(),
    ensures
        1 <= xor_bits(x, w).len() <= MAX_VALUE_BITS,
{
    if x != 0 {
        lemma_window_of_nonzero(x);
    }
}

/// A timestamp takes at least one bit and at most `MAX_TIME_BITS`.
pub proof fn lemma_dod_bits_len(dod: int)
    ensures
        1 <= dod_bits(dod).len() <= MAX_TIME_BITS,
{
}

/// The values of a sample take at most `MAX_VALUE_BITS` each.
pub proof fn lemma_values_bits_len(values: Seq<u64>, prev: Seq<u64>, windows: Seq<Zeros>, from: int)
    requires
        0 <= from <= values.len(),
        windows.len() == values.len(),
        windows_wf(windows),
    ensures
        values_bits(values, prev, windows, from).len() <= (values.len() - from) * MAX_VALUE_BITS,
    decreases values.len() - from,
{
    if from < values.len() {
        lemma_xor_bits_len(values[from] ^ prev[from], windows[from]);
        lemma_values_bits_len(values, prev, windows, from + 1);
    }
}

/// The window after a value is well formed where the window before it is.
pub proof fn lemma_next_window_wf(x: u64, w: Zeros)
    requires
        w.wf(),
    ensures
        next_window(x, w).wf(),
{
    if x != 0 {
        lemma_window_of_nonzero(x);
    }
}

/// Writes a delta of deltas.
pub(crate) fn put_dod(body: &mut BitWriter, dod: i32) -> (r: Result<(), Error>)
    requires
        old(body).wf(),
        old(body)@.len() + MAX_TIME_BITS <= usize::MAX,
    ensures
        r is Ok,
        final(body).wf(),
        final(body)@ == old(body)@ + dod_bits(dod as int),
{
    let wide: i64 = dod as i64;
    if dod == 0 {
        body.write_bit(false)?;
        assert(body@ =~= old(body)@ + dod_bits(dod as int));
    } else if dod >= -63 && dod <= 64 {
        let payload: i64 = if wide >= 0 {
            wide
        } else {
            wide + 128
        };
        body.write_bit(true)?;
        body.write_bit(false)?;
        body.write(7, payload as u64)?;
        assert(body@ =~= old(body)@ + dod_bits(dod as int));
    } else if dod >= -255 && dod <= 256 {
        let payload: i64 = if wide >= 0 {
            wide
        } else {
            wide + 512
        };
        body.write_bit(true)?;
        body.write_bit(true)?;
        body.write_bit(false)?;
        body.write(9, payload as u64)?;
        assert(body@ =~= old(body)@ + dod_bits(dod as int));
    } else if dod >= -2047 && dod <= 2048 {
        let payload: i64 = if wide >= 0 {
            wide
        } else {
            wide + 4096
        };
        body.write_bit(true)?;
        body.write_bit(true)?;
        body.write_bit(true)?;
        body.write_bit(false)?;
        body.write(12, payload as u64)?;
        assert(body@ =~= old(body)@ + dod_bits(dod as int));
    } else {
        let payload: i64 = if wide >= 0 {
            wide
        } else {
            wide + 0x1_0000_0000
        };
        body.write_bit(true)?;
        body.write_bit(true)?;
        body.write_bit(true)?;
        body.write_bit(true)?;
        body.write(32, payload as u64)?;
        assert(body@ =~= old(body)@ + dod_bits(dod as int));
    }
    Ok(())
}

/// Writes a value whose XOR with the value before it is `xored`, and gives the
/// window for the value after it.
pub(crate) fn put_xor(body: &mut BitWriter, xored: u64, w: Zeros) -> (r: Result<Zeros, Error>)
    requires
        old(body).wf(),
        old(body)@.len() + MAX_VALUE_BITS <= usize::MAX,
        w.wf(),
    ensures
        r is Ok,
        r->Ok_0 == next_window(xored, w),
        r->Ok_0.wf(),
        final(body).wf(),
        final(body)@ == old(body)@ + xor_bits(xored, w),
{
    if xored == 0 {
        body.write_bit(false)?;
        assert(body@ =~= old(body)@ + xor_bits(xored, w));
        return Ok(w);
    }
    proof {
        lemma_window_of_nonzero(xored);
    }
    let leading: u8 = xored.leading_zeros() as u8;
    let trailing: u8 = xored.trailing_zeros() as u8;
    if leading >= w.leading && trailing >= w.trailing {
        let nbits: u8 = 64 - w.leading - w.trailing;
        body.write_bit(true)?;
        body.write_bit(false)?;
        body.write(nbits as u32, xored >> w.trailing)?;
        assert(body@ =~= old(body)@ + xor_bits(xored, w));
        Ok(w)
    } else {
        let nbits: u8 = 64 - leading - trailing;
        body.write_bit(true)?;
        body.write_bit(true)?;
        body.write(5, leading as u64)?;
        body.write(6, nbits as u64)?;
        body.write(nbits as u32, xored >> trailing)?;
        assert(body@ =~= old(body)@ + xor_bits(xored, w));
        Ok(Zeros { leading, trailing })
    }
}

/// Reads a payload of `width` bits as a signed number.
fn read_signed(reader: &mut BitReader, width: usize, max: u64, modulus: i64) -> (r: Result<
    i64,
    Error,
>)
    requires
        width <= 32,
        modulus >= 0,
    ensures
        match take_signed(old(reader)@, width as nat, max, modulus as int) {
            Decoded::Done(d, s) => r is Ok && r->Ok_0 == d && final(reader)@ == s,
            Decoded::Failed(f) => r is Err && f.reported_by(r->Err_0),
        },
{
    let x = reader.read(width)?;
    proof {
        lemma_bits_value_bound(old(reader)@.rest.subrange(0, width as int));
        lemma_mask_values();
        assert(low_mask(width as nat) <= low_mask(32)) by {
            let a = width as u64;
            assert(a <= 32 ==> (((1u64 << a) - 1) as u64) <= (((1u64 << 32u64) - 1) as u64))
                by (bit_vector);
        }
    }
    if x > max {
        Ok(x as i64 - modulus)
    } else {
        Ok(x as i64)
    }
}

/// Reads a delta of deltas.
pub(crate) fn get_dod(reader: &mut BitReader) -> (r: Result<i64, Error>)
    ensures
        match decode_dod(old(reader)@) {
            Decoded::Done(d, s) => r is Ok && r->Ok_0 == d && final(reader)@ == s,
            Decoded::Failed(f) => r is Err && f.reported_by(r->Err_0),
        },
{
    if !reader.read_bit()? {
        Ok(0)
    } else if !reader.read_bit()? {
        read_signed(reader, 7, 64, 128)
    } else if !reader.read_bit()? {
        read_signed(reader, 9, 256, 512)
    } else if !reader.read_bit()? {
        read_signed(reader, 12, 2048, 4096)
    } else {
        read_signed(reader, 32, 0x7fff_ffff, 0x1_0000_0000)
    }
}

/// Reads a timestamp that follows `prev_time`, where the gap before `prev_time`
/// was `prev_diff`.
pub(crate) fn get_time(reader: &mut BitReader, prev_time: i64, prev_diff: i64) -> (r: Result<
    (i64, i64),
    Error,
>)
    ensures
        match decode_time(old(reader)@, prev_time, prev_diff) {
            Decoded::Done(v, s) => r is Ok && r->Ok_0 == v && final(reader)@ == s,
            Decoded::Failed(f) => r is Err && f.reported_by(r->Err_0),
        },
{
    let dod = get_dod(reader)?;
    match prev_diff.checked_add(dod) {
        Some(diff) => match prev_time.checked_add(diff) {
            Some(time) => Ok((time, diff)),
            None => Err(Error::BitReaderError("Timestamp out of range")),
        },
        None => Err(Error::BitReaderError("Timestamp out of range")),
    }
}

/// Reads the payload of a value under the window `w`.
fn get_xor(reader: &mut BitReader, prev: u64, w: Zeros) -> (r: Result<(u64, Zeros), Error>)
    requires
        w.wf(),
    ensures
        match take_xor(old(reader)@, prev, w) {
            Decoded::Done(v, s) => r is Ok && r->Ok_0 == v && final(reader)@ == s,
            Decoded::Failed(f) => r is Err && f.reported_by(r->Err_0),
        },
{
    let nbits: u8 = 64 - w.leading - w.trailing;
    let payload = reader.read(nbits as usize)?;
    Ok((prev ^ (payload << w.trailing), w))
}

/// Reads a value that follows `prev` under the window `w`.
pub(crate) fn get_value(reader: &mut BitReader, prev: u64, w: Zeros) -> (r: Result<
    (u64, Zeros),
    Error,
>)
    requires
        w.wf(),
    ensures
        match decode_value(old(reader)@, prev, w) {
            Decoded::Done(v, s) => r is Ok && r->Ok_0 == v && v.1.wf() && final(reader)@ == s,
            Decoded::Failed(f) => r is Err && f.reported_by(r->Err_0),
        },
{
    if !reader.read_bit()? {
        Ok((prev, w))
    } else if !reader.read_bit()? {
        get_xor(reader, prev, w)
    } else {
        let ghost s2 = reader@;
        let leading = reader.read(5)?;
        let ghost s3 = reader@;
        let nbits = reader.read(6)?;
        proof {
            lemma_bits_value_bound(s2.rest.subrange(0, 5));
            lemma_bits_value_bound(s3.rest.subrange(0, 6));
            lemma_mask_values();
        }
        if leading + nbits > 64 || leading + nbits == 0 {
            return Err(Error::BitReaderError("Malformed value window"));
        }
        let trailing = 64 - leading - nbits;
        get_xor(reader, prev, Zeros { leading: leading as u8, trailing: trailing as u8 })
    }
}

} // verus!
