//! What holds of the codec as a whole: what was written is what is read.

use crate::gorilla::bits::{bits_value, low_bits, low_mask};
use crate::gorilla::bits::{lemma_mask_values, lemma_value_of_low_bits};
use crate::gorilla::bitstream::{fresh_reader, ReaderView};
use crate::gorilla::codec::{decode_dod, decode_value, decode_values, dod_bits};
use crate::gorilla::codec::{dod_payload, leading, next_window, next_windows, take, take_bit};
use crate::gorilla::codec::{take_signed, trailing, values_bits, window_of, windows_wf};
use crate::gorilla::codec::{lemma_window_of_nonzero, xor_bits};
use crate::gorilla::codec::{Decoded, MAX_DELTA};
use crate::gorilla::api::{block_bits, decode_block, decode_samples, first_rejection, samples_bits};
use crate::gorilla::api::Predictor;
use crate::gorilla::reader_mv::{decode_sample, Step};
use crate::gorilla::{Sample, Zeros};
use vstd::prelude::*;
use vstd::std_specs::bits::{axiom_u64_leading_zeros, axiom_u64_trailing_zeros};

verus! {

/// Whether the reader is about to hand out `bits`, and its stream is long
/// enough for them.
pub open spec fn at(s: ReaderView, bits: Seq<bool>) -> bool {
    &&& s.cursor + bits.len() <= s.length
    &&& bits.len() <= s.rest.len()
    &&& s.rest.subrange(0, bits.len() as int) == bits
}

/// A reader that is about to hand out `a` and then `b` is about to hand out
/// `a`, and after that `b`.
pub proof fn lemma_at_split(s: ReaderView, a: Seq<bool>, b: Seq<bool>)
    requires
        at(s, a + b),
    ensures
        at(s, a),
        at(s.advance(a.len()), b),
{
    let whole = s.rest.subrange(0, (a + b).len() as int);
    assert(s.rest.subrange(0, a.len() as int) =~= a) by {
        assert forall|i: int| 0 <= i < a.len() implies s.rest[i] == a[i] by {
            assert(whole[i] == (a + b)[i]);
        }
    }
    assert(s.advance(a.len()).rest.subrange(0, b.len() as int) =~= b) by {
        assert forall|i: int| 0 <= i < b.len() implies s.rest[a.len() + i] == b[i] by {
            assert(whole[a.len() + i] == (a + b)[a.len() + i]);
        }
    }
}

/// Taking bits in two steps leaves the reader where taking them at once does.
pub proof fn lemma_advance_twice(s: ReaderView, a: nat, b: nat)
    requires
        a + b <= s.rest.len(),
    ensures
        s.advance(a).advance(b) == s.advance(a + b),
{
    assert(s.rest.skip(a as int).skip(b as int) =~= s.rest.skip((a + b) as int));
}

/// A reader that is about to hand out the bits `a` takes them as the number they spell.
pub proof fn lemma_take_at(s: ReaderView, a: Seq<bool>)
    requires
        at(s, a),
    ensures
        take(s, a.len()) == Decoded::Done(bits_value(a), s.advance(a.len())),
{
}

/// A reader that is about to hand out the bit `b` and then `rest` takes `b`
/// and is then about to hand out `rest`.
pub proof fn lemma_take_bit_at(s: ReaderView, b: bool, rest: Seq<bool>)
    requires
        at(s, seq![b] + rest),
    ensures
        take_bit(s) == Decoded::Done(b, s.advance(1)),
        at(s.advance(1), rest),
{
    lemma_at_split(s, seq![b], rest);
    assert(s.rest.subrange(0, 1)[0] == b);
}

/// A number that fits in `n` bits is read back as it was written.
pub proof fn lemma_small_value(p: u64, n: nat)
    requires
        n <= 64,
        p <= low_mask(n),
    ensures
        bits_value(low_bits(p, n)) == p,
{
    lemma_value_of_low_bits(p, n);
    let m = n as u64;
    if n < 64 {
        assert(m < 64 && p <= (((1u64 << m) - 1) as u64) ==> p & (((1u64 << m) - 1) as u64) == p)
            by (bit_vector);
    } else {
        assert(p & u64::MAX == p) by (bit_vector);
    }
}

/// Reading back what `write(n, v)` wrote gives `v` cut to its `n` lowest bits,
/// wherever in a stream it was written.
pub proof fn law_write_then_read(head: Seq<bool>, v: u64, n: nat, tail: Seq<bool>)
    requires
        n <= 64,
    ensures
        ({
            let s = fresh_reader(head + low_bits(v, n) + tail).advance(head.len());
            take(s, n) == Decoded::Done(v & low_mask(n), s.advance(n))
        }),
{
    let all = head + low_bits(v, n) + tail;
    let s = fresh_reader(all).advance(head.len());
    lemma_value_of_low_bits(v, n);
    assert(s.rest.subrange(0, n as int) =~= low_bits(v, n));
    assert(at(s, low_bits(v, n)));
    lemma_take_at(s, low_bits(v, n));
}

/// A payload of a signed field is read back as the number that was written.
proof fn lemma_signed_field(s: ReaderView, dod: int, width: nat, max: u64, modulus: int)
    requires
        at(s, low_bits(dod_payload(dod, modulus), width)),
        width <= 32,
        modulus == low_mask(width) + 1,
        max < modulus,
        max - modulus < dod <= max,
    ensures
        take_signed(s, width, max, modulus) == Decoded::Done(dod, s.advance(width)),
{
    let p = dod_payload(dod, modulus);
    lemma_small_value(p, width);
    lemma_take_at(s, low_bits(p, width));
}

/// A delta of deltas is decoded as it was encoded.
pub proof fn lemma_dod_round_trip(s: ReaderView, dod: int)
    requires
        at(s, dod_bits(dod)),
        i32::MIN <= dod <= i32::MAX,
    ensures
        decode_dod(s) == Decoded::Done(dod, s.advance(dod_bits(dod).len())),
{
    lemma_mask_values();
    if dod == 0 {
        assert(dod_bits(dod) =~= seq![false] + Seq::<bool>::empty());
        lemma_take_bit_at(s, false, Seq::empty());
    } else {
        let s1 = s.advance(1);
        let s2 = s.advance(2);
        let s3 = s.advance(3);
        let s4 = s.advance(4);
        if -63 <= dod <= 64 {
            let payload = low_bits(dod_payload(dod, 128), 7);
            assert(dod_bits(dod) =~= seq![true] + (seq![false] + payload));
            lemma_take_bit_at(s, true, seq![false] + payload);
            lemma_take_bit_at(s1, false, payload);
            lemma_advance_twice(s, 1, 1);
            lemma_signed_field(s2, dod, 7, 64, 128);
            lemma_advance_twice(s, 2, 7);
        } else if -255 <= dod <= 256 {
            let payload = low_bits(dod_payload(dod, 512), 9);
            assert(dod_bits(dod) =~= seq![true] + (seq![true] + (seq![false] + payload)));
            lemma_take_bit_at(s, true, seq![true] + (seq![false] + payload));
            lemma_take_bit_at(s1, true, seq![false] + payload);
            lemma_advance_twice(s, 1, 1);
            lemma_take_bit_at(s2, false, payload);
            lemma_advance_twice(s, 2, 1);
            lemma_signed_field(s3, dod, 9, 256, 512);
            lemma_advance_twice(s, 3, 9);
        } else if -2047 <= dod <= 2048 {
            let payload = low_bits(dod_payload(dod, 4096), 12);
            assert(dod_bits(dod) =~= seq![true] + (seq![true] + (seq![true] + (seq![false]
                + payload))));
            lemma_take_bit_at(s, true, seq![true] + (seq![true] + (seq![false] + payload)));
            lemma_take_bit_at(s1, true, seq![true] + (seq![false] + payload));
            lemma_advance_twice(s, 1, 1);
            lemma_take_bit_at(s2, true, seq![false] + payload);
            lemma_advance_twice(s, 2, 1);
            lemma_take_bit_at(s3, false, payload);
            lemma_advance_twice(s, 3, 1);
            lemma_signed_field(s4, dod, 12, 2048, 4096);
            lemma_advance_twice(s, 4, 12);
        } else {
            let payload = low_bits(dod_payload(dod, 0x1_0000_0000), 32);
            assert(dod_bits(dod) =~= seq![true] + (seq![true] + (seq![true] + (seq![true]
                + payload))));
            lemma_take_bit_at(s, true, seq![true] + (seq![true] + (seq![true] + payload)));
            lemma_take_bit_at(s1, true, seq![true] + (seq![true] + payload));
            lemma_advance_twice(s, 1, 1);
            lemma_take_bit_at(s2, true, seq![true] + payload);
            lemma_advance_twice(s, 2, 1);
            lemma_take_bit_at(s3, true, payload);
            lemma_advance_twice(s, 3, 1);
            lemma_signed_field(s4, dod, 32, 0x7fff_ffff, 0x1_0000_0000);
            lemma_advance_twice(s, 4, 32);
        }
    }
}

/// The number of bits that a delta of deltas takes: the least that its range allows.
pub open spec fn dod_width(dod: int) -> nat {
    if dod == 0 {
        1
    } else if -63 <= dod <= 64 {
        9
    } else if -255 <= dod <= 256 {
        12
    } else if -2047 <= dod <= 2048 {
        16
    } else {
        36
    }
}

/// Every delta of deltas that fits in 32 bits is decoded as exactly the number
/// that was encoded, whatever follows it in the stream, and takes the number
/// of bits of the narrowest range that holds it: 64, 256 and 2048 take the
/// fields of 7, 9 and 12 bits, as do -63, -255 and -2047.
pub proof fn law_dod_round_trip(head: Seq<bool>, dod: int, tail: Seq<bool>)
    requires
        i32::MIN <= dod <= i32::MAX,
    ensures
        dod_bits(dod).len() == dod_width(dod),
        ({
            let s = fresh_reader(head + dod_bits(dod) + tail).advance(head.len());
            decode_dod(s) == Decoded::Done(dod, s.advance(dod_width(dod)))
        }),
{
    let s = fresh_reader(head + dod_bits(dod) + tail).advance(head.len());
    assert(s.rest.subrange(0, dod_bits(dod).len() as int) =~= dod_bits(dod));
    lemma_dod_round_trip(s, dod);
}

/// Whether a value whose XOR with the value before it is `x` is decoded as it
/// was encoded under the window `w`: `x` is 0, or lies inside `w`, or its own
/// window can be written down, with fewer than 32 zero bits above it and
/// fewer than 64 bits in it.
pub open spec fn window_fits(x: u64, w: Zeros) -> bool {
    x == 0 || w.holds(x) || (leading(x) < 32 && leading(x) + trailing(x) >= 1)
}

/// The bits of `x` inside a window that holds all its set bits are a number
/// that fits the window, and `x` is that number shifted back into place.
pub proof fn lemma_window_payload(x: u64, w: Zeros)
    requires
        w.wf(),
        w.holds(x),
    ensures
        (x >> w.trailing) <= low_mask(w.width()),
        ((x >> w.trailing) << w.trailing) == x,
{
    axiom_u64_leading_zeros(x);
    axiom_u64_trailing_zeros(x);
    let lz = leading(x) as u64;
    let tz = trailing(x) as u64;
    let l = w.leading as u64;
    let t = w.trailing as u64;
    let hi = (64 - lz) as u64;
    let lo = (64 - tz) as u64;
    assert(x >> hi == 0);
    assert(x << lo == 0);
    let n = (64 - l - t) as u64;
    assert(l <= lz <= 64 && hi == 64 - lz && t <= 63 && l + t <= 64 && n == 64 - l - t && (x >> hi)
        == 0 ==> (x >> t) <= (if n >= 64 {
        0xffff_ffff_ffff_ffffu64
    } else {
        ((1u64 << n) - 1) as u64
    })) by (bit_vector);
    assert(t <= tz <= 64 && t <= 63 && lo == 64 - tz && (x << lo) == 0 ==> ((x >> t) << t) == x)
        by (bit_vector);
}

/// A value is decoded as it was encoded, where its window fits.
pub proof fn lemma_value_round_trip(s: ReaderView, prev: u64, v: u64, w: Zeros)
    requires
        at(s, xor_bits(v ^ prev, w)),
        w.wf(),
        window_fits(v ^ prev, w),
    ensures
        decode_value(s, prev, w) == Decoded::Done(
            (v, next_window(v ^ prev, w)),
            s.advance(xor_bits(v ^ prev, w).len()),
        ),
{
    let x = v ^ prev;
    assert(prev ^ (v ^ prev) == v) by (bit_vector);
    assert(x == 0 ==> v == prev) by {
        assert((v ^ prev) == 0 ==> v == prev) by (bit_vector);
    }
    lemma_mask_values();
    let s1 = s.advance(1);
    let s2 = s.advance(2);
    if x == 0 {
        assert(xor_bits(x, w) =~= seq![false] + Seq::<bool>::empty());
        lemma_take_bit_at(s, false, Seq::empty());
    } else if w.holds(x) {
        let payload = low_bits(x >> w.trailing, w.width());
        assert(xor_bits(x, w) =~= seq![true] + (seq![false] + payload));
        lemma_take_bit_at(s, true, seq![false] + payload);
        lemma_take_bit_at(s1, false, payload);
        lemma_advance_twice(s, 1, 1);
        lemma_window_payload(x, w);
        lemma_small_value(x >> w.trailing, w.width());
        lemma_take_at(s2, payload);
        lemma_advance_twice(s, 2, w.width());
    } else {
        lemma_window_of_nonzero(x);
        let nw = window_of(x);
        let lead = low_bits(leading(x) as u64, 5);
        let size = low_bits(nw.width() as u64, 6);
        let payload = low_bits(x >> nw.trailing, nw.width());
        assert(xor_bits(x, w) =~= seq![true] + (seq![true] + (lead + (size + payload))));
        lemma_take_bit_at(s, true, seq![true] + (lead + (size + payload)));
        lemma_take_bit_at(s1, true, lead + (size + payload));
        lemma_advance_twice(s, 1, 1);
        lemma_at_split(s2, lead, size + payload);
        lemma_small_value(leading(x) as u64, 5);
        lemma_take_at(s2, lead);
        let s3 = s2.advance(5);
        lemma_at_split(s3, size, payload);
        lemma_small_value(nw.width() as u64, 6);
        lemma_take_at(s3, size);
        let s4 = s3.advance(6);
        lemma_window_payload(x, nw);
        lemma_small_value(x >> nw.trailing, nw.width());
        lemma_take_at(s4, payload);
        lemma_advance_twice(s, 2, 5);
        lemma_advance_twice(s, 7, 6);
        lemma_advance_twice(s, 13, nw.width());
        assert(nw == Zeros { leading: leading(x) as u8, trailing: (64 - leading(x) - nw.width()) as u8 });
    }
}

/// A value whose window does not fit is not decoded as it was encoded: the
/// reader fails, or gives another value.
pub proof fn law_window_needed(s: ReaderView, prev: u64, v: u64, w: Zeros)
    requires
        at(s, xor_bits(v ^ prev, w)),
        w.wf(),
        !window_fits(v ^ prev, w),
    ensures
        !(decode_value(s, prev, w) matches Decoded::Done(d, _) && d.0 == v),
{
    let x = v ^ prev;
    lemma_mask_values();
    lemma_window_of_nonzero(x);
    axiom_u64_leading_zeros(x);
    let nw = window_of(x);
    let l = leading(x) as u64;
    let t = trailing(x) as u64;
    let n = nw.width() as u64;
    let lead = low_bits(l, 5);
    let size = low_bits(n, 6);
    let payload = low_bits(x >> nw.trailing, nw.width());
    let s1 = s.advance(1);
    let s2 = s.advance(2);
    assert(xor_bits(x, w) =~= seq![true] + (seq![true] + (lead + (size + payload))));
    lemma_take_bit_at(s, true, seq![true] + (lead + (size + payload)));
    lemma_take_bit_at(s1, true, lead + (size + payload));
    lemma_advance_twice(s, 1, 1);
    lemma_at_split(s2, lead, size + payload);
    lemma_take_at(s2, lead);
    let s3 = s2.advance(5);
    lemma_at_split(s3, size, payload);
    lemma_take_at(s3, size);
    let s4 = s3.advance(6);
    lemma_value_of_low_bits(l, 5);
    lemma_value_of_low_bits(n, 6);
    let got_lead = l & 31;
    let got_size = n & 63;
    if leading(x) + trailing(x) == 0 {
        assert(0u64 & 31 == 0 && 64u64 & 63 == 0) by (bit_vector);
    } else {
        assert(32 <= l <= 63 && 1 <= n <= 32 ==> l & 31 == l - 32 && n & 63 == n) by (bit_vector);
        let moved = Zeros { leading: got_lead as u8, trailing: (64 - got_lead - got_size) as u8 };
        lemma_window_payload(x, nw);
        lemma_small_value(x >> nw.trailing, nw.width());
        lemma_take_at(s4, payload);
        let far = (t + 32) as u64;
        let hi = (64 - l) as u64;
        assert(x >> hi == 0);
        assert(32 <= l && hi == 64 - l && (x >> hi) == 0 && x != 0 && t <= 31 && far == t + 32 && ((x
            >> t) << t) == x ==> ((x >> t) << far) != x) by (bit_vector);
        let other = (x >> t) << far;
        assert(other != x ==> (prev ^ other) != (prev ^ x)) by (bit_vector);
        assert(prev ^ (v ^ prev) == v) by (bit_vector);
    }
}

/// A value whose XOR with the value before it lies inside the window takes
/// the prefix `10` and the bits of the window, and leaves the window as it
/// was; one that does not takes the prefix `11`, 11 bits for its own window
/// and the bits of that window, and makes it the window.
pub proof fn law_predictor_persistence(x: u64, w: Zeros)
    requires
        x != 0,
        w.wf(),
    ensures
        w.holds(x) ==> xor_bits(x, w).subrange(0, 2) == seq![true, false] && xor_bits(x, w).len() == 2
            + w.width() && next_window(x, w) == w,
        !w.holds(x) ==> xor_bits(x, w).subrange(0, 2) == seq![true, true] && xor_bits(x, w).len()
            == 13 + window_of(x).width() && next_window(x, w) == window_of(x),
{
    if w.holds(x) {
        assert(xor_bits(x, w).subrange(0, 2) =~= seq![true, false]);
    } else {
        assert(xor_bits(x, w).subrange(0, 2) =~= seq![true, true]);
    }
}

/// Whether each value of a sample is decoded as it was encoded, against the
/// values `prev` and under the windows `windows`.
pub open spec fn values_fit(values: Seq<u64>, prev: Seq<u64>, windows: Seq<Zeros>) -> bool {
    forall|j: int| 0 <= j < values.len() ==> window_fits(#[trigger] values[j] ^ prev[j], windows[j])
}

/// The values of a sample are decoded as they were encoded, where their windows fit.
pub proof fn lemma_values_round_trip(
    s: ReaderView,
    values: Seq<u64>,
    prev: Seq<u64>,
    windows: Seq<Zeros>,
    now_prev: Seq<u64>,
    now_windows: Seq<Zeros>,
    from: int,
)
    requires
        0 <= from <= values.len(),
        prev.len() == values.len(),
        windows.len() == values.len(),
        now_prev.len() == values.len(),
        now_windows.len() == values.len(),
        windows_wf(windows),
        values_fit(values, prev, windows),
        at(s, values_bits(values, prev, windows, from)),
        forall|j: int| 0 <= j < from ==> now_prev[j] == values[j],
        forall|j: int| 0 <= j < from ==> now_windows[j] == next_window(values[j] ^ prev[j], windows[j]),
        forall|j: int| from <= j < values.len() ==> now_prev[j] == prev[j],
        forall|j: int| from <= j < values.len() ==> now_windows[j] == windows[j],
    ensures
        decode_values(s, now_prev, now_windows, from) == Decoded::Done(
            (values, next_windows(values, prev, windows)),
            s.advance(values_bits(values, prev, windows, from).len()),
        ),
    decreases values.len() - from,
{
    if from == values.len() {
        assert(now_prev =~= values);
        assert(now_windows =~= next_windows(values, prev, windows));
        assert(s.rest.skip(0) =~= s.rest);
    } else {
        let x = values[from] ^ prev[from];
        let first = xor_bits(x, windows[from]);
        let rest = values_bits(values, prev, windows, from + 1);
        assert(window_fits(values[from] ^ prev[from], windows[from]));
        lemma_at_split(s, first, rest);
        lemma_value_round_trip(s, prev[from], values[from], windows[from]);
        let s1 = s.advance(first.len());
        lemma_values_round_trip(
            s1,
            values,
            prev,
            windows,
            now_prev.update(from, values[from]),
            now_windows.update(from, next_window(x, windows[from])),
            from + 1,
        );
        lemma_advance_twice(s, first.len(), rest.len());
    }
}

impl Predictor {
    /// The gap is one that a writer keeps, and each dimension has a value and
    /// a well-formed window.
    pub open spec fn wf(self) -> bool {
        &&& 0 <= self.delta <= MAX_DELTA
        &&& self.windows.len() == self.values.len()
        &&& windows_wf(self.windows)
    }

    /// The sample that the next one is decoded against.
    pub open spec fn sample(self) -> Sample {
        Sample { time: self.time, values: self.values }
    }
}

/// A sample that can be appended leaves a well-formed predictor.
pub proof fn lemma_after_wf(p: Predictor, sample: Sample)
    requires
        p.wf(),
        p.rejection(sample) is None,
    ensures
        p.after(sample).wf(),
        p.after(sample).values.len() == p.values.len(),
{
    assert forall|j: int| 0 <= j < sample.values.len() implies (#[trigger] p.after(
        sample,
    ).windows[j]).wf() by {
        crate::gorilla::codec::lemma_next_window_wf(sample.values[j] ^ p.values[j], p.windows[j]);
    }
}

/// A sample is decoded as it was encoded, where the windows of its values fit.
pub proof fn lemma_sample_round_trip(s: ReaderView, p: Predictor, sample: Sample)
    requires
        p.wf(),
        p.rejection(sample) is None,
        values_fit(sample.values, p.values, p.windows),
        at(s, p.bits_of(sample)),
    ensures
        decode_sample(s, p.sample(), p.delta as i64, p.windows) == Decoded::Done(
            Step {
                sample,
                diff: p.after(sample).delta as i64,
                windows: p.after(sample).windows,
            },
            s.advance(p.bits_of(sample).len()),
        ),
{
    let dod = sample.time - p.time - p.delta;
    let time_bits = dod_bits(dod);
    let rest = values_bits(sample.values, p.values, p.windows, 0);
    lemma_at_split(s, time_bits, rest);
    lemma_dod_round_trip(s, dod);
    let s1 = s.advance(time_bits.len());
    lemma_values_round_trip(s1, sample.values, p.values, p.windows, p.values, p.windows, 0);
    lemma_advance_twice(s, time_bits.len(), rest.len());
}

/// Whether each sample from `from` on is decoded as it was encoded: the
/// windows of its values fit, under the predictor that the samples before it leave.
pub open spec fn windows_suffice(p: Predictor, samples: Seq<Sample>, from: int) -> bool
    decreases samples.len() - from,
{
    if from < 0 || from >= samples.len() {
        true
    } else {
        values_fit(samples[from].values, p.values, p.windows) && windows_suffice(
            p.after(samples[from]),
            samples,
            from + 1,
        )
    }
}

/// The samples from `from` on are decoded as they were encoded.
pub proof fn lemma_samples_round_trip(
    s: ReaderView,
    p: Predictor,
    samples: Seq<Sample>,
    from: int,
    acc: Seq<Sample>,
)
    requires
        0 <= from <= samples.len(),
        p.wf(),
        first_rejection(p, samples, from) is None,
        windows_suffice(p, samples, from),
        at(s, samples_bits(p, samples, from)),
        acc == samples.subrange(0, from),
    ensures
        decode_samples(s, p.sample(), p.delta as i64, p.windows, (samples.len() - from) as nat, acc)
            == Decoded::Done(samples, s.advance(samples_bits(p, samples, from).len())),
    decreases samples.len() - from,
{
    if from == samples.len() {
        assert(acc =~= samples);
        assert(s.rest.skip(0) =~= s.rest);
    } else {
        let sample = samples[from];
        let first = p.bits_of(sample);
        let rest = samples_bits(p.after(sample), samples, from + 1);
        lemma_at_split(s, first, rest);
        lemma_sample_round_trip(s, p, sample);
        lemma_after_wf(p, sample);
        assert(acc.push(sample) =~= samples.subrange(0, from + 1));
        lemma_samples_round_trip(
            s.advance(first.len()),
            p.after(sample),
            samples,
            from + 1,
            acc.push(sample),
        );
        lemma_advance_twice(s, first.len(), rest.len());
    }
}

/// Whether `samples` can be compressed into a block of `dim` dimensions whose
/// header timestamp is `header`: each has `dim` values, none is older than the
/// one before it, the first is not older than the header, and none of these
/// gaps is over `MAX_DELTA` seconds.
pub open spec fn valid_series(samples: Seq<Sample>, header: i64, dim: nat) -> bool {
    &&& forall|i: int| 0 <= i < samples.len() ==> (#[trigger] samples[i]).values.len() == dim
    &&& samples.len() > 0 ==> 0 <= samples[0].time - header <= MAX_DELTA
    &&& forall|i: int|
        0 <= i < samples.len() - 1 ==> 0 <= samples[i + 1].time - (#[trigger] samples[i]).time
            <= MAX_DELTA
}

/// No sample of a valid series is refused.
pub proof fn lemma_valid_series_accepted(
    p: Predictor,
    samples: Seq<Sample>,
    header: i64,
    dim: nat,
    from: int,
)
    requires
        valid_series(samples, header, dim),
        0 <= from <= samples.len(),
        p.values.len() == dim,
        p.time == (if from == 0 {
            header
        } else {
            samples[from - 1].time
        }),
    ensures
        first_rejection(p, samples, from) is None,
    decreases samples.len() - from,
{
    if from < samples.len() {
        assert(samples[from].values.len() == dim);
        if from > 0 {
            assert(0 <= samples[(from - 1) + 1].time - samples[from - 1].time <= MAX_DELTA);
        }
        lemma_valid_series_accepted(p.after(samples[from]), samples, header, dim, from + 1);
    }
}

/// Decompressing a compressed series gives the series back, timestamps and
/// bit patterns of the values alike: for every valid series in which each
/// value that starts a new window differs from the value before it in a
/// window that the block can record.
pub proof fn law_block_round_trip(samples: Seq<Sample>, header: i64, dim: nat)
    requires
        valid_series(samples, header, dim),
        windows_suffice(Predictor::start(header, dim), samples, 0),
    ensures
        first_rejection(Predictor::start(header, dim), samples, 0) is None,
        decode_block(fresh_reader(block_bits(samples, header, dim)), dim, samples.len()) matches Decoded::Done(
            out,
            _,
        ) && out == samples,
{
    let p = Predictor::start(header, dim);
    lemma_valid_series_accepted(p, samples, header, dim, 0);
    let head = low_bits(header as u64, 64);
    let body = samples_bits(p, samples, 0);
    let s = fresh_reader(block_bits(samples, header, dim));
    assert(s.rest.subrange(0, (head + body).len() as int) =~= head + body);
    lemma_at_split(s, head, body);
    lemma_take_at(s, head);
    lemma_value_of_low_bits(header as u64, 64);
    let word = header as u64;
    assert(word & 0xffff_ffff_ffff_ffffu64 == word && (word as i64) == header) by (bit_vector)
        requires
            word == header as u64,
    ;
    assert(samples.subrange(0, 0) =~= Seq::<Sample>::empty());
    assert forall|j: int| 0 <= j < p.windows.len() implies (#[trigger] p.windows[j]).wf() by {}
    lemma_samples_round_trip(s.advance(64), p, samples, 0, Seq::empty());
}

} // verus!
