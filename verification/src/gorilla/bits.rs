//! Sequences of bits as mathematical values, and their relation to machine words.

use vstd::prelude::*;

verus! {

/// Whether bit `i` of `v` is set, counting from the least significant bit.
pub open spec fn bit_of(v: u64, i: int) -> bool {
    0 <= i < 64 && (v >> (i as u64)) & 1 == 1
}

/// The `n` lowest bits of `v`, least significant first.
pub open spec fn low_bits(v: u64, n: nat) -> Seq<bool> {
    Seq::new(n, |i: int| bit_of(v, i))
}

/// The word whose binary digits, least significant first, are `bits`.
pub open spec fn bits_value(bits: Seq<bool>) -> u64
    decreases bits.len(),
{
    if bits.len() == 0 {
        0
    } else {
        (bits_value(bits.drop_first()) << 1) | (if bits[0] { 1u64 } else { 0u64 })
    }
}

/// The word with exactly its `n` lowest bits set.
pub open spec fn low_mask(n: nat) -> u64 {
    if n >= 64 {
        u64::MAX
    } else {
        ((1u64 << (n as u64)) - 1) as u64
    }
}

/// Eight bits per byte, least significant bit of each byte first.
pub open spec fn unpack(bytes: Seq<u8>) -> Seq<bool> {
    Seq::new(8 * bytes.len(), |i: int| bit_of(bytes[i / 8] as u64, i % 8))
}

/// The whole bytes that `bits` fill, least significant bit of each byte first;
/// bits after the last whole byte are left out.
pub open spec fn pack(bits: Seq<bool>) -> Seq<u8> {
    Seq::new(bits.len() / 8, |k: int| bits_value(bits.subrange(8 * k, 8 * k + 8)) as u8)
}

pub proof fn lemma_low_bits_shift(v: u64, n: nat)
    requires
        1 <= n <= 64,
    ensures
        low_bits(v, n).drop_first() == low_bits(v >> 1, (n - 1) as nat),
{
    assert forall|i: int| 0 <= i < n - 1 implies bit_of(v, i + 1) == bit_of(v >> 1, i) by {
        let a = i as u64;
        let b = (i + 1) as u64;
        assert(a < 63 && b == a + 1 ==> (v >> b) & 1 == ((v >> 1) >> a) & 1) by (bit_vector);
    }
    assert(low_bits(v, n).drop_first() =~= low_bits(v >> 1, (n - 1) as nat));
}

/// Reading back the `n` lowest bits of a word gives the word cut to `n` bits.
pub proof fn lemma_value_of_low_bits(v: u64, n: nat)
    requires
        n <= 64,
    ensures
        bits_value(low_bits(v, n)) == v & low_mask(n),
    decreases n,
{
    if n == 0 {
        assert(v & 0 == 0) by (bit_vector);
        assert(1u64 << 0u64 == 1) by (bit_vector);
    } else {
        lemma_low_bits_shift(v, n);
        lemma_value_of_low_bits(v >> 1, (n - 1) as nat);
        let m = n as u64;
        let rest = (v >> 1) & low_mask((n - 1) as nat);
        let bit = if low_bits(v, n)[0] { 1u64 } else { 0u64 };
        assert((v >> 0u64) & 1 == v & 1) by (bit_vector);
        assert(bit == v & 1) by {
            assert(v & 1 == 0 || v & 1 == 1) by (bit_vector);
        }
        if n == 64 {
            assert((((v >> 1) & (((1u64 << 63u64) - 1) as u64)) << 1) | (v & 1) == v & u64::MAX)
                by (bit_vector);
        } else {
            assert(1 <= m < 64 ==> (((v >> 1) & (((1u64 << ((m - 1) as u64)) - 1) as u64)) << 1) | (v
                & 1) == v & (((1u64 << m) - 1) as u64)) by (bit_vector);
        }
    }
}

/// Only the `n` lowest bits of a word matter to `low_bits`.
pub proof fn lemma_low_bits_masked(v: u64, n: nat)
    requires
        n <= 64,
    ensures
        low_bits(v & low_mask(n), n) == low_bits(v, n),
{
    assert forall|i: int| 0 <= i < n implies bit_of(v & low_mask(n), i) == bit_of(v, i) by {
        let a = i as u64;
        let m = n as u64;
        if n == 64 {
            assert(v & u64::MAX == v) by (bit_vector);
        } else {
            assert(a < m < 64 ==> ((v & (((1u64 << m) - 1) as u64)) >> a) & 1 == (v >> a) & 1)
                by (bit_vector);
        }
    }
    assert(low_bits(v & low_mask(n), n) =~= low_bits(v, n));
}

/// The word 0 has no bit set.
pub proof fn lemma_zero_bits(n: nat)
    ensures
        forall|i: int| 0 <= i < n ==> !(#[trigger] low_bits(0, n)[i]),
{
    assert forall|i: int| 0 <= i < n implies !(#[trigger] low_bits(0, n)[i]) by {
        let a = i as u64;
        assert((0u64 >> a) & 1 == 0) by (bit_vector);
    }
}

/// The masks of the field widths that the codec uses.
pub proof fn lemma_mask_values()
    ensures
        low_mask(0) == 0,
        low_mask(1) == 1,
        low_mask(5) == 31,
        low_mask(6) == 63,
        low_mask(7) == 127,
        low_mask(9) == 511,
        low_mask(12) == 4095,
        low_mask(14) == 16383,
        low_mask(32) == 0xffff_ffff,
{
    assert((1u64 << 0u64) == 1 && (1u64 << 1u64) == 2 && (1u64 << 5u64) == 32 && (1u64 << 6u64) == 64
        && (1u64 << 7u64) == 128 && (1u64 << 9u64) == 512 && (1u64 << 12u64) == 4096 && (1u64
        << 14u64) == 16384 && (1u64 << 32u64) == 0x1_0000_0000) by (bit_vector);
}

/// A number spelled with `n` bits is below 2 to the `n`.
pub proof fn lemma_bits_value_bound(bits: Seq<bool>)
    requires
        bits.len() <= 64,
    ensures
        bits_value(bits) <= low_mask(bits.len()),
    decreases bits.len(),
{
    if bits.len() == 0 {
        assert(1u64 << 0u64 == 1) by (bit_vector);
    } else {
        lemma_bits_value_bound(bits.drop_first());
        let rest = bits_value(bits.drop_first());
        let b = if bits[0] { 1u64 } else { 0u64 };
        let n = bits.len() as u64;
        if n == 64 {
        } else {
            assert(1 <= n < 64 && rest <= (((1u64 << ((n - 1) as u64)) - 1) as u64) && b <= 1 ==> ((rest
                << 1) | b) <= (((1u64 << n) - 1) as u64)) by (bit_vector);
        }
    }
}

/// Each bit of the number that `bits` spell is the bit of `bits` at that place.
pub proof fn lemma_bit_of_value(bits: Seq<bool>, j: int)
    requires
        bits.len() <= 64,
        0 <= j < bits.len(),
    ensures
        bit_of(bits_value(bits), j) == bits[j],
    decreases bits.len(),
{
    let rest = bits_value(bits.drop_first());
    let b = if bits[0] { 1u64 } else { 0u64 };
    let a = j as u64;
    if j == 0 {
        assert(b <= 1 ==> ((((rest << 1) | b) >> 0u64) & 1 == 1 <==> b == 1)) by (bit_vector);
    } else {
        lemma_bit_of_value(bits.drop_first(), j - 1);
        let p = (j - 1) as u64;
        assert(b <= 1 && 1 <= a < 64 && p == a - 1 ==> (((rest << 1) | b) >> a) & 1 == (rest >> p) & 1)
            by (bit_vector);
    }
}

/// Unpacking the bytes that whole bytes of bits were packed into gives the bits back.
pub proof fn lemma_unpack_pack(bits: Seq<bool>)
    requires
        bits.len() % 8 == 0,
    ensures
        unpack(pack(bits)) == bits,
{
    assert(unpack(pack(bits)).len() == bits.len());
    assert forall|i: int| 0 <= i < bits.len() implies unpack(pack(bits))[i] == bits[i] by {
        let k = i / 8;
        let part = bits.subrange(8 * k, 8 * k + 8);
        lemma_bits_value_bound(part);
        lemma_bit_of_value(part, i % 8);
        let v = bits_value(part);
        assert(low_mask(8) == 255) by {
            assert((1u64 << 8u64) == 256) by (bit_vector);
        }
        assert((v as u8) as u64 == v);
    }
    assert(unpack(pack(bits)) =~= bits);
}

} // verus!
