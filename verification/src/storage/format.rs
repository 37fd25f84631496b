//! Length-prefixed fields in a byte buffer.

use crate::wire::{invalid_input, read_u32_le, write_all, write_u32_le};
use vstd::bytes::{spec_u32_from_le_bytes, spec_u32_to_le_bytes};
use vstd::prelude::*;
use vstd::slice::{slice_subrange, slice_to_vec};

verus! {

/// The largest number of bytes that a length field can state.
pub const MAX_FIELD: usize = 0xffff_ffff;

/// The number that the four bytes at `pos` spell, lowest first, if they are there.
pub open spec fn u32_at(bytes: Seq<u8>, pos: int) -> Option<u32> {
    if 0 <= pos && pos + 4 <= bytes.len() {
        Some(spec_u32_from_le_bytes(bytes.subrange(pos, pos + 4)))
    } else {
        None
    }
}

/// The `len` bytes at `pos`, if they are there.
pub open spec fn bytes_at(bytes: Seq<u8>, pos: int, len: int) -> Option<Seq<u8>> {
    if 0 <= pos && 0 <= len && pos + len <= bytes.len() {
        Some(bytes.subrange(pos, pos + len))
    } else {
        None
    }
}

/// A field: its length in four bytes, lowest first, then its bytes.
pub open spec fn field(data: Seq<u8>) -> Seq<u8> {
    spec_u32_to_le_bytes(data.len() as u32) + data
}

/// The field at `pos` and the place after it, if the field is there in full.
pub open spec fn field_at(bytes: Seq<u8>, pos: int) -> Option<(Seq<u8>, int)> {
    match u32_at(bytes, pos) {
        None => None,
        Some(len) => match bytes_at(bytes, pos + 4, len as int) {
            None => None,
            Some(data) => Some((data, pos + 4 + len)),
        },
    }
}

/// A key and its value.
pub struct Pair {
    pub key: Seq<u8>,
    pub value: Seq<u8>,
}

/// A pair on disk: the field of its key, then the field of its value.
pub open spec fn pair_bytes(pair: Pair) -> Seq<u8> {
    field(pair.key) + field(pair.value)
}

/// The number of bytes that a pair takes on disk.
pub open spec fn pair_size(pair: Pair) -> nat {
    8 + pair.key.len() + pair.value.len()
}

/// The pair at `pos` and the place after it, if the pair is there in full.
pub open spec fn pair_at(bytes: Seq<u8>, pos: int) -> Option<(Pair, int)> {
    match field_at(bytes, pos) {
        None => None,
        Some(k) => match field_at(bytes, k.1) {
            None => None,
            Some(v) => Some((Pair { key: k.0, value: v.0 }, v.1)),
        },
    }
}

/// The pair that a key and a value in memory stand for.
pub open spec fn pair_of(entry: (Vec<u8>, Vec<u8>)) -> Pair {
    Pair { key: entry.0@, value: entry.1@ }
}

/// Appends the field of `data`.
pub(crate) fn put_field(buf: &mut Vec<u8>, data: &[u8])
    requires
        data@.len() <= MAX_FIELD,
    ensures
        final(buf)@ == old(buf)@ + field(data@),
{
    let _ = write_u32_le(buf, data.len() as u32);
    write_all(buf, data);
    assert(buf@ =~= old(buf)@ + field(data@));
}

/// Reads the field at `pos`.
pub(crate) fn get_field(bytes: &[u8], pos: usize) -> (r: Result<(Vec<u8>, usize), std::io::Error>)
    requires
        pos <= bytes@.len(),
    ensures
        match field_at(bytes@, pos as int) {
            Some(f) => r is Ok && r->Ok_0.0@ == f.0 && r->Ok_0.1 == f.1 && f.1 <= bytes@.len(),
            None => r is Err,
        },
{
    let total: usize = bytes.len();
    assert(total == bytes@.len());
    let len = match read_u32_le(bytes, pos) {
        Ok(n) => n as usize,
        Err(e) => {
            return Err(e);
        },
    };
    if len > total - (pos + 4) {
        return Err(invalid_input("a field ends inside its file"));
    }
    let data = slice_to_vec(slice_subrange(bytes, pos + 4, pos + 4 + len));
    Ok((data, pos + 4 + len))
}

/// Reads the pair at `pos`.
pub(crate) fn get_pair(bytes: &[u8], pos: usize) -> (r: Result<
    (Vec<u8>, Vec<u8>, usize),
    std::io::Error,
>)
    requires
        pos <= bytes@.len(),
    ensures
        match pair_at(bytes@, pos as int) {
            Some(p) => r is Ok && r->Ok_0.0@ == p.0.key && r->Ok_0.1@ == p.0.value && r->Ok_0.2
                == p.1 && p.1 <= bytes@.len(),
            None => r is Err,
        },
{
    let (key, after_key) = match get_field(bytes, pos) {
        Ok(f) => f,
        Err(e) => {
            return Err(e);
        },
    };
    match get_field(bytes, after_key) {
        Ok((value, after_value)) => Ok((key, value, after_value)),
        Err(e) => Err(e),
    }
}

/// Whether two byte strings are the same.
pub(crate) fn same_bytes(a: &[u8], b: &[u8]) -> (r: bool)
    ensures
        r == (a@ == b@),
{
    if a.len() != b.len() {
        return false;
    }
    let mut i: usize = 0;
    while i < a.len()
        invariant
            i <= a@.len(),
            a@.len() == b@.len(),
            a@.subrange(0, i as int) == b@.subrange(0, i as int),
        decreases a@.len() - i,
    {
        if a[i] != b[i] {
            return false;
        }
        i += 1;
        assert(a@.subrange(0, i as int) == a@.subrange(0, i - 1).push(a@[i - 1]));
        assert(b@.subrange(0, i as int) == b@.subrange(0, i - 1).push(b@[i - 1]));
    }
    assert(a@.subrange(0, i as int) == a@);
    assert(b@.subrange(0, i as int) == b@);
    true
}

} // verus!
