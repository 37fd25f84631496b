//! What holds of a table as a whole: what was added is what is read.

use crate::storage::format::{field, field_at, pair_at, pair_bytes, pair_size, u32_at, Pair, MAX_FIELD};
use crate::storage::sstable::{data_bytes, file_bytes, fits, footer_bytes, footer_of, index_at};
use crate::storage::sstable::{index_bytes, index_in, index_of, lookup, pairs_from, value_at, Slot};
use crate::storage::sstable::{lemma_count_fits, lemma_key_fits};
use vstd::bytes::{lemma_auto_spec_u32_to_from_le_bytes, spec_u32_to_le_bytes};
use vstd::prelude::*;

verus! {

/// A number is read back from where it was written.
pub proof fn lemma_u32_at(head: Seq<u8>, v: u32, tail: Seq<u8>)
    ensures
        u32_at(head + spec_u32_to_le_bytes(v) + tail, head.len() as int) == Some(v),
{
    lemma_auto_spec_u32_to_from_le_bytes();
    let all = head + spec_u32_to_le_bytes(v) + tail;
    assert(all.subrange(head.len() as int, head.len() as int + 4) =~= spec_u32_to_le_bytes(v));
}

/// A field is read back from where it was written.
pub proof fn lemma_field_at(head: Seq<u8>, data: Seq<u8>, tail: Seq<u8>)
    requires
        data.len() <= MAX_FIELD,
    ensures
        field_at(head + field(data) + tail, head.len() as int) == Some(
            (data, head.len() as int + 4 + data.len()),
        ),
        field(data).len() == 4 + data.len(),
{
    lemma_auto_spec_u32_to_from_le_bytes();
    let all = head + field(data) + tail;
    let size = spec_u32_to_le_bytes(data.len() as u32);
    assert(all =~= head + size + (data + tail));
    lemma_u32_at(head, data.len() as u32, data + tail);
    assert(all.subrange(head.len() as int + 4, head.len() as int + 4 + data.len()) =~= data);
}

/// A pair is read back from where it was written.
pub proof fn lemma_pair_at(head: Seq<u8>, pair: Pair, tail: Seq<u8>)
    requires
        pair.key.len() <= MAX_FIELD,
        pair.value.len() <= MAX_FIELD,
    ensures
        pair_at(head + pair_bytes(pair) + tail, head.len() as int) == Some(
            (pair, (head.len() + pair_size(pair)) as int),
        ),
        pair_bytes(pair).len() == pair_size(pair),
{
    let all = head + pair_bytes(pair) + tail;
    lemma_field_at(head, pair.key, field(pair.value) + tail);
    assert(all =~= head + field(pair.key) + (field(pair.value) + tail));
    lemma_field_at(head + field(pair.key), pair.value, tail);
    assert(all =~= (head + field(pair.key)) + field(pair.value) + tail);
}

/// The place of pair `i` in the data section of a table.
pub open spec fn offset_of(pairs: Seq<Pair>, i: int) -> nat {
    data_bytes(pairs.take(i)).len()
}

/// The data section of the first `k` pairs of a table starts the data section of the table.
pub proof fn lemma_data_prefix(pairs: Seq<Pair>, k: int)
    requires
        0 <= k <= pairs.len(),
    ensures
        offset_of(pairs, k) <= data_bytes(pairs).len(),
        data_bytes(pairs).subrange(0, offset_of(pairs, k) as int) == data_bytes(pairs.take(k)),
    decreases pairs.len(),
{
    if k == pairs.len() {
        assert(pairs.take(k) =~= pairs);
        assert(data_bytes(pairs).subrange(0, data_bytes(pairs).len() as int) =~= data_bytes(pairs));
    } else {
        let front = pairs.drop_last();
        lemma_data_prefix(front, k);
        assert(front.take(k) =~= pairs.take(k));
        assert(data_bytes(pairs).subrange(0, offset_of(pairs, k) as int) =~= data_bytes(
            front,
        ).subrange(0, offset_of(pairs, k) as int));
    }
}

/// Each pair of a table is read back from its place in the file, whatever
/// follows the data section.
pub proof fn lemma_pair_in_file(pairs: Seq<Pair>, rest: Seq<u8>, i: int)
    requires
        fits(pairs),
        0 <= i < pairs.len(),
    ensures
        pair_at(data_bytes(pairs) + rest, offset_of(pairs, i) as int) == Some(
            (pairs[i], offset_of(pairs, i + 1) as int),
        ),
        offset_of(pairs, i + 1) == offset_of(pairs, i) + pair_size(pairs[i]),
        offset_of(pairs, i + 1) <= data_bytes(pairs).len(),
{
    let head = data_bytes(pairs.take(i));
    let upto = pairs.take(i + 1);
    assert(upto.drop_last() =~= pairs.take(i));
    assert(upto.last() == pairs[i]);
    assert(data_bytes(upto) == head + pair_bytes(pairs[i]));
    lemma_data_prefix(pairs, i + 1);
    lemma_key_fits(pairs, i);
    let tail = data_bytes(pairs).skip(offset_of(pairs, i + 1) as int) + rest;
    assert(data_bytes(pairs) + rest =~= head + pair_bytes(pairs[i]) + tail);
    lemma_pair_at(head, pairs[i], tail);
}

/// A walk over the file of a table gives its pairs in the order in which
/// they were added.
pub proof fn lemma_walk(pairs: Seq<Pair>, rest: Seq<u8>, from: int)
    requires
        fits(pairs),
        0 <= from <= pairs.len(),
    ensures
        pairs_from(data_bytes(pairs) + rest, offset_of(pairs, from) as int, (pairs.len() - from) as nat)
            == pairs.skip(from),
    decreases pairs.len() - from,
{
    if from == pairs.len() {
        assert(pairs.skip(from) =~= Seq::<Pair>::empty());
    } else {
        lemma_pair_in_file(pairs, rest, from);
        lemma_walk(pairs, rest, from + 1);
        assert(seq![pairs[from]] + pairs.skip(from + 1) =~= pairs.skip(from));
    }
}

/// The first `k` lines of an index on disk start the index on disk.
pub proof fn lemma_index_prefix(index: Seq<Slot>, k: int)
    requires
        0 <= k <= index.len(),
    ensures
        index_bytes(index.take(k)).len() <= index_bytes(index).len(),
        index_bytes(index).subrange(0, index_bytes(index.take(k)).len() as int) == index_bytes(
            index.take(k),
        ),
    decreases index.len(),
{
    if k == index.len() {
        assert(index.take(k) =~= index);
        assert(index_bytes(index).subrange(0, index_bytes(index).len() as int) =~= index_bytes(index));
    } else {
        let front = index.drop_last();
        lemma_index_prefix(front, k);
        assert(front.take(k) =~= index.take(k));
        assert(index_bytes(index).subrange(0, index_bytes(index.take(k)).len() as int)
            =~= index_bytes(front).subrange(0, index_bytes(index.take(k)).len() as int));
    }
}

/// An index is read back from where it was written.
pub proof fn lemma_index_at(head: Seq<u8>, index: Seq<Slot>, tail: Seq<u8>, k: int)
    requires
        0 <= k <= index.len(),
        forall|i: int| 0 <= i < index.len() ==> (#[trigger] index[i]).key.len() <= MAX_FIELD,
    ensures
        index_at(
            head + index_bytes(index) + tail,
            (head.len() + index_bytes(index.take(k)).len()) as int,
            (index.len() - k) as nat,
        ) == Some(index.skip(k)),
    decreases index.len() - k,
{
    let file = head + index_bytes(index) + tail;
    if k == index.len() {
        assert(index.skip(k) =~= Seq::<Slot>::empty());
    } else {
        let slot = index[k];
        let done = index_bytes(index.take(k));
        let upto = index.take(k + 1);
        assert(upto.drop_last() =~= index.take(k));
        assert(upto.last() == slot);
        let offset = spec_u32_to_le_bytes(slot.offset);
        assert(index_bytes(upto) == done + field(slot.key) + offset);
        lemma_index_prefix(index, k + 1);
        lemma_auto_spec_u32_to_from_le_bytes();
        let left = index_bytes(index).skip(index_bytes(upto).len() as int);
        let after = left + tail;
        assert(index_bytes(index) =~= index_bytes(upto) + left);
        assert(file =~= (head + done) + field(slot.key) + (offset + after));
        lemma_field_at(head + done, slot.key, offset + after);
        assert(file =~= (head + done + field(slot.key)) + offset + after);
        lemma_u32_at(head + done + field(slot.key), slot.offset, after);
        lemma_index_at(head, index, tail, k + 1);
        assert(seq![slot] + index.skip(k + 1) =~= index.skip(k));
    }
}

/// The index and the footer of a table are read back from its file.
pub proof fn lemma_index_in_file(pairs: Seq<Pair>)
    requires
        fits(pairs),
    ensures
        footer_of(file_bytes(pairs)) == Some((pairs.len() as u32, data_bytes(pairs).len() as u32)),
        pairs.len() <= MAX_FIELD,
        index_in(file_bytes(pairs)) == Some(index_of(pairs)),
{
    lemma_count_fits(pairs);
    lemma_auto_spec_u32_to_from_le_bytes();
    let data = data_bytes(pairs);
    let index = index_of(pairs);
    let count = spec_u32_to_le_bytes(pairs.len() as u32);
    let place = spec_u32_to_le_bytes(data.len() as u32);
    let file = file_bytes(pairs);
    assert(file =~= (data + index_bytes(index)) + count + place);
    lemma_u32_at(data + index_bytes(index), pairs.len() as u32, place);
    assert(file =~= (data + index_bytes(index) + count) + place + Seq::<u8>::empty());
    lemma_u32_at(data + index_bytes(index) + count, data.len() as u32, Seq::empty());
    assert forall|i: int| 0 <= i < index.len() implies (#[trigger] index[i]).key.len()
        <= MAX_FIELD by {
        lemma_key_fits(pairs, i);
    }
    assert(file =~= data + index_bytes(index) + (count + place));
    lemma_index_at(data, index, count + place, 0);
    assert(index.take(0) =~= Seq::<Slot>::empty());
    assert(index.skip(0) =~= index);
}

/// The place of the last pair with the key `key` among `pairs`.
pub open spec fn last_with(pairs: Seq<Pair>, key: Seq<u8>) -> Option<int>
    decreases pairs.len(),
{
    if pairs.len() == 0 {
        None
    } else if pairs.last().key == key {
        Some(pairs.len() - 1)
    } else {
        last_with(pairs.drop_last(), key)
    }
}

/// The value of the last pair with the key `key` among `pairs`.
pub open spec fn last_value(pairs: Seq<Pair>, key: Seq<u8>) -> Option<Seq<u8>> {
    match last_with(pairs, key) {
        None => None,
        Some(i) => Some(pairs[i].value),
    }
}

/// The last pair with a key is a pair with that key, and no later pair has it.
pub proof fn lemma_last_with(pairs: Seq<Pair>, key: Seq<u8>)
    ensures
        match last_with(pairs, key) {
            None => forall|i: int| 0 <= i < pairs.len() ==> (#[trigger] pairs[i]).key != key,
            Some(at) => 0 <= at < pairs.len() && pairs[at].key == key && forall|i: int|
                at < i < pairs.len() ==> (#[trigger] pairs[i]).key != key,
        },
    decreases pairs.len(),
{
    if pairs.len() > 0 && pairs.last().key != key {
        lemma_last_with(pairs.drop_last(), key);
        assert forall|i: int| 0 <= i < pairs.len() - 1 implies pairs[i] == pairs.drop_last()[i] by {}
        match last_with(pairs.drop_last(), key) {
            None => {
                assert forall|i: int| 0 <= i < pairs.len() implies (#[trigger] pairs[i]).key
                    != key by {
                    if i < pairs.len() - 1 {
                        assert(pairs.drop_last()[i].key != key);
                    }
                }
            },
            Some(at) => {
                assert forall|i: int| at < i < pairs.len() implies (#[trigger] pairs[i]).key
                    != key by {
                    if i < pairs.len() - 1 {
                        assert(pairs.drop_last()[i].key != key);
                    }
                }
            },
        }
    }
}

/// The index of a table gives for a key the place of the last pair with that key.
pub proof fn lemma_lookup(pairs: Seq<Pair>, key: Seq<u8>, k: int)
    requires
        0 <= k <= pairs.len(),
    ensures
        lookup(index_of(pairs).take(k), key) == (match last_with(pairs.take(k), key) {
            None => None,
            Some(i) => Some(offset_of(pairs, i) as u32),
        }),
    decreases k,
{
    let part = index_of(pairs).take(k);
    if k > 0 {
        lemma_lookup(pairs, key, k - 1);
        assert(part.drop_last() =~= index_of(pairs).take(k - 1));
        assert(pairs.take(k).drop_last() =~= pairs.take(k - 1));
        assert(part.last().key == pairs.take(k).last().key);
    }
}

/// The last pair with a key lies among the pairs.
pub proof fn lemma_last_with_bounds(pairs: Seq<Pair>, key: Seq<u8>)
    ensures
        last_with(pairs, key) matches Some(at) ==> 0 <= at < pairs.len(),
    decreases pairs.len(),
{
    if pairs.len() > 0 && pairs.last().key != key {
        lemma_last_with_bounds(pairs.drop_last(), key);
    }
}

/// The value of each pair of a table is read back from the place that the
/// index gives for the pair.
pub proof fn lemma_value_in_file(pairs: Seq<Pair>, i: int)
    requires
        fits(pairs),
        0 <= i < pairs.len(),
    ensures
        value_at(file_bytes(pairs), (offset_of(pairs, i) as u32) as int) == Some(pairs[i].value),
{
    let rest = index_bytes(index_of(pairs)) + footer_bytes(
        pairs.len() as u32,
        data_bytes(pairs).len() as u32,
    );
    assert(file_bytes(pairs) =~= data_bytes(pairs) + rest);
    lemma_pair_in_file(pairs, rest, i);
    lemma_data_prefix(pairs, i);
}

/// What a reader of `file` gives for `key`: `None` where it fails to open the
/// file or to read the pair, else the value, if the index holds the key.
pub open spec fn table_get(file: Seq<u8>, key: Seq<u8>) -> Option<Option<Seq<u8>>> {
    match index_in(file) {
        None => None,
        Some(index) => match lookup(index, key) {
            None => Some(None),
            Some(offset) => match value_at(file, offset as int) {
                None => None,
                Some(value) => Some(Some(value)),
            },
        },
    }
}

/// A reader of the file of a table gives for every key the value of the last
/// pair that was added with it, and nothing for a key that no pair has.
pub proof fn law_table_get(pairs: Seq<Pair>, key: Seq<u8>)
    requires
        fits(pairs),
    ensures
        table_get(file_bytes(pairs), key) == Some(last_value(pairs, key)),
{
    lemma_index_in_file(pairs);
    lemma_lookup(pairs, key, pairs.len() as int);
    assert(index_of(pairs).take(pairs.len() as int) =~= index_of(pairs));
    assert(pairs.take(pairs.len() as int) =~= pairs);
    lemma_last_with_bounds(pairs, key);
    match last_with(pairs, key) {
        None => {},
        Some(i) => {
            lemma_value_in_file(pairs, i);
        },
    }
}

/// Where no two pairs of a table have the same key, as for keys that were
/// added in strictly rising order, a reader of its file gives for the key of
/// each pair the value of that pair, and nothing for any other key.
pub proof fn law_table_get_distinct(pairs: Seq<Pair>)
    requires
        fits(pairs),
        forall|i: int, j: int| 0 <= i < j < pairs.len() ==> pairs[i].key != pairs[j].key,
    ensures
        forall|i: int|
            0 <= i < pairs.len() ==> table_get(file_bytes(pairs), (#[trigger] pairs[i]).key) == Some(
                Some(pairs[i].value),
            ),
        forall|key: Seq<u8>|
            (forall|i: int| 0 <= i < pairs.len() ==> (#[trigger] pairs[i]).key != key)
                ==> #[trigger] table_get(file_bytes(pairs), key) == Some(None::<Seq<u8>>),
{
    assert forall|i: int| 0 <= i < pairs.len() implies table_get(
        file_bytes(pairs),
        (#[trigger] pairs[i]).key,
    ) == Some(Some(pairs[i].value)) by {
        law_table_get(pairs, pairs[i].key);
        lemma_last_with(pairs, pairs[i].key);
    }
    assert forall|key: Seq<u8>|
        (forall|i: int| 0 <= i < pairs.len() ==> (#[trigger] pairs[i]).key != key)
            implies #[trigger] table_get(file_bytes(pairs), key) == Some(None::<Seq<u8>>) by {
        law_table_get(pairs, key);
        lemma_last_with(pairs, key);
    }
}

/// A walk over the file of a table gives the pairs that were added, in their order.
pub proof fn law_table_walk(pairs: Seq<Pair>)
    requires
        fits(pairs),
    ensures
        footer_of(file_bytes(pairs)) matches Some(footer) && pairs_from(
            file_bytes(pairs),
            0,
            footer.0 as nat,
        ) == pairs,
{
    lemma_index_in_file(pairs);
    let rest = index_bytes(index_of(pairs)) + footer_bytes(
        pairs.len() as u32,
        data_bytes(pairs).len() as u32,
    );
    assert(file_bytes(pairs) =~= data_bytes(pairs) + rest);
    lemma_walk(pairs, rest, 0);
    assert(pairs.take(0) =~= Seq::<Pair>::empty());
    assert(pairs.skip(0) =~= pairs);
}

} // verus!
