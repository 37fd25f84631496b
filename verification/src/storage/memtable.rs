//! The table in memory: pairs in the order of their keys, one for each key,
//! with a count of the bytes that they would take in a table on disk.

use crate::storage::format::{pair_of, pair_size, Pair};
use crate::storage::keys::{before, lemma_before_irreflexive, lemma_before_total};
use crate::storage::keys::{lemma_before_transitive, rank, Rank};
use crate::storage::sstable::{data_bytes, fits, SSTableFileBuilder};
use vstd::prelude::*;
use vstd::slice::slice_to_vec;

verus! {

/// The number of bytes from which on the table in memory is written to disk.
pub const MEMTABLE_THRESHOLD: usize = 4 * 1024 * 1024;

/// The pairs that entries in memory stand for.
pub open spec fn pairs_of(entries: Seq<(Vec<u8>, Vec<u8>)>) -> Seq<Pair> {
    Seq::new(entries.len(), |i: int| pair_of(entries[i]))
}

/// Whether the keys of `pairs` rise strictly.
pub open spec fn sorted(pairs: Seq<Pair>) -> bool {
    forall|i: int, j: int| 0 <= i < j < pairs.len() ==> before(pairs[i].key, pairs[j].key)
}

/// Whether one of `pairs` has the key `key`.
pub open spec fn has_key(pairs: Seq<Pair>, key: Seq<u8>) -> bool {
    exists|i: int| 0 <= i < pairs.len() && (#[trigger] pairs[i]).key == key
}

/// The place of a pair with the key `key` among `pairs`.
pub open spec fn place_of(pairs: Seq<Pair>, key: Seq<u8>) -> int {
    choose|i: int| 0 <= i < pairs.len() && (#[trigger] pairs[i]).key == key
}

/// The mapping that `pairs` stand for: each key to the value of its pair.
pub open spec fn to_map(pairs: Seq<Pair>) -> Map<Seq<u8>, Seq<u8>> {
    Map::new(|key: Seq<u8>| has_key(pairs, key), |key: Seq<u8>| pairs[place_of(pairs, key)].value)
}

/// The number of bytes that `pairs` take on disk.
pub open spec fn total_size(pairs: Seq<Pair>) -> nat
    decreases pairs.len(),
{
    if pairs.len() == 0 {
        0
    } else {
        total_size(pairs.drop_last()) + pair_size(pairs.last())
    }
}

/// Sorted pairs with the pair of `key` and `value` put in: it takes the place
/// of a pair with the same key, or else the place that keeps the keys rising.
pub open spec fn inserted(pairs: Seq<Pair>, key: Seq<u8>, value: Seq<u8>) -> Seq<Pair>
    decreases pairs.len(),
{
    if pairs.len() == 0 {
        seq![Pair { key, value }]
    } else if before(pairs.last().key, key) {
        pairs.push(Pair { key, value })
    } else if pairs.last().key == key {
        pairs.drop_last().push(Pair { key, value })
    } else {
        inserted(pairs.drop_last(), key, value).push(pairs.last())
    }
}

/// Putting a pair in at the place where its key belongs is what `inserted` does.
pub proof fn lemma_inserted_at(pairs: Seq<Pair>, at: int, pair: Pair)
    requires
        0 <= at <= pairs.len(),
        forall|i: int| 0 <= i < at ==> before((#[trigger] pairs[i]).key, pair.key),
        forall|i: int| at <= i < pairs.len() ==> before(pair.key, (#[trigger] pairs[i]).key),
    ensures
        inserted(pairs, pair.key, pair.value) == pairs.insert(at, pair),
    decreases pairs.len(),
{
    if pairs.len() == 0 {
        assert(pairs.insert(at, pair) =~= seq![pair]);
    } else if at == pairs.len() {
        assert(before(pairs[pairs.len() - 1].key, pair.key));
        assert(pairs.insert(at, pair) =~= pairs.push(pair));
    } else {
        let last = pairs.last();
        assert(before(pair.key, pairs[pairs.len() - 1].key));
        lemma_before_total(last.key, pair.key);
        lemma_before_irreflexive(pair.key);
        lemma_inserted_at(pairs.drop_last(), at, pair);
        assert(pairs.drop_last().insert(at, pair).push(last) =~= pairs.insert(at, pair));
    }
}

/// Giving the pair of a key another value is what `inserted` does for that key.
pub proof fn lemma_inserted_over(pairs: Seq<Pair>, at: int, pair: Pair)
    requires
        sorted(pairs),
        0 <= at < pairs.len(),
        pairs[at].key == pair.key,
    ensures
        inserted(pairs, pair.key, pair.value) == pairs.update(at, pair),
    decreases pairs.len(),
{
    let last = pairs.last();
    lemma_before_irreflexive(pair.key);
    if at == pairs.len() - 1 {
        assert(pairs.drop_last().push(pair) =~= pairs.update(at, pair));
    } else {
        assert(before(pairs[at].key, pairs[pairs.len() - 1].key));
        lemma_before_total(last.key, pair.key);
        assert forall|i: int, j: int| 0 <= i < j < pairs.drop_last().len() implies before(
            pairs.drop_last()[i].key,
            pairs.drop_last()[j].key,
        ) by {
            assert(before(pairs[i].key, pairs[j].key));
        }
        lemma_inserted_over(pairs.drop_last(), at, pair);
        assert(pairs.drop_last().update(at, pair).push(last) =~= pairs.update(at, pair));
    }
}

/// Among pairs whose keys rise strictly, each key stands for the value of its pair.
pub proof fn lemma_value_of(pairs: Seq<Pair>, i: int)
    requires
        sorted(pairs),
        0 <= i < pairs.len(),
    ensures
        to_map(pairs).contains_key(pairs[i].key),
        to_map(pairs)[pairs[i].key] == pairs[i].value,
{
    let j = place_of(pairs, pairs[i].key);
    lemma_before_irreflexive(pairs[i].key);
    if j < i {
        assert(before(pairs[j].key, pairs[i].key));
    } else if i < j {
        assert(before(pairs[i].key, pairs[j].key));
    }
}

/// A new pair adds its size to the size of the pairs, wherever it is put.
pub proof fn lemma_size_insert(pairs: Seq<Pair>, at: int, pair: Pair)
    requires
        0 <= at <= pairs.len(),
    ensures
        total_size(pairs.insert(at, pair)) == total_size(pairs) + pair_size(pair),
    decreases pairs.len(),
{
    let grown = pairs.insert(at, pair);
    if at == pairs.len() {
        assert(grown.drop_last() =~= pairs);
    } else {
        lemma_size_insert(pairs.drop_last(), at, pair);
        assert(grown.drop_last() =~= pairs.drop_last().insert(at, pair));
    }
}

/// A pair that takes the place of another changes the size of the pairs by
/// the difference of their sizes.
pub proof fn lemma_size_update(pairs: Seq<Pair>, at: int, pair: Pair)
    requires
        0 <= at < pairs.len(),
    ensures
        total_size(pairs.update(at, pair)) + pair_size(pairs[at]) == total_size(pairs) + pair_size(
            pair,
        ),
    decreases pairs.len(),
{
    let changed = pairs.update(at, pair);
    if at == pairs.len() - 1 {
        assert(changed.drop_last() =~= pairs.drop_last());
    } else {
        lemma_size_update(pairs.drop_last(), at, pair);
        assert(changed.drop_last() =~= pairs.drop_last().update(at, pair));
    }
}

/// No pair takes more bytes than all pairs together.
pub proof fn lemma_size_at(pairs: Seq<Pair>, at: int)
    requires
        0 <= at < pairs.len(),
    ensures
        pair_size(pairs[at]) <= total_size(pairs),
    decreases pairs.len(),
{
    if at < pairs.len() - 1 {
        lemma_size_at(pairs.drop_last(), at);
    }
}

/// Putting a pair in adds at most its size to the size of the pairs: all of
/// it where the key is new, and the difference to the pair that it takes the
/// place of otherwise.
pub proof fn lemma_size_inserted(pairs: Seq<Pair>, key: Seq<u8>, value: Seq<u8>)
    ensures
        total_size(inserted(pairs, key, value)) <= total_size(pairs) + 8 + key.len() + value.len(),
        total_size(inserted(pairs, key, value)) >= 8 + key.len() + value.len(),
        !has_key(pairs, key) ==> total_size(inserted(pairs, key, value)) == total_size(pairs) + 8
            + key.len() + value.len(),
    decreases pairs.len(),
{
    let pair = Pair { key, value };
    if pairs.len() == 0 {
        assert(seq![pair].drop_last() =~= Seq::<Pair>::empty());
        assert(total_size(seq![pair].drop_last()) == 0);
    } else if before(pairs.last().key, key) {
        assert(pairs.push(pair).drop_last() =~= pairs);
        if has_key(pairs, key) {
        }
    } else if pairs.last().key == key {
        assert(pairs.drop_last().push(pair).drop_last() =~= pairs.drop_last());
        assert(pairs[pairs.len() - 1].key == key);
    } else {
        let front = pairs.drop_last();
        lemma_size_inserted(front, key, value);
        assert(inserted(front, key, value).push(pairs.last()).drop_last() =~= inserted(
            front,
            key,
            value,
        ));
        if has_key(front, key) {
            let i = choose|i: int| 0 <= i < front.len() && (#[trigger] front[i]).key == key;
            assert(pairs[i].key == key);
        }
    }
}

/// The data section of a table takes as many bytes as the sizes of its pairs add up to.
pub proof fn lemma_data_size(pairs: Seq<Pair>)
    ensures
        data_bytes(pairs).len() == total_size(pairs),
    decreases pairs.len(),
{
    if pairs.len() > 0 {
        lemma_data_size(pairs.drop_last());
        vstd::bytes::lemma_auto_spec_u32_to_from_le_bytes();
    }
}

/// The table in memory.
pub struct MemTable {
    map: Vec<(Vec<u8>, Vec<u8>)>,
    flush_size: usize,
}

impl MemTable {
    /// The pairs of the table, in the order of their keys.
    pub closed spec fn pairs(&self) -> Seq<Pair> {
        pairs_of(self.map@)
    }

    /// The mapping that the table stands for.
    pub open spec fn view(&self) -> Map<Seq<u8>, Seq<u8>> {
        to_map(self.pairs())
    }

    /// The count of bytes that the table would take on disk: the sizes of
    /// its pairs, added up.
    pub closed spec fn projected(&self) -> nat {
        self.flush_size as nat
    }

    /// The keys rise strictly, and the count is the size of the pairs.
    pub closed spec fn wf(&self) -> bool {
        sorted(self.pairs()) && total_size(self.pairs()) == self.flush_size
    }

    /// What is well formed of a table: its keys rise strictly, and its count
    /// is the size of its pairs.
    pub proof fn lemma_wf(&self)
        requires
            self.wf(),
        ensures
            sorted(self.pairs()),
            total_size(self.pairs()) == self.projected(),
    {
    }

    pub fn new() -> (t: Self)
        ensures
            t.wf(),
            t.pairs() == Seq::<Pair>::empty(),
            t.projected() == 0,
    {
        let t = MemTable { map: Vec::new(), flush_size: 0 };
        assert(t.pairs() =~= Seq::<Pair>::empty());
        t
    }

    /// The number of pairs.
    pub fn len(&self) -> (n: usize)
        ensures
            n == self.pairs().len(),
    {
        self.map.len()
    }

    /// Whether the table holds no pair.
    pub fn is_empty(&self) -> (e: bool)
        ensures
            e == (self.pairs().len() == 0),
    {
        self.map.len() == 0
    }

    /// The count of bytes that the table would take on disk.
    pub fn flush_size(&self) -> (n: usize)
        ensures
            n == self.projected(),
    {
        self.flush_size
    }

    /// Finds the place of `key`: whether a pair has it, and the place of that
    /// pair, or else the place where a pair with it belongs.
    fn locate(&self, key: &[u8]) -> (r: (bool, usize))
        requires
            self.wf(),
        ensures
            r.1 <= self.pairs().len(),
            r.0 ==> r.1 < self.pairs().len() && self.pairs()[r.1 as int].key == key@,
            !r.0 ==> forall|i: int| 0 <= i < r.1 ==> before((#[trigger] self.pairs()[i]).key, key@),
            !r.0 ==> forall|i: int|
                r.1 <= i < self.pairs().len() ==> before(key@, (#[trigger] self.pairs()[i]).key),
    {
        let ghost pairs = self.pairs();
        let mut lo: usize = 0;
        let mut hi: usize = self.map.len();
        while lo < hi
            invariant
                lo <= hi <= self.map@.len(),
                pairs == self.pairs(),
                sorted(pairs),
                forall|i: int| 0 <= i < lo ==> before((#[trigger] pairs[i]).key, key@),
                forall|i: int| hi <= i < pairs.len() ==> before(key@, (#[trigger] pairs[i]).key),
            decreases hi - lo,
        {
            let mid: usize = lo + (hi - lo) / 2;
            assert(pairs[mid as int].key == self.map@[mid as int].0@);
            match rank(self.map[mid].0.as_slice(), key) {
                Rank::Same => {
                    return (true, mid);
                },
                Rank::Lower => {
                    assert forall|i: int| 0 <= i < mid + 1 implies before(
                        (#[trigger] pairs[i]).key,
                        key@,
                    ) by {
                        if i < mid {
                            lemma_before_transitive(pairs[i].key, pairs[mid as int].key, key@);
                        }
                    }
                    lo = mid + 1;
                },
                Rank::Higher => {
                    assert forall|i: int| mid <= i < pairs.len() implies before(
                        key@,
                        (#[trigger] pairs[i]).key,
                    ) by {
                        if i > mid {
                            lemma_before_transitive(key@, pairs[mid as int].key, pairs[i].key);
                        }
                    }
                    hi = mid;
                },
            }
        }
        (false, lo)
    }

    /// Puts a pair into the table; it takes the place of a pair with the same
    /// key. The count follows the pairs: it grows by the size of a pair with
    /// a new key, and changes by the difference of the sizes where a pair is
    /// replaced.
    pub fn insert(&mut self, key: &[u8], val: &[u8])
        requires
            old(self).wf(),
            total_size(old(self).pairs()) + 8 + key@.len() + val@.len() <= usize::MAX,
        ensures
            final(self).wf(),
            final(self).pairs() == inserted(old(self).pairs(), key@, val@),
            final(self)@ == old(self)@.insert(key@, val@),
            final(self).projected() == total_size(final(self).pairs()),
    {
        let ghost before_pairs = self.pairs();
        let ghost pair = Pair { key: key@, value: val@ };
        let (found, at) = self.locate(key);
        if found {
            proof {
                lemma_size_at(before_pairs, at as int);
                assert(before_pairs[at as int] == pair_of(self.map@[at as int]));
            }
            let replaced: usize = 8 + self.map[at].0.len() + self.map[at].1.len();
            self.map.set(at, (slice_to_vec(key), slice_to_vec(val)));
            proof {
                let after_pairs = self.pairs();
                assert(after_pairs =~= before_pairs.update(at as int, pair));
                lemma_size_update(before_pairs, at as int, pair);
                assert(sorted(after_pairs)) by {
                    assert forall|i: int, j: int| 0 <= i < j < after_pairs.len() implies before(
                        after_pairs[i].key,
                        after_pairs[j].key,
                    ) by {
                        assert(before(before_pairs[i].key, before_pairs[j].key));
                    }
                }
                lemma_map_update(before_pairs, at as int, pair);
                lemma_value_of(before_pairs, at as int);
                lemma_inserted_over(before_pairs, at as int, pair);
            }
            self.flush_size = self.flush_size - replaced + (8 + key.len() + val.len());
        } else {
            self.map.insert(at, (slice_to_vec(key), slice_to_vec(val)));
            proof {
                let after_pairs = self.pairs();
                assert(after_pairs =~= before_pairs.insert(at as int, pair));
                lemma_size_insert(before_pairs, at as int, pair);
                lemma_map_insert(before_pairs, at as int, pair);
                lemma_inserted_at(before_pairs, at as int, pair);
            }
            self.flush_size += 8 + key.len() + val.len();
        }
    }

    /// Whether the table should be written to disk before this pair is put in:
    /// whether the count would pass `MEMTABLE_THRESHOLD` with it.
    pub fn need_flush(&self, key: &[u8], val: &[u8]) -> (r: bool)
        ensures
            r == (self.projected() + 8 + key@.len() + val@.len() > MEMTABLE_THRESHOLD),
    {
        let pairsz: u128 = 8 + key.len() as u128 + val.len() as u128;
        self.flush_size as u128 + pairsz > MEMTABLE_THRESHOLD as u128
    }

    /// The value of `key`, if the table holds it.
    pub fn get(&self, key: &[u8]) -> (r: Option<Vec<u8>>)
        requires
            self.wf(),
        ensures
            match r {
                Some(value) => self@.contains_key(key@) && value@ == self@[key@],
                None => !self@.contains_key(key@),
            },
    {
        let (found, at) = self.locate(key);
        if found {
            proof {
                lemma_value_of(self.pairs(), at as int);
            }
            Some(self.map[at].1.clone())
        } else {
            proof {
                lemma_absent(self.pairs(), at as int, key@);
            }
            None
        }
    }

    /// The lowest key of the table.
    pub fn get_minkey(&self) -> (key: Vec<u8>)
        requires
            self.pairs().len() > 0,
        ensures
            key@ == self.pairs()[0].key,
    {
        self.map[0].0.clone()
    }

    /// The highest key of the table.
    pub fn get_maxkey(&self) -> (key: Vec<u8>)
        requires
            self.pairs().len() > 0,
        ensures
            key@ == self.pairs().last().key,
    {
        self.map[self.map.len() - 1].0.clone()
    }

    /// Empties the table.
    pub fn reset(&mut self)
        ensures
            final(self).wf(),
            final(self).pairs() == Seq::<Pair>::empty(),
            final(self).projected() == 0,
    {
        self.map.clear();
        self.flush_size = 0;
        assert(self.pairs() =~= Seq::<Pair>::empty());
    }

    /// Adds every pair of the table to a table on disk, in the order of the keys.
    #[verifier::loop_isolation(false)]
    pub fn write_entries_to_sstable(&self, sst: &mut SSTableFileBuilder) -> (r: Result<
        (),
        std::io::Error,
    >)
        requires
            old(sst).wf(),
        ensures
            final(sst).wf(),
            fits(old(sst)@ + self.pairs()) ==> r is Ok && final(sst)@ == old(sst)@ + self.pairs(),
            !fits(old(sst)@ + self.pairs()) ==> r is Err,
    {
        let ghost start = sst@;
        let ghost pairs = self.pairs();
        let n: usize = self.map.len();
        let mut i: usize = 0;
        assert(start + pairs.take(0) =~= start);
        while i < n
            invariant
                i <= n,
                n == self.map@.len(),
                pairs == self.pairs(),
                sst.wf(),
                sst@ == start + pairs.take(i as int),
            decreases n - i,
        {
            let ghost pair = pairs[i as int];
            proof {
                assert((start + pairs.take(i as int)).push(pair) =~= start + pairs.take(i + 1));
                assert((start + pairs.take(i + 1)) + pairs.skip(i + 1) =~= start + pairs);
                crate::storage::sstable::lemma_fits_prefix(
                    start + pairs.take(i + 1),
                    pairs.skip(i + 1),
                );
            }
            match sst.add(self.map[i].0.as_slice(), self.map[i].1.as_slice()) {
                Ok(()) => {},
                Err(e) => {
                    return Err(e);
                },
            }
            i += 1;
        }
        assert(pairs.take(n as int) =~= pairs);
        proof {
            sst.lemma_fits();
        }
        Ok(())
    }
}

/// A key that belongs between two neighbours is not among the pairs.
pub proof fn lemma_absent(pairs: Seq<Pair>, at: int, key: Seq<u8>)
    requires
        0 <= at <= pairs.len(),
        forall|i: int| 0 <= i < at ==> before((#[trigger] pairs[i]).key, key),
        forall|i: int| at <= i < pairs.len() ==> before(key, (#[trigger] pairs[i]).key),
    ensures
        !has_key(pairs, key),
{
    lemma_before_irreflexive(key);
}

/// Putting a pair with a new key at its place among sorted pairs keeps them
/// sorted and adds the pair to the mapping.
pub proof fn lemma_map_insert(pairs: Seq<Pair>, at: int, pair: Pair)
    requires
        sorted(pairs),
        0 <= at <= pairs.len(),
        forall|i: int| 0 <= i < at ==> before((#[trigger] pairs[i]).key, pair.key),
        forall|i: int| at <= i < pairs.len() ==> before(pair.key, (#[trigger] pairs[i]).key),
    ensures
        sorted(pairs.insert(at, pair)),
        !has_key(pairs, pair.key),
        to_map(pairs.insert(at, pair)) == to_map(pairs).insert(pair.key, pair.value),
{
    let grown = pairs.insert(at, pair);
    lemma_absent(pairs, at, pair.key);
    assert forall|i: int, j: int| 0 <= i < j < grown.len() implies before(
        grown[i].key,
        grown[j].key,
    ) by {
        if i < at && j > at {
            assert(before(pairs[i].key, pair.key));
            assert(before(pair.key, pairs[j - 1].key));
            if i < j - 1 {
                assert(before(pairs[i].key, pairs[j - 1].key));
            }
        } else if i < at && j < at {
            assert(before(pairs[i].key, pairs[j].key));
        } else if i > at {
            assert(before(pairs[i - 1].key, pairs[j - 1].key));
        } else if i == at {
            assert(before(pair.key, pairs[j - 1].key));
        } else {
            assert(before(pairs[i].key, pair.key));
        }
    }
    let left = to_map(grown);
    let right = to_map(pairs).insert(pair.key, pair.value);
    assert forall|key: Seq<u8>| left.contains_key(key) == right.contains_key(key) by {
        if has_key(grown, key) {
            let i = place_of(grown, key);
            if i < at {
                assert(pairs[i].key == key);
            } else if i > at {
                assert(pairs[i - 1].key == key);
            }
        }
        if has_key(pairs, key) {
            let i = place_of(pairs, key);
            if i < at {
                assert(grown[i].key == key);
            } else {
                assert(grown[i + 1].key == key);
            }
        }
        if key == pair.key {
            assert(grown[at].key == key);
        }
    }
    assert forall|key: Seq<u8>| left.contains_key(key) implies left[key] == right[key] by {
        let i = place_of(grown, key);
        lemma_value_of(grown, i);
        if i < at {
            lemma_value_of(pairs, i);
        } else if i > at {
            lemma_value_of(pairs, i - 1);
        }
    }
    assert(left =~= right);
}

/// Giving the pair of a key another value changes the mapping at that key alone.
pub proof fn lemma_map_update(pairs: Seq<Pair>, at: int, pair: Pair)
    requires
        sorted(pairs),
        0 <= at < pairs.len(),
        pairs[at].key == pair.key,
    ensures
        sorted(pairs.update(at, pair)),
        to_map(pairs.update(at, pair)) == to_map(pairs).insert(pair.key, pair.value),
{
    let changed = pairs.update(at, pair);
    assert forall|i: int, j: int| 0 <= i < j < changed.len() implies before(
        changed[i].key,
        changed[j].key,
    ) by {
        assert(before(pairs[i].key, pairs[j].key));
    }
    let left = to_map(changed);
    let right = to_map(pairs).insert(pair.key, pair.value);
    assert forall|key: Seq<u8>| left.contains_key(key) == right.contains_key(key) by {
        if has_key(changed, key) {
            let i = place_of(changed, key);
            assert(pairs[i].key == key);
        }
        if has_key(pairs, key) {
            let i = place_of(pairs, key);
            assert(changed[i].key == key);
        }
    }
    assert forall|key: Seq<u8>| left.contains_key(key) implies left[key] == right[key] by {
        let i = place_of(changed, key);
        lemma_value_of(changed, i);
        assert(changed[i].key == key);
        if i != at {
            assert(pairs[i].key == key);
            lemma_value_of(pairs, i);
            lemma_before_irreflexive(key);
            if i < at {
                assert(before(pairs[i].key, pairs[at].key));
            } else {
                assert(before(pairs[at].key, pairs[i].key));
            }
        }
    }
    assert(left =~= right);
}

/// Putting a pair into sorted pairs keeps them sorted, and in the mapping that
/// they stand for sets the key to the value.
pub proof fn law_inserted(pairs: Seq<Pair>, key: Seq<u8>, value: Seq<u8>)
    requires
        sorted(pairs),
    ensures
        sorted(inserted(pairs, key, value)),
        to_map(inserted(pairs, key, value)) == to_map(pairs).insert(key, value),
    decreases pairs.len(),
{
    let pair = Pair { key, value };
    if pairs.len() == 0 {
        lemma_inserted_at(pairs, 0, pair);
        lemma_map_insert(pairs, 0, pair);
    } else {
        let at = first_not_before(pairs, key, 0);
        lemma_first_not_before(pairs, key, 0);
        if at < pairs.len() && pairs[at].key == key {
            lemma_inserted_over(pairs, at, pair);
            lemma_map_update(pairs, at, pair);
        } else {
            assert forall|i: int| at <= i < pairs.len() implies before(key, (#[trigger] pairs[i]).key) by {
                lemma_before_total(pairs[at].key, key);
                if i > at {
                    assert(before(pairs[at].key, pairs[i].key));
                    lemma_before_transitive(key, pairs[at].key, pairs[i].key);
                }
            }
            lemma_inserted_at(pairs, at, pair);
            lemma_map_insert(pairs, at, pair);
        }
    }
}

/// The first place from `from` on whose key does not come before `key`.
pub open spec fn first_not_before(pairs: Seq<Pair>, key: Seq<u8>, from: int) -> int
    decreases pairs.len() - from,
{
    if from < 0 || from >= pairs.len() || !before(pairs[from].key, key) {
        from
    } else {
        first_not_before(pairs, key, from + 1)
    }
}

/// The keys before that place come before `key`, and the key at it does not.
pub proof fn lemma_first_not_before(pairs: Seq<Pair>, key: Seq<u8>, from: int)
    requires
        0 <= from <= pairs.len(),
        forall|i: int| 0 <= i < from ==> before((#[trigger] pairs[i]).key, key),
    ensures
        from <= first_not_before(pairs, key, from) <= pairs.len(),
        forall|i: int|
            0 <= i < first_not_before(pairs, key, from) ==> before((#[trigger] pairs[i]).key, key),
        first_not_before(pairs, key, from) < pairs.len() ==> !before(
            pairs[first_not_before(pairs, key, from)].key,
            key,
        ),
    decreases pairs.len() - from,
{
    if from < pairs.len() && before(pairs[from].key, key) {
        lemma_first_not_before(pairs, key, from + 1);
    }
}

} // verus!
