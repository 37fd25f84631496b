//! Sorted string tables: immutable files of key-value pairs.
//!
//! A table has three sections back to back. The data section holds the pairs
//! in the order in which they were added, each as the field of its key and the
//! field of its value. The index section holds, for each pair in the same
//! order, the field of its key and the place of the pair in the file. The
//! footer holds the number of pairs and the place of the index section. All
//! numbers are four bytes, lowest first; all places count bytes from the start
//! of the file.

use crate::storage::format::{field, field_at, get_field, get_pair, pair_at, pair_bytes, pair_size};
use crate::storage::format::{put_field, same_bytes, u32_at, Pair, MAX_FIELD};
use crate::wire::{invalid_input, read_u32_le, write_u32_le};
use vstd::bytes::spec_u32_to_le_bytes;
use vstd::prelude::*;
use vstd::slice::slice_to_vec;

verus! {

/// The data section of a table of `pairs`.
pub open spec fn data_bytes(pairs: Seq<Pair>) -> Seq<u8>
    decreases pairs.len(),
{
    if pairs.len() == 0 {
        Seq::empty()
    } else {
        data_bytes(pairs.drop_last()) + pair_bytes(pairs.last())
    }
}

/// One line of an index: a key and the place of its pair.
pub struct Slot {
    pub key: Seq<u8>,
    pub offset: u32,
}

/// The index of a table of `pairs`: each key with the place of its pair.
pub open spec fn index_of(pairs: Seq<Pair>) -> Seq<Slot> {
    Seq::new(
        pairs.len(),
        |i: int| Slot { key: pairs[i].key, offset: data_bytes(pairs.take(i)).len() as u32 },
    )
}

/// An index on disk.
pub open spec fn index_bytes(index: Seq<Slot>) -> Seq<u8>
    decreases index.len(),
{
    if index.len() == 0 {
        Seq::empty()
    } else {
        index_bytes(index.drop_last()) + field(index.last().key) + spec_u32_to_le_bytes(
            index.last().offset,
        )
    }
}

/// The footer of a table of `count` pairs whose index section starts at `index_offset`.
pub open spec fn footer_bytes(count: u32, index_offset: u32) -> Seq<u8> {
    spec_u32_to_le_bytes(count) + spec_u32_to_le_bytes(index_offset)
}

/// The file of a table of `pairs`.
pub open spec fn file_bytes(pairs: Seq<Pair>) -> Seq<u8> {
    data_bytes(pairs) + index_bytes(index_of(pairs)) + footer_bytes(
        pairs.len() as u32,
        data_bytes(pairs).len() as u32,
    )
}

/// Whether a table of `pairs` can be written: its data section is at most
/// `MAX_FIELD` bytes long, so that every place in it can be written down.
pub open spec fn fits(pairs: Seq<Pair>) -> bool {
    data_bytes(pairs).len() <= MAX_FIELD
}

/// The lines of an index in memory.
pub open spec fn slots_of(index: Seq<(Vec<u8>, u32)>) -> Seq<Slot> {
    Seq::new(index.len(), |i: int| Slot { key: index[i].0@, offset: index[i].1 })
}

/// The footer of a file: the number of pairs and the place of the index
/// section, from the last eight bytes.
pub open spec fn footer_of(file: Seq<u8>) -> Option<(u32, u32)> {
    match (u32_at(file, file.len() - 8), u32_at(file, file.len() - 4)) {
        (Some(count), Some(index_offset)) => Some((count, index_offset)),
        _ => None,
    }
}

/// The `n` lines of the index that starts at `pos`, if they are there in full.
pub open spec fn index_at(file: Seq<u8>, pos: int, n: nat) -> Option<Seq<Slot>>
    decreases n,
{
    if n == 0 {
        Some(Seq::empty())
    } else {
        match field_at(file, pos) {
            None => None,
            Some(key) => match u32_at(file, key.1) {
                None => None,
                Some(offset) => match index_at(file, key.1 + 4, (n - 1) as nat) {
                    None => None,
                    Some(rest) => Some(seq![Slot { key: key.0, offset }] + rest),
                },
            },
        }
    }
}

/// The index that a file states, if its footer and its index section are there in full.
pub open spec fn index_in(file: Seq<u8>) -> Option<Seq<Slot>> {
    match footer_of(file) {
        None => None,
        Some(footer) => index_at(file, footer.1 as int, footer.0 as nat),
    }
}

/// The place that an index gives for `key`: that of its last line with this
/// key, so that a later pair hides an earlier one with the same key.
pub open spec fn lookup(index: Seq<Slot>, key: Seq<u8>) -> Option<u32>
    decreases index.len(),
{
    if index.len() == 0 {
        None
    } else if index.last().key == key {
        Some(index.last().offset)
    } else {
        lookup(index.drop_last(), key)
    }
}

/// The value of the pair at `offset`, if the pair is there in full.
pub open spec fn value_at(file: Seq<u8>, offset: int) -> Option<Seq<u8>> {
    match pair_at(file, offset) {
        None => None,
        Some(p) => Some(p.0.value),
    }
}

/// The pairs that a walk over a file gives, from `pos` on and at most `n`: it
/// ends at the first place where no pair is there in full.
pub open spec fn pairs_from(file: Seq<u8>, pos: int, n: nat) -> Seq<Pair>
    decreases n,
{
    if n == 0 {
        Seq::empty()
    } else {
        match pair_at(file, pos) {
            None => Seq::empty(),
            Some(p) => seq![p.0] + pairs_from(file, p.1, (n - 1) as nat),
        }
    }
}

/// What a table reader holds: the file, the number of pairs that its footer
/// states, and its index.
pub struct TableView {
    pub file: Seq<u8>,
    pub count: u32,
    pub index: Seq<Slot>,
}

/// Reads the pairs of a table by key, or one after another.
pub struct SSTableFileReader {
    file: Vec<u8>,
    num_entries: u32,
    index: Vec<(Vec<u8>, u32)>,
}

/// A walk over the pairs of a table in the order of the file.
pub struct SSTableFileIter<'a> {
    sstable: &'a SSTableFileReader,
    pos: usize,
    curr_entry: u32,
}

impl<'a> SSTableFileIter<'a> {
    /// The file that is walked.
    pub closed spec fn file(&self) -> Seq<u8> {
        self.sstable.file@
    }

    /// The place of the next pair.
    pub closed spec fn position(&self) -> int {
        self.pos as int
    }

    /// The number of pairs that the walk may still give.
    pub closed spec fn remaining(&self) -> nat {
        (self.sstable.num_entries - self.curr_entry) as nat
    }

    pub closed spec fn wf(&self) -> bool {
        self.pos <= self.sstable.file@.len() && self.curr_entry <= self.sstable.num_entries
    }

    fn read_entry(&mut self) -> (r: Result<(Vec<u8>, Vec<u8>), std::io::Error>)
        requires
            old(self).wf(),
        ensures
            final(self).wf(),
            final(self).file() == old(self).file(),
            final(self).remaining() == old(self).remaining(),
            match pair_at(old(self).file(), old(self).position()) {
                Some(p) => r is Ok && r->Ok_0.0@ == p.0.key && r->Ok_0.1@ == p.0.value && final(self).position() == p.1,
                None => r is Err && final(self).position() == old(self).position(),
            },
    {
        match get_pair(self.sstable.file.as_slice(), self.pos) {
            Ok((key, value, next)) => {
                self.pos = next;
                Ok((key, value))
            },
            Err(e) => Err(e),
        }
    }

    /// The next pair; `None` when the walk has given as many pairs as the
    /// footer states, or where no pair is there in full.
    pub fn next(&mut self) -> (r: Option<(Vec<u8>, Vec<u8>)>)
        requires
            old(self).wf(),
        ensures
            final(self).wf(),
            final(self).file() == old(self).file(),
            match r {
                Some(entry) => {
                    &&& old(self).remaining() > 0
                    &&& pair_at(old(self).file(), old(self).position()) matches Some(p) && entry.0@
                        == p.0.key && entry.1@ == p.0.value && final(self).position() == p.1
                    &&& final(self).remaining() == old(self).remaining() - 1
                },
                None => (old(self).remaining() == 0 || pair_at(old(self).file(), old(self).position())
                    is None) && final(self).position() == old(self).position() && final(self).remaining() == old(self).remaining(),
            },
    {
        if self.curr_entry >= self.sstable.num_entries {
            return None;
        }
        match self.read_entry() {
            Ok((key, val)) => {
                self.curr_entry += 1;
                Some((key, val))
            },
            Err(_e) => None,
        }
    }
}

impl SSTableFileReader {
    pub closed spec fn view(&self) -> TableView {
        TableView { file: self.file@, count: self.num_entries, index: slots_of(self.index@) }
    }

    /// Reads the footer and the index of a table.
    #[verifier::loop_isolation(false)]
    pub fn open(file: Vec<u8>) -> (r: Result<SSTableFileReader, std::io::Error>)
        ensures
            match index_in(file@) {
                Some(index) => r is Ok && r->Ok_0@ == (TableView {
                    file: file@,
                    count: footer_of(file@)->Some_0.0,
                    index,
                }),
                None => r is Err,
            },
    {
        let total: usize = file.len();
        if total < 8 {
            return Err(invalid_input("a table ends with a footer of eight bytes"));
        }
        let num_entries = match read_u32_le(file.as_slice(), total - 8) {
            Ok(n) => n,
            Err(e) => {
                return Err(e);
            },
        };
        let index_loc = match read_u32_le(file.as_slice(), total - 4) {
            Ok(n) => n,
            Err(e) => {
                return Err(e);
            },
        };
        let mut sst_index: Vec<(Vec<u8>, u32)> = Vec::new();
        let mut pos: usize = index_loc as usize;
        let mut i: u32 = 0;
        assert(slots_of(sst_index@) =~= Seq::<Slot>::empty());
        while i < num_entries
            invariant
                i <= num_entries,
                index_in(file@) == (match index_at(file@, pos as int, (num_entries - i) as nat) {
                    Some(rest) => Some(slots_of(sst_index@) + rest),
                    None => None,
                }),
            decreases num_entries - i,
        {
            if pos > total {
                return Err(invalid_input("the index of a table lies inside its file"));
            }
            let (key, after_key) = match get_field(file.as_slice(), pos) {
                Ok(f) => f,
                Err(e) => {
                    return Err(e);
                },
            };
            let offset = match read_u32_le(file.as_slice(), after_key) {
                Ok(n) => n,
                Err(e) => {
                    return Err(e);
                },
            };
            proof {
                let slot = Slot { key: key@, offset };
                let before = slots_of(sst_index@);
                assert(slots_of(sst_index@.push((key, offset))) =~= before.push(slot));
                match index_at(file@, after_key + 4, (num_entries - i - 1) as nat) {
                    Some(rest) => {
                        assert(before.push(slot) + rest =~= before + (seq![slot] + rest));
                    },
                    None => {},
                }
            }
            sst_index.push((key, offset));
            pos = after_key + 4;
            i += 1;
        }
        assert(slots_of(sst_index@) + Seq::<Slot>::empty() =~= slots_of(sst_index@));
        Ok(SSTableFileReader { file, num_entries, index: sst_index })
    }

    /// A walk over the pairs of the table, from its first.
    pub fn iter<'a>(&'a self) -> (it: SSTableFileIter<'a>)
        ensures
            it.wf(),
            it.file() == self@.file,
            it.position() == 0,
            it.remaining() == self@.count,
    {
        SSTableFileIter { sstable: self, pos: 0, curr_entry: 0 }
    }

    /// The place that the index gives for `key`.
    fn find(&self, key: &[u8]) -> (r: Option<u32>)
        ensures
            r == lookup(self@.index, key@),
    {
        let mut i: usize = self.index.len();
        assert(slots_of(self.index@).take(i as int) =~= slots_of(self.index@));
        while i > 0
            invariant
                i <= self.index@.len(),
                lookup(self@.index, key@) == lookup(slots_of(self.index@).take(i as int), key@),
            decreases i,
        {
            let ghost part = slots_of(self.index@).take(i as int);
            assert(part.last() == slots_of(self.index@)[i - 1]);
            assert(part.drop_last() =~= slots_of(self.index@).take(i - 1));
            if same_bytes(self.index[i - 1].0.as_slice(), key) {
                return Some(self.index[i - 1].1);
            }
            i -= 1;
        }
        assert(slots_of(self.index@).take(0).len() == 0);
        None
    }

    /// The value of `key`: that of the last pair with this key; `None` where
    /// the index does not hold the key.
    pub fn get(&self, key: &[u8]) -> (r: Result<Option<Vec<u8>>, std::io::Error>)
        ensures
            match lookup(self@.index, key@) {
                None => r is Ok && r->Ok_0 is None,
                Some(offset) => match value_at(self@.file, offset as int) {
                    Some(value) => r is Ok && r->Ok_0 is Some && r->Ok_0->Some_0@ == value,
                    None => r is Err,
                },
            },
    {
        let val_loc = match self.find(key) {
            Some(loc) => loc as usize,
            None => {
                return Ok(None);
            },
        };
        if val_loc > self.file.len() {
            return Err(invalid_input("a pair of a table lies inside its file"));
        }
        match get_pair(self.file.as_slice(), val_loc) {
            Ok((_key, value, _next)) => Ok(Some(value)),
            Err(e) => Err(e),
        }
    }
}

/// The index of a table under construction, kept apart from its data.
pub struct SSTableIndexBuilder {
    pub index: Vec<(Vec<u8>, u32)>,
    pub bytes_written: usize,
}

/// Builds the file of a table from pairs that are added in the order of their keys.
pub struct SSTableFileBuilder {
    writer: Vec<u8>,
    index: Vec<(Vec<u8>, u32)>,
    bytes_written: usize,
    pairs: Ghost<Seq<Pair>>,
}

impl SSTableFileBuilder {
    /// The pairs added so far.
    pub closed spec fn view(&self) -> Seq<Pair> {
        self.pairs@
    }

    pub closed spec fn wf(&self) -> bool {
        &&& self.writer@ == data_bytes(self.pairs@)
        &&& self.bytes_written == self.writer@.len()
        &&& self.bytes_written <= MAX_FIELD
        &&& slots_of(self.index@) == index_of(self.pairs@)
    }

    /// The pairs of a well-formed builder can be written.
    pub proof fn lemma_fits(&self)
        requires
            self.wf(),
        ensures
            fits(self@),
    {
    }

    pub fn new() -> (b: SSTableFileBuilder)
        ensures
            b.wf(),
            b@ == Seq::<Pair>::empty(),
    {
        let b = SSTableFileBuilder {
            writer: Vec::new(),
            index: Vec::new(),
            bytes_written: 0,
            pairs: Ghost(Seq::empty()),
        };
        assert(slots_of(b.index@) =~= index_of(b.pairs@));
        b
    }

    /// Adds a pair at the end of the table. Fails, and adds nothing, where the
    /// data section would grow beyond `MAX_FIELD` bytes.
    pub fn add(&mut self, key: &[u8], val: &[u8]) -> (r: Result<(), std::io::Error>)
        requires
            old(self).wf(),
        ensures
            final(self).wf(),
            match r {
                Ok(()) => final(self)@ == old(self)@.push(Pair { key: key@, value: val@ }) && fits(
                    final(self)@,
                ),
                Err(_) => final(self)@ == old(self)@ && !fits(
                    old(self)@.push(Pair { key: key@, value: val@ }),
                ),
            },
    {
        let keylen: usize = key.len();
        let vallen: usize = val.len();
        let ghost pair = Pair { key: key@, value: val@ };
        let ghost before = self.pairs@;
        let ghost lines = self.index@;
        proof {
            assert(slots_of(lines).len() == index_of(before).len());
            assert(before.push(pair).drop_last() =~= before);
            vstd::bytes::lemma_auto_spec_u32_to_from_le_bytes();
            assert(data_bytes(before.push(pair)).len() == data_bytes(before).len() + pair_size(pair));
        }
        if keylen > MAX_FIELD || vallen > MAX_FIELD || self.bytes_written as u64 + 8 + keylen as u64
            + vallen as u64 > MAX_FIELD as u64 {
            return Err(invalid_input("a table holds at most 4 GiB of pairs"));
        }
        self.index.push((slice_to_vec(key), self.bytes_written as u32));
        put_field(&mut self.writer, key);
        put_field(&mut self.writer, val);
        self.bytes_written += 8 + keylen + vallen;
        self.pairs = Ghost(before.push(pair));
        proof {
            assert(self.writer@ =~= data_bytes(before) + pair_bytes(pair));
            assert forall|i: int| 0 <= i < self.index@.len() implies slots_of(self.index@)[i]
                == index_of(self.pairs@)[i] by {
                if i < before.len() {
                    assert(before.push(pair).take(i) =~= before.take(i));
                    assert(slots_of(lines)[i] == index_of(before)[i]);
                } else {
                    assert(before.push(pair).take(i) =~= before);
                }
            }
            assert(slots_of(self.index@) =~= index_of(self.pairs@));
        }
        Ok(())
    }

    /// Adds every pair of another table, in the order of its file. Fails
    /// where the other table cannot be opened, or where its pairs do not all fit.
    #[verifier::loop_isolation(false)]
    pub fn merge_file(&mut self, file: Vec<u8>) -> (r: Result<(), std::io::Error>)
        requires
            old(self).wf(),
        ensures
            final(self).wf(),
            match index_in(file@) {
                None => r is Err && final(self)@ == old(self)@,
                Some(_) => {
                    let walk = pairs_from(file@, 0, footer_of(file@)->Some_0.0 as nat);
                    if fits(old(self)@ + walk) {
                        r is Ok && final(self)@ == old(self)@ + walk
                    } else {
                        r is Err && final(self)@.len() >= old(self)@.len() && final(self)@ == old(self)@ + walk.take(final(self)@.len() - old(self)@.len())
                    }
                },
            },
    {
        let reader = match SSTableFileReader::open(file) {
            Ok(reader) => reader,
            Err(e) => {
                return Err(e);
            },
        };
        let mut it = reader.iter();
        let ghost walk = pairs_from(file@, 0, reader@.count as nat);
        let ghost start = self@;
        assert(start + Seq::<Pair>::empty() =~= start);
        loop
            invariant
                self.wf(),
                it.wf(),
                it.file() == file@,
                exists|done: Seq<Pair>|
                    #![auto]
                    self@ == start + done && walk == done + pairs_from(
                        file@,
                        it.position(),
                        it.remaining(),
                    ),
                self@.len() >= start.len(),
                self@ == start + walk.take(self@.len() - start.len()),
            decreases it.remaining(),
        {
            let ghost done = choose|done: Seq<Pair>|
                #![auto]
                self@ == start + done && walk == done + pairs_from(
                    file@,
                    it.position(),
                    it.remaining(),
                );
            let ghost rest = pairs_from(file@, it.position(), it.remaining());
            match it.next() {
                None => {
                    proof {
                        assert(rest =~= Seq::<Pair>::empty());
                        assert(done + rest =~= done);
                    }
                    return Ok(());
                },
                Some((key, val)) => {
                    let ghost pair = Pair { key: key@, value: val@ };
                    let ghost tail = pairs_from(file@, it.position(), it.remaining());
                    proof {
                        assert(rest == seq![pair] + tail);
                        assert(done + rest =~= done.push(pair) + tail);
                        assert((start + done).push(pair) =~= start + done.push(pair));
                        lemma_fits_prefix(start + done.push(pair), tail);
                        assert((start + done.push(pair)) + tail =~= start + walk);
                        assert(walk.take(done.len() as int + 1) =~= done.push(pair));
                        assert((start + done).len() == start.len() + done.len());
                    }
                    match self.add(key.as_slice(), val.as_slice()) {
                        Ok(()) => {},
                        Err(e) => {
                            return Err(e);
                        },
                    }
                },
            }
        }
    }

    /// Ends the table: appends the index and the footer to the data section,
    /// and hands over the file.
    #[verifier::loop_isolation(false)]
    pub fn commit(self) -> (file: Vec<u8>)
        requires
            self.wf(),
        ensures
            file@ == file_bytes(self@),
    {
        let mut this = self;
        let index_loc: u32 = this.bytes_written as u32;
        let ghost data = this.writer@;
        let ghost slots = slots_of(this.index@);
        let ghost pairs = this.pairs@;
        let ghost lines = this.index@;
        let n: usize = this.index.len();
        let mut i: usize = 0;
        assert(slots.take(0) =~= Seq::<Slot>::empty());
        assert(index_bytes(slots.take(0)) =~= Seq::<u8>::empty());
        assert(data + Seq::<u8>::empty() =~= data);
        proof {
            lemma_count_fits(pairs);
            assert(slots == index_of(pairs));
            assert(slots.len() == pairs.len());
            assert(slots.len() == n);
        }
        while i < n
            invariant
                i <= n,
                this.index@ == lines,
                this.pairs@ == pairs,
                this.writer@ == data + index_bytes(slots.take(i as int)),
            decreases n - i,
        {
            let ghost before = this.writer@;
            proof {
                lemma_key_fits(pairs, i as int);
                assert(slots[i as int].key == pairs[i as int].key);
                assert(slots.take(i + 1).drop_last() =~= slots.take(i as int));
                assert(slots.take(i + 1).last() == slots[i as int]);
            }
            put_field(&mut this.writer, this.index[i].0.as_slice());
            let _ = write_u32_le(&mut this.writer, this.index[i].1);
            assert(this.writer@ =~= data + index_bytes(slots.take(i + 1)));
            i += 1;
        }
        assert(slots.take(n as int) =~= slots);
        let _ = write_u32_le(&mut this.writer, n as u32);
        let _ = write_u32_le(&mut this.writer, index_loc);
        assert(this.writer@ =~= file_bytes(this.pairs@));
        this.writer
    }
}

/// The data section of the first pairs of a table is no longer than that of all.
pub proof fn lemma_fits_prefix(head: Seq<Pair>, tail: Seq<Pair>)
    ensures
        data_bytes(head).len() <= data_bytes(head + tail).len(),
    decreases tail.len(),
{
    if tail.len() == 0 {
        assert(head + tail =~= head);
    } else {
        lemma_fits_prefix(head, tail.drop_last());
        assert((head + tail).drop_last() =~= head + tail.drop_last());
    }
}

/// In a table that can be written, every key and every value fits its length field.
pub proof fn lemma_key_fits(pairs: Seq<Pair>, i: int)
    requires
        fits(pairs),
        0 <= i < pairs.len(),
    ensures
        pairs[i].key.len() <= MAX_FIELD,
        pairs[i].value.len() <= MAX_FIELD,
{
    let head = pairs.take(i + 1);
    let tail = pairs.skip(i + 1);
    assert(head + tail =~= pairs);
    lemma_fits_prefix(head, tail);
    assert(head.last() == pairs[i]);
}

/// A table that can be written has at most `MAX_FIELD` pairs.
pub proof fn lemma_count_fits(pairs: Seq<Pair>)
    ensures
        pairs.len() <= data_bytes(pairs).len(),
    decreases pairs.len(),
{
    if pairs.len() > 0 {
        lemma_count_fits(pairs.drop_last());
        vstd::bytes::lemma_auto_spec_u32_to_from_le_bytes();
    }
}

} // verus!
