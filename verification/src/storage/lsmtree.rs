//! The tree: a table in memory in front of sorted tables on disk.
//!
//! The tree reads and writes no file. Where the table in memory has to be
//! flushed, it hands over the bytes of the new table and of the new manifest
//! and changes nothing; once they are on disk, it is told so, and only then
//! lists the table and empties the table in memory. Where a table has to be
//! searched, it names the table and takes the bytes of its file.

use crate::storage::format::{pair_size, Pair, MAX_FIELD};
use crate::storage::manifest::{fresh_filename, is_fresh_name, manifest_bytes, metas_in};
use crate::storage::manifest::{metas_of, metas_wf};
use crate::storage::manifest::{read_manifest, write_manifest, write_manifest_with, Meta};
use crate::storage::manifest::SSTableMeta;
use crate::storage::memtable::{inserted, lemma_data_size, lemma_size_inserted, sorted, to_map};
use crate::storage::memtable::{total_size, MemTable};
use crate::storage::memtable::MEMTABLE_THRESHOLD;
use crate::storage::sstable::{file_bytes, fits, lemma_key_fits, SSTableFileBuilder, SSTableFileReader};
use crate::storage::table_laws::table_get;
use crate::wire::invalid_input;
use vstd::prelude::*;

verus! {

/// How many tables are merged into one of the next level.
pub const SSTABLE_FANOUT: usize = 4;

/// What has to be written to disk to flush the table in memory: the file of
/// the new table under its name, and the manifest anew.
#[derive(Debug)]
pub struct Flush {
    pub filename: Vec<u8>,
    pub sstable: Vec<u8>,
    pub manifest: Vec<u8>,
}

/// A step of a write.
#[derive(Debug)]
pub enum SetStep {
    /// The pair is in the table in memory.
    Done,
    /// The table in memory has to be flushed before the pair is put in:
    /// these files are to be written, the flush completed, and the write
    /// tried again.
    Flush(Flush),
}

/// A step of a search for a key.
#[derive(Debug)]
pub enum Lookup {
    /// The key has this value.
    Found(Vec<u8>),
    /// The table with this number has to be read next.
    Read(usize),
    /// No table holds the key.
    Missing,
}

/// What a tree holds: the pairs of the table in memory in the order of their
/// keys, the count of bytes of that table, the tables on disk, and the bytes
/// flushed so far.
pub struct TreeState {
    pub pairs: Seq<Pair>,
    pub projected: nat,
    pub tables: Seq<Meta>,
    pub flushed: nat,
}

/// Whether a table in memory is as small as the tree keeps it: its count is at
/// most `MEMTABLE_THRESHOLD`, or it holds a single pair that alone is larger.
pub open spec fn within_threshold(pairs: Seq<Pair>, projected: nat) -> bool {
    projected <= MEMTABLE_THRESHOLD || (pairs.len() == 1 && projected == pair_size(pairs[0]))
}

/// Whether the table in memory is flushed before a pair of `size` bytes is put
/// in: whether its count would pass `MEMTABLE_THRESHOLD`, and it holds a pair.
pub open spec fn flush_due(st: TreeState, size: nat) -> bool {
    st.projected + size > MEMTABLE_THRESHOLD && st.pairs.len() > 0
}

/// The table on disk that a flush into the file `filename` makes.
pub open spec fn flushed_table(st: TreeState, filename: Seq<u8>) -> Meta {
    Meta { filename, level: 0, min_key: st.pairs[0].key, max_key: st.pairs.last().key }
}

/// The tree after a flush into the file `filename`.
pub open spec fn after_flush(st: TreeState, filename: Seq<u8>) -> TreeState {
    TreeState {
        pairs: Seq::empty(),
        projected: 0,
        tables: st.tables.push(flushed_table(st, filename)),
        flushed: if st.flushed + st.projected > usize::MAX {
            usize::MAX as nat
        } else {
            st.flushed + st.projected
        },
    }
}

/// Whether `flush` is what a flush of `st` into the file `filename` hands over.
pub open spec fn flush_of(st: TreeState, filename: Seq<u8>, flush: Flush) -> bool {
    &&& flush.filename@ == filename
    &&& flush.sstable@ == file_bytes(st.pairs)
    &&& flush.manifest@ == manifest_bytes(after_flush(st, filename).tables)
}

/// The tree with the pair of `key` and `value` put into its table in memory.
pub open spec fn put_in(st: TreeState, key: Seq<u8>, value: Seq<u8>) -> TreeState {
    TreeState {
        pairs: inserted(st.pairs, key, value),
        projected: total_size(inserted(st.pairs, key, value)),
        ..st
    }
}

/// The tree after a write of the pair of `key` and `value` with all its
/// steps, where a flush goes to the file `filename`.
pub open spec fn after_set(st: TreeState, key: Seq<u8>, value: Seq<u8>, filename: Seq<u8>) -> TreeState {
    if flush_due(st, 8 + key.len() + value.len()) {
        put_in(after_flush(st, filename), key, value)
    } else {
        put_in(st, key, value)
    }
}

/// Whether the table in memory is as the tree keeps it: small, and with the
/// size of its pairs as its count.
pub open spec fn kept(st: TreeState) -> bool {
    within_threshold(st.pairs, st.projected) && st.projected == total_size(st.pairs)
}

/// The table in memory never grows beyond `MEMTABLE_THRESHOLD` by more than
/// the pair that was put in last: where a pair would take its count beyond
/// the threshold, it is flushed before the pair is put in, and holds that
/// pair alone afterwards.
pub proof fn law_flush_threshold(st: TreeState, key: Seq<u8>, value: Seq<u8>, filename: Seq<u8>)
    requires
        kept(st),
    ensures
        kept(after_set(st, key, value, filename)),
        !flush_due(after_flush(st, filename), 8 + key.len() + value.len()),
        after_set(st, key, value, filename).projected <= MEMTABLE_THRESHOLD + 8 + key.len()
            + value.len(),
        st.projected + 8 + key.len() + value.len() > MEMTABLE_THRESHOLD ==> after_set(
            st,
            key,
            value,
            filename,
        ).pairs == seq![Pair { key, value }],
{
    let pair = Pair { key, value };
    let none = Seq::<Pair>::empty();
    assert(inserted(none, key, value) == seq![pair]);
    lemma_size_inserted(none, key, value);
    lemma_size_inserted(st.pairs, key, value);
    if st.pairs.len() == 0 {
        assert(st.pairs =~= none);
    }
}

/// The number of the first table from `from` on that may hold `key`.
pub open spec fn next_table(tables: Seq<Meta>, key: Seq<u8>, from: int) -> Option<int>
    decreases tables.len() - from,
{
    if from < 0 || from >= tables.len() {
        None
    } else if tables[from].brackets(key) {
        Some(from)
    } else {
        next_table(tables, key, from + 1)
    }
}

/// Whether `step` is the step of a search for `key` that goes on at table `from`.
pub open spec fn goes_on(tables: Seq<Meta>, key: Seq<u8>, from: int, step: Lookup) -> bool {
    match next_table(tables, key, from) {
        Some(i) => step matches Lookup::Read(n) && n == i,
        None => step is Missing,
    }
}

/// The tree.
pub struct LSMTree {
    memtable: MemTable,
    sstables: Vec<SSTableMeta>,
    total_flushed_size: usize,
}

impl LSMTree {
    pub closed spec fn view(&self) -> TreeState {
        TreeState {
            pairs: self.memtable.pairs(),
            projected: self.memtable.projected(),
            tables: metas_of(self.sstables@),
            flushed: self.total_flushed_size as nat,
        }
    }

    pub closed spec fn wf(&self) -> bool {
        &&& self.memtable.wf()
        &&& self.memtable.projected() <= MAX_FIELD
        &&& metas_wf(metas_of(self.sstables@))
        &&& within_threshold(self.memtable.pairs(), self.memtable.projected())
    }

    /// The table in memory of a well-formed tree is sorted and small, and its
    /// count is the size of its pairs.
    pub proof fn lemma_wf(&self)
        requires
            self.wf(),
        ensures
            sorted(self@.pairs),
            kept(self@),
            metas_wf(self@.tables),
            fits(self@.pairs),
    {
        self.memtable.lemma_wf();
        lemma_data_size(self@.pairs);
    }

    /// A tree with an empty table in memory and the tables that `manifest`
    /// lists; with no table where the manifest is not there in full.
    pub fn new(manifest: &[u8]) -> (tree: Self)
        ensures
            tree.wf(),
            tree@ == (TreeState {
                pairs: Seq::empty(),
                projected: 0,
                tables: match metas_in(manifest@) {
                    Some(metas) => metas,
                    None => Seq::empty(),
                },
                flushed: 0,
            }),
    {
        let mut newtree = Self {
            memtable: MemTable::new(),
            sstables: Vec::new(),
            total_flushed_size: 0,
        };
        assert(metas_of(newtree.sstables@) =~= Seq::<Meta>::empty());
        let _ = newtree.tryload_meta(manifest);
        newtree
    }

    /// Takes the tables that `manifest` lists. Fails, and takes none, where
    /// the manifest is not there in full.
    fn tryload_meta(&mut self, manifest: &[u8]) -> (r: Result<(), std::io::Error>)
        requires
            old(self).wf(),
            old(self)@.tables.len() == 0,
        ensures
            final(self).wf(),
            match metas_in(manifest@) {
                Some(metas) => r is Ok && final(self)@ == (TreeState { tables: metas, ..old(self)@ }),
                None => r is Err && final(self)@ == old(self)@,
            },
    {
        match read_manifest(manifest) {
            Ok(tables) => {
                self.sstables = tables;
                Ok(())
            },
            Err(e) => Err(e),
        }
    }

    /// Puts a pair into the tree, unless the table in memory has to be
    /// flushed before: then it hands over the files of the flush, under a
    /// fresh file name, and changes nothing. Fails, and changes nothing, where
    /// the pair takes more than `MAX_FIELD` bytes, or where a flush is due and
    /// the manifest has no room for another table.
    pub fn set(&mut self, key: &[u8], val: &[u8]) -> (r: Result<SetStep, std::io::Error>)
        requires
            old(self).wf(),
        ensures
            final(self).wf(),
            if 8 + key@.len() + val@.len() > MAX_FIELD {
                r is Err && final(self)@ == old(self)@
            } else if !flush_due(old(self)@, 8 + key@.len() + val@.len()) {
                r is Ok && r->Ok_0 is Done && final(self)@ == put_in(old(self)@, key@, val@)
            } else if old(self)@.tables.len() >= MAX_FIELD {
                r is Err && final(self)@ == old(self)@
            } else {
                r is Ok && (r->Ok_0 matches SetStep::Flush(flush) && is_fresh_name(flush.filename@)
                    && flush_of(old(self)@, flush.filename@, flush)) && final(self)@ == old(self)@
            },
    {
        let filename: Vec<u8> = if self.memtable.need_flush(key, val) && !self.memtable.is_empty() {
            fresh_filename()
        } else {
            Vec::new()
        };
        self.set_with(key, val, filename)
    }

    /// Puts a pair into the tree as `set` does; where the table in memory
    /// has to be flushed before, the flush goes to the file `filename`.
    pub fn set_with(&mut self, key: &[u8], val: &[u8], filename: Vec<u8>) -> (r: Result<
        SetStep,
        std::io::Error,
    >)
        requires
            old(self).wf(),
            filename@.len() <= MAX_FIELD,
        ensures
            final(self).wf(),
            if 8 + key@.len() + val@.len() > MAX_FIELD {
                r is Err && final(self)@ == old(self)@
            } else if !flush_due(old(self)@, 8 + key@.len() + val@.len()) {
                r is Ok && r->Ok_0 is Done && final(self)@ == put_in(old(self)@, key@, val@)
            } else if old(self)@.tables.len() >= MAX_FIELD {
                r is Err && final(self)@ == old(self)@
            } else {
                r is Ok && (r->Ok_0 matches SetStep::Flush(flush) && flush_of(
                    old(self)@,
                    filename@,
                    flush,
                )) && final(self)@ == old(self)@
            },
    {
        if key.len() > MAX_FIELD || val.len() > MAX_FIELD || 8 + key.len() as u64 + val.len() as u64
            > MAX_FIELD as u64 {
            return Err(invalid_input("a pair takes at most 4 GiB"));
        }
        if self.memtable.need_flush(key, val) && !self.memtable.is_empty() {
            return match self.flush_memtable_with(filename) {
                Ok(flush) => Ok(SetStep::Flush(flush)),
                Err(e) => Err(e),
            };
        }
        let ghost before = self@;
        proof {
            self.memtable.lemma_wf();
            lemma_size_inserted(before.pairs, key@, val@);
            if before.pairs.len() == 0 {
                assert(before.pairs =~= Seq::<Pair>::empty());
                assert(inserted(before.pairs, key@, val@) == seq![Pair { key: key@, value: val@ }]);
            }
        }
        self.memtable.insert(key, val);
        Ok(SetStep::Done)
    }

    /// Reads a key from the table in memory, or names the first table on
    /// disk that may hold it.
    pub fn get(&self, key: &[u8]) -> (r: Lookup)
        requires
            self.wf(),
        ensures
            match r {
                Lookup::Found(value) => to_map(self@.pairs).contains_key(key@) && value@ == to_map(
                    self@.pairs,
                )[key@],
                _ => !to_map(self@.pairs).contains_key(key@) && goes_on(self@.tables, key@, 0, r),
            },
    {
        match self.memtable.get(key) {
            Some(s) => Lookup::Found(s),
            None => self.search_from(key, 0),
        }
    }

    /// Names the first table from `from` on that may hold `key`.
    fn search_from(&self, key: &[u8], from: usize) -> (r: Lookup)
        ensures
            !(r is Found),
            goes_on(self@.tables, key@, from as int, r),
    {
        let mut i: usize = from;
        while i < self.sstables.len()
            invariant
                from <= i,
                next_table(self@.tables, key@, from as int) == next_table(self@.tables, key@, i as int),
            decreases self.sstables@.len() - i,
        {
            if self.sstables[i].in_range(key) {
                return Lookup::Read(i);
            }
            i += 1;
        }
        Lookup::Missing
    }

    /// Reads a key from the file of the table `sstable`, or names the next
    /// table that may hold it.
    pub fn get_from(&self, key: &[u8], sstable: usize, file: Vec<u8>) -> (r: Result<
        Lookup,
        std::io::Error,
    >)
        requires
            sstable < usize::MAX,
        ensures
            match table_get(file@, key@) {
                None => r is Err,
                Some(Some(value)) => r is Ok && (r->Ok_0 matches Lookup::Found(v) && v@ == value),
                Some(None) => r is Ok && !(r->Ok_0 is Found) && goes_on(
                    self@.tables,
                    key@,
                    sstable + 1,
                    r->Ok_0,
                ),
            },
    {
        let currsst = match SSTableFileReader::open(file) {
            Ok(reader) => reader,
            Err(e) => {
                return Err(e);
            },
        };
        match currsst.get(key) {
            Ok(Some(val)) => Ok(Lookup::Found(val)),
            Ok(None) => Ok(self.search_from(key, sstable + 1)),
            Err(e) => Err(e),
        }
    }

    /// The name of the file of the table with the number `sstable`.
    pub fn sstable_filename(&self, sstable: usize) -> (name: &Vec<u8>)
        requires
            sstable < self@.tables.len(),
        ensures
            name@ == self@.tables[sstable as int].filename,
    {
        self.sstables[sstable].filename()
    }

    /// The number of tables on disk.
    pub fn num_sstables(&self) -> (n: usize)
        ensures
            n == self@.tables.len(),
    {
        self.sstables.len()
    }

    /// Whether the table in memory holds no pair.
    pub fn memtable_is_empty(&self) -> (e: bool)
        ensures
            e == (self@.pairs.len() == 0),
    {
        self.memtable.is_empty()
    }

    /// The files of a flush of the table in memory into a table on disk with
    /// a fresh file name. Fails where the manifest has no room for another
    /// table. The tree is not changed: see `complete_flush`.
    pub fn flush_memtable(&self) -> (r: Result<Flush, std::io::Error>)
        requires
            self.wf(),
            self@.pairs.len() > 0,
        ensures
            match r {
                Ok(flush) => self@.tables.len() < MAX_FIELD && is_fresh_name(flush.filename@)
                    && flush_of(self@, flush.filename@, flush),
                Err(_) => self@.tables.len() >= MAX_FIELD,
            },
    {
        self.flush_memtable_with(fresh_filename())
    }

    /// The files of a flush of the table in memory into a table on disk in
    /// the file `filename`: the file of the table, with every pair in the
    /// order of the keys, and the manifest with the new table at its end.
    /// Fails where the manifest has no room for another table. The tree is
    /// not changed: see `complete_flush`.
    pub fn flush_memtable_with(&self, filename: Vec<u8>) -> (r: Result<Flush, std::io::Error>)
        requires
            self.wf(),
            self@.pairs.len() > 0,
            filename@.len() <= MAX_FIELD,
        ensures
            match r {
                Ok(flush) => self@.tables.len() < MAX_FIELD && flush_of(self@, filename@, flush),
                Err(_) => self@.tables.len() >= MAX_FIELD,
            },
    {
        if self.sstables.len() >= MAX_FIELD {
            return Err(invalid_input("a manifest lists at most 4 Gi tables"));
        }
        proof {
            self.lemma_wf();
            lemma_key_fits(self@.pairs, 0);
            lemma_key_fits(self@.pairs, self@.pairs.len() - 1);
        }
        let minkey = self.memtable.get_minkey();
        let maxkey = self.memtable.get_maxkey();
        let new_sstable = SSTableMeta::with_filename(
            filename.clone(),
            minkey.as_slice(),
            maxkey.as_slice(),
        );
        let mut sst_builder = SSTableFileBuilder::new();
        assert(sst_builder@ + self@.pairs =~= self@.pairs);
        match self.memtable.write_entries_to_sstable(&mut sst_builder) {
            Ok(()) => {},
            Err(e) => {
                return Err(e);
            },
        }
        let sstable = sst_builder.commit();
        proof {
            let all = metas_of(self.sstables@).push(new_sstable@);
            assert forall|i: int| 0 <= i < all.len() implies (#[trigger] all[i]).wf() by {
                if i < all.len() - 1 {
                    assert(metas_of(self.sstables@)[i].wf());
                }
            }
        }
        let manifest = write_manifest_with(&self.sstables, &new_sstable);
        Ok(Flush { filename, sstable, manifest })
    }

    /// Completes a flush whose files are on disk, the table in the file
    /// `filename`: lists the table, counts the bytes, and empties the table
    /// in memory.
    pub fn complete_flush(&mut self, filename: Vec<u8>)
        requires
            old(self).wf(),
            old(self)@.pairs.len() > 0,
            old(self)@.tables.len() < MAX_FIELD,
            filename@.len() <= MAX_FIELD,
        ensures
            final(self).wf(),
            final(self)@ == after_flush(old(self)@, filename@),
    {
        proof {
            self.lemma_wf();
            lemma_key_fits(self@.pairs, 0);
            lemma_key_fits(self@.pairs, self@.pairs.len() - 1);
        }
        let minkey = self.memtable.get_minkey();
        let maxkey = self.memtable.get_maxkey();
        let new_sstable = SSTableMeta::with_filename(filename, minkey.as_slice(), maxkey.as_slice());
        let ghost before = metas_of(self.sstables@);
        self.sstables.push(new_sstable);
        proof {
            let all = metas_of(self.sstables@);
            assert(all =~= before.push(flushed_table(old(self)@, filename@)));
            assert forall|i: int| 0 <= i < all.len() implies (#[trigger] all[i]).wf() by {
                if i < all.len() - 1 {
                    assert(before[i].wf());
                }
            }
        }
        self.total_flushed_size = self.total_flushed_size.saturating_add(self.memtable.flush_size());
        self.memtable.reset();
    }

    /// The manifest of the tables on disk.
    pub fn flush_metadata(&self) -> (manifest: Vec<u8>)
        requires
            self.wf(),
        ensures
            manifest@ == manifest_bytes(self@.tables),
    {
        write_manifest(&self.sstables)
    }

    /// The bytes flushed so far: the counts of the tables in memory that were
    /// flushed, added up, or the largest number where that is more.
    pub fn total_bytes_flushed(&self) -> (n: usize)
        ensures
            n == self@.flushed,
    {
        self.total_flushed_size
    }
}

} // verus!
