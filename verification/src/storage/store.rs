//! The store: the tree behind its write-ahead log.
//!
//! The store reads and writes no file and starts no thread. A write has two
//! steps. First the store hands over the record of the pair, which the caller
//! writes at the end of the log. Then the pair is put into the tree; where
//! the table in memory has to be flushed before, the store hands over the
//! files of the flush, the caller writes them to disk, completes the flush,
//! and puts the pair in again. A store is recovered by putting the pairs of
//! the old log into the tree, forcing a flush, and starting the log anew.

use crate::storage::format::MAX_FIELD;
use crate::storage::lsmtree::{after_flush, flush_due, flush_of, goes_on, put_in};
use crate::storage::lsmtree::{Flush, LSMTree, Lookup, SetStep, TreeState};
use crate::storage::manifest::{is_fresh_name, metas_in};
use crate::storage::format::Pair;
use crate::storage::memtable::{inserted, law_inserted, sorted, to_map};
use crate::storage::table_laws::table_get;
use crate::storage::wal::{Record, WALWriter};
use vstd::prelude::*;

verus! {

/// The store.
pub struct RustyStore {
    tree: LSMTree,
    wal: WALWriter,
}

impl RustyStore {
    /// What the tree of the store holds.
    pub closed spec fn view(&self) -> TreeState {
        self.tree@
    }

    pub closed spec fn wf(&self) -> bool {
        self.tree.wf() && self.wal@ == Seq::<u8>::empty()
    }

    /// A store with the tables that `manifest` lists and an empty table in memory.
    pub fn new(manifest: &[u8]) -> (store: Self)
        ensures
            store.wf(),
            store@ == (TreeState {
                pairs: Seq::empty(),
                projected: 0,
                tables: match metas_in(manifest@) {
                    Some(metas) => metas,
                    None => Seq::empty(),
                },
                flushed: 0,
            }),
    {
        RustyStore { tree: LSMTree::new(manifest), wal: WALWriter::new() }
    }

    /// The record of a write of a pair at the time `timestamp`, in seconds
    /// and nanoseconds, to be written at the end of the log before the pair
    /// is put into the tree. Fails where the key or the value does not fit
    /// its length field. The tree is not touched.
    pub fn record(&mut self, timestamp: (u64, u32), key: &[u8], val: &[u8]) -> (r: Result<
        Vec<u8>,
        std::io::Error,
    >)
        requires
            old(self).wf(),
        ensures
            final(self).wf(),
            final(self)@ == old(self)@,
            match r {
                Ok(record) => key@.len() <= MAX_FIELD && val@.len() <= MAX_FIELD && record@ == (Record {
                    secs: timestamp.0,
                    nanos: timestamp.1,
                    key: key@,
                    value: val@,
                }).bytes(),
                Err(_) => key@.len() > MAX_FIELD || val@.len() > MAX_FIELD,
            },
    {
        match self.wal.add(timestamp, key, val) {
            Ok(()) => Ok(self.wal.flush()),
            Err(e) => Err(e),
        }
    }

    /// Puts a pair whose record is in the log into the tree: a pair that was
    /// just logged, or a pair of the old log when the store is recovered.
    /// Where the table in memory has to be flushed before, it hands over the
    /// files of the flush and changes nothing. Fails, and changes nothing,
    /// where the pair takes more than `MAX_FIELD` bytes, or where a flush is
    /// due and the manifest has no room for another table.
    pub fn set(&mut self, key: &[u8], val: &[u8]) -> (r: Result<SetStep, std::io::Error>)
        requires
            old(self).wf(),
        ensures
            final(self).wf(),
            if 8 + key@.len() + val@.len() > MAX_FIELD {
                r is Err && final(self)@ == old(self)@
            } else if !flush_due(old(self)@, 8 + key@.len() + val@.len()) {
                r is Ok && r->Ok_0 is Done && final(self)@ == put_in(old(self)@, key@, val@)
            } else if old(self)@.tables.len() >= MAX_FIELD {
                r is Err && final(self)@ == old(self)@
            } else {
                r is Ok && (r->Ok_0 matches SetStep::Flush(flush) && is_fresh_name(flush.filename@)
                    && flush_of(old(self)@, flush.filename@, flush)) && final(self)@ == old(self)@
            },
    {
        self.tree.set(key, val)
    }

    /// Ends a recovery: the files of a flush of the table in memory, where it
    /// holds a pair. The store is not changed: see `complete_flush`.
    pub fn finish_recovery(&self) -> (r: Result<Option<Flush>, std::io::Error>)
        requires
            self.wf(),
        ensures
            if self@.pairs.len() == 0 {
                r is Ok && r->Ok_0 is None
            } else if self@.tables.len() >= MAX_FIELD {
                r is Err
            } else {
                r is Ok && (r->Ok_0 matches Some(flush) && is_fresh_name(flush.filename@) && flush_of(
                    self@,
                    flush.filename@,
                    flush,
                ))
            },
    {
        if self.tree.memtable_is_empty() {
            return Ok(None);
        }
        match self.tree.flush_memtable() {
            Ok(flush) => Ok(Some(flush)),
            Err(e) => Err(e),
        }
    }

    /// Completes a flush whose files are on disk, the table in the file
    /// `filename`: lists the table and empties the table in memory.
    pub fn complete_flush(&mut self, filename: Vec<u8>)
        requires
            old(self).wf(),
            old(self)@.pairs.len() > 0,
            old(self)@.tables.len() < MAX_FIELD,
            filename@.len() <= MAX_FIELD,
        ensures
            final(self).wf(),
            final(self)@ == after_flush(old(self)@, filename@),
    {
        self.tree.complete_flush(filename)
    }

    /// Whether the table in memory holds no pair.
    pub fn memtable_is_empty(&self) -> (e: bool)
        ensures
            e == (self@.pairs.len() == 0),
    {
        self.tree.memtable_is_empty()
    }

    /// Reads a key from the table in memory, or names the first table on
    /// disk that may hold it.
    pub fn get(&self, key: &[u8]) -> (r: Lookup)
        requires
            self.wf(),
        ensures
            match r {
                Lookup::Found(value) => to_map(self@.pairs).contains_key(key@) && value@ == to_map(
                    self@.pairs,
                )[key@],
                _ => !to_map(self@.pairs).contains_key(key@) && goes_on(self@.tables, key@, 0, r),
            },
    {
        self.tree.get(key)
    }

    /// Reads a key from the file of the table `sstable`, or names the next
    /// table that may hold it.
    pub fn get_from(&self, key: &[u8], sstable: usize, file: Vec<u8>) -> (r: Result<
        Lookup,
        std::io::Error,
    >)
        requires
            sstable < usize::MAX,
        ensures
            match table_get(file@, key@) {
                None => r is Err,
                Some(Some(value)) => r is Ok && (r->Ok_0 matches Lookup::Found(v) && v@ == value),
                Some(None) => r is Ok && !(r->Ok_0 is Found) && goes_on(
                    self@.tables,
                    key@,
                    sstable + 1,
                    r->Ok_0,
                ),
            },
    {
        self.tree.get_from(key, sstable, file)
    }

    /// The number of tables on disk.
    pub fn num_sstables(&self) -> (n: usize)
        ensures
            n == self@.tables.len(),
    {
        self.tree.num_sstables()
    }

    /// The name of the file of the table with the number `sstable`.
    pub fn sstable_filename(&self, sstable: usize) -> (name: &Vec<u8>)
        requires
            sstable < self@.tables.len(),
        ensures
            name@ == self@.tables[sstable as int].filename,
    {
        self.tree.sstable_filename(sstable)
    }
}

/// The pairs in memory after `records` were put in one after another.
pub open spec fn replayed(pairs: Seq<Pair>, records: Seq<Record>) -> Seq<Pair>
    decreases records.len(),
{
    if records.len() == 0 {
        pairs
    } else {
        inserted(replayed(pairs, records.drop_last()), records.last().key, records.last().value)
    }
}

/// The value of the last of `records` with the key `key`.
pub open spec fn last_written(records: Seq<Record>, key: Seq<u8>) -> Option<Seq<u8>>
    decreases records.len(),
{
    if records.len() == 0 {
        None
    } else if records.last().key == key {
        Some(records.last().value)
    } else {
        last_written(records.drop_last(), key)
    }
}

/// After the records of a log were put into a table in memory, each key of
/// a record has the value of the last record with that key, and every other
/// key is as it was.
pub proof fn law_replay_latest(pairs: Seq<Pair>, records: Seq<Record>, key: Seq<u8>)
    requires
        sorted(pairs),
    ensures
        sorted(replayed(pairs, records)),
        match last_written(records, key) {
            Some(value) => to_map(replayed(pairs, records)).contains_key(key) && to_map(
                replayed(pairs, records),
            )[key] == value,
            None => to_map(replayed(pairs, records)).contains_key(key) == to_map(pairs).contains_key(
                key,
            ) && (to_map(pairs).contains_key(key) ==> to_map(replayed(pairs, records))[key]
                == to_map(pairs)[key]),
        },
    decreases records.len(),
{
    if records.len() > 0 {
        law_replay_latest(pairs, records.drop_last(), key);
        law_inserted(
            replayed(pairs, records.drop_last()),
            records.last().key,
            records.last().value,
        );
    }
}

} // verus!
