//! The write-ahead log: a pair is logged before it is put into the tree, so
//! that the table in memory can be rebuilt from the log.
//!
//! A record is the time of the write as seconds in eight bytes and
//! nanoseconds in four, then the field of the key and the field of the
//! value. All numbers are written lowest byte first.

use crate::storage::format::{field, field_at, get_field, put_field, u32_at, MAX_FIELD};
use crate::storage::table_laws::{lemma_field_at, lemma_u32_at};
use crate::wire::{invalid_input, read_u32_le, read_u64_le, write_u32_le, write_u64_le};
use vstd::bytes::{lemma_auto_spec_u32_to_from_le_bytes, lemma_auto_spec_u64_to_from_le_bytes};
use vstd::bytes::{spec_u32_to_le_bytes, spec_u64_from_le_bytes, spec_u64_to_le_bytes};
use vstd::prelude::*;

verus! {

/// The name of the file of the log.
pub const WAL_FILENAME: &'static str = "rustydb.wal";

/// A record of the log.
pub struct Record {
    pub secs: u64,
    pub nanos: u32,
    pub key: Seq<u8>,
    pub value: Seq<u8>,
}

impl Record {
    /// The record on disk.
    pub open spec fn bytes(self) -> Seq<u8> {
        spec_u64_to_le_bytes(self.secs) + spec_u32_to_le_bytes(self.nanos) + field(self.key) + field(
            self.value,
        )
    }

    /// Whether the key and the value fit their length fields.
    pub open spec fn wf(self) -> bool {
        self.key.len() <= MAX_FIELD && self.value.len() <= MAX_FIELD
    }
}

/// The records of a log on disk, one after another.
pub open spec fn log_bytes(records: Seq<Record>) -> Seq<u8>
    decreases records.len(),
{
    if records.len() == 0 {
        Seq::empty()
    } else {
        log_bytes(records.drop_last()) + records.last().bytes()
    }
}

/// The number that the eight bytes at `pos` spell, lowest first, if they are there.
pub open spec fn u64_at(bytes: Seq<u8>, pos: int) -> Option<u64> {
    if 0 <= pos && pos + 8 <= bytes.len() {
        Some(spec_u64_from_le_bytes(bytes.subrange(pos, pos + 8)))
    } else {
        None
    }
}

/// The record at `pos` and the place after it, if the record is there in full.
pub open spec fn record_at(log: Seq<u8>, pos: int) -> Option<(Record, int)> {
    match u64_at(log, pos) {
        None => None,
        Some(secs) => match u32_at(log, pos + 8) {
            None => None,
            Some(nanos) => match field_at(log, pos + 12) {
                None => None,
                Some(key) => match field_at(log, key.1) {
                    None => None,
                    Some(value) => Some(
                        (Record { secs, nanos, key: key.0, value: value.0 }, value.1),
                    ),
                },
            },
        },
    }
}

/// The records that a walk over a log gives from `pos` on: it ends at the
/// first place where no record is there in full.
pub open spec fn records_from(log: Seq<u8>, pos: int) -> Seq<Record>
    decreases log.len() - pos,
{
    match record_at(log, pos) {
        None => Seq::empty(),
        Some(r) => if r.1 <= pos {
            Seq::empty()
        } else {
            seq![r.0] + records_from(log, r.1)
        },
    }
}

/// Makes the records of the log. The records that were added wait here until
/// they are handed over to be written to disk.
pub struct WALWriter {
    pending: Vec<u8>,
}

impl WALWriter {
    /// The bytes that wait to be written.
    pub closed spec fn view(&self) -> Seq<u8> {
        self.pending@
    }

    pub fn new() -> (w: WALWriter)
        ensures
            w@ == Seq::<u8>::empty(),
    {
        WALWriter { pending: Vec::new() }
    }

    /// Starts the log anew: nothing waits to be written.
    pub fn reset(&mut self)
        ensures
            final(self)@ == Seq::<u8>::empty(),
    {
        self.pending.clear();
    }

    /// Adds the record of a write at the time `timestamp`, in seconds and
    /// nanoseconds. Fails, and adds nothing, where the key or the value does
    /// not fit its length field.
    pub fn add(&mut self, timestamp: (u64, u32), key: &[u8], val: &[u8]) -> (r: Result<
        (),
        std::io::Error,
    >)
        ensures
            match r {
                Ok(()) => key@.len() <= MAX_FIELD && val@.len() <= MAX_FIELD && final(self)@ == old(self)@ + (Record {
                    secs: timestamp.0,
                    nanos: timestamp.1,
                    key: key@,
                    value: val@,
                }).bytes(),
                Err(_) => (key@.len() > MAX_FIELD || val@.len() > MAX_FIELD) && final(self)@ == old(self)@,
            },
    {
        if key.len() > MAX_FIELD || val.len() > MAX_FIELD {
            return Err(invalid_input("a field takes at most 4 GiB"));
        }
        let _ = write_u64_le(&mut self.pending, timestamp.0);
        let _ = write_u32_le(&mut self.pending, timestamp.1);
        put_field(&mut self.pending, key);
        put_field(&mut self.pending, val);
        assert(self.pending@ =~= old(self)@ + (Record {
            secs: timestamp.0,
            nanos: timestamp.1,
            key: key@,
            value: val@,
        }).bytes());
        Ok(())
    }

    /// Hands over the bytes that wait to be written, and keeps none.
    pub fn flush(&mut self) -> (out: Vec<u8>)
        ensures
            out@ == old(self)@,
            final(self)@ == Seq::<u8>::empty(),
    {
        let mut out: Vec<u8> = Vec::new();
        std::mem::swap(&mut self.pending, &mut out);
        out
    }
}

/// Walks over the records of a log.
pub struct WALReader {
    log: Vec<u8>,
    pos: usize,
}

impl WALReader {
    /// The log that is walked.
    pub closed spec fn log(&self) -> Seq<u8> {
        self.log@
    }

    /// The place of the next record.
    pub closed spec fn position(&self) -> int {
        self.pos as int
    }

    pub closed spec fn wf(&self) -> bool {
        self.pos <= self.log@.len()
    }

    /// A walk over `log` from its start.
    pub fn new(log: Vec<u8>) -> (r: Self)
        ensures
            r.wf(),
            r.log() == log@,
            r.position() == 0,
    {
        WALReader { log, pos: 0 }
    }

    /// Reads the next record: the time of the write in seconds and
    /// nanoseconds, the key and the value. Fails, and stays where it is,
    /// where no record is there in full.
    pub fn read_entry(&mut self) -> (r: Result<((u64, u32), Vec<u8>, Vec<u8>), std::io::Error>)
        requires
            old(self).wf(),
        ensures
            final(self).wf(),
            final(self).log() == old(self).log(),
            match record_at(old(self).log(), old(self).position()) {
                Some(rec) => r is Ok && r->Ok_0.0 == (rec.0.secs, rec.0.nanos) && r->Ok_0.1@
                    == rec.0.key && r->Ok_0.2@ == rec.0.value && final(self).position() == rec.1
                    && rec.1 > old(self).position(),
                None => r is Err && final(self).position() == old(self).position(),
            },
    {
        let total: usize = self.log.len();
        let secs = match read_u64_le(self.log.as_slice(), self.pos) {
            Ok(n) => n,
            Err(e) => {
                return Err(e);
            },
        };
        let nsecs = match read_u32_le(self.log.as_slice(), self.pos + 8) {
            Ok(n) => n,
            Err(e) => {
                return Err(e);
            },
        };
        let (key, after_key) = match get_field(self.log.as_slice(), self.pos + 12) {
            Ok(f) => f,
            Err(e) => {
                return Err(e);
            },
        };
        let (val, after_val) = match get_field(self.log.as_slice(), after_key) {
            Ok(f) => f,
            Err(e) => {
                return Err(e);
            },
        };
        self.pos = after_val;
        Ok(((secs, nsecs), key, val))
    }

    /// The next record, or `None` where no record is there in full.
    pub fn next(&mut self) -> (r: Option<((u64, u32), Vec<u8>, Vec<u8>)>)
        requires
            old(self).wf(),
        ensures
            final(self).wf(),
            final(self).log() == old(self).log(),
            match record_at(old(self).log(), old(self).position()) {
                Some(rec) => r is Some && r->Some_0.0 == (rec.0.secs, rec.0.nanos) && r->Some_0.1@
                    == rec.0.key && r->Some_0.2@ == rec.0.value && final(self).position() == rec.1
                    && rec.1 > old(self).position(),
                None => r is None && final(self).position() == old(self).position(),
            },
    {
        match self.read_entry() {
            Ok((duration, key, val)) => Some((duration, key, val)),
            Err(_e) => None,
        }
    }
}

/// A record is read back from where it was written.
pub proof fn lemma_record_at(head: Seq<u8>, rec: Record, tail: Seq<u8>)
    requires
        rec.wf(),
    ensures
        record_at(head + rec.bytes() + tail, head.len() as int) == Some(
            (rec, (head.len() + rec.bytes().len()) as int),
        ),
        rec.bytes().len() >= 20,
{
    lemma_auto_spec_u32_to_from_le_bytes();
    lemma_auto_spec_u64_to_from_le_bytes();
    let file = head + rec.bytes() + tail;
    let secs = spec_u64_to_le_bytes(rec.secs);
    let nanos = spec_u32_to_le_bytes(rec.nanos);
    let key = field(rec.key);
    let value = field(rec.value);
    assert(file.subrange(head.len() as int, head.len() as int + 8) =~= secs);
    assert(file =~= (head + secs) + nanos + (key + value + tail));
    lemma_u32_at(head + secs, rec.nanos, key + value + tail);
    assert(file =~= (head + secs + nanos) + key + (value + tail));
    lemma_field_at(head + secs + nanos, rec.key, value + tail);
    assert(file =~= (head + secs + nanos + key) + value + tail);
    lemma_field_at(head + secs + nanos + key, rec.value, tail);
}

/// The first records of a log start the log.
pub proof fn lemma_log_prefix(records: Seq<Record>, k: int)
    requires
        0 <= k <= records.len(),
    ensures
        log_bytes(records.take(k)).len() <= log_bytes(records).len(),
        log_bytes(records).subrange(0, log_bytes(records.take(k)).len() as int) == log_bytes(
            records.take(k),
        ),
    decreases records.len(),
{
    if k == records.len() {
        assert(records.take(k) =~= records);
        assert(log_bytes(records).subrange(0, log_bytes(records).len() as int) =~= log_bytes(records));
    } else {
        let front = records.drop_last();
        lemma_log_prefix(front, k);
        assert(front.take(k) =~= records.take(k));
        assert(log_bytes(records).subrange(0, log_bytes(records.take(k)).len() as int)
            =~= log_bytes(front).subrange(0, log_bytes(records.take(k)).len() as int));
    }
}

/// A walk over a log gives the records from each place on as they were
/// written, where no record is there in full after the last of them.
pub proof fn lemma_records_from(records: Seq<Record>, tail: Seq<u8>, k: int)
    requires
        0 <= k <= records.len(),
        forall|i: int| 0 <= i < records.len() ==> (#[trigger] records[i]).wf(),
        record_at(log_bytes(records) + tail, log_bytes(records).len() as int) is None,
    ensures
        records_from(log_bytes(records) + tail, log_bytes(records.take(k)).len() as int)
            == records.skip(k),
    decreases records.len() - k,
{
    let log = log_bytes(records);
    let done = log_bytes(records.take(k));
    if k == records.len() {
        assert(records.take(k) =~= records);
        assert(records.skip(k) =~= Seq::<Record>::empty());
    } else {
        let rec = records[k];
        let upto = records.take(k + 1);
        assert(upto.drop_last() =~= records.take(k));
        assert(upto.last() == rec);
        lemma_log_prefix(records, k + 1);
        let left = log.skip(log_bytes(upto).len() as int);
        assert(log =~= log_bytes(upto) + left);
        assert(log + tail =~= done + rec.bytes() + (left + tail));
        lemma_record_at(done, rec, left + tail);
        lemma_records_from(records, tail, k + 1);
        assert(seq![rec] + records.skip(k + 1) =~= records.skip(k));
    }
}

/// A walk over a log gives the records that were written to it, in their order.
pub proof fn law_log_round_trip(records: Seq<Record>)
    requires
        forall|i: int| 0 <= i < records.len() ==> (#[trigger] records[i]).wf(),
    ensures
        records_from(log_bytes(records), 0) == records,
{
    assert(log_bytes(records) + Seq::<u8>::empty() =~= log_bytes(records));
    lemma_records_from(records, Seq::empty(), 0);
    assert(records.take(0) =~= Seq::<Record>::empty());
    assert(records.skip(0) =~= records);
}

/// No record is there in full where a record was cut short.
pub proof fn lemma_torn_record(head: Seq<u8>, torn: Record, cut: int)
    requires
        torn.wf(),
        0 <= cut < torn.bytes().len(),
    ensures
        record_at(head + torn.bytes().take(cut), head.len() as int) is None,
{
    lemma_auto_spec_u32_to_from_le_bytes();
    lemma_auto_spec_u64_to_from_le_bytes();
    let whole = torn.bytes();
    let part = whole.take(cut);
    let file = head + part;
    let h = head.len() as int;
    let klen = torn.key.len() as int;
    let vlen = torn.value.len() as int;
    assert(whole.len() == 20 + klen + vlen);
    if cut >= 16 {
        assert(file.subrange(h + 12, h + 16) =~= whole.subrange(12, 16));
        assert(whole.subrange(12, 16) =~= spec_u32_to_le_bytes(torn.key.len() as u32));
        if cut >= 20 + klen {
            assert(file.subrange(h + 16 + klen, h + 20 + klen) =~= whole.subrange(
                16 + klen,
                20 + klen,
            ));
            assert(whole.subrange(16 + klen, 20 + klen) =~= spec_u32_to_le_bytes(
                torn.value.len() as u32,
            ));
        }
    }
}

/// A walk over a log whose last record was cut short gives the records
/// before it, and ends there.
pub proof fn law_torn_log(records: Seq<Record>, torn: Record, cut: int)
    requires
        forall|i: int| 0 <= i < records.len() ==> (#[trigger] records[i]).wf(),
        torn.wf(),
        0 <= cut < torn.bytes().len(),
    ensures
        records_from(log_bytes(records) + torn.bytes().take(cut), 0) == records,
{
    lemma_torn_record(log_bytes(records), torn, cut);
    lemma_records_from(records, torn.bytes().take(cut), 0);
    assert(records.take(0) =~= Seq::<Record>::empty());
    assert(records.skip(0) =~= records);
}

} // verus!
