//! The manifest: the list of the tables on disk with the range of keys of each.
//!
//! On disk the manifest is the number of tables in four bytes, then for each
//! table the field of its file name, its level in one byte, and the fields of
//! its lowest and its highest key. All numbers are written lowest byte first.

use crate::storage::format::{field, field_at, get_field, put_field, u32_at, MAX_FIELD};
use crate::storage::keys::{not_after, rank, Rank};
use crate::storage::keys::{lemma_before_irreflexive, lemma_before_total};
use crate::storage::table_laws::{lemma_field_at, lemma_u32_at};
use crate::wire::{read_u32_le, read_u8, write_u32_le, write_u8};
use vstd::bytes::{lemma_auto_spec_u32_to_from_le_bytes, spec_u32_to_le_bytes};
use vstd::prelude::*;

verus! {

/// The name of the file of the manifest.
pub const META_FILENAME: &'static str = "rustydb.meta";

/// What is known of a table on disk.
pub struct Meta {
    pub filename: Seq<u8>,
    pub level: u8,
    pub min_key: Seq<u8>,
    pub max_key: Seq<u8>,
}

impl Meta {
    /// Whether the table may hold `key`: the key is not outside its range.
    pub open spec fn brackets(self, key: Seq<u8>) -> bool {
        not_after(self.min_key, key) && not_after(key, self.max_key)
    }

    /// Whether each part fits its length field.
    pub open spec fn wf(self) -> bool {
        self.filename.len() <= MAX_FIELD && self.min_key.len() <= MAX_FIELD && self.max_key.len()
            <= MAX_FIELD
    }

    /// The entry of the table in the manifest.
    pub open spec fn bytes(self) -> Seq<u8> {
        field(self.filename) + seq![self.level] + field(self.min_key) + field(self.max_key)
    }
}

/// The entries of `metas`, one after another.
pub open spec fn metas_bytes(metas: Seq<Meta>) -> Seq<u8>
    decreases metas.len(),
{
    if metas.len() == 0 {
        Seq::empty()
    } else {
        metas_bytes(metas.drop_last()) + metas.last().bytes()
    }
}

/// The manifest of `metas` on disk.
pub open spec fn manifest_bytes(metas: Seq<Meta>) -> Seq<u8> {
    spec_u32_to_le_bytes(metas.len() as u32) + metas_bytes(metas)
}

/// Whether a manifest of `metas` can be written.
pub open spec fn metas_wf(metas: Seq<Meta>) -> bool {
    metas.len() <= MAX_FIELD && forall|i: int| 0 <= i < metas.len() ==> (#[trigger] metas[i]).wf()
}

/// The entry at `pos` and the place after it, if the entry is there in full.
pub open spec fn meta_at(file: Seq<u8>, pos: int) -> Option<(Meta, int)> {
    match field_at(file, pos) {
        None => None,
        Some(name) => if name.1 + 1 > file.len() {
            None
        } else {
            match field_at(file, name.1 + 1) {
                None => None,
                Some(min) => match field_at(file, min.1) {
                    None => None,
                    Some(max) => Some(
                        (
                            Meta {
                                filename: name.0,
                                level: file[name.1],
                                min_key: min.0,
                                max_key: max.0,
                            },
                            max.1,
                        ),
                    ),
                },
            }
        },
    }
}

/// The `n` entries from `pos` on, if they are there in full.
pub open spec fn metas_at(file: Seq<u8>, pos: int, n: nat) -> Option<Seq<Meta>>
    decreases n,
{
    if n == 0 {
        Some(Seq::empty())
    } else {
        match meta_at(file, pos) {
            None => None,
            Some(m) => match metas_at(file, m.1, (n - 1) as nat) {
                None => None,
                Some(rest) => Some(seq![m.0] + rest),
            },
        }
    }
}

/// The tables that a manifest lists, if it is there in full.
pub open spec fn metas_in(file: Seq<u8>) -> Option<Seq<Meta>> {
    match u32_at(file, 0) {
        None => None,
        Some(n) => metas_at(file, 4, n as nat),
    }
}

/// The ending of the name of the file of a table: `.sst`.
pub open spec fn sst_ending() -> Seq<u8> {
    seq![46u8, 115u8, 115u8, 116u8]
}

/// Whether `name` is the name of the file of a new table: an identifier of
/// 36 bytes and the ending `.sst`.
pub open spec fn is_fresh_name(name: Seq<u8>) -> bool {
    name.len() == 40 && name.subrange(36, 40) == sst_ending()
}

/// `uuid::Uuid::new_v4` in hyphenated form: a random identifier of 36 bytes.
#[verifier::external_body]
pub(crate) fn fresh_id() -> (id: Vec<u8>)
    ensures
        id@.len() == 36,
{
    uuid::Uuid::new_v4().to_hyphenated().to_string().into_bytes()
}

/// The name of the file of the table with the identifier `id`: the
/// identifier with the ending `.sst`.
pub fn sst_filename(id: &[u8]) -> (name: Vec<u8>)
    ensures
        name@ == id@ + sst_ending(),
{
    let mut name = vstd::slice::slice_to_vec(id);
    name.push(46);
    name.push(115);
    name.push(115);
    name.push(116);
    assert(name@ =~= id@ + sst_ending());
    name
}

/// The name of the file of a new table.
pub(crate) fn fresh_filename() -> (name: Vec<u8>)
    ensures
        is_fresh_name(name@),
{
    let id = fresh_id();
    let name = sst_filename(id.as_slice());
    assert(name@.subrange(36, 40) =~= sst_ending());
    name
}

/// What the tree keeps of a table on disk.
#[derive(Debug)]
pub struct SSTableMeta {
    filename: Vec<u8>,
    level: u8,
    min_key: Vec<u8>,
    max_key: Vec<u8>,
}

impl View for SSTableMeta {
    type V = Meta;

    closed spec fn view(&self) -> Meta {
        Meta {
            filename: self.filename@,
            level: self.level,
            min_key: self.min_key@,
            max_key: self.max_key@,
        }
    }
}

impl SSTableMeta {
    /// A table of level 0 with a fresh file name.
    pub fn new(minkey: &[u8], maxkey: &[u8]) -> (m: Self)
        ensures
            m@.level == 0,
            m@.min_key == minkey@,
            m@.max_key == maxkey@,
            is_fresh_name(m@.filename),
    {
        Self::with_filename(fresh_filename(), minkey, maxkey)
    }

    /// A table of level 0 in the file `filename`.
    pub fn with_filename(filename: Vec<u8>, minkey: &[u8], maxkey: &[u8]) -> (m: Self)
        ensures
            m@ == (Meta { filename: filename@, level: 0, min_key: minkey@, max_key: maxkey@ }),
    {
        SSTableMeta {
            filename,
            level: 0,
            min_key: vstd::slice::slice_to_vec(minkey),
            max_key: vstd::slice::slice_to_vec(maxkey),
        }
    }

    /// The name of the file of the table.
    pub fn filename(&self) -> (name: &Vec<u8>)
        ensures
            name@ == self@.filename,
    {
        &self.filename
    }

    /// Whether the table may hold `key`.
    pub fn in_range(&self, key: &[u8]) -> (r: bool)
        ensures
            r == self@.brackets(key@),
    {
        proof {
            lemma_before_total(self.min_key@, key@);
            lemma_before_total(key@, self.max_key@);
            lemma_before_irreflexive(key@);
        }
        let low = rank(self.min_key.as_slice(), key);
        let high = rank(key, self.max_key.as_slice());
        (low == Rank::Lower || low == Rank::Same) && (high == Rank::Lower || high == Rank::Same)
    }

    /// Appends the entry of the table to a manifest.
    fn write_to(&self, buf: &mut Vec<u8>)
        requires
            self@.wf(),
        ensures
            final(buf)@ == old(buf)@ + self@.bytes(),
    {
        put_field(buf, self.filename.as_slice());
        let _ = write_u8(buf, self.level);
        put_field(buf, self.min_key.as_slice());
        put_field(buf, self.max_key.as_slice());
        assert(buf@ =~= old(buf)@ + self@.bytes());
    }

    /// Reads the entry at `pos` of a manifest.
    fn read_from(file: &[u8], pos: usize) -> (r: Result<(SSTableMeta, usize), std::io::Error>)
        requires
            pos <= file@.len(),
        ensures
            match meta_at(file@, pos as int) {
                Some(m) => r is Ok && r->Ok_0.0@ == m.0 && r->Ok_0.1 == m.1 && m.1 <= file@.len()
                    && m.0.wf(),
                None => r is Err,
            },
    {
        let total: usize = file.len();
        assert(total == file@.len());
        let (filename, after_name) = match get_field(file, pos) {
            Ok(f) => f,
            Err(e) => {
                return Err(e);
            },
        };
        let level = match read_u8(file, after_name) {
            Ok(l) => l,
            Err(e) => {
                return Err(e);
            },
        };
        let (min_key, after_min) = match get_field(file, after_name + 1) {
            Ok(f) => f,
            Err(e) => {
                return Err(e);
            },
        };
        let (max_key, after_max) = match get_field(file, after_min) {
            Ok(f) => f,
            Err(e) => {
                return Err(e);
            },
        };
        Ok((SSTableMeta { filename, level, min_key, max_key }, after_max))
    }
}

/// The tables that entries in memory stand for.
pub open spec fn metas_of(tables: Seq<SSTableMeta>) -> Seq<Meta> {
    Seq::new(tables.len(), |i: int| tables[i]@)
}

/// Writes the manifest of `tables`.
pub fn write_manifest(tables: &Vec<SSTableMeta>) -> (out: Vec<u8>)
    requires
        metas_wf(metas_of(tables@)),
    ensures
        out@ == manifest_bytes(metas_of(tables@)),
{
    let ghost metas = metas_of(tables@);
    let mut out: Vec<u8> = Vec::new();
    let n: usize = tables.len();
    let _ = write_u32_le(&mut out, n as u32);
    let mut i: usize = 0;
    assert(metas_bytes(metas.take(0)) =~= Seq::<u8>::empty());
    assert(out@ =~= spec_u32_to_le_bytes(n as u32) + metas_bytes(metas.take(0)));
    while i < n
        invariant
            i <= n,
            n == tables@.len(),
            metas == metas_of(tables@),
            metas_wf(metas),
            out@ == spec_u32_to_le_bytes(n as u32) + metas_bytes(metas.take(i as int)),
        decreases n - i,
    {
        proof {
            assert(metas[i as int].wf());
            assert(metas.take(i + 1).drop_last() =~= metas.take(i as int));
            assert(metas.take(i + 1).last() == metas[i as int]);
        }
        tables[i].write_to(&mut out);
        assert(out@ =~= spec_u32_to_le_bytes(n as u32) + metas_bytes(metas.take(i + 1)));
        i += 1;
    }
    assert(metas.take(n as int) =~= metas);
    out
}

/// Writes the manifest of `tables` and of one more table after them.
pub fn write_manifest_with(tables: &Vec<SSTableMeta>, last: &SSTableMeta) -> (out: Vec<u8>)
    requires
        metas_wf(metas_of(tables@).push(last@)),
    ensures
        out@ == manifest_bytes(metas_of(tables@).push(last@)),
{
    let ghost metas = metas_of(tables@);
    let ghost all = metas.push(last@);
    let mut out: Vec<u8> = Vec::new();
    let n: usize = tables.len();
    let _ = write_u32_le(&mut out, (n + 1) as u32);
    let mut i: usize = 0;
    assert(metas_bytes(metas.take(0)) =~= Seq::<u8>::empty());
    assert(out@ =~= spec_u32_to_le_bytes((n + 1) as u32) + metas_bytes(metas.take(0)));
    while i < n
        invariant
            i <= n,
            n == tables@.len(),
            n + 1 <= MAX_FIELD,
            metas == metas_of(tables@),
            all == metas.push(last@),
            metas_wf(all),
            out@ == spec_u32_to_le_bytes((n + 1) as u32) + metas_bytes(metas.take(i as int)),
        decreases n - i,
    {
        proof {
            assert(all[i as int].wf());
            assert(metas.take(i + 1).drop_last() =~= metas.take(i as int));
            assert(metas.take(i + 1).last() == metas[i as int]);
        }
        tables[i].write_to(&mut out);
        assert(out@ =~= spec_u32_to_le_bytes((n + 1) as u32) + metas_bytes(metas.take(i + 1)));
        i += 1;
    }
    proof {
        assert(metas.take(n as int) =~= metas);
        assert(all.drop_last() =~= metas);
        assert(all[n as int].wf());
    }
    last.write_to(&mut out);
    assert(out@ =~= manifest_bytes(all));
    out
}

/// Reads the tables that a manifest lists.
#[verifier::loop_isolation(false)]
pub fn read_manifest(file: &[u8]) -> (r: Result<Vec<SSTableMeta>, std::io::Error>)
    ensures
        match metas_in(file@) {
            Some(metas) => r is Ok && metas_of(r->Ok_0@) == metas && metas_wf(metas),
            None => r is Err,
        },
{
    let total: usize = file.len();
    let num_sstables = match read_u32_le(file, 0) {
        Ok(n) => n,
        Err(e) => {
            return Err(e);
        },
    };
    let mut tables: Vec<SSTableMeta> = Vec::new();
    let mut pos: usize = 4;
    let mut i: u32 = 0;
    assert(metas_of(tables@) =~= Seq::<Meta>::empty());
    while i < num_sstables
        invariant
            i <= num_sstables,
            pos <= total,
            tables@.len() == i,
            forall|j: int| 0 <= j < tables@.len() ==> (#[trigger] metas_of(tables@)[j]).wf(),
            metas_in(file@) == (match metas_at(file@, pos as int, (num_sstables - i) as nat) {
                Some(rest) => Some(metas_of(tables@) + rest),
                None => None,
            }),
        decreases num_sstables - i,
    {
        let (meta, next) = match SSTableMeta::read_from(file, pos) {
            Ok(m) => m,
            Err(e) => {
                return Err(e);
            },
        };
        proof {
            let before = metas_of(tables@);
            assert(metas_of(tables@.push(meta)) =~= before.push(meta@));
            match metas_at(file@, next as int, (num_sstables - i - 1) as nat) {
                Some(rest) => {
                    assert(before.push(meta@) + rest =~= before + (seq![meta@] + rest));
                },
                None => {},
            }
        }
        tables.push(meta);
        pos = next;
        i += 1;
    }
    assert(metas_of(tables@) + Seq::<Meta>::empty() =~= metas_of(tables@));
    Ok(tables)
}

/// The first entries of a manifest start the manifest.
pub proof fn lemma_metas_prefix(metas: Seq<Meta>, k: int)
    requires
        0 <= k <= metas.len(),
    ensures
        metas_bytes(metas.take(k)).len() <= metas_bytes(metas).len(),
        metas_bytes(metas).subrange(0, metas_bytes(metas.take(k)).len() as int) == metas_bytes(
            metas.take(k),
        ),
    decreases metas.len(),
{
    if k == metas.len() {
        assert(metas.take(k) =~= metas);
        assert(metas_bytes(metas).subrange(0, metas_bytes(metas).len() as int) =~= metas_bytes(metas));
    } else {
        let front = metas.drop_last();
        lemma_metas_prefix(front, k);
        assert(front.take(k) =~= metas.take(k));
        assert(metas_bytes(metas).subrange(0, metas_bytes(metas.take(k)).len() as int)
            =~= metas_bytes(front).subrange(0, metas_bytes(metas.take(k)).len() as int));
    }
}

/// An entry is read back from where it was written.
pub proof fn lemma_meta_at(head: Seq<u8>, meta: Meta, tail: Seq<u8>)
    requires
        meta.wf(),
    ensures
        meta_at(head + meta.bytes() + tail, head.len() as int) == Some(
            (meta, (head.len() + meta.bytes().len()) as int),
        ),
{
    let file = head + meta.bytes() + tail;
    let name = field(meta.filename);
    let level = seq![meta.level];
    let min = field(meta.min_key);
    let max = field(meta.max_key);
    assert(file =~= head + name + (level + min + max + tail));
    lemma_field_at(head, meta.filename, level + min + max + tail);
    assert(file =~= (head + name + level) + min + (max + tail));
    lemma_field_at(head + name + level, meta.min_key, max + tail);
    assert(file =~= (head + name + level + min) + max + tail);
    lemma_field_at(head + name + level + min, meta.max_key, tail);
    assert(file[(head.len() + name.len()) as int] == meta.level);
}

/// The entries of a manifest are read back from where they were written.
pub proof fn lemma_metas_at(head: Seq<u8>, metas: Seq<Meta>, k: int)
    requires
        0 <= k <= metas.len(),
        forall|i: int| 0 <= i < metas.len() ==> (#[trigger] metas[i]).wf(),
    ensures
        metas_at(
            head + metas_bytes(metas),
            (head.len() + metas_bytes(metas.take(k)).len()) as int,
            (metas.len() - k) as nat,
        ) == Some(metas.skip(k)),
    decreases metas.len() - k,
{
    let file = head + metas_bytes(metas);
    if k == metas.len() {
        assert(metas.skip(k) =~= Seq::<Meta>::empty());
    } else {
        let meta = metas[k];
        let done = metas_bytes(metas.take(k));
        let upto = metas.take(k + 1);
        assert(upto.drop_last() =~= metas.take(k));
        assert(upto.last() == meta);
        lemma_metas_prefix(metas, k + 1);
        let left = metas_bytes(metas).skip(metas_bytes(upto).len() as int);
        assert(metas_bytes(metas) =~= metas_bytes(upto) + left);
        assert(file =~= (head + done) + meta.bytes() + left);
        lemma_meta_at(head + done, meta, left);
        lemma_metas_at(head, metas, k + 1);
        assert(seq![meta] + metas.skip(k + 1) =~= metas.skip(k));
    }
}

/// Reading a manifest that was written gives the tables that it was written for.
pub proof fn law_manifest_round_trip(metas: Seq<Meta>)
    requires
        metas_wf(metas),
    ensures
        metas_in(manifest_bytes(metas)) == Some(metas),
{
    lemma_auto_spec_u32_to_from_le_bytes();
    let count = spec_u32_to_le_bytes(metas.len() as u32);
    assert(manifest_bytes(metas) =~= Seq::<u8>::empty() + count + metas_bytes(metas));
    lemma_u32_at(Seq::empty(), metas.len() as u32, metas_bytes(metas));
    lemma_metas_at(count, metas, 0);
    assert(metas.take(0) =~= Seq::<Meta>::empty());
    assert(metas.skip(0) =~= metas);
}

} // verus!
