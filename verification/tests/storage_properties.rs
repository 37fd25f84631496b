use rustydb::storage::keys::{rank, Rank};
use rustydb::storage::lsmtree::{Flush, LSMTree, Lookup, SetStep};
use rustydb::storage::manifest::{read_manifest, sst_filename, write_manifest, SSTableMeta};
use rustydb::storage::memtable::{MemTable, MEMTABLE_THRESHOLD};
use rustydb::storage::sstable::{SSTableFileBuilder, SSTableFileReader};
use rustydb::storage::store::RustyStore;
use rustydb::storage::wal::{WALReader, WALWriter};
use std::collections::HashMap;

fn keep(disk: &mut HashMap<Vec<u8>, Vec<u8>>, flush: Flush) {
    disk.insert(flush.filename, flush.sstable);
    disk.insert("rustydb.meta".as_bytes().to_vec(), flush.manifest);
}

fn put(tree: &mut LSMTree, key: &[u8], val: &[u8]) {
    assert!(matches!(tree.set(key, val).unwrap(), SetStep::Done));
}

fn flush(tree: &mut LSMTree, disk: &mut HashMap<Vec<u8>, Vec<u8>>) -> Flush {
    let flush = tree.flush_memtable().unwrap();
    tree.complete_flush(flush.filename.clone());
    keep(disk, Flush {
        filename: flush.filename.clone(),
        sstable: flush.sstable.clone(),
        manifest: flush.manifest.clone(),
    });
    flush
}

fn tree_get(tree: &LSMTree, disk: &HashMap<Vec<u8>, Vec<u8>>, key: &[u8]) -> Option<Vec<u8>> {
    let mut step = tree.get(key);
    loop {
        match step {
            Lookup::Found(value) => return Some(value),
            Lookup::Missing => return None,
            Lookup::Read(sstable) => {
                let file = disk.get(tree.sstable_filename(sstable)).unwrap().clone();
                step = tree.get_from(key, sstable, file).unwrap();
            }
        }
    }
}

fn store_get(store: &RustyStore, disk: &HashMap<Vec<u8>, Vec<u8>>, key: &[u8]) -> Option<Vec<u8>> {
    let mut step = store.get(key);
    loop {
        match step {
            Lookup::Found(value) => return Some(value),
            Lookup::Missing => return None,
            Lookup::Read(sstable) => {
                let file = disk.get(store.sstable_filename(sstable)).unwrap().clone();
                step = store.get_from(key, sstable, file).unwrap();
            }
        }
    }
}

#[test]
fn keys_are_ordered_as_in_a_dictionary() {
    assert_eq!(rank(b"", b""), Rank::Same);
    assert_eq!(rank(b"", b"a"), Rank::Lower);
    assert_eq!(rank(b"a", b""), Rank::Higher);
    assert_eq!(rank(b"abc", b"abd"), Rank::Lower);
    assert_eq!(rank(b"abd", b"abc"), Rank::Higher);
    assert_eq!(rank(b"ab", b"abc"), Rank::Lower);
    assert_eq!(rank(b"b", b"abc"), Rank::Higher);
    assert_eq!(rank(b"abc", b"abc"), Rank::Same);
    assert_eq!(rank(&[0x7f], &[0x80]), Rank::Lower);
    assert_eq!(rank(&[0xff], &[0x00, 0x01]), Rank::Higher);
}

#[test]
fn a_table_is_data_then_index_then_footer() {
    let mut builder = SSTableFileBuilder::new();
    builder.add(b"a", b"b").unwrap();
    builder.add(b"cd", b"").unwrap();
    let file = builder.commit();
    let expected: Vec<u8> = vec![
        1, 0, 0, 0, b'a', 1, 0, 0, 0, b'b', // pair at 0
        2, 0, 0, 0, b'c', b'd', 0, 0, 0, 0, // pair at 10
        1, 0, 0, 0, b'a', 0, 0, 0, 0, // index line
        2, 0, 0, 0, b'c', b'd', 10, 0, 0, 0, // index line
        2, 0, 0, 0, 20, 0, 0, 0, // footer
    ];
    assert_eq!(file, expected);
}

#[test]
fn an_empty_table_is_a_footer() {
    let file = SSTableFileBuilder::new().commit();
    assert_eq!(file, vec![0, 0, 0, 0, 0, 0, 0, 0]);
    let reader = SSTableFileReader::open(file).unwrap();
    assert_eq!(reader.get(b"a").unwrap(), None);
    assert!(reader.iter().next().is_none());
}

#[test]
fn a_table_gives_each_value_and_nothing_for_other_keys() {
    let pairs: Vec<(Vec<u8>, Vec<u8>)> =
        (0..200u32).map(|i| (format!("key{:05}", i).into_bytes(), vec![i as u8; (i % 7) as usize])).collect();
    let mut builder = SSTableFileBuilder::new();
    for (k, v) in &pairs {
        builder.add(k, v).unwrap();
    }
    let reader = SSTableFileReader::open(builder.commit()).unwrap();
    for (k, v) in &pairs {
        assert_eq!(reader.get(k).unwrap().as_ref(), Some(v));
    }
    assert_eq!(reader.get(b"key").unwrap(), None);
    assert_eq!(reader.get(b"key00200").unwrap(), None);
    assert_eq!(reader.get(b"").unwrap(), None);
}

#[test]
fn a_later_pair_hides_an_earlier_one_with_its_key() {
    let mut builder = SSTableFileBuilder::new();
    builder.add(b"k", b"first").unwrap();
    builder.add(b"l", b"other").unwrap();
    builder.add(b"k", b"second").unwrap();
    let reader = SSTableFileReader::open(builder.commit()).unwrap();
    assert_eq!(reader.get(b"k").unwrap(), Some(b"second".to_vec()));
    let mut it = reader.iter();
    assert_eq!(it.next(), Some((b"k".to_vec(), b"first".to_vec())));
    assert_eq!(it.next(), Some((b"l".to_vec(), b"other".to_vec())));
    assert_eq!(it.next(), Some((b"k".to_vec(), b"second".to_vec())));
    assert_eq!(it.next(), None);
    assert_eq!(it.next(), None);
}

#[test]
fn a_table_that_is_cut_short_is_refused() {
    let mut builder = SSTableFileBuilder::new();
    builder.add(b"a", b"b").unwrap();
    let file = builder.commit();
    let short = SSTableFileReader::open(file[..7].to_vec());
    assert_eq!(short.err().map(|e| e.kind()), Some(std::io::ErrorKind::InvalidInput));
    // the footer of a longer table behind the start of this one
    let mut broken = file[..4].to_vec();
    broken.extend_from_slice(&[9, 0, 0, 0, 0, 0, 0, 0]);
    let cut = SSTableFileReader::open(broken);
    assert_eq!(cut.err().map(|e| e.kind()), Some(std::io::ErrorKind::UnexpectedEof));
}

#[test]
fn a_pair_outside_the_file_is_an_error() {
    // one index line for the key "a", which points behind the file
    let file: Vec<u8> = vec![1, 0, 0, 0, b'a', 200, 0, 0, 0, 1, 0, 0, 0, 0, 0, 0, 0];
    let reader = SSTableFileReader::open(file).unwrap();
    assert!(reader.get(b"a").is_err());
    assert_eq!(reader.get(b"b").unwrap(), None);
}

#[test]
fn a_merge_of_a_broken_table_adds_nothing() {
    let mut builder = SSTableFileBuilder::new();
    builder.add(b"a", b"b").unwrap();
    assert!(builder.merge_file(vec![1, 2, 3]).is_err());
    assert_eq!(builder.commit().len(), 10 + 9 + 8);
}

#[test]
fn the_table_in_memory_counts_what_is_put_in() {
    let mut table = MemTable::new();
    assert!(table.is_empty());
    assert_eq!(table.flush_size(), 0);
    table.insert(b"foo", b"bar");
    assert_eq!(table.flush_size(), 8 + 3 + 3);
    table.insert(b"a", b"");
    assert_eq!(table.flush_size(), 14 + 9);
    assert_eq!(table.len(), 2);
    assert_eq!(table.get_minkey(), b"a".to_vec());
    assert_eq!(table.get_maxkey(), b"foo".to_vec());
    assert_eq!(table.get(b"foo"), Some(b"bar".to_vec()));
    assert_eq!(table.get(b"fo"), None);
    // another value for a key takes the place of the old one
    table.insert(b"foo", b"longer");
    assert_eq!(table.len(), 2);
    assert_eq!(table.get(b"foo"), Some(b"longer".to_vec()));
    // the count is the size of the pairs that are there
    assert_eq!(table.flush_size(), 9 + 8 + 3 + 6);
    table.insert(b"foo", b"");
    assert_eq!(table.flush_size(), 9 + 8 + 3);
    table.insert(b"foo", b"longer");
    assert_eq!(table.flush_size(), 26);
    assert!(!table.need_flush(b"k", b"v"));
    assert!(table.need_flush(b"k", &vec![0u8; MEMTABLE_THRESHOLD]));
    table.reset();
    assert!(table.is_empty());
    assert_eq!(table.flush_size(), 0);
    assert_eq!(table.get(b"foo"), None);
}

#[test]
fn the_table_in_memory_is_written_in_the_order_of_its_keys() {
    let mut table = MemTable::new();
    for key in ["pear", "apple", "fig", "apricot", "zucchini", "banana"] {
        table.insert(key.as_bytes(), key.to_uppercase().as_bytes());
    }
    let mut builder = SSTableFileBuilder::new();
    table.write_entries_to_sstable(&mut builder).unwrap();
    let reader = SSTableFileReader::open(builder.commit()).unwrap();
    let mut it = reader.iter();
    for key in ["apple", "apricot", "banana", "fig", "pear", "zucchini"] {
        assert_eq!(it.next(), Some((key.as_bytes().to_vec(), key.to_uppercase().into_bytes())));
    }
    assert_eq!(it.next(), None);
}

#[test]
fn the_table_in_memory_is_flushed_before_it_passes_the_threshold() {
    // each pair takes 8 + 8 + 1008 = 1024 bytes
    let per_pair = 1024;
    let fill = MEMTABLE_THRESHOLD / per_pair;
    let mut tree = LSMTree::new(&[]);
    for i in 0..fill {
        let key = format!("{:08}", i).into_bytes();
        assert!(matches!(tree.set(&key, &vec![7u8; 1008]).unwrap(), SetStep::Done), "pair {}", i);
    }
    assert_eq!(tree.total_bytes_flushed(), 0);
    // exactly at the threshold: the next pair is the one that does not fit
    let flush = match tree.set(b"one more", &vec![7u8; 1008]).unwrap() {
        SetStep::Flush(flush) => flush,
        SetStep::Done => panic!("the pair went in without a flush"),
    };
    // nothing has changed yet
    assert_eq!(tree.total_bytes_flushed(), 0);
    assert_eq!(tree.num_sstables(), 0);
    assert!(matches!(tree.get(b"00000000"), Lookup::Found(_)));
    assert!(matches!(tree.get(b"one more"), Lookup::Missing));
    assert_eq!(flush.filename.len(), 40);
    assert!(flush.filename.ends_with(b".sst"));
    // data, index lines of 4 + 8 + 4 bytes, footer
    assert_eq!(flush.sstable.len(), MEMTABLE_THRESHOLD + fill * 16 + 8);
    let reader = SSTableFileReader::open(flush.sstable).unwrap();
    assert_eq!(reader.get(b"00000000").unwrap(), Some(vec![7u8; 1008]));
    assert_eq!(reader.get(b"one more").unwrap(), None);

    tree.complete_flush(flush.filename);
    assert_eq!(tree.total_bytes_flushed(), MEMTABLE_THRESHOLD);
    assert_eq!(tree.num_sstables(), 1);
    assert!(tree.memtable_is_empty());
    // now the pair goes in, and is alone in memory
    assert!(matches!(tree.set(b"one more", &vec![7u8; 1008]).unwrap(), SetStep::Done));
    assert!(matches!(tree.get(b"one more"), Lookup::Found(_)));
    assert!(matches!(tree.get(b"00000000"), Lookup::Read(0)));
    assert!(matches!(tree.get(b"zzz"), Lookup::Missing));
}

#[test]
fn a_pair_larger_than_the_threshold_goes_into_an_empty_table() {
    let mut tree = LSMTree::new(&[]);
    let big = vec![1u8; MEMTABLE_THRESHOLD + 1];
    assert!(matches!(tree.set(b"big", &big).unwrap(), SetStep::Done));
    // the next pair asks for a flush
    let flush = match tree.set(b"small", b"x").unwrap() {
        SetStep::Flush(flush) => flush,
        SetStep::Done => panic!("the pair went in without a flush"),
    };
    assert_eq!(flush.sstable.len(), (8 + 3 + big.len()) + (4 + 3 + 4) + 8);
    tree.complete_flush(flush.filename);
    assert_eq!(tree.total_bytes_flushed(), 8 + 3 + big.len());
}

#[test]
fn a_manifest_lists_the_tables() {
    let mut disk = HashMap::new();
    let mut tree = LSMTree::new(&[]);
    put(&mut tree, b"b", b"1");
    put(&mut tree, b"a", b"2");
    put(&mut tree, b"c", b"3");
    let first = tree.flush_memtable_with(b"t.sst".to_vec()).unwrap();
    let expected: Vec<u8> = vec![
        1, 0, 0, 0, // one table
        5, 0, 0, 0, b't', b'.', b's', b's', b't', // its file
        0, // its level
        1, 0, 0, 0, b'a', // its lowest key
        1, 0, 0, 0, b'c', // its highest key
    ];
    assert_eq!(first.filename, b"t.sst".to_vec());
    assert_eq!(first.manifest, expected);
    // the tree lists the table when the flush is completed
    assert_eq!(tree.flush_metadata(), vec![0, 0, 0, 0]);
    assert!(!tree.memtable_is_empty());
    tree.complete_flush(b"t.sst".to_vec());
    assert_eq!(tree.flush_metadata(), expected);
    assert!(tree.memtable_is_empty());
    assert_eq!(tree.total_bytes_flushed(), 3 * 10);

    put(&mut tree, b"x", b"4");
    let second = flush(&mut tree, &mut disk);
    assert_ne!(second.filename, first.filename);
    assert_eq!(second.manifest.len(), expected.len() + 4 + 40 + 1 + 5 + 5);
    assert_eq!(&second.manifest[0..4], &[2, 0, 0, 0]);

    // a tree that starts from the manifest knows both tables
    let again = LSMTree::new(&second.manifest);
    assert_eq!(again.num_sstables(), 2);
    assert_eq!(again.sstable_filename(0), &b"t.sst".to_vec());
    assert_eq!(again.sstable_filename(1), &second.filename);
    assert_eq!(again.flush_metadata(), second.manifest);
    assert!(matches!(again.get(b"b"), Lookup::Read(0)));
    assert!(matches!(again.get(b"x"), Lookup::Read(1)));
    assert!(matches!(again.get(b"d"), Lookup::Missing));
}

#[test]
fn a_manifest_that_is_cut_short_lists_no_table() {
    let mut tree = LSMTree::new(&[]);
    put(&mut tree, b"a", b"1");
    let flush = tree.flush_memtable().unwrap();
    for cut in 0..flush.manifest.len() {
        let tree = LSMTree::new(&flush.manifest[..cut]);
        assert_eq!(tree.num_sstables(), 0, "cut at {}", cut);
    }
    assert!(read_manifest(&flush.manifest[..flush.manifest.len() - 1]).is_err());
    assert_eq!(read_manifest(&flush.manifest).unwrap().len(), 1);
    assert_eq!(LSMTree::new(&flush.manifest).num_sstables(), 1);
}

#[test]
fn a_table_knows_its_range() {
    let meta = SSTableMeta::with_filename(b"f".to_vec(), b"bb", b"dd");
    assert!(meta.in_range(b"bb"));
    assert!(meta.in_range(b"c"));
    assert!(meta.in_range(b"dd"));
    assert!(!meta.in_range(b"b"));
    assert!(!meta.in_range(b"dda"));
    assert!(!meta.in_range(b""));
    assert_eq!(meta.filename(), &b"f".to_vec());
    let fresh = SSTableMeta::new(b"a", b"b");
    let name = String::from_utf8(fresh.filename().clone()).unwrap();
    assert_eq!(name.len(), 40);
    assert!(name.ends_with(".sst"));
    assert_eq!(name.matches('-').count(), 4);
    assert_ne!(fresh.filename(), SSTableMeta::new(b"a", b"b").filename());
    assert_eq!(sst_filename(b"0123"), b"0123.sst".to_vec());
    assert_eq!(sst_filename(b""), b".sst".to_vec());
    assert_eq!(write_manifest(&vec![meta]), vec![1, 0, 0, 0, 1, 0, 0, 0, b'f', 0, 2, 0, 0, 0, b'b', b'b', 2, 0, 0, 0, b'd', b'd']);
}

#[test]
fn the_tree_reads_memory_first_and_then_the_tables_in_their_order() {
    let mut disk = HashMap::new();
    let mut tree = LSMTree::new(&[]);
    put(&mut tree, b"foo", b"bar");
    put(&mut tree, b"zoo", b"kee");
    assert_eq!(tree_get(&tree, &disk, b"foo"), Some(b"bar".to_vec()));
    assert_eq!(tree_get(&tree, &disk, b"zoo"), Some(b"kee".to_vec()));
    assert_eq!(tree_get(&tree, &disk, b"absent"), None);

    flush(&mut tree, &mut disk);
    assert_eq!(tree_get(&tree, &disk, b"foo"), Some(b"bar".to_vec()));
    // inside the range of the table, but not in it
    assert_eq!(tree_get(&tree, &disk, b"goo"), None);
    // outside the range of every table: no file is read
    assert!(matches!(tree.get(b"absent"), Lookup::Missing));

    // a second table with the same key: the older table is read first
    put(&mut tree, b"foo", b"new");
    assert_eq!(tree_get(&tree, &disk, b"foo"), Some(b"new".to_vec()));
    flush(&mut tree, &mut disk);
    assert_eq!(tree_get(&tree, &disk, b"foo"), Some(b"bar".to_vec()));
}

#[test]
fn a_record_of_the_log_is_time_key_and_value() {
    let mut writer = WALWriter::new();
    writer.add((1, 2), b"k", b"vv").unwrap();
    let bytes = writer.flush();
    let expected: Vec<u8> =
        vec![1, 0, 0, 0, 0, 0, 0, 0, 2, 0, 0, 0, 1, 0, 0, 0, b'k', 2, 0, 0, 0, b'v', b'v'];
    assert_eq!(bytes, expected);
    assert!(writer.flush().is_empty());
    writer.add((3, 4), b"a", b"b").unwrap();
    writer.reset();
    assert!(writer.flush().is_empty());
}

#[test]
fn a_torn_record_ends_the_walk_without_an_error() {
    let mut writer = WALWriter::new();
    writer.add((u64::MAX, 999_999_999), b"first", b"1").unwrap();
    writer.add((0, 0), b"", b"").unwrap();
    writer.add((5, 6), b"third", b"333").unwrap();
    let log = writer.flush();
    let whole = 8 + 4 + 4 + 5 + 4 + 1 + 20;
    for cut in 0..log.len() {
        let mut reader = WALReader::new(log[..cut].to_vec());
        let mut seen = 0;
        while let Some(_) = reader.next() {
            seen += 1;
        }
        let expected = if cut < whole - 20 { 0 } else if cut < whole { 1 } else { 2 };
        assert_eq!(seen, expected, "cut at {}", cut);
        assert!(reader.read_entry().is_err());
    }
    let mut reader = WALReader::new(log);
    assert_eq!(reader.next(), Some(((u64::MAX, 999_999_999), b"first".to_vec(), b"1".to_vec())));
    assert_eq!(reader.next(), Some(((0, 0), Vec::new(), Vec::new())));
    assert_eq!(reader.next(), Some(((5, 6), b"third".to_vec(), b"333".to_vec())));
    assert_eq!(reader.next(), None);
}

#[test]
fn a_store_comes_back_from_its_log() {
    let mut disk: HashMap<Vec<u8>, Vec<u8>> = HashMap::new();
    let mut log: Vec<u8> = Vec::new();
    {
        let mut store = RustyStore::new(&[]);
        for (i, (key, val)) in [("foo", "bar"), ("zoo", "kee"), ("foo", "baz")].iter().enumerate() {
            // the record first
            let record = store.record((i as u64, 0), key.as_bytes(), val.as_bytes()).unwrap();
            log.extend(record);
            // then the pair
            assert!(matches!(store.set(key.as_bytes(), val.as_bytes()).unwrap(), SetStep::Done));
        }
        assert_eq!(store_get(&store, &disk, b"foo"), Some(b"baz".to_vec()));
        // the store is dropped here with its table in memory
    }
    assert!(disk.is_empty());

    let manifest = disk.get("rustydb.meta".as_bytes()).cloned().unwrap_or_default();
    let mut store = RustyStore::new(&manifest);
    let mut reader = WALReader::new(log);
    while let Some((_, key, val)) = reader.next() {
        assert!(matches!(store.set(&key, &val).unwrap(), SetStep::Done));
    }
    assert_eq!(store_get(&store, &disk, b"foo"), Some(b"baz".to_vec()));
    let flush = store.finish_recovery().unwrap().expect("a flush");
    store.complete_flush(flush.filename.clone());
    keep(&mut disk, flush);
    assert_eq!(disk.len(), 2);
    assert!(store.memtable_is_empty());
    assert_eq!(store.num_sstables(), 1);
    assert_eq!(store_get(&store, &disk, b"foo"), Some(b"baz".to_vec()));
    assert_eq!(store_get(&store, &disk, b"zoo"), Some(b"kee".to_vec()));
    assert_eq!(store_get(&store, &disk, b"absent"), None);
    // nothing is left to flush
    assert!(store.finish_recovery().unwrap().is_none());
}

#[test]
fn a_write_is_logged_before_it_is_put_in() {
    let mut store = RustyStore::new(&[]);
    let record = store.record((1, 2), b"k", b"vv").unwrap();
    let expected: Vec<u8> =
        vec![1, 0, 0, 0, 0, 0, 0, 0, 2, 0, 0, 0, 1, 0, 0, 0, b'k', 2, 0, 0, 0, b'v', b'v'];
    assert_eq!(record, expected);
    // the record alone changes nothing
    assert!(matches!(store.get(b"k"), Lookup::Missing));
    assert!(store.memtable_is_empty());
    assert!(matches!(store.set(b"k", b"vv").unwrap(), SetStep::Done));
    assert!(matches!(store.get(b"k"), Lookup::Found(_)));
}

#[test]
fn a_write_to_a_full_table_asks_for_a_flush_first() {
    let mut store = RustyStore::new(&[]);
    let big = vec![9u8; MEMTABLE_THRESHOLD];
    store.record((1, 0), b"big", &big).unwrap();
    assert!(matches!(store.set(b"big", &big).unwrap(), SetStep::Done));
    let record = store.record((2, 0), b"k", b"v").unwrap();
    assert_eq!(record.len(), 8 + 4 + 4 + 1 + 4 + 1);
    let flush = match store.set(b"k", b"v").unwrap() {
        SetStep::Flush(flush) => flush,
        SetStep::Done => panic!("the pair went in without a flush"),
    };
    assert!(flush.filename.ends_with(b".sst"));
    assert!(matches!(store.get(b"k"), Lookup::Missing));
    store.complete_flush(flush.filename);
    assert!(matches!(store.set(b"k", b"v").unwrap(), SetStep::Done));
    assert!(matches!(store.get(b"k"), Lookup::Found(_)));
    assert!(matches!(store.get(b"big"), Lookup::Read(0)));
}
