use rand::rngs::ThreadRng;
use rand::Rng;
use rustydb::storage::sstable::{SSTableFileBuilder, SSTableFileReader};

fn random_text(rng: &mut ThreadRng) -> String {
    let chars: [char; 32] = rng.gen();
    chars.iter().collect()
}

fn walk(reader: &SSTableFileReader) -> Vec<(Vec<u8>, Vec<u8>)> {
    let mut it = reader.iter();
    let mut out = Vec::new();
    while let Some(entry) = it.next() {
        out.push(entry);
    }
    out
}

#[test]
fn sstable_single_entry() {
    let mut writer = SSTableFileBuilder::new();

    writer.add("foo".as_bytes(), "bar".as_bytes()).unwrap();
    let file = writer.commit();

    let reader = SSTableFileReader::open(file).unwrap();
    assert_eq!(reader.get("foo".as_bytes()).unwrap(), Some("bar".as_bytes().to_vec()));
}

#[test]
fn sstable_multiple_entries() {
    let mut writer = SSTableFileBuilder::new();

    writer.add("foo".as_bytes(), "bar".as_bytes()).unwrap();
    writer.add("zoohoo".as_bytes(), "keefuu".as_bytes()).unwrap();
    writer.add("meemu".as_bytes(), "mauha".as_bytes()).unwrap();
    writer.add("be".as_bytes(), "p".as_bytes()).unwrap();
    let file = writer.commit();

    let reader = SSTableFileReader::open(file).unwrap();
    assert_eq!(reader.get("foo".as_bytes()).unwrap(), Some("bar".as_bytes().to_vec()));
    assert_eq!(reader.get("zoohoo".as_bytes()).unwrap(), Some("keefuu".as_bytes().to_vec()));
    assert_eq!(reader.get("meemu".as_bytes()).unwrap(), Some("mauha".as_bytes().to_vec()));
    assert_eq!(reader.get("be".as_bytes()).unwrap(), Some("p".as_bytes().to_vec()));
}

#[test]
fn sstable_random_entries() {
    let num = 100;
    let mut rng = rand::thread_rng();
    let mut writer = SSTableFileBuilder::new();

    // generate random keys and values
    let mut keys: Vec<String> = Vec::new();
    let mut vals: Vec<String> = Vec::new();

    writer.add("foo".as_bytes(), "bar".as_bytes()).unwrap();
    writer.add("zoohoo".as_bytes(), "keefuu".as_bytes()).unwrap();
    writer.add("meemu".as_bytes(), "mauha".as_bytes()).unwrap();
    writer.add("be".as_bytes(), "p".as_bytes()).unwrap();
    for _ in 0..num {
        let key = random_text(&mut rng);
        keys.push(key.clone());

        let val = random_text(&mut rng);
        vals.push(val.clone());
        writer.add(key.as_bytes(), val.as_bytes()).unwrap();
    }
    let file = writer.commit();

    // verify
    let reader = SSTableFileReader::open(file).unwrap();
    for i in 0..num {
        assert_eq!(reader.get(keys[i].as_bytes()).unwrap(), Some(vals[i].as_bytes().to_vec()));
    }
}

#[test]
fn sstable_simple_iter() {
    let mut writer = SSTableFileBuilder::new();

    // list of pairs for testing
    let pairs = vec![("foo", "bar"), ("zoohoo", "keefuu"), ("meemu", "mauha"), ("be", "p")];

    for (key, val) in &pairs {
        writer.add(key.as_bytes(), val.as_bytes()).unwrap();
    }
    let file = writer.commit();

    // verify
    let reader = SSTableFileReader::open(file).unwrap();
    let entries = walk(&reader);
    assert_eq!(entries.len(), pairs.len());
    for (entry, record) in entries.iter().zip(pairs.iter()) {
        let (key, val) = entry;
        assert_eq!((key.as_slice(), val.as_slice()), (record.0.as_bytes(), record.1.as_bytes()));
    }
}

#[test]
fn sstable_random_iter() {
    let num = 100;
    let mut rng = rand::thread_rng();
    let mut writer = SSTableFileBuilder::new();

    // generate random keys and values
    let mut rand_pairs: Vec<(String, String)> = Vec::new();
    for _ in 0..num {
        let key = random_text(&mut rng);
        let val = random_text(&mut rng);

        writer.add(key.as_bytes(), val.as_bytes()).unwrap();
        rand_pairs.push((key, val));
    }
    let file = writer.commit();

    // verify
    let reader = SSTableFileReader::open(file).unwrap();
    let entries = walk(&reader);
    assert_eq!(entries.len(), rand_pairs.len());
    for (entry, record) in entries.iter().zip(rand_pairs.iter()) {
        assert_eq!((entry.0.as_slice(), entry.1.as_slice()), (record.0.as_bytes(), record.1.as_bytes()));
    }
}

#[test]
fn sstable_chain_two() {
    // first SSTable file
    let mut sst1 = SSTableFileBuilder::new();

    // second SSTable file
    let mut sst2 = SSTableFileBuilder::new();

    // list of pairs for testing
    let pairs = vec![("foo", "bar"), ("zoohoo", "keefuu"), ("meemu", "mauha"), ("be", "p")];

    // sstable 1 takes the first 2
    for entry in pairs.iter().take(2) {
        let (key, val) = *entry;
        sst1.add(key.as_bytes(), val.as_bytes()).unwrap();
    }
    let file1 = sst1.commit();

    // sstable 2 takes the rest
    for entry in pairs.iter().skip(2) {
        let (key, val) = *entry;
        sst2.add(key.as_bytes(), val.as_bytes()).unwrap();
    }
    let file2 = sst2.commit();

    // merge sst1 and sst2 to a compacted new sst
    let mut newsst = SSTableFileBuilder::new();

    newsst.merge_file(file1).unwrap();
    newsst.merge_file(file2).unwrap();
    let merged = newsst.commit();

    // verify the new sstable file is correct
    let reader = SSTableFileReader::open(merged).unwrap();
    let entries = walk(&reader);
    assert_eq!(entries.len(), pairs.len());
    for (entry, record) in entries.iter().zip(pairs.iter()) {
        let (key, val) = entry;
        assert_eq!((key.as_slice(), val.as_slice()), (record.0.as_bytes(), record.1.as_bytes()));
    }
}

#[test]
fn sstable_chain_random() {
    let num_pairs: i32 = 100;
    let num_ssts: i32 = 10;

    // how much pairs a single sstable should take
    let chunk_size = num_pairs / num_ssts;
    let mut rng = rand::thread_rng();

    // generate random keys and values
    let mut rand_pairs: Vec<(String, String)> = Vec::new();
    for _ in 0..num_pairs {
        let key = random_text(&mut rng);
        let val = random_text(&mut rng);
        rand_pairs.push((key, val));
    }

    // the final sstable file
    let mut newsst = SSTableFileBuilder::new();

    // make "num_ssts" sstable files, filled with chunks of data, then
    // merge into the final sstable file
    for chunk in rand_pairs.chunks(chunk_size as usize) {
        let mut sst = SSTableFileBuilder::new();

        // add these specific chunk of data to new sstable, then commit
        for entry in chunk {
            let (key, val) = &*entry;
            sst.add(key.as_bytes(), val.as_bytes()).unwrap();
        }
        let file = sst.commit();

        // merge the new sstable
        newsst.merge_file(file).unwrap();
    }
    let merged = newsst.commit();

    // verify
    let reader = SSTableFileReader::open(merged).unwrap();
    let entries = walk(&reader);
    assert_eq!(entries.len(), rand_pairs.len());
    for (entry, record) in entries.iter().zip(rand_pairs.iter()) {
        assert_eq!((entry.0.as_slice(), entry.1.as_slice()), (record.0.as_bytes(), record.1.as_bytes()));
    }
}
