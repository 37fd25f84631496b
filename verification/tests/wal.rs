use rand::rngs::ThreadRng;
use rand::Rng;
use rustydb::storage::wal::{WALReader, WALWriter};
use std::time::{Duration, SystemTime};

fn random_text(rng: &mut ThreadRng) -> String {
    let chars: [char; 32] = rng.gen();
    chars.iter().collect()
}

fn stamp(ts: &Duration) -> (u64, u32) {
    (ts.as_secs(), ts.subsec_nanos())
}

fn walk(log: Vec<u8>) -> Vec<(Duration, String, String)> {
    let mut reader = WALReader::new(log);
    let mut out = Vec::new();
    while let Some(((secs, nanos), key, val)) = reader.next() {
        out.push((Duration::new(secs, nanos), String::from_utf8(key).unwrap(), String::from_utf8(val).unwrap()));
    }
    out
}

#[test]
fn wal_single_entry() {
    let mut wal_writer = WALWriter::new();

    let ts = SystemTime::now().duration_since(SystemTime::UNIX_EPOCH).unwrap();
    wal_writer.add(stamp(&ts), "foo".as_bytes(), "bar".as_bytes()).unwrap();

    let mut wal_reader = WALReader::new(wal_writer.flush());
    let ((secs, nanos), key, val) = wal_reader.read_entry().unwrap();
    let entry = (Duration::new(secs, nanos), String::from_utf8(key).unwrap(), String::from_utf8(val).unwrap());
    assert_eq!(entry, (ts, String::from("foo"), String::from("bar")));
}

#[test]
fn wal_multiple_entries() {
    let mut wal_writer = WALWriter::new();
    let mut log: Vec<u8> = Vec::new();

    let mut timestamps: Vec<Duration> = Vec::new();
    let pairs = vec![("foo", "bar"), ("zoohoo", "keefuu"), ("meemu", "mauha"), ("be", "p")];

    for (key, val) in &pairs {
        let ts = SystemTime::now().duration_since(SystemTime::UNIX_EPOCH).unwrap();
        timestamps.push(ts);
        wal_writer.add(stamp(&ts), key.as_bytes(), val.as_bytes()).unwrap();
        log.extend(wal_writer.flush());
    }

    let entries = walk(log);
    assert_eq!(entries.len(), pairs.len());
    for (entry, (timestamp, pair)) in entries.into_iter().zip(timestamps.iter().zip(pairs.iter())) {
        let (ts, key, val) = entry;
        assert_eq!((ts, (key.as_str(), val.as_str())), (*timestamp, *pair));
    }
}

#[test]
fn wal_random_entries() {
    let num = 100;
    let mut rng = rand::thread_rng();
    let mut wal_writer = WALWriter::new();
    let mut log: Vec<u8> = Vec::new();

    let mut timestamps: Vec<Duration> = Vec::new();
    let mut rand_pairs: Vec<(String, String)> = Vec::new();
    for _ in 0..num {
        let ts = SystemTime::now().duration_since(SystemTime::UNIX_EPOCH).unwrap();
        let key = random_text(&mut rng);
        let val = random_text(&mut rng);

        wal_writer.add(stamp(&ts), key.as_bytes(), val.as_bytes()).unwrap();
        log.extend(wal_writer.flush());
        timestamps.push(ts);
        rand_pairs.push((key, val));
    }

    // verify
    let entries = walk(log);
    assert_eq!(entries.len(), rand_pairs.len());
    for (entry, (timestamp, pair)) in entries.into_iter().zip(timestamps.iter().zip(rand_pairs.iter())) {
        let (ts, key, val) = entry;
        let (pkey, pval) = pair;
        assert_eq!((ts, key.as_str(), val.as_str()), (*timestamp, pkey.as_str(), pval.as_str()));
    }
}
