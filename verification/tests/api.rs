use chrono::NaiveDate;
use rustydb::gorilla::api::{compress_values, retrieve_values};
use rustydb::gorilla::{GorillaDateTime, MVEntry};
use std::collections::HashMap;

fn dt(y: i32, m: u32, d: u32, h: u32, min: u32, s: u32) -> GorillaDateTime {
    NaiveDate::from_ymd_opt(y, m, d).unwrap().and_hms_opt(h, min, s).unwrap().and_utc().timestamp()
}

fn bits(v: &[f64]) -> Vec<u64> {
    v.iter().map(|x| x.to_bits()).collect()
}

fn floats(v: &[u64]) -> Vec<f64> {
    v.iter().map(|x| f64::from_bits(*x)).collect()
}

fn is_all_same(v1: &Vec<f64>, v2: &Vec<f64>) -> bool {
    if v1.len() != v2.len() {
        return false;
    }
    for i in 0..v1.len() {
        if v1[i] != v2[i] {
            return false;
        }
    }
    true
}

#[test]
fn simple_compress_get() {
    let mut vec: Vec<MVEntry> = Vec::new();
    let vec1 = vec![1.0, 2.0, 3.0, 4.0, 5.0];
    vec.push(MVEntry::new(dt(1970, 1, 1, 0, 24, 0), bits(&vec1)));
    let vec2 = vec![13.0, 12.0, 35.0, 47.0, 35.0];
    vec.push(MVEntry::new(dt(1970, 1, 1, 0, 52, 0), bits(&vec2)));
    let block = compress_values(vec, dt(1970, 1, 1, 0, 0, 0), 5).unwrap();
    let read_entry = retrieve_values(block, 5, 2).unwrap();
    assert!(is_all_same(&vec1, &floats(&read_entry[0].values)));
    assert!(is_all_same(&vec2, &floats(&read_entry[1].values)));
    assert_eq!(read_entry[0].time, dt(1970, 1, 1, 0, 24, 0));
    assert_eq!(read_entry[1].time, dt(1970, 1, 1, 0, 52, 0));
}

#[test]
fn complex_compress_get() {
    let mut vec: Vec<MVEntry> = Vec::new();
    let mut hash: HashMap<Vec<u8>, usize> = std::collections::HashMap::new();
    let vec1 = vec![1.0, 2.0, 3.0, 4.0, 5.0, 6.0, 7.0, 8.0, 9.0, 10.0];
    vec.push(MVEntry::new(dt(1970, 1, 1, 0, 24, 0), bits(&vec1)));
    let vec2 = vec![13.0, 12.0, 35.0, 47.0, 35.0, 42.6, 12.6, 42.3, 86.5, 14.2];
    vec.push(MVEntry::new(dt(1970, 1, 1, 0, 52, 0), bits(&vec2)));
    let vec3 = vec![132.0, 121.0, 335.0, 347.0, 375.0, 424.6, 172.6, 412.3, 836.5, 184.2];
    vec.push(MVEntry::new(dt(1970, 1, 1, 1, 15, 0), bits(&vec3)));
    let block = compress_values(vec, dt(1970, 1, 1, 0, 0, 0), 10).unwrap();
    let ser_block = bincode::serialize(&block.to_string()).unwrap();
    hash.insert(ser_block.clone(), 3);
    let read_entry = retrieve_values(block, 10, *hash.get(&ser_block).unwrap()).unwrap();
    assert!(is_all_same(&vec1, &floats(&read_entry[0].values)));
    assert!(is_all_same(&vec2, &floats(&read_entry[1].values)));
    assert!(is_all_same(&vec3, &floats(&read_entry[2].values)));
}
