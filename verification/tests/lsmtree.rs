use rand::rngs::ThreadRng;
use rand::Rng;
use rustydb::storage::lsmtree::{Flush, LSMTree, Lookup, SetStep};
use std::collections::HashMap;

fn random_text(rng: &mut ThreadRng) -> String {
    let chars: [char; 32] = rng.gen();
    chars.iter().collect()
}

// Stands for the directory of the tree: file names and their bytes.
fn keep(disk: &mut HashMap<Vec<u8>, Vec<u8>>, flush: Flush) {
    disk.insert(flush.filename, flush.sstable);
    disk.insert("rustydb.meta".as_bytes().to_vec(), flush.manifest);
}

fn set(tree: &mut LSMTree, disk: &mut HashMap<Vec<u8>, Vec<u8>>, key: &str, val: &str) {
    loop {
        match tree.set(key.as_bytes(), val.as_bytes()).unwrap() {
            SetStep::Done => return,
            SetStep::Flush(flush) => {
                let name = flush.filename.clone();
                keep(disk, flush);
                tree.complete_flush(name);
            }
        }
    }
}

fn get(tree: &LSMTree, disk: &HashMap<Vec<u8>, Vec<u8>>, key: &str) -> Option<String> {
    let mut step = tree.get(key.as_bytes());
    loop {
        match step {
            Lookup::Found(value) => return Some(String::from_utf8(value).unwrap()),
            Lookup::Missing => return None,
            Lookup::Read(sstable) => {
                let file = disk.get(tree.sstable_filename(sstable)).unwrap().clone();
                step = tree.get_from(key.as_bytes(), sstable, file).unwrap();
            }
        }
    }
}

#[test]
fn lsmtree_single_entry() {
    let mut disk = HashMap::new();
    let mut newtree = LSMTree::new(&[]);

    set(&mut newtree, &mut disk, "foo", "bar");
    let val = get(&newtree, &disk, "foo");
    assert_eq!(val, Some(String::from("bar")));
}

#[test]
fn lsmtree_multiple_entries() {
    let mut disk = HashMap::new();
    let mut newtree = LSMTree::new(&[]);

    set(&mut newtree, &mut disk, "foo", "bar");
    set(&mut newtree, &mut disk, "zoohoo", "keefuu");
    set(&mut newtree, &mut disk, "meemu", "mauha");
    set(&mut newtree, &mut disk, "be", "p");

    assert_eq!(get(&newtree, &disk, "foo"), Some(String::from("bar")));
    assert_eq!(get(&newtree, &disk, "zoohoo"), Some(String::from("keefuu")));
    assert_eq!(get(&newtree, &disk, "meemu"), Some(String::from("mauha")));
    assert_eq!(get(&newtree, &disk, "be"), Some(String::from("p")));
}

#[test]
fn lsmtree_random_entries() {
    // number of pairs
    let num = 350;

    // value length (multiple of 32 bytes)
    let vallen = 100;

    let mut rng = rand::thread_rng();
    let mut disk = HashMap::new();
    let mut newtree = LSMTree::new(&[]);

    let mut rand_pairs: Vec<(String, String)> = Vec::new();
    for i in 0..num {
        println!("Inserting entry {}", i);
        let key = random_text(&mut rng);

        let mut val: String = "".to_owned();
        for _ in 0..vallen {
            let valstr = random_text(&mut rng);
            val.push_str(&valstr);
        }

        set(&mut newtree, &mut disk, &key, &val);
        rand_pairs.push((key, val));
    }

    // verify
    for (key, val) in rand_pairs {
        assert_eq!(get(&newtree, &disk, key.as_str()), Some(val));
    }
}
