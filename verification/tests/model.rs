use std::collections::BTreeMap;

use patricia_trie::store::Store;
use patricia_trie::Recorder;
use patricia_trie::Trie;
use patricia_trie::TrieDB;
use patricia_trie::TrieDBMut;
use patricia_trie::TrieIterator;
use patricia_trie::TrieMut;

fn step<I: TrieIterator>(it: &mut I) -> Option<(Vec<u8>, Vec<u8>)> {
    it.next().map(|r| r.ok().expect("the store holds the whole trie"))
}

struct Lcg(u64);

impl Lcg {
    fn next(&mut self) -> u64 {
        self.0 = self.0.wrapping_mul(6364136223846793005).wrapping_add(1442695040888963407);
        self.0 >> 33
    }

    fn key(&mut self) -> Vec<u8> {
        let len = (self.next() % 4) as usize;
        let mut key = Vec::new();
        for _ in 0..len {
            key.push((self.next() % 4) as u8 * 0x11 + (self.next() % 3) as u8);
        }
        key
    }

    fn value(&mut self) -> Vec<u8> {
        let len = 1 + (self.next() % 48) as usize;
        let byte = (self.next() % 256) as u8;
        vec![byte; len]
    }
}

fn listing(db: &Store, root: &[u8; 32]) -> Vec<(Vec<u8>, Vec<u8>)> {
    let view = TrieDB::new(db, root).unwrap();
    let mut it = view.iter().unwrap();
    let mut all = Vec::new();
    while let Some(entry) = step(&mut it) {
        all.push(entry);
    }
    all
}

#[test]
fn random_operations_agree_with_a_map() {
    let mut rng = Lcg(42);
    let mut model: BTreeMap<Vec<u8>, Vec<u8>> = BTreeMap::new();
    let mut trie = TrieDBMut::new(Store::new());
    for step in 0..600 {
        let key = rng.key();
        if rng.next() % 3 == 0 {
            let old = trie.remove(&key).unwrap();
            assert_eq!(old, model.remove(&key));
        } else {
            let value = rng.value();
            let old = trie.insert(&key, &value).unwrap();
            assert_eq!(old, model.insert(key.clone(), value));
        }
        assert_eq!(trie.is_empty(), model.is_empty());
        let probe = rng.key();
        assert_eq!(trie.get(&probe).unwrap(), model.get(&probe).cloned());
        assert_eq!(trie.contains(&probe).unwrap(), model.contains_key(&probe));
        if step % 50 == 49 {
            let root = trie.root();
            let (db, same) = trie.into_parts();
            assert_eq!(root, same);
            let expected: Vec<(Vec<u8>, Vec<u8>)> =
                model.iter().map(|(k, v)| (k.clone(), v.clone())).collect();
            assert_eq!(listing(&db, &root), expected);
            let view = TrieDB::new(&db, &root).unwrap();
            for (k, v) in model.iter() {
                assert_eq!(view.get(k).unwrap().as_ref(), Some(v));
            }
            let mut fresh = TrieDBMut::new(Store::new());
            for (k, v) in model.iter().rev() {
                fresh.insert(k, v).unwrap();
            }
            assert_eq!(fresh.root(), root);
            trie = TrieDBMut::from_existing(db, &root).ok().unwrap();
            assert_eq!(trie.root(), root);
        }
    }
}

#[test]
fn seek_agrees_with_a_map() {
    let mut rng = Lcg(7);
    let mut model: BTreeMap<Vec<u8>, Vec<u8>> = BTreeMap::new();
    let mut trie = TrieDBMut::new(Store::new());
    for _ in 0..200 {
        let key = rng.key();
        let value = rng.value();
        trie.insert(&key, &value).unwrap();
        model.insert(key, value);
    }
    let (db, root) = trie.into_parts();
    let view = TrieDB::new(&db, &root).unwrap();
    let mut it = view.iter().unwrap();
    for _ in 0..100 {
        let key = rng.key();
        it.seek(&key).unwrap();
        let mut found = Vec::new();
        while let Some((k, _)) = step(&mut it) {
            found.push(k);
        }
        let expected: Vec<Vec<u8>> =
            model.keys().filter(|k| k.as_slice() > key.as_slice()).cloned().collect();
        assert_eq!(found, expected);
    }
}

#[test]
fn every_recorded_proof_replays() {
    let mut rng = Lcg(99);
    let mut model: BTreeMap<Vec<u8>, Vec<u8>> = BTreeMap::new();
    let mut trie = TrieDBMut::new(Store::new());
    for _ in 0..150 {
        let key = rng.key();
        let value = rng.value();
        trie.insert(&key, &value).unwrap();
        model.insert(key, value);
    }
    let (db, root) = trie.into_parts();
    let view = TrieDB::new(&db, &root).unwrap();
    for _ in 0..100 {
        let key = rng.key();
        let mut recorder = Recorder::new();
        let found = view.get_with(&key, &mut recorder).unwrap();
        assert_eq!(found, model.get(&key).cloned());
        let mut proof = Store::new();
        for record in recorder.drain() {
            assert_eq!(proof.insert(&record.data), record.hash);
        }
        let replay = TrieDB::new(&proof, &root).unwrap();
        assert_eq!(replay.get(&key).unwrap(), found);
    }
}
