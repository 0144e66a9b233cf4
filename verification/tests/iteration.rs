use patricia_trie::store::Store;
use patricia_trie::FatDB;
use patricia_trie::FatDBMut;
use patricia_trie::Trie;
use patricia_trie::TrieDB;
use patricia_trie::TrieDBMut;
use patricia_trie::TrieIterator;
use patricia_trie::TrieMut;

fn step<I: TrieIterator>(it: &mut I) -> Option<(Vec<u8>, Vec<u8>)> {
    it.next().map(|r| r.ok().expect("the store holds the whole trie"))
}

fn sample() -> (Store, [u8; 32]) {
    let mut trie = TrieDBMut::new(Store::new());
    for (k, v) in [
        (&b"horse"[..], &b"stallion"[..]),
        (b"A", b"a"),
        (b"doge", b"coin"),
        (b"AB", b"ab"),
        (b"do", b"verb"),
        (b"B", b"a value that is long enough for a node of its own, beyond any doubt"),
        (b"dog", b"puppy"),
        (b"AA", b"aa"),
    ] {
        trie.insert(k, v).unwrap();
    }
    trie.into_parts()
}

fn rest<I: TrieIterator>(it: &mut I) -> Vec<Vec<u8>> {
    let mut keys = Vec::new();
    while let Some((k, _)) = step(it) {
        keys.push(k);
    }
    keys
}

#[test]
fn iteration_is_in_the_order_of_the_keys() {
    let (db, root) = sample();
    let view = TrieDB::new(&db, &root).unwrap();
    let mut it = view.iter().unwrap();
    let keys = rest(&mut it);
    let expected: Vec<Vec<u8>> = vec![
        b"A".to_vec(),
        b"AA".to_vec(),
        b"AB".to_vec(),
        b"B".to_vec(),
        b"do".to_vec(),
        b"dog".to_vec(),
        b"doge".to_vec(),
        b"horse".to_vec(),
    ];
    assert_eq!(keys, expected);
    let mut sorted = keys.clone();
    sorted.sort();
    assert_eq!(keys, sorted);
}

#[test]
fn iteration_gives_the_values() {
    let (db, root) = sample();
    let view = TrieDB::new(&db, &root).unwrap();
    let mut it = view.iter().unwrap();
    assert_eq!(step(&mut it), Some((b"A".to_vec(), b"a".to_vec())));
    assert_eq!(step(&mut it), Some((b"AA".to_vec(), b"aa".to_vec())));
    assert_eq!(step(&mut it), Some((b"AB".to_vec(), b"ab".to_vec())));
}

#[test]
fn seek_sets_the_iterator_after_the_key() {
    let (db, root) = sample();
    let view = TrieDB::new(&db, &root).unwrap();
    let mut it = view.iter().unwrap();
    it.seek(b"AA").unwrap();
    assert_eq!(
        rest(&mut it),
        vec![
            b"AB".to_vec(),
            b"B".to_vec(),
            b"do".to_vec(),
            b"dog".to_vec(),
            b"doge".to_vec(),
            b"horse".to_vec()
        ]
    );
    it.seek(b"C").unwrap();
    assert_eq!(
        rest(&mut it),
        vec![b"do".to_vec(), b"dog".to_vec(), b"doge".to_vec(), b"horse".to_vec()]
    );
    it.seek(b"dogf").unwrap();
    assert_eq!(rest(&mut it), vec![b"horse".to_vec()]);
    it.seek(b"horse").unwrap();
    assert_eq!(rest(&mut it), Vec::<Vec<u8>>::new());
    it.seek(b"z").unwrap();
    assert_eq!(step(&mut it), None);
    it.seek(b"").unwrap();
    assert_eq!(rest(&mut it).len(), 8);
}

#[test]
fn iteration_goes_on_until_a_node_is_missing() {
    let mut trie = TrieDBMut::new(Store::new());
    for i in 0u8..8 {
        trie.insert(&[i * 0x20], &[i; 40]).unwrap();
    }
    let (mut db, root) = trie.into_parts();
    let view = TrieDB::new(&db, &root).unwrap();
    let mut recorder = patricia_trie::Recorder::new();
    view.get_with(&[0x60], &mut recorder).unwrap();
    let records = recorder.drain();
    assert_eq!(records.len(), 2);
    db.remove(&records[1].hash);
    let view = TrieDB::new(&db, &root).unwrap();
    let mut it = view.iter().unwrap();
    assert_eq!(step(&mut it), Some((vec![0x00], vec![0u8; 40])));
    assert_eq!(step(&mut it), Some((vec![0x20], vec![1u8; 40])));
    assert_eq!(step(&mut it), Some((vec![0x40], vec![2u8; 40])));
    assert!(matches!(it.next(), Some(Err(_))));
    assert!(it.next().is_none());
    it.seek(&[0x60]).unwrap();
    assert!(matches!(it.next(), Some(Err(_))));
    it.seek(&[0x70]).unwrap();
    assert_eq!(step(&mut it), Some((vec![0x80], vec![4u8; 40])));
    it.seek(&[0x5f]).unwrap();
    assert!(matches!(it.next(), Some(Err(_))));
    it.seek(&[0xe0]).unwrap();
    assert_eq!(step(&mut it), None);
    assert_eq!(step(&mut it), None);
    it.seek(&[0xdf, 0xff]).unwrap();
    assert_eq!(step(&mut it), Some((vec![0xe0], vec![7u8; 40])));
}

#[test]
fn iteration_over_an_empty_trie_gives_nothing() {
    let (db, root) = TrieDBMut::new(Store::new()).into_parts();
    let view = TrieDB::new(&db, &root).unwrap();
    assert!(view.is_empty());
    let mut it = view.iter().unwrap();
    assert_eq!(step(&mut it), None);
    it.seek(b"a").unwrap();
    assert_eq!(step(&mut it), None);
}

#[test]
fn fat_iteration_gives_every_key_as_given() {
    let mut trie = FatDBMut::new(Store::new());
    let mut given: Vec<(Vec<u8>, Vec<u8>)> = Vec::new();
    for i in 0u8..20 {
        let key = vec![b'k', i];
        let value = vec![i; 1 + usize::from(i) * 3];
        trie.insert(&key, &value).unwrap();
        given.push((key, value));
    }
    let (db, root) = trie.into_parts();
    let view = FatDB::new(&db, &root).unwrap();
    let mut it = view.iter().unwrap();
    let mut listed: Vec<(Vec<u8>, Vec<u8>)> = Vec::new();
    while let Some(entry) = step(&mut it) {
        listed.push(entry);
    }
    assert_eq!(listed.len(), 20);
    let by_hash: Vec<Vec<u8>> =
        listed.iter().map(|(k, _)| patricia_trie::hasher::hash_bytes(k).to_vec()).collect();
    let mut sorted = by_hash.clone();
    sorted.sort();
    assert_eq!(by_hash, sorted);
    listed.sort();
    given.sort();
    assert_eq!(listed, given);

    let mut again = view.iter().unwrap();
    again.seek(&[b'k', 7]).unwrap();
    let target = patricia_trie::hasher::hash_bytes(&[b'k', 7]).to_vec();
    let mut after = 0;
    while let Some((k, _)) = step(&mut again) {
        assert!(patricia_trie::hasher::hash_bytes(&k).to_vec() > target);
        after += 1;
    }
    assert_eq!(after, by_hash.iter().filter(|h| **h > target).count());
}
