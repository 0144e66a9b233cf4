use patricia_trie::codec::CodecError;
use patricia_trie::kinds::pair_up;
use patricia_trie::kinds::split_pair;
use patricia_trie::store::Store;
use patricia_trie::FatDB;
use patricia_trie::FatDBMut;
use patricia_trie::Recorder;
use patricia_trie::SecTrieDB;
use patricia_trie::Trie;
use patricia_trie::TrieDB;
use patricia_trie::TrieDBMut;
use patricia_trie::TrieError;
use patricia_trie::TrieFactory;
use patricia_trie::TrieIterator;
use patricia_trie::TrieKinds;
use patricia_trie::TrieKindsMut;
use patricia_trie::TrieMut;
use patricia_trie::TrieSpec;

fn step<I: TrieIterator>(it: &mut I) -> Option<(Vec<u8>, Vec<u8>)> {
    it.next().map(|r| r.ok().expect("the store holds the whole trie"))
}

fn deep_trie() -> (Store, [u8; 32]) {
    let mut trie = TrieDBMut::new(Store::new());
    for i in 0u8..40 {
        let key = vec![b'k', i / 8, i % 8];
        let value = vec![i; 40];
        trie.insert(&key, &value).unwrap();
    }
    trie.into_parts()
}

fn same_error(found: &TrieError<[u8; 32]>, expected: &TrieError<[u8; 32]>) -> bool {
    match (found, expected) {
        (TrieError::InvalidStateRoot(a), TrieError::InvalidStateRoot(b)) => a == b,
        (TrieError::IncompleteDatabase(a), TrieError::IncompleteDatabase(b)) => a == b,
        (TrieError::DecoderError(a, x), TrieError::DecoderError(b, y)) => a == b && x == y,
        _ => false,
    }
}

#[test]
fn unknown_root_is_an_invalid_state_root() {
    let db = Store::new();
    let root = [7u8; 32];
    let err = TrieDB::new(&db, &root).err().unwrap();
    assert!(same_error(&err, &TrieError::InvalidStateRoot(root)));
    assert!(SecTrieDB::new(&db, &root).is_err());
    assert!(FatDB::new(&db, &root).is_err());
    let rejected = TrieDBMut::from_existing(db, &root).err().unwrap();
    assert!(same_error(&rejected.error, &TrieError::InvalidStateRoot(root)));
    assert_eq!(rejected.error.description(), "Invalid state root");
    let db = rejected.db;
    assert!(!db.contains(&root));
}

#[test]
fn missing_node_is_an_incomplete_database() {
    let (mut db, root) = deep_trie();
    let view = TrieDB::new(&db, &root).unwrap();
    let mut recorder = Recorder::new();
    view.get_with(&[b'k', 2, 3], &mut recorder).unwrap();
    let records = recorder.drain();
    assert!(records.len() >= 2);
    let lost = records[1].hash;
    db.remove(&lost);
    let view = TrieDB::new(&db, &root).unwrap();
    let err = view.get(&[b'k', 2, 3]).err().unwrap();
    assert!(same_error(&err, &TrieError::IncompleteDatabase(lost)));
    assert_eq!(err.description(), "Incomplete database");
    assert!(view.contains(&[b'k', 2, 3]).is_err());
    let mut it = view.iter().unwrap();
    let err = loop {
        match it.next() {
            Some(Ok(_)) => {}
            Some(Err(e)) => break e,
            None => panic!("no error"),
        }
    };
    assert!(same_error(&err, &TrieError::IncompleteDatabase(lost)));
    assert!(it.next().is_none());

    let mut trie = TrieDBMut::from_existing(db, &root).ok().unwrap();
    let err = trie.get(&[b'k', 2, 3]).err().unwrap();
    assert!(same_error(&err, &TrieError::IncompleteDatabase(lost)));
    let err = trie.insert(&[b'k', 2, 3], b"new").err().unwrap();
    assert!(same_error(&err, &TrieError::IncompleteDatabase(lost)));
    let err = trie.remove(&[b'k', 2, 3]).err().unwrap();
    assert!(same_error(&err, &TrieError::IncompleteDatabase(lost)));
    assert_eq!(trie.root(), root);
}

#[test]
fn what_lies_off_the_way_is_not_fetched() {
    let (mut db, root) = deep_trie();
    let view = TrieDB::new(&db, &root).unwrap();
    let mut recorder = Recorder::new();
    view.get_with(&[b'k', 2, 3], &mut recorder).unwrap();
    let records = recorder.drain();
    let lost = records[records.len() - 1].hash;
    assert_ne!(lost, root);

    let mut whole = TrieDBMut::from_existing(deep_trie().0, &root).ok().unwrap();
    whole.insert(&[b'k', 4, 1], b"changed").unwrap();
    whole.remove(&[b'k', 0, 0]).unwrap();
    let expected = whole.root();

    db.remove(&lost);
    let mut trie = TrieDBMut::from_existing(db, &root).ok().unwrap();
    assert_eq!(trie.get(&[b'k', 4, 1]).unwrap(), Some(vec![33u8; 40]));
    assert_eq!(trie.insert(&[b'k', 4, 1], b"changed").unwrap(), Some(vec![33u8; 40]));
    assert_eq!(trie.remove(&[b'k', 0, 0]).unwrap(), Some(vec![0u8; 40]));
    assert_eq!(trie.get(&[b'k', 4, 1]).unwrap(), Some(b"changed".to_vec()));
    assert!(trie.get(&[b'k', 2, 3]).is_err());
    assert_eq!(trie.root(), expected);
    assert!(trie.get(&[b'k', 2, 3]).is_err());
    assert_eq!(trie.get(&[b'k', 4, 1]).unwrap(), Some(b"changed".to_vec()));
}

#[test]
fn failed_operation_rolls_back_to_the_last_commit() {
    let mut trie = TrieDBMut::new(Store::new());
    trie.insert(&[0x10], &[1u8; 40]).unwrap();
    trie.insert(&[0x20], &[2u8; 40]).unwrap();
    let (mut db, root) = trie.into_parts();
    let view = TrieDB::new(&db, &root).unwrap();
    let mut recorder = Recorder::new();
    view.get_with(&[0x20], &mut recorder).unwrap();
    let records = recorder.drain();
    assert_eq!(records.len(), 2);
    let sibling = records[1].hash;
    db.remove(&sibling);

    let mut trie = TrieDBMut::from_existing(db, &root).ok().unwrap();
    trie.insert(&[0x30], &[3u8; 40]).unwrap();
    assert_eq!(trie.get(&[0x30]).unwrap(), Some(vec![3u8; 40]));
    trie.remove(&[0x30]).unwrap();
    let err = trie.remove(&[0x10]).err().unwrap();
    assert!(same_error(&err, &TrieError::IncompleteDatabase(sibling)));
    assert_eq!(trie.get(&[0x10]).unwrap(), Some(vec![1u8; 40]));
    assert_eq!(trie.get(&[0x30]).unwrap(), None);
    assert!(!trie.is_empty());
    assert_eq!(trie.root(), root);
}

#[test]
fn bytes_that_are_no_node_are_a_decoder_error() {
    let mut db = Store::new();
    let root = db.insert(b"these bytes are no trie node");
    let view = TrieDB::new(&db, &root).unwrap();
    let err = view.get(b"dog").err().unwrap();
    assert!(same_error(&err, &TrieError::DecoderError(root, CodecError::Malformed)));
    assert_eq!(err.description(), "Malformed trie node");
    let mut it = view.iter().unwrap();
    match it.next() {
        Some(Err(e)) => {
            assert!(same_error(&e, &TrieError::DecoderError(root, CodecError::Malformed)))
        }
        _ => panic!("no error"),
    }
    assert!(it.next().is_none());
    let mut trie = TrieDBMut::from_existing(db, &root).ok().unwrap();
    let err = trie.get(b"dog").err().unwrap();
    assert!(same_error(&err, &TrieError::DecoderError(root, CodecError::Malformed)));
    let err = trie.insert(b"dog", b"puppy").err().unwrap();
    assert!(same_error(&err, &TrieError::DecoderError(root, CodecError::Malformed)));
    let err = trie.remove(b"dog").err().unwrap();
    assert!(same_error(&err, &TrieError::DecoderError(root, CodecError::Malformed)));
    assert!(!trie.is_empty());
    assert_eq!(trie.root(), root);
}

#[test]
fn whole_trie_is_checked() {
    let (db, root) = deep_trie();
    assert_eq!(TrieDB::new(&db, &root).unwrap().check().ok(), Some(true));
    let (db, root) = TrieDBMut::new(Store::new()).into_parts();
    assert_eq!(TrieDB::new(&db, &root).unwrap().check().ok(), Some(true));

    let mut db = Store::new();
    let mut payload = patricia_trie::rlp::encode_string(&[0x20]);
    payload.extend_from_slice(&patricia_trie::rlp::encode_string(b""));
    let leaf_without_value = patricia_trie::rlp::encode_list(&payload);
    let root = db.insert(&leaf_without_value);
    let view = TrieDB::new(&db, &root).unwrap();
    assert_eq!(view.get(b"").unwrap(), Some(vec![]));
    assert_eq!(view.check().ok(), Some(false));

    let (mut db, root) = deep_trie();
    let view = TrieDB::new(&db, &root).unwrap();
    let mut recorder = Recorder::new();
    view.get_with(&[b'k', 2, 3], &mut recorder).unwrap();
    let lost = recorder.drain()[1].hash;
    db.remove(&lost);
    let err = TrieDB::new(&db, &root).unwrap().check().err().unwrap();
    assert!(same_error(&err, &TrieError::IncompleteDatabase(lost)));
}

#[test]
fn existing_empty_trie_is_opened_for_writing() {
    let (db, root) = TrieDBMut::new(Store::new()).into_parts();
    let mut trie = TrieDBMut::from_existing(db, &root).ok().unwrap();
    assert!(trie.is_empty());
    assert_eq!(trie.get(b"dog").unwrap(), None);
    assert_eq!(trie.remove(b"dog").unwrap(), None);
    assert!(trie.is_empty());
    assert_eq!(trie.insert(b"dog", b"puppy").unwrap(), None);
    assert!(!trie.is_empty());
    assert_eq!(trie.remove(b"dog").unwrap(), Some(b"puppy".to_vec()));
    assert!(trie.is_empty());
    assert_eq!(trie.root(), root);
    assert!(trie.is_empty());
}

#[test]
fn existing_trie_is_opened_for_writing() {
    let (db, root) = deep_trie();
    let mut trie = TrieDBMut::from_existing(db, &root).ok().unwrap();
    assert_eq!(trie.get(&[b'k', 4, 7]).unwrap(), Some(vec![39u8; 40]));
    assert_eq!(trie.root(), root);
    trie.insert(&[b'k', 9, 9], b"new").unwrap();
    let changed = trie.root();
    assert_ne!(changed, root);
    trie.remove(&[b'k', 9, 9]).unwrap();
    assert_eq!(trie.root(), root);
    let (db, again) = trie.into_parts();
    assert_eq!(again, root);
    let view = TrieDB::new(&db, &root).unwrap();
    let mut it = view.iter().unwrap();
    let mut n = 0;
    while let Some((k, v)) = step(&mut it) {
        assert_eq!(k.len(), 3);
        assert_eq!(v.len(), 40);
        n += 1;
    }
    assert_eq!(n, 40);
    let mut recorder = Recorder::new();
    view.get_with(&[b'k', 2, 3], &mut recorder).unwrap();
    assert!(recorder.len() >= 2);
}

#[test]
fn stale_nodes_are_released_on_commit() {
    let mut trie = TrieDBMut::new(Store::new());
    trie.insert(b"dog", &[1u8; 40]).unwrap();
    trie.insert(b"cat", &[2u8; 40]).unwrap();
    let first = trie.root();
    trie.insert(b"dog", &[3u8; 40]).unwrap();
    let second = trie.root();
    assert_ne!(first, second);
    let (db, root) = trie.into_parts();
    assert_eq!(root, second);
    assert!(db.contains(&second));
    assert!(!db.contains(&first));
    assert!(TrieDB::new(&db, &first).is_err());
}

#[test]
fn fat_pairs() {
    let pair = pair_up(b"key", b"val");
    assert_eq!(pair, vec![0xc8, 0x83, b'k', b'e', b'y', 0x83, b'v', b'a', b'l']);
    assert_eq!(split_pair(&pair), Some((b"key".to_vec(), b"val".to_vec())));
    assert_eq!(split_pair(&pair_up(b"", b"")), Some((vec![], vec![])));
    assert_eq!(split_pair(b"val"), None);
    assert_eq!(split_pair(&[0xc1, 0x80]), None);
    assert_eq!(split_pair(&[0xc2, 0x80, 0xc0]), None);
    assert_eq!(split_pair(&[0xc3, 0x80, 0x80, 0x80]), None);
}

#[test]
fn fat_trie_over_plain_values_cannot_show_them() {
    let mut plain = patricia_trie::SecTrieDBMut::new(Store::new());
    plain.insert(b"key", b"val").unwrap();
    let (db, root) = plain.into_parts();
    let view = FatDB::new(&db, &root).unwrap();
    let err = view.get(b"key").err().unwrap();
    assert!(same_error(&err, &TrieError::DecoderError(root, CodecError::Malformed)));
    assert_eq!(view.get(b"other").unwrap(), None);
    let mut it = view.iter().unwrap();
    match it.next() {
        Some(Err(e)) => {
            assert!(same_error(&e, &TrieError::DecoderError(root, CodecError::Malformed)))
        }
        _ => panic!("no error"),
    }
    assert!(it.next().is_none());
    let mut fat = FatDBMut::from_existing(db, &root).ok().unwrap();
    assert!(fat.get(b"key").is_err());
    assert!(fat.insert(b"key", b"new").is_err());
    assert!(fat.remove(b"key").is_err());
    assert_eq!(fat.root(), root);
    assert_eq!(fat.insert(b"other", b"new").unwrap(), None);
    assert_eq!(fat.get(b"other").unwrap(), Some(b"new".to_vec()));
}

#[test]
fn factory_makes_the_kind_asked_for() {
    assert!(!TrieFactory::new(TrieSpec::Generic).is_fat());
    assert!(!TrieFactory::new(TrieSpec::Secure).is_fat());
    assert!(TrieFactory::new(TrieSpec::Fat).is_fat());
    assert_eq!(TrieSpec::default(), TrieSpec::Secure);
    assert!(!TrieFactory::default().is_fat());

    let mut roots = Vec::new();
    for spec in [TrieSpec::Generic, TrieSpec::Secure, TrieSpec::Fat] {
        let factory = TrieFactory::new(spec);
        let mut trie = factory.create(Store::new());
        match (&trie, spec) {
            (TrieKindsMut::Generic(_), TrieSpec::Generic) => {}
            (TrieKindsMut::Secure(_), TrieSpec::Secure) => {}
            (TrieKindsMut::Fat(_), TrieSpec::Fat) => {}
            _ => panic!("wrong kind"),
        }
        assert!(trie.is_empty());
        assert_eq!(trie.insert(b"dog", b"puppy").unwrap(), None);
        assert_eq!(trie.insert(b"doge", b"coin").unwrap(), None);
        assert_eq!(trie.get(b"dog").unwrap(), Some(b"puppy".to_vec()));
        assert!(trie.contains(b"doge").unwrap());
        assert_eq!(trie.remove(b"doge").unwrap(), Some(b"coin".to_vec()));
        let root = trie.root();
        roots.push(root);
        let (db, root) = match trie {
            TrieKindsMut::Generic(t) => t.into_parts(),
            TrieKindsMut::Secure(t) => t.into_parts(),
            TrieKindsMut::Fat(t) => t.into_parts(),
        };
        let view = factory.readonly(&db, &root).unwrap();
        match (&view, spec) {
            (TrieKinds::Generic(_), TrieSpec::Generic) => {}
            (TrieKinds::Secure(_), TrieSpec::Secure) => {}
            (TrieKinds::Fat(_), TrieSpec::Fat) => {}
            _ => panic!("wrong kind"),
        }
        assert_eq!(view.root(), &root);
        assert!(!view.is_empty());
        assert_eq!(view.get(b"dog").unwrap(), Some(b"puppy".to_vec()));
        assert_eq!(view.get(b"doge").unwrap(), None);
        assert!(view.contains(b"dog").unwrap());
        let mut it = view.iter().unwrap();
        let (key, value) = step(&mut it).unwrap();
        assert_eq!(step(&mut it), None);
        match spec {
            TrieSpec::Generic | TrieSpec::Fat => assert_eq!(key, b"dog".to_vec()),
            TrieSpec::Secure => {
                assert_eq!(key, patricia_trie::hasher::hash_bytes(b"dog").to_vec())
            }
        }
        if spec != TrieSpec::Fat {
            assert_eq!(value, b"puppy".to_vec());
        }
        assert!(factory.readonly(&db, &[1u8; 32]).is_err());
        let mut again = factory.from_existing(db, &root).ok().unwrap();
        assert_eq!(again.get(b"dog").unwrap(), Some(b"puppy".to_vec()));
        assert_eq!(again.root(), root);
        assert!(factory.from_existing(Store::new(), &[1u8; 32]).is_err());
    }
    assert_ne!(roots[0], roots[1]);
    assert_ne!(roots[1], roots[2]);
}
