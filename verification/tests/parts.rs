use patricia_trie::nibble::common_prefix_len;
use patricia_trie::nibble::from_nibbles;
use patricia_trie::nibble::hex_prefix_decode;
use patricia_trie::nibble::hex_prefix_encode;
use patricia_trie::nibble::pack;
use patricia_trie::nibble::to_nibbles;
use patricia_trie::recorder::Decoder;
use patricia_trie::recorder::RawValue;
use patricia_trie::recorder::Recording;
use patricia_trie::store::hashed_null_node;
use patricia_trie::store::Store;
use patricia_trie::order::less_than;
use patricia_trie::Query;
use patricia_trie::Recorder;
use patricia_trie::Trie;
use patricia_trie::TrieDB;
use patricia_trie::TrieDBMut;
use patricia_trie::TrieMut;

#[test]
fn nibbles_of_bytes() {
    assert_eq!(to_nibbles(b""), Vec::<u8>::new());
    assert_eq!(to_nibbles(&[0x12, 0xab, 0xf0]), vec![1, 2, 0xa, 0xb, 0xf, 0]);
    assert_eq!(to_nibbles(b"dog"), vec![6, 4, 6, 0xf, 6, 7]);
}

#[test]
fn bytes_of_nibbles() {
    assert_eq!(from_nibbles(&[]), Some(vec![]));
    assert_eq!(from_nibbles(&[1, 2, 0xa, 0xb, 0xf, 0]), Some(vec![0x12, 0xab, 0xf0]));
    assert_eq!(from_nibbles(&[1, 2, 3]), None);
    assert_eq!(from_nibbles(&[1, 16]), None);
    assert_eq!(from_nibbles(&[0x20, 1]), None);
    assert_eq!(pack(&[1, 2, 3]), vec![0x12]);
    assert_eq!(pack(&[6, 4, 6, 0xf]), b"do".to_vec());
    for key in [&b""[..], b"a", b"horse", &[0u8, 255, 16, 1]] {
        assert_eq!(from_nibbles(&to_nibbles(key)), Some(key.to_vec()));
    }
}

#[test]
fn longest_common_prefix() {
    assert_eq!(common_prefix_len(&[], &[]), 0);
    assert_eq!(common_prefix_len(&[1, 2, 3], &[]), 0);
    assert_eq!(common_prefix_len(&[1, 2, 3], &[1, 2, 3]), 3);
    assert_eq!(common_prefix_len(&[1, 2, 3], &[1, 2, 4]), 2);
    assert_eq!(common_prefix_len(&[1, 2], &[1, 2, 4]), 2);
    assert_eq!(common_prefix_len(&[5, 2, 3], &[1, 2, 3]), 0);
}

#[test]
fn hex_prefix_forms() {
    assert_eq!(hex_prefix_encode(&[], false), vec![0x00]);
    assert_eq!(hex_prefix_encode(&[], true), vec![0x20]);
    assert_eq!(hex_prefix_encode(&[1, 2, 3, 4, 5], false), vec![0x11, 0x23, 0x45]);
    assert_eq!(hex_prefix_encode(&[0, 1, 2, 3, 4, 5], false), vec![0x00, 0x01, 0x23, 0x45]);
    assert_eq!(hex_prefix_encode(&[0, 0xf, 1, 0xc, 0xb, 8], true), vec![0x20, 0x0f, 0x1c, 0xb8]);
    assert_eq!(hex_prefix_encode(&[0xf, 1, 0xc, 0xb, 8], true), vec![0x3f, 0x1c, 0xb8]);
}

#[test]
fn hex_prefix_forms_read_back() {
    for leaf in [false, true] {
        for path in [&[][..], &[7], &[1, 2], &[0xf, 0, 0xf], &[0, 0, 0, 0], &[1, 2, 3, 4, 5]] {
            let bytes = hex_prefix_encode(path, leaf);
            assert_eq!(hex_prefix_decode(&bytes), Some((path.to_vec(), leaf)));
        }
    }
    assert_eq!(hex_prefix_decode(&[]), None);
    assert_eq!(hex_prefix_decode(&[0x40]), None);
    assert_eq!(hex_prefix_decode(&[0xf1]), None);
    assert_eq!(hex_prefix_decode(&[0x01]), None);
    assert_eq!(hex_prefix_decode(&[0x25, 0x11]), None);
    assert_eq!(hex_prefix_decode(&[0x15]), Some((vec![5], false)));
    assert_eq!(hex_prefix_decode(&[0x35, 0xab]), Some((vec![5, 0xa, 0xb], true)));
}

#[test]
fn order_of_byte_strings() {
    assert!(less_than(b"", b"a"));
    assert!(!less_than(b"", b""));
    assert!(!less_than(b"a", b""));
    assert!(less_than(b"a", b"b"));
    assert!(less_than(b"a", b"aa"));
    assert!(less_than(b"ab", b"b"));
    assert!(!less_than(b"b", b"ab"));
    assert!(!less_than(b"dog", b"dog"));
    assert!(less_than(&[0x7f], &[0x80]));
}

#[test]
fn store_counts_references() {
    let mut db = Store::new();
    let null = hashed_null_node();
    assert!(db.contains(&null));
    assert_eq!(db.get(&null), Some(vec![0x80]));
    assert_eq!(db.insert(&[0x80]), null);

    let key = db.insert(b"hello");
    assert_eq!(key, patricia_trie::hasher::hash_bytes(b"hello"));
    assert!(db.contains(&key));
    assert_eq!(db.get(&key), Some(b"hello".to_vec()));
    assert_eq!(db.insert(b"hello"), key);
    db.remove(&key);
    assert_eq!(db.get(&key), Some(b"hello".to_vec()));
    db.remove(&key);
    assert!(!db.contains(&key));
    assert_eq!(db.get(&key), None);
    db.remove(&key);
    assert_eq!(db.insert(b"hello"), key);
    assert_eq!(db.get(&key), None);
    db.insert(b"hello");
    assert_eq!(db.get(&key), Some(b"hello".to_vec()));

    let other = patricia_trie::hasher::hash_bytes(b"other");
    assert!(!db.contains(&other));
    assert_eq!(db.get(&other), None);
    db.remove(&null);
    assert!(db.contains(&null));
}

#[test]
fn store_bulk_operations() {
    let mut db = Store::new();
    let values: Vec<Vec<u8>> = vec![b"one".to_vec(), b"two".to_vec(), b"one".to_vec()];
    let keys = db.insert_all(&values);
    assert_eq!(keys.len(), 3);
    assert_eq!(keys[0], keys[2]);
    assert_eq!(db.get(&keys[1]), Some(b"two".to_vec()));
    db.remove_all(&vec![keys[0], keys[1]]);
    assert_eq!(db.get(&keys[0]), Some(b"one".to_vec()));
    assert_eq!(db.get(&keys[1]), None);
}

#[test]
fn recorder_keeps_the_oldest_up_to_its_limit() {
    let mut all = Recorder::new();
    let mut two = Recorder::with_limit(2);
    let mut none = Recorder::with_limit(0);
    for i in 0u8..5 {
        let hash = [i; 32];
        all.record(&hash, &[i, i], u32::from(i));
        two.record(&hash, &[i, i], u32::from(i));
        none.record(&hash, &[i, i], u32::from(i));
    }
    assert_eq!(all.len(), 5);
    assert_eq!(two.len(), 2);
    assert_eq!(none.len(), 0);
    let kept = two.drain();
    assert_eq!(two.len(), 0);
    assert_eq!(kept.len(), 2);
    assert_eq!(kept[0].hash, [0u8; 32]);
    assert_eq!(kept[0].data, vec![0, 0]);
    assert_eq!(kept[0].depth, 0);
    assert_eq!(kept[1].hash, [1u8; 32]);
    assert_eq!(kept[1].depth, 1);
    two.record(&[9u8; 32], &[9], 9);
    assert_eq!(two.len(), 1);
    let records = all.drain();
    assert_eq!(records.len(), 5);
    assert_eq!(records[4].data, vec![4, 4]);
}

#[test]
fn queries_decode_the_value() {
    let recorder = Recorder::new();
    assert_eq!(Query::decode(&recorder, b"value"), b"value".to_vec());
    assert_eq!(RawValue.decode(b"value"), b"value".to_vec());
    assert_eq!(Decoder::new(|value: &[u8]| value.len()).decode(b"value"), 5);
}

fn deep_trie() -> (Store, [u8; 32]) {
    let mut trie = TrieDBMut::new(Store::new());
    for i in 0u8..40 {
        let key = vec![b'k', i / 8, i % 8];
        let value = vec![i; 40];
        trie.insert(&key, &value).unwrap();
    }
    trie.into_parts()
}

#[test]
fn recorder_holds_the_nodes_on_the_way() {
    let (db, root) = deep_trie();
    let view = TrieDB::new(&db, &root).unwrap();
    let mut recorder = Recorder::new();
    let found = view.get_with(&[b'k', 2, 3], &mut recorder).unwrap();
    assert_eq!(found, Some(vec![19u8; 40]));
    let records = recorder.drain();
    assert!(records.len() >= 3);
    assert_eq!(records[0].hash, root);
    for (i, record) in records.iter().enumerate() {
        assert_eq!(record.depth as usize, i);
        assert_eq!(patricia_trie::hasher::hash_bytes(&record.data), record.hash);
        assert_eq!(db.get(&record.hash), Some(record.data.clone()));
    }

    let mut proof = Store::new();
    for record in records.iter() {
        assert_eq!(proof.insert(&record.data), record.hash);
    }
    let replay = TrieDB::new(&proof, &root).unwrap();
    assert_eq!(replay.get(&[b'k', 2, 3]).unwrap(), Some(vec![19u8; 40]));
    assert!(replay.get(&[b'k', 4, 1]).is_err());

    let mut absent = Recorder::new();
    assert_eq!(view.get_with(&[b'k', 9, 9], &mut absent).unwrap(), None);
    let records = absent.drain();
    let mut proof = Store::new();
    for record in records.iter() {
        proof.insert(&record.data);
    }
    let replay = TrieDB::new(&proof, &root).unwrap();
    assert_eq!(replay.get(&[b'k', 9, 9]).unwrap(), None);

    let mut short = Recorder::with_limit(1);
    view.get_with(&[b'k', 2, 3], &mut short).unwrap();
    let records = short.drain();
    assert_eq!(records.len(), 1);
    assert_eq!(records[0].hash, root);

    let mut plain = RawValue;
    assert_eq!(view.get_with(&[b'k', 0, 0], &mut plain).unwrap(), Some(vec![0u8; 40]));

    let mut length = Decoder::new(|value: &[u8]| value.len());
    assert_eq!(view.get_with(&[b'k', 0, 0], &mut length).unwrap(), Some(40));
    assert_eq!(view.get_with(&[b'k', 9, 0], &mut length).unwrap(), None);
    let mut first = Decoder::new(|value: &[u8]| value[0]);
    assert_eq!(view.get_with(&[b'k', 4, 7], &mut first).unwrap(), Some(39));

    let mut both = Recording::new(Recorder::with_limit(2), |value: &[u8]| value.len());
    assert_eq!(view.get_with(&[b'k', 2, 3], &mut both).unwrap(), Some(40));
    let mut recorder = both.into_recorder();
    let records = recorder.drain();
    assert_eq!(records.len(), 2);
    assert_eq!(records[0].hash, root);
    assert_eq!(records[1].depth, 1);
}
