use patricia_trie::store::hashed_null_node;
use patricia_trie::store::Store;
use patricia_trie::FatDB;
use patricia_trie::FatDBMut;
use patricia_trie::SecTrieDB;
use patricia_trie::SecTrieDBMut;
use patricia_trie::Trie;
use patricia_trie::TrieDB;
use patricia_trie::TrieDBMut;
use patricia_trie::TrieIterator;
use patricia_trie::TrieMut;

fn step<I: TrieIterator>(it: &mut I) -> Option<(Vec<u8>, Vec<u8>)> {
    it.next().map(|r| r.ok().expect("the store holds the whole trie"))
}

fn hex(bytes: &[u8]) -> String {
    let mut out = String::new();
    for b in bytes {
        out.push_str(&format!("{:02x}", b));
    }
    out
}

const NULL_ROOT: &str = "56e81f171bcc55a6ff8345e692c0f86e5b48e01b996cadc001622fb5e363b421";

#[test]
fn empty_trie_has_the_null_root() {
    let mut trie = TrieDBMut::new(Store::new());
    assert!(trie.is_empty());
    assert_eq!(hex(&trie.root()), NULL_ROOT);
    assert_eq!(hex(&hashed_null_node()), NULL_ROOT);
}

#[test]
fn insert_dog_then_get() {
    let mut trie = TrieDBMut::new(Store::new());
    assert_eq!(trie.insert(b"dog", b"puppy").unwrap(), None);
    assert_eq!(trie.get(b"dog").unwrap(), Some(b"puppy".to_vec()));
    assert_eq!(trie.get(b"cat").unwrap(), None);
    assert!(trie.contains(b"dog").unwrap());
    assert!(!trie.contains(b"cat").unwrap());
    assert!(!trie.is_empty());
}

#[test]
fn three_keys_with_a_shared_prefix() {
    let mut trie = TrieDBMut::new(Store::new());
    trie.insert(b"dog", b"puppy").unwrap();
    trie.insert(b"doge", b"coin").unwrap();
    trie.insert(b"horse", b"stallion").unwrap();
    assert_eq!(trie.get(b"dog").unwrap(), Some(b"puppy".to_vec()));
    assert_eq!(trie.get(b"doge").unwrap(), Some(b"coin".to_vec()));
    assert_eq!(trie.get(b"horse").unwrap(), Some(b"stallion".to_vec()));
    assert_eq!(trie.get(b"do").unwrap(), None);
    assert_eq!(trie.get(b"dogs").unwrap(), None);
    assert_eq!(trie.get(b"").unwrap(), None);
}

#[test]
fn second_insert_overwrites() {
    let mut trie = TrieDBMut::new(Store::new());
    assert_eq!(trie.insert(b"a", b"1").unwrap(), None);
    assert_eq!(trie.insert(b"a", b"2").unwrap(), Some(b"1".to_vec()));
    assert_eq!(trie.get(b"a").unwrap(), Some(b"2".to_vec()));
    let (db, root) = trie.into_parts();
    let view = TrieDB::new(&db, &root).unwrap();
    let mut it = view.iter().unwrap();
    assert_eq!(step(&mut it), Some((b"a".to_vec(), b"2".to_vec())));
    assert_eq!(step(&mut it), None);

    let mut once = TrieDBMut::new(Store::new());
    once.insert(b"a", b"2").unwrap();
    assert_eq!(once.root(), root);
}

#[test]
fn insert_then_remove_leaves_the_trie_empty() {
    let mut trie = TrieDBMut::new(Store::new());
    trie.insert(b"a", b"1").unwrap();
    assert_eq!(trie.remove(b"a").unwrap(), Some(b"1".to_vec()));
    assert!(trie.is_empty());
    assert_eq!(hex(&trie.root()), NULL_ROOT);
    assert_eq!(trie.get(b"a").unwrap(), None);
}

#[test]
fn fat_trie_lists_the_keys_as_given() {
    let mut trie = FatDBMut::new(Store::new());
    assert_eq!(trie.insert(b"key", b"val").unwrap(), None);
    assert_eq!(trie.get(b"key").unwrap(), Some(b"val".to_vec()));
    let (db, root) = trie.into_parts();
    let view = FatDB::new(&db, &root).unwrap();
    assert_eq!(view.get(b"key").unwrap(), Some(b"val".to_vec()));
    let mut it = view.iter().unwrap();
    assert_eq!(step(&mut it), Some((b"key".to_vec(), b"val".to_vec())));
    assert_eq!(step(&mut it), None);
}

#[test]
fn known_root_of_three_dogs() {
    let mut trie = TrieDBMut::new(Store::new());
    trie.insert(b"doe", b"reindeer").unwrap();
    trie.insert(b"dog", b"puppy").unwrap();
    trie.insert(b"dogglesworth", b"cat").unwrap();
    assert_eq!(
        hex(&trie.root()),
        "8aad789dff2f538bca5d8ea56e8abe10f4c7ba3a5dea95fea4cd6e7c3a1168d3"
    );
}

#[test]
fn known_root_of_puppy_set() {
    let mut trie = TrieDBMut::new(Store::new());
    trie.insert(b"do", b"verb").unwrap();
    trie.insert(b"horse", b"stallion").unwrap();
    trie.insert(b"doge", b"coin").unwrap();
    trie.insert(b"dog", b"puppy").unwrap();
    assert_eq!(
        hex(&trie.root()),
        "5991bb8c6514148a29db676a14ac506cd2cd5775ace63c30a4fe457715e9ac84"
    );
}

#[test]
fn committed_trie_reads_back_from_the_store() {
    let mut trie = TrieDBMut::new(Store::new());
    trie.insert(b"do", b"verb").unwrap();
    trie.insert(b"horse", b"stallion").unwrap();
    trie.insert(b"doge", b"coin").unwrap();
    trie.insert(b"dog", b"puppy").unwrap();
    let (db, root) = trie.into_parts();
    let view = TrieDB::new(&db, &root).unwrap();
    assert!(!view.is_empty());
    assert_eq!(view.root(), &root);
    assert_eq!(view.get(b"dog").unwrap(), Some(b"puppy".to_vec()));
    assert_eq!(view.get(b"doge").unwrap(), Some(b"coin".to_vec()));
    assert_eq!(view.get(b"horse").unwrap(), Some(b"stallion".to_vec()));
    assert_eq!(view.get(b"do").unwrap(), Some(b"verb".to_vec()));
    assert_eq!(view.get(b"d").unwrap(), None);
    assert_eq!(view.get(b"dogs").unwrap(), None);
    assert!(view.contains(b"horse").unwrap());
    assert!(!view.contains(b"hors").unwrap());
}

#[test]
fn root_does_not_depend_on_the_order_of_insertion() {
    let pairs: Vec<(&[u8], &[u8])> = vec![
        (b"do", b"verb"),
        (b"dog", b"puppy"),
        (b"doge", b"coin"),
        (b"horse", b"stallion"),
        (b"dogglesworth", b"a value that is long enough for a node of its own"),
    ];
    let mut forward = TrieDBMut::new(Store::new());
    for (k, v) in pairs.iter() {
        forward.insert(k, v).unwrap();
    }
    let mut backward = TrieDBMut::new(Store::new());
    for (k, v) in pairs.iter().rev() {
        backward.insert(k, v).unwrap();
    }
    let mut mixed = TrieDBMut::new(Store::new());
    for i in [2usize, 0, 4, 1, 3] {
        mixed.insert(pairs[i].0, pairs[i].1).unwrap();
    }
    let root = forward.root();
    assert_eq!(backward.root(), root);
    assert_eq!(mixed.root(), root);
}

#[test]
fn removal_returns_the_root_to_what_it_was() {
    let mut trie = TrieDBMut::new(Store::new());
    trie.insert(b"do", b"verb").unwrap();
    trie.insert(b"dog", b"puppy").unwrap();
    trie.insert(b"horse", b"stallion").unwrap();
    let before = trie.root();
    trie.insert(b"doge", b"coin").unwrap();
    assert_ne!(trie.root(), before);
    assert_eq!(trie.remove(b"doge").unwrap(), Some(b"coin".to_vec()));
    assert_eq!(trie.get(b"doge").unwrap(), None);
    assert_eq!(trie.root(), before);
}

#[test]
fn removal_of_an_absent_key_changes_nothing() {
    let mut empty = TrieDBMut::new(Store::new());
    assert_eq!(empty.remove(b"dog").unwrap(), None);
    assert_eq!(hex(&empty.root()), NULL_ROOT);

    let mut trie = TrieDBMut::new(Store::new());
    trie.insert(b"do", b"verb").unwrap();
    trie.insert(b"dog", b"puppy").unwrap();
    let before = trie.root();
    assert_eq!(trie.remove(b"d").unwrap(), None);
    assert_eq!(trie.remove(b"doge").unwrap(), None);
    assert_eq!(trie.remove(b"cat").unwrap(), None);
    assert_eq!(trie.root(), before);
}

#[test]
fn empty_value_removes_the_entry() {
    let mut trie = TrieDBMut::new(Store::new());
    trie.insert(b"dog", b"puppy").unwrap();
    assert_eq!(trie.insert(b"dog", b"").unwrap(), Some(b"puppy".to_vec()));
    assert_eq!(trie.get(b"dog").unwrap(), None);
    assert!(trie.is_empty());
}

#[test]
fn branch_collapses_when_one_child_is_left() {
    let mut trie = TrieDBMut::new(Store::new());
    trie.insert(b"dog", b"puppy").unwrap();
    let single = trie.root();
    trie.insert(b"doge", b"coin").unwrap();
    trie.insert(b"dot", b"dash").unwrap();
    trie.remove(b"doge").unwrap();
    trie.remove(b"dot").unwrap();
    assert_eq!(trie.root(), single);
    assert_eq!(trie.get(b"dog").unwrap(), Some(b"puppy".to_vec()));
}

#[test]
fn secure_trie_is_the_generic_trie_of_hashed_keys() {
    let pairs: Vec<(&[u8], &[u8])> =
        vec![(b"dog", b"puppy"), (b"doge", b"coin"), (b"horse", b"stallion")];
    let mut secure = SecTrieDBMut::new(Store::new());
    let mut generic = TrieDBMut::new(Store::new());
    for (k, v) in pairs.iter() {
        secure.insert(k, v).unwrap();
        let hashed = patricia_trie::hasher::hash_bytes(k);
        generic.insert(&hashed, v).unwrap();
    }
    assert_eq!(secure.get(b"dog").unwrap(), Some(b"puppy".to_vec()));
    assert_eq!(secure.get(b"cat").unwrap(), None);
    let root = generic.root();
    assert_eq!(secure.root(), root);
    let (db, root) = secure.into_parts();
    let view = SecTrieDB::new(&db, &root).unwrap();
    assert_eq!(view.get(b"horse").unwrap(), Some(b"stallion".to_vec()));
    assert_eq!(view.get(b"hors").unwrap(), None);
    assert!(view.contains(b"doge").unwrap());
}

#[test]
fn known_root_of_a_secure_trie() {
    let mut trie = SecTrieDBMut::new(Store::new());
    trie.insert(&[0x01u8, 0x23], &[0x01u8, 0x23]).unwrap();
    let (db, root) = trie.into_parts();
    let view = SecTrieDB::new(&db, &root).unwrap();
    assert_eq!(view.get(&[0x01u8, 0x23]).unwrap(), Some(vec![0x01u8, 0x23]));
}
