use patricia_trie::codec::CodecError;
use patricia_trie::engine::insert_at;
use patricia_trie::engine::remove_at;
use patricia_trie::load::expand;
use patricia_trie::lookup::walk;
use patricia_trie::load::is_canonical;
use patricia_trie::nibble::to_nibbles;
use patricia_trie::node::Node;
use patricia_trie::store::Store;
use patricia_trie::TrieError;

fn put(node: Node, key: &[u8], value: &[u8]) -> Node {
    insert_at(node, &to_nibbles(key), 0, value.to_vec()).0
}

fn blank() -> Vec<Node> {
    let mut slots = Vec::new();
    for _ in 0..16 {
        slots.push(Node::Empty);
    }
    slots
}

#[test]
fn shared_prefix_becomes_an_extension_over_a_branch() {
    let mut tree = Node::Empty;
    tree = put(tree, b"dog", b"puppy");
    match &tree {
        Node::Leaf { path, value } => {
            assert_eq!(path, &vec![6, 4, 6, 0xf, 6, 7]);
            assert_eq!(value, &b"puppy".to_vec());
        }
        other => panic!("not a leaf: {:?}", other),
    }
    tree = put(tree, b"doge", b"coin");
    match &tree {
        Node::Extension { path, child } => {
            assert_eq!(path, &vec![6, 4, 6, 0xf, 6, 7]);
            match &**child {
                Node::Branch { children, value } => {
                    assert_eq!(value, &Some(b"puppy".to_vec()));
                    for (i, slot) in children.iter().enumerate() {
                        if i == 6 {
                            match slot {
                                Node::Leaf { path, value } => {
                                    assert_eq!(path, &vec![5]);
                                    assert_eq!(value, &b"coin".to_vec());
                                }
                                other => panic!("not a leaf: {:?}", other),
                            }
                        } else {
                            assert!(matches!(slot, Node::Empty));
                        }
                    }
                }
                other => panic!("not a branch: {:?}", other),
            }
        }
        other => panic!("not an extension: {:?}", other),
    }
    tree = put(tree, b"horse", b"stallion");
    assert!(is_canonical(&tree));
    match &tree {
        Node::Extension { path, child } => {
            assert_eq!(path, &vec![6]);
            match &**child {
                Node::Branch { children, value } => {
                    assert_eq!(value, &None);
                    match &children[4] {
                        Node::Extension { path, child } => {
                            assert_eq!(path, &vec![6, 0xf, 6, 7]);
                            assert!(matches!(**child, Node::Branch { .. }));
                        }
                        other => panic!("not an extension: {:?}", other),
                    }
                    match &children[8] {
                        Node::Leaf { path, value } => {
                            assert_eq!(path, &vec![6, 0xf, 7, 2, 7, 3, 6, 5]);
                            assert_eq!(value, &b"stallion".to_vec());
                        }
                        other => panic!("not a leaf: {:?}", other),
                    }
                }
                other => panic!("not a branch: {:?}", other),
            }
        }
        other => panic!("not an extension: {:?}", other),
    }
    let db = Store::new();
    let mut seen = Vec::new();
    assert_eq!(
        walk(&db, &tree, &to_nibbles(b"doge"), 0, 1, &mut seen).unwrap(),
        Some(b"coin".to_vec())
    );
    assert_eq!(
        walk(&db, &tree, &to_nibbles(b"xdoge"), 2, 1, &mut seen).unwrap(),
        Some(b"coin".to_vec())
    );
    assert_eq!(walk(&db, &tree, &to_nibbles(b"dogs"), 0, 1, &mut seen).unwrap(), None);
    assert!(seen.is_empty());
}

#[test]
fn removal_fuses_what_is_left() {
    let mut tree = Node::Empty;
    tree = put(tree, b"dog", b"puppy");
    tree = put(tree, b"doge", b"coin");
    tree = put(tree, b"horse", b"stallion");
    let (after, old) = remove_at(tree, &to_nibbles(b"dog"), 0);
    assert_eq!(old, Some(b"puppy".to_vec()));
    assert!(is_canonical(&after));
    match &after {
        Node::Extension { path, child } => {
            assert_eq!(path, &vec![6]);
            match &**child {
                Node::Branch { children, .. } => match &children[4] {
                    Node::Leaf { path, value } => {
                        assert_eq!(path, &vec![6, 0xf, 6, 7, 6, 5]);
                        assert_eq!(value, &b"coin".to_vec());
                    }
                    other => panic!("not a leaf: {:?}", other),
                },
                other => panic!("not a branch: {:?}", other),
            }
        }
        other => panic!("not an extension: {:?}", other),
    }
    let (after, old) = remove_at(after, &to_nibbles(b"horse"), 0);
    assert_eq!(old, Some(b"stallion".to_vec()));
    match &after {
        Node::Leaf { path, value } => {
            assert_eq!(path, &to_nibbles(b"doge"));
            assert_eq!(value, &b"coin".to_vec());
        }
        other => panic!("not a leaf: {:?}", other),
    }
    let (after, old) = remove_at(after, &to_nibbles(b"dog"), 0);
    assert_eq!(old, None);
    let (after, old) = remove_at(after, &to_nibbles(b"doge"), 0);
    assert_eq!(old, Some(b"coin".to_vec()));
    assert!(matches!(after, Node::Empty));
}

#[test]
fn normal_form_is_told() {
    assert!(is_canonical(&Node::Empty));
    assert!(is_canonical(&Node::Leaf { path: vec![1, 2], value: vec![1] }));
    assert!(!is_canonical(&Node::Leaf { path: vec![1, 16], value: vec![1] }));
    assert!(!is_canonical(&Node::Leaf { path: vec![1, 2], value: vec![] }));
    assert!(!is_canonical(&Node::Hash { digest: [0u8; 32] }));
    let leaf = || Node::Leaf { path: vec![], value: vec![7] };
    let mut one = blank();
    one[3] = leaf();
    assert!(!is_canonical(&Node::Branch { children: one, value: None }));
    let mut one = blank();
    one[3] = leaf();
    assert!(is_canonical(&Node::Branch { children: one, value: Some(vec![1]) }));
    let mut one = blank();
    one[3] = leaf();
    assert!(!is_canonical(&Node::Branch { children: one, value: Some(vec![]) }));
    let mut two = blank();
    two[3] = leaf();
    two[15] = leaf();
    assert!(is_canonical(&Node::Branch { children: two, value: None }));
    assert!(!is_canonical(&Node::Branch { children: blank(), value: Some(vec![1]) }));
    let mut short = blank();
    short[0] = leaf();
    short[1] = leaf();
    short.pop();
    assert!(!is_canonical(&Node::Branch { children: short, value: None }));
    let mut two = blank();
    two[0] = leaf();
    two[1] = leaf();
    let branch = Node::Branch { children: two, value: None };
    assert!(!is_canonical(&Node::Extension { path: vec![], child: Box::new(branch) }));
    assert!(!is_canonical(&Node::Extension { path: vec![1], child: Box::new(leaf()) }));
    let mut two = blank();
    two[0] = leaf();
    two[1] = leaf();
    let branch = Node::Branch { children: two, value: None };
    assert!(is_canonical(&Node::Extension { path: vec![1], child: Box::new(branch) }));
    let mut stub = blank();
    stub[0] = leaf();
    stub[1] = Node::Hash { digest: [0u8; 32] };
    assert!(!is_canonical(&Node::Branch { children: stub, value: None }));
}

#[test]
fn expansion_stops_where_room_ends() {
    let db = Store::new();
    let last = [5u8; 32];
    let mut two = blank();
    two[0] = Node::Leaf { path: vec![], value: vec![7] };
    two[1] = Node::Leaf { path: vec![], value: vec![8] };
    let branch = Node::Branch { children: two, value: None };
    let mut fetched = Vec::new();
    match expand(&db, branch, 0, &last, &mut fetched) {
        Err(TrieError::DecoderError(at, cause)) => {
            assert_eq!(at, last);
            assert_eq!(cause, CodecError::TooDeep);
            assert_eq!(cause.description(), "Trie deeper than a path can be long");
        }
        _ => panic!("no error"),
    }
    let mut two = blank();
    two[0] = Node::Leaf { path: vec![], value: vec![7] };
    two[1] = Node::Leaf { path: vec![], value: vec![8] };
    let branch = Node::Branch { children: two, value: None };
    let ext = Node::Extension { path: vec![1, 2, 3], child: Box::new(branch) };
    assert!(matches!(
        expand(&db, ext, 3, &last, &mut fetched),
        Err(TrieError::DecoderError(_, CodecError::TooDeep))
    ));
    let mut two = blank();
    two[0] = Node::Leaf { path: vec![], value: vec![7] };
    two[1] = Node::Leaf { path: vec![], value: vec![8] };
    let branch = Node::Branch { children: two, value: None };
    let ext = Node::Extension { path: vec![1, 2, 3], child: Box::new(branch) };
    assert!(expand(&db, ext, 4, &last, &mut fetched).is_ok());
    assert!(fetched.is_empty());
    let missing = Node::Hash { digest: [9u8; 32] };
    assert!(matches!(
        expand(&db, missing, 4, &last, &mut fetched),
        Err(TrieError::IncompleteDatabase(d)) if d == [9u8; 32]
    ));
    let stray = Node::Extension { path: vec![], child: Box::new(Node::Empty) };
    assert!(matches!(
        expand(&db, stray, 4, &last, &mut fetched),
        Err(TrieError::DecoderError(_, CodecError::Malformed))
    ));
}
