use patricia_trie::codec::decode_node;
use patricia_trie::codec::encode_into;
use patricia_trie::codec::CodecError;
use patricia_trie::hasher::hash_bytes;
use patricia_trie::nibble::hex_prefix_encode;
use patricia_trie::nibble::to_nibbles;
use patricia_trie::node::Node;
use patricia_trie::rlp::encode_list;
use patricia_trie::rlp::encode_string;
use patricia_trie::rlp::read_item;
use patricia_trie::store::Store;
use patricia_trie::TrieDBMut;
use patricia_trie::TrieMut;

fn samples() -> Vec<Vec<u8>> {
    let mut all: Vec<Vec<u8>> = vec![
        vec![],
        vec![0x00],
        vec![0x01],
        vec![0x7f],
        vec![0x80],
        vec![0xff],
        vec![0x00, 0x00],
        b"dog".to_vec(),
    ];
    for len in [54usize, 55, 56, 57, 255, 256, 257, 1000, 65535, 65536, 70000] {
        let mut v = Vec::with_capacity(len);
        for i in 0..len {
            v.push((i % 251) as u8);
        }
        all.push(v);
    }
    all
}

#[test]
fn digest_is_keccak_256() {
    for data in samples() {
        let expected = keccak_hash::keccak(&data);
        assert_eq!(&hash_bytes(&data)[..], &expected[..]);
    }
    assert_eq!(
        hash_bytes(b"").to_vec(),
        vec![
            0xc5, 0xd2, 0x46, 0x01, 0x86, 0xf7, 0x23, 0x3c, 0x92, 0x7e, 0x7d, 0xb2, 0xdc, 0xc7,
            0x03, 0xc0, 0xe5, 0x00, 0xb6, 0x53, 0xca, 0x82, 0x27, 0x3b, 0x7b, 0xfa, 0xd8, 0x04,
            0x5d, 0x85, 0xa4, 0x70
        ]
    );
    assert_ne!(hash_bytes(&[7u8; 32]), [7u8; 32]);
}

#[test]
fn string_frames_are_those_of_rlp() {
    for data in samples() {
        assert_eq!(encode_string(&data), rlp::encode(&data));
    }
    assert_eq!(encode_string(b""), vec![0x80]);
    assert_eq!(encode_string(&[0x05]), vec![0x05]);
    assert_eq!(encode_string(&[0x80]), vec![0x81, 0x80]);
    assert_eq!(encode_string(b"dog"), vec![0x83, b'd', b'o', b'g']);
    let long = vec![b'a'; 56];
    let framed = encode_string(&long);
    assert_eq!(&framed[..2], &[0xb8, 56]);
    assert_eq!(framed.len(), 58);
    let longer = vec![b'a'; 1024];
    assert_eq!(&encode_string(&longer)[..3], &[0xb9, 0x04, 0x00]);
}

#[test]
fn list_frames_are_those_of_rlp() {
    for a in samples() {
        for b in [vec![], b"cat".to_vec(), vec![0x80u8; 60]] {
            let mut payload = encode_string(&a);
            payload.extend_from_slice(&encode_string(&b));
            let mut stream = rlp::RlpStream::new_list(2);
            stream.append(&a);
            stream.append(&b);
            assert_eq!(encode_list(&payload), stream.out());
        }
    }
    assert_eq!(encode_list(&[]), vec![0xc0]);
    assert_eq!(
        encode_list(&[0x83, b'c', b'a', b't', 0x83, b'd', b'o', b'g']),
        vec![0xc8, 0x83, b'c', b'a', b't', 0x83, b'd', b'o', b'g']
    );
}

#[test]
fn items_are_read_as_rlp_reads_them() {
    for data in samples() {
        let framed = encode_string(&data);
        let item = read_item(&framed, 0).unwrap();
        assert!(!item.list);
        assert_eq!(item.from, 0);
        assert_eq!(item.end, framed.len());
        assert_eq!(&framed[item.start..item.end], &data[..]);
        let view = rlp::Rlp::new(&framed);
        assert_eq!(view.data().unwrap(), &framed[item.start..item.end]);

        let listed = encode_list(&framed);
        let item = read_item(&listed, 0).unwrap();
        assert!(item.list);
        assert_eq!(item.end, listed.len());
        assert_eq!(&listed[item.start..item.end], &framed[..]);
        let info = rlp::Rlp::new(&listed).payload_info().unwrap();
        assert_eq!(info.header_len, item.start);
        assert_eq!(info.value_len, item.end - item.start);

        let inner = read_item(&listed, item.start).unwrap();
        assert_eq!(inner.from, item.start);
        assert_eq!(&listed[inner.start..inner.end], &data[..]);
    }
}

#[test]
fn frames_that_could_be_shorter_are_no_items() {
    assert!(read_item(&[], 0).is_none());
    assert!(read_item(&[0x80], 1).is_none());
    assert!(read_item(&[0x81, 0x05], 0).is_none());
    assert!(read_item(&[0x81, 0x80], 0).is_some());
    assert!(read_item(&[0x83, b'd', b'o'], 0).is_none());
    assert!(read_item(&[0xb8, 0x05, 1, 2, 3, 4, 5], 0).is_none());
    let mut padded = vec![0xb9, 0x00, 0x38];
    padded.extend_from_slice(&[0u8; 56]);
    assert!(read_item(&padded, 0).is_none());
    let mut short = vec![0xb8, 0x38];
    short.extend_from_slice(&[0u8; 55]);
    assert!(read_item(&short, 0).is_none());
    short.push(0);
    assert!(read_item(&short, 0).is_some());
    assert!(read_item(&[0xbf, 0xff, 0xff, 0xff, 0xff, 0xff, 0xff, 0xff, 0xff], 0).is_none());
    assert!(read_item(&[0xc1], 0).is_none());
    assert!(read_item(&[0xf8, 0x01, 0x00], 0).is_none());
}

#[test]
fn root_of_a_single_leaf_is_the_digest_of_its_list() {
    let value = vec![b'a'; 100];
    let mut trie = TrieDBMut::new(Store::new());
    trie.insert(b"A", &value).unwrap();
    let mut stream = rlp::RlpStream::new_list(2);
    stream.append(&vec![0x20u8, 0x41]);
    stream.append(&value);
    let expected = keccak_hash::keccak(stream.out());
    assert_eq!(&trie.root()[..], &expected[..]);
}

#[test]
fn leaf_encoding_is_a_list_of_path_and_value() {
    let node = Node::Leaf { path: to_nibbles(b"dog"), value: b"puppy".to_vec() };
    let mut writes = Vec::new();
    let bytes = encode_into(&node, &mut writes);
    assert!(writes.is_empty());
    let mut stream = rlp::RlpStream::new_list(2);
    stream.append(&hex_prefix_encode(&to_nibbles(b"dog"), true));
    stream.append(&b"puppy".to_vec());
    assert_eq!(bytes, stream.out());
    match decode_node(&bytes).unwrap() {
        Node::Leaf { path, value } => {
            assert_eq!(path, to_nibbles(b"dog"));
            assert_eq!(value, b"puppy".to_vec());
        }
        other => panic!("not a leaf: {:?}", other),
    }
}

#[test]
fn large_child_is_linked_by_its_digest() {
    let leaf = Node::Leaf { path: vec![1, 2, 3], value: vec![9u8; 40] };
    let mut leaf_writes = Vec::new();
    let leaf_bytes = encode_into(&leaf, &mut leaf_writes);
    assert!(leaf_bytes.len() >= 32);
    let ext = Node::Extension { path: vec![4, 5], child: Box::new(leaf) };
    let mut writes = Vec::new();
    let bytes = encode_into(&ext, &mut writes);
    assert_eq!(writes, vec![leaf_bytes.clone()]);
    let mut stream = rlp::RlpStream::new_list(2);
    stream.append(&hex_prefix_encode(&[4, 5], false));
    stream.append(&hash_bytes(&leaf_bytes).to_vec());
    assert_eq!(bytes, stream.out());
    match decode_node(&bytes).unwrap() {
        Node::Extension { path, child } => {
            assert_eq!(path, vec![4, 5]);
            match *child {
                Node::Hash { digest } => assert_eq!(digest, hash_bytes(&leaf_bytes)),
                other => panic!("not a digest: {:?}", other),
            }
        }
        other => panic!("not an extension: {:?}", other),
    }
}

#[test]
fn small_child_is_held_in_place() {
    let mut children: Vec<Node> = Vec::new();
    for _ in 0..16 {
        children.push(Node::Empty);
    }
    children[3] = Node::Leaf { path: vec![7], value: b"x".to_vec() };
    children[9] = Node::Leaf { path: vec![], value: b"y".to_vec() };
    let branch = Node::Branch { children, value: Some(b"own".to_vec()) };
    let mut writes = Vec::new();
    let bytes = encode_into(&branch, &mut writes);
    assert!(writes.is_empty());
    let view = rlp::Rlp::new(&bytes);
    assert_eq!(view.item_count().unwrap(), 17);
    assert!(view.at(0).unwrap().is_empty());
    assert!(view.at(3).unwrap().is_list());
    assert_eq!(view.at(16).unwrap().data().unwrap(), b"own");
    match decode_node(&bytes).unwrap() {
        Node::Branch { children, value } => {
            assert_eq!(children.len(), 16);
            assert_eq!(value, Some(b"own".to_vec()));
            assert!(matches!(children[0], Node::Empty));
            match &children[3] {
                Node::Leaf { path, value } => {
                    assert_eq!(path, &vec![7u8]);
                    assert_eq!(value, &b"x".to_vec());
                }
                other => panic!("not a leaf: {:?}", other),
            }
            match &children[9] {
                Node::Leaf { path, value } => {
                    assert!(path.is_empty());
                    assert_eq!(value, &b"y".to_vec());
                }
                other => panic!("not a leaf: {:?}", other),
            }
        }
        other => panic!("not a branch: {:?}", other),
    }
}

#[test]
fn malformed_bytes_are_no_node() {
    assert!(matches!(decode_node(&[0x80]), Ok(Node::Empty)));
    for bytes in [
        &[][..],
        &[0x00][..],
        &[0x81, 0x80][..],
        &[0xc0][..],
        &[0xc1, 0x80][..],
        &[0xc3, 0x80, 0x80, 0x80][..],
        &[0xc2, 0x00, 0x80][..],
        &[0xc2, 0x40, 0x80][..],
        &[0xc2, 0x20, 0xc0][..],
        &[0xc2, 0x20, 0x80, 0x00][..],
        &[0xc3, 0x20, 0x80][..],
        &[0xc4, 0x82, 0x00, 0x12, 0x21][..],
    ] {
        assert_eq!(decode_node(bytes).err(), Some(CodecError::Malformed), "{:?}", bytes);
    }
    assert!(matches!(decode_node(&[0xc2, 0x20, 0x80]), Ok(Node::Leaf { .. })));
    assert!(matches!(decode_node(&[0xc2, 0x31, 0x05]), Ok(Node::Leaf { .. })));
}
