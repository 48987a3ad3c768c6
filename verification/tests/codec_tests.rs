use trie_witness::codec::{decode_node, encode_node_exec, TrieNode};
use trie_witness::nibbles::Nibbles;
use trie_witness::state::{encode_storage_value, trim_zeros_exec};

fn nib(vals: &[u8]) -> Nibbles {
    Nibbles::from_vec(vals.to_vec()).unwrap()
}

#[test]
fn nibbles_unpack_and_pack() {
    let bytes = vec![0x12, 0xab];
    let n = Nibbles::unpack(&bytes);
    assert_eq!(n.len(), 4);
    assert_eq!(n.get(0), 0x1);
    assert_eq!(n.get(1), 0x2);
    assert_eq!(n.get(2), 0xa);
    assert_eq!(n.get(3), 0xb);
    assert_eq!(n.pack(), vec![0x12, 0xab]);
    // an odd trailing nibble moves into the high half
    let odd = nib(&[0x1, 0x2, 0x3]);
    assert_eq!(odd.pack(), vec![0x12, 0x30]);
}

#[test]
fn nibbles_prefix_and_order() {
    let a = nib(&[1, 2]);
    let b = nib(&[1, 2, 3]);
    let c = nib(&[1, 3]);
    assert!(b.starts_with(&a));
    assert!(!a.starts_with(&b));
    assert!(a.lt(&b));
    assert!(b.lt(&c));
    assert!(!c.lt(&b));
    assert!(a.equals(&a.duplicate()));
}

#[test]
fn leaf_node_round_trip() {
    let node = TrieNode::Leaf { key: nib(&[1, 2, 3]), value: vec![0xde, 0xad, 0xbe, 0xef] };
    let enc = encode_node_exec(&node);
    // list of [hex-prefix "313" with odd leaf flag, value]
    assert_eq!(enc, vec![0xc8, 0x82, 0x31, 0x23, 0x84, 0xde, 0xad, 0xbe, 0xef]);
    match decode_node(&enc) {
        Ok(TrieNode::Leaf { key, value }) => {
            assert!(key.equals(&nib(&[1, 2, 3])));
            assert_eq!(value, vec![0xde, 0xad, 0xbe, 0xef]);
        }
        _ => panic!("expected a leaf"),
    }
}

#[test]
fn extension_node_round_trip() {
    let child = vec![0xaau8; 32];
    let node = TrieNode::Extension { key: nib(&[4, 5]), child: child.clone() };
    let enc = encode_node_exec(&node);
    assert_eq!(enc[0], 0xe4); // list header, 36 payload bytes
    assert_eq!(enc[1], 0x82); // two hex-prefix bytes
    assert_eq!(enc[2], 0x00); // even extension flag byte
    assert_eq!(enc[3], 0x45); // packed key nibbles
    match decode_node(&enc) {
        Ok(TrieNode::Extension { key, child: c }) => {
            assert!(key.equals(&nib(&[4, 5])));
            assert_eq!(c, child);
        }
        _ => panic!("expected an extension"),
    }
}

#[test]
fn branch_node_round_trip() {
    let mut children: Vec<Option<Vec<u8>>> = Vec::new();
    for i in 0..16u8 {
        if i == 3 || i == 7 {
            children.push(Some(vec![i; 32]));
        } else {
            children.push(None);
        }
    }
    let node = TrieNode::Branch { children };
    let enc = encode_node_exec(&node);
    match decode_node(&enc) {
        Ok(TrieNode::Branch { children }) => {
            assert_eq!(children.len(), 16);
            assert_eq!(children[3], Some(vec![3u8; 32]));
            assert_eq!(children[7], Some(vec![7u8; 32]));
            assert_eq!(children[0], None);
        }
        _ => panic!("expected a branch"),
    }
}

#[test]
fn decode_rejects_malformed_and_noncanonical() {
    assert!(decode_node(&vec![]).is_err());
    assert!(decode_node(&vec![0x80]).is_err());
    assert!(decode_node(&vec![0xc0]).is_err());
    // truncated list header
    assert!(decode_node(&vec![0xc8, 0x82]).is_err());
    // a valid leaf with one trailing garbage byte
    let node = TrieNode::Leaf { key: nib(&[1]), value: vec![9] };
    let mut enc = encode_node_exec(&node);
    enc.push(0x00);
    assert!(decode_node(&enc).is_err());
}

#[test]
fn codec_matches_reference_rlp() {
    // the reference implementation agrees on a leaf encoding
    let value = vec![1u8, 2, 3, 4, 5, 6, 7, 8];
    let key = Nibbles::unpack(&vec![0x45; 4]);
    let node = TrieNode::Leaf { key, value: value.clone() };
    let enc = encode_node_exec(&node);
    let alloy_node = alloy_trie::nodes::LeafNode::new(
        alloy_trie::Nibbles::unpack(&[0x45u8; 4]),
        value,
    );
    let mut buf: Vec<u8> = Vec::new();
    alloy_rlp::Encodable::encode(&alloy_node, &mut buf);
    assert_eq!(enc, buf);
}

#[test]
fn storage_value_encoding_is_minimal() {
    let mut v = vec![0u8; 32];
    v[31] = 0x01;
    assert_eq!(encode_storage_value(&v), vec![0x01]);
    let mut w = vec![0u8; 32];
    w[30] = 0x02;
    w[31] = 0x58;
    assert_eq!(encode_storage_value(&w), vec![0x82, 0x02, 0x58]);
    assert_eq!(trim_zeros_exec(&vec![0, 0, 5, 0]), vec![5, 0]);
    // zero encodes as the empty string marker
    assert_eq!(encode_storage_value(&vec![0u8; 32]), vec![0x80]);
}
