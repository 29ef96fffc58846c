use akv_btree::codec::DecodeError;
use akv_btree::log::Log;
use akv_btree::node::{Node, NodeKind};
use akv_btree::tree::BPlusTree;

fn key(bytes: &[u8]) -> Vec<u8> {
    bytes.to_vec()
}

#[test]
fn test_order_and_occupancy_rates() {
    // order 8, per the occupancy table
    let leaf = Node::new(8, NodeKind::Leaf, false);
    let branch = Node::new(8, NodeKind::Branch, false);
    let root_leaf = Node::new(8, NodeKind::Leaf, true);
    let root_branch = Node::new(8, NodeKind::Branch, true);
    assert_eq!(leaf.max_children(), 7);
    assert_eq!(branch.max_children(), 8);
    assert_eq!(leaf.min_children(), 3);
    assert_eq!(branch.min_children(), 4);
    assert_eq!(root_leaf.min_children(), 0);
    assert_eq!(root_branch.min_children(), 2);
    // order 7
    let leaf7 = Node::new(7, NodeKind::Leaf, false);
    let branch7 = Node::new(7, NodeKind::Branch, false);
    assert_eq!(leaf7.max_children(), 6);
    assert_eq!(branch7.max_children(), 7);
    assert_eq!(leaf7.min_children(), 2);
    assert_eq!(branch7.min_children(), 3);
}

#[test]
fn test_node_insert_then_get() {
    let mut node = Node::new(8, NodeKind::Leaf, true);
    assert!(node.insert(&key(b"beta"), 10).is_none());
    assert!(node.insert(&key(b"alpha"), 20).is_none());
    assert!(node.insert(&key(b"gamma"), 30).is_none());
    assert_eq!(node.get(&key(b"alpha")), Some(20));
    assert_eq!(node.get(&key(b"beta")), Some(10));
    assert_eq!(node.get(&key(b"gamma")), Some(30));
    assert_eq!(node.get(&key(b"delta")), None);
}

#[test]
fn test_node_update_overwrites() {
    let mut node = Node::new(8, NodeKind::Leaf, true);
    node.insert(&key(b"k"), 1);
    node.insert(&key(b"k"), 2);
    assert_eq!(node.len(), 1);
    assert_eq!(node.get(&key(b"k")), Some(2));
}

#[test]
fn test_node_delete_tombstones() {
    let mut node = Node::new(8, NodeKind::Leaf, true);
    node.insert(&key(b"k"), 1);
    node.delete(&key(b"k"));
    // the key stays, its value is absent
    assert_eq!(node.len(), 1);
    assert_eq!(node.get(&key(b"k")), None);
    // tombstoning a key never inserted is accepted
    node.delete(&key(b"ghost"));
    assert_eq!(node.get(&key(b"ghost")), None);
}

#[test]
fn test_keys_stay_sorted() {
    let mut node = Node::new(16, NodeKind::Leaf, true);
    for k in [5u8, 1, 9, 3, 7, 2, 8].iter() {
        node.insert(&vec![*k], *k as u64);
    }
    for i in 0..node.keys.len() - 1 {
        assert!(node.keys[i] < node.keys[i + 1]);
    }
    assert_eq!(node.keys.len(), 7);
}

#[test]
fn test_split_at_max() {
    // order 4: a leaf's maximum fan-out is 3
    let mut node = Node::new(4, NodeKind::Leaf, false);
    assert!(node.insert(&key(b"a"), 1).is_none());
    assert!(node.insert(&key(b"b"), 2).is_none());
    let sibling = node.insert(&key(b"c"), 3);
    let sibling = sibling.expect("reaching max_children must split");
    assert!(node.keys.len() < 3);
    assert!(sibling.keys.len() < 3);
    assert_eq!(node.keys.len() + sibling.keys.len(), 3);
    assert_eq!(sibling.kind, NodeKind::Leaf);
    assert!(!sibling.is_root);
    // every key of the lower half precedes the sibling's first key
    for k in node.keys.iter() {
        assert!(k < &sibling.keys[0]);
    }
}

#[test]
fn test_node_round_trip() {
    let mut node = Node::new(9, NodeKind::Leaf, true);
    node.insert(&key(b"alpha"), 11);
    node.insert(&key(b"beta"), 22);
    node.delete(&key(b"alpha"));
    let bytes = node.to_bytes();
    let back = Node::from_bytes(&bytes).expect("an encoded page decodes");
    assert_eq!(back.order, 9);
    assert_eq!(back.kind, NodeKind::Leaf);
    assert!(back.is_root);
    assert_eq!(back.keys, node.keys);
    assert_eq!(back.values, node.values);
    assert_eq!(back.get(&key(b"alpha")), None);
    assert_eq!(back.get(&key(b"beta")), Some(22));
}

#[test]
fn test_from_bytes_rejects_malformed() {
    assert!(matches!(Node::from_bytes(&vec![]), Err(DecodeError)));
    assert!(matches!(Node::from_bytes(&vec![0u8; 17]), Err(DecodeError)));
    let node = Node::new(5, NodeKind::Branch, false);
    let mut bytes = node.to_bytes();
    bytes[0] = 9; // no such node kind
    assert!(matches!(Node::from_bytes(&bytes), Err(DecodeError)));
    let mut truncated = node.to_bytes();
    truncated.pop();
    assert!(matches!(Node::from_bytes(&truncated), Err(DecodeError)));
}

#[test]
fn test_tree_empty_get() {
    let log = Log::new();
    let tree = BPlusTree::new(8, None);
    assert_eq!(tree.get(&log, &key(b"missing")), Ok(None));
}

#[test]
fn test_tree_insert_then_get() {
    let mut log = Log::new();
    let mut tree = BPlusTree::new(8, None);
    tree.insert(&mut log, &key(b"k"), 42).unwrap();
    assert_eq!(tree.get(&log, &key(b"k")), Ok(Some(42)));
    assert_eq!(tree.get(&log, &key(b"other")), Ok(None));
}

#[test]
fn test_tree_delete_never_inserted() {
    let mut log = Log::new();
    let mut tree = BPlusTree::new(8, None);
    tree.delete(&mut log, &key(b"never")).unwrap();
    assert_eq!(tree.get(&log, &key(b"never")), Ok(None));
}

#[test]
fn test_scenario_ascending_inserts_split() {
    // order 8; keys 1..=10 with values 100..=109 in ascending order
    let mut log = Log::new();
    let mut tree = BPlusTree::new(8, None);
    for k in 1u8..=10 {
        tree.insert(&mut log, &vec![k], 99 + k as u64).unwrap();
    }
    // at least one split happened: the root is no longer a leaf
    let root_pos = tree.root_position.expect("non-empty tree has a root");
    let rec = log.read_at(root_pos).unwrap();
    let root = Node::from_bytes(&rec.value).unwrap();
    assert_eq!(root.kind, NodeKind::Branch);
    assert_eq!(tree.get(&log, &vec![7u8]), Ok(Some(106)));
    for k in 1u8..=10 {
        assert_eq!(tree.get(&log, &vec![k]), Ok(Some(99 + k as u64)));
    }
}

#[test]
fn test_scenario_tombstone_then_reinsert() {
    let mut log = Log::new();
    let mut tree = BPlusTree::new(8, None);
    tree.insert(&mut log, &key(b"a"), 1).unwrap();
    tree.delete(&mut log, &key(b"a")).unwrap();
    assert_eq!(tree.get(&log, &key(b"a")), Ok(None));
    tree.insert(&mut log, &key(b"a"), 2).unwrap();
    assert_eq!(tree.get(&log, &key(b"a")), Ok(Some(2)));
}

#[test]
fn test_tree_dangling_root_fails() {
    let log = Log::new();
    let tree = BPlusTree::new(8, None);
    let broken = BPlusTree::new(tree.order, Some(5));
    assert!(broken.get(&log, &key(b"x")).is_err());
}

#[test]
fn test_tree_many_keys_mixed_order() {
    let mut log = Log::new();
    let mut tree = BPlusTree::new(4, None);
    let keys: Vec<u8> = vec![13, 2, 40, 7, 25, 1, 33, 18, 9, 28, 4, 21, 36, 11, 30];
    for k in keys.iter() {
        tree.insert(&mut log, &vec![*k], 1000 + *k as u64).unwrap();
    }
    for k in keys.iter() {
        assert_eq!(tree.get(&log, &vec![*k]), Ok(Some(1000 + *k as u64)));
    }
    tree.delete(&mut log, &vec![25u8]).unwrap();
    assert_eq!(tree.get(&log, &vec![25u8]), Ok(None));
    assert_eq!(tree.get(&log, &vec![28u8]), Ok(Some(1028)));
}

#[test]
fn test_tree_garbage_record_decode_error() {
    let mut log = Log::new();
    log.append(b"junk".to_vec(), vec![1, 2, 3]);
    let tree = BPlusTree::new(8, Some(0));
    assert!(matches!(tree.get(&log, &key(b"x")), Err(akv_btree::tree::TreeError::Decode)));
}

#[test]
fn test_to_bytes_exact_layout() {
    // kind byte, root byte, order and entry count as little-endian
    // u64s, then the entries
    let node = Node::new(5, NodeKind::Leaf, true);
    let bytes = node.to_bytes();
    assert_eq!(bytes.len(), 18);
    assert_eq!(bytes[0], 0); // leaf
    assert_eq!(bytes[1], 1); // root
    assert_eq!(&bytes[2..10], &[5, 0, 0, 0, 0, 0, 0, 0]);
    assert_eq!(&bytes[10..18], &[0u8; 8]);
    let mut one = Node::new(5, NodeKind::Branch, false);
    one.insert(&key(b"ab"), 0x0102);
    let bytes = one.to_bytes();
    // 18-byte header, 8-byte key length, 2 key bytes, tag, 8-byte value
    assert_eq!(bytes.len(), 18 + 8 + 2 + 1 + 8);
    assert_eq!(bytes[0], 1); // branch
    assert_eq!(bytes[1], 0);
    assert_eq!(&bytes[18..26], &[2, 0, 0, 0, 0, 0, 0, 0]);
    assert_eq!(&bytes[26..28], b"ab");
    assert_eq!(bytes[28], 1); // a present value
    assert_eq!(&bytes[29..37], &[2, 1, 0, 0, 0, 0, 0, 0]);
}

#[test]
fn test_branch_round_trip() {
    let mut node = Node::new(6, NodeKind::Branch, false);
    node.insert(&key(b"m"), 3);
    node.insert(&key(b"t"), 9);
    let back = Node::from_bytes(&node.to_bytes()).unwrap();
    assert_eq!(back.kind, NodeKind::Branch);
    assert!(!back.is_root);
    assert_eq!(back.order, 6);
    assert_eq!(back.keys, node.keys);
    assert_eq!(back.values, node.values);
}

#[test]
fn test_copy_on_write_appends_only() {
    let mut log = Log::new();
    let mut tree = BPlusTree::new(8, None);
    tree.insert(&mut log, &key(b"a"), 1).unwrap();
    let len_before = log.records.len();
    let first = log.read_at(0).unwrap();
    tree.insert(&mut log, &key(b"b"), 2).unwrap();
    assert!(log.records.len() > len_before);
    let first_again = log.read_at(0).unwrap();
    assert_eq!(first.key, first_again.key);
    assert_eq!(first.value, first_again.value);
}
