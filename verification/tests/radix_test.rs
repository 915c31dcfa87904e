use sledlite::node::Node;
use sledlite::node::BRANCH;
use sledlite::radix::RadixError;
use sledlite::radix::RadixTree;

#[test]
fn new_node_has_no_children_and_no_value() {
    let node = Node::new();
    assert_eq!(node.children.len(), BRANCH);
    assert_eq!(BRANCH, 256);
    assert!(node.value.is_none());
    assert_eq!(node.child(0), None);
    assert_eq!(node.child(255), None);
}

#[test]
fn get_of_absent_key_is_none() {
    let tree = RadixTree::new();
    assert_eq!(tree.get(b"hello").unwrap(), None);
}

#[test]
fn put_then_get_returns_the_value() {
    let mut tree = RadixTree::new();
    assert_eq!(tree.put(b"hello", b"world".to_vec()).unwrap(), None);
    assert_eq!(tree.get(b"hello").unwrap(), Some(b"world".to_vec()));
    assert_eq!(tree.get(b"hell").unwrap(), None);
    assert_eq!(tree.get(b"hello!").unwrap(), None);
}

#[test]
fn put_replaces_and_returns_the_old_value() {
    let mut tree = RadixTree::new();
    tree.put(b"hello", b"world".to_vec()).unwrap();
    assert_eq!(tree.put(b"hello", b"there".to_vec()).unwrap(), Some(b"world".to_vec()));
    assert_eq!(tree.get(b"hello").unwrap(), Some(b"there".to_vec()));
}

#[test]
fn insert_refuses_a_resident_key() {
    let mut tree = RadixTree::new();
    assert_eq!(tree.insert(b"hello", b"world".to_vec()).unwrap(), None);
    match tree.insert(b"hello", b"there".to_vec()) {
        Err(RadixError::AlreadyWritten { old }) => assert_eq!(old, b"world".to_vec()),
        other => panic!("unexpected {:?}", other),
    }
    assert_eq!(tree.get(b"hello").unwrap(), Some(b"world".to_vec()));
}

#[test]
fn remove_returns_the_value_and_clears_the_key() {
    let mut tree = RadixTree::new();
    tree.put(b"hello", b"world".to_vec()).unwrap();
    assert_eq!(tree.remove(b"hello").unwrap(), Some(b"world".to_vec()));
    assert_eq!(tree.get(b"hello").unwrap(), None);
    assert_eq!(tree.remove(b"hello").unwrap(), None);
    assert_eq!(tree.remove(b"never").unwrap(), None);
}

#[test]
fn empty_key_is_invalid() {
    let mut tree = RadixTree::new();
    assert!(matches!(tree.get(b""), Err(RadixError::InvalidKey)));
    assert!(matches!(tree.put(b"", b"v".to_vec()), Err(RadixError::InvalidKey)));
    assert!(matches!(tree.insert(b"", b"v".to_vec()), Err(RadixError::InvalidKey)));
    assert!(matches!(tree.remove(b""), Err(RadixError::InvalidKey)));
}

#[test]
fn empty_value_is_a_value() {
    let mut tree = RadixTree::new();
    tree.put(b"k", Vec::new()).unwrap();
    assert_eq!(tree.get(b"k").unwrap(), Some(Vec::new()));
}

#[test]
fn iter_all_is_in_bytewise_order() {
    let mut tree = RadixTree::new();
    for key in [&b"b"[..], b"ab", b"a", b"\xff", b"abc", b"\x00", b"aa"] {
        tree.put(key, key.to_vec()).unwrap();
    }
    tree.remove(b"aa").unwrap();
    let all = tree.iter_all();
    let keys: Vec<Vec<u8>> = all.iter().map(|e| e.0.clone()).collect();
    assert_eq!(
        keys,
        vec![
            b"\x00".to_vec(),
            b"a".to_vec(),
            b"ab".to_vec(),
            b"abc".to_vec(),
            b"b".to_vec(),
            b"\xff".to_vec()
        ]
    );
    for (key, value) in all {
        assert_eq!(key, value);
    }
}

#[test]
fn iter_all_of_empty_tree_is_empty() {
    assert!(RadixTree::new().iter_all().is_empty());
}

#[test]
fn keys_along_one_path_are_kept_apart() {
    let mut tree = RadixTree::new();
    tree.put(b"abc", b"3".to_vec()).unwrap();
    assert_eq!(tree.get(b"a").unwrap(), None);
    assert_eq!(tree.get(b"ab").unwrap(), None);
    tree.put(b"a", b"1".to_vec()).unwrap();
    assert_eq!(tree.remove(b"abc").unwrap(), Some(b"3".to_vec()));
    assert_eq!(tree.get(b"a").unwrap(), Some(b"1".to_vec()));
}

#[test]
fn iter_all_lists_no_empty_key() {
    let mut tree = RadixTree::new();
    assert!(tree.put(b"", b"v".to_vec()).is_err());
    tree.put(b"a", b"1".to_vec()).unwrap();
    tree.put(b"\x00", b"0".to_vec()).unwrap();
    let all = tree.iter_all();
    assert_eq!(all.len(), 2);
    assert!(all.iter().all(|e| !e.0.is_empty()));
    assert_eq!(tree.iter_all(), all);
}
