use trie::error::ErrorKind;
use trie::trie::Trie;
use trie::trie::TrieNode;

#[test]
fn it_works() {
    let result = 2 + 2;
    assert_eq!(result, 4);
}

#[test]
fn round_trip_single_key() {
    let mut t: Trie<&str> = Trie::new(3).unwrap();
    t.set(vec![1, 2, 3], "A").unwrap();
    assert_eq!(t.get(vec![1, 2, 3]).unwrap(), "A");
    assert_eq!(t.len(), 1);
}

#[test]
fn neighbouring_keys_resolve_separately() {
    let mut t: Trie<&str> = Trie::new(3).unwrap();
    t.set(vec![1, 2, 3], "A").unwrap();
    t.set(vec![1, 2, 4], "B").unwrap();
    assert_eq!(t.get(vec![1, 2, 3]).unwrap(), "A");
    assert_eq!(t.get(vec![1, 2, 4]).unwrap(), "B");
    assert!(matches!(t.get(vec![1, 2, 5]).unwrap_err().kind(), ErrorKind::Notfound));
}

#[test]
fn wrong_width_key_is_rejected_without_mutation() {
    let mut t: Trie<&str> = Trie::new(3).unwrap();
    let e = t.set(vec![1, 2], "X").unwrap_err();
    assert!(matches!(e.kind(), ErrorKind::KeySizeNotMatch));
    assert_eq!(t.len(), 0);
    let e2 = t.get(vec![1, 2, 3, 4]).unwrap_err();
    assert!(matches!(e2.kind(), ErrorKind::KeySizeNotMatch));
    assert!(!t.del(vec![1, 2]));
    assert_eq!(t.len(), 0);
    let mut it = t.iter();
    assert!(it.next().is_none());
}

#[test]
fn absent_key_reports_notfound() {
    let mut t: Trie<u32> = Trie::new(2).unwrap();
    t.set(vec![7, 7], 77).unwrap();
    assert!(matches!(t.get(vec![7, 8]).unwrap_err().kind(), ErrorKind::Notfound));
    assert!(matches!(t.get(vec![8, 7]).unwrap_err().kind(), ErrorKind::Notfound));
}

#[test]
fn overwrite_keeps_length_and_returns_second_value() {
    let mut t: Trie<u32> = Trie::new(3).unwrap();
    t.set(vec![9, 9, 9], 1).unwrap();
    assert_eq!(t.len(), 1);
    t.set(vec![9, 9, 9], 2).unwrap();
    assert_eq!(t.len(), 1);
    assert_eq!(t.get(vec![9, 9, 9]).unwrap(), 2);
}

#[test]
fn deletion_removes_key_and_decrements_length() {
    let mut t: Trie<u32> = Trie::new(3).unwrap();
    t.set(vec![4, 5, 6], 10).unwrap();
    t.set(vec![200, 0, 0], 20).unwrap();
    assert_eq!(t.len(), 2);
    assert!(t.del(vec![4, 5, 6]));
    assert!(matches!(t.get(vec![4, 5, 6]).unwrap_err().kind(), ErrorKind::Notfound));
    assert_eq!(t.len(), 1);
    assert_eq!(t.get(vec![200, 0, 0]).unwrap(), 20);
}

#[test]
fn deleting_the_middle_key_keeps_the_others_in_order() {
    let mut t: Trie<&str> = Trie::new(3).unwrap();
    t.set(vec![1, 2, 3], "A").unwrap();
    t.set(vec![1, 2, 4], "B").unwrap();
    t.set(vec![1, 2, 5], "C").unwrap();
    assert!(t.del(vec![1, 2, 4]));
    assert!(matches!(t.get(vec![1, 2, 4]).unwrap_err().kind(), ErrorKind::Notfound));
    let mut it = t.iter();
    let first = it.next().unwrap();
    assert_eq!(first.0, vec![1, 2, 3]);
    assert_eq!(first.1, "A");
    let second = it.next().unwrap();
    assert_eq!(second.0, vec![1, 2, 5]);
    assert_eq!(second.1, "C");
    assert!(it.next().is_none());
}

#[test]
fn deleting_an_absent_key_is_a_no_op() {
    let mut t: Trie<u32> = Trie::new(3).unwrap();
    t.set(vec![4, 5, 6], 10).unwrap();
    assert!(!t.del(vec![4, 5, 7]));
    assert_eq!(t.len(), 1);
    assert!(t.del(vec![4, 5, 6]));
    assert!(!t.del(vec![4, 5, 6]));
    assert_eq!(t.len(), 0);
}

#[test]
fn insertion_order_does_not_matter() {
    let mut t: Trie<i32> = Trie::new(3).unwrap();
    t.set(vec![2, 2, 3], 20).unwrap();
    t.set(vec![1, 2, 3], 10).unwrap();
    assert_eq!(t.get(vec![1, 2, 3]).unwrap(), 10);
    assert_eq!(t.get(vec![2, 2, 3]).unwrap(), 20);
    let mut it = t.iter();
    assert_eq!(it.next().unwrap().0, vec![1, 2, 3]);
    assert_eq!(it.next().unwrap().0, vec![2, 2, 3]);
    assert!(it.next().is_none());
}

#[test]
fn reinserting_a_deleted_key_works() {
    let mut t: Trie<u32> = Trie::new(2).unwrap();
    t.set(vec![1, 1], 11).unwrap();
    assert!(t.del(vec![1, 1]));
    t.set(vec![1, 1], 12).unwrap();
    assert_eq!(t.get(vec![1, 1]).unwrap(), 12);
    assert_eq!(t.len(), 1);
}

#[test]
fn node_constructors_expose_their_parts() {
    let leaf: TrieNode<u8> = TrieNode::leaf(3, vec![1, 2, 3], 9);
    assert_eq!(leaf.node_key, 3);
    assert_eq!(leaf.key, Some(vec![1, 2, 3]));
    assert_eq!(leaf.into_val(), Some(9));
    let inner: TrieNode<u8> = TrieNode::new(5, 256);
    assert_eq!(inner.node_key, 5);
    assert!(inner.key.is_none());
    assert!(inner.val.is_none());
    let root: TrieNode<u8> = TrieNode::root(256);
    assert_eq!(root.node_key, 0);
    assert!(root.into_val().is_none());
}
