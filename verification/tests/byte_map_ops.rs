use trie::byte_map::ByteMap;
use trie::trie::TrieNode;

fn leaf_at(b: u8) -> TrieNode<u32> {
    TrieNode::leaf(b, vec![b], b as u32)
}

#[test]
fn empty_map_answers_every_query_with_nothing() {
    let m: ByteMap<u32> = ByteMap::new(256);
    assert_eq!(m.arity(), 256);
    assert!(m.is_empty());
    assert!(m.get(0).is_none());
    assert!(m.get(255).is_none());
    assert!(m.head().is_none());
    assert!(m.tail().is_none());
    assert!(m.prev(200).is_none());
    assert!(m.next(7).is_none());
    assert!(!m.is_head(0));
    assert!(!m.is_tail(255));
    assert!(m.keys().is_empty());
}

#[test]
fn set_then_get_returns_the_child() {
    let mut m: ByteMap<u32> = ByteMap::new(256);
    m.set(42, leaf_at(42));
    assert!(!m.is_empty());
    let child = m.get(42).unwrap();
    assert_eq!(child.node_key, 42);
    assert_eq!(child.val, Some(42));
    assert!(m.get(41).is_none());
}

#[test]
fn neighbour_queries_skip_unoccupied_slots() {
    let mut m: ByteMap<u32> = ByteMap::new(256);
    m.set(10, leaf_at(10));
    m.set(100, leaf_at(100));
    m.set(200, leaf_at(200));
    assert_eq!(m.prev(100), Some(10));
    assert_eq!(m.next(100), Some(200));
    assert_eq!(m.prev(10), None);
    assert_eq!(m.next(200), None);
    assert_eq!(m.prev(255), Some(200));
    assert_eq!(m.next(0), Some(10));
    assert_eq!(m.prev(11), Some(10));
    assert_eq!(m.next(199), Some(200));
}

#[test]
fn head_and_tail_are_the_extremes() {
    let mut m: ByteMap<u32> = ByteMap::new(256);
    m.set(10, leaf_at(10));
    m.set(100, leaf_at(100));
    m.set(200, leaf_at(200));
    assert_eq!(m.head(), Some(10));
    assert_eq!(m.tail(), Some(200));
    assert!(m.is_head(10));
    assert!(!m.is_head(100));
    assert!(m.is_tail(200));
    assert!(!m.is_tail(100));
    assert!(!m.is_head(11));
    assert!(!m.is_tail(199));
}

#[test]
fn keys_lists_occupied_bytes_in_ascending_order() {
    let mut m: ByteMap<u32> = ByteMap::new(256);
    m.set(200, leaf_at(200));
    m.set(10, leaf_at(10));
    m.set(100, leaf_at(100));
    assert_eq!(m.keys(), vec![10, 100, 200]);
}

#[test]
fn del_removes_and_reports_occupancy() {
    let mut m: ByteMap<u32> = ByteMap::new(256);
    m.set(10, leaf_at(10));
    m.set(100, leaf_at(100));
    assert!(m.del(10));
    assert!(!m.del(10));
    assert!(m.get(10).is_none());
    assert_eq!(m.head(), Some(100));
    assert!(m.del(100));
    assert!(m.is_empty());
}

#[test]
fn a_small_arity_map_ignores_bytes_outside_it() {
    let mut m: ByteMap<u32> = ByteMap::new(10);
    assert_eq!(m.arity(), 10);
    m.set(9, leaf_at(9));
    assert!(m.get(10).is_none());
    assert!(!m.del(10));
    assert_eq!(m.tail(), Some(9));
    assert!(m.next(9).is_none());
}

#[test]
fn replacing_a_slot_keeps_one_child() {
    let mut m: ByteMap<u32> = ByteMap::new(256);
    m.set(5, leaf_at(5));
    m.set(5, TrieNode::leaf(5, vec![5], 555));
    assert_eq!(m.get(5).unwrap().val, Some(555));
    assert_eq!(m.keys(), vec![5]);
}
