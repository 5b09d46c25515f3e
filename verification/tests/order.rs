use trie::trie::Trie;

fn next_rand(state: &mut u64) -> u64 {
    let mut x = *state;
    x ^= x << 13;
    x ^= x >> 7;
    x ^= x << 17;
    *state = x;
    x
}

#[test]
fn many_random_keys_round_trip_and_iterate_sorted() {
    let count: usize = 10000;
    let mut t: Trie<u64> = Trie::new(12).unwrap();
    let mut keys: Vec<Vec<u8>> = Vec::with_capacity(count);
    let mut st: u64 = 0x9e3779b97f4a7c15;
    for i in 0..count {
        let mut key = vec![0u8; 12];
        key[0..4].copy_from_slice(&(i as u32).to_be_bytes());
        key[4..12].copy_from_slice(&next_rand(&mut st).to_be_bytes());
        t.set(key.clone(), i as u64).unwrap();
        keys.push(key);
    }
    assert_eq!(t.len(), count);
    for (i, key) in keys.iter().enumerate() {
        assert_eq!(t.get(key.clone()).unwrap(), i as u64);
    }
    let mut sorted = keys.clone();
    sorted.sort();
    let mut it = t.iter();
    for key in sorted.iter() {
        let p = it.next().unwrap();
        assert_eq!(&p.0, key);
    }
    assert!(it.next().is_none());
}

#[test]
fn iteration_is_sorted_after_interleaved_mutations() {
    let mut t: Trie<u32> = Trie::new(2).unwrap();
    t.set(vec![9, 0], 1).unwrap();
    t.set(vec![3, 200], 2).unwrap();
    t.set(vec![3, 4], 3).unwrap();
    assert!(t.del(vec![3, 200]));
    t.set(vec![0, 255], 4).unwrap();
    t.set(vec![255, 0], 5).unwrap();
    assert!(t.del(vec![9, 0]));
    t.set(vec![3, 5], 6).unwrap();
    t.set(vec![3, 4], 7).unwrap();
    let expected: Vec<(Vec<u8>, u32)> =
        vec![(vec![0, 255], 4), (vec![3, 4], 7), (vec![3, 5], 6), (vec![255, 0], 5)];
    assert_eq!(t.len(), expected.len());
    let mut it = t.iter();
    for (key, val) in expected.iter() {
        let p = it.next().unwrap();
        assert_eq!(&p.0, key);
        assert_eq!(&p.1, val);
    }
    assert!(it.next().is_none());
}

#[test]
fn iteration_is_restartable() {
    let mut t: Trie<u32> = Trie::new(1).unwrap();
    t.set(vec![2], 2).unwrap();
    t.set(vec![1], 1).unwrap();
    let mut first = t.iter();
    assert_eq!(first.next().unwrap().0, vec![1]);
    let mut second = t.iter();
    assert_eq!(second.next().unwrap().0, vec![1]);
    assert_eq!(first.next().unwrap().0, vec![2]);
    assert!(first.next().is_none());
    assert_eq!(second.next().unwrap().0, vec![2]);
    assert!(second.next().is_none());
}

#[test]
fn a_cloned_iterator_continues_from_the_same_place() {
    let mut t: Trie<u32> = Trie::new(1).unwrap();
    t.set(vec![3], 3).unwrap();
    t.set(vec![8], 8).unwrap();
    let mut it = t.iter();
    assert_eq!(it.next().unwrap().0, vec![3]);
    let mut copy = it.clone();
    assert_eq!(it.next().unwrap().0, vec![8]);
    assert_eq!(copy.next().unwrap().0, vec![8]);
    assert!(copy.next().is_none());
}

#[test]
fn reverse_iteration_yields_descending_keys() {
    let mut t: Trie<&str> = Trie::new(3).unwrap();
    t.set(vec![1, 2, 3], "A").unwrap();
    t.set(vec![1, 2, 5], "C").unwrap();
    t.set(vec![0, 9, 9], "Z").unwrap();
    let mut it = t.iter_rev();
    let p1 = it.next().unwrap();
    assert_eq!(p1.0, vec![1, 2, 5]);
    assert_eq!(p1.1, "C");
    assert_eq!(it.next().unwrap().0, vec![1, 2, 3]);
    assert_eq!(it.next().unwrap().0, vec![0, 9, 9]);
    assert!(it.next().is_none());
}

#[test]
fn iteration_of_an_empty_trie_yields_nothing() {
    let t: Trie<u32> = Trie::new(4).unwrap();
    let mut it = t.iter();
    assert!(it.next().is_none());
    assert!(it.next().is_none());
}

#[test]
fn deep_and_shallow_branches_stay_ordered() {
    let mut t: Trie<u8> = Trie::new(4).unwrap();
    t.set(vec![1, 0, 0, 1], 1).unwrap();
    t.set(vec![0, 255, 255, 255], 0).unwrap();
    t.set(vec![1, 0, 0, 0], 2).unwrap();
    t.set(vec![1, 0, 1, 0], 3).unwrap();
    let mut it = t.iter();
    assert_eq!(it.next().unwrap().0, vec![0, 255, 255, 255]);
    assert_eq!(it.next().unwrap().0, vec![1, 0, 0, 0]);
    assert_eq!(it.next().unwrap().0, vec![1, 0, 0, 1]);
    assert_eq!(it.next().unwrap().0, vec![1, 0, 1, 0]);
    assert!(it.next().is_none());
}
