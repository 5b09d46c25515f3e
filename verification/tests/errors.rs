use trie::error::ErrorKind;
use trie::error::TrieError;
use trie::trie::Trie;

#[test]
fn error_constructors_keep_their_kind() {
    let e = TrieError::new(ErrorKind::Unexpect);
    assert!(matches!(e.kind(), ErrorKind::Unexpect));
    let f = TrieError::from(ErrorKind::Notfound);
    assert!(matches!(f.kind(), ErrorKind::Notfound));
    let c = TrieError::new(ErrorKind::Common(7, String::from("seven")));
    match c.kind() {
        ErrorKind::Common(code, msg) => {
            assert_eq!(*code, 7);
            assert_eq!(msg, "seven");
        },
        _ => panic!("expected a common error"),
    }
}

#[test]
fn zero_width_construction_is_a_configuration_error() {
    let r: Result<Trie<u32>, TrieError> = Trie::new(0);
    match r {
        Err(e) => assert!(matches!(e.kind(), ErrorKind::Common(_, _))),
        Ok(_) => panic!("a zero key width must be rejected"),
    }
}

#[test]
fn bad_arity_construction_is_a_configuration_error() {
    let zero: Result<Trie<u32>, TrieError> = Trie::with_arity(3, 0);
    match zero {
        Err(e) => assert!(matches!(e.kind(), ErrorKind::Common(_, _))),
        Ok(_) => panic!("a zero arity must be rejected"),
    }
    let wide: Result<Trie<u32>, TrieError> = Trie::with_arity(3, 257);
    match wide {
        Err(e) => assert!(matches!(e.kind(), ErrorKind::Common(_, _))),
        Ok(_) => panic!("an arity above 256 must be rejected"),
    }
    let ok: Result<Trie<u32>, TrieError> = Trie::with_arity(3, 256);
    assert!(ok.is_ok());
}

#[test]
fn a_byte_outside_a_narrow_alphabet_is_rejected() {
    let mut t: Trie<u32> = Trie::with_arity(3, 10).unwrap();
    t.set(vec![9, 0, 9], 909).unwrap();
    let e = t.set(vec![1, 200, 1], 1).unwrap_err();
    match e.kind() {
        ErrorKind::Common(code, _) => assert_eq!(*code, 2),
        _ => panic!("expected a common error"),
    }
    assert_eq!(t.len(), 1);
    assert!(matches!(t.get(vec![1, 200, 1]).unwrap_err().kind(), ErrorKind::Notfound));
    assert!(!t.del(vec![1, 200, 1]));
    assert_eq!(t.get(vec![9, 0, 9]).unwrap(), 909);
}

#[test]
fn a_narrow_alphabet_still_round_trips() {
    let mut t: Trie<u32> = Trie::with_arity(2, 10).unwrap();
    t.set(vec![0, 9], 9).unwrap();
    t.set(vec![9, 0], 90).unwrap();
    assert_eq!(t.get(vec![0, 9]).unwrap(), 9);
    assert_eq!(t.get(vec![9, 0]).unwrap(), 90);
    let mut it = t.iter();
    assert_eq!(it.next().unwrap().0, vec![0, 9]);
    assert_eq!(it.next().unwrap().0, vec![9, 0]);
    assert!(it.next().is_none());
}
