//! The trie proper: fixed key width, a root internal node, and the
//! set / get / del / iterate operations.
//!
//! A [`Trie`] stores values under byte-sequence keys of one fixed width `W`,
//! chosen at construction together with the alphabet size (arity) `N`.
//! Internally it is an ownership tree: every internal node owns a
//! [`ByteMap`] of children for the next key byte, and a key's value lives in
//! a terminal node at depth `W` that records the full key. The abstract
//! model of a trie is the map from stored keys to values; every operation's
//! contract is stated against that model.

use vstd::prelude::*;

use crate::byte_map::ByteMap;
use crate::byte_map::occupied;
use crate::error::ErrorKind;
use crate::error::TrieError;

verus! {

/// One trie node. Internal nodes carry `children` and no key or value;
/// terminal nodes carry the full `key` and its value and no children.
/// `node_key` is the key byte that selects this node in its parent.
pub struct TrieNode<T> {
    pub node_key: u8,
    pub key: Option<Vec<u8>>,
    pub val: Option<T>,
    pub children: Option<ByteMap<T>>,
}

/// The child of `node` reached over byte `b`, if `node` has children and
/// slot `b` exists and is occupied.
pub open spec fn child_at<T>(node: TrieNode<T>, b: int) -> Option<TrieNode<T>> {
    match node.children {
        Some(bm) => if 0 <= b < bm@.len() {
            bm@[b]
        } else {
            None
        },
        None => None,
    }
}

/// Well-formed subtree rooted at `node`, which sits at the end of `path`
/// in a trie of key width `w` and arity `n`: nodes above depth `w` are
/// internal with exactly `n` child slots, nodes at depth `w` are terminal
/// and record the full path as their key, and each node's `node_key` is the
/// byte that selects it.
pub open spec fn wf_node<T>(node: TrieNode<T>, path: Seq<u8>, w: nat, n: nat) -> bool
    decreases w - path.len(),
{
    &&& (path.len() > 0 ==> node.node_key == path.last())
    &&& if path.len() >= w {
        &&& node.key is Some
        &&& node.key->0@ == path
        &&& node.val is Some
        &&& node.children is None
    } else {
        &&& node.key is None
        &&& node.val is None
        &&& node.children is Some
        &&& node.children->0@.len() == n
        &&& forall|b: int|
            #[trigger] child_at(node, b) is Some ==> wf_node(
                child_at(node, b)->0,
                path.push(b as u8),
                w,
                n,
            )
    }
}

/// No internal node strictly below `node` (which sits at depth `d` of a
/// trie of width `w`) is left without an occupied child slot. The node
/// itself is not constrained, so this predicate holds of a root whose last
/// entry was deleted.
pub open spec fn pruned<T>(node: TrieNode<T>, d: nat, w: nat) -> bool
    decreases w - d,
{
    d < w ==> forall|b: int|
        #[trigger] child_at(node, b) is Some ==> {
            &&& (d + 1 < w ==> has_child(child_at(node, b)->0))
            &&& pruned(child_at(node, b)->0, d + 1, w)
        }
}

/// Holds when some child slot of `node` is occupied.
pub open spec fn has_child<T>(node: TrieNode<T>) -> bool {
    exists|b: int| #[trigger] child_at(node, b) is Some
}

/// The value stored for `key` in the subtree rooted at `node`, following
/// bytes `key[i..]`; `None` when the path breaks off.
pub open spec fn node_get<T>(node: TrieNode<T>, key: Seq<u8>, i: nat) -> Option<T>
    decreases key.len() - i,
{
    if i >= key.len() {
        node.val
    } else {
        match child_at(node, key[i as int] as int) {
            Some(child) => node_get(child, key, i + 1),
            None => None,
        }
    }
}

/// Every byte of `key` lies below the arity `n`.
pub open spec fn key_in_range(key: Seq<u8>, n: nat) -> bool {
    forall|j: int| 0 <= j < key.len() ==> (key[j] as nat) < n
}

/// `a` and `b` have the same length and agree from position `i` on.
/// `node_get` at depth `i` reads exactly the length and the bytes from `i`
/// on, so an update along `b` leaves `node_get` of every non-matching `a`
/// unchanged.
pub open spec fn suffix_match(a: Seq<u8>, b: Seq<u8>, i: nat) -> bool {
    &&& a.len() == b.len()
    &&& i <= a.len()
    &&& a.subrange(i as int, a.len() as int) == b.subrange(i as int, b.len() as int)
}

/// Strict lexicographic order on byte sequences.
pub open spec fn lex_lt(a: Seq<u8>, b: Seq<u8>) -> bool
    decreases a.len(),
{
    if b.len() == 0 {
        false
    } else if a.len() == 0 {
        true
    } else if a[0] < b[0] {
        true
    } else if a[0] == b[0] {
        lex_lt(a.drop_first(), b.drop_first())
    } else {
        false
    }
}

/// How many terminal nodes the subtree rooted at `node` (at depth `d`,
/// width `w`) holds.
pub open spec fn subtree_count<T>(node: TrieNode<T>, d: nat, w: nat) -> nat
    decreases w - d, 0nat,
{
    if d >= w {
        1
    } else {
        match node.children {
            None => 0,
            Some(bm) => slots_count(bm@, d + 1, w),
        }
    }
}

/// Sum of [`subtree_count`] over a sequence of child slots at depth `d`.
pub open spec fn slots_count<T>(s: Seq<Option<TrieNode<T>>>, d: nat, w: nat) -> nat
    decreases w - d, s.len(),
{
    if s.len() == 0 || d > w {
        0
    } else {
        slots_count(s.drop_last(), d, w) + match s.last() {
            None => 0nat,
            Some(child) => subtree_count(child, d, w),
        }
    }
}

/// The `(key, value)` pairs stored in the subtree rooted at `node` (at
/// depth `d`, width `w`), in ascending slot order level by level — that
/// is, in ascending lexicographic key order.
pub open spec fn subtree_pairs<T>(node: TrieNode<T>, d: nat, w: nat) -> Seq<(Seq<u8>, T)>
    decreases w - d, 0nat,
{
    if d >= w {
        match (node.key, node.val) {
            (Some(k), Some(v)) => seq![(k@, v)],
            _ => Seq::empty(),
        }
    } else {
        match node.children {
            None => Seq::empty(),
            Some(bm) => slots_pairs(bm@, d + 1, w),
        }
    }
}

/// Concatenation of [`subtree_pairs`] over a sequence of child slots at
/// depth `d`, in slot order.
pub open spec fn slots_pairs<T>(s: Seq<Option<TrieNode<T>>>, d: nat, w: nat) -> Seq<(Seq<u8>, T)>
    decreases w - d, s.len(),
{
    if s.len() == 0 || d > w {
        Seq::empty()
    } else {
        slots_pairs(s.drop_last(), d, w) + match s.last() {
            None => Seq::<(Seq<u8>, T)>::empty(),
            Some(child) => subtree_pairs(child, d, w),
        }
    }
}

/// A sequence of owned pairs, seen at the spec level.
pub open spec fn pairs_vm<T>(v: Seq<(Vec<u8>, T)>) -> Seq<(Seq<u8>, T)> {
    Seq::new(v.len(), |i: int| (v[i].0@, v[i].1))
}

impl<T> TrieNode<T> {
    /// The distinguished root node: internal, selected by no byte.
    pub fn root(arity: usize) -> (node: TrieNode<T>)
        requires
            arity <= 256,
        ensures
            node.node_key == 0,
            node.key is None,
            node.val is None,
            node.children is Some,
            node.children->0@.len() == arity,
            forall|b: int| child_at(node, b) is None,
    {
        let node = TrieNode { node_key: 0, key: None, val: None, children: Some(ByteMap::new(arity)) };
        node
    }

    /// A fresh internal node selected by byte `k`, with no children yet.
    pub fn new(k: u8, arity: usize) -> (node: TrieNode<T>)
        requires
            arity <= 256,
        ensures
            node.node_key == k,
            node.key is None,
            node.val is None,
            node.children is Some,
            node.children->0@.len() == arity,
            forall|b: int| child_at(node, b) is None,
    {
        let node = TrieNode { node_key: k, key: None, val: None, children: Some(ByteMap::new(arity)) };
        node
    }

    /// A terminal node selected by byte `k`, holding the full `key` and its
    /// value.
    pub fn leaf(k: u8, key: Vec<u8>, val: T) -> (node: TrieNode<T>)
        ensures
            node.node_key == k,
            node.key == Some(key),
            node.val == Some(val),
            node.children is None,
    {
        TrieNode { node_key: k, key: Some(key), val: Some(val), children: None }
    }

    /// Consumes the node and hands out its stored value, if any.
    pub fn into_val(self) -> (r: Option<T>)
        ensures
            r == self.val,
    {
        self.val
    }
}

/// The container proper: a root internal node, the configured key width and
/// arity, and the count of stored entries.
pub struct Trie<T> {
    key_size: usize,
    arity: usize,
    size: usize,
    root: TrieNode<T>,
}

impl<T> View for Trie<T> {
    type V = Map<Seq<u8>, T>;

    /// The abstract model: the map from every stored key to its value.
    open spec fn view(&self) -> Map<Seq<u8>, T> {
        Map::new(
            |k: Seq<u8>| k.len() == self.width() && node_get(self.root_spec(), k, 0) is Some,
            |k: Seq<u8>| node_get(self.root_spec(), k, 0)->0,
        )
    }
}

impl<T> Trie<T> {
    /// The configured key width `W`.
    pub closed spec fn width(&self) -> nat {
        self.key_size as nat
    }

    /// The configured alphabet size `N`.
    pub closed spec fn arity_spec(&self) -> nat {
        self.arity as nat
    }

    /// The stored entry count.
    pub closed spec fn len_spec(&self) -> nat {
        self.size as nat
    }

    /// The root node.
    pub closed spec fn root_spec(&self) -> TrieNode<T> {
        self.root
    }

    /// The trie's invariant: the tree below the root is well formed, no
    /// internal node but the root is childless, and the entry count equals
    /// the number of terminal nodes.
    pub open spec fn wf(&self) -> bool {
        &&& 1 <= self.width()
        &&& 1 <= self.arity_spec() <= 256
        &&& wf_node(self.root_spec(), Seq::empty(), self.width(), self.arity_spec())
        &&& pruned(self.root_spec(), 0, self.width())
        &&& self.len_spec() == subtree_count(self.root_spec(), 0, self.width())
    }

    /// The stored entry count.
    pub fn len(&self) -> (r: usize)
        ensures
            r == self.len_spec(),
    {
        self.size
    }

    /// An empty trie for keys of exactly `key_size` bytes over the full
    /// byte alphabet. A width of zero is a configuration error.
    pub fn new(key_size: usize) -> (r: Result<Trie<T>, TrieError>)
        ensures
            match r {
                Ok(t) => {
                    &&& key_size >= 1
                    &&& t.wf()
                    &&& t.width() == key_size
                    &&& t.arity_spec() == 256
                    &&& t@ == Map::<Seq<u8>, T>::empty()
                    &&& t.len_spec() == 0
                },
                Err(e) => key_size == 0 && (e.kind_spec() matches ErrorKind::Common(c, _) && c
                    == 1),
            },
    {
        Self::with_arity(key_size, 256)
    }

    /// An empty trie for keys of exactly `key_size` bytes over the alphabet
    /// `0..arity`. A width of zero, a zero arity or an arity above 256 is a
    /// configuration error.
    pub fn with_arity(key_size: usize, arity: usize) -> (r: Result<Trie<T>, TrieError>)
        ensures
            match r {
                Ok(t) => {
                    &&& key_size >= 1
                    &&& 1 <= arity <= 256
                    &&& t.wf()
                    &&& t.width() == key_size
                    &&& t.arity_spec() == arity
                    &&& t@ == Map::<Seq<u8>, T>::empty()
                    &&& t.len_spec() == 0
                },
                Err(e) => (key_size == 0 || arity == 0 || arity > 256) && (e.kind_spec()
                    matches ErrorKind::Common(c, _) && c == 1),
            },
    {
        if key_size == 0 {
            return Err(TrieError::new(ErrorKind::Common(1, "key width must be at least one".to_owned())));
        }
        if arity == 0 || arity > 256 {
            return Err(TrieError::new(ErrorKind::Common(1, "arity must lie between 1 and 256".to_owned())));
        }
        let t = Trie { key_size, arity, size: 0, root: TrieNode::root(arity) };
        proof {
            assert forall|j: int| 0 <= j < t.root.children->0@.len() implies t.root.children->0@[j]
                is None by {
                assert(child_at(t.root, j) is None);
            }
            lemma_slots_count_vacant(t.root.children->0@, 1, t.key_size as nat);
            assert(t@ =~= Map::<Seq<u8>, T>::empty());
        }
        Ok(t)
    }
}

/// Walks `key[i..]` from `node` and reports whether a value is stored at
/// the end of the path.
fn node_contains<T>(node: &TrieNode<T>, key: &Vec<u8>, i: usize) -> (r: bool)
    requires
        i <= key@.len(),
    ensures
        r == (node_get(*node, key@, i as nat) is Some),
    decreases key@.len() - i,
{
    if i == key.len() {
        node.val.is_some()
    } else {
        let b = key[i];
        match &node.children {
            None => {
                assert(child_at(*node, b as int) is None);
                false
            },
            Some(bm) => {
                match bm.get(b) {
                    None => {
                        assert(child_at(*node, b as int) is None);
                        false
                    },
                    Some(child) => {
                        assert(child_at(*node, b as int) == Some(*child));
                        node_contains(child, key, i + 1)
                    },
                }
            },
        }
    }
}

impl<T: Copy> Trie<T> {
    /// Looks the key up and returns a copy of its value.
    ///
    /// Succeeds exactly on keys of the configured width that the trie
    /// holds; a key of another width is rejected as `KeySizeNotMatch`, and
    /// a key of the right width that is absent reports `Notfound`.
    pub fn get(&self, key: Vec<u8>) -> (r: Result<T, TrieError>)
        requires
            self.wf(),
        ensures
            match r {
                Ok(v) => {
                    &&& key@.len() == self.width()
                    &&& self@.contains_key(key@)
                    &&& v == self@[key@]
                },
                Err(e) => match e.kind_spec() {
                    ErrorKind::KeySizeNotMatch => key@.len() != self.width(),
                    ErrorKind::Notfound => key@.len() == self.width() && !self@.contains_key(key@),
                    _ => false,
                },
            },
    {
        if key.len() != self.key_size {
            return Err(TrieError::new(ErrorKind::KeySizeNotMatch));
        }
        match node_lookup(&self.root, &key, 0) {
            Some(v) => Ok(v),
            None => Err(TrieError::new(ErrorKind::Notfound)),
        }
    }
}

/// Walks `key[i..]` from `node` and copies out the value stored at the end
/// of the path, if any.
fn node_lookup<T: Copy>(node: &TrieNode<T>, key: &Vec<u8>, i: usize) -> (r: Option<T>)
    requires
        i <= key@.len(),
    ensures
        r == node_get(*node, key@, i as nat),
    decreases key@.len() - i,
{
    if i == key.len() {
        node.val
    } else {
        let b = key[i];
        match &node.children {
            None => {
                assert(child_at(*node, b as int) is None);
                None
            },
            Some(bm) => {
                match bm.get(b) {
                    None => {
                        assert(child_at(*node, b as int) is None);
                        None
                    },
                    Some(child) => {
                        assert(child_at(*node, b as int) == Some(*child));
                        node_lookup(child, key, i + 1)
                    },
                }
            },
        }
    }
}

/// Agreement of two equal-length keys from position `i` on splits into
/// agreement at `i` and agreement from `i + 1` on.
proof fn lemma_suffix_match_step(a: Seq<u8>, b: Seq<u8>, i: nat)
    requires
        a.len() == b.len(),
        i < a.len(),
    ensures
        suffix_match(a, b, i) <==> (a[i as int] == b[i as int] && suffix_match(a, b, i + 1)),
{
    let n = a.len() as int;
    if suffix_match(a, b, i) {
        assert(a[i as int] == a.subrange(i as int, n)[0]);
        assert(b[i as int] == b.subrange(i as int, n)[0]);
        assert forall|j: int| #![trigger a.subrange((i + 1) as int, n)[j]] 0 <= j < n - i - 1
            implies a.subrange((i + 1) as int, n)[j] == b.subrange((i + 1) as int, n)[j] by {
            assert(a.subrange((i + 1) as int, n)[j] == a.subrange(i as int, n)[j + 1]);
            assert(b.subrange((i + 1) as int, n)[j] == b.subrange(i as int, n)[j + 1]);
        }
        assert(a.subrange((i + 1) as int, n) =~= b.subrange((i + 1) as int, n));
    }
    if a[i as int] == b[i as int] && suffix_match(a, b, i + 1) {
        assert forall|j: int| #![trigger a.subrange(i as int, n)[j]] 0 <= j < n - i
            implies a.subrange(i as int, n)[j] == b.subrange(i as int, n)[j] by {
            if j == 0 {
                assert(a.subrange(i as int, n)[0] == a[i as int]);
                assert(b.subrange(i as int, n)[0] == b[i as int]);
            } else {
                assert(a.subrange(i as int, n)[j] == a.subrange((i + 1) as int, n)[j - 1]);
                assert(b.subrange(i as int, n)[j] == b.subrange((i + 1) as int, n)[j - 1]);
            }
        }
        assert(a.subrange(i as int, n) =~= b.subrange(i as int, n));
    }
}

/// Replacing one slot changes the terminal count by the difference between
/// the new and the old slot's own count.
proof fn lemma_slots_count_update<T>(
    s: Seq<Option<TrieNode<T>>>,
    d: nat,
    w: nat,
    b: int,
    v: Option<TrieNode<T>>,
)
    requires
        0 <= b < s.len(),
        d <= w,
    ensures
        slots_count(s.update(b, v), d, w) + (match s[b] {
            None => 0nat,
            Some(c) => subtree_count(c, d, w),
        }) == slots_count(s, d, w) + (match v {
            None => 0nat,
            Some(c) => subtree_count(c, d, w),
        }),
    decreases s.len(),
{
    let s2 = s.update(b, v);
    if b == s.len() - 1 {
        assert(s2.drop_last() =~= s.drop_last());
        assert(s2.last() == v);
        assert(s.last() == s[b]);
    } else {
        assert(s2.drop_last() =~= s.drop_last().update(b, v));
        assert(s2.last() == s.last());
        lemma_slots_count_update(s.drop_last(), d, w, b, v);
    }
}

/// An element-for-element copy of a key.
fn copy_key(key: &Vec<u8>) -> (r: Vec<u8>)
    ensures
        r@ == key@,
{
    let mut out: Vec<u8> = Vec::new();
    let mut i: usize = 0;
    while i < key.len()
        invariant
            i <= key@.len(),
            out@.len() == i,
            forall|j: int| 0 <= j < i ==> out@[j] == key@[j],
        decreases key@.len() - i,
    {
        out.push(key[i]);
        i = i + 1;
    }
    proof {
        assert(out@ =~= key@);
    }
    out
}

/// Builds the single path that stores `key[j..]`, starting with the node
/// selected by `key[j - 1]`: a chain of internal nodes ending in the
/// terminal that holds `key` and `val`.
fn build_subtree<T>(key: &Vec<u8>, j: usize, val: T, arity: usize) -> (node: TrieNode<T>)
    requires
        1 <= j <= key@.len(),
        key_in_range(key@, arity as nat),
        arity <= 256,
    ensures
        wf_node(node, key@.subrange(0, j as int), key@.len() as nat, arity as nat),
        pruned(node, j as nat, key@.len() as nat),
        node_get(node, key@, j as nat) == Some(val),
        forall|k: Seq<u8>|
            k.len() == key@.len() && !suffix_match(k, key@, j as nat) ==> node_get(
                node,
                k,
                j as nat,
            ) is None,
        node.node_key == key@[j - 1],
        subtree_count(node, j as nat, key@.len() as nat) == 1,
        j < key@.len() ==> has_child(node),
    decreases key@.len() - j,
{
    let ghost w = key@.len() as nat;
    let ghost n = arity as nat;
    let ghost path = key@.subrange(0, j as int);
    let kb = key[j - 1];
    if j == key.len() {
        let stored = copy_key(key);
        let node = TrieNode::leaf(kb, stored, val);
        proof {
            assert(path =~= key@);
            assert(path.last() == key@[j - 1]);
            assert forall|k: Seq<u8>|
                k.len() == key@.len() && !suffix_match(k, key@, j as nat) implies node_get(
                node,
                k,
                j as nat,
            ) is None by {
                assert(k.subrange(j as int, k.len() as int) =~= key@.subrange(
                    j as int,
                    key@.len() as int,
                ));
                assert(suffix_match(k, key@, j as nat));
            }
        }
        node
    } else {
        let mut bm = ByteMap::new(arity);
        let cb = key[j];
        proof {
            assert((key@[j as int] as nat) < n);
        }
        let child = build_subtree(key, j + 1, val, arity);
        let ghost vacant = bm@;
        bm.put_slot(cb, Box::new(child));
        let node = TrieNode { node_key: kb, key: None, val: None, children: Some(bm) };
        proof {
            assert(key@.subrange(0, (j + 1) as int) =~= path.push(cb));
            assert(node.children->0@ == vacant.update(cb as int, Some(child)));
            assert forall|b: int| #[trigger] child_at(node, b) is Some implies b == cb as int
                && child_at(node, b) == Some(child) by {}
            assert(child_at(node, cb as int) == Some(child));
            // well-formedness and pruning of the one-child node
            assert forall|b: int| #[trigger] child_at(node, b) is Some implies wf_node(
                child_at(node, b)->0,
                path.push(b as u8),
                w,
                n,
            ) by {
                assert(b == cb as int);
                assert(path.push(b as u8) == path.push(cb));
            }
            assert(wf_node(node, path, w, n));
            assert forall|b: int| #[trigger] child_at(node, b) is Some implies ((j as nat + 1 < w
                ==> has_child(child_at(node, b)->0)) && pruned(child_at(node, b)->0, j as nat + 1, w)) by {
                assert(b == cb as int);
            }
            assert(pruned(node, j as nat, w));
            assert(has_child(node));
            // the stored key is reachable, nothing else is
            assert(node_get(node, key@, j as nat) == Some(val));
            assert forall|k: Seq<u8>|
                k.len() == key@.len() && !suffix_match(k, key@, j as nat) implies node_get(
                node,
                k,
                j as nat,
            ) is None by {
                if k[j as int] == cb {
                    lemma_suffix_match_step(k, key@, j as nat);
                    assert(!suffix_match(k, key@, j as nat + 1));
                    assert(child_at(node, k[j as int] as int) == Some(child));
                } else {
                    assert(child_at(node, k[j as int] as int) is None);
                }
            }
            // exactly one terminal below
            lemma_slots_count_vacant(vacant, j as nat + 1, w);
            lemma_slots_count_update(vacant, j as nat + 1, w, cb as int, Some(child));
            assert(subtree_count(node, j as nat, w) == 1);
        }
        node
    }
}

impl<T> Trie<T> {
    /// Stores `val` under `key`, creating the path lazily; a key already
    /// present has its value overwritten in place.
    ///
    /// Succeeds exactly on keys of the configured width whose bytes lie in
    /// the alphabet, as long as the entry count can still grow. A key of
    /// another width is rejected as `KeySizeNotMatch`; a key byte outside
    /// the alphabet and an entry count at its ceiling are rejected as
    /// `Common`, with codes 2 and 3. A rejected call changes nothing.
    pub fn set(&mut self, key: Vec<u8>, val: T) -> (r: Result<(), TrieError>)
        requires
            old(self).wf(),
        ensures
            final(self).wf(),
            final(self).width() == old(self).width(),
            final(self).arity_spec() == old(self).arity_spec(),
            match r {
                Ok(_) => {
                    &&& key@.len() == old(self).width()
                    &&& key_in_range(key@, old(self).arity_spec())
                    &&& final(self)@ == old(self)@.insert(key@, val)
                    &&& final(self).len_spec() == old(self).len_spec() + (if old(
                        self,
                    )@.contains_key(key@) {
                        0nat
                    } else {
                        1nat
                    })
                },
                Err(e) => {
                    &&& *final(self) == *old(self)
                    &&& if key@.len() != old(self).width() {
                        e.kind_spec() is KeySizeNotMatch
                    } else if !key_in_range(key@, old(self).arity_spec()) {
                        e.kind_spec() matches ErrorKind::Common(c, _) && c == 2
                    } else {
                        &&& !old(self)@.contains_key(key@)
                        &&& old(self).len_spec() == usize::MAX
                        &&& e.kind_spec() matches ErrorKind::Common(c, _) && c == 3
                    }
                },
            },
    {
        let ghost w = self.key_size as nat;
        let ghost n = self.arity as nat;
        if key.len() != self.key_size {
            return Err(TrieError::new(ErrorKind::KeySizeNotMatch));
        }
        if self.arity < 256 {
            let mut ci: usize = 0;
            while ci < key.len()
                invariant
                    self == old(self),
                    old(self).wf(),
                    key@.len() == old(self).width(),
                    n == old(self).arity_spec(),
                    ci <= key@.len(),
                    forall|j: int| 0 <= j < ci ==> (key@[j] as nat) < n,
                decreases key@.len() - ci,
            {
                if key[ci] as usize >= self.arity {
                    assert(!key_in_range(key@, n)) by {
                        assert((key@[ci as int] as nat) >= n);
                    }
                    return Err(
                        TrieError::new(
                            ErrorKind::Common(2, "key byte outside the alphabet".to_owned()),
                        ),
                    );
                }
                ci = ci + 1;
            }
            assert(key_in_range(key@, n));
        } else {
            assert forall|j: int| 0 <= j < key@.len() implies (key@[j] as nat) < n by {
                assert((key@[j] as nat) < 256);
            }
        }
        let present = node_contains(&self.root, &key, 0);
        proof {
            assert(old(self)@.contains_key(key@) == present);
        }
        if !present && self.size == usize::MAX {
            return Err(TrieError::new(ErrorKind::Common(3, "the trie is full".to_owned())));
        }
        proof {
            assert(Seq::<u8>::empty() =~= key@.subrange(0, 0));
        }
        let inserted = node_insert(&mut self.root, &key, 0, val, self.arity, Ghost(Seq::empty()));
        if inserted {
            self.size = self.size + 1;
        }
        proof {
            assert forall|k: Seq<u8>| k != key@ && k.len() == w implies node_get(self.root, k, 0)
                == node_get(old(self).root_spec(), k, 0) by {
                if suffix_match(k, key@, 0) {
                    assert(k.subrange(0, k.len() as int) =~= k);
                    assert(key@.subrange(0, key@.len() as int) =~= key@);
                    assert(k =~= key@);
                }
            }
            assert(self@ =~= old(self)@.insert(key@, val));
        }
        Ok(())
    }
}

/// Inserts `val` under `key` in the subtree rooted at `node`, which sits at
/// the end of `path` (of length `i`), creating the remaining path lazily.
/// Reports whether a new entry was created rather than overwritten.
fn node_insert<T>(
    node: &mut TrieNode<T>,
    key: &Vec<u8>,
    i: usize,
    val: T,
    arity: usize,
    Ghost(path): Ghost<Seq<u8>>,
) -> (inserted: bool)
    requires
        wf_node(*old(node), path, key@.len() as nat, arity as nat),
        pruned(*old(node), i as nat, key@.len() as nat),
        i < key@.len(),
        path == key@.subrange(0, i as int),
        key_in_range(key@, arity as nat),
        arity <= 256,
    ensures
        wf_node(*final(node), path, key@.len() as nat, arity as nat),
        pruned(*final(node), i as nat, key@.len() as nat),
        inserted == (node_get(*old(node), key@, i as nat) is None),
        node_get(*final(node), key@, i as nat) == Some(val),
        forall|k: Seq<u8>|
            k.len() == key@.len() && !suffix_match(k, key@, i as nat) ==> node_get(
                *final(node),
                k,
                i as nat,
            ) == node_get(*old(node), k, i as nat),
        final(node).node_key == old(node).node_key,
        has_child(*final(node)),
        subtree_count(*final(node), i as nat, key@.len() as nat) == subtree_count(
            *old(node),
            i as nat,
            key@.len() as nat,
        ) + (if inserted {
            1nat
        } else {
            0nat
        }),
    decreases key@.len() - i,
{
    let ghost w = key@.len() as nat;
    let ghost n = arity as nat;
    let ghost node0 = *node;
    let klen = key.len();
    let b = key[i];
    proof {
        assert(path.len() == i);
        assert((key@[i as int] as nat) < n);
    }
    let mut bm = node.children.take().unwrap();
    let ghost bm0 = node0.children->0@;
    let child_opt = bm.take_slot(b);
    let ghost child0 = child_at(node0, b as int);
    proof {
        assert(child0 == bm0[b as int]);
    }
    let inserted: bool;
    let ghost c1: TrieNode<T>;
    match child_opt {
        None => {
            let child = build_subtree(key, i + 1, val, arity);
            proof {
                c1 = child;
            }
            bm.put_slot(b, Box::new(child));
            node.children = Some(bm);
            inserted = true;
        },
        Some(mut boxed) => {
            if i + 1 == klen {
                proof {
                    assert(wf_node(child0->0, path.push(b), w, n));
                }
                boxed.val = Some(val);
                inserted = false;
                proof {
                    c1 = *boxed;
                    // the overwritten terminal keeps its key, byte and shape
                    assert(path.push(b).len() == w);
                    assert(wf_node(c1, path.push(b), w, n));
                    assert(node_get(child0->0, key@, i as nat + 1) == child0->0.val);
                    assert(child0->0.val is Some);
                }
            } else {
                proof {
                    assert(wf_node(child0->0, path.push(b), w, n));
                    assert(pruned(child0->0, i as nat + 1, w));
                    assert(key@.subrange(0, (i + 1) as int) =~= path.push(b));
                }
                let ins = node_insert(&mut *boxed, key, i + 1, val, arity, Ghost(path.push(b)));
                inserted = ins;
                proof {
                    c1 = *boxed;
                }
            }
            bm.put_slot(b, boxed);
            node.children = Some(bm);
        },
    }
    proof {
        assert(key@.subrange(0, (i + 1) as int) =~= path.push(b));
        assert(node.children->0@ =~= bm0.update(b as int, Some(c1)));
        assert(node.children->0@ == bm0.update(b as int, Some(c1)));
        assert(child_at(*node, b as int) == Some(c1));
        assert forall|b2: int| b2 != b as int implies child_at(*node, b2) == child_at(
            node0,
            b2,
        ) by {}
        // well-formedness of the reassembled node
        assert(wf_node(c1, path.push(b), w, n));
        assert forall|b2: int| #[trigger] child_at(*node, b2) is Some implies wf_node(
            child_at(*node, b2)->0,
            path.push(b2 as u8),
            w,
            n,
        ) by {
            if b2 != b as int {
                assert(child_at(node0, b2) is Some);
            }
        }
        assert(wf_node(*node, path, w, n));
        if i + 1 == klen {
            assert(node_get(c1, key@, i as nat + 1) == c1.val);
        }
        assert(node_get(c1, key@, i as nat + 1) == Some(val));
        assert(node_get(*node, key@, i as nat) == node_get(c1, key@, i as nat + 1));
        // pruning is kept: the touched child has a child or is terminal
        assert forall|b2: int| #[trigger] child_at(*node, b2) is Some implies ((i as nat + 1 < w
            ==> has_child(child_at(*node, b2)->0)) && pruned(child_at(*node, b2)->0, i as nat + 1, w)) by {
            if b2 == b as int {
                if i as nat + 1 < w {
                    assert(has_child(c1));
                }
                assert(pruned(c1, i as nat + 1, w));
            } else {
                assert(child_at(node0, b2) is Some);
            }
        }
        assert(pruned(*node, i as nat, w));
        assert(has_child(*node));
        // the key now maps to the value
        assert(node_get(*node, key@, i as nat) == Some(val));
        // every other key of the same width is untouched
        assert forall|k: Seq<u8>|
            k.len() == key@.len() && !suffix_match(k, key@, i as nat) implies node_get(
            *node,
            k,
            i as nat,
        ) == node_get(node0, k, i as nat) by {
            if k[i as int] == b {
                lemma_suffix_match_step(k, key@, i as nat);
                assert(!suffix_match(k, key@, i as nat + 1));
                if k.len() == i + 1 {
                    assert(k.subrange((i + 1) as int, k.len() as int) =~= key@.subrange(
                        (i + 1) as int,
                        key@.len() as int,
                    ));
                    assert(suffix_match(k, key@, i as nat + 1));
                } else if child0 is None {
                    assert(node_get(c1, k, i as nat + 1) is None);
                } else {
                    assert(node_get(c1, k, i as nat + 1) == node_get(child0->0, k, i as nat + 1));
                }
            } else {
                assert(child_at(*node, k[i as int] as int) == child_at(node0, k[i as int] as int));
            }
        }
        // the entry count grows exactly on a fresh key
        lemma_slots_count_update(bm0, i as nat + 1, w, b as int, Some(c1));
        assert(subtree_count(*node, i as nat, w) == subtree_count(node0, i as nat, w) + (if inserted {
            1nat
        } else {
            0nat
        }));
    }
    inserted
}

impl<T> Trie<T> {
    /// Deletes the entry stored under `key` and prunes every internal node
    /// that the deletion left childless, up to but excluding the root.
    ///
    /// Reports whether an entry was removed: `true` exactly when the key
    /// has the configured width and was present. Deleting an absent key,
    /// or one of the wrong width, is a no-op.
    pub fn del(&mut self, key: Vec<u8>) -> (r: bool)
        requires
            old(self).wf(),
        ensures
            final(self).wf(),
            final(self).width() == old(self).width(),
            final(self).arity_spec() == old(self).arity_spec(),
            r == (key@.len() == old(self).width() && old(self)@.contains_key(key@)),
            final(self)@ == old(self)@.remove(key@),
            !r ==> final(self)@ == old(self)@,
            old(self).len_spec() == final(self).len_spec() + (if r {
                1nat
            } else {
                0nat
            }),
    {
        let ghost w = self.key_size as nat;
        if key.len() != self.key_size {
            proof {
                assert(!old(self)@.contains_key(key@));
                assert(old(self)@.remove(key@) =~= old(self)@);
            }
            return false;
        }
        proof {
            assert(Seq::<u8>::empty() =~= key@.subrange(0, 0));
        }
        let removed = node_remove(
            &mut self.root,
            &key,
            0,
            Ghost(Seq::empty()),
            Ghost(self.arity as nat),
        );
        if removed {
            self.size = self.size - 1;
        }
        proof {
            assert forall|k: Seq<u8>| k != key@ && k.len() == w implies node_get(self.root, k, 0)
                == node_get(old(self).root_spec(), k, 0) by {
                if suffix_match(k, key@, 0) {
                    assert(k.subrange(0, k.len() as int) =~= k);
                    assert(key@.subrange(0, key@.len() as int) =~= key@);
                    assert(k =~= key@);
                }
            }
            assert(self@ =~= old(self)@.remove(key@));
            if !removed {
                assert(old(self)@.remove(key@) =~= old(self)@);
            }
        }
        removed
    }
}

/// Deletes the entry stored under `key[i..]` from the subtree rooted at
/// `node`, which sits at the end of `path` (of length `i`), and prunes
/// every internal node below `node` that the deletion left childless.
/// Reports whether an entry was there to delete.
fn node_remove<T>(
    node: &mut TrieNode<T>,
    key: &Vec<u8>,
    i: usize,
    Ghost(path): Ghost<Seq<u8>>,
    Ghost(n): Ghost<nat>,
) -> (removed: bool)
    requires
        wf_node(*old(node), path, key@.len() as nat, n),
        pruned(*old(node), i as nat, key@.len() as nat),
        i < key@.len(),
        path == key@.subrange(0, i as int),
    ensures
        wf_node(*final(node), path, key@.len() as nat, n),
        pruned(*final(node), i as nat, key@.len() as nat),
        removed == (node_get(*old(node), key@, i as nat) is Some),
        node_get(*final(node), key@, i as nat) is None,
        forall|k: Seq<u8>|
            k.len() == key@.len() && !suffix_match(k, key@, i as nat) ==> node_get(
                *final(node),
                k,
                i as nat,
            ) == node_get(*old(node), k, i as nat),
        final(node).node_key == old(node).node_key,
        subtree_count(*old(node), i as nat, key@.len() as nat) == subtree_count(
            *final(node),
            i as nat,
            key@.len() as nat,
        ) + (if removed {
            1nat
        } else {
            0nat
        }),
    decreases key@.len() - i,
{
    let ghost w = key@.len() as nat;
    let ghost node0 = *node;
    let klen = key.len();
    let b = key[i];
    proof {
        assert(path.len() == i);
    }
    let mut bm = node.children.take().unwrap();
    let ghost bm0 = node0.children->0@;
    if (b as usize) >= bm.arity() {
        node.children = Some(bm);
        proof {
            assert(*node == node0);
            assert(child_at(node0, key@[i as int] as int) is None);
        }
        return false;
    }
    let child_opt = bm.take_slot(b);
    let ghost child0 = child_at(node0, b as int);
    proof {
        assert(child0 == bm0[b as int]);
    }
    match child_opt {
        None => {
            node.children = Some(bm);
            proof {
                assert(node.children->0@ =~= bm0.update(b as int, None));
                assert(node.children->0@ =~= bm0);
                assert forall|b2: int| #![trigger child_at(*node, b2)] true implies child_at(
                    *node,
                    b2,
                ) == child_at(node0, b2) by {}
                assert forall|b2: int| #[trigger] child_at(*node, b2) is Some implies wf_node(
                    child_at(*node, b2)->0,
                    path.push(b2 as u8),
                    w,
                    n,
                ) by {
                    assert(child_at(node0, b2) is Some);
                }
                assert(wf_node(*node, path, w, n));
                assert forall|b2: int| #[trigger] child_at(*node, b2) is Some implies ((i as nat + 1
                    < w ==> has_child(child_at(*node, b2)->0)) && pruned(
                    child_at(*node, b2)->0,
                    i as nat + 1,
                    w,
                )) by {
                    assert(child_at(node0, b2) is Some);
                }
                assert(pruned(*node, i as nat, w));
                assert(child_at(node0, key@[i as int] as int) is None);
                assert(node_get(node0, key@, i as nat) is None);
                assert(node_get(*old(node), key@, i as nat) is None);
                assert(node_get(*node, key@, i as nat) is None);
                assert(subtree_count(*node, i as nat, w) == subtree_count(node0, i as nat, w)) by {
                    lemma_slots_count_update(bm0, i as nat + 1, w, b as int, None);
                }
            }
            false
        },
        Some(mut boxed) => {
            let removed: bool;
            let ghost c1opt: Option<TrieNode<T>>;
            if i + 1 == klen {
                proof {
                    assert(wf_node(child0->0, path.push(b), w, n));
                    assert(path.push(b).len() == w);
                    assert(child0->0.val is Some);
                    c1opt = None;
                }
                removed = true;
                node.children = Some(bm);
            } else {
                proof {
                    assert(wf_node(child0->0, path.push(b), w, n));
                    assert(pruned(child0->0, i as nat + 1, w));
                    assert(key@.subrange(0, (i + 1) as int) =~= path.push(b));
                }
                let r2 = node_remove(&mut *boxed, key, i + 1, Ghost(path.push(b)), Ghost(n));
                removed = r2;
                let prune = match &boxed.children {
                    Some(cbm) => cbm.is_empty(),
                    None => true,
                };
                if prune {
                    proof {
                        c1opt = None;
                        let c1 = *boxed;
                        // a childless internal node stores nothing: dropping it
                        // keeps every lookup and the terminal count
                        assert(c1.children is Some);
                        assert forall|j: int|
                            0 <= j < c1.children->0@.len() implies c1.children->0@[j] is None by {
                            assert(!occupied(c1.children->0@, j));
                        }
                        assert forall|b2: int| true implies child_at(c1, b2) is None by {}
                        lemma_slots_count_vacant(c1.children->0@, i as nat + 2, w);
                        assert(subtree_count(c1, i as nat + 1, w) == 0);
                        assert forall|k: Seq<u8>| k.len() == w implies node_get(c1, k, i as nat + 1)
                            is None by {
                            assert(c1.val is None);
                        }
                    }
                    node.children = Some(bm);
                } else {
                    proof {
                        c1opt = Some(*boxed);
                        let c1 = *boxed;
                        let j = choose|j: int| occupied(c1.children->0@, j);
                        assert(child_at(c1, j) is Some);
                        assert(has_child(c1));
                    }
                    bm.put_slot(b, boxed);
                    node.children = Some(bm);
                }
            }
            proof {
                assert(node_get(node0, key@, i as nat) == node_get(
                    child0->0,
                    key@,
                    i as nat + 1,
                ));
                if i + 1 == klen {
                    assert(node_get(child0->0, key@, i as nat + 1) == child0->0.val);
                }
                assert(node.children->0@ =~= bm0.update(b as int, c1opt));
                assert(node.children->0@ == bm0.update(b as int, c1opt));
                assert(child_at(*node, b as int) == c1opt);
                assert forall|b2: int| b2 != b as int implies child_at(*node, b2) == child_at(
                    node0,
                    b2,
                ) by {}
                // well-formedness of the reassembled node
                assert forall|b2: int| #[trigger] child_at(*node, b2) is Some implies wf_node(
                    child_at(*node, b2)->0,
                    path.push(b2 as u8),
                    w,
                    n,
                ) by {
                    if b2 != b as int {
                        assert(child_at(node0, b2) is Some);
                    }
                }
                assert(wf_node(*node, path, w, n));
                // pruning holds below: the kept child has a child itself
                assert forall|b2: int| #[trigger] child_at(*node, b2) is Some implies ((i as nat + 1
                    < w ==> has_child(child_at(*node, b2)->0)) && pruned(
                    child_at(*node, b2)->0,
                    i as nat + 1,
                    w,
                )) by {
                    if b2 != b as int {
                        assert(child_at(node0, b2) is Some);
                    }
                }
                assert(pruned(*node, i as nat, w));
                // the key is gone
                assert(node_get(*node, key@, i as nat) is None);
                // every other key of the same width is untouched
                assert forall|k: Seq<u8>|
                    k.len() == key@.len() && !suffix_match(k, key@, i as nat) implies node_get(
                    *node,
                    k,
                    i as nat,
                ) == node_get(node0, k, i as nat) by {
                    if k[i as int] == b {
                        lemma_suffix_match_step(k, key@, i as nat);
                        assert(!suffix_match(k, key@, i as nat + 1));
                        if k.len() == i + 1 {
                            assert(k.subrange((i + 1) as int, k.len() as int) =~= key@.subrange(
                                (i + 1) as int,
                                key@.len() as int,
                            ));
                            assert(suffix_match(k, key@, i as nat + 1));
                        }
                    } else {
                        assert(child_at(*node, k[i as int] as int) == child_at(
                            node0,
                            k[i as int] as int,
                        ));
                    }
                }
                // the terminal count drops exactly on a removal
                lemma_slots_count_update(bm0, i as nat + 1, w, b as int, c1opt);
                assert(subtree_count(node0, i as nat, w) == subtree_count(*node, i as nat, w) + (
                if removed {
                    1nat
                } else {
                    0nat
                }));
            }
            removed
        },
    }
}

/// An ordered traversal over a snapshot of a trie's entries, yielding
/// `(key, value)` pairs in ascending lexicographic key order. It is
/// finite, and restartable by asking the trie for a fresh one, or by
/// cloning one before it is consumed.
#[derive(Clone)]
pub struct Iter<T> {
    items: Vec<(Vec<u8>, T)>,
    pos: usize,
}

impl<T> Iter<T> {
    /// The full ordered sequence of pairs this traversal yields.
    pub closed spec fn pairs(&self) -> Seq<(Seq<u8>, T)> {
        pairs_vm(self.items@)
    }

    /// How many pairs were yielded already.
    pub closed spec fn cursor(&self) -> nat {
        self.pos as nat
    }
}

impl<T: Copy> Iter<T> {
    /// Yields the next pair in ascending key order, or `None` once every
    /// pair was yielded.
    pub fn next(&mut self) -> (r: Option<(Vec<u8>, T)>)
        ensures
            final(self).pairs() == old(self).pairs(),
            match r {
                Some(p) => {
                    &&& old(self).cursor() < old(self).pairs().len()
                    &&& (p.0@, p.1) == old(self).pairs()[old(self).cursor() as int]
                    &&& final(self).cursor() == old(self).cursor() + 1
                },
                None => {
                    &&& old(self).cursor() >= old(self).pairs().len()
                    &&& final(self).cursor() == old(self).cursor()
                },
            },
    {
        if self.pos < self.items.len() {
            let p = &self.items[self.pos];
            let r = (copy_key(&p.0), p.1);
            self.pos = self.pos + 1;
            Some(r)
        } else {
            None
        }
    }
}

/// Collects the subtree's pairs in ascending key order onto the end of
/// `out`.
fn node_collect<T: Copy>(
    node: &TrieNode<T>,
    out: &mut Vec<(Vec<u8>, T)>,
    arity: usize,
    Ghost(path): Ghost<Seq<u8>>,
    Ghost(w): Ghost<nat>,
)
    requires
        wf_node(*node, path, w, arity as nat),
        path.len() <= w,
        arity <= 256,
    ensures
        pairs_vm(final(out)@) == pairs_vm(old(out)@) + subtree_pairs(*node, path.len(), w),
    decreases w - path.len(),
{
    let ghost n = arity as nat;
    let ghost d = path.len();
    match &node.children {
        None => {
            proof {
                assert(d >= w);
            }
            match (&node.key, &node.val) {
                (Some(kv), Some(v)) => {
                    let pair = (copy_key(kv), *v);
                    out.push(pair);
                    proof {
                        assert(subtree_pairs(*node, d, w) =~= seq![(kv@, *v)]);
                        assert(pairs_vm(out@) =~= pairs_vm(old(out)@) + subtree_pairs(
                            *node,
                            d,
                            w,
                        ));
                    }
                },
                _ => {
                    proof {
                        assert(false);
                    }
                },
            }
        },
        Some(bm) => {
            proof {
                assert(d < w);
                assert(bm@.len() == n);
            }
            let count = bm.arity();
            let mut bidx: usize = 0;
            proof {
                assert(bm@.take(0) =~= Seq::<Option<TrieNode<T>>>::empty());
            }
            while bidx < count
                invariant
                    wf_node(*node, path, w, arity as nat),
                    d == path.len(),
                    d < w,
                    n == arity as nat,
                    arity <= 256,
                    node.children is Some,
                    *bm == node.children->0,
                    bm@.len() == n,
                    count == n,
                    bidx <= count,
                    pairs_vm(out@) == pairs_vm(old(out)@) + slots_pairs(
                        bm@.take(bidx as int),
                        d + 1,
                        w,
                    ),
                decreases count - bidx,
            {
                let ghost taken = bm@.take(bidx as int);
                proof {
                    assert(bm@.take(bidx + 1).drop_last() =~= taken);
                    assert(bm@.take(bidx + 1).last() == bm@[bidx as int]);
                }
                match bm.get(bidx as u8) {
                    None => {
                        proof {
                            assert(bm@[bidx as int] is None);
                            assert(slots_pairs(bm@.take(bidx + 1), d + 1, w) =~= slots_pairs(
                                taken,
                                d + 1,
                                w,
                            ));
                        }
                    },
                    Some(child) => {
                        proof {
                            assert(child_at(*node, bidx as int) == Some(*child));
                            assert(wf_node(*child, path.push(bidx as u8), w, n));
                        }
                        node_collect(child, out, arity, Ghost(path.push(bidx as u8)), Ghost(w));
                        proof {
                            assert(path.push(bidx as u8).len() == d + 1);
                            assert(slots_pairs(bm@.take(bidx + 1), d + 1, w) =~= slots_pairs(
                                taken,
                                d + 1,
                                w,
                            ) + subtree_pairs(*child, d + 1, w));
                            assert(pairs_vm(out@) =~= pairs_vm(old(out)@) + slots_pairs(
                                bm@.take(bidx + 1),
                                d + 1,
                                w,
                            ));
                        }
                    },
                }
                bidx = bidx + 1;
            }
            proof {
                assert(bm@.take(count as int) =~= bm@);
                assert(subtree_pairs(*node, d, w) == slots_pairs(bm@, d + 1, w));
            }
        },
    }
}

impl<T: Copy> Trie<T> {
    /// An ordered traversal over the trie's entries.
    ///
    /// The yielded pairs are exactly the trie's entries, in strictly
    /// ascending lexicographic key order, as many as `len()` reports; this
    /// holds after any sequence of insertions and deletions.
    pub fn iter(&self) -> (it: Iter<T>)
        requires
            self.wf(),
        ensures
            it.cursor() == 0,
            it.pairs().len() == self.len_spec(),
            forall|j: int| #![trigger it.pairs()[j]]
                0 <= j < it.pairs().len() ==> {
                    &&& self@.contains_key(it.pairs()[j].0)
                    &&& it.pairs()[j].1 == self@[it.pairs()[j].0]
                },
            forall|k: Seq<u8>| #[trigger]
                self@.contains_key(k) ==> exists|j: int|
                    0 <= j < it.pairs().len() && it.pairs()[j].0 == k,
            forall|j1: int, j2: int|
                0 <= j1 < j2 < it.pairs().len() ==> lex_lt(
                    #[trigger] it.pairs()[j1].0,
                    #[trigger] it.pairs()[j2].0,
                ),
    {
        let ghost w = self.key_size as nat;
        let mut items: Vec<(Vec<u8>, T)> = Vec::new();
        proof {
            assert(pairs_vm(items@) =~= Seq::<(Seq<u8>, T)>::empty());
        }
        node_collect(&self.root, &mut items, self.arity, Ghost(Seq::empty()), Ghost(w));
        let it = Iter { items, pos: 0 };
        proof {
            let ps = subtree_pairs(self.root, 0, w);
            assert(it.pairs() =~= ps);
            lemma_subtree_pairs_props(self.root, Seq::empty(), w, self.arity as nat);
            assert forall|j: int| #![trigger it.pairs()[j]] 0 <= j < it.pairs().len() implies {
                &&& self@.contains_key(it.pairs()[j].0)
                &&& it.pairs()[j].1 == self@[it.pairs()[j].0]
            } by {
                assert(node_get(self.root, ps[j].0, 0) == Some(ps[j].1));
            }
            assert forall|k: Seq<u8>| #[trigger] self@.contains_key(k) implies exists|j: int|
                0 <= j < it.pairs().len() && it.pairs()[j].0 == k by {
                assert(k.subrange(0, 0) =~= Seq::<u8>::empty());
                assert(node_get(self.root, k, 0) is Some);
                let j = choose|j: int| 0 <= j < ps.len() && ps[j].0 == k;
                assert(it.pairs()[j].0 == k);
            }
        }
        it
    }
}

impl<T: Copy> Trie<T> {
    /// The symmetric reverse traversal: yields exactly the trie's entries,
    /// in strictly descending lexicographic key order.
    pub fn iter_rev(&self) -> (it: Iter<T>)
        requires
            self.wf(),
        ensures
            it.cursor() == 0,
            it.pairs().len() == self.len_spec(),
            forall|j: int| #![trigger it.pairs()[j]]
                0 <= j < it.pairs().len() ==> {
                    &&& self@.contains_key(it.pairs()[j].0)
                    &&& it.pairs()[j].1 == self@[it.pairs()[j].0]
                },
            forall|k: Seq<u8>| #[trigger]
                self@.contains_key(k) ==> exists|j: int|
                    0 <= j < it.pairs().len() && it.pairs()[j].0 == k,
            forall|j1: int, j2: int|
                0 <= j1 < j2 < it.pairs().len() ==> lex_lt(
                    #[trigger] it.pairs()[j2].0,
                    #[trigger] it.pairs()[j1].0,
                ),
    {
        let forward = self.iter();
        let ghost fw = forward.pairs();
        let mut items = forward.items;
        let ghost orig = items@;
        let ghost total = items@.len();
        let mut rev: Vec<(Vec<u8>, T)> = Vec::new();
        proof {
            assert(orig.take(orig.len() as int) =~= orig);
        }
        while items.len() > 0
            invariant
                total == orig.len(),
                items@.len() + rev@.len() == total,
                items@ == orig.take(items@.len() as int),
                forall|x: int| 0 <= x < rev@.len() ==> rev@[x] == orig[total - 1 - x],
            decreases items@.len(),
        {
            proof {
                assert(items@[items@.len() - 1] == orig[items@.len() - 1]);
                assert(items@.subrange(0, items@.len() - 1) =~= orig.take(items@.len() - 1));
            }
            let p = items.pop().unwrap();
            rev.push(p);
        }
        let it = Iter { items: rev, pos: 0 };
        proof {
            assert forall|x: int| 0 <= x < it.pairs().len() implies it.pairs()[x] == fw[total - 1
                - x] by {
                assert(rev@[x] == orig[total - 1 - x]);
            }
            assert forall|k: Seq<u8>| #[trigger] self@.contains_key(k) implies exists|j: int|
                0 <= j < it.pairs().len() && it.pairs()[j].0 == k by {
                let j = choose|j: int| 0 <= j < fw.len() && fw[j].0 == k;
                assert(it.pairs()[total - 1 - j].0 == k);
            }
        }
        it
    }
}

/// Keys that agree strictly before position `d` and differ at `d` order
/// lexicographically by their bytes at `d`.
proof fn lemma_lex_prefix_lt(a: Seq<u8>, b: Seq<u8>, d: int)
    requires
        0 <= d < a.len(),
        d < b.len(),
        a.subrange(0, d) == b.subrange(0, d),
        a[d] < b[d],
    ensures
        lex_lt(a, b),
    decreases d,
{
    if d > 0 {
        assert(a[0] == a.subrange(0, d)[0]);
        assert(b[0] == b.subrange(0, d)[0]);
        assert forall|j: int| #![trigger a.drop_first().subrange(0, d - 1)[j]] 0 <= j < d - 1
            implies a.drop_first().subrange(0, d - 1)[j] == b.drop_first().subrange(0, d - 1)[j] by {
            assert(a.drop_first().subrange(0, d - 1)[j] == a[j + 1]);
            assert(b.drop_first().subrange(0, d - 1)[j] == b[j + 1]);
            assert(a[j + 1] == a.subrange(0, d)[j + 1]);
            assert(b[j + 1] == b.subrange(0, d)[j + 1]);
        }
        assert(a.drop_first().subrange(0, d - 1) =~= b.drop_first().subrange(0, d - 1));
        assert(a.drop_first()[d - 1] == a[d]);
        assert(b.drop_first()[d - 1] == b[d]);
        lemma_lex_prefix_lt(a.drop_first(), b.drop_first(), d - 1);
    }
}

/// The pairs collected from a well-formed subtree carry keys of the full
/// width that extend the subtree's path, each found by `node_get` with its
/// value; they are strictly ascending in lexicographic order, they cover
/// every key that `node_get` finds, and there are exactly as many as the
/// subtree's terminal count.
proof fn lemma_subtree_pairs_props<T>(node: TrieNode<T>, path: Seq<u8>, w: nat, n: nat)
    requires
        wf_node(node, path, w, n),
        path.len() <= w,
        n <= 256,
    ensures
        ({
            let ps = subtree_pairs(node, path.len(), w);
            let i = path.len() as int;
            &&& ps.len() == subtree_count(node, path.len(), w)
            &&& forall|j: int| #![trigger ps[j]]
                0 <= j < ps.len() ==> {
                    &&& ps[j].0.len() == w
                    &&& ps[j].0.subrange(0, i) == path
                    &&& node_get(node, ps[j].0, path.len()) == Some(ps[j].1)
                }
            &&& forall|j1: int, j2: int|
                0 <= j1 < j2 < ps.len() ==> lex_lt(#[trigger] ps[j1].0, #[trigger] ps[j2].0)
            &&& forall|k: Seq<u8>|
                k.len() == w && k.subrange(0, i) == path && #[trigger] node_get(
                    node,
                    k,
                    path.len(),
                ) is Some ==> exists|j: int| 0 <= j < ps.len() && ps[j].0 == k
        }),
    decreases w - path.len(), 1nat, 0nat,
{
    let ps = subtree_pairs(node, path.len(), w);
    let i = path.len() as int;
    if path.len() >= w {
        let k0 = node.key->0@;
        assert(k0 == path);
        assert(ps =~= seq![(path, node.val->0)]);
        assert(path.subrange(0, i) =~= path);
        assert(node_get(node, path, path.len()) == node.val);
        assert forall|k: Seq<u8>|
            k.len() == w && k.subrange(0, i) == path && #[trigger] node_get(
                node,
                k,
                path.len(),
            ) is Some implies exists|j: int| 0 <= j < ps.len() && ps[j].0 == k by {
            assert(k.subrange(0, i) =~= k);
            assert(ps[0].0 == k);
        }
    } else {
        let bm = node.children->0;
        assert forall|b: int| #![trigger bm@[b]] 0 <= b < bm@.len() && bm@[b] is Some implies
            wf_node(bm@[b]->0, path.push(b as u8), w, n) by {
            assert(child_at(node, b) == bm@[b]);
        }
        lemma_slots_pairs_props(bm@, n as int, path, w, n);
        assert(bm@.take(n as int) =~= bm@);
        let sp = slots_pairs(bm@, path.len() + 1, w);
        assert(ps == sp);
        assert forall|j: int| #![trigger ps[j]] 0 <= j < ps.len() implies {
            &&& ps[j].0.len() == w
            &&& ps[j].0.subrange(0, i) == path
            &&& node_get(node, ps[j].0, path.len()) == Some(ps[j].1)
        } by {
            let kb = ps[j].0[i] as int;
            assert(child_at(node, kb) == bm@[kb]);
            assert(node_get(node, ps[j].0, path.len()) == node_get(
                bm@[kb]->0,
                ps[j].0,
                path.len() + 1,
            ));
        }
        assert forall|k: Seq<u8>|
            k.len() == w && k.subrange(0, i) == path && #[trigger] node_get(
                node,
                k,
                path.len(),
            ) is Some implies exists|j: int| 0 <= j < ps.len() && ps[j].0 == k by {
            let kb = k[i] as int;
            assert(child_at(node, kb) is Some);
            assert(child_at(node, kb) == bm@[kb]);
            assert(node_get(bm@[kb]->0, k, path.len() + 1) is Some);
        }
    }
}

/// The pairs collected from the first `m` child slots of a node at `path`
/// satisfy the properties of [`lemma_subtree_pairs_props`], with every key
/// byte at position `path.len()` below `m`.
proof fn lemma_slots_pairs_props<T>(
    s: Seq<Option<TrieNode<T>>>,
    m: int,
    path: Seq<u8>,
    w: nat,
    n: nat,
)
    requires
        path.len() < w,
        n <= 256,
        s.len() == n,
        0 <= m <= n,
        forall|b: int| #![trigger s[b]]
            0 <= b < s.len() && s[b] is Some ==> wf_node(s[b]->0, path.push(b as u8), w, n),
    ensures
        ({
            let ps = slots_pairs(s.take(m), path.len() + 1, w);
            let i = path.len() as int;
            &&& ps.len() == slots_count(s.take(m), path.len() + 1, w)
            &&& forall|j: int| #![trigger ps[j]]
                0 <= j < ps.len() ==> {
                    &&& ps[j].0.len() == w
                    &&& ps[j].0.subrange(0, i) == path
                    &&& 0 <= (ps[j].0[i] as int) < m
                    &&& s[ps[j].0[i] as int] is Some
                    &&& node_get(s[ps[j].0[i] as int]->0, ps[j].0, path.len() + 1) == Some(
                        ps[j].1,
                    )
                }
            &&& forall|j1: int, j2: int|
                0 <= j1 < j2 < ps.len() ==> lex_lt(#[trigger] ps[j1].0, #[trigger] ps[j2].0)
            &&& forall|k: Seq<u8>|
                k.len() == w && k.subrange(0, i) == path && 0 <= (k[i] as int) < m && s[k[i] as int]
                    is Some && #[trigger] node_get(s[k[i] as int]->0, k, path.len() + 1) is Some
                    ==> exists|j: int| 0 <= j < ps.len() && ps[j].0 == k
        }),
    decreases w - path.len(), 0nat, m,
{
    let i = path.len() as int;
    let d = path.len() + 1;
    if m == 0 {
        assert(s.take(0) =~= Seq::<Option<TrieNode<T>>>::empty());
        assert(slots_pairs(s.take(0), d, w) =~= Seq::<(Seq<u8>, T)>::empty());
    } else {
        let prev = s.take(m - 1);
        let cur = s.take(m);
        assert(cur.drop_last() =~= prev);
        assert(cur.last() == s[m - 1]);
        lemma_slots_pairs_props(s, m - 1, path, w, n);
        let psp = slots_pairs(prev, d, w);
        let ps = slots_pairs(cur, d, w);
        match s[m - 1] {
            None => {
                assert(ps =~= psp);
                assert forall|k: Seq<u8>|
                    k.len() == w && k.subrange(0, i) == path && 0 <= (k[i] as int) < m && s[k[i]
                        as int] is Some && #[trigger] node_get(s[k[i] as int]->0, k, d) is Some
                    implies exists|j: int| 0 <= j < ps.len() && ps[j].0 == k by {
                    assert((k[i] as int) < m - 1);
                    let j = choose|j: int| 0 <= j < psp.len() && psp[j].0 == k;
                    assert(ps[j].0 == k);
                }
            },
            Some(c) => {
                let cpath = path.push((m - 1) as u8);
                assert(wf_node(c, cpath, w, n));
                lemma_subtree_pairs_props(c, cpath, w, n);
                let psc = subtree_pairs(c, d, w);
                assert(cpath.len() == d);
                assert(ps == psp + psc);
                assert(ps.len() == psp.len() + psc.len());
                // the new block's keys extend the path by byte m - 1
                assert forall|jj: int| #![trigger psc[jj]] 0 <= jj < psc.len() implies {
                    &&& psc[jj].0.len() == w
                    &&& psc[jj].0.subrange(0, i) == path
                    &&& psc[jj].0[i] == (m - 1) as u8
                } by {
                    assert(psc[jj].0.subrange(0, i + 1) == cpath);
                    assert forall|x: int| 0 <= x < i implies psc[jj].0.subrange(0, i)[x]
                        == path[x] by {
                        assert(psc[jj].0.subrange(0, i)[x] == psc[jj].0[x]);
                        assert(psc[jj].0[x] == psc[jj].0.subrange(0, i + 1)[x]);
                        assert(cpath[x] == path[x]);
                    }
                    assert(psc[jj].0.subrange(0, i) =~= path);
                    assert(psc[jj].0[i] == psc[jj].0.subrange(0, i + 1)[i]);
                    assert(cpath[i] == (m - 1) as u8);
                }
                // every pair of the extended prefix keeps the properties
                assert forall|j: int| #![trigger ps[j]] 0 <= j < ps.len() implies {
                    &&& ps[j].0.len() == w
                    &&& ps[j].0.subrange(0, i) == path
                    &&& 0 <= (ps[j].0[i] as int) < m
                    &&& s[ps[j].0[i] as int] is Some
                    &&& node_get(s[ps[j].0[i] as int]->0, ps[j].0, d) == Some(ps[j].1)
                } by {
                    if j < psp.len() {
                        assert(ps[j] == psp[j]);
                    } else {
                        assert(ps[j] == psc[j - psp.len()]);
                    }
                }
                // strict ascending order across the block boundary
                assert forall|j1: int, j2: int| 0 <= j1 < j2 < ps.len() implies lex_lt(
                    #[trigger] ps[j1].0,
                    #[trigger] ps[j2].0,
                ) by {
                    if j1 < psp.len() && j2 >= psp.len() {
                        let a = ps[j1].0;
                        let bk = ps[j2].0;
                        assert(a == psp[j1].0);
                        assert(bk == psc[j2 - psp.len()].0);
                        assert((a[i] as int) < m - 1);
                        assert(bk[i] == (m - 1) as u8);
                        assert(a.subrange(0, i) == path && bk.subrange(0, i) == path);
                        lemma_lex_prefix_lt(a, bk, i);
                    } else if j2 < psp.len() {
                        assert(psp[j1].0 == ps[j1].0 && psp[j2].0 == ps[j2].0);
                    } else if j1 >= psp.len() {
                        assert(psc[j1 - psp.len()].0 == ps[j1].0);
                        assert(psc[j2 - psp.len()].0 == ps[j2].0);
                    }
                }
                // every stored key of the first m slots appears
                assert forall|k: Seq<u8>|
                    k.len() == w && k.subrange(0, i) == path && 0 <= (k[i] as int) < m && s[k[i]
                        as int] is Some && #[trigger] node_get(s[k[i] as int]->0, k, d) is Some
                    implies exists|j: int| 0 <= j < ps.len() && ps[j].0 == k by {
                    if (k[i] as int) < m - 1 {
                        let j = choose|j: int| 0 <= j < psp.len() && psp[j].0 == k;
                        assert(ps[j].0 == k);
                    } else {
                        assert(k[i] as int == m - 1);
                        assert forall|x: int| 0 <= x < i + 1 implies k.subrange(0, i + 1)[x]
                            == cpath[x] by {
                            if x < i {
                                assert(k.subrange(0, i + 1)[x] == k[x]);
                                assert(k[x] == k.subrange(0, i)[x]);
                            }
                        }
                        assert(k.subrange(0, i + 1) =~= cpath);
                        assert(node_get(c, k, d) is Some);
                        let jj = choose|jj: int| 0 <= jj < psc.len() && psc[jj].0 == k;
                        assert(ps[psp.len() + jj].0 == k);
                    }
                }
            },
        }
    }
}

/// Round trip: a successful `set(key, val)` turns the trie's model `m`
/// into `m.insert(key, val)` (by `set`'s contract), and `get(key)` on a
/// trie whose model contains `key` returns the model's value for it (by
/// `get`'s contract). The inserted key is therefore present afterwards and
/// `get` hands `val` back.
pub proof fn lemma_round_trip<T>(m: Map<Seq<u8>, T>, key: Seq<u8>, val: T)
    ensures
        m.insert(key, val).contains_key(key),
        m.insert(key, val)[key] == val,
{
}

/// Overwrite: setting `key` twice leaves the model as if only the second
/// value had been set, and `get(key)` returns the second value. The first
/// `set` puts `key` into the model, so by `set`'s contract the second call
/// leaves `len()` unchanged.
pub proof fn lemma_overwrite<T>(m: Map<Seq<u8>, T>, key: Seq<u8>, v1: T, v2: T)
    ensures
        m.insert(key, v1).insert(key, v2) == m.insert(key, v2),
        m.insert(key, v1).insert(key, v2)[key] == v2,
        m.insert(key, v1).contains_key(key),
{
    assert(m.insert(key, v1).insert(key, v2) =~= m.insert(key, v2));
}

/// Deletion: after `del(key)` the model is `m.remove(key)` (by `del`'s
/// contract), which no longer contains `key`, so `get(key)` reports
/// `Notfound`; deleting a key right after inserting it into a trie that
/// did not hold it restores the model. The structural half of deletion —
/// no internal node except the root is left childless — is
/// [`lemma_pruning`].
pub proof fn lemma_delete<T>(m: Map<Seq<u8>, T>, key: Seq<u8>, val: T)
    ensures
        !m.insert(key, val).remove(key).contains_key(key),
        !m.contains_key(key) ==> m.insert(key, val).remove(key) == m,
{
    if !m.contains_key(key) {
        assert(m.insert(key, val).remove(key) =~= m);
    }
}

/// Pruning: a well-formed trie — and `set`, `del` and the constructors
/// all ensure well-formedness — has no childless internal node reachable
/// from the root, except possibly the root itself.
pub proof fn lemma_pruning<T>(t: Trie<T>)
    requires
        t.wf(),
    ensures
        pruned(t.root_spec(), 0, t.width()),
{
}

/// Idempotent delete: removing a key that the model does not contain
/// leaves the model as it was; by `del`'s contract such a call returns
/// `false` and keeps `len()` and the iteration order unchanged.
pub proof fn lemma_idempotent_delete<T>(m: Map<Seq<u8>, T>, key: Seq<u8>)
    requires
        !m.contains_key(key),
    ensures
        m.remove(key) == m,
{
    assert(m.remove(key) =~= m);
}

/// No byte sequence orders strictly below itself.
proof fn lemma_lex_irreflexive(a: Seq<u8>)
    ensures
        !lex_lt(a, a),
    decreases a.len(),
{
    if a.len() > 0 {
        lemma_lex_irreflexive(a.drop_first());
    }
}

/// The entry count a well-formed trie reports is the number of keys in its
/// model: the model's domain is finite and exactly `len()` large.
pub proof fn lemma_len_is_model_size<T>(t: Trie<T>)
    requires
        t.wf(),
    ensures
        t@.dom().finite(),
        t.len_spec() == t@.dom().len(),
{
    broadcast use vstd::seq_lib::seq_to_set_is_finite;

    lemma_subtree_pairs_props(t.root_spec(), Seq::empty(), t.width(), t.arity_spec());
    let ps = subtree_pairs(t.root_spec(), 0, t.width());
    let keys = ps.map_values(|p: (Seq<u8>, T)| p.0);
    assert forall|j1: int, j2: int| 0 <= j1 < keys.len() && 0 <= j2 < keys.len() && j1 != j2
        implies keys[j1] != keys[j2] by {
        if j1 < j2 {
            assert(lex_lt(ps[j1].0, ps[j2].0));
        } else {
            assert(lex_lt(ps[j2].0, ps[j1].0));
        }
        lemma_lex_irreflexive(keys[j1]);
    }
    assert(keys.no_duplicates());
    keys.unique_seq_to_set();
    assert(t@.dom() =~= keys.to_set()) by {
        assert forall|k: Seq<u8>| t@.dom().contains(k) implies keys.to_set().contains(k) by {
            assert(k.subrange(0, 0) =~= Seq::<u8>::empty());
            assert(node_get(t.root_spec(), k, 0) is Some);
            let j = choose|j: int| 0 <= j < ps.len() && ps[j].0 == k;
            assert(keys[j] == k);
            assert(keys.contains(k));
        }
        assert forall|k: Seq<u8>| keys.to_set().contains(k) implies t@.dom().contains(k) by {
            let j = choose|j: int| 0 <= j < keys.len() && keys[j] == k;
            assert(node_get(t.root_spec(), ps[j].0, 0) == Some(ps[j].1));
            assert(ps[j].0.len() == t.width());
        }
    }
}

/// A slot sequence with no occupied slot holds no terminal node.
proof fn lemma_slots_count_vacant<T>(s: Seq<Option<TrieNode<T>>>, d: nat, w: nat)
    requires
        forall|j: int| 0 <= j < s.len() ==> s[j] is None,
    ensures
        slots_count(s, d, w) == 0,
    decreases s.len(),
{
    if s.len() != 0 && d <= w {
        lemma_slots_count_vacant(s.drop_last(), d, w);
    }
}

} // verus!
