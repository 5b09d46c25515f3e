//! The per-node child index: a fixed-arity slot array mapping one key byte
//! to an owned child node.
//!
//! A [`ByteMap`] owns `arity` optional child slots, indexed by byte value
//! `0..arity`. Besides direct lookup it answers ordering queries over the
//! occupied slots: nearest occupied neighbour below or above a byte, the
//! minimum and maximum occupied slot, and the ascending list of occupied
//! bytes. Slot arrays are byte-indexed, so an arity above 256 would leave
//! unreachable slots; construction therefore caps the arity at 256.

use vstd::prelude::*;

use crate::trie::TrieNode;

verus! {

/// Holds whether slot `i` of the slot sequence `s` is occupied.
pub open spec fn occupied<T>(s: Seq<Option<TrieNode<T>>>, i: int) -> bool {
    0 <= i < s.len() && s[i] is Some
}

/// A fixed-arity array of optional child nodes, indexed by one key byte.
pub struct ByteMap<T> {
    slots: Vec<Option<Box<TrieNode<T>>>>,
}

impl<T> View for ByteMap<T> {
    type V = Seq<Option<TrieNode<T>>>;

    closed spec fn view(&self) -> Seq<Option<TrieNode<T>>> {
        Seq::new(
            self.slots@.len(),
            |i: int|
                match self.slots@[i] {
                    Some(boxed) => Some(*boxed),
                    None => None,
                },
        )
    }
}

impl<T> ByteMap<T> {
    /// An empty map with `arity` slots, none of them occupied.
    pub fn new(arity: usize) -> (m: Self)
        requires
            arity <= 256,
        ensures
            m@.len() == arity,
            forall|i: int| 0 <= i < arity ==> m@[i] is None,
    {
        let mut slots: Vec<Option<Box<TrieNode<T>>>> = Vec::new();
        while slots.len() < arity
            invariant
                slots@.len() <= arity,
                forall|i: int| 0 <= i < slots@.len() ==> slots@[i] is None,
            decreases arity - slots@.len(),
        {
            slots.push(None);
        }
        ByteMap { slots }
    }

    /// How many slots this map addresses.
    pub fn arity(&self) -> (n: usize)
        ensures
            n == self@.len(),
    {
        self.slots.len()
    }

    /// Direct lookup of the child stored for byte `k`, if any.
    pub fn get(&self, k: u8) -> (r: Option<&TrieNode<T>>)
        ensures
            match r {
                Some(node) => occupied(self@, k as int) && *node == self@[k as int]->0,
                None => !occupied(self@, k as int),
            },
    {
        if (k as usize) < self.slots.len() {
            match &self.slots[k as usize] {
                Some(boxed) => Some(&**boxed),
                None => None,
            }
        } else {
            None
        }
    }

    /// Installs the boxed child at slot `k`, replacing any previous child.
    pub(crate) fn put_slot(&mut self, k: u8, node: Box<TrieNode<T>>)
        requires
            (k as int) < old(self)@.len(),
        ensures
            final(self)@ == old(self)@.update(k as int, Some(*node)),
    {
        let ghost target = old(self)@.update(k as int, Some(*node));
        self.slots[k as usize] = Some(node);
        proof {
            assert(self@ =~= target);
        }
    }

    /// Removes and returns the boxed child at slot `k`.
    pub(crate) fn take_slot(&mut self, k: u8) -> (r: Option<Box<TrieNode<T>>>)
        requires
            (k as int) < old(self)@.len(),
        ensures
            final(self)@ == old(self)@.update(k as int, None),
            match r {
                Some(node) => old(self)@[k as int] == Some(*node),
                None => old(self)@[k as int] is None,
            },
    {
        let r = self.slots[k as usize].take();
        proof {
            assert(self@ =~= old(self)@.update(k as int, None));
        }
        r
    }

    /// Installs or replaces the child at slot `k`.
    pub fn set(&mut self, k: u8, node: TrieNode<T>)
        requires
            (k as int) < old(self)@.len(),
        ensures
            final(self)@ == old(self)@.update(k as int, Some(node)),
    {
        self.put_slot(k, Box::new(node));
    }

    /// Removes the child at slot `k`; reports whether a child was there.
    pub fn del(&mut self, k: u8) -> (r: bool)
        ensures
            r <==> occupied(old(self)@, k as int),
            (k as int) < old(self)@.len() ==> final(self)@ == old(self)@.update(k as int, None),
            (k as int) >= old(self)@.len() ==> final(self)@ == old(self)@,
    {
        if (k as usize) < self.slots.len() {
            let taken = self.take_slot(k);
            taken.is_some()
        } else {
            false
        }
    }

    /// Reports whether no slot at all is occupied.
    pub fn is_empty(&self) -> (r: bool)
        ensures
            r <==> (forall|j: int| !occupied(self@, j)),
    {
        let mut i: usize = 0;
        while i < self.slots.len()
            invariant
                i <= self@.len(),
                forall|j: int| 0 <= j < i ==> !occupied(self@, j),
            decreases self@.len() - i,
        {
            if self.slots[i].is_some() {
                assert(occupied(self@, i as int));
                return false;
            }
            i = i + 1;
        }
        true
    }

    /// The nearest occupied slot strictly below byte `k`, if any.
    pub fn prev(&self, k: u8) -> (r: Option<u8>)
        ensures
            match r {
                Some(b) => b < k && occupied(self@, b as int) && forall|j: int|
                    b < j < k ==> !occupied(self@, j),
                None => forall|j: int| 0 <= j < k ==> !occupied(self@, j),
            },
    {
        let mut i: usize = if (k as usize) < self.slots.len() {
            k as usize
        } else {
            self.slots.len()
        };
        while i > 0
            invariant
                i <= k as usize,
                i <= self@.len(),
                forall|j: int| i <= j < k ==> !occupied(self@, j),
            decreases i,
        {
            i = i - 1;
            if self.slots[i].is_some() {
                assert(occupied(self@, i as int));
                return Some(i as u8);
            }
        }
        None
    }

    /// The nearest occupied slot strictly above byte `k`, if any.
    pub fn next(&self, k: u8) -> (r: Option<u8>)
        requires
            self@.len() <= 256,
        ensures
            match r {
                Some(b) => b > k && occupied(self@, b as int) && forall|j: int|
                    k < j < b ==> !occupied(self@, j),
                None => forall|j: int| k < j ==> !occupied(self@, j),
            },
    {
        let mut i: usize = k as usize + 1;
        while i < self.slots.len()
            invariant
                self@.len() <= 256,
                k < i,
                forall|j: int| k < j < i ==> !occupied(self@, j),
            decreases self@.len() - i,
        {
            if self.slots[i].is_some() {
                assert(occupied(self@, i as int));
                return Some(i as u8);
            }
            i = i + 1;
        }
        None
    }

    /// The minimum occupied slot, or `None` when the map is empty.
    pub fn head(&self) -> (r: Option<u8>)
        requires
            self@.len() <= 256,
        ensures
            match r {
                Some(b) => occupied(self@, b as int) && forall|j: int|
                    0 <= j < b ==> !occupied(self@, j),
                None => forall|j: int| !occupied(self@, j),
            },
    {
        let mut i: usize = 0;
        while i < self.slots.len()
            invariant
                self@.len() <= 256,
                forall|j: int| 0 <= j < i ==> !occupied(self@, j),
            decreases self@.len() - i,
        {
            if self.slots[i].is_some() {
                assert(occupied(self@, i as int));
                return Some(i as u8);
            }
            i = i + 1;
        }
        None
    }

    /// The maximum occupied slot, or `None` when the map is empty.
    pub fn tail(&self) -> (r: Option<u8>)
        requires
            self@.len() <= 256,
        ensures
            match r {
                Some(b) => occupied(self@, b as int) && forall|j: int|
                    b < j ==> !occupied(self@, j),
                None => forall|j: int| !occupied(self@, j),
            },
    {
        let mut i: usize = self.slots.len();
        while i > 0
            invariant
                i <= self@.len() <= 256,
                forall|j: int| i <= j ==> !occupied(self@, j),
            decreases i,
        {
            i = i - 1;
            if self.slots[i].is_some() {
                assert(occupied(self@, i as int));
                return Some(i as u8);
            }
        }
        None
    }

    /// True when byte `k` is the minimum occupied slot.
    pub fn is_head(&self, k: u8) -> (r: bool)
        requires
            self@.len() <= 256,
        ensures
            r <==> (occupied(self@, k as int) && forall|j: int| 0 <= j < k ==> !occupied(self@, j)),
    {
        match self.head() {
            Some(b) => b == k,
            None => false,
        }
    }

    /// True when byte `k` is the maximum occupied slot.
    pub fn is_tail(&self, k: u8) -> (r: bool)
        requires
            self@.len() <= 256,
        ensures
            r <==> (occupied(self@, k as int) && forall|j: int| k < j ==> !occupied(self@, j)),
    {
        match self.tail() {
            Some(b) => b == k,
            None => false,
        }
    }

    /// Every occupied byte, in ascending order.
    pub fn keys(&self) -> (r: Vec<u8>)
        requires
            self@.len() <= 256,
        ensures
            forall|a: int, b: int| 0 <= a < b < r@.len() ==> r@[a] < r@[b],
            forall|b: u8| r@.contains(b) <==> occupied(self@, b as int),
    {
        let mut out: Vec<u8> = Vec::new();
        let mut i: usize = 0;
        while i < self.slots.len()
            invariant
                i <= self@.len() <= 256,
                forall|a: int, b: int| 0 <= a < b < out@.len() ==> out@[a] < out@[b],
                forall|a: int| 0 <= a < out@.len() ==> (out@[a] as int) < i,
                forall|b: u8| out@.contains(b) <==> ((b as int) < i && occupied(self@, b as int)),
            decreases self@.len() - i,
        {
            if self.slots[i].is_some() {
                let ghost before = out@;
                out.push(i as u8);
                proof {
                    assert(occupied(self@, i as int));
                    assert forall|b: u8| out@.contains(b) <==> ((b as int) < i + 1 && occupied(
                        self@,
                        b as int,
                    )) by {
                        if out@.contains(b) {
                            let idx = choose|idx: int| 0 <= idx < out@.len() && out@[idx] == b;
                            if idx < before.len() {
                                assert(before[idx] == b);
                                assert(before.contains(b));
                            }
                        }
                        if (b as int) < i + 1 && occupied(self@, b as int) {
                            if (b as int) < i {
                                assert(before.contains(b));
                                let idx = choose|idx: int|
                                    0 <= idx < before.len() && before[idx] == b;
                                assert(out@[idx] == b);
                            } else {
                                assert(out@[out@.len() - 1] == b);
                            }
                        }
                    }
                }
            } else {
                proof {
                    assert(!occupied(self@, i as int));
                }
            }
            i = i + 1;
        }
        out
    }
}

} // verus!
