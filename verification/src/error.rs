//! Error kinds reported by the trie operations.

use vstd::prelude::*;

verus! {

/// What went wrong during a trie operation.
///
/// `Notfound` is a normal control-flow outcome (the key is absent, or the
/// path breaks before reaching the configured depth). `KeySizeNotMatch`
/// means the supplied key's length differs from the configured width.
/// `Unexpect` signals a broken internal structural invariant, a container
/// bug rather than a user error. `Common` carries a numeric code and a
/// message for contextual failures not covered by the other kinds.
#[derive(Debug, Clone)]
pub enum ErrorKind {
    Notfound,
    KeySizeNotMatch,
    Unexpect,
    Common(u16, String),
}

/// An error returned by a trie operation, tagged with its [`ErrorKind`].
#[derive(Debug)]
pub struct TrieError {
    kind: ErrorKind,
}

impl TrieError {
    /// The kind this error was built from.
    pub closed spec fn kind_spec(&self) -> ErrorKind {
        self.kind
    }

    /// Builds an error of the given kind.
    pub fn new(kind: ErrorKind) -> (e: TrieError)
        ensures
            e.kind_spec() == kind,
    {
        TrieError { kind: kind }
    }

    /// Builds an error of the given kind.
    pub fn from(kind: ErrorKind) -> (e: TrieError)
        ensures
            e.kind_spec() == kind,
    {
        TrieError { kind }
    }

    /// Reads the kind back out of the error.
    pub fn kind(&self) -> (k: &ErrorKind)
        ensures
            *k == self.kind_spec(),
    {
        &self.kind
    }
}

} // verus!
