//! The errors of the trie.

use vstd::prelude::*;
use crate::codec::CodecError;
use crate::hasher::Digest;

verus! {

/// What can go wrong with a trie over a store. `T` is the digest.
#[derive(Debug)]
pub enum TrieError<T> {
    /// A trie was to be made on a root that the store does not hold.
    InvalidStateRoot(T),
    /// A node that the trie refers to is not in the store.
    IncompleteDatabase(T),
    /// What the store holds under the digest is no trie node.
    DecoderError(T, CodecError),
}

impl View for TrieError<Digest> {
    type V = TrieError<Seq<u8>>;

    open spec fn view(&self) -> TrieError<Seq<u8>> {
        match self {
            TrieError::InvalidStateRoot(d) => TrieError::InvalidStateRoot(d@),
            TrieError::IncompleteDatabase(d) => TrieError::IncompleteDatabase(d@),
            TrieError::DecoderError(d, cause) => TrieError::DecoderError(d@, *cause),
        }
    }
}

impl CodecError {
    /// A few words on the error.
    pub open spec fn description_text(self) -> Seq<char> {
        match self {
            CodecError::Malformed => "Malformed trie node"@,
            CodecError::TooDeep => "Trie deeper than a path can be long"@,
        }
    }

    /// A few words on the error.
    pub fn description(&self) -> (text: &'static str)
        ensures
            text@ == self.description_text(),
    {
        match self {
            CodecError::Malformed => "Malformed trie node",
            CodecError::TooDeep => "Trie deeper than a path can be long",
        }
    }
}

impl<T> TrieError<T> {
    /// A few words on the error; for a node that could not be read, those on
    /// the cause.
    pub open spec fn description_text(self) -> Seq<char> {
        match self {
            TrieError::InvalidStateRoot(_) => "Invalid state root"@,
            TrieError::IncompleteDatabase(_) => "Incomplete database"@,
            TrieError::DecoderError(_, cause) => cause.description_text(),
        }
    }

    /// A few words on the error.
    pub fn description(&self) -> (text: &'static str)
        ensures
            text@ == self.description_text(),
    {
        match self {
            TrieError::InvalidStateRoot(_) => "Invalid state root",
            TrieError::IncompleteDatabase(_) => "Incomplete database",
            TrieError::DecoderError(_, cause) => cause.description(),
        }
    }
}

} // verus!
