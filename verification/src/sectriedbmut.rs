//! The secure trie for writing: every key is hashed before it is used.

use vstd::prelude::*;
use crate::error::TrieError;
use crate::hasher::Digest;
use crate::hasher::hash_bytes;
use crate::kinds::TrieSpec;
use crate::shape::Shape;
use crate::store::Store;
use crate::store::null_digest;
use crate::store::store_entries;
use crate::store::stored;
use crate::triedbmut::Rejected;
use crate::triedbmut::TrieDBMut;
use crate::triemut::TrieMut;
use crate::triemut::can_commit;
use crate::triemut::committed;
use crate::triemut::pending_root;

verus! {

/// A trie for writing whose keys are hashed: the entry of `key` is kept
/// under the digest of `key`.
pub struct SecTrieDBMut {
    raw: TrieDBMut,
}

impl SecTrieDBMut {
    /// The trie that keeps the entries under the hashed keys.
    pub closed spec fn raw_view(&self) -> TrieDBMut {
        self.raw
    }

    /// A secure trie without entries over `db`.
    pub fn new(db: Store) -> (trie: SecTrieDBMut)
        ensures
            trie.shape() is Empty,
            trie.store() == store_entries(db),
            trie.root_digest() == null_digest(),
            trie.doomed() == Seq::<Seq<u8>>::empty(),
            !trie.pending(),
    {
        SecTrieDBMut { raw: TrieDBMut::new(db) }
    }

    /// The secure trie that `db` holds under `root`: the root held by its
    /// digest. Where `db` holds nothing under `root`, the error and the
    /// store.
    pub fn from_existing(db: Store, root: &Digest) -> (r: Result<SecTrieDBMut, Rejected>)
        ensures
            match r {
                Ok(trie) => {
                    &&& stored(store_entries(db), root@) is Some
                    &&& trie.shape() == (Shape::Hash { digest: root@ })
                    &&& trie.store() == store_entries(db)
                    &&& trie.root_digest() == root@
                    &&& trie.doomed() == Seq::<Seq<u8>>::empty()
                    &&& !trie.pending()
                },
                Err(rejected) => {
                    &&& stored(store_entries(db), root@) is None
                    &&& rejected.error@ == TrieError::InvalidStateRoot(root@)
                    &&& rejected.db == db
                },
            },
    {
        match TrieDBMut::from_existing(db, root) {
            Ok(raw) => Ok(SecTrieDBMut { raw }),
            Err(e) => Err(e),
        }
    }

    /// Commits, and hands back the store and the root.
    pub fn into_parts(self) -> (parts: (Store, Digest))
        requires
            self.pending() ==> can_commit(self.store(), self.doomed(), self.shape()),
        ensures
            parts.1@ == if self.pending() {
                pending_root(self.shape())
            } else {
                self.root_digest()
            },
            store_entries(parts.0) == if self.pending() {
                committed(self.store(), self.doomed(), self.shape())
            } else {
                self.store()
            },
    {
        self.raw.into_parts()
    }
}

impl TrieMut for SecTrieDBMut {
    open spec fn kind(&self) -> TrieSpec {
        TrieSpec::Secure
    }

    open spec fn shape(&self) -> Shape {
        self.raw_view().shape()
    }

    open spec fn store(&self) -> Map<Seq<u8>, (Seq<u8>, int)> {
        self.raw_view().store()
    }

    open spec fn root_digest(&self) -> Seq<u8> {
        self.raw_view().root_digest()
    }

    open spec fn doomed(&self) -> Seq<Seq<u8>> {
        self.raw_view().doomed()
    }

    open spec fn pending(&self) -> bool {
        self.raw_view().pending()
    }

    fn root(&mut self) -> (root: Digest) {
        self.raw.root()
    }

    fn is_empty(&self) -> (empty: bool) {
        self.raw.is_empty()
    }

    fn contains(&self, key: &[u8]) -> (r: Result<bool, TrieError<Digest>>) {
        let hashed = hash_bytes(key);
        self.raw.contains(hashed.as_slice())
    }

    fn get(&self, key: &[u8]) -> (r: Result<Option<Vec<u8>>, TrieError<Digest>>) {
        let hashed = hash_bytes(key);
        self.raw.get(hashed.as_slice())
    }

    fn insert(&mut self, key: &[u8], value: &[u8]) -> (r: Result<Option<Vec<u8>>, TrieError<Digest>>) {
        let hashed = hash_bytes(key);
        self.raw.insert(hashed.as_slice(), value)
    }

    fn remove(&mut self, key: &[u8]) -> (r: Result<Option<Vec<u8>>, TrieError<Digest>>) {
        let hashed = hash_bytes(key);
        self.raw.remove(hashed.as_slice())
    }
}

} // verus!
