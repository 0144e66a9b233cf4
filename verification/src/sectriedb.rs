//! The secure trie for reading: every key is hashed before it is looked up.

use vstd::prelude::*;
use crate::error::TrieError;
use crate::hasher::Digest;
use crate::hasher::digest_of;
use crate::hasher::hash_bytes;
use crate::recorder::Query;
use crate::recorder::Visit;
use crate::store::Store;
use crate::store::store_entries;
use crate::store::stored;
use crate::trie::Trie;
use crate::triedb::TrieDB;
use crate::triedb::TrieDBIterator;

verus! {

/// A trie for reading whose keys are hashed: the entry of `key` is kept
/// under the digest of `key`.
pub struct SecTrieDB<'db> {
    raw: TrieDB<'db>,
}

impl<'db> SecTrieDB<'db> {
    /// The trie that keeps the entries under the hashed keys.
    pub closed spec fn raw_view(&self) -> TrieDB<'db> {
        self.raw
    }

    /// The secure trie that `db` holds under `root`; an error where it
    /// holds nothing there.
    pub fn new(db: &'db Store, root: &'db Digest) -> (r: Result<SecTrieDB<'db>, TrieError<Digest>>)
        ensures
            match r {
                Ok(trie) => stored(store_entries(*db), root@) is Some && trie.raw_view().store()
                    == store_entries(*db) && trie.raw_view().root_digest() == root@,
                Err(e) => stored(store_entries(*db), root@) is None && e@
                    == TrieError::InvalidStateRoot(root@),
            },
    {
        match TrieDB::new(db, root) {
            Ok(raw) => Ok(SecTrieDB { raw }),
            Err(e) => Err(e),
        }
    }

    /// The trie that keeps the entries under the hashed keys.
    pub fn raw(&self) -> (raw: &TrieDB<'db>)
        ensures
            *raw == self.raw_view(),
    {
        &self.raw
    }
}

impl<'db> Trie for SecTrieDB<'db> {
    type Iter = TrieDBIterator<'db>;

    open spec fn root_digest(&self) -> Seq<u8> {
        self.raw_view().root_digest()
    }

    open spec fn finds(&self, key: Seq<u8>) -> Result<Option<Seq<u8>>, TrieError<Seq<u8>>> {
        self.raw_view().finds(digest_of(key))
    }

    open spec fn fetches(&self, key: Seq<u8>) -> Seq<Visit> {
        self.raw_view().fetches(digest_of(key))
    }

    open spec fn iterates(&self, it: &TrieDBIterator<'db>) -> bool {
        self.raw_view().iterates(it)
    }

    fn root(&self) -> (root: &Digest) {
        self.raw.root()
    }

    fn is_empty(&self) -> (empty: bool) {
        self.raw.is_empty()
    }

    fn contains(&self, key: &[u8]) -> (r: Result<bool, TrieError<Digest>>) {
        let hashed = hash_bytes(key);
        self.raw.contains(hashed.as_slice())
    }

    fn get(&self, key: &[u8]) -> (r: Result<Option<Vec<u8>>, TrieError<Digest>>) {
        let hashed = hash_bytes(key);
        self.raw.get(hashed.as_slice())
    }

    fn get_with<Q: Query>(&self, key: &[u8], query: &mut Q) -> (r: Result<
        Option<Q::Item>,
        TrieError<Digest>,
    >) {
        let hashed = hash_bytes(key);
        self.raw.get_with(hashed.as_slice(), query)
    }

    fn iter(&self) -> (r: Result<TrieDBIterator<'db>, TrieError<Digest>>) {
        self.raw.iter()
    }
}

} // verus!
