//! The fat trie for writing: keys are hashed, and each value is kept
//! together with its key.

use vstd::prelude::*;
use crate::codec::CodecError;
use crate::error::TrieError;
use crate::hasher::Digest;
use crate::hasher::hash_bytes;
use crate::kinds::TrieSpec;
use crate::kinds::pair_up;
use crate::kinds::split_pair;
use crate::rlp::lemma_frame_not_empty;
use crate::shape::Shape;
use crate::store::Store;
use crate::store::null_digest;
use crate::store::store_entries;
use crate::store::stored;
use crate::triedbmut::Rejected;
use crate::triedbmut::TrieDBMut;
use crate::triemut::TrieMut;
use crate::triemut::can_commit;
use crate::triemut::committed;
use crate::triemut::pending_root;

verus! {

/// A trie for writing whose keys are hashed and whose values are kept
/// together with their keys.
pub struct FatDBMut {
    raw: TrieDBMut,
}

impl FatDBMut {
    /// The trie that keeps the entries under the hashed keys.
    pub closed spec fn raw_view(&self) -> TrieDBMut {
        self.raw
    }

    /// A fat trie without entries over `db`.
    pub fn new(db: Store) -> (trie: FatDBMut)
        ensures
            trie.shape() is Empty,
            trie.store() == store_entries(db),
            trie.root_digest() == null_digest(),
            trie.doomed() == Seq::<Seq<u8>>::empty(),
            !trie.pending(),
    {
        FatDBMut { raw: TrieDBMut::new(db) }
    }

    /// The fat trie that `db` holds under `root`: the root held by its
    /// digest. Where `db` holds nothing under `root`, the error and the
    /// store.
    pub fn from_existing(db: Store, root: &Digest) -> (r: Result<FatDBMut, Rejected>)
        ensures
            match r {
                Ok(trie) => {
                    &&& stored(store_entries(db), root@) is Some
                    &&& trie.shape() == (Shape::Hash { digest: root@ })
                    &&& trie.store() == store_entries(db)
                    &&& trie.root_digest() == root@
                    &&& trie.doomed() == Seq::<Seq<u8>>::empty()
                    &&& !trie.pending()
                },
                Err(rejected) => {
                    &&& stored(store_entries(db), root@) is None
                    &&& rejected.error@ == TrieError::InvalidStateRoot(root@)
                    &&& rejected.db == db
                },
            },
    {
        match TrieDBMut::from_existing(db, root) {
            Ok(raw) => Ok(FatDBMut { raw }),
            Err(e) => Err(e),
        }
    }

    /// Commits, and hands back the store and the root.
    pub fn into_parts(self) -> (parts: (Store, Digest))
        requires
            self.pending() ==> can_commit(self.store(), self.doomed(), self.shape()),
        ensures
            parts.1@ == if self.pending() {
                pending_root(self.shape())
            } else {
                self.root_digest()
            },
            store_entries(parts.0) == if self.pending() {
                committed(self.store(), self.doomed(), self.shape())
            } else {
                self.store()
            },
    {
        self.raw.into_parts()
    }
}

impl TrieMut for FatDBMut {
    open spec fn kind(&self) -> TrieSpec {
        TrieSpec::Fat
    }

    open spec fn shape(&self) -> Shape {
        self.raw_view().shape()
    }

    open spec fn store(&self) -> Map<Seq<u8>, (Seq<u8>, int)> {
        self.raw_view().store()
    }

    open spec fn root_digest(&self) -> Seq<u8> {
        self.raw_view().root_digest()
    }

    open spec fn doomed(&self) -> Seq<Seq<u8>> {
        self.raw_view().doomed()
    }

    open spec fn pending(&self) -> bool {
        self.raw_view().pending()
    }

    fn root(&mut self) -> (root: Digest) {
        self.raw.root()
    }

    fn is_empty(&self) -> (empty: bool) {
        self.raw.is_empty()
    }

    fn contains(&self, key: &[u8]) -> (r: Result<bool, TrieError<Digest>>) {
        match self.get(key) {
            Ok(value) => Ok(value.is_some()),
            Err(e) => Err(e),
        }
    }

    fn get(&self, key: &[u8]) -> (r: Result<Option<Vec<u8>>, TrieError<Digest>>) {
        let hashed = hash_bytes(key);
        match self.raw.get(hashed.as_slice()) {
            Ok(Some(bytes)) => match split_pair(bytes.as_slice()) {
                Some((_, value)) => Ok(Some(value)),
                None => Err(TrieError::DecoderError(self.raw.last_root(), CodecError::Malformed)),
            },
            Ok(None) => Ok(None),
            Err(e) => Err(e),
        }
    }

    fn insert(&mut self, key: &[u8], value: &[u8]) -> (r: Result<Option<Vec<u8>>, TrieError<Digest>>) {
        if value.len() == 0 {
            return self.remove(key);
        }
        let old = match self.get(key) {
            Ok(old) => old,
            Err(e) => {
                self.raw.roll_back();
                return Err(e);
            },
        };
        let hashed = hash_bytes(key);
        let pair = pair_up(key, value);
        proof {
            lemma_frame_not_empty(
                true,
                crate::rlp::rlp_string(key@) + crate::rlp::rlp_string(value@),
            );
        }
        match self.raw.insert(hashed.as_slice(), pair.as_slice()) {
            Ok(_) => Ok(old),
            Err(e) => Err(e),
        }
    }

    fn remove(&mut self, key: &[u8]) -> (r: Result<Option<Vec<u8>>, TrieError<Digest>>) {
        let old = match self.get(key) {
            Ok(old) => old,
            Err(e) => {
                self.raw.roll_back();
                return Err(e);
            },
        };
        let hashed = hash_bytes(key);
        match self.raw.remove(hashed.as_slice()) {
            Ok(_) => Ok(old),
            Err(e) => Err(e),
        }
    }
}

} // verus!
