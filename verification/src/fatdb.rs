//! The fat trie for reading: keys are hashed, and each value is kept
//! together with its key, so that the keys can be listed.

use vstd::prelude::*;
use crate::codec::CodecError;
use crate::error::TrieError;
use crate::hasher::Digest;
use crate::hasher::digest_of;
use crate::hasher::hash_bytes;
use crate::kinds::TrieSpec;
use crate::kinds::shown_entry;
use crate::kinds::split_pair;
use crate::kinds::unpaired;
use crate::lookup::look_up;
use crate::nibble::nibbles_of;
use crate::nibble::to_nibbles;
use crate::recorder::Query;
use crate::recorder::Visit;
use crate::store::Store;
use crate::store::store_entries;
use crate::store::stored;
use crate::trie::Trie;
use crate::trie::TrieIterator;
use crate::trie::ask;
use crate::triedb::TrieDB;
use crate::triedb::TrieDBIterator;
use crate::triedb::entry_after;

verus! {

/// What a fat trie hands out for what the walk to a hashed key found.
pub open spec fn fat_outcome(
    root: Seq<u8>,
    outcome: Result<Option<Seq<u8>>, TrieError<Seq<u8>>>,
) -> Result<Option<Seq<u8>>, TrieError<Seq<u8>>> {
    match outcome {
        Ok(held) => shown_entry(TrieSpec::Fat, root, held),
        Err(e) => Err(e),
    }
}

/// An entry of a fat trie as it is handed out: the key and the value that
/// the kept bytes hold, or an error under `root` where they hold none.
pub open spec fn fat_entry(
    root: Seq<u8>,
    found: Result<Option<(Seq<u8>, Seq<u8>)>, TrieError<Seq<u8>>>,
) -> Result<Option<(Seq<u8>, (Seq<u8>, Seq<u8>))>, TrieError<Seq<u8>>> {
    match found {
        Ok(Some((path, bytes))) => match unpaired(bytes) {
            Some(pair) => Ok(Some((path, pair))),
            None => Err(TrieError::DecoderError(root, CodecError::Malformed)),
        },
        Ok(None) => Ok(None),
        Err(e) => Err(e),
    }
}

/// An iterator over the entries of a fat trie, with the keys as they were
/// given, in the order of the hashed keys.
pub struct FatDBIterator<'db> {
    raw: TrieDBIterator<'db>,
    failed: bool,
}

impl<'db> FatDBIterator<'db> {
    /// The iterator over the entries as the trie keeps them.
    pub closed spec fn raw_view(&self) -> TrieDBIterator<'db> {
        self.raw
    }

    /// Whether a value was met that holds no key and value.
    pub closed spec fn failed(&self) -> bool {
        self.failed
    }
}

impl<'db> TrieIterator for FatDBIterator<'db> {
    open spec fn place(&self) -> Option<Seq<u8>> {
        self.raw_view().place()
    }

    open spec fn ended(&self) -> bool {
        self.raw_view().ended() || self.failed()
    }

    open spec fn coming(&self) -> Result<Option<(Seq<u8>, (Seq<u8>, Seq<u8>))>, TrieError<Seq<u8>>> {
        fat_entry(
            self.raw_view().root_digest(),
            entry_after(
                self.raw_view().store(),
                self.raw_view().root_digest(),
                self.raw_view().place(),
            ),
        )
    }

    open spec fn seek_place(&self, key: Seq<u8>) -> Seq<u8> {
        nibbles_of(digest_of(key))
    }

    open spec fn same_trie(&self, other: &Self) -> bool {
        self.raw_view().same_trie(&other.raw_view())
    }

    fn seek(&mut self, key: &[u8]) -> (r: Result<(), TrieError<Digest>>) {
        let hashed = hash_bytes(key);
        self.failed = false;
        self.raw.seek(hashed.as_slice())
    }

    fn next(&mut self) -> (item: Option<Result<(Vec<u8>, Vec<u8>), TrieError<Digest>>>) {
        if self.failed {
            return None;
        }
        match self.raw.step() {
            Some(Ok((_, bytes))) => match split_pair(bytes.as_slice()) {
                Some(pair) => Some(Ok(pair)),
                None => {
                    self.failed = true;
                    Some(Err(TrieError::DecoderError(self.raw.root(), CodecError::Malformed)))
                },
            },
            Some(Err(e)) => Some(Err(e)),
            None => None,
        }
    }
}

/// A trie for reading whose keys are hashed and whose values are kept
/// together with their keys.
pub struct FatDB<'db> {
    raw: TrieDB<'db>,
}

impl<'db> FatDB<'db> {
    /// The trie that keeps the entries under the hashed keys.
    pub closed spec fn raw_view(&self) -> TrieDB<'db> {
        self.raw
    }

    /// The fat trie that `db` holds under `root`; an error where it holds
    /// nothing there.
    pub fn new(db: &'db Store, root: &'db Digest) -> (r: Result<FatDB<'db>, TrieError<Digest>>)
        ensures
            match r {
                Ok(trie) => stored(store_entries(*db), root@) is Some && trie.raw_view().store()
                    == store_entries(*db) && trie.raw_view().root_digest() == root@,
                Err(e) => stored(store_entries(*db), root@) is None && e@
                    == TrieError::InvalidStateRoot(root@),
            },
    {
        match TrieDB::new(db, root) {
            Ok(raw) => Ok(FatDB { raw }),
            Err(e) => Err(e),
        }
    }

    /// What was found under a hashed key, taken apart.
    fn show(&self, outcome: Result<Option<Vec<u8>>, TrieError<Digest>>) -> (r: Result<
        Option<Vec<u8>>,
        TrieError<Digest>,
    >)
        ensures
            crate::lookup::outcome_view(r) == fat_outcome(
                self.root_digest(),
                crate::lookup::outcome_view(outcome),
            ),
    {
        match outcome {
            Ok(Some(bytes)) => match split_pair(bytes.as_slice()) {
                Some((_, value)) => Ok(Some(value)),
                None => Err(TrieError::DecoderError(*self.raw.root(), CodecError::Malformed)),
            },
            Ok(None) => Ok(None),
            Err(e) => Err(e),
        }
    }
}

impl<'db> Trie for FatDB<'db> {
    type Iter = FatDBIterator<'db>;

    open spec fn root_digest(&self) -> Seq<u8> {
        self.raw_view().root_digest()
    }

    open spec fn finds(&self, key: Seq<u8>) -> Result<Option<Seq<u8>>, TrieError<Seq<u8>>> {
        fat_outcome(self.root_digest(), self.raw_view().finds(digest_of(key)))
    }

    open spec fn fetches(&self, key: Seq<u8>) -> Seq<Visit> {
        self.raw_view().fetches(digest_of(key))
    }

    open spec fn iterates(&self, it: &FatDBIterator<'db>) -> bool {
        self.raw_view().iterates(&it.raw_view()) && !it.failed()
    }

    fn root(&self) -> (root: &Digest) {
        self.raw.root()
    }

    fn is_empty(&self) -> (empty: bool) {
        self.raw.is_empty()
    }

    fn contains(&self, key: &[u8]) -> (r: Result<bool, TrieError<Digest>>) {
        match self.get(key) {
            Ok(value) => Ok(value.is_some()),
            Err(e) => Err(e),
        }
    }

    fn get(&self, key: &[u8]) -> (r: Result<Option<Vec<u8>>, TrieError<Digest>>) {
        let hashed = hash_bytes(key);
        let outcome = self.raw.get(hashed.as_slice());
        self.show(outcome)
    }

    fn get_with<Q: Query>(&self, key: &[u8], query: &mut Q) -> (r: Result<
        Option<Q::Item>,
        TrieError<Digest>,
    >) {
        let hashed = hash_bytes(key);
        let path = to_nibbles(hashed.as_slice());
        let (outcome, records) = look_up(self.raw.db(), self.raw.root(), path.as_slice());
        let shown = self.show(outcome);
        ask(shown, &records, query)
    }

    fn iter(&self) -> (r: Result<FatDBIterator<'db>, TrieError<Digest>>) {
        match self.raw.iter() {
            Ok(raw) => Ok(FatDBIterator { raw, failed: false }),
            Err(e) => Err(e),
        }
    }
}

} // verus!
