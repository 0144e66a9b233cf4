//! The factory that makes a trie of the kind asked for, and the tries of
//! any kind behind one type.

use vstd::prelude::*;
use crate::error::TrieError;
use crate::fatdb::FatDB;
use crate::fatdb::FatDBIterator;
use crate::fatdbmut::FatDBMut;
use crate::hasher::Digest;
use crate::kinds::TrieSpec;
use crate::recorder::Query;
use crate::recorder::Visit;
use crate::sectriedb::SecTrieDB;
use crate::sectriedbmut::SecTrieDBMut;
use crate::shape::Shape;
use crate::store::Store;
use crate::store::null_digest;
use crate::store::store_entries;
use crate::store::stored;
use crate::trie::Trie;
use crate::trie::TrieIterator;
use crate::triedb::TrieDB;
use crate::triedb::TrieDBIterator;
use crate::triedbmut::Rejected;
use crate::triedbmut::TrieDBMut;
use crate::triemut::TrieMut;

verus! {

/// A read-only trie of any kind.
pub enum TrieKinds<'db> {
    /// A generic trie.
    Generic(TrieDB<'db>),
    /// A secure trie.
    Secure(SecTrieDB<'db>),
    /// A fat trie.
    Fat(FatDB<'db>),
}

/// A trie of any kind for writing.
pub enum TrieKindsMut {
    /// A generic trie.
    Generic(TrieDBMut),
    /// A secure trie.
    Secure(SecTrieDBMut),
    /// A fat trie.
    Fat(FatDBMut),
}

/// An iterator over a trie of any kind.
pub enum TrieKindsIterator<'db> {
    /// Over a generic or a secure trie: the keys are those of the tree.
    Plain(TrieDBIterator<'db>),
    /// Over a fat trie: the keys are those that were given.
    Fat(FatDBIterator<'db>),
}

impl<'db> TrieIterator for TrieKindsIterator<'db> {
    open spec fn place(&self) -> Option<Seq<u8>> {
        match self {
            TrieKindsIterator::Plain(it) => it.place(),
            TrieKindsIterator::Fat(it) => it.place(),
        }
    }

    open spec fn ended(&self) -> bool {
        match self {
            TrieKindsIterator::Plain(it) => it.ended(),
            TrieKindsIterator::Fat(it) => it.ended(),
        }
    }

    open spec fn coming(&self) -> Result<Option<(Seq<u8>, (Seq<u8>, Seq<u8>))>, TrieError<Seq<u8>>> {
        match self {
            TrieKindsIterator::Plain(it) => it.coming(),
            TrieKindsIterator::Fat(it) => it.coming(),
        }
    }

    open spec fn seek_place(&self, key: Seq<u8>) -> Seq<u8> {
        match self {
            TrieKindsIterator::Plain(it) => it.seek_place(key),
            TrieKindsIterator::Fat(it) => it.seek_place(key),
        }
    }

    open spec fn same_trie(&self, other: &Self) -> bool {
        match (self, other) {
            (TrieKindsIterator::Plain(a), TrieKindsIterator::Plain(b)) => a.same_trie(b),
            (TrieKindsIterator::Fat(a), TrieKindsIterator::Fat(b)) => a.same_trie(b),
            _ => false,
        }
    }

    fn seek(&mut self, key: &[u8]) -> (r: Result<(), TrieError<Digest>>) {
        match self {
            TrieKindsIterator::Plain(it) => it.seek(key),
            TrieKindsIterator::Fat(it) => it.seek(key),
        }
    }

    fn next(&mut self) -> (item: Option<Result<(Vec<u8>, Vec<u8>), TrieError<Digest>>>) {
        match self {
            TrieKindsIterator::Plain(it) => it.next(),
            TrieKindsIterator::Fat(it) => it.next(),
        }
    }
}

impl<'db> Trie for TrieKinds<'db> {
    type Iter = TrieKindsIterator<'db>;

    open spec fn root_digest(&self) -> Seq<u8> {
        match self {
            TrieKinds::Generic(t) => t.root_digest(),
            TrieKinds::Secure(t) => t.root_digest(),
            TrieKinds::Fat(t) => t.root_digest(),
        }
    }

    open spec fn finds(&self, key: Seq<u8>) -> Result<Option<Seq<u8>>, TrieError<Seq<u8>>> {
        match self {
            TrieKinds::Generic(t) => t.finds(key),
            TrieKinds::Secure(t) => t.finds(key),
            TrieKinds::Fat(t) => t.finds(key),
        }
    }

    open spec fn fetches(&self, key: Seq<u8>) -> Seq<Visit> {
        match self {
            TrieKinds::Generic(t) => t.fetches(key),
            TrieKinds::Secure(t) => t.fetches(key),
            TrieKinds::Fat(t) => t.fetches(key),
        }
    }

    open spec fn iterates(&self, it: &TrieKindsIterator<'db>) -> bool {
        match (self, it) {
            (TrieKinds::Generic(t), TrieKindsIterator::Plain(i)) => t.iterates(i),
            (TrieKinds::Secure(t), TrieKindsIterator::Plain(i)) => t.iterates(i),
            (TrieKinds::Fat(t), TrieKindsIterator::Fat(i)) => t.iterates(i),
            _ => false,
        }
    }

    fn root(&self) -> (root: &Digest) {
        match self {
            TrieKinds::Generic(t) => t.root(),
            TrieKinds::Secure(t) => t.root(),
            TrieKinds::Fat(t) => t.root(),
        }
    }

    fn is_empty(&self) -> (empty: bool) {
        match self {
            TrieKinds::Generic(t) => t.is_empty(),
            TrieKinds::Secure(t) => t.is_empty(),
            TrieKinds::Fat(t) => t.is_empty(),
        }
    }

    fn contains(&self, key: &[u8]) -> (r: Result<bool, TrieError<Digest>>) {
        match self {
            TrieKinds::Generic(t) => t.contains(key),
            TrieKinds::Secure(t) => t.contains(key),
            TrieKinds::Fat(t) => t.contains(key),
        }
    }

    fn get(&self, key: &[u8]) -> (r: Result<Option<Vec<u8>>, TrieError<Digest>>) {
        match self {
            TrieKinds::Generic(t) => t.get(key),
            TrieKinds::Secure(t) => t.get(key),
            TrieKinds::Fat(t) => t.get(key),
        }
    }

    fn get_with<Q: Query>(&self, key: &[u8], query: &mut Q) -> (r: Result<
        Option<Q::Item>,
        TrieError<Digest>,
    >) {
        match self {
            TrieKinds::Generic(t) => t.get_with(key, query),
            TrieKinds::Secure(t) => t.get_with(key, query),
            TrieKinds::Fat(t) => t.get_with(key, query),
        }
    }

    fn iter(&self) -> (r: Result<TrieKindsIterator<'db>, TrieError<Digest>>) {
        match self {
            TrieKinds::Generic(t) => match t.iter() {
                Ok(it) => Ok(TrieKindsIterator::Plain(it)),
                Err(e) => Err(e),
            },
            TrieKinds::Secure(t) => match t.iter() {
                Ok(it) => Ok(TrieKindsIterator::Plain(it)),
                Err(e) => Err(e),
            },
            TrieKinds::Fat(t) => match t.iter() {
                Ok(it) => Ok(TrieKindsIterator::Fat(it)),
                Err(e) => Err(e),
            },
        }
    }
}

impl TrieMut for TrieKindsMut {
    open spec fn kind(&self) -> TrieSpec {
        match self {
            TrieKindsMut::Generic(t) => t.kind(),
            TrieKindsMut::Secure(t) => t.kind(),
            TrieKindsMut::Fat(t) => t.kind(),
        }
    }

    open spec fn shape(&self) -> Shape {
        match self {
            TrieKindsMut::Generic(t) => t.shape(),
            TrieKindsMut::Secure(t) => t.shape(),
            TrieKindsMut::Fat(t) => t.shape(),
        }
    }

    open spec fn store(&self) -> Map<Seq<u8>, (Seq<u8>, int)> {
        match self {
            TrieKindsMut::Generic(t) => t.store(),
            TrieKindsMut::Secure(t) => t.store(),
            TrieKindsMut::Fat(t) => t.store(),
        }
    }

    open spec fn root_digest(&self) -> Seq<u8> {
        match self {
            TrieKindsMut::Generic(t) => t.root_digest(),
            TrieKindsMut::Secure(t) => t.root_digest(),
            TrieKindsMut::Fat(t) => t.root_digest(),
        }
    }

    open spec fn doomed(&self) -> Seq<Seq<u8>> {
        match self {
            TrieKindsMut::Generic(t) => t.doomed(),
            TrieKindsMut::Secure(t) => t.doomed(),
            TrieKindsMut::Fat(t) => t.doomed(),
        }
    }

    open spec fn pending(&self) -> bool {
        match self {
            TrieKindsMut::Generic(t) => t.pending(),
            TrieKindsMut::Secure(t) => t.pending(),
            TrieKindsMut::Fat(t) => t.pending(),
        }
    }

    fn root(&mut self) -> (root: Digest) {
        match self {
            TrieKindsMut::Generic(t) => t.root(),
            TrieKindsMut::Secure(t) => t.root(),
            TrieKindsMut::Fat(t) => t.root(),
        }
    }

    fn is_empty(&self) -> (empty: bool) {
        match self {
            TrieKindsMut::Generic(t) => t.is_empty(),
            TrieKindsMut::Secure(t) => t.is_empty(),
            TrieKindsMut::Fat(t) => t.is_empty(),
        }
    }

    fn contains(&self, key: &[u8]) -> (r: Result<bool, TrieError<Digest>>) {
        match self {
            TrieKindsMut::Generic(t) => t.contains(key),
            TrieKindsMut::Secure(t) => t.contains(key),
            TrieKindsMut::Fat(t) => t.contains(key),
        }
    }

    fn get(&self, key: &[u8]) -> (r: Result<Option<Vec<u8>>, TrieError<Digest>>) {
        match self {
            TrieKindsMut::Generic(t) => t.get(key),
            TrieKindsMut::Secure(t) => t.get(key),
            TrieKindsMut::Fat(t) => t.get(key),
        }
    }

    fn insert(&mut self, key: &[u8], value: &[u8]) -> (r: Result<Option<Vec<u8>>, TrieError<Digest>>) {
        match self {
            TrieKindsMut::Generic(t) => t.insert(key, value),
            TrieKindsMut::Secure(t) => t.insert(key, value),
            TrieKindsMut::Fat(t) => t.insert(key, value),
        }
    }

    fn remove(&mut self, key: &[u8]) -> (r: Result<Option<Vec<u8>>, TrieError<Digest>>) {
        match self {
            TrieKindsMut::Generic(t) => t.remove(key),
            TrieKindsMut::Secure(t) => t.remove(key),
            TrieKindsMut::Fat(t) => t.remove(key),
        }
    }
}

/// The factory of tries of one kind.
#[derive(Debug, Clone, Copy)]
pub struct TrieFactory {
    spec: TrieSpec,
}

impl Default for TrieFactory {
    fn default() -> (factory: TrieFactory)
        ensures
            factory.kind() == TrieSpec::Secure,
    {
        TrieFactory { spec: TrieSpec::Secure }
    }
}

impl TrieFactory {
    /// The kind of trie that the factory makes.
    pub closed spec fn kind(&self) -> TrieSpec {
        self.spec
    }

    /// A factory of tries of the kind `spec`.
    pub fn new(spec: TrieSpec) -> (factory: TrieFactory)
        ensures
            factory.kind() == spec,
    {
        TrieFactory { spec }
    }

    /// The read-only trie that `db` holds under `root`, of the factory's
    /// kind; an error where `db` holds nothing under `root`.
    pub fn readonly<'db>(&self, db: &'db Store, root: &'db Digest) -> (r: Result<
        TrieKinds<'db>,
        TrieError<Digest>,
    >)
        ensures
            match r {
                Ok(trie) => {
                    &&& stored(store_entries(*db), root@) is Some
                    &&& trie.root_digest() == root@
                    &&& match self.kind() {
                        TrieSpec::Generic => trie is Generic && trie->Generic_0.store()
                            == store_entries(*db),
                        TrieSpec::Secure => trie is Secure
                            && trie->Secure_0.raw_view().store() == store_entries(*db),
                        TrieSpec::Fat => trie is Fat && trie->Fat_0.raw_view().store()
                            == store_entries(*db),
                    }
                },
                Err(e) => stored(store_entries(*db), root@) is None && e@
                    == TrieError::InvalidStateRoot(root@),
            },
    {
        match self.spec {
            TrieSpec::Generic => match TrieDB::new(db, root) {
                Ok(t) => Ok(TrieKinds::Generic(t)),
                Err(e) => Err(e),
            },
            TrieSpec::Secure => match SecTrieDB::new(db, root) {
                Ok(t) => Ok(TrieKinds::Secure(t)),
                Err(e) => Err(e),
            },
            TrieSpec::Fat => match FatDB::new(db, root) {
                Ok(t) => Ok(TrieKinds::Fat(t)),
                Err(e) => Err(e),
            },
        }
    }

    /// A trie of the factory's kind without entries, over `db`.
    pub fn create(&self, db: Store) -> (trie: TrieKindsMut)
        ensures
            trie.kind() == self.kind(),
            trie.shape() is Empty,
            trie.store() == store_entries(db),
            trie.root_digest() == null_digest(),
            trie.doomed() == Seq::<Seq<u8>>::empty(),
            !trie.pending(),
    {
        match self.spec {
            TrieSpec::Generic => TrieKindsMut::Generic(TrieDBMut::new(db)),
            TrieSpec::Secure => TrieKindsMut::Secure(SecTrieDBMut::new(db)),
            TrieSpec::Fat => TrieKindsMut::Fat(FatDBMut::new(db)),
        }
    }

    /// The trie of the factory's kind that `db` holds under `root`, for
    /// writing: the root held by its digest. Where `db` holds nothing under
    /// `root`, the error and the store.
    pub fn from_existing(&self, db: Store, root: &Digest) -> (r: Result<TrieKindsMut, Rejected>)
        ensures
            match r {
                Ok(trie) => {
                    &&& stored(store_entries(db), root@) is Some
                    &&& trie.kind() == self.kind()
                    &&& trie.shape() == (Shape::Hash { digest: root@ })
                    &&& trie.store() == store_entries(db)
                    &&& trie.root_digest() == root@
                    &&& trie.doomed() == Seq::<Seq<u8>>::empty()
                    &&& !trie.pending()
                },
                Err(rejected) => {
                    &&& stored(store_entries(db), root@) is None
                    &&& rejected.error@ == TrieError::InvalidStateRoot(root@)
                    &&& rejected.db == db
                },
            },
    {
        match self.spec {
            TrieSpec::Generic => match TrieDBMut::from_existing(db, root) {
                Ok(t) => Ok(TrieKindsMut::Generic(t)),
                Err(e) => Err(e),
            },
            TrieSpec::Secure => match SecTrieDBMut::from_existing(db, root) {
                Ok(t) => Ok(TrieKindsMut::Secure(t)),
                Err(e) => Err(e),
            },
            TrieSpec::Fat => match FatDBMut::from_existing(db, root) {
                Ok(t) => Ok(TrieKindsMut::Fat(t)),
                Err(e) => Err(e),
            },
        }
    }

    /// Whether the factory makes fat tries, whose keys can be listed.
    pub fn is_fat(&self) -> (fat: bool)
        ensures
            fat == (self.kind() == TrieSpec::Fat),
    {
        self.spec == TrieSpec::Fat
    }
}

} // verus!
