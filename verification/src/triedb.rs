//! The trie for reading: a store and a root.

use vstd::prelude::*;
use vstd::slice::slice_to_vec;
use crate::cursor::first_entry;
use crate::cursor::first_in;
use crate::cursor::next_entry;
use crate::cursor::next_in;
use crate::error::TrieError;
use crate::hasher::Digest;
use crate::hasher::same_digest;
use crate::load::expand;
use crate::load::expanded;
use crate::load::is_canonical;
use crate::lookup::found;
use crate::lookup::look_up;
use crate::lookup::visits;
use crate::nibble::bytes_of;
use crate::nibble::nibbles_of;
use crate::nibble::pack;
use crate::nibble::to_nibbles;
use crate::node::Node;
use crate::recorder::Query;
use crate::recorder::Visit;
use crate::shape::Shape;
use crate::store::Store;
use crate::store::hashed_null_node;
use crate::store::store_entries;
use crate::store::stored;
use crate::trie::Trie;
use crate::trie::TrieIterator;
use crate::trie::ask;
use crate::trie::stepped;

verus! {

/// What comes after `place` in the trie that the store holds under `root`:
/// the first entry where `place` is none, else the first whose path comes
/// after it.
pub open spec fn entry_after(
    entries: Map<Seq<u8>, (Seq<u8>, int)>,
    root: Seq<u8>,
    place: Option<Seq<u8>>,
) -> Result<Option<(Seq<u8>, Seq<u8>)>, TrieError<Seq<u8>>> {
    match place {
        None => first_in(
            entries,
            Shape::Hash { digest: root },
            Seq::empty(),
            usize::MAX as nat,
            root,
        ),
        Some(bound) => next_in(
            entries,
            Shape::Hash { digest: root },
            Seq::empty(),
            bound,
            usize::MAX as nat,
            root,
        ),
    }
}

/// An entry with the key that its path packs into.
pub open spec fn keyed_entry(
    found: Result<Option<(Seq<u8>, Seq<u8>)>, TrieError<Seq<u8>>>,
) -> Result<Option<(Seq<u8>, (Seq<u8>, Seq<u8>))>, TrieError<Seq<u8>>> {
    match found {
        Ok(Some((path, value))) => Ok(Some((path, (bytes_of(path), value)))),
        Ok(None) => Ok(None),
        Err(e) => Err(e),
    }
}

/// An iterator over the entries of a trie, in the order of the walk through
/// it.
pub struct TrieDBIterator<'db> {
    db: &'db Store,
    root: &'db Digest,
    bound: Option<Vec<u8>>,
    done: bool,
}

impl<'db> TrieDBIterator<'db> {
    /// What the store holds.
    pub closed spec fn store(&self) -> Map<Seq<u8>, (Seq<u8>, int)> {
        store_entries(*self.db)
    }

    /// The digest of the root.
    pub closed spec fn root_digest(&self) -> Seq<u8> {
        (*self.root)@
    }

    /// An iterator over the trie that `db` holds under `root`, set before
    /// the first entry.
    pub fn new(db: &'db Store, root: &'db Digest) -> (it: TrieDBIterator<'db>)
        ensures
            it.store() == store_entries(*db),
            it.root_digest() == root@,
            it.place() is None,
            !it.ended(),
    {
        TrieDBIterator { db, root, bound: None, done: false }
    }

    /// The digest of the root.
    pub fn root(&self) -> (root: Digest)
        ensures
            root@ == self.root_digest(),
    {
        *self.root
    }

    /// The next entry with its path, if one is left.
    pub fn step(&mut self) -> (item: Option<Result<(Vec<u8>, Vec<u8>), TrieError<Digest>>>)
        ensures
            final(self).store() == old(self).store(),
            final(self).root_digest() == old(self).root_digest(),
            stepped(
                old(self).ended(),
                match entry_after(old(self).store(), old(self).root_digest(), old(self).place()) {
                    Ok(Some((path, value))) => Ok(Some((path, (path, value)))),
                    Ok(None) => Ok(None),
                    Err(e) => Err(e),
                },
                item,
                final(self).place(),
                final(self).ended(),
            ),
    {
        if self.done {
            return None;
        }
        let top = Node::Hash { digest: *self.root };
        let mut prefix: Vec<u8> = Vec::new();
        assert(prefix@ =~= Seq::<u8>::empty());
        let found = match &self.bound {
            None => first_entry(self.db, &top, &mut prefix, usize::MAX, self.root),
            Some(bound) => {
                assert(bound@.skip(0) =~= bound@);
                next_entry(self.db, &top, &mut prefix, bound.as_slice(), 0, usize::MAX, self.root)
            },
        };
        match found {
            Ok(Some((path, value))) => {
                self.bound = Some(slice_to_vec(path.as_slice()));
                Some(Ok((path, value)))
            },
            Ok(None) => {
                self.done = true;
                None
            },
            Err(e) => {
                self.done = true;
                Some(Err(e))
            },
        }
    }
}

impl<'db> TrieIterator for TrieDBIterator<'db> {
    closed spec fn place(&self) -> Option<Seq<u8>> {
        match self.bound {
            Some(bound) => Some(bound@),
            None => None,
        }
    }

    closed spec fn ended(&self) -> bool {
        self.done
    }

    open spec fn coming(&self) -> Result<Option<(Seq<u8>, (Seq<u8>, Seq<u8>))>, TrieError<Seq<u8>>> {
        keyed_entry(entry_after(self.store(), self.root_digest(), self.place()))
    }

    open spec fn seek_place(&self, key: Seq<u8>) -> Seq<u8> {
        nibbles_of(key)
    }

    open spec fn same_trie(&self, other: &Self) -> bool {
        other.store() == self.store() && other.root_digest() == self.root_digest()
    }

    fn seek(&mut self, key: &[u8]) -> (r: Result<(), TrieError<Digest>>) {
        self.bound = Some(to_nibbles(key));
        self.done = false;
        Ok(())
    }

    fn next(&mut self) -> (item: Option<Result<(Vec<u8>, Vec<u8>), TrieError<Digest>>>) {
        match self.step() {
            Some(Ok((path, value))) => Some(Ok((pack(path.as_slice()), value))),
            Some(Err(e)) => Some(Err(e)),
            None => None,
        }
    }
}

/// A trie for reading: the store, and the digest of the root node.
pub struct TrieDB<'db> {
    db: &'db Store,
    root: &'db Digest,
}

impl<'db> TrieDB<'db> {
    /// What the store holds.
    pub closed spec fn store(&self) -> Map<Seq<u8>, (Seq<u8>, int)> {
        store_entries(*self.db)
    }

    /// The trie that `db` holds under `root`; an error where it holds
    /// nothing there.
    pub fn new(db: &'db Store, root: &'db Digest) -> (r: Result<TrieDB<'db>, TrieError<Digest>>)
        ensures
            match r {
                Ok(trie) => stored(store_entries(*db), root@) is Some && trie.store()
                    == store_entries(*db) && trie.root_digest() == root@,
                Err(e) => stored(store_entries(*db), root@) is None && e@
                    == TrieError::InvalidStateRoot(root@),
            },
    {
        if db.contains(root) {
            Ok(TrieDB { db, root })
        } else {
            Err(TrieError::InvalidStateRoot(*root))
        }
    }

    /// Whether the trie is in normal form, once all of it is brought out of
    /// the store; or the error of the first node that is missing or cannot
    /// be read.
    pub fn check(&self) -> (r: Result<bool, TrieError<Digest>>)
        ensures
            match expanded(
                self.store(),
                Shape::Hash { digest: self.root_digest() },
                usize::MAX as nat,
                self.root_digest(),
            ) {
                Ok((shape, _)) => r is Ok && r->Ok_0 == shape.canonical(),
                Err(e) => r is Err && r->Err_0@ == e,
            },
    {
        let mut fetched: Vec<Digest> = Vec::new();
        match expand(
            self.db,
            Node::Hash { digest: *self.root },
            usize::MAX,
            self.root,
            &mut fetched,
        ) {
            Ok(tree) => Ok(is_canonical(&tree)),
            Err(e) => Err(e),
        }
    }

    /// The store.
    pub fn db(&self) -> (db: &'db Store)
        ensures
            store_entries(*db) == self.store(),
    {
        self.db
    }
}

impl<'db> Trie for TrieDB<'db> {
    type Iter = TrieDBIterator<'db>;

    closed spec fn root_digest(&self) -> Seq<u8> {
        (*self.root)@
    }

    open spec fn finds(&self, key: Seq<u8>) -> Result<Option<Seq<u8>>, TrieError<Seq<u8>>> {
        found(self.store(), Shape::Hash { digest: self.root_digest() }, nibbles_of(key), 0)
    }

    open spec fn fetches(&self, key: Seq<u8>) -> Seq<Visit> {
        visits(self.store(), Shape::Hash { digest: self.root_digest() }, nibbles_of(key), 0)
    }

    open spec fn iterates(&self, it: &TrieDBIterator<'db>) -> bool {
        it.store() == self.store() && it.root_digest() == self.root_digest()
    }

    fn root(&self) -> (root: &Digest) {
        self.root
    }

    fn is_empty(&self) -> (empty: bool) {
        let null = hashed_null_node();
        same_digest(self.root, &null)
    }

    fn contains(&self, key: &[u8]) -> (r: Result<bool, TrieError<Digest>>) {
        match self.get(key) {
            Ok(value) => Ok(value.is_some()),
            Err(e) => Err(e),
        }
    }

    fn get(&self, key: &[u8]) -> (r: Result<Option<Vec<u8>>, TrieError<Digest>>) {
        let path = to_nibbles(key);
        let (outcome, _) = look_up(self.db, self.root, path.as_slice());
        outcome
    }

    fn get_with<Q: Query>(&self, key: &[u8], query: &mut Q) -> (r: Result<
        Option<Q::Item>,
        TrieError<Digest>,
    >) {
        let path = to_nibbles(key);
        let (outcome, records) = look_up(self.db, self.root, path.as_slice());
        ask(outcome, &records, query)
    }

    fn iter(&self) -> (r: Result<TrieDBIterator<'db>, TrieError<Digest>>) {
        Ok(TrieDBIterator::new(self.db, self.root))
    }
}

} // verus!
