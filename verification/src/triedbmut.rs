//! The trie for writing: the tree as far as it is in memory, the store,
//! and the root.

use vstd::prelude::*;
use crate::codec::encode_into;
use crate::codec::encoding;
use crate::codec::stored_parts;
use crate::error::TrieError;
use crate::hasher::Digest;
use crate::hasher::same_digest;
use crate::kinds::TrieSpec;
use crate::lazy::cut_at;
use crate::lazy::put;
use crate::lazy::put_at;
use crate::lookup::found;
use crate::lookup::walk;
use crate::nibble::lemma_nibbles_round_trip;
use crate::nibble::nibbles_of;
use crate::nibble::to_nibbles;
use crate::node::Node;
use crate::recorder::Record;
use crate::regular::regular;
use crate::shape::Shape;
use crate::store::Store;
use crate::store::digests;
use crate::store::hashed_null_node;
use crate::store::key_rows;
use crate::store::null_digest;
use crate::store::rows;
use crate::store::store_entries;
use crate::store::stored;
use crate::triemut::TrieMut;
use crate::triemut::can_commit;
use crate::triemut::changed;
use crate::triemut::commit_writes;
use crate::triemut::committed;
use crate::triemut::pending_root;

verus! {

/// A trie for writing. It owns the store for as long as it lives;
/// `into_parts` hands the store back with the root.
pub struct TrieDBMut {
    db: Store,
    root: Digest,
    tree: Node,
    doomed: Vec<Digest>,
    dirty: bool,
}

/// A store that was handed in for a trie that could not be made, and why.
pub struct Rejected {
    pub error: TrieError<Digest>,
    pub db: Store,
}

impl TrieDBMut {
    /// A trie without entries over `db`. Its root is the digest of the
    /// empty node.
    pub fn new(db: Store) -> (trie: TrieDBMut)
        ensures
            trie.shape() is Empty,
            trie.store() == store_entries(db),
            trie.root_digest() == null_digest(),
            trie.doomed() == Seq::<Seq<u8>>::empty(),
            !trie.pending(),
            trie.kind() == TrieSpec::Generic,
    {
        let doomed: Vec<Digest> = Vec::new();
        assert(key_rows(doomed@) =~= Seq::<Seq<u8>>::empty());
        TrieDBMut { db, root: hashed_null_node(), tree: Node::Empty, doomed, dirty: false }
    }

    /// The trie that `db` holds under `root`: the root held by its digest.
    /// Where `db` holds nothing under `root`, the error and the store.
    pub fn from_existing(db: Store, root: &Digest) -> (r: Result<TrieDBMut, Rejected>)
        ensures
            match r {
                Ok(trie) => {
                    &&& stored(store_entries(db), root@) is Some
                    &&& trie.shape() == (Shape::Hash { digest: root@ })
                    &&& trie.store() == store_entries(db)
                    &&& trie.root_digest() == root@
                    &&& trie.doomed() == Seq::<Seq<u8>>::empty()
                    &&& !trie.pending()
                    &&& trie.kind() == TrieSpec::Generic
                },
                Err(rejected) => {
                    &&& stored(store_entries(db), root@) is None
                    &&& rejected.error@ == TrieError::InvalidStateRoot(root@)
                    &&& rejected.db == db
                },
            },
    {
        if !db.contains(root) {
            return Err(Rejected { error: TrieError::InvalidStateRoot(*root), db });
        }
        let doomed: Vec<Digest> = Vec::new();
        assert(key_rows(doomed@) =~= Seq::<Seq<u8>>::empty());
        Ok(TrieDBMut { db, root: *root, tree: Node::Hash { digest: *root }, doomed, dirty: false })
    }

    /// Writes what is pending to the store: a reference is taken from each
    /// node that was fetched, the encodings of the tree are inserted, and
    /// the root is set to the digest of the tree's encoding. Afterwards the
    /// tree is the root held by its digest.
    pub fn commit(&mut self)
        requires
            old(self).pending() ==> can_commit(
                old(self).store(),
                old(self).doomed(),
                old(self).shape(),
            ),
        ensures
            final(self).kind() == old(self).kind(),
            !final(self).pending(),
            final(self).root_digest() == if old(self).pending() {
                pending_root(old(self).shape())
            } else {
                old(self).root_digest()
            },
            final(self).shape() == if old(self).pending() {
                Shape::Hash { digest: pending_root(old(self).shape()) }
            } else {
                old(self).shape()
            },
            final(self).store() == if old(self).pending() {
                committed(old(self).store(), old(self).doomed(), old(self).shape())
            } else {
                old(self).store()
            },
            final(self).doomed() == if old(self).pending() {
                Seq::<Seq<u8>>::empty()
            } else {
                old(self).doomed()
            },
    {
        if !self.dirty {
            return ;
        }
        let mut writes: Vec<Vec<u8>> = Vec::new();
        assert(rows(writes@) =~= Seq::<Seq<u8>>::empty());
        let mut tree = Node::Empty;
        core::mem::swap(&mut self.tree, &mut tree);
        let root: Digest = match tree {
            Node::Hash { digest } => {
                self.db.remove_all(&self.doomed);
                let _ = self.db.insert_all(&writes);
                digest
            },
            node => {
                let top = encode_into(&node, &mut writes);
                let ghost below = rows(writes@);
                writes.push(top);
                assert(rows(writes@) =~= commit_writes(node@)) by {
                    assert(rows(writes@) =~= below.push(encoding(node@)));
                    assert(below =~= stored_parts(node@));
                }
                self.db.remove_all(&self.doomed);
                let keys = self.db.insert_all(&writes);
                let n: usize = keys.len();
                assert(key_rows(keys@).len() == digests(rows(writes@)).len());
                assert(n == writes.len());
                assert(key_rows(keys@)[n - 1] == digests(rows(writes@))[n - 1]);
                keys[n - 1]
            },
        };
        self.root = root;
        self.tree = Node::Hash { digest: root };
        self.doomed = Vec::new();
        assert(key_rows(self.doomed@) =~= Seq::<Seq<u8>>::empty());
        self.dirty = false;
    }

    /// Commits, and hands back the store and the root.
    pub fn into_parts(self) -> (parts: (Store, Digest))
        requires
            self.pending() ==> can_commit(self.store(), self.doomed(), self.shape()),
        ensures
            parts.1@ == if self.pending() {
                pending_root(self.shape())
            } else {
                self.root_digest()
            },
            store_entries(parts.0) == if self.pending() {
                committed(self.store(), self.doomed(), self.shape())
            } else {
                self.store()
            },
    {
        let mut trie = self;
        trie.commit();
        (trie.db, trie.root)
    }

    /// The digest of the root as of the last commit.
    pub fn last_root(&self) -> (root: Digest)
        ensures
            root@ == self.root_digest(),
    {
        self.root
    }

    /// The store.
    pub fn db(&self) -> (db: &Store)
        ensures
            store_entries(*db) == self.store(),
    {
        &self.db
    }

    /// Puts a value that is not empty at `key`.
    fn put_value(&mut self, key: &[u8], value: &[u8]) -> (r: Result<
        Option<Vec<u8>>,
        TrieError<Digest>,
    >)
        requires
            regular(old(self).shape()),
            value.len() > 0,
        ensures
            final(self).store() == old(self).store(),
            final(self).root_digest() == old(self).root_digest(),
            regular(final(self).shape()),
            changed(
                found(old(self).store(), old(self).shape(), nibbles_of(key@), 1),
                old(self).root_digest(),
                old(self).doomed(),
                put(old(self).store(), old(self).shape(), nibbles_of(key@), value@),
                r,
                final(self).shape(),
                final(self).doomed(),
                final(self).pending(),
            ),
    {
        proof {
            lemma_nibbles_round_trip(key@);
        }
        let path = to_nibbles(key);
        assert(path@.skip(0) =~= path@);
        let mut tree = Node::Empty;
        core::mem::swap(&mut self.tree, &mut tree);
        match put_at(
            &self.db,
            tree,
            path.as_slice(),
            0,
            vstd::slice::slice_to_vec(value),
            1,
            &mut self.doomed,
        ) {
            Ok((tree, old)) => {
                self.tree = tree;
                self.dirty = true;
                Ok(old)
            },
            Err(e) => {
                self.roll_back();
                Err(e)
            },
        }
    }

    /// Rolls the trie back to its last commit: the tree is the root held by
    /// its digest, and nothing is pending.
    pub fn roll_back(&mut self)
        ensures
            final(self).kind() == old(self).kind(),
            final(self).store() == old(self).store(),
            final(self).root_digest() == old(self).root_digest(),
            final(self).shape() == (Shape::Hash { digest: old(self).root_digest() }),
            final(self).doomed() == Seq::<Seq<u8>>::empty(),
            !final(self).pending(),
    {
        self.tree = Node::Hash { digest: self.root };
        self.doomed = Vec::new();
        assert(key_rows(self.doomed@) =~= Seq::<Seq<u8>>::empty());
        self.dirty = false;
    }
}

impl TrieMut for TrieDBMut {
    open spec fn kind(&self) -> TrieSpec {
        TrieSpec::Generic
    }

    closed spec fn shape(&self) -> Shape {
        self.tree@
    }

    closed spec fn store(&self) -> Map<Seq<u8>, (Seq<u8>, int)> {
        store_entries(self.db)
    }

    closed spec fn root_digest(&self) -> Seq<u8> {
        self.root@
    }

    closed spec fn doomed(&self) -> Seq<Seq<u8>> {
        key_rows(self.doomed@)
    }

    closed spec fn pending(&self) -> bool {
        self.dirty
    }

    fn root(&mut self) -> (root: Digest) {
        self.commit();
        self.root
    }

    fn is_empty(&self) -> (empty: bool) {
        match &self.tree {
            Node::Empty => true,
            Node::Hash { digest } => {
                let null = hashed_null_node();
                same_digest(digest, &null)
            },
            _ => false,
        }
    }

    fn contains(&self, key: &[u8]) -> (r: Result<bool, TrieError<Digest>>) {
        match self.get(key) {
            Ok(value) => Ok(value.is_some()),
            Err(e) => Err(e),
        }
    }

    fn get(&self, key: &[u8]) -> (r: Result<Option<Vec<u8>>, TrieError<Digest>>) {
        let path = to_nibbles(key);
        assert(path@.skip(0) =~= path@);
        let mut records: Vec<Record> = Vec::new();
        walk(&self.db, &self.tree, path.as_slice(), 0, 1, &mut records)
    }

    fn insert(&mut self, key: &[u8], value: &[u8]) -> (r: Result<Option<Vec<u8>>, TrieError<Digest>>) {
        if value.len() == 0 {
            self.remove(key)
        } else {
            self.put_value(key, value)
        }
    }

    fn remove(&mut self, key: &[u8]) -> (r: Result<Option<Vec<u8>>, TrieError<Digest>>) {
        let path = to_nibbles(key);
        assert(path@.skip(0) =~= path@);
        let mut tree = Node::Empty;
        core::mem::swap(&mut self.tree, &mut tree);
        match cut_at(&self.db, tree, path.as_slice(), 0, 1, &mut self.doomed) {
            Ok((tree, old)) => {
                self.tree = tree;
                self.dirty = true;
                Ok(old)
            },
            Err(e) => {
                self.roll_back();
                Err(e)
            },
        }
    }
}

} // verus!
