//! What every trie for writing offers, and what a commit does to the
//! store.

use vstd::prelude::*;
use crate::codec::encoding;
use crate::codec::stored_parts;
use crate::error::TrieError;
use crate::hasher::Digest;
use crate::hasher::digest_of;
use crate::kinds::TrieSpec;
use crate::kinds::kept_of;
use crate::kinds::place_of;
use crate::kinds::shown_entry;
use crate::lazy::cut;
use crate::lazy::put;
use crate::lookup::found;
use crate::lookup::outcome_view;
use crate::regular::regular;
use crate::shape::Shape;
use crate::store::bounded;
use crate::store::can_insert_all;
use crate::store::lemma_insertions_fit;
use crate::store::lemma_removals_fit;
use crate::store::can_remove_all;
use crate::store::inserted_all;
use crate::store::null_digest;
use crate::store::removed_all;

verus! {

/// What a commit writes for a tree that is held in place: the encodings of
/// the nodes below the root that the store keeps under their digests, then
/// that of the root.
pub open spec fn commit_writes(shape: Shape) -> Seq<Seq<u8>> {
    stored_parts(shape) + seq![encoding(shape)]
}

/// The digest of the root of a tree that is held in place.
pub open spec fn root_of(shape: Shape) -> Seq<u8> {
    digest_of(encoding(shape))
}

/// What a commit writes: nothing for a tree that is held by its digest.
pub open spec fn pending_writes(shape: Shape) -> Seq<Seq<u8>> {
    if shape is Hash {
        Seq::empty()
    } else {
        commit_writes(shape)
    }
}

/// The root after a commit.
pub open spec fn pending_root(shape: Shape) -> Seq<u8> {
    if shape is Hash {
        shape->digest
    } else {
        root_of(shape)
    }
}

/// Whether a commit fits: the counts in the store can take the references
/// that it removes and adds.
pub open spec fn can_commit(
    store: Map<Seq<u8>, (Seq<u8>, int)>,
    doomed: Seq<Seq<u8>>,
    shape: Shape,
) -> bool {
    can_remove_all(store, doomed) && can_insert_all(
        removed_all(store, doomed),
        pending_writes(shape),
    )
}

/// The store after a commit: a reference to each node that was fetched is
/// removed, then the encodings of the tree are inserted.
pub open spec fn committed(
    store: Map<Seq<u8>, (Seq<u8>, int)>,
    doomed: Seq<Seq<u8>>,
    shape: Shape,
) -> Map<Seq<u8>, (Seq<u8>, int)> {
    inserted_all(removed_all(store, doomed), pending_writes(shape))
}

/// A commit fits a store whose counts leave room for what it removes and
/// adds.
pub proof fn law_commit_fits(
    store: Map<Seq<u8>, (Seq<u8>, int)>,
    doomed: Seq<Seq<u8>>,
    shape: Shape,
    bound: int,
)
    requires
        bound >= 1,
        bounded(store, bound),
        bound + doomed.len() + pending_writes(shape).len() <= i32::MAX,
    ensures
        can_commit(store, doomed, shape),
{
    lemma_removals_fit(store, doomed, bound);
    lemma_insertions_fit(removed_all(store, doomed), pending_writes(shape), bound + doomed.len());
}

/// What a trie hands out for what the walk to the place of a key found.
pub open spec fn shown(
    kind: TrieSpec,
    root: Seq<u8>,
    outcome: Result<Option<Seq<u8>>, TrieError<Seq<u8>>>,
) -> Result<Option<Seq<u8>>, TrieError<Seq<u8>>> {
    match outcome {
        Ok(held) => shown_entry(kind, root, held),
        Err(e) => Err(e),
    }
}

/// What an insertion makes of the tree: the removal of the entry for an
/// empty value.
pub open spec fn written(
    kind: TrieSpec,
    store: Map<Seq<u8>, (Seq<u8>, int)>,
    shape: Shape,
    key: Seq<u8>,
    value: Seq<u8>,
) -> Result<(Shape, Seq<Seq<u8>>), TrieError<Seq<u8>>> {
    if value.len() == 0 {
        cut(store, shape, place_of(kind, key))
    } else {
        put(store, shape, place_of(kind, key), kept_of(kind, key, value))
    }
}

/// Whether an operation that made `change` of the tree handed back `r`
/// and left the tree `shape`, the digests `doomed` and `pending`. Where the
/// value that was there could be read and the change could be made, `r` is
/// that value and the tree is changed. Else `r` is the error, that of the
/// reading first, and the trie is rolled back to its last commit: the tree
/// is the root held by its digest, and nothing is pending.
pub open spec fn changed(
    was: Result<Option<Seq<u8>>, TrieError<Seq<u8>>>,
    root: Seq<u8>,
    before: Seq<Seq<u8>>,
    change: Result<(Shape, Seq<Seq<u8>>), TrieError<Seq<u8>>>,
    r: Result<Option<Vec<u8>>, TrieError<Digest>>,
    shape: Shape,
    doomed: Seq<Seq<u8>>,
    pending: bool,
) -> bool {
    match (was, change) {
        (Ok(old), Ok((made, fetched))) => {
            &&& outcome_view(r) == was
            &&& shape == made
            &&& doomed == before + fetched
            &&& pending
        },
        _ => {
            &&& r is Err
            &&& r->Err_0@ == (if was is Err {
                was->Err_0
            } else {
                change->Err_0
            })
            &&& shape == (Shape::Hash { digest: root })
            &&& doomed == Seq::<Seq<u8>>::empty()
            &&& !pending
        },
    }
}

/// A key-value map kept as a Merkle tree in a store, for reading and
/// writing. The tree is held in memory as far as it was touched; the rest
/// stays in the store and is fetched when an operation goes that way. A
/// commit writes what is pending to the store and sets the root.
pub trait TrieMut {
    /// The kind of trie.
    spec fn kind(&self) -> TrieSpec;

    /// The tree as far as it is held in memory.
    spec fn shape(&self) -> Shape;

    /// What the store holds.
    spec fn store(&self) -> Map<Seq<u8>, (Seq<u8>, int)>;

    /// The digest of the root as of the last commit.
    spec fn root_digest(&self) -> Seq<u8>;

    /// The digests of the nodes that were fetched since the last commit;
    /// the commit takes a reference from each.
    spec fn doomed(&self) -> Seq<Seq<u8>>;

    /// Whether there are changes that no commit has written yet.
    spec fn pending(&self) -> bool;

    /// Writes what is pending to the store, and hands out the digest of the
    /// root. Afterwards the tree is the root held by its digest.
    fn root(&mut self) -> (root: Digest)
        requires
            old(self).pending() ==> can_commit(
                old(self).store(),
                old(self).doomed(),
                old(self).shape(),
            ),
        ensures
            root@ == final(self).root_digest(),
            final(self).kind() == old(self).kind(),
            !final(self).pending(),
            final(self).root_digest() == if old(self).pending() {
                pending_root(old(self).shape())
            } else {
                old(self).root_digest()
            },
            final(self).shape() == if old(self).pending() {
                Shape::Hash { digest: pending_root(old(self).shape()) }
            } else {
                old(self).shape()
            },
            final(self).store() == if old(self).pending() {
                committed(old(self).store(), old(self).doomed(), old(self).shape())
            } else {
                old(self).store()
            },
            final(self).doomed() == if old(self).pending() {
                Seq::<Seq<u8>>::empty()
            } else {
                old(self).doomed()
            },
    ;

    /// Whether the trie has no entry: the tree is empty, or is the empty
    /// node held by its digest.
    fn is_empty(&self) -> (empty: bool)
        ensures
            empty == (self.shape() is Empty || self.shape() == (Shape::Hash {
                digest: null_digest(),
            })),
    ;

    /// Whether there is a value for `key`.
    fn contains(&self, key: &[u8]) -> (r: Result<bool, TrieError<Digest>>)
        ensures
            match shown(
                self.kind(),
                self.root_digest(),
                found(self.store(), self.shape(), place_of(self.kind(), key@), 1),
            ) {
                Ok(value) => r is Ok && r->Ok_0 == (value is Some),
                Err(e) => r is Err && r->Err_0@ == e,
            },
    ;

    /// The value for `key`.
    fn get(&self, key: &[u8]) -> (r: Result<Option<Vec<u8>>, TrieError<Digest>>)
        ensures
            outcome_view(r) == shown(
                self.kind(),
                self.root_digest(),
                found(self.store(), self.shape(), place_of(self.kind(), key@), 1),
            ),
    ;

    /// Puts `value` at `key` and hands out the value that was there. An
    /// empty value removes the entry.
    fn insert(&mut self, key: &[u8], value: &[u8]) -> (r: Result<
        Option<Vec<u8>>,
        TrieError<Digest>,
    >)
        requires
            regular(old(self).shape()),
        ensures
            final(self).kind() == old(self).kind(),
            final(self).store() == old(self).store(),
            final(self).root_digest() == old(self).root_digest(),
            regular(final(self).shape()),
            changed(
                shown(
                    old(self).kind(),
                    old(self).root_digest(),
                    found(
                        old(self).store(),
                        old(self).shape(),
                        place_of(old(self).kind(), key@),
                        1,
                    ),
                ),
                old(self).root_digest(),
                old(self).doomed(),
                written(
                    old(self).kind(),
                    old(self).store(),
                    old(self).shape(),
                    key@,
                    value@,
                ),
                r,
                final(self).shape(),
                final(self).doomed(),
                final(self).pending(),
            ),
    ;

    /// Removes the entry at `key` and hands out the value that was there.
    fn remove(&mut self, key: &[u8]) -> (r: Result<Option<Vec<u8>>, TrieError<Digest>>)
        requires
            regular(old(self).shape()),
        ensures
            final(self).kind() == old(self).kind(),
            final(self).store() == old(self).store(),
            final(self).root_digest() == old(self).root_digest(),
            regular(final(self).shape()),
            changed(
                shown(
                    old(self).kind(),
                    old(self).root_digest(),
                    found(
                        old(self).store(),
                        old(self).shape(),
                        place_of(old(self).kind(), key@),
                        1,
                    ),
                ),
                old(self).root_digest(),
                old(self).doomed(),
                cut(old(self).store(), old(self).shape(), place_of(old(self).kind(), key@)),
                r,
                final(self).shape(),
                final(self).doomed(),
                final(self).pending(),
            ),
    ;
}

} // verus!
