//! What every read-only trie offers, and what an iterator over one is.

use vstd::prelude::*;
use crate::error::TrieError;
use crate::hasher::Digest;
use crate::lookup::outcome_view;
use crate::recorder::Query;
use crate::recorder::Record;
use crate::recorder::Visit;
use crate::recorder::told_all;
use crate::recorder::visits_of;
use crate::store::null_digest;

verus! {

/// What a query hands back for what a walk found.
pub open spec fn answers<Q: Query>(
    query: Q,
    outcome: Result<Option<Seq<u8>>, TrieError<Seq<u8>>>,
    r: Result<Option<Q::Item>, TrieError<Digest>>,
) -> bool {
    match outcome {
        Ok(Some(value)) => r is Ok && r->Ok_0 is Some && query.decodes(value, r->Ok_0->Some_0),
        Ok(None) => r is Ok && r->Ok_0 is None,
        Err(e) => r is Err && r->Err_0@ == e,
    }
}

/// Tells `query` of each of `records` in turn, and has it decode the value
/// that was found.
pub fn ask<Q: Query>(
    outcome: Result<Option<Vec<u8>>, TrieError<Digest>>,
    records: &Vec<Record>,
    query: &mut Q,
) -> (r: Result<Option<Q::Item>, TrieError<Digest>>)
    ensures
        told_all(*old(query), visits_of(records@), *final(query)),
        answers(*final(query), outcome_view(outcome), r),
{
    let ghost start = *query;
    let ghost all = visits_of(records@);
    let mut i: usize = 0;
    assert(all.take(0) =~= Seq::<Visit>::empty());
    while i < records.len()
        invariant
            i <= records.len(),
            all == visits_of(records@),
            told_all(start, all.take(i as int), *query),
        decreases records.len() - i,
    {
        let ghost mid = *query;
        let record = &records[i];
        query.record(&record.hash, record.data.as_slice(), record.depth);
        proof {
            assert(all.take(i + 1).drop_last() =~= all.take(i as int));
            assert(all.take(i + 1).last() == record@);
            assert(mid.tells(all.take(i + 1).last(), *query));
        }
        i += 1;
    }
    assert(all.take(i as int) =~= all);
    match outcome {
        Ok(Some(value)) => Ok(Some(query.decode(value.as_slice()))),
        Ok(None) => Ok(None),
        Err(e) => Err(e),
    }
}

/// Whether a step of an iterator that had `ended`, or else had `coming`
/// before it, handed out `item` and left the iterator at `place`, ended or
/// not. An entry is handed out with its key and its value, and the iterator
/// then stands after the path of the entry. Where nothing comes, or an
/// error, the iterator has ended.
pub open spec fn stepped(
    ended: bool,
    coming: Result<Option<(Seq<u8>, (Seq<u8>, Seq<u8>))>, TrieError<Seq<u8>>>,
    item: Option<Result<(Vec<u8>, Vec<u8>), TrieError<Digest>>>,
    place: Option<Seq<u8>>,
    ended_after: bool,
) -> bool {
    if ended {
        item is None && ended_after
    } else {
        match coming {
            Ok(Some((path, (key, value)))) => {
                &&& item is Some
                &&& item->Some_0 is Ok
                &&& item->Some_0->Ok_0.0@ == key
                &&& item->Some_0->Ok_0.1@ == value
                &&& place == Some(path)
                &&& !ended_after
            },
            Ok(None) => item is None && ended_after,
            Err(e) => item is Some && item->Some_0 is Err && item->Some_0->Err_0@ == e
                && ended_after,
        }
    }
}

/// An iterator over the entries of a trie, in the order of their paths,
/// which can be set to a key. It holds no more than the path after which it
/// stands; each step walks from the root to the entry that comes next.
pub trait TrieIterator {
    /// The path after which the iterator stands; none before the first
    /// entry.
    spec fn place(&self) -> Option<Seq<u8>>;

    /// Whether the iterator has ended: nothing came, or an error.
    spec fn ended(&self) -> bool;

    /// What comes next where the iterator has not ended: the path of the
    /// entry with its key and value, nothing, or the error of the first
    /// node on the way that is missing or cannot be read.
    spec fn coming(&self) -> Result<Option<(Seq<u8>, (Seq<u8>, Seq<u8>))>, TrieError<Seq<u8>>>;

    /// The path that `seek` sets the iterator to for `key`.
    spec fn seek_place(&self, key: Seq<u8>) -> Seq<u8>;

    /// Whether `other` goes over the same trie.
    spec fn same_trie(&self, other: &Self) -> bool;

    /// Sets the iterator to `key`: what comes next is the first entry whose
    /// path comes after that of `key`.
    fn seek(&mut self, key: &[u8]) -> (r: Result<(), TrieError<Digest>>)
        ensures
            r is Ok,
            final(self).place() == Some(old(self).seek_place(key@)),
            !final(self).ended(),
            old(self).same_trie(final(self)),
    ;

    /// The next entry, if one is left.
    fn next(&mut self) -> (item: Option<Result<(Vec<u8>, Vec<u8>), TrieError<Digest>>>)
        ensures
            old(self).same_trie(final(self)),
            stepped(
                old(self).ended(),
                old(self).coming(),
                item,
                final(self).place(),
                final(self).ended(),
            ),
    ;
}

/// A key-value map kept as a Merkle tree in a store, for reading.
pub trait Trie {
    /// The iterator that `iter` makes.
    type Iter: TrieIterator;

    /// The digest of the root.
    spec fn root_digest(&self) -> Seq<u8>;

    /// What there is for `key`: a value, nothing, or the error of the first
    /// node on the way that the store does not hold or that cannot be read.
    spec fn finds(&self, key: Seq<u8>) -> Result<Option<Seq<u8>>, TrieError<Seq<u8>>>;

    /// The nodes fetched on the way to `key`, in order.
    spec fn fetches(&self, key: Seq<u8>) -> Seq<Visit>;

    /// Whether `it` goes over this trie.
    spec fn iterates(&self, it: &Self::Iter) -> bool;

    /// The digest of the root.
    fn root(&self) -> (root: &Digest)
        ensures
            root@ == self.root_digest(),
    ;

    /// Whether the trie has no entry: its root is the digest of the empty
    /// node.
    fn is_empty(&self) -> (empty: bool)
        ensures
            empty == (self.root_digest() == null_digest()),
    ;

    /// Whether there is a value for `key`.
    fn contains(&self, key: &[u8]) -> (r: Result<bool, TrieError<Digest>>)
        ensures
            match self.finds(key@) {
                Ok(value) => r is Ok && r->Ok_0 == (value is Some),
                Err(e) => r is Err && r->Err_0@ == e,
            },
    ;

    /// The value for `key`.
    fn get(&self, key: &[u8]) -> (r: Result<Option<Vec<u8>>, TrieError<Digest>>)
        ensures
            outcome_view(r) == self.finds(key@),
    ;

    /// The value for `key` as `query` decodes it; `query` is told of each
    /// node fetched on the way.
    fn get_with<Q: Query>(&self, key: &[u8], query: &mut Q) -> (r: Result<
        Option<Q::Item>,
        TrieError<Digest>,
    >)
        ensures
            told_all(*old(query), self.fetches(key@), *final(query)),
            answers(*final(query), self.finds(key@), r),
    ;

    /// An iterator over the entries, set before the first.
    fn iter(&self) -> (r: Result<Self::Iter, TrieError<Digest>>)
        ensures
            r is Ok,
            r->Ok_0.place() is None,
            !r->Ok_0.ended(),
            self.iterates(&r->Ok_0),
    ;
}

} // verus!
