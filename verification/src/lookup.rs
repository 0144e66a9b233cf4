//! The read path: the walk from a root through the store to the value of a
//! key, and the nodes fetched on the way.

use vstd::prelude::*;
use vstd::slice::slice_subrange;
use vstd::slice::slice_to_vec;
use crate::codec::CodecError;
use crate::codec::decode_node;
use crate::codec::decoded;
use crate::error::TrieError;
use crate::hasher::Digest;
use crate::node::Node;
use crate::node::lemma_branch_view;
use crate::node::same_bytes;
use crate::node::starts_with_at;
use crate::node::value_view;
use crate::recorder::Record;
use crate::recorder::Visit;
use crate::recorder::visits_of;
use crate::shape::Shape;
use crate::store::Store;
use crate::store::store_entries;
use crate::store::stored;

verus! {

/// One more fetch, as far as a `u32` counts.
pub open spec fn deeper(depth: u32) -> u32 {
    if depth < u32::MAX {
        (depth + 1) as u32
    } else {
        depth
    }
}

/// The error for a digest that the store does not hold: the root's where
/// nothing was fetched before, else a node's.
pub open spec fn missing(digest: Seq<u8>, depth: u32) -> TrieError<Seq<u8>> {
    if depth == 0 {
        TrieError::InvalidStateRoot(digest)
    } else {
        TrieError::IncompleteDatabase(digest)
    }
}

/// What the walk along `path` finds from `node` on: the value, nothing, or
/// the error at the first node that the store does not hold or that cannot
/// be read. `depth` counts the nodes fetched before.
pub open spec fn found(
    entries: Map<Seq<u8>, (Seq<u8>, int)>,
    node: Shape,
    path: Seq<u8>,
    depth: u32,
) -> Result<Option<Seq<u8>>, TrieError<Seq<u8>>>
    decreases path.len(), (if node is Hash {
        1int
    } else {
        0int
    }), node,
{
    match node {
        Shape::Empty => Ok(None),
        Shape::Leaf { path: own, value } => Ok(
            if path == own {
                Some(value)
            } else {
                None
            },
        ),
        Shape::Extension { path: own, child } => if own.len() > 0 && own.is_prefix_of(path) {
            found(entries, *child, path.skip(own.len() as int), depth)
        } else {
            Ok(None)
        },
        Shape::Branch { children, value } => if path.len() == 0 {
            Ok(value)
        } else if (path[0] as int) < children.len() {
            found(entries, children[path[0] as int], path.skip(1), depth)
        } else {
            Ok(None)
        },
        Shape::Hash { digest } => match stored(entries, digest) {
            None => Err(missing(digest, depth)),
            Some(bytes) => match decoded(bytes) {
                None => Err(TrieError::DecoderError(digest, CodecError::Malformed)),
                Some(inner) => if inner is Hash {
                    Ok(None)
                } else {
                    found(entries, inner, path, deeper(depth))
                },
            },
        },
    }
}

/// The nodes that the walk along `path` fetches from `node` on, in order.
pub open spec fn visits(
    entries: Map<Seq<u8>, (Seq<u8>, int)>,
    node: Shape,
    path: Seq<u8>,
    depth: u32,
) -> Seq<Visit>
    decreases path.len(), (if node is Hash {
        1int
    } else {
        0int
    }), node,
{
    match node {
        Shape::Empty => Seq::empty(),
        Shape::Leaf { .. } => Seq::empty(),
        Shape::Extension { path: own, child } => if own.len() > 0 && own.is_prefix_of(path) {
            visits(entries, *child, path.skip(own.len() as int), depth)
        } else {
            Seq::empty()
        },
        Shape::Branch { children, value } => if path.len() == 0 {
            Seq::empty()
        } else if (path[0] as int) < children.len() {
            visits(entries, children[path[0] as int], path.skip(1), depth)
        } else {
            Seq::empty()
        },
        Shape::Hash { digest } => match stored(entries, digest) {
            None => Seq::empty(),
            Some(bytes) => seq![Visit { hash: digest, data: bytes, depth }] + (match decoded(
                bytes,
            ) {
                None => Seq::empty(),
                Some(inner) => if inner is Hash {
                    Seq::empty()
                } else {
                    visits(entries, inner, path, deeper(depth))
                },
            }),
        },
    }
}

/// What a walk hands back, as byte strings.
pub open spec fn outcome_view(r: Result<Option<Vec<u8>>, TrieError<Digest>>) -> Result<
    Option<Seq<u8>>,
    TrieError<Seq<u8>>,
> {
    match r {
        Ok(value) => Ok(value_view(value)),
        Err(e) => Err(e@),
    }
}

/// Walks along the nibbles of `path` from `at` on, from `node` down, and
/// fetches from the store what `node` does not hold. Each node fetched is
/// added to `records`.
pub fn walk(
    db: &Store,
    node: &Node,
    path: &[u8],
    at: usize,
    depth: u32,
    records: &mut Vec<Record>,
) -> (r: Result<Option<Vec<u8>>, TrieError<Digest>>)
    requires
        at <= path.len(),
    ensures
        outcome_view(r) == found(store_entries(*db), node@, path@.skip(at as int), depth),
        visits_of(final(records)@) == visits_of(old(records)@) + visits(
            store_entries(*db),
            node@,
            path@.skip(at as int),
            depth,
        ),
    decreases path.len() - at, (if node@ is Hash {
        1int
    } else {
        0int
    }), node,
{
    let ghost before = visits_of(records@);
    let ghost rest = path@.skip(at as int);
    match node {
        Node::Empty => {
            assert(visits_of(records@) =~= before + Seq::<Visit>::empty());
            Ok(None)
        },
        Node::Leaf { path: own, value } => {
            assert(visits_of(records@) =~= before + Seq::<Visit>::empty());
            let tail = slice_subrange(path, at, path.len());
            assert(tail@ =~= rest);
            if same_bytes(tail, own.as_slice()) {
                Ok(Some(slice_to_vec(value.as_slice())))
            } else {
                Ok(None)
            }
        },
        Node::Extension { path: own, child } => {
            if own.len() > 0 && starts_with_at(path, at, own.as_slice()) {
                assert(rest.skip(own.len() as int) =~= path@.skip(at + own.len()));
                walk(db, child, path, at + own.len(), depth, records)
            } else {
                assert(visits_of(records@) =~= before + Seq::<Visit>::empty());
                Ok(None)
            }
        },
        Node::Branch { children, value } => {
            proof {
                lemma_branch_view(*children, *value);
            }
            if at == path.len() {
                assert(visits_of(records@) =~= before + Seq::<Visit>::empty());
                match value {
                    Some(v) => Ok(Some(slice_to_vec(v.as_slice()))),
                    None => Ok(None),
                }
            } else {
                let slot: usize = path[at] as usize;
                if slot < children.len() {
                    assert(rest.skip(1) =~= path@.skip(at + 1));
                    walk(db, &children[slot], path, at + 1, depth, records)
                } else {
                    assert(visits_of(records@) =~= before + Seq::<Visit>::empty());
                    Ok(None)
                }
            }
        },
        Node::Hash { digest } => {
            match db.get(digest) {
                None => {
                    assert(visits_of(records@) =~= before + Seq::<Visit>::empty());
                    if depth == 0 {
                        Err(TrieError::InvalidStateRoot(*digest))
                    } else {
                        Err(TrieError::IncompleteDatabase(*digest))
                    }
                },
                Some(bytes) => {
                    let inner = decode_node(bytes.as_slice());
                    let ghost visit = Visit { hash: digest@, data: bytes@, depth };
                    records.push(Record { depth, data: bytes, hash: *digest });
                    assert(visits_of(records@) =~= before.push(visit));
                    match inner {
                        Err(cause) => {
                            assert(visits_of(records@) =~= before + (seq![visit]
                                + Seq::<Visit>::empty()));
                            Err(TrieError::DecoderError(*digest, cause))
                        },
                        Ok(inner) => {
                            let next: u32 = if depth < u32::MAX {
                                depth + 1
                            } else {
                                depth
                            };
                            let r = walk(db, &inner, path, at, next, records);
                            assert(visits_of(records@) =~= before + (seq![visit] + visits(
                                store_entries(*db),
                                inner@,
                                rest,
                                next,
                            )));
                            r
                        },
                    }
                },
            }
        },
    }
}

/// The value of the key whose nibbles are `path`, in the trie that the
/// store holds under `root`, and the nodes fetched for it.
pub fn look_up(db: &Store, root: &Digest, path: &[u8]) -> (r: (
    Result<Option<Vec<u8>>, TrieError<Digest>>,
    Vec<Record>,
))
    ensures
        outcome_view(r.0) == found(store_entries(*db), Shape::Hash { digest: root@ }, path@, 0),
        visits_of(r.1@) == visits(store_entries(*db), Shape::Hash { digest: root@ }, path@, 0),
{
    let mut records: Vec<Record> = Vec::new();
    let top = Node::Hash { digest: *root };
    assert(path@.skip(0) =~= path@);
    let ghost before = visits_of(records@);
    let outcome = walk(db, &top, path, 0, 0, &mut records);
    assert(visits_of(records@) =~= before + visits(
        store_entries(*db),
        Shape::Hash { digest: root@ },
        path@,
        0,
    ));
    assert(before =~= Seq::<Visit>::empty());
    (outcome, records)
}

} // verus!
