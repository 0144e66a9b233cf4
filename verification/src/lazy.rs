//! Insertion and removal in a tree that holds some of its nodes only by
//! their digests: what lies on the way is fetched from the store.

use vstd::prelude::*;
use crate::codec::CodecError;
use crate::codec::decode_node;
use crate::codec::decoded;
use crate::engine::insert_at;
use crate::engine::remove_at;
use crate::error::TrieError;
use crate::hasher::Digest;
use crate::lookup::found;
use crate::nibble::nibbles_ok;
use crate::node::Node;
use crate::node::lemma_branch_view;
use crate::node::moved_down;
use crate::node::next_occupied;
use crate::node::shapes_of;
use crate::node::starts_with_at;
use crate::node::value_view;
use crate::regular::lemma_decoded_regular;
use crate::regular::lemma_regular_collapsed;
use crate::regular::lemma_regular_insert;
use crate::regular::lemma_regular_prefixed;
use crate::regular::lemma_regular_remove;
use crate::regular::regular;
use crate::shape::Shape;
use crate::shape::collapsed;
use crate::shape::lemma_next_child;
use crate::shape::next_child;
use crate::shape::prefixed;
use crate::store::Store;
use crate::store::key_rows;
use crate::store::store_entries;
use crate::store::stored;

verus! {

/// One for a node that is held by its digest, zero for one held in place.
pub open spec fn stub_rank(node: Shape) -> int {
    if node is Hash {
        1
    } else {
        0
    }
}

/// The node that the store holds under `digest`, or the error: the node is
/// missing, or what is there is no node.
pub open spec fn fetched_node(entries: Map<Seq<u8>, (Seq<u8>, int)>, digest: Seq<u8>) -> Result<
    Shape,
    TrieError<Seq<u8>>,
> {
    match stored(entries, digest) {
        None => Err(TrieError::IncompleteDatabase(digest)),
        Some(bytes) => match decoded(bytes) {
            None => Err(TrieError::DecoderError(digest, CodecError::Malformed)),
            Some(inner) => if inner is Hash {
                Err(TrieError::DecoderError(digest, CodecError::Malformed))
            } else {
                Ok(inner)
            },
        },
    }
}

/// The tree with `value` at `path`, and the digests of the nodes that were
/// fetched for it, in order; or the error at the first node on the way that
/// is missing or cannot be read. Nodes off the way stay as they are.
pub open spec fn put(
    entries: Map<Seq<u8>, (Seq<u8>, int)>,
    node: Shape,
    path: Seq<u8>,
    value: Seq<u8>,
) -> Result<(Shape, Seq<Seq<u8>>), TrieError<Seq<u8>>>
    decreases path.len(), stub_rank(node), node,
{
    match node {
        Shape::Hash { digest } => match fetched_node(entries, digest) {
            Err(e) => Err(e),
            Ok(inner) => match put(entries, inner, path, value) {
                Ok((after, fetched)) => Ok((after, seq![digest] + fetched)),
                Err(e) => Err(e),
            },
        },
        Shape::Extension { path: own, child } => if own.len() > 0 && own.is_prefix_of(path) {
            match put(entries, *child, path.skip(own.len() as int), value) {
                Ok((below, fetched)) => Ok(
                    (Shape::Extension { path: own, child: Box::new(below) }, fetched),
                ),
                Err(e) => Err(e),
            }
        } else {
            Ok((node.insert(path, value), Seq::empty()))
        },
        Shape::Branch { children, value: own } => if path.len() > 0 && (path[0] as int)
            < children.len() {
            match put(entries, children[path[0] as int], path.skip(1), value) {
                Ok((below, fetched)) => Ok(
                    (
                        Shape::Branch { children: children.update(path[0] as int, below), value: own },
                        fetched,
                    ),
                ),
                Err(e) => Err(e),
            }
        } else {
            Ok((node.insert(path, value), Seq::empty()))
        },
        _ => Ok((node.insert(path, value), Seq::empty())),
    }
}

/// What is left of a branch once entries have gone, as `collapsed` gives
/// it; a lone child that is held by its digest is fetched, so that it can
/// be moved down.
pub open spec fn fused(
    entries: Map<Seq<u8>, (Seq<u8>, int)>,
    children: Seq<Shape>,
    value: Option<Seq<u8>>,
) -> Result<(Shape, Seq<Seq<u8>>), TrieError<Seq<u8>>> {
    let first = next_child(children, 0);
    if 0 <= first < children.len() && value is None && next_child(children, first + 1)
        >= children.len() && children[first] is Hash {
        match fetched_node(entries, children[first]->digest) {
            Err(e) => Err(e),
            Ok(inner) => Ok((prefixed(seq![first as u8], inner), seq![children[first]->digest])),
        }
    } else {
        Ok((collapsed(children, value), Seq::empty()))
    }
}

/// The tree without an entry at `path`, and the digests of the nodes that
/// were fetched for it, in order; or the error at the first node that is
/// missing or cannot be read.
pub open spec fn cut(entries: Map<Seq<u8>, (Seq<u8>, int)>, node: Shape, path: Seq<u8>) -> Result<
    (Shape, Seq<Seq<u8>>),
    TrieError<Seq<u8>>,
>
    decreases path.len(), stub_rank(node), node,
{
    match node {
        Shape::Hash { digest } => match fetched_node(entries, digest) {
            Err(e) => Err(e),
            Ok(inner) => match cut(entries, inner, path) {
                Ok((after, fetched)) => Ok((after, seq![digest] + fetched)),
                Err(e) => Err(e),
            },
        },
        Shape::Extension { path: own, child } => if own.len() > 0 && own.is_prefix_of(path) {
            match cut(entries, *child, path.skip(own.len() as int)) {
                Ok((below, fetched)) => Ok((prefixed(own, below), fetched)),
                Err(e) => Err(e),
            }
        } else {
            Ok((node, Seq::empty()))
        },
        Shape::Branch { children, value } => if path.len() == 0 {
            fused(entries, children, None)
        } else if (path[0] as int) < children.len() {
            match cut(entries, children[path[0] as int], path.skip(1)) {
                Ok((below, fetched)) => match fused(
                    entries,
                    children.update(path[0] as int, below),
                    value,
                ) {
                    Ok((after, more)) => Ok((after, fetched + more)),
                    Err(e) => Err(e),
                },
                Err(e) => Err(e),
            }
        } else {
            Ok((node, Seq::empty()))
        },
        _ => Ok((node.remove(path), Seq::empty())),
    }
}

/// Fetches the node that the store holds under `digest`.
pub fn fetch_node(db: &Store, digest: &Digest) -> (r: Result<Node, TrieError<Digest>>)
    ensures
        match fetched_node(store_entries(*db), digest@) {
            Ok(inner) => r is Ok && r->Ok_0@ == inner && regular(inner) && !(inner is Hash),
            Err(e) => r is Err && r->Err_0@ == e,
        },
{
    match db.get(digest) {
        None => Err(TrieError::IncompleteDatabase(*digest)),
        Some(bytes) => match decode_node(bytes.as_slice()) {
            Err(cause) => Err(TrieError::DecoderError(*digest, cause)),
            Ok(inner) => {
                proof {
                    lemma_decoded_regular(bytes@);
                }
                Ok(inner)
            },
        },
    }
}

/// Puts `value` at the nibbles of `key` from `at` on, below `node`, and
/// hands back the new tree and the value that was there. The digests of the
/// nodes fetched are added to `doomed`.
pub fn put_at(
    db: &Store,
    node: Node,
    key: &[u8],
    at: usize,
    value: Vec<u8>,
    depth: u32,
    doomed: &mut Vec<Digest>,
) -> (r: Result<(Node, Option<Vec<u8>>), TrieError<Digest>>)
    requires
        regular(node@),
        nibbles_ok(key@),
        at <= key.len(),
        depth >= 1,
    ensures
        match put(store_entries(*db), node@, key@.skip(at as int), value@) {
            Ok((after, fetched)) => {
                &&& r is Ok
                &&& r->Ok_0.0@ == after
                &&& regular(after)
                &&& !(after is Hash)
                &&& found(store_entries(*db), node@, key@.skip(at as int), depth) == Ok::<
                    Option<Seq<u8>>,
                    TrieError<Seq<u8>>,
                >(value_view(r->Ok_0.1))
                &&& key_rows(final(doomed)@) == key_rows(old(doomed)@) + fetched
            },
            Err(e) => r is Err && r->Err_0@ == e && found(
                store_entries(*db),
                node@,
                key@.skip(at as int),
                depth,
            ) == Err::<Option<Seq<u8>>, TrieError<Seq<u8>>>(e),
        },
    decreases key.len() - at, stub_rank(node@), node,
{
    let ghost entries = store_entries(*db);
    let ghost rest = key@.skip(at as int);
    let ghost before = key_rows(doomed@);
    proof {
        lemma_regular_insert(node@, rest, value@);
        crate::insertion::lemma_nibbles_parts(key@, at as int);
    }
    match node {
        Node::Hash { digest } => {
            let inner = match fetch_node(db, &digest) {
                Ok(inner) => inner,
                Err(e) => {
                    return Err(e);
                },
            };
            doomed.push(digest);
            assert(key_rows(doomed@) =~= before.push(digest@));
            let next: u32 = if depth < u32::MAX {
                depth + 1
            } else {
                depth
            };
            let r = put_at(db, inner, key, at, value, next, doomed);
            proof {
                let sub = put(entries, inner@, rest, value@);
                if sub is Ok {
                    assert(key_rows(doomed@) =~= before + (seq![digest@] + sub->Ok_0.1));
                }
            }
            r
        },
        Node::Extension { path: own, child } => {
            if own.len() > 0 && starts_with_at(key, at, own.as_slice()) {
                assert(rest.skip(own.len() as int) =~= key@.skip(at + own.len()));
                match put_at(db, *child, key, at + own.len(), value, depth, doomed) {
                    Ok((below, old)) => Ok(
                        (Node::Extension { path: own, child: Box::new(below) }, old),
                    ),
                    Err(e) => Err(e),
                }
            } else {
                assert(key_rows(doomed@) =~= before + Seq::<Seq<u8>>::empty());
                Ok(insert_at(Node::Extension { path: own, child }, key, at, value))
            }
        },
        Node::Branch { children, value: own } => {
            proof {
                lemma_branch_view(children, own);
            }
            if at < key.len() && (key[at] as usize) < children.len() {
                let mut children = children;
                let slot: usize = key[at] as usize;
                let ghost kids = shapes_of(children@);
                assert(regular(kids[slot as int]));
                let mut child = Node::Empty;
                core::mem::swap(&mut children[slot], &mut child);
                assert(rest.skip(1) =~= key@.skip(at + 1));
                match put_at(db, child, key, at + 1, value, depth, doomed) {
                    Ok((below, old)) => {
                        children[slot] = below;
                        proof {
                            lemma_branch_view(children, own);
                            let after = kids.update(slot as int, below@);
                            assert(shapes_of(children@) =~= after);
                            assert forall|i: int| 0 <= i < after.len() implies regular(
                                #[trigger] after[i],
                            ) by {
                                if i != slot {
                                    assert(after[i] == kids[i]);
                                }
                            }
                        }
                        Ok((Node::Branch { children, value: own }, old))
                    },
                    Err(e) => Err(e),
                }
            } else {
                assert(key_rows(doomed@) =~= before + Seq::<Seq<u8>>::empty());
                Ok(insert_at(Node::Branch { children, value: own }, key, at, value))
            }
        },
        Node::Leaf { path, value: old } => {
            assert(key_rows(doomed@) =~= before + Seq::<Seq<u8>>::empty());
            Ok(insert_at(Node::Leaf { path, value: old }, key, at, value))
        },
        Node::Empty => {
            assert(key_rows(doomed@) =~= before + Seq::<Seq<u8>>::empty());
            Ok(insert_at(Node::Empty, key, at, value))
        },
    }
}

/// What is left of a branch once entries have gone. A lone child that is
/// held by its digest is fetched, and its digest is added to `doomed`.
pub fn fuse(
    db: &Store,
    children: Vec<Node>,
    value: Option<Vec<u8>>,
    doomed: &mut Vec<Digest>,
) -> (r: Result<Node, TrieError<Digest>>)
    requires
        regular(Shape::Branch { children: shapes_of(children@), value: value_view(value) }),
    ensures
        match fused(store_entries(*db), shapes_of(children@), value_view(value)) {
            Ok((after, fetched)) => r is Ok && r->Ok_0@ == after && regular(after) && !(after
                is Hash) && key_rows(final(doomed)@) == key_rows(old(doomed)@) + fetched,
            Err(e) => r is Err && r->Err_0@ == e,
        },
{
    let ghost kids = shapes_of(children@);
    let ghost before = key_rows(doomed@);
    proof {
        lemma_next_child(kids, 0);
        lemma_regular_collapsed(kids, value_view(value));
    }
    let first: usize = next_occupied(&children, 0);
    if first < children.len() && value.is_none() && next_occupied(&children, first + 1)
        >= children.len() {
        let mut children = children;
        let mut child = Node::Empty;
        core::mem::swap(&mut children[first], &mut child);
        assert(child@ == kids[first as int]);
        let mut pre: Vec<u8> = Vec::new();
        pre.push(first as u8);
        assert(pre@ =~= seq![first as u8]);
        assert(nibbles_ok(pre@));
        match child {
            Node::Hash { digest } => {
                let inner = match fetch_node(db, &digest) {
                    Ok(inner) => inner,
                    Err(e) => {
                        return Err(e);
                    },
                };
                doomed.push(digest);
                assert(key_rows(doomed@) =~= before + seq![digest@]);
                proof {
                    lemma_regular_prefixed(pre@, inner@);
                }
                Ok(moved_down(pre, inner))
            },
            other => {
                assert(key_rows(doomed@) =~= before + Seq::<Seq<u8>>::empty());
                Ok(moved_down(pre, other))
            },
        }
    } else {
        assert(key_rows(doomed@) =~= before + Seq::<Seq<u8>>::empty());
        Ok(crate::node::collapse(children, value))
    }
}

/// Removes the entry at the nibbles of `key` from `at` on, below `node`,
/// and hands back the new tree and the value that was there. The digests
/// of the nodes fetched are added to `doomed`.
pub fn cut_at(db: &Store, node: Node, key: &[u8], at: usize, depth: u32, doomed: &mut Vec<Digest>) -> (r:
    Result<(Node, Option<Vec<u8>>), TrieError<Digest>>)
    requires
        regular(node@),
        at <= key.len(),
        depth >= 1,
    ensures
        match cut(store_entries(*db), node@, key@.skip(at as int)) {
            Ok((after, fetched)) => {
                &&& r is Ok
                &&& r->Ok_0.0@ == after
                &&& regular(after)
                &&& !(after is Hash)
                &&& found(store_entries(*db), node@, key@.skip(at as int), depth) == Ok::<
                    Option<Seq<u8>>,
                    TrieError<Seq<u8>>,
                >(value_view(r->Ok_0.1))
                &&& key_rows(final(doomed)@) == key_rows(old(doomed)@) + fetched
            },
            Err(e) => {
                &&& r is Err
                &&& r->Err_0@ == e
                &&& found(store_entries(*db), node@, key@.skip(at as int), depth) is Err ==> found(
                    store_entries(*db),
                    node@,
                    key@.skip(at as int),
                    depth,
                ) == Err::<Option<Seq<u8>>, TrieError<Seq<u8>>>(e)
            },
        },
    decreases key.len() - at, stub_rank(node@), node,
{
    let ghost entries = store_entries(*db);
    let ghost rest = key@.skip(at as int);
    let ghost before = key_rows(doomed@);
    proof {
        lemma_regular_remove(node@, rest);
    }
    match node {
        Node::Hash { digest } => {
            let inner = match fetch_node(db, &digest) {
                Ok(inner) => inner,
                Err(e) => {
                    return Err(e);
                },
            };
            doomed.push(digest);
            assert(key_rows(doomed@) =~= before.push(digest@));
            let next: u32 = if depth < u32::MAX {
                depth + 1
            } else {
                depth
            };
            let r = cut_at(db, inner, key, at, next, doomed);
            proof {
                let sub = cut(entries, inner@, rest);
                if sub is Ok {
                    assert(key_rows(doomed@) =~= before + (seq![digest@] + sub->Ok_0.1));
                }
            }
            r
        },
        Node::Extension { path: own, child } => {
            if own.len() > 0 && starts_with_at(key, at, own.as_slice()) {
                assert(rest.skip(own.len() as int) =~= key@.skip(at + own.len()));
                match cut_at(db, *child, key, at + own.len(), depth, doomed) {
                    Ok((below, old)) => {
                        proof {
                            lemma_regular_prefixed(own@, below@);
                        }
                        Ok((moved_down(own, below), old))
                    },
                    Err(e) => Err(e),
                }
            } else {
                assert(key_rows(doomed@) =~= before + Seq::<Seq<u8>>::empty());
                Ok((Node::Extension { path: own, child }, None))
            }
        },
        Node::Branch { children, value } => {
            proof {
                lemma_branch_view(children, value);
            }
            let ghost kids = shapes_of(children@);
            if at == key.len() {
                assert(regular(Shape::Branch { children: kids, value: None }));
                match fuse(db, children, None, doomed) {
                    Ok(after) => Ok((after, value)),
                    Err(e) => Err(e),
                }
            } else if (key[at] as usize) < children.len() {
                let mut children = children;
                let slot: usize = key[at] as usize;
                assert(regular(kids[slot as int]));
                let mut child = Node::Empty;
                core::mem::swap(&mut children[slot], &mut child);
                assert(rest.skip(1) =~= key@.skip(at + 1));
                match cut_at(db, child, key, at + 1, depth, doomed) {
                    Ok((below, old)) => {
                        children[slot] = below;
                        let ghost after = kids.update(slot as int, below@);
                        proof {
                            assert(shapes_of(children@) =~= after);
                            assert forall|i: int| 0 <= i < after.len() implies regular(
                                #[trigger] after[i],
                            ) by {
                                if i != slot {
                                    assert(after[i] == kids[i]);
                                }
                            }
                        }
                        match fuse(db, children, value, doomed) {
                            Ok(fused_node) => {
                                proof {
                                    let first = cut(entries, kids[slot as int], rest.skip(1))->Ok_0.1;
                                    let more = fused(entries, after, value_view(value))->Ok_0.1;
                                    assert(key_rows(doomed@) =~= before + (first + more));
                                }
                                Ok((fused_node, old))
                            },
                            Err(e) => Err(e),
                        }
                    },
                    Err(e) => Err(e),
                }
            } else {
                assert(key_rows(doomed@) =~= before + Seq::<Seq<u8>>::empty());
                Ok((Node::Branch { children, value }, None))
            }
        },
        Node::Leaf { path, value } => {
            assert(key_rows(doomed@) =~= before + Seq::<Seq<u8>>::empty());
            Ok(remove_at(Node::Leaf { path, value }, key, at))
        },
        Node::Empty => {
            assert(key_rows(doomed@) =~= before + Seq::<Seq<u8>>::empty());
            Ok((Node::Empty, None))
        },
    }
}

} // verus!
