//! Bringing a whole trie out of the store, and telling whether a tree is in
//! normal form.

use vstd::prelude::*;
use crate::codec::CodecError;
use crate::codec::decode_node;
use crate::codec::decoded;
use crate::error::TrieError;
use crate::hasher::Digest;
use crate::nibble::nibbles_ok;
use crate::node::Node;
use crate::node::lemma_branch_view;
use crate::node::next_occupied;
use crate::node::shapes_of;
use crate::shape::Shape;
use crate::store::Store;
use crate::store::key_rows;
use crate::store::store_entries;
use crate::store::stored;

verus! {

/// The tree below `node` with every node that the store holds in place of
/// its digest, and the digests fetched for that, in order; or the error at
/// the first node that the store does not hold or that cannot be read.
/// `room` is how many nibbles a path may still take, and `last` the digest
/// of the stored node that holds `node`.
pub open spec fn expanded(
    entries: Map<Seq<u8>, (Seq<u8>, int)>,
    node: Shape,
    room: nat,
    last: Seq<u8>,
) -> Result<(Shape, Seq<Seq<u8>>), TrieError<Seq<u8>>>
    decreases room, (if node is Hash {
        1int
    } else {
        0int
    }), node, 0int,
{
    match node {
        Shape::Empty => Ok((node, Seq::empty())),
        Shape::Leaf { .. } => Ok((node, Seq::empty())),
        Shape::Extension { path, child } => if path.len() == 0 {
            Err(TrieError::DecoderError(last, CodecError::Malformed))
        } else if path.len() > room {
            Err(TrieError::DecoderError(last, CodecError::TooDeep))
        } else {
            match expanded(entries, *child, (room - path.len()) as nat, last) {
                Ok((below, fetched)) => Ok(
                    (Shape::Extension { path, child: Box::new(below) }, fetched),
                ),
                Err(e) => Err(e),
            }
        },
        Shape::Branch { children, value } => if room == 0 {
            Err(TrieError::DecoderError(last, CodecError::TooDeep))
        } else {
            match expanded_all(entries, children, children.len() as int, (room - 1) as nat, last) {
                Ok((below, fetched)) => Ok((Shape::Branch { children: below, value }, fetched)),
                Err(e) => Err(e),
            }
        },
        Shape::Hash { digest } => match stored(entries, digest) {
            None => Err(TrieError::IncompleteDatabase(digest)),
            Some(bytes) => match decoded(bytes) {
                None => Err(TrieError::DecoderError(digest, CodecError::Malformed)),
                Some(inner) => if inner is Hash {
                    Err(TrieError::DecoderError(digest, CodecError::Malformed))
                } else {
                    match expanded(entries, inner, room, digest) {
                        Ok((below, fetched)) => Ok((below, seq![digest] + fetched)),
                        Err(e) => Err(e),
                    }
                },
            },
        },
    }
}

/// `expanded` for the first `n` children of a branch, in order.
pub open spec fn expanded_all(
    entries: Map<Seq<u8>, (Seq<u8>, int)>,
    children: Seq<Shape>,
    n: int,
    room: nat,
    last: Seq<u8>,
) -> Result<(Seq<Shape>, Seq<Seq<u8>>), TrieError<Seq<u8>>>
    decreases room, 2int, children, n,
{
    if n <= 0 || n > children.len() {
        Ok((Seq::empty(), Seq::empty()))
    } else {
        match expanded_all(entries, children, n - 1, room, last) {
            Err(e) => Err(e),
            Ok((front, fetched)) => match expanded(entries, children[n - 1], room, last) {
                Err(e) => Err(e),
                Ok((below, more)) => Ok((front.push(below), fetched + more)),
            },
        }
    }
}

/// Puts every node that the store holds in place of its digest, all the
/// way down. The digests fetched are added to `fetched`; after a failure
/// `fetched` holds some of them.
pub fn expand(db: &Store, node: Node, room: usize, last: &Digest, fetched: &mut Vec<Digest>) -> (r:
    Result<Node, TrieError<Digest>>)
    ensures
        match (r, expanded(store_entries(*db), node@, room as nat, last@)) {
            (Ok(tree), Ok((shape, digests))) => tree@ == shape && key_rows(final(fetched)@)
                == key_rows(old(fetched)@) + digests,
            (Err(e), Err(error)) => e@ == error,
            _ => false,
        },
    decreases room, (if node@ is Hash {
        1int
    } else {
        0int
    }), node, 0int,
{
    let ghost before = key_rows(fetched@);
    match node {
        Node::Empty => {
            assert(key_rows(fetched@) =~= before + Seq::<Seq<u8>>::empty());
            Ok(Node::Empty)
        },
        Node::Leaf { path, value } => {
            assert(key_rows(fetched@) =~= before + Seq::<Seq<u8>>::empty());
            Ok(Node::Leaf { path, value })
        },
        Node::Extension { path, child } => {
            if path.len() == 0 {
                Err(TrieError::DecoderError(*last, CodecError::Malformed))
            } else if path.len() > room {
                Err(TrieError::DecoderError(*last, CodecError::TooDeep))
            } else {
                match expand(db, *child, room - path.len(), last, fetched) {
                    Ok(below) => Ok(Node::Extension { path, child: Box::new(below) }),
                    Err(e) => Err(e),
                }
            }
        },
        Node::Branch { children, value } => {
            proof {
                lemma_branch_view(children, value);
            }
            if room == 0 {
                Err(TrieError::DecoderError(*last, CodecError::TooDeep))
            } else {
                match expand_all(db, children, room - 1, last, fetched) {
                    Ok(below) => {
                        proof {
                            lemma_branch_view(below, value);
                        }
                        Ok(Node::Branch { children: below, value })
                    },
                    Err(e) => Err(e),
                }
            }
        },
        Node::Hash { digest } => {
            match db.get(&digest) {
                None => Err(TrieError::IncompleteDatabase(digest)),
                Some(bytes) => match decode_node(bytes.as_slice()) {
                    Err(cause) => Err(TrieError::DecoderError(digest, cause)),
                    Ok(inner) => {
                        fetched.push(digest);
                        assert(key_rows(fetched@) =~= before.push(digest@));
                        let r = expand(db, inner, room, &digest, fetched);
                        proof {
                            let sub = expanded(store_entries(*db), inner@, room as nat, digest@);
                            if sub is Ok {
                                assert(key_rows(fetched@) =~= before + (seq![digest@]
                                    + sub->Ok_0.1));
                            }
                        }
                        r
                    },
                },
            }
        },
    }
}

/// `expand` for each child of a branch, in order.
#[verifier::loop_isolation(false)]
pub fn expand_all(
    db: &Store,
    children: Vec<Node>,
    room: usize,
    last: &Digest,
    fetched: &mut Vec<Digest>,
) -> (r: Result<Vec<Node>, TrieError<Digest>>)
    ensures
        match (
            r,
            expanded_all(
                store_entries(*db),
                shapes_of(children@),
                children.len() as int,
                room as nat,
                last@,
            ),
        ) {
            (Ok(below), Ok((shapes, digests))) => shapes_of(below@) == shapes && key_rows(
                final(fetched)@,
            ) == key_rows(old(fetched)@) + digests,
            (Err(e), Err(error)) => e@ == error,
            _ => false,
        },
    decreases room, 2int, children, children.len(),
{
    let ghost before = key_rows(fetched@);
    let ghost kids = shapes_of(children@);
    let ghost entries = store_entries(*db);
    let mut children = children;
    let mut below: Vec<Node> = Vec::new();
    let n: usize = children.len();
    let mut i: usize = 0;
    assert(key_rows(fetched@) =~= before + Seq::<Seq<u8>>::empty());
    assert(shapes_of(below@) =~= Seq::<Shape>::empty());
    while i < n
        invariant
            i <= n,
            n == children.len(),
            kids.len() == n,
            entries == store_entries(*db),
            forall|j: int| i <= j < n ==> (#[trigger] children@[j])@ == kids[j],
            match expanded_all(entries, kids, i as int, room as nat, last@) {
                Ok((shapes, digests)) => shapes_of(below@) == shapes && key_rows(fetched@)
                    == before + digests,
                Err(_) => false,
            },
        decreases n - i,
    {
        let mut child = Node::Empty;
        core::mem::swap(&mut children[i], &mut child);
        let ghost so_far = expanded_all(entries, kids, i as int, room as nat, last@)->Ok_0;
        let ghost front = shapes_of(below@);
        match expand(db, child, room, last, fetched) {
            Err(e) => {
                proof {
                    assert(expanded(entries, kids[i as int], room as nat, last@) is Err);
                    assert(expanded_all(entries, kids, i + 1, room as nat, last@) is Err);
                    lemma_expansion_fails(entries, kids, i + 1, n as int, room as nat, last@);
                }
                return Err(e);
            },
            Ok(sub) => {
                below.push(sub);
                proof {
                    let more = expanded(entries, kids[i as int], room as nat, last@)->Ok_0.1;
                    assert(shapes_of(below@) =~= front.push(sub@));
                    assert(key_rows(fetched@) =~= before + (so_far.1 + more));
                }
            },
        }
        i += 1;
    }
    Ok(below)
}

/// Where the first children cannot all be expanded, neither can more.
pub proof fn lemma_expansion_fails(
    entries: Map<Seq<u8>, (Seq<u8>, int)>,
    children: Seq<Shape>,
    n: int,
    m: int,
    room: nat,
    last: Seq<u8>,
)
    requires
        0 <= n <= m <= children.len(),
        expanded_all(entries, children, n, room, last) is Err,
    ensures
        expanded_all(entries, children, m, room, last) == expanded_all(
            entries,
            children,
            n,
            room,
            last,
        ),
    decreases m - n,
{
    if n < m {
        lemma_expansion_fails(entries, children, n, m - 1, room, last);
    }
}

/// Whether every element of `path` is a half-byte.
pub fn all_nibbles(path: &[u8]) -> (ok: bool)
    ensures
        ok == nibbles_ok(path@),
{
    let mut i: usize = 0;
    while i < path.len()
        invariant
            i <= path.len(),
            forall|k: int| 0 <= k < i ==> #[trigger] path@[k] < 16,
        decreases path.len() - i,
    {
        if path[i] >= 16 {
            return false;
        }
        i += 1;
    }
    true
}

/// Whether the tree below `node` is in normal form.
#[verifier::loop_isolation(false)]
pub fn is_canonical(node: &Node) -> (ok: bool)
    ensures
        ok == node@.canonical(),
    decreases node,
{
    match node {
        Node::Empty => true,
        Node::Leaf { path, value } => all_nibbles(path.as_slice()) && value.len() > 0,
        Node::Extension { path, child } => {
            let below_branch: bool = match &**child {
                Node::Branch { .. } => true,
                _ => false,
            };
            assert(below_branch == (child@ is Branch));
            if path.len() == 0 || !all_nibbles(path.as_slice()) || !below_branch {
                false
            } else {
                is_canonical(child)
            }
        },
        Node::Branch { children, value } => {
            proof {
                lemma_branch_view(*children, *value);
            }
            if children.len() != 16 {
                return false;
            }
            let ghost kids = shapes_of(children@);
            let mut i: usize = 0;
            while i < 16
                invariant
                    i <= 16,
                    forall|j: int| 0 <= j < i ==> (#[trigger] kids[j]).canonical(),
                decreases 16 - i,
            {
                if !is_canonical(&children[i]) {
                    assert(!kids[i as int].canonical());
                    return false;
                }
                i += 1;
            }
            let value_ok: bool = match value {
                Some(v) => v.len() > 0,
                None => true,
            };
            if !value_ok {
                return false;
            }
            let first: usize = next_occupied(children, 0);
            if first >= 16 {
                return false;
            }
            value.is_some() || next_occupied(children, first + 1) < 16
        },
        Node::Hash { .. } => false,
    }
}

} // verus!
