//! A tree that holds some of its nodes only by their digests stands for
//! the whole tree that the store holds: what it is, and that the walk
//! through it finds what the whole tree holds.

use vstd::prelude::*;
use crate::codec::by_digest;
use crate::codec::encoding;
use crate::codec::link;
use crate::codec::links;
use crate::codec::own_part;
use crate::codec::stored_parts;
use crate::error::TrieError;
use crate::hasher::digest_of;
use crate::holding::holds;
use crate::holding::keeps;
use crate::holding::lemma_parts_contain;
use crate::holding::lemma_row_contains;
use crate::holding::lemma_sealed_all;
use crate::holding::lemma_stored_inserted_all;
use crate::holding::unclashed;
use crate::lazy::fetched_node;
use crate::lookup::deeper;
use crate::lookup::found;
use crate::roundtrip::encodable;
use crate::roundtrip::lemma_decode_encoding;
use crate::roundtrip::sealed;
use crate::roundtrip::sealed_all;
use crate::roundtrip::sealed_link;
use crate::shape::Shape;
use crate::store::removed_all;
use crate::store::stored;
use crate::triemut::commit_writes;
use crate::triemut::committed;
use crate::triemut::pending_root;
use crate::triemut::root_of;

verus! {

/// Whether `node` stands for `full` over a store: the two are the same but
/// for nodes that `node` holds by their digests, and the store holds the
/// trees below those. A child is held by its digest only where its parent's
/// encoding links it so; the root may always be.
pub open spec fn stands_for(
    entries: Map<Seq<u8>, (Seq<u8>, int)>,
    node: Shape,
    full: Shape,
    top: bool,
) -> bool
    decreases node,
{
    match node {
        Shape::Hash { digest } => {
            &&& !(full is Hash)
            &&& top || by_digest(full, encoding(full))
            &&& digest == digest_of(encoding(full))
            &&& keeps(entries, encoding(full))
            &&& holds(entries, full)
        },
        Shape::Empty => full is Empty,
        Shape::Leaf { .. } => full == node,
        Shape::Extension { path, child } => full is Extension && full->Extension_path == path
            && stands_for(entries, *child, *full->child, false),
        Shape::Branch { children, value } => {
            &&& full is Branch
            &&& full->Branch_value == value
            &&& full->children.len() == children.len()
            &&& forall|i: int|
                0 <= i < children.len() ==> stands_for(
                    entries,
                    #[trigger] children[i],
                    full->children[i],
                    false,
                )
        },
    }
}

/// A tree in normal form stands for itself.
pub proof fn lemma_stands_for_itself(entries: Map<Seq<u8>, (Seq<u8>, int)>, node: Shape, top: bool)
    requires
        node.canonical(),
    ensures
        stands_for(entries, node, node, top),
    decreases node,
{
    match node {
        Shape::Extension { path, child } => {
            lemma_stands_for_itself(entries, *child, false);
        },
        Shape::Branch { children, value } => {
            assert forall|i: int| 0 <= i < children.len() implies stands_for(
                entries,
                #[trigger] children[i],
                children[i],
                false,
            ) by {
                lemma_stands_for_itself(entries, children[i], false);
            }
        },
        _ => {},
    }
}

/// The links to the first `n` children are those to the children that they
/// stand for.
pub proof fn lemma_same_links(
    entries: Map<Seq<u8>, (Seq<u8>, int)>,
    children: Seq<Shape>,
    full: Seq<Shape>,
    n: int,
)
    requires
        0 <= n <= children.len(),
        children.len() == full.len(),
        forall|i: int|
            0 <= i < children.len() ==> stands_for(entries, #[trigger] children[i], full[i], false),
    ensures
        links(children, n) == links(full, n),
    decreases children, n,
{
    if n > 0 {
        lemma_same_links(entries, children, full, n - 1);
        lemma_same_encoding(entries, children[n - 1], full[n - 1]);
    }
}

/// A tree is linked as the tree that it stands for, and where it is held in
/// place it has the same encoding.
pub proof fn lemma_same_encoding(entries: Map<Seq<u8>, (Seq<u8>, int)>, node: Shape, full: Shape)
    requires
        stands_for(entries, node, full, false),
    ensures
        link(node, encoding(node)) == link(full, encoding(full)),
        !(node is Hash) ==> encoding(node) == encoding(full),
    decreases node, 1int,
{
    lemma_same_root(entries, node, full);
}

/// A tree that is held in place has the encoding, and with it the root, of
/// the tree that it stands for.
pub proof fn lemma_same_root(entries: Map<Seq<u8>, (Seq<u8>, int)>, node: Shape, full: Shape)
    requires
        stands_for(entries, node, full, true),
    ensures
        !(node is Hash) ==> encoding(node) == encoding(full),
        node is Hash ==> node->digest == digest_of(encoding(full)),
    decreases node, 0int,
{
    match node {
        Shape::Extension { path, child } => {
            lemma_same_encoding(entries, *child, *full->child);
        },
        Shape::Branch { children, value } => {
            lemma_same_links(entries, children, full->children, children.len() as int);
        },
        _ => {},
    }
}

/// What the encoding of a tree holds of it stands for the tree, over a
/// store that holds the tree.
pub proof fn lemma_sealed_stands(entries: Map<Seq<u8>, (Seq<u8>, int)>, full: Shape)
    requires
        full.canonical(),
        holds(entries, full),
    ensures
        stands_for(entries, sealed(full), full, false),
    decreases full,
{
    match full {
        Shape::Extension { path, child } => {
            if !by_digest(*child, encoding(*child)) {
                lemma_sealed_stands(entries, *child);
            }
            assert(stands_for(entries, sealed_link(*child), *child, false));
        },
        Shape::Branch { children, value } => {
            lemma_sealed_all(children, children.len() as int);
            let held = sealed_all(children, children.len() as int);
            assert forall|i: int| 0 <= i < held.len() implies stands_for(
                entries,
                #[trigger] held[i],
                children[i],
                false,
            ) by {
                if !by_digest(children[i], encoding(children[i])) {
                    lemma_sealed_stands(entries, children[i]);
                }
            }
        },
        _ => {},
    }
}

/// The node fetched for a digest that stands for a tree is what the
/// encoding of the tree holds of it, and stands for it too.
pub proof fn lemma_fetched_stands(
    entries: Map<Seq<u8>, (Seq<u8>, int)>,
    digest: Seq<u8>,
    full: Shape,
    top: bool,
)
    requires
        stands_for(entries, Shape::Hash { digest }, full, top),
        full.canonical(),
        encodable(full),
    ensures
        fetched_node(entries, digest) == Ok::<Shape, TrieError<Seq<u8>>>(sealed(full)),
        stands_for(entries, sealed(full), full, false),
        !(sealed(full) is Hash),
{
    lemma_decode_encoding(full);
    lemma_sealed_stands(entries, full);
}

/// What the walk finds in a tree that stands for a tree in normal form is
/// what the whole tree holds.
pub proof fn law_found_stands(
    entries: Map<Seq<u8>, (Seq<u8>, int)>,
    node: Shape,
    full: Shape,
    top: bool,
    path: Seq<u8>,
    depth: u32,
)
    requires
        stands_for(entries, node, full, top),
        full.canonical(),
        encodable(full),
    ensures
        found(entries, node, path, depth) == Ok::<Option<Seq<u8>>, TrieError<Seq<u8>>>(
            full.get(path),
        ),
    decreases path.len(), (if node is Hash {
        1int
    } else {
        0int
    }), node,
{
    match node {
        Shape::Hash { digest } => {
            lemma_fetched_stands(entries, digest, full, top);
            law_found_stands(entries, sealed(full), full, false, path, deeper(depth));
        },
        Shape::Extension { path: own, child } => {
            if own.is_prefix_of(path) {
                law_found_stands(
                    entries,
                    *child,
                    *full->child,
                    false,
                    path.skip(own.len() as int),
                    depth,
                );
            }
        },
        Shape::Branch { children, value } => {
            if path.len() > 0 && path[0] < 16 {
                law_found_stands(
                    entries,
                    children[path[0] as int],
                    full->children[path[0] as int],
                    false,
                    path.skip(1),
                    depth,
                );
            }
        },
        _ => {},
    }
}

/// A store that gives back all that another gives back holds the trees
/// that the other holds.
pub proof fn lemma_holds_kept(
    entries: Map<Seq<u8>, (Seq<u8>, int)>,
    later: Map<Seq<u8>, (Seq<u8>, int)>,
    full: Shape,
)
    requires
        forall|key: Seq<u8>|
            stored(entries, key) is Some ==> #[trigger] stored(later, key) == stored(entries, key),
        holds(entries, full),
    ensures
        holds(later, full),
    decreases full,
{
    match full {
        Shape::Extension { path, child } => {
            lemma_holds_kept(entries, later, *child);
            if by_digest(*child, encoding(*child)) {
                assert(stored(later, digest_of(encoding(*child))) == stored(
                    entries,
                    digest_of(encoding(*child)),
                ));
            }
        },
        Shape::Branch { children, value } => {
            assert forall|i: int| 0 <= i < children.len() implies (by_digest(
                #[trigger] children[i],
                encoding(children[i]),
            ) ==> keeps(later, encoding(children[i]))) && holds(later, children[i]) by {
                lemma_holds_kept(entries, later, children[i]);
                if by_digest(children[i], encoding(children[i])) {
                    assert(stored(later, digest_of(encoding(children[i]))) == stored(
                        entries,
                        digest_of(encoding(children[i])),
                    ));
                }
            }
        },
        _ => {},
    }
}

/// Over a store that gives back all that another gives back, a tree stands
/// for what it stood for over the other.
pub proof fn lemma_stands_kept(
    entries: Map<Seq<u8>, (Seq<u8>, int)>,
    later: Map<Seq<u8>, (Seq<u8>, int)>,
    node: Shape,
    full: Shape,
    top: bool,
)
    requires
        forall|key: Seq<u8>|
            stored(entries, key) is Some ==> #[trigger] stored(later, key) == stored(entries, key),
        stands_for(entries, node, full, top),
    ensures
        stands_for(later, node, full, top),
    decreases node,
{
    match node {
        Shape::Hash { digest } => {
            lemma_holds_kept(entries, later, full);
            assert(stored(later, digest_of(encoding(full))) == stored(
                entries,
                digest_of(encoding(full)),
            ));
        },
        Shape::Extension { path, child } => {
            lemma_stands_kept(entries, later, *child, *full->child, false);
        },
        Shape::Branch { children, value } => {
            assert forall|i: int| 0 <= i < children.len() implies stands_for(
                later,
                #[trigger] children[i],
                full->children[i],
                false,
            ) by {
                lemma_stands_kept(entries, later, children[i], full->children[i], false);
            }
        },
        _ => {},
    }
}

/// A store that gives back what a commit writes for a tree holds the whole
/// tree that the tree stands for.
pub proof fn lemma_holds_stands(
    entries: Map<Seq<u8>, (Seq<u8>, int)>,
    node: Shape,
    full: Shape,
    top: bool,
)
    requires
        stands_for(entries, node, full, top),
        forall|x: Seq<u8>| #[trigger] stored_parts(node).contains(x) ==> keeps(entries, x),
    ensures
        holds(entries, full),
    decreases node,
{
    match node {
        Shape::Extension { path, child } => {
            let below = *full->child;
            assert forall|x: Seq<u8>| #[trigger]
                stored_parts(*child).contains(x) implies keeps(entries, x) by {
                lemma_row_contains(stored_parts(*child), own_part(*child), x);
                assert(stored_parts(node).contains(x));
            }
            lemma_holds_stands(entries, *child, below, false);
            lemma_same_encoding(entries, *child, below);
            assert(stands_for(entries, *child, below, false));
            if by_digest(below, encoding(below)) && !(*child is Hash) {
                let x = encoding(*child);
                assert(by_digest(*child, x));
                assert(own_part(*child)[0] == x);
                lemma_row_contains(stored_parts(*child), own_part(*child), x);
                assert(stored_parts(node).contains(x));
            }
        },
        Shape::Branch { children, value } => {
            let whole = full->children;
            assert forall|i: int| 0 <= i < whole.len() implies (by_digest(
                #[trigger] whole[i],
                encoding(whole[i]),
            ) ==> keeps(entries, encoding(whole[i]))) && holds(entries, whole[i]) by {
                let child = children[i];
                assert(stands_for(entries, child, whole[i], false));
                assert forall|x: Seq<u8>| #[trigger]
                    stored_parts(child).contains(x) implies keeps(entries, x) by {
                    lemma_row_contains(stored_parts(child), own_part(child), x);
                    lemma_parts_contain(children, children.len() as int, i, x);
                    assert(stored_parts(node).contains(x));
                }
                lemma_holds_stands(entries, child, whole[i], false);
                lemma_same_encoding(entries, child, whole[i]);
                if by_digest(whole[i], encoding(whole[i])) && !(child is Hash) {
                    let x = encoding(child);
                    assert(by_digest(child, x));
                    assert(own_part(child)[0] == x);
                    lemma_row_contains(stored_parts(child), own_part(child), x);
                    lemma_parts_contain(children, children.len() as int, i, x);
                    assert(stored_parts(node).contains(x));
                }
            }
        },
        _ => {},
    }
}

/// Commit: where a tree that is held in place stands for a whole tree once
/// the references to the fetched nodes are removed, and nothing stands in
/// the way of what the commit writes, the new root is the root of the whole
/// tree, and over the store after the commit the root held by its digest
/// stands for the whole tree.
pub proof fn law_commit_stands(
    store: Map<Seq<u8>, (Seq<u8>, int)>,
    doomed: Seq<Seq<u8>>,
    node: Shape,
    full: Shape,
)
    requires
        !(node is Hash),
        full.canonical(),
        stands_for(removed_all(store, doomed), node, full, true),
        unclashed(removed_all(store, doomed), commit_writes(node)),
    ensures
        pending_root(node) == root_of(full),
        stands_for(
            committed(store, doomed, node),
            Shape::Hash { digest: root_of(full) },
            full,
            true,
        ),
{
    let before = removed_all(store, doomed);
    let writes = commit_writes(node);
    let after = committed(store, doomed, node);
    lemma_same_root(before, node, full);
    lemma_stored_inserted_all(before, writes);
    lemma_stands_kept(before, after, node, full, true);
    assert forall|x: Seq<u8>| #[trigger] stored_parts(node).contains(x) implies keeps(after, x) by {
        lemma_row_contains(stored_parts(node), seq![encoding(node)], x);
        let i = choose|i: int| 0 <= i < writes.len() && writes[i] == x;
    }
    lemma_holds_stands(after, node, full, true);
    assert(writes[writes.len() - 1] == encoding(node));
}

/// Commit, then read: after the commit of a tree in normal form that
/// nothing stood in the way of, the walk from the new root through the
/// store finds for every path what the tree holds.
pub proof fn law_commit_then_read(
    store: Map<Seq<u8>, (Seq<u8>, int)>,
    doomed: Seq<Seq<u8>>,
    shape: Shape,
    path: Seq<u8>,
)
    requires
        shape.canonical(),
        encodable(shape),
        unclashed(removed_all(store, doomed), commit_writes(shape)),
    ensures
        found(
            committed(store, doomed, shape),
            Shape::Hash { digest: root_of(shape) },
            path,
            0,
        ) == Ok::<Option<Seq<u8>>, TrieError<Seq<u8>>>(shape.get(path)),
{
    lemma_stands_for_itself(removed_all(store, doomed), shape, true);
    law_commit_stands(store, doomed, shape, shape);
    law_found_stands(
        committed(store, doomed, shape),
        Shape::Hash { digest: root_of(shape) },
        shape,
        true,
        path,
        0,
    );
}

} // verus!
