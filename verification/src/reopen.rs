//! What was committed is brought back whole: the expansion of a committed
//! tree out of the store is the tree.

use vstd::prelude::*;
use crate::codec::by_digest;
use crate::codec::encoding;
use crate::codec::stored_parts;
use crate::entries::pairs;
use crate::hasher::digest_of;
use crate::holding::holds;
use crate::holding::keeps;
use crate::holding::lemma_holds_parts;
use crate::holding::lemma_row_contains;
use crate::holding::lemma_sealed_all;
use crate::holding::lemma_stored_inserted_all;
use crate::holding::unclashed;
use crate::laws::entries_of;
use crate::listing::keyed;
use crate::listing::law_listing;
use crate::listing::packed;
use crate::load::expanded;
use crate::load::expanded_all;
use crate::order::ascending;
use crate::roundtrip::encodable;
use crate::roundtrip::lemma_decode_encoding;
use crate::roundtrip::sealed;
use crate::roundtrip::sealed_all;
use crate::roundtrip::sealed_link;
use crate::shape::Shape;
use crate::store::removed_all;
use crate::triemut::commit_writes;
use crate::triemut::committed;
use crate::triemut::root_of;

verus! {

/// How many nibbles the longest way from `node` down to a leaf or to the
/// last branch takes.
pub open spec fn reach(node: Shape) -> nat
    decreases node, 0int,
{
    match node {
        Shape::Extension { path, child } => path.len() + reach(*child),
        Shape::Branch { children, value } => 1 + reach_all(children, children.len() as int),
        _ => 0,
    }
}

/// The longest `reach` among the first `n` children.
pub open spec fn reach_all(children: Seq<Shape>, n: int) -> nat
    decreases children, n,
{
    if n <= 0 || n > children.len() {
        0
    } else {
        let front = reach_all(children, n - 1);
        let last = reach(children[n - 1]);
        if front >= last {
            front
        } else {
            last
        }
    }
}

/// No child reaches further than the furthest.
pub proof fn lemma_reach_all(children: Seq<Shape>, n: int, i: int)
    requires
        0 <= i < n <= children.len(),
    ensures
        reach(children[i]) <= reach_all(children, n),
    decreases n,
{
    if i < n - 1 {
        lemma_reach_all(children, n - 1, i);
    }
}

/// The expansion of a child as its parent's encoding holds it.
pub proof fn lemma_expanded_link(
    entries: Map<Seq<u8>, (Seq<u8>, int)>,
    child: Shape,
    room: nat,
    last: Seq<u8>,
)
    requires
        child.canonical(),
        encodable(child),
        holds(entries, child),
        by_digest(child, encoding(child)) ==> keeps(entries, encoding(child)),
        reach(child) <= room,
    ensures
        expanded(entries, sealed_link(child), room, last) is Ok,
        expanded(entries, sealed_link(child), room, last)->Ok_0.0 == child,
    decreases child, 1int,
{
    if by_digest(child, encoding(child)) {
        lemma_decode_encoding(child);
        lemma_expanded_sealed(entries, child, room, digest_of(encoding(child)));
    } else {
        lemma_expanded_sealed(entries, child, room, last);
    }
}

/// The expansion of the first `n` children of a branch as its encoding
/// holds them.
pub proof fn lemma_expanded_links(
    entries: Map<Seq<u8>, (Seq<u8>, int)>,
    children: Seq<Shape>,
    n: int,
    room: nat,
    last: Seq<u8>,
)
    requires
        0 <= n <= children.len(),
        forall|i: int|
            0 <= i < children.len() ==> {
                &&& (#[trigger] children[i]).canonical()
                &&& encodable(children[i])
                &&& holds(entries, children[i])
                &&& (by_digest(children[i], encoding(children[i])) ==> keeps(
                    entries,
                    encoding(children[i]),
                ))
                &&& reach(children[i]) <= room
            },
    ensures
        expanded_all(
            entries,
            sealed_all(children, children.len() as int),
            n,
            room,
            last,
        ) is Ok,
        expanded_all(
            entries,
            sealed_all(children, children.len() as int),
            n,
            room,
            last,
        )->Ok_0.0 == children.take(n),
    decreases children, n,
{
    let held = sealed_all(children, children.len() as int);
    lemma_sealed_all(children, children.len() as int);
    if n > 0 {
        lemma_expanded_links(entries, children, n - 1, room, last);
        lemma_expanded_link(entries, children[n - 1], room, last);
        assert(held[n - 1] == sealed_link(children[n - 1]));
        assert(children.take(n - 1).push(children[n - 1]) =~= children.take(n));
    } else {
        assert(children.take(0) =~= Seq::<Shape>::empty());
    }
}

/// The expansion of a tree as its encoding holds it, out of a store that
/// holds the tree, is the tree.
pub proof fn lemma_expanded_sealed(
    entries: Map<Seq<u8>, (Seq<u8>, int)>,
    node: Shape,
    room: nat,
    last: Seq<u8>,
)
    requires
        node.canonical(),
        encodable(node),
        holds(entries, node),
        reach(node) <= room,
    ensures
        expanded(entries, sealed(node), room, last) is Ok,
        expanded(entries, sealed(node), room, last)->Ok_0.0 == node,
    decreases node, 0int,
{
    match node {
        Shape::Extension { path, child } => {
            lemma_expanded_link(entries, *child, (room - path.len()) as nat, last);
        },
        Shape::Branch { children, value } => {
            assert forall|i: int| 0 <= i < children.len() implies reach(#[trigger] children[i])
                <= room - 1 by {
                lemma_reach_all(children, children.len() as int, i);
            }
            lemma_expanded_links(entries, children, 16, (room - 1) as nat, last);
            lemma_sealed_all(children, 16);
            assert(children.take(16) =~= children);
        },
        _ => {},
    }
}

/// Commit, then reopen: after a commit that nothing stood in the way of,
/// the tree that the store holds under the new root is the tree that was
/// committed, and its listing gives exactly its entries in strictly
/// ascending order of the keys.
pub proof fn law_commit_then_reopen(
    store: Map<Seq<u8>, (Seq<u8>, int)>,
    doomed: Seq<Seq<u8>>,
    shape: Shape,
)
    requires
        shape.canonical(),
        encodable(shape),
        keyed(shape),
        reach(shape) <= usize::MAX,
        unclashed(removed_all(store, doomed), commit_writes(shape)),
    ensures
        expanded(
            committed(store, doomed, shape),
            Shape::Hash { digest: root_of(shape) },
            usize::MAX as nat,
            root_of(shape),
        ) is Ok,
        expanded(
            committed(store, doomed, shape),
            Shape::Hash { digest: root_of(shape) },
            usize::MAX as nat,
            root_of(shape),
        )->Ok_0.0 == shape,
        ascending(packed(pairs(shape, Seq::empty()))),
        forall|key: Seq<u8>, value: Seq<u8>|
            #![trigger packed(pairs(shape, Seq::empty())).contains((key, value))]
            packed(pairs(shape, Seq::empty())).contains((key, value)) <==> entries_of(
                shape,
            ).contains_pair(key, value),
{
    let writes = commit_writes(shape);
    let after = committed(store, doomed, shape);
    lemma_stored_inserted_all(removed_all(store, doomed), writes);
    assert forall|x: Seq<u8>| #[trigger] stored_parts(shape).contains(x) implies keeps(after, x) by {
        lemma_row_contains(stored_parts(shape), seq![encoding(shape)], x);
        let i = choose|i: int| 0 <= i < writes.len() && writes[i] == x;
    }
    lemma_holds_parts(after, shape);
    assert(writes[writes.len() - 1] == encoding(shape));
    lemma_decode_encoding(shape);
    lemma_expanded_sealed(after, shape, usize::MAX as nat, root_of(shape));
    law_listing(shape);
}

} // verus!
