//! Insertion and removal through the store do to a tree that stands for a
//! whole tree what insertion and removal do to the whole tree.

use vstd::prelude::*;
use crate::insertion::lemma_canonical_insert;
use crate::insertion::lemma_nibbles_parts;
use crate::lazy::cut;
use crate::lazy::fused;
use crate::lazy::put;
use crate::nibble::common_prefix;
use crate::nibble::lemma_common_prefix;
use crate::nibble::lemma_common_prefix_unique;
use crate::nibble::nibbles_ok;
use crate::removal::lemma_canonical_remove;
use crate::roundtrip::encodable;
use crate::roundtrip::sealed;
use crate::shape::Shape;
use crate::shape::blank_children;
use crate::shape::collapsed;
use crate::shape::lemma_next_child;
use crate::shape::lemma_next_child_is;
use crate::shape::next_child;
use crate::shape::prefixed;
use crate::shape::with_entry;
use crate::standing::lemma_fetched_stands;
use crate::standing::lemma_stands_for_itself;
use crate::standing::stands_for;

verus! {

/// A tree that is moved down stands for the tree that it stood for, moved
/// down as well. A tree that is held by its digest must stand for a branch.
pub proof fn lemma_prefixed_stands(
    entries: Map<Seq<u8>, (Seq<u8>, int)>,
    pre: Seq<u8>,
    node: Shape,
    full: Shape,
)
    requires
        stands_for(entries, node, full, false),
        node is Hash ==> full is Branch,
    ensures
        stands_for(entries, prefixed(pre, node), prefixed(pre, full), false),
{
    reveal_with_fuel(stands_for, 2);
}

/// Slots that stand for one another are occupied alike.
pub proof fn lemma_next_child_stands(
    entries: Map<Seq<u8>, (Seq<u8>, int)>,
    children: Seq<Shape>,
    full: Seq<Shape>,
    from: int,
)
    requires
        children.len() == full.len(),
        0 <= from <= children.len(),
        forall|i: int|
            0 <= i < children.len() ==> stands_for(entries, #[trigger] children[i], full[i], false),
    ensures
        next_child(children, from) == next_child(full, from),
{
    lemma_next_child(full, from);
    let at = next_child(full, from);
    assert forall|j: int| from <= j < at implies (#[trigger] children[j]) is Empty by {
        assert(stands_for(entries, children[j], full[j], false));
    }
    if at < children.len() {
        assert(stands_for(entries, children[at], full[at], false));
    }
    lemma_next_child_is(children, from, at);
}

/// Insertion through the store: where a tree stands for a whole tree in
/// normal form, the insertion succeeds, and what comes of it stands for the
/// whole tree with the value inserted.
pub proof fn law_put_stands(
    entries: Map<Seq<u8>, (Seq<u8>, int)>,
    node: Shape,
    full: Shape,
    top: bool,
    p: Seq<u8>,
    v: Seq<u8>,
)
    requires
        stands_for(entries, node, full, top),
        full.canonical(),
        encodable(full),
        nibbles_ok(p),
        v.len() > 0,
    ensures
        put(entries, node, p, v) is Ok,
        stands_for(entries, put(entries, node, p, v)->Ok_0.0, full.insert(p, v), false),
        !(put(entries, node, p, v)->Ok_0.0 is Hash),
    decreases p.len(), (if node is Hash {
        1int
    } else {
        0int
    }), node,
{
    lemma_canonical_insert(full, p, v);
    match node {
        Shape::Hash { digest } => {
            lemma_fetched_stands(entries, digest, full, top);
            law_put_stands(entries, sealed(full), full, false, p, v);
        },
        Shape::Extension { path: own, child } => {
            let below = *full->child;
            lemma_common_prefix(own, p);
            let c = common_prefix(own, p) as int;
            if own.is_prefix_of(p) {
                assert(own.take(own.len() as int) =~= own);
                assert(p.take(own.len() as int) =~= p.subrange(0, own.len() as int));
                lemma_common_prefix_unique(own, p, own.len() as int);
                lemma_nibbles_parts(p, own.len() as int);
                law_put_stands(entries, *child, below, false, p.skip(own.len() as int), v);
            } else {
                assert(c < own.len()) by {
                    if c == own.len() {
                        assert(own.take(c) =~= own);
                        assert(p.take(c) =~= p.subrange(0, c));
                    }
                }
                lemma_prefixed_stands(entries, own.skip(c + 1), *child, below);
                let moved = prefixed(own.skip(c + 1), *child);
                let moved_full = prefixed(own.skip(c + 1), below);
                let kids = blank_children().update(own[c] as int, moved);
                let kids_full = blank_children().update(own[c] as int, moved_full);
                let fork = with_entry(kids, None, p.skip(c), v);
                let fork_full = with_entry(kids_full, None, p.skip(c), v);
                assert(stands_for(entries, fork, fork_full, false)) by {
                    let a = fork->children;
                    let b = fork_full->children;
                    assert forall|i: int| 0 <= i < a.len() implies stands_for(
                        entries,
                        #[trigger] a[i],
                        b[i],
                        false,
                    ) by {
                        if p.skip(c).len() > 0 && i == p.skip(c)[0] {
                        } else if i == own[c] {
                        } else {
                            assert(a[i] is Empty && b[i] is Empty);
                        }
                    }
                }
                lemma_prefixed_stands(entries, p.take(c), fork, fork_full);
            }
        },
        Shape::Branch { children, value } => {
            let whole = full->children;
            if p.len() > 0 && (p[0] as int) < children.len() {
                let i = p[0] as int;
                lemma_nibbles_parts(p, 1);
                law_put_stands(entries, children[i], whole[i], false, p.skip(1), v);
                let below = put(entries, children[i], p.skip(1), v)->Ok_0.0;
                let a = children.update(i, below);
                let b = whole.update(i, whole[i].insert(p.skip(1), v));
                assert forall|j: int| 0 <= j < a.len() implies stands_for(
                    entries,
                    #[trigger] a[j],
                    b[j],
                    false,
                ) by {
                    if j != i {
                        assert(stands_for(entries, children[j], whole[j], false));
                    }
                }
            } else if p.len() > 0 {
                assert(p[0] < 16);
            }
        },
        Shape::Leaf { .. } => {
            lemma_stands_for_itself(entries, full.insert(p, v), false);
        },
        Shape::Empty => {
            lemma_stands_for_itself(entries, full.insert(p, v), false);
        },
    }
}

/// What is left of a branch whose slots stand for those of a whole branch
/// stands for what is left of the whole branch.
pub proof fn lemma_fused_stands(
    entries: Map<Seq<u8>, (Seq<u8>, int)>,
    children: Seq<Shape>,
    full: Seq<Shape>,
    value: Option<Seq<u8>>,
)
    requires
        children.len() == 16,
        full.len() == 16,
        forall|i: int| 0 <= i < 16 ==> stands_for(entries, #[trigger] children[i], full[i], false),
        forall|i: int|
            0 <= i < 16 && (#[trigger] children[i]) is Hash ==> full[i].canonical() && encodable(
                full[i],
            ),
    ensures
        fused(entries, children, value) is Ok,
        stands_for(entries, fused(entries, children, value)->Ok_0.0, collapsed(full, value), false),
        !(fused(entries, children, value)->Ok_0.0 is Hash),
{
    lemma_next_child_stands(entries, children, full, 0);
    lemma_next_child(children, 0);
    let first = next_child(children, 0);
    if first < 16 {
        lemma_next_child_stands(entries, children, full, first + 1);
        assert(stands_for(entries, children[first], full[first], false));
        if value is None && next_child(children, first + 1) >= 16 {
            if children[first] is Hash {
                lemma_fetched_stands(entries, children[first]->digest, full[first], false);
                lemma_prefixed_stands(
                    entries,
                    seq![first as u8],
                    sealed(full[first]),
                    full[first],
                );
            } else {
                lemma_prefixed_stands(entries, seq![first as u8], children[first], full[first]);
            }
        }
    }
}

/// Removal through the store: where a tree stands for a whole tree in
/// normal form, the removal succeeds, and what comes of it stands for the
/// whole tree with the entry removed.
pub proof fn law_cut_stands(
    entries: Map<Seq<u8>, (Seq<u8>, int)>,
    node: Shape,
    full: Shape,
    top: bool,
    p: Seq<u8>,
)
    requires
        stands_for(entries, node, full, top),
        full.canonical(),
        encodable(full),
    ensures
        cut(entries, node, p) is Ok,
        stands_for(entries, cut(entries, node, p)->Ok_0.0, full.remove(p), false),
        !(cut(entries, node, p)->Ok_0.0 is Hash),
    decreases p.len(), (if node is Hash {
        1int
    } else {
        0int
    }), node,
{
    lemma_canonical_remove(full, p);
    match node {
        Shape::Hash { digest } => {
            lemma_fetched_stands(entries, digest, full, top);
            law_cut_stands(entries, sealed(full), full, false, p);
        },
        Shape::Extension { path: own, child } => {
            let below = *full->child;
            if own.is_prefix_of(p) {
                law_cut_stands(entries, *child, below, false, p.skip(own.len() as int));
                lemma_prefixed_stands(
                    entries,
                    own,
                    cut(entries, *child, p.skip(own.len() as int))->Ok_0.0,
                    below.remove(p.skip(own.len() as int)),
                );
            }
        },
        Shape::Branch { children, value } => {
            let whole = full->children;
            assert forall|i: int| 0 <= i < 16 && (#[trigger] children[i]) is Hash implies whole[i].canonical()
                && encodable(whole[i]) by {}
            if p.len() == 0 {
                lemma_fused_stands(entries, children, whole, None);
            } else if p[0] < 16 {
                let i = p[0] as int;
                law_cut_stands(entries, children[i], whole[i], false, p.skip(1));
                let below = cut(entries, children[i], p.skip(1))->Ok_0.0;
                let a = children.update(i, below);
                let b = whole.update(i, whole[i].remove(p.skip(1)));
                assert forall|j: int| 0 <= j < 16 implies stands_for(
                    entries,
                    #[trigger] a[j],
                    b[j],
                    false,
                ) by {
                    if j != i {
                        assert(stands_for(entries, children[j], whole[j], false));
                    }
                }
                assert forall|j: int| 0 <= j < 16 && (#[trigger] a[j]) is Hash implies b[j].canonical()
                    && encodable(b[j]) by {
                    assert(j != i);
                    assert(children[j] is Hash);
                }
                lemma_fused_stands(entries, a, b, value);
            }
        },
        Shape::Leaf { .. } => {
            lemma_stands_for_itself(entries, full.remove(p), false);
        },
        Shape::Empty => {},
    }
}

} // verus!
