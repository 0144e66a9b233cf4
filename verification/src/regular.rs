//! Regular shapes: what every tree in memory is, whether or not it is in
//! normal form and whether or not it holds nodes only by their digests.

use vstd::prelude::*;
use crate::codec::decoded;
use crate::codec::decoded_link;
use crate::codec::decoded_links;
use crate::codec::items_in;
use crate::insertion::lemma_nibbles_parts;
use crate::nibble::common_prefix;
use crate::nibble::law_unprefixed_is_prefix;
use crate::nibble::lemma_common_prefix;
use crate::nibble::nibbles_ok;
use crate::nibble::unprefixed;
use crate::rlp::Span;
use crate::rlp::item_at;
use crate::shape::Shape;
use crate::shape::blank_children;
use crate::shape::collapsed;
use crate::shape::lemma_next_child;
use crate::shape::next_child;
use crate::shape::prefixed;
use crate::shape::with_entry;

verus! {

/// Whether a shape is regular: paths hold half-bytes, an extension has a
/// path, and a branch has sixteen slots.
pub open spec fn regular(node: Shape) -> bool
    decreases node,
{
    match node {
        Shape::Leaf { path, value } => nibbles_ok(path),
        Shape::Extension { path, child } => path.len() > 0 && nibbles_ok(path) && regular(*child),
        Shape::Branch { children, value } => children.len() == 16 && forall|i: int|
            0 <= i < children.len() ==> regular(#[trigger] children[i]),
        _ => true,
    }
}

/// A shape in normal form is regular.
pub proof fn lemma_canonical_regular(node: Shape)
    requires
        node.canonical(),
    ensures
        regular(node),
    decreases node,
{
    match node {
        Shape::Extension { path, child } => {
            lemma_canonical_regular(*child);
        },
        Shape::Branch { children, value } => {
            assert forall|i: int| 0 <= i < children.len() implies regular(#[trigger] children[i]) by {
                lemma_canonical_regular(children[i]);
            }
        },
        _ => {},
    }
}

/// A regular shape that is moved down by a path of half-bytes is regular.
pub proof fn lemma_regular_prefixed(pre: Seq<u8>, node: Shape)
    requires
        nibbles_ok(pre),
        regular(node),
    ensures
        regular(prefixed(pre, node)),
{
    if pre.len() > 0 {
        match node {
            Shape::Leaf { path, value } => {
                assert(nibbles_ok(pre + path));
            },
            Shape::Extension { path, child } => {
                assert(nibbles_ok(pre + path));
            },
            _ => {},
        }
    }
}

/// A regular branch with one more entry is regular.
pub proof fn lemma_regular_with_entry(
    children: Seq<Shape>,
    value: Option<Seq<u8>>,
    path: Seq<u8>,
    v: Seq<u8>,
)
    requires
        regular(Shape::Branch { children, value }),
        nibbles_ok(path),
    ensures
        regular(with_entry(children, value, path, v)),
{
    if path.len() > 0 {
        lemma_nibbles_parts(path, 1);
        let after = with_entry(children, value, path, v)->children;
        assert forall|i: int| 0 <= i < after.len() implies regular(#[trigger] after[i]) by {
            if i != path[0] {
                assert(after[i] == children[i]);
            }
        }
    }
}

/// What is left of a regular branch is regular.
pub proof fn lemma_regular_collapsed(children: Seq<Shape>, value: Option<Seq<u8>>)
    requires
        regular(Shape::Branch { children, value }),
    ensures
        regular(collapsed(children, value)),
{
    lemma_next_child(children, 0);
    let first = next_child(children, 0);
    if first >= 16 {
        assert(nibbles_ok(Seq::<u8>::empty()));
    } else if value is None && next_child(children, first + 1) >= 16 {
        assert(nibbles_ok(seq![first as u8]));
        lemma_regular_prefixed(seq![first as u8], children[first]);
    }
}

/// Insertion at a path of half-bytes keeps a shape regular.
pub proof fn lemma_regular_insert(node: Shape, p: Seq<u8>, v: Seq<u8>)
    requires
        regular(node),
        nibbles_ok(p),
    ensures
        regular(node.insert(p, v)),
    decreases node,
{
    match node {
        Shape::Leaf { path: own, value: old } => {
            if own != p {
                lemma_common_prefix(own, p);
                let c = common_prefix(own, p) as int;
                lemma_nibbles_parts(own, c);
                lemma_nibbles_parts(p, c);
                assert(regular(Shape::Branch { children: blank_children(), value: None })) by {
                    reveal_with_fuel(regular, 2);
                }
                lemma_regular_with_entry(blank_children(), None, own.skip(c), old);
                let one = with_entry(blank_children(), None, own.skip(c), old);
                lemma_regular_with_entry(one->children, one->Branch_value, p.skip(c), v);
                lemma_regular_prefixed(
                    p.take(c),
                    with_entry(one->children, one->Branch_value, p.skip(c), v),
                );
            }
        },
        Shape::Extension { path: own, child } => {
            lemma_common_prefix(own, p);
            let c = common_prefix(own, p) as int;
            lemma_nibbles_parts(p, c);
            if c == own.len() {
                lemma_regular_insert(*child, p.skip(c), v);
            } else {
                lemma_nibbles_parts(own, c + 1);
                lemma_regular_prefixed(own.skip(c + 1), *child);
                let kids = blank_children().update(
                    own[c] as int,
                    prefixed(own.skip(c + 1), *child),
                );
                assert(regular(Shape::Branch { children: kids, value: None })) by {
                    reveal_with_fuel(regular, 2);
                    assert forall|i: int| 0 <= i < kids.len() implies regular(#[trigger] kids[i]) by {}
                }
                lemma_regular_with_entry(kids, None, p.skip(c), v);
                lemma_regular_prefixed(p.take(c), with_entry(kids, None, p.skip(c), v));
            }
        },
        Shape::Branch { children, value: own } => {
            if p.len() > 0 && (p[0] as int) < children.len() {
                lemma_nibbles_parts(p, 1);
                lemma_regular_insert(children[p[0] as int], p.skip(1), v);
                let after = children.update(p[0] as int, children[p[0] as int].insert(p.skip(1), v));
                assert forall|i: int| 0 <= i < after.len() implies regular(#[trigger] after[i]) by {
                    if i != p[0] {
                        assert(after[i] == children[i]);
                    }
                }
            }
        },
        _ => {},
    }
}

/// Removal keeps a shape regular.
pub proof fn lemma_regular_remove(node: Shape, p: Seq<u8>)
    requires
        regular(node),
    ensures
        regular(node.remove(p)),
    decreases node,
{
    match node {
        Shape::Extension { path: own, child } => {
            if own.is_prefix_of(p) {
                lemma_regular_remove(*child, p.skip(own.len() as int));
                lemma_regular_prefixed(own, child.remove(p.skip(own.len() as int)));
            }
        },
        Shape::Branch { children, value } => {
            if p.len() == 0 {
                lemma_regular_collapsed(children, None);
            } else if (p[0] as int) < children.len() {
                lemma_regular_remove(children[p[0] as int], p.skip(1));
                let after = children.update(p[0] as int, children[p[0] as int].remove(p.skip(1)));
                assert forall|i: int| 0 <= i < after.len() implies regular(#[trigger] after[i]) by {
                    if i != p[0] {
                        assert(after[i] == children[i]);
                    }
                }
                lemma_regular_collapsed(after, value);
            }
        },
        _ => {},
    }
}

/// The children that links read back as are as many as the links, and each
/// is regular.
pub proof fn lemma_decoded_links_regular(buf: Seq<u8>, items: Seq<Span>, n: int)
    requires
        0 <= n <= items.len(),
        decoded_links(buf, items, n) is Some,
    ensures
        decoded_links(buf, items, n)->Some_0.len() == n,
        forall|i: int| 0 <= i < n ==> regular(#[trigger] decoded_links(buf, items, n)->Some_0[i]),
    decreases buf.len(), 1int, n,
{
    if n > 0 {
        lemma_decoded_links_regular(buf, items, n - 1);
        lemma_decoded_link_regular(buf, items[n - 1]);
    }
}

/// The child that a link reads back as is regular.
pub proof fn lemma_decoded_link_regular(buf: Seq<u8>, it: Span)
    requires
        decoded_link(buf, it) is Some,
    ensures
        regular(decoded_link(buf, it)->Some_0),
    decreases buf.len(), 0int, 0int,
{
    if it.list {
        lemma_decoded_regular(buf.subrange(it.from, it.end));
    }
}

/// What is read back from bytes is regular, and is a node held in place.
pub proof fn lemma_decoded_regular(buf: Seq<u8>)
    requires
        decoded(buf) is Some,
    ensures
        regular(decoded(buf)->Some_0),
        !(decoded(buf)->Some_0 is Hash),
    decreases buf.len(), 2int, 0int,
{
    if buf != crate::store::null_node() {
        let top = item_at(buf, 0)->Some_0;
        let items = items_in(buf, top.start, top.end)->Some_0;
        if items.len() == 2 {
            let first = items[0];
            let found = unprefixed(buf.subrange(first.start, first.end));
            law_unprefixed_is_prefix(buf.subrange(first.start, first.end));
            if !found->Some_0.1 {
                lemma_decoded_link_regular(buf, items[1]);
            }
        } else if items.len() == 17 {
            lemma_decoded_links_regular(buf, items, 16);
        }
    }
}

} // verus!
