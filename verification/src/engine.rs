//! Insertion and removal on the trie held in memory, each proved against
//! the model of shapes.

use vstd::prelude::*;
use vstd::slice::slice_subrange;
use vstd::slice::slice_to_vec;
use crate::nibble::common_prefix_len;
use crate::nibble::lemma_common_prefix;
use crate::nibble::nibbles_ok;
use crate::node::Node;
use crate::node::blank_slots;
use crate::node::collapse;
use crate::node::lemma_branch_view;
use crate::node::moved_down;
use crate::node::part_of;
use crate::node::same_bytes;
use crate::node::shapes_of;
use crate::node::starts_with_at;
use crate::node::value_view;
use crate::regular::regular;
use crate::shape::Shape;
use crate::shape::blank_children;
use crate::shape::prefixed;
use crate::shape::with_entry;

verus! {

/// One more entry in the branch made of `children` and `value`: the value
/// itself where the key ends at `at`, else a leaf in the slot of the nibble
/// at `at`.
pub fn add_entry(
    children: &mut Vec<Node>,
    value: &mut Option<Vec<u8>>,
    key: &[u8],
    at: usize,
    v: Vec<u8>,
)
    requires
        at <= key.len(),
        at < key.len() ==> key@[at as int] < old(children).len(),
    ensures
        final(children).len() == old(children).len(),
        (Shape::Branch {
            children: shapes_of(final(children)@),
            value: value_view(*final(value)),
        }) == with_entry(
            shapes_of(old(children)@),
            value_view(*old(value)),
            key@.skip(at as int),
            v@,
        ),
{
    if at == key.len() {
        *value = Some(v);
    } else {
        let slot: usize = key[at] as usize;
        let leaf = Node::Leaf { path: part_of(key, at + 1, key.len()), value: v };
        let ghost before = children@;
        children[slot] = leaf;
        proof {
            assert(key@.skip(at as int).skip(1) =~= key@.subrange(at + 1, key.len() as int));
            assert(shapes_of(children@) =~= shapes_of(before).update(
                slot as int,
                Shape::Leaf { path: key@.skip(at as int).skip(1), value: v@ },
            ));
        }
    }
}

/// The tree with `value` at the nibbles of `key` from `at` on, and the value
/// that was there.
pub fn insert_at(node: Node, key: &[u8], at: usize, value: Vec<u8>) -> (r: (Node, Option<Vec<u8>>))
    requires
        regular(node@),
        nibbles_ok(key@),
        at <= key.len(),
    ensures
        r.0@ == node@.insert(key@.skip(at as int), value@),
        value_view(r.1) == node@.get(key@.skip(at as int)),
    decreases node,
{
    let rest = slice_subrange(key, at, key.len());
    assert(rest@ =~= key@.skip(at as int));
    match node {
        Node::Empty => (Node::Leaf { path: slice_to_vec(rest), value }, None),
        Node::Leaf { path: own, value: old } => {
            if same_bytes(own.as_slice(), rest) {
                (Node::Leaf { path: own, value }, Some(old))
            } else {
                let c: usize = common_prefix_len(own.as_slice(), rest);
                proof {
                    lemma_common_prefix(own@, rest@);
                    assert(rest@.skip(c as int) =~= key@.skip(at + c));
                    assert(rest@.take(c as int) =~= key@.subrange(at as int, at + c));
                }
                let mut children: Vec<Node> = blank_slots();
                let mut own_value: Option<Vec<u8>> = None;
                add_entry(&mut children, &mut own_value, own.as_slice(), c, old);
                add_entry(&mut children, &mut own_value, key, at + c, value);
                proof {
                    lemma_branch_view(children, own_value);
                }
                let branch = Node::Branch { children, value: own_value };
                (moved_down(part_of(key, at, at + c), branch), None)
            }
        },
        Node::Extension { path: own, child } => {
            let c: usize = common_prefix_len(own.as_slice(), rest);
            proof {
                lemma_common_prefix(own@, rest@);
                assert(rest@.skip(c as int) =~= key@.skip(at + c));
                assert(rest@.take(c as int) =~= key@.subrange(at as int, at + c));
            }
            if c == own.len() {
                assert(own@ =~= rest@.subrange(0, c as int)) by {
                    assert(own@.take(c as int) =~= own@);
                }
                let (below, old) = insert_at(*child, key, at + c, value);
                (Node::Extension { path: own, child: Box::new(below) }, old)
            } else {
                assert(!own@.is_prefix_of(rest@)) by {
                    if own@.is_prefix_of(rest@) {
                        assert(own@[c as int] == rest@.subrange(0, own.len() as int)[c as int]);
                    }
                }
                let slot: usize = own[c] as usize;
                let moved = moved_down(part_of(own.as_slice(), c + 1, own.len()), *child);
                let mut children: Vec<Node> = blank_slots();
                let ghost before = children@;
                children[slot] = moved;
                proof {
                    assert(own@.skip(c + 1) =~= own@.subrange(c + 1, own.len() as int));
                    assert(shapes_of(children@) =~= blank_children().update(
                        slot as int,
                        prefixed(own@.skip(c + 1), child@),
                    ));
                }
                let mut own_value: Option<Vec<u8>> = None;
                add_entry(&mut children, &mut own_value, key, at + c, value);
                proof {
                    lemma_branch_view(children, own_value);
                }
                let branch = Node::Branch { children, value: own_value };
                (moved_down(part_of(key, at, at + c), branch), None)
            }
        },
        Node::Branch { children, value: own } => {
            let mut children = children;
            proof {
                lemma_branch_view(children, own);
            }
            if at == key.len() {
                proof {
                    lemma_branch_view(children, Some(value));
                }
                (Node::Branch { children, value: Some(value) }, own)
            } else {
                let slot: usize = key[at] as usize;
                let ghost before = children@;
                assert(regular(shapes_of(before)[slot as int]));
                let mut child = Node::Empty;
                core::mem::swap(&mut children[slot], &mut child);
                assert(key@.skip(at as int).skip(1) =~= key@.skip(at + 1));
                let (fresh, old) = insert_at(child, key, at + 1, value);
                children[slot] = fresh;
                proof {
                    lemma_branch_view(children, own);
                    assert(shapes_of(children@) =~= shapes_of(before).update(
                        slot as int,
                        fresh@,
                    ));
                }
                (Node::Branch { children, value: own }, old)
            }
        },
        Node::Hash { digest } => (Node::Hash { digest }, None),
    }
}

/// The tree without an entry at the nibbles of `key` from `at` on, and the
/// value that was there.
pub fn remove_at(node: Node, key: &[u8], at: usize) -> (r: (Node, Option<Vec<u8>>))
    requires
        regular(node@),
        at <= key.len(),
    ensures
        r.0@ == node@.remove(key@.skip(at as int)),
        value_view(r.1) == node@.get(key@.skip(at as int)),
    decreases node,
{
    let rest = slice_subrange(key, at, key.len());
    assert(rest@ =~= key@.skip(at as int));
    match node {
        Node::Empty => (Node::Empty, None),
        Node::Leaf { path: own, value } => {
            if same_bytes(own.as_slice(), rest) {
                (Node::Empty, Some(value))
            } else {
                (Node::Leaf { path: own, value }, None)
            }
        },
        Node::Extension { path: own, child } => {
            if starts_with_at(key, at, own.as_slice()) {
                assert(rest@.skip(own.len() as int) =~= key@.skip(at + own.len()));
                let (below, old) = remove_at(*child, key, at + own.len());
                (moved_down(own, below), old)
            } else {
                (Node::Extension { path: own, child }, None)
            }
        },
        Node::Branch { children, value: own } => {
            let mut children = children;
            proof {
                lemma_branch_view(children, own);
            }
            if at == key.len() {
                (collapse(children, None), own)
            } else {
                let slot: usize = key[at] as usize;
                if slot < 16 {
                    let ghost before = children@;
                    assert(regular(shapes_of(before)[slot as int]));
                    let mut child = Node::Empty;
                    core::mem::swap(&mut children[slot], &mut child);
                    assert(key@.skip(at as int).skip(1) =~= key@.skip(at + 1));
                    let (fresh, old) = remove_at(child, key, at + 1);
                    children[slot] = fresh;
                    proof {
                        assert(shapes_of(children@) =~= shapes_of(before).update(
                            slot as int,
                            fresh@,
                        ));
                    }
                    (collapse(children, own), old)
                } else {
                    (Node::Branch { children, value: own }, None)
                }
            }
        },
        Node::Hash { digest } => (Node::Hash { digest }, None),
    }
}

} // verus!
