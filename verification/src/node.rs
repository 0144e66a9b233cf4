//! The trie held in memory: a tree of nodes whose view is a shape, with the
//! pieces of restructuring that insertion and removal need.

use vstd::prelude::*;
use vstd::slice::slice_subrange;
use vstd::slice::slice_to_vec;
use crate::hasher::Digest;
use crate::shape::Shape;
use crate::shape::blank_children;
use crate::shape::collapsed;
use crate::shape::lemma_next_child_is;
use crate::shape::next_child;
use crate::shape::prefixed;

verus! {

/// A trie node. The paths hold nibbles; a branch has sixteen child slots,
/// and the slot of an absent child holds `Empty`. A child is either held in
/// place or stands as `Hash`.
#[allow(inconsistent_fields)]
#[derive(Debug)]
pub enum Node {
    Empty,
    Leaf { path: Vec<u8>, value: Vec<u8> },
    Extension { path: Vec<u8>, child: Box<Node> },
    Branch { children: Vec<Node>, value: Option<Vec<u8>> },
    /// A node that is not held here, by the digest of its encoding.
    Hash { digest: Digest },
}

/// The bytes of an optional value.
pub open spec fn value_view(value: Option<Vec<u8>>) -> Option<Seq<u8>> {
    match value {
        Some(v) => Some(v@),
        None => None,
    }
}

/// The shapes of a row of nodes.
pub open spec fn shapes_of(nodes: Seq<Node>) -> Seq<Shape> {
    Seq::new(nodes.len(), |i: int| nodes[i]@)
}

impl Node {
    /// The shape of the tree below this node.
    pub open spec fn shape(self) -> Shape
        decreases self,
    {
        match self {
            Node::Empty => Shape::Empty,
            Node::Leaf { path, value } => Shape::Leaf { path: path@, value: value@ },
            Node::Extension { path, child } => Shape::Extension {
                path: path@,
                child: Box::new((*child).shape()),
            },
            Node::Branch { children, value } => Shape::Branch {
                children: Seq::new(
                    children@.len(),
                    |i: int|
                        if 0 <= i < children@.len() {
                            children@[i].shape()
                        } else {
                            Shape::Empty
                        },
                ),
                value: value_view(value),
            },
            Node::Hash { digest } => Shape::Hash { digest: digest@ },
        }
    }
}

impl View for Node {
    type V = Shape;

    open spec fn view(&self) -> Shape {
        self.shape()
    }
}

/// The view of a branch holds the shapes of its children.
pub proof fn lemma_branch_view(children: Vec<Node>, value: Option<Vec<u8>>)
    ensures
        (Node::Branch { children, value })@ == (Shape::Branch {
            children: shapes_of(children@),
            value: value_view(value),
        }),
{
    assert((Node::Branch { children, value })@->children =~= shapes_of(children@));
}

/// Whether two byte strings are equal.
pub fn same_bytes(a: &[u8], b: &[u8]) -> (same: bool)
    ensures
        same == (a@ == b@),
{
    if a.len() != b.len() {
        return false;
    }
    let mut i: usize = 0;
    while i < a.len()
        invariant
            i <= a.len(),
            a.len() == b.len(),
            forall|k: int| 0 <= k < i ==> a@[k] == b@[k],
        decreases a.len() - i,
    {
        if a[i] != b[i] {
            return false;
        }
        i += 1;
    }
    assert(a@ =~= b@);
    true
}

/// Whether `key`, from position `at` on, starts with `pre`.
pub fn starts_with_at(key: &[u8], at: usize, pre: &[u8]) -> (starts: bool)
    requires
        at <= key.len(),
    ensures
        starts == pre@.is_prefix_of(key@.skip(at as int)),
{
    if pre.len() > key.len() - at {
        return false;
    }
    let part = slice_subrange(key, at, at + pre.len());
    assert(part@ =~= key@.skip(at as int).subrange(0, pre.len() as int));
    same_bytes(pre, part)
}

/// The part of `key` from `from` up to `to`, as a vector of its own.
pub fn part_of(key: &[u8], from: usize, to: usize) -> (part: Vec<u8>)
    requires
        from <= to <= key.len(),
    ensures
        part@ == key@.subrange(from as int, to as int),
{
    slice_to_vec(slice_subrange(key, from, to))
}

/// `a` followed by `b`.
pub fn joined(a: &[u8], b: &[u8]) -> (whole: Vec<u8>)
    ensures
        whole@ == a@ + b@,
{
    let mut whole: Vec<u8> = slice_to_vec(a);
    whole.extend_from_slice(b);
    whole
}

/// Sixteen empty child slots.
pub fn blank_slots() -> (slots: Vec<Node>)
    ensures
        shapes_of(slots@) == blank_children(),
        slots.len() == 16,
{
    let mut slots: Vec<Node> = Vec::new();
    let mut i: usize = 0;
    while i < 16
        invariant
            i <= 16,
            slots.len() == i,
            forall|k: int| 0 <= k < i ==> slots@[k]@ is Empty,
        decreases 16 - i,
    {
        slots.push(Node::Empty);
        i += 1;
    }
    assert(shapes_of(slots@) =~= blank_children());
    slots
}

/// The first occupied slot at or after `from`, or the number of slots.
pub fn next_occupied(children: &Vec<Node>, from: usize) -> (at: usize)
    requires
        from <= children.len(),
    ensures
        at == next_child(shapes_of(children@), from as int),
        from <= at <= children.len(),
{
    let mut i: usize = from;
    while i < children.len()
        invariant
            from <= i <= children.len(),
            forall|j: int| from <= j < i ==> (#[trigger] shapes_of(children@)[j]) is Empty,
        decreases children.len() - i,
    {
        let occupied: bool = match &children[i] {
            Node::Empty => false,
            _ => true,
        };
        if occupied {
            proof {
                assert(!(shapes_of(children@)[i as int] is Empty));
                lemma_next_child_is(shapes_of(children@), from as int, i as int);
            }
            return i;
        }
        assert(shapes_of(children@)[i as int] is Empty);
        i += 1;
    }
    proof {
        lemma_next_child_is(shapes_of(children@), from as int, i as int);
    }
    i
}

/// `node` moved down by `pre`.
pub fn moved_down(pre: Vec<u8>, node: Node) -> (moved: Node)
    ensures
        moved@ == prefixed(pre@, node@),
{
    if pre.len() == 0 {
        return node;
    }
    match node {
        Node::Empty => Node::Empty,
        Node::Leaf { path, value } => Node::Leaf { path: joined(&pre, &path), value },
        Node::Extension { path, child } => Node::Extension { path: joined(&pre, &path), child },
        Node::Branch { children, value } => Node::Extension {
            path: pre,
            child: Box::new(Node::Branch { children, value }),
        },
        Node::Hash { digest } => Node::Extension {
            path: pre,
            child: Box::new(Node::Hash { digest }),
        },
    }
}

/// What is left of a branch once entries have gone.
pub fn collapse(children: Vec<Node>, value: Option<Vec<u8>>) -> (node: Node)
    requires
        children.len() == 16,
    ensures
        node@ == collapsed(shapes_of(children@), value_view(value)),
{
    let mut children = children;
    let first: usize = next_occupied(&children, 0);
    if first >= children.len() {
        match value {
            Some(v) => Node::Leaf { path: Vec::new(), value: v },
            None => Node::Empty,
        }
    } else if value.is_none() && next_occupied(&children, first + 1) >= children.len() {
        let mut child = Node::Empty;
        let ghost before = children@;
        core::mem::swap(&mut children[first], &mut child);
        let mut pre: Vec<u8> = Vec::new();
        pre.push(first as u8);
        assert(pre@ =~= seq![first as u8]);
        assert(child@ == shapes_of(before)[first as int]);
        moved_down(pre, child)
    } else {
        proof {
            lemma_branch_view(children, value);
        }
        Node::Branch { children, value }
    }
}

} // verus!
