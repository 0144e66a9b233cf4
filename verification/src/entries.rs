//! The entries of a tree in the order of the walk through it.

use vstd::prelude::*;
use crate::shape::Shape;

verus! {

/// The entry that the value of a branch makes, if it has one.
pub open spec fn own_pair(prefix: Seq<u8>, value: Option<Seq<u8>>) -> Seq<(Seq<u8>, Seq<u8>)> {
    match value {
        Some(v) => seq![(prefix, v)],
        None => Seq::empty(),
    }
}

/// The entries below `node`, whose place is `prefix`: each with its whole
/// path, a branch's own value first, then what is below its children from
/// the first to the last. What is not held here has no entries.
pub open spec fn pairs(node: Shape, prefix: Seq<u8>) -> Seq<(Seq<u8>, Seq<u8>)>
    decreases node, 0int,
{
    match node {
        Shape::Empty => Seq::empty(),
        Shape::Leaf { path, value } => seq![(prefix + path, value)],
        Shape::Extension { path, child } => pairs(*child, prefix + path),
        Shape::Branch { children, value } => own_pair(prefix, value) + pairs_all(
            children,
            children.len() as int,
            prefix,
        ),
        Shape::Hash { .. } => Seq::empty(),
    }
}

/// The entries below the first `n` children of a branch at `prefix`.
pub open spec fn pairs_all(children: Seq<Shape>, n: int, prefix: Seq<u8>) -> Seq<
    (Seq<u8>, Seq<u8>),
>
    decreases children, n,
{
    if n <= 0 || n > children.len() {
        Seq::empty()
    } else {
        pairs_all(children, n - 1, prefix) + pairs(children[n - 1], prefix.push((n - 1) as u8))
    }
}

} // verus!
