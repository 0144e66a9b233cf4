//! Normal form is unique: two shapes in normal form in which every path
//! finds the same are one shape.

use vstd::prelude::*;
use crate::shape::Shape;
use crate::shape::lemma_next_child;
use crate::shape::next_child;

verus! {

/// A path that finds a value in a shape in normal form that is not empty.
pub open spec fn some_key(node: Shape) -> Seq<u8>
    decreases node,
{
    match node {
        Shape::Empty => Seq::empty(),
        Shape::Leaf { path, .. } => path,
        Shape::Extension { path, child } => path + some_key(*child),
        Shape::Branch { children, value } => {
            let first = next_child(children, 0);
            if value is Some || !(0 <= first < children.len()) {
                Seq::empty()
            } else {
                seq![first as u8] + some_key(children[first])
            }
        },
        Shape::Hash { .. } => Seq::empty(),
    }
}

/// A second such path, in an extension or a branch.
pub open spec fn other_key(node: Shape) -> Seq<u8>
    decreases node,
{
    match node {
        Shape::Extension { path, child } => path + other_key(*child),
        Shape::Branch { children, value } => {
            let first = next_child(children, 0);
            let at = if value is Some {
                first
            } else {
                next_child(children, first + 1)
            };
            if 0 <= at < children.len() {
                seq![at as u8] + some_key(children[at])
            } else {
                Seq::empty()
            }
        },
        _ => Seq::empty(),
    }
}

/// What a path finds that goes on after the whole of `pre`.
pub proof fn lemma_skip_concat(pre: Seq<u8>, rest: Seq<u8>)
    ensures
        pre.is_prefix_of(pre + rest),
        (pre + rest).skip(pre.len() as int) == rest,
{
    assert(pre =~= (pre + rest).subrange(0, pre.len() as int));
    assert((pre + rest).skip(pre.len() as int) =~= rest);
}

/// `some_key` finds a value.
pub proof fn lemma_some_key(node: Shape)
    requires
        node.canonical(),
        !(node is Empty),
    ensures
        node.get(some_key(node)) is Some,
    decreases node,
{
    match node {
        Shape::Empty => {},
        Shape::Leaf { .. } => {},
        Shape::Extension { path, child } => {
            lemma_some_key(*child);
            lemma_skip_concat(path, some_key(*child));
        },
        Shape::Branch { children, value } => {
            if value is None {
                lemma_next_child(children, 0);
                let first = next_child(children, 0);
                lemma_some_key(children[first]);
                lemma_skip_concat(seq![first as u8], some_key(children[first]));
            }
        },
        Shape::Hash { .. } => {},
    }
}

/// An extension or a branch in normal form has two entries. In a branch one
/// of the two paths is empty or they differ in their first nibble.
pub proof fn lemma_two_keys(node: Shape)
    requires
        node.canonical(),
        node is Extension || node is Branch,
    ensures
        node.get(some_key(node)) is Some,
        node.get(other_key(node)) is Some,
        some_key(node) != other_key(node),
        node is Branch ==> some_key(node).len() == 0 || other_key(node).len() == 0 || some_key(
            node,
        )[0] != other_key(node)[0],
    decreases node,
{
    lemma_some_key(node);
    match node {
        Shape::Extension { path, child } => {
            lemma_two_keys(*child);
            lemma_skip_concat(path, some_key(*child));
            lemma_skip_concat(path, other_key(*child));
        },
        Shape::Branch { children, value } => {
            lemma_next_child(children, 0);
            let first = next_child(children, 0);
            let at = if value is Some {
                first
            } else {
                next_child(children, first + 1)
            };
            if value is None {
                lemma_next_child(children, first + 1);
            }
            lemma_some_key(children[at]);
            lemma_skip_concat(seq![at as u8], some_key(children[at]));
            assert(other_key(node)[0] == at as u8);
            if value is None {
                assert(some_key(node)[0] == first as u8);
            }
        },
        _ => {},
    }
}

/// The kinds in the order empty, leaf, extension, branch: of two shapes in
/// normal form with the same entries, the first is of no earlier kind.
pub proof fn lemma_kind_not_before(a: Shape, b: Shape)
    requires
        a.canonical(),
        b.canonical(),
        forall|q: Seq<u8>| a.get(q) == b.get(q),
    ensures
        a is Empty ==> b is Empty,
        a is Leaf ==> b is Empty || b is Leaf,
        a is Extension ==> !(b is Branch),
{
    match a {
        Shape::Empty => {
            if !(b is Empty) {
                lemma_some_key(b);
                assert(a.get(some_key(b)) == b.get(some_key(b)));
            }
        },
        Shape::Leaf { path, value } => {
            if b is Extension || b is Branch {
                lemma_two_keys(b);
                assert(a.get(some_key(b)) == b.get(some_key(b)));
                assert(a.get(other_key(b)) == b.get(other_key(b)));
            }
        },
        Shape::Extension { path, child } => {
            if b is Branch {
                lemma_two_keys(b);
                let k1 = some_key(b);
                let k2 = other_key(b);
                assert(a.get(k1) == b.get(k1));
                assert(a.get(k2) == b.get(k2));
                assert(path[0] == k1.subrange(0, path.len() as int)[0]);
                assert(path[0] == k2.subrange(0, path.len() as int)[0]);
            }
        },
        Shape::Branch { .. } => {},
        Shape::Hash { .. } => {},
    }
}

/// Where `pre` starts `own + rest` and is longer than `own`, `rest` starts
/// with the element of `pre` that follows; where it is as long, it is `own`.
pub proof fn lemma_prefix_overrun(pre: Seq<u8>, own: Seq<u8>, rest: Seq<u8>)
    requires
        pre.is_prefix_of(own + rest),
    ensures
        pre.len() > own.len() ==> rest.len() > 0 && rest[0] == pre[own.len() as int],
        pre.len() == own.len() ==> pre == own,
{
    let whole = own + rest;
    let n = pre.len() as int;
    assert(pre =~= whole.subrange(0, n));
    if pre.len() > own.len() {
        assert(pre[own.len() as int] == whole.subrange(0, n)[own.len() as int]);
    }
    if pre.len() == own.len() {
        assert(pre =~= own);
    }
}

/// Two extensions in normal form with the same entries have the same path.
pub proof fn lemma_same_extension_path(a: Shape, b: Shape)
    requires
        a.canonical(),
        b.canonical(),
        a is Extension,
        b is Extension,
        forall|q: Seq<u8>| a.get(q) == b.get(q),
    ensures
        a->Extension_path == b->Extension_path,
{
    let pa = a->Extension_path;
    let pb = b->Extension_path;
    let ca = *a->child;
    let cb = *b->child;
    lemma_two_keys(ca);
    lemma_two_keys(cb);
    let k1 = some_key(ca);
    let k2 = other_key(ca);
    let j1 = some_key(cb);
    let j2 = other_key(cb);
    lemma_skip_concat(pa, k1);
    lemma_skip_concat(pa, k2);
    lemma_skip_concat(pb, j1);
    lemma_skip_concat(pb, j2);
    assert(a.get(pa + k1) == b.get(pa + k1));
    assert(a.get(pa + k2) == b.get(pa + k2));
    assert(a.get(pb + j1) == b.get(pb + j1));
    assert(a.get(pb + j2) == b.get(pb + j2));
    lemma_prefix_overrun(pb, pa, k1);
    lemma_prefix_overrun(pb, pa, k2);
    lemma_prefix_overrun(pa, pb, j1);
    lemma_prefix_overrun(pa, pb, j2);
}

/// Two shapes in normal form in which every path finds the same are the
/// same shape.
pub proof fn lemma_unique(a: Shape, b: Shape)
    requires
        a.canonical(),
        b.canonical(),
        forall|q: Seq<u8>| a.get(q) == b.get(q),
    ensures
        a == b,
    decreases a,
{
    lemma_kind_not_before(a, b);
    lemma_kind_not_before(b, a);
    match a {
        Shape::Empty => {},
        Shape::Leaf { path, value } => {
            assert(a.get(path) == b.get(path));
        },
        Shape::Extension { path, child } => {
            lemma_same_extension_path(a, b);
            let other = *b->child;
            assert forall|q: Seq<u8>| child.get(q) == other.get(q) by {
                lemma_skip_concat(path, q);
                assert(a.get(path + q) == b.get(path + q));
            }
            lemma_unique(*child, other);
        },
        Shape::Branch { children, value } => {
            let others = b->children;
            assert(a.get(Seq::empty()) == b.get(Seq::empty()));
            assert forall|i: int| 0 <= i < 16 implies children[i] == others[i] by {
                assert forall|q: Seq<u8>| children[i].get(q) == others[i].get(q) by {
                    let whole = seq![i as u8] + q;
                    lemma_skip_concat(seq![i as u8], q);
                    assert(whole[0] == i as u8);
                    assert(a.get(whole) == b.get(whole));
                }
                lemma_unique(children[i], others[i]);
            }
            assert(children =~= others);
        },
        Shape::Hash { .. } => {},
    }
}

} // verus!
