//! What removal does to a shape: the entry is gone, every other path finds
//! what it found before, and normal form is kept.

use vstd::prelude::*;
use crate::insertion::lemma_canonical_prefixed;
use crate::nibble::nibbles_ok;
use crate::shape::Shape;
use crate::shape::collapsed;
use crate::shape::lemma_get_prefixed;
use crate::shape::lemma_next_child;
use crate::shape::lemma_split;
use crate::shape::next_child;

verus! {

/// A path of one element starts a path exactly when it is its first element.
pub proof fn lemma_single_prefix(x: u8, q: Seq<u8>)
    ensures
        seq![x].is_prefix_of(q) <==> q.len() > 0 && q[0] == x,
{
    if q.len() > 0 {
        if q[0] == x {
            assert(seq![x] =~= q.subrange(0, 1));
        } else {
            assert(q.subrange(0, 1)[0] == q[0]);
            assert(seq![x][0] == x);
        }
    }
}

/// Collapsing a branch changes nothing of what paths find in it.
pub proof fn lemma_get_collapsed(children: Seq<Shape>, value: Option<Seq<u8>>, q: Seq<u8>)
    requires
        children.len() == 16,
    ensures
        collapsed(children, value).get(q) == (Shape::Branch { children, value }).get(q),
{
    reveal_with_fuel(Shape::get, 2);
    lemma_next_child(children, 0);
    let first = next_child(children, 0);
    if first >= 16 {
        if q.len() == 0 {
            assert(q =~= Seq::<u8>::empty());
        } else if q[0] < 16 {
            assert(children[q[0] as int] is Empty);
        }
    } else if value is None && next_child(children, first + 1) >= 16 {
        lemma_next_child(children, first + 1);
        lemma_get_prefixed(seq![first as u8], children[first], q);
        lemma_single_prefix(first as u8, q);
        if q.len() > 0 && q[0] < 16 && q[0] != first {
            assert(children[q[0] as int] is Empty);
        }
    }
}

/// Collapsing a branch whose children are in normal form gives a shape in
/// normal form.
pub proof fn lemma_canonical_collapsed(children: Seq<Shape>, value: Option<Seq<u8>>)
    requires
        children.len() == 16,
        forall|i: int| 0 <= i < 16 ==> (#[trigger] children[i]).canonical(),
        value is Some ==> value.unwrap().len() > 0,
    ensures
        collapsed(children, value).canonical(),
{
    lemma_next_child(children, 0);
    let first = next_child(children, 0);
    if first >= 16 {
        assert(nibbles_ok(Seq::<u8>::empty()));
    } else if value is None && next_child(children, first + 1) >= 16 {
        assert(nibbles_ok(seq![first as u8]));
        lemma_canonical_prefixed(seq![first as u8], children[first]);
    }
}

/// After a removal the path finds nothing, and every other path finds what
/// it found before.
pub proof fn lemma_get_remove(node: Shape, p: Seq<u8>, q: Seq<u8>)
    requires
        node.canonical(),
    ensures
        node.remove(p).get(q) == if q == p {
            None
        } else {
            node.get(q)
        },
    decreases node,
{
    match node {
        Shape::Empty => {},
        Shape::Leaf { path: own, value } => {},
        Shape::Extension { path: own, child } => {
            if own.is_prefix_of(p) {
                let n = own.len() as int;
                let below = child.remove(p.skip(n));
                lemma_get_prefixed(own, below, q);
                lemma_get_remove(*child, p.skip(n), q.skip(n));
                assert(p.take(n) =~= own);
                lemma_split(q, p, n);
            }
        },
        Shape::Branch { children, value } => {
            if p.len() == 0 {
                lemma_get_collapsed(children, None, q);
                if q.len() == 0 {
                    assert(q =~= p);
                }
            } else if p[0] < 16 {
                let i = p[0] as int;
                let after = children.update(i, children[i].remove(p.skip(1)));
                lemma_get_collapsed(after, value, q);
                lemma_get_remove(children[i], p.skip(1), q.skip(1));
                lemma_split(q, p, 1);
                lemma_single_prefix(p[0], q);
                assert(p.take(1) =~= seq![p[0]]);
            }
        },
        Shape::Hash { .. } => {},
    }
}

/// Removal keeps normal form.
pub proof fn lemma_canonical_remove(node: Shape, p: Seq<u8>)
    requires
        node.canonical(),
    ensures
        node.remove(p).canonical(),
    decreases node,
{
    match node {
        Shape::Empty => {},
        Shape::Leaf { path: own, value } => {},
        Shape::Extension { path: own, child } => {
            if own.is_prefix_of(p) {
                let n = own.len() as int;
                lemma_canonical_remove(*child, p.skip(n));
                lemma_canonical_prefixed(own, child.remove(p.skip(n)));
            }
        },
        Shape::Branch { children, value } => {
            if p.len() == 0 {
                lemma_canonical_collapsed(children, None);
            } else if p[0] < 16 {
                let i = p[0] as int;
                lemma_canonical_remove(children[i], p.skip(1));
                let after = children.update(i, children[i].remove(p.skip(1)));
                assert forall|j: int| 0 <= j < 16 implies (#[trigger] after[j]).canonical() by {}
                lemma_canonical_collapsed(after, value);
            }
        },
        Shape::Hash { .. } => {},
    }
}

} // verus!
