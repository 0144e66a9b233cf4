//! What insertion does to a shape: the new entry is found, every other path
//! finds what it found before, and normal form is kept.

use vstd::prelude::*;
use crate::nibble::common_prefix;
use crate::nibble::lemma_common_prefix;
use crate::nibble::nibbles_ok;
use crate::shape::Shape;
use crate::shape::blank_children;
use crate::shape::lemma_get_prefixed;
use crate::shape::lemma_get_with_entry;
use crate::shape::lemma_next_child;
use crate::shape::lemma_prefix_concat;
use crate::shape::lemma_split;
use crate::shape::next_child;
use crate::shape::prefixed;
use crate::shape::with_entry;

verus! {

/// With one slot occupied, `next_child` finds a slot.
pub proof fn lemma_one_occupied(children: Seq<Shape>, a: int)
    requires
        0 <= a < children.len(),
        !(children[a] is Empty),
    ensures
        next_child(children, 0) <= a,
{
    lemma_next_child(children, 0);
}

/// With two slots occupied, `next_child` finds a first and a second.
pub proof fn lemma_two_occupied(children: Seq<Shape>, a: int, b: int)
    requires
        0 <= a < children.len(),
        0 <= b < children.len(),
        a != b,
        !(children[a] is Empty),
        !(children[b] is Empty),
    ensures
        next_child(children, 0) < children.len(),
        next_child(children, next_child(children, 0) + 1) < children.len(),
{
    lemma_next_child(children, 0);
    let f = next_child(children, 0);
    lemma_next_child(children, f + 1);
}

/// Slots that stay occupied keep a branch at two entries or more.
pub proof fn lemma_occupancy_kept(
    before: Seq<Shape>,
    after: Seq<Shape>,
    value: Option<Seq<u8>>,
)
    requires
        before.len() == after.len(),
        forall|j: int|
            0 <= j < before.len() && !(#[trigger] before[j] is Empty) ==> !(after[j] is Empty),
        next_child(before, 0) < before.len(),
        value is Some || next_child(before, next_child(before, 0) + 1) < before.len(),
    ensures
        next_child(after, 0) < after.len(),
        value is Some || next_child(after, next_child(after, 0) + 1) < after.len(),
{
    lemma_next_child(before, 0);
    let f = next_child(before, 0);
    assert(!(before[f] is Empty));
    lemma_one_occupied(after, f);
    if value is None {
        lemma_next_child(before, f + 1);
        let g = next_child(before, f + 1);
        assert(!(before[g] is Empty));
        lemma_two_occupied(after, f, g);
    }
}

/// A node in normal form that is moved down by a path of half-bytes is in
/// normal form.
pub proof fn lemma_canonical_prefixed(pre: Seq<u8>, node: Shape)
    requires
        nibbles_ok(pre),
        node.canonical(),
    ensures
        prefixed(pre, node).canonical(),
        prefixed(pre, node) is Empty <==> node is Empty,
        pre.len() > 0 ==> !(prefixed(pre, node) is Branch),
{
    if pre.len() > 0 {
        match node {
            Shape::Empty => {},
            Shape::Leaf { path, value } => {
                assert(nibbles_ok(pre + path));
            },
            Shape::Extension { path, child } => {
                assert(nibbles_ok(pre + path));
            },
            Shape::Branch { .. } => {},
            Shape::Hash { .. } => {},
        }
    }
}

/// The parts of a path of half-bytes are paths of half-bytes.
pub proof fn lemma_nibbles_parts(p: Seq<u8>, c: int)
    requires
        nibbles_ok(p),
        0 <= c <= p.len(),
    ensures
        nibbles_ok(p.take(c)),
        nibbles_ok(p.skip(c)),
{
    assert forall|i: int| 0 <= i < p.skip(c).len() implies #[trigger] p.skip(c)[i] < 16 by {
        assert(p[i + c] < 16);
    }
}

/// Two paths that agree up to the end of both are one path.
pub proof fn lemma_whole_prefix(a: Seq<u8>, b: Seq<u8>)
    requires
        a.take(a.len() as int) == b.take(a.len() as int),
        a.len() == b.len(),
    ensures
        a == b,
{
    assert(a.take(a.len() as int) =~= a);
    assert(b.take(b.len() as int) =~= b);
}

/// Insertion beside a leaf with another path.
pub proof fn lemma_get_fork_leaf(own: Seq<u8>, old: Seq<u8>, p: Seq<u8>, v: Seq<u8>, q: Seq<u8>)
    requires
        own != p,
        nibbles_ok(own),
        nibbles_ok(p),
    ensures
        (Shape::Leaf { path: own, value: old }).insert(p, v).get(q) == if q == p {
            Some(v)
        } else {
            (Shape::Leaf { path: own, value: old }).get(q)
        },
{
    reveal_with_fuel(Shape::get, 2);
    lemma_common_prefix(own, p);
    let c = common_prefix(own, p) as int;
    let one = with_entry(blank_children(), None, own.skip(c), old);
    let two = with_entry(one->children, one->Branch_value, p.skip(c), v);
    if c == own.len() && c == p.len() {
        lemma_whole_prefix(own, p);
    }
    let r = q.skip(c);
    lemma_get_prefixed(p.take(c), two, q);
    lemma_get_with_entry(one->children, one->Branch_value, p.skip(c), v, r);
    lemma_get_with_entry(blank_children(), None, own.skip(c), old, r);
    lemma_split(q, p, c);
    lemma_split(q, own, c);
    assert((Shape::Branch { children: blank_children(), value: None }).get(r) is None);
}

/// Insertion that leaves the path of an extension before its end.
pub proof fn lemma_get_fork_extension(
    own: Seq<u8>,
    child: Shape,
    p: Seq<u8>,
    v: Seq<u8>,
    q: Seq<u8>,
)
    requires
        nibbles_ok(own),
        nibbles_ok(p),
        common_prefix(own, p) < own.len(),
    ensures
        (Shape::Extension { path: own, child: Box::new(child) }).insert(p, v).get(q) == if q == p {
            Some(v)
        } else {
            (Shape::Extension { path: own, child: Box::new(child) }).get(q)
        },
{
    reveal_with_fuel(Shape::get, 2);
    lemma_common_prefix(own, p);
    let c = common_prefix(own, p) as int;
    let moved = prefixed(own.skip(c + 1), child);
    let kids = blank_children().update(own[c] as int, moved);
    let two = with_entry(kids, None, p.skip(c), v);
    let r = q.skip(c);
    lemma_get_prefixed(p.take(c), two, q);
    lemma_get_with_entry(kids, None, p.skip(c), v, r);
    lemma_split(q, p, c);
    if q != p {
        let head = own.take(c);
        let mid = seq![own[c]];
        let tail = own.skip(c + 1);
        assert(own =~= head + (mid + tail));
        lemma_prefix_concat(head, mid + tail, q);
        lemma_prefix_concat(mid, tail, r);
        if r.len() > 0 {
            lemma_get_prefixed(tail, child, r.skip(1));
            assert(mid.is_prefix_of(r) <==> r[0] == own[c]) by {
                if r[0] == own[c] {
                    assert(mid =~= r.subrange(0, 1));
                } else {
                    assert(r.subrange(0, 1)[0] == r[0]);
                    assert(mid[0] == own[c]);
                }
            }
        }
    }
}

/// After an insertion the path finds the new value, and every other path
/// finds what it found before.
pub proof fn lemma_get_insert(node: Shape, p: Seq<u8>, v: Seq<u8>, q: Seq<u8>)
    requires
        node.canonical(),
        nibbles_ok(p),
    ensures
        node.insert(p, v).get(q) == if q == p {
            Some(v)
        } else {
            node.get(q)
        },
    decreases node,
{
    match node {
        Shape::Empty => {},
        Shape::Leaf { path: own, value: old } => {
            if own != p {
                lemma_get_fork_leaf(own, old, p, v, q);
            }
        },
        Shape::Extension { path: own, child } => {
            lemma_common_prefix(own, p);
            let c = common_prefix(own, p) as int;
            if c == own.len() {
                assert(own.take(c) =~= own);
                lemma_get_insert(*child, p.skip(c), v, q.skip(c));
                lemma_split(q, p, c);
                lemma_nibbles_parts(p, c);
            } else {
                lemma_get_fork_extension(own, *child, p, v, q);
            }
        },
        Shape::Branch { children, value: own } => {
            if p.len() == 0 {
                if q.len() == 0 {
                    assert(q =~= p);
                }
            } else {
                let i = p[0] as int;
                lemma_nibbles_parts(p, 1);
                lemma_get_insert(children[i], p.skip(1), v, q.skip(1));
                lemma_split(q, p, 1);
                if q.len() > 0 {
                    if q[0] == p[0] {
                        assert(p.take(1) =~= q.subrange(0, 1));
                    } else {
                        assert(p.take(1)[0] == p[0]);
                        assert(q.subrange(0, 1)[0] == q[0]);
                    }
                }
            }
        },
        Shape::Hash { .. } => {},
    }
}

/// Insertion of a value that is not empty keeps normal form, leaves a
/// branch a branch, and never leaves the shape empty.
pub proof fn lemma_canonical_insert(node: Shape, p: Seq<u8>, v: Seq<u8>)
    requires
        node.canonical(),
        nibbles_ok(p),
        v.len() > 0,
    ensures
        node.insert(p, v).canonical(),
        !(node.insert(p, v) is Empty),
        node is Branch ==> node.insert(p, v) is Branch,
    decreases node,
{
    reveal_with_fuel(Shape::canonical, 2);
    match node {
        Shape::Empty => {},
        Shape::Leaf { path: own, value: old } => {
            if own != p {
                lemma_common_prefix(own, p);
                let c = common_prefix(own, p) as int;
                if c == own.len() && c == p.len() {
                    lemma_whole_prefix(own, p);
                }
                lemma_nibbles_parts(own, c);
                lemma_nibbles_parts(p, c);
                let one = with_entry(blank_children(), None, own.skip(c), old);
                let two = with_entry(one->children, one->Branch_value, p.skip(c), v);
                let kids = two->children;
                if own.skip(c).len() > 0 {
                    lemma_nibbles_parts(own.skip(c), 1);
                }
                if p.skip(c).len() > 0 {
                    lemma_nibbles_parts(p.skip(c), 1);
                }
                if own.skip(c).len() > 0 && p.skip(c).len() > 0 {
                    lemma_two_occupied(kids, own[c] as int, p[c] as int);
                } else if own.skip(c).len() > 0 {
                    lemma_one_occupied(kids, own[c] as int);
                } else {
                    lemma_one_occupied(kids, p[c] as int);
                }
                assert forall|j: int| 0 <= j < 16 implies (#[trigger] kids[j]).canonical() by {}
                assert(two.canonical());
                lemma_canonical_prefixed(p.take(c), two);
            }
        },
        Shape::Extension { path: own, child } => {
            lemma_common_prefix(own, p);
            let c = common_prefix(own, p) as int;
            lemma_nibbles_parts(p, c);
            if c == own.len() {
                lemma_canonical_insert(*child, p.skip(c), v);
            } else {
                lemma_nibbles_parts(own, c + 1);
                lemma_canonical_prefixed(own.skip(c + 1), *child);
                let moved = prefixed(own.skip(c + 1), *child);
                let kids = blank_children().update(own[c] as int, moved);
                let two = with_entry(kids, None, p.skip(c), v);
                if p.skip(c).len() > 0 {
                    lemma_nibbles_parts(p.skip(c), 1);
                    lemma_two_occupied(two->children, own[c] as int, p[c] as int);
                } else {
                    lemma_one_occupied(two->children, own[c] as int);
                }
                let all = two->children;
                assert forall|j: int| 0 <= j < 16 implies (#[trigger] all[j]).canonical() by {}
                assert(two.canonical());
                lemma_canonical_prefixed(p.take(c), two);
            }
        },
        Shape::Branch { children, value: own } => {
            if p.len() > 0 {
                let i = p[0] as int;
                lemma_nibbles_parts(p, 1);
                lemma_canonical_insert(children[i], p.skip(1), v);
                let after = children.update(i, children[i].insert(p.skip(1), v));
                lemma_occupancy_kept(children, after, own);
            }
        },
        Shape::Hash { .. } => {},
    }
}

} // verus!
