//! The mathematical model of a trie: its shape as a tree of the four node
//! kinds, what a path finds in it, and which shapes are in normal form.

use vstd::prelude::*;
use crate::nibble::common_prefix;
use crate::nibble::nibbles_ok;

verus! {

/// The shape of a trie. A branch has sixteen child slots; the slot of an
/// absent child holds `Empty`. A shape in normal form holds no `Hash`.
#[allow(inconsistent_fields)]
pub enum Shape {
    Empty,
    Leaf { path: Seq<u8>, value: Seq<u8> },
    Extension { path: Seq<u8>, child: Box<Shape> },
    Branch { children: Seq<Shape>, value: Option<Seq<u8>> },
    /// A node that is not held here: the digest under which the store
    /// keeps its encoding.
    Hash { digest: Seq<u8> },
}

/// Sixteen empty child slots.
pub open spec fn blank_children() -> Seq<Shape> {
    Seq::new(16, |i: int| Shape::Empty)
}

/// The first occupied slot at or after `from`, or the number of slots where
/// there is none.
pub open spec fn next_child(children: Seq<Shape>, from: int) -> int
    decreases children.len() - from,
{
    if from < 0 || from >= children.len() {
        children.len() as int
    } else if !(children[from] is Empty) {
        from
    } else {
        next_child(children, from + 1)
    }
}

/// `node` moved down by `pre`: a leaf or an extension takes `pre` in front of
/// its own path, a branch gets an extension above it.
pub open spec fn prefixed(pre: Seq<u8>, node: Shape) -> Shape {
    if pre.len() == 0 {
        node
    } else {
        match node {
            Shape::Empty => Shape::Empty,
            Shape::Leaf { path, value } => Shape::Leaf { path: pre + path, value },
            Shape::Extension { path, child } => Shape::Extension { path: pre + path, child },
            Shape::Branch { .. } | Shape::Hash { .. } => Shape::Extension {
                path: pre,
                child: Box::new(node),
            },
        }
    }
}

/// The branch of `children` and `value` with one more entry: the value
/// itself where `path` is empty, else a leaf in the slot of its first nibble.
pub open spec fn with_entry(
    children: Seq<Shape>,
    value: Option<Seq<u8>>,
    path: Seq<u8>,
    v: Seq<u8>,
) -> Shape {
    if path.len() == 0 {
        Shape::Branch { children, value: Some(v) }
    } else {
        Shape::Branch {
            children: children.update(path[0] as int, Shape::Leaf { path: path.skip(1), value: v }),
            value,
        }
    }
}

/// What is left of a branch once entries have gone: nothing, a leaf for a
/// lone value, the lone child moved down by its slot's nibble, or the branch
/// itself where two or more entries remain.
pub open spec fn collapsed(children: Seq<Shape>, value: Option<Seq<u8>>) -> Shape {
    let first = next_child(children, 0);
    if first >= children.len() {
        match value {
            Some(v) => Shape::Leaf { path: Seq::empty(), value: v },
            None => Shape::Empty,
        }
    } else if value is None && next_child(children, first + 1) >= children.len() {
        prefixed(seq![first as u8], children[first])
    } else {
        Shape::Branch { children, value }
    }
}

impl Shape {
    /// The value found at `path`, if there is one.
    pub open spec fn get(self, path: Seq<u8>) -> Option<Seq<u8>>
        decreases self,
    {
        match self {
            Shape::Empty => None,
            Shape::Leaf { path: own, value } => if path == own {
                Some(value)
            } else {
                None
            },
            Shape::Extension { path: own, child } => if own.is_prefix_of(path) {
                child.get(path.skip(own.len() as int))
            } else {
                None
            },
            Shape::Branch { children, value } => if path.len() == 0 {
                value
            } else if (path[0] as int) < children.len() {
                children[path[0] as int].get(path.skip(1))
            } else {
                None
            },
            Shape::Hash { .. } => None,
        }
    }

    /// Normal form: paths hold half-bytes, no value is empty, an extension
    /// has a path and a branch below it, a branch has sixteen slots and at
    /// least two entries.
    pub open spec fn canonical(self) -> bool
        decreases self,
    {
        match self {
            Shape::Empty => true,
            Shape::Leaf { path, value } => nibbles_ok(path) && value.len() > 0,
            Shape::Extension { path, child } => {
                &&& path.len() > 0
                &&& nibbles_ok(path)
                &&& *child is Branch
                &&& child.canonical()
            },
            Shape::Branch { children, value } => {
                &&& children.len() == 16
                &&& forall|i: int| 0 <= i < children.len() ==> (#[trigger] children[i]).canonical()
                &&& (value is Some ==> value.unwrap().len() > 0)
                &&& next_child(children, 0) < 16
                &&& (value is Some || next_child(children, next_child(children, 0) + 1) < 16)
            },
            Shape::Hash { .. } => false,
        }
    }

    /// The shape with `value` at `path`.
    pub open spec fn insert(self, path: Seq<u8>, value: Seq<u8>) -> Shape
        decreases self,
    {
        match self {
            Shape::Empty => Shape::Leaf { path, value },
            Shape::Leaf { path: own, value: old } => if own == path {
                Shape::Leaf { path: own, value }
            } else {
                let c = common_prefix(own, path) as int;
                let one = with_entry(blank_children(), None, own.skip(c), old);
                prefixed(
                    path.take(c),
                    with_entry(one->children, one->Branch_value, path.skip(c), value),
                )
            },
            Shape::Extension { path: own, child } => {
                let c = common_prefix(own, path) as int;
                if c == own.len() {
                    Shape::Extension {
                        path: own,
                        child: Box::new(child.insert(path.skip(c), value)),
                    }
                } else {
                    prefixed(
                        path.take(c),
                        with_entry(
                            blank_children().update(
                                own[c] as int,
                                prefixed(own.skip(c + 1), *child),
                            ),
                            None,
                            path.skip(c),
                            value,
                        ),
                    )
                }
            },
            Shape::Branch { children, value: own } => if path.len() == 0 {
                Shape::Branch { children, value: Some(value) }
            } else if (path[0] as int) < children.len() {
                Shape::Branch {
                    children: children.update(
                        path[0] as int,
                        children[path[0] as int].insert(path.skip(1), value),
                    ),
                    value: own,
                }
            } else {
                self
            },
            Shape::Hash { .. } => self,
        }
    }

    /// The shape without an entry at `path`.
    pub open spec fn remove(self, path: Seq<u8>) -> Shape
        decreases self,
    {
        match self {
            Shape::Empty => Shape::Empty,
            Shape::Leaf { path: own, value } => if own == path {
                Shape::Empty
            } else {
                self
            },
            Shape::Extension { path: own, child } => if own.is_prefix_of(path) {
                prefixed(own, child.remove(path.skip(own.len() as int)))
            } else {
                self
            },
            Shape::Branch { children, value } => if path.len() == 0 {
                collapsed(children, None)
            } else if (path[0] as int) < children.len() {
                collapsed(
                    children.update(
                        path[0] as int,
                        children[path[0] as int].remove(path.skip(1)),
                    ),
                    value,
                )
            } else {
                self
            },
            Shape::Hash { .. } => self,
        }
    }
}

/// What `next_child` finds: the slots before it are empty, its own is not.
pub proof fn lemma_next_child(children: Seq<Shape>, from: int)
    requires
        0 <= from <= children.len(),
    ensures
        from <= next_child(children, from) <= children.len(),
        next_child(children, from) < children.len() ==> !(children[next_child(
            children,
            from,
        )] is Empty),
        forall|j: int| from <= j < next_child(children, from) ==> (#[trigger] children[j]) is Empty,
    decreases children.len() - from,
{
    if from < children.len() && children[from] is Empty {
        lemma_next_child(children, from + 1);
    }
}

/// A slot that is occupied, with nothing occupied between `from` and it, is
/// what `next_child` finds.
pub proof fn lemma_next_child_is(children: Seq<Shape>, from: int, at: int)
    requires
        0 <= from <= at <= children.len(),
        forall|j: int| from <= j < at ==> (#[trigger] children[j]) is Empty,
        at < children.len() ==> !(children[at] is Empty),
    ensures
        next_child(children, from) == at,
    decreases at - from,
{
    if from < at {
        assert(children[from] is Empty);
        lemma_next_child_is(children, from + 1, at);
    }
}

/// A path equals `p` exactly when it starts with the first `c` elements of
/// `p` and goes on as `p` does.
pub proof fn lemma_split(q: Seq<u8>, p: Seq<u8>, c: int)
    requires
        0 <= c <= p.len(),
    ensures
        (q == p) <==> (p.take(c).is_prefix_of(q) && q.skip(c) == p.skip(c)),
{
    if q == p {
        assert(p.take(c) =~= q.subrange(0, c));
    }
    if p.take(c).is_prefix_of(q) && q.skip(c) == p.skip(c) {
        assert(q.len() >= c);
        assert(q.skip(c).len() == p.skip(c).len());
        assert forall|i: int| 0 <= i < q.len() implies q[i] == p[i] by {
            if i < c {
                assert(p.take(c)[i] == q.subrange(0, c)[i]);
            } else {
                assert(q.skip(c)[i - c] == p.skip(c)[i - c]);
            }
        }
        assert(q =~= p);
    }
}

/// A path starts with `a + b` exactly when it starts with `a` and goes on
/// with `b`.
pub proof fn lemma_prefix_concat(a: Seq<u8>, b: Seq<u8>, q: Seq<u8>)
    ensures
        (a + b).is_prefix_of(q) <==> (a.is_prefix_of(q) && b.is_prefix_of(q.skip(a.len() as int))),
        (a + b).is_prefix_of(q) ==> q.skip((a + b).len() as int) == q.skip(a.len() as int).skip(
            b.len() as int,
        ),
{
    let ab = a + b;
    let n = a.len() as int;
    let m = b.len() as int;
    if ab.is_prefix_of(q) {
        assert(ab =~= q.subrange(0, n + m));
        assert forall|i: int| 0 <= i < n implies a[i] == q.subrange(0, n)[i] by {
            assert(ab[i] == q.subrange(0, n + m)[i]);
        }
        assert(a =~= q.subrange(0, n));
        let qs = q.skip(n);
        assert forall|i: int| 0 <= i < m implies b[i] == qs.subrange(0, m)[i] by {
            assert(ab[i + n] == q.subrange(0, n + m)[i + n]);
        }
        assert(b =~= qs.subrange(0, m));
        assert(q.skip(n + m) =~= qs.skip(m));
    }
    if a.is_prefix_of(q) && b.is_prefix_of(q.skip(n)) {
        let qs = q.skip(n);
        assert forall|i: int| 0 <= i < n + m implies ab[i] == q.subrange(0, n + m)[i] by {
            if i < n {
                assert(a[i] == q.subrange(0, n)[i]);
            } else {
                assert(b[i - n] == qs.subrange(0, m)[i - n]);
            }
        }
        assert(ab =~= q.subrange(0, n + m));
    }
}

/// What a path finds below a prefix: it must start with the prefix, and then
/// finds what the rest of it finds in the node.
pub proof fn lemma_get_prefixed(pre: Seq<u8>, node: Shape, q: Seq<u8>)
    ensures
        prefixed(pre, node).get(q) == if pre.is_prefix_of(q) {
            node.get(q.skip(pre.len() as int))
        } else {
            None
        },
{
    if pre.len() == 0 {
        assert(q.skip(0) =~= q);
        assert(pre =~= q.subrange(0, 0));
    } else {
        match node {
            Shape::Empty => {},
            Shape::Leaf { path, value } => {
                lemma_split(q, pre + path, pre.len() as int);
                assert((pre + path).take(pre.len() as int) =~= pre);
                assert((pre + path).skip(pre.len() as int) =~= path);
            },
            Shape::Extension { path, child } => {
                lemma_prefix_concat(pre, path, q);
            },
            Shape::Branch { .. } => {},
            Shape::Hash { .. } => {},
        }
    }
}

/// What a path finds in a branch with one more entry, where the place of
/// that entry was free.
pub proof fn lemma_get_with_entry(
    children: Seq<Shape>,
    value: Option<Seq<u8>>,
    path: Seq<u8>,
    v: Seq<u8>,
    q: Seq<u8>,
)
    requires
        path.len() == 0 ==> value is None,
        path.len() > 0 ==> (path[0] as int) < children.len() && children[path[0] as int] is Empty,
    ensures
        with_entry(children, value, path, v).get(q) == if q == path {
            Some(v)
        } else {
            (Shape::Branch { children, value }).get(q)
        },
{
    reveal_with_fuel(Shape::get, 2);
    if path.len() == 0 {
        if q.len() == 0 {
            assert(q =~= path);
        }
    } else {
        lemma_split(q, path, 1);
        if q.len() > 0 && q[0] == path[0] {
            assert(path.take(1) =~= q.subrange(0, 1));
        } else if q.len() > 0 {
            assert(path.take(1)[0] == path[0]);
            assert(q.subrange(0, 1)[0] == q[0]);
        }
    }
}

} // verus!
