//! The walk through a tree in normal form lists exactly its entries, each
//! once, in the order of their paths.

use vstd::prelude::*;
use crate::entries::own_pair;
use crate::entries::pairs;
use crate::entries::pairs_all;
use crate::insertion::lemma_get_insert;
use crate::laws::entries_of;
use crate::nibble::bytes_of;
use crate::nibble::lemma_bytes_round_trip;
use crate::nibble::lemma_nibbles_round_trip;
use crate::nibble::nibbles_of;
use crate::nibble::nibbles_ok;
use crate::order::ascending;
use crate::order::lemma_less_by;
use crate::order::lemma_packed_less;
use crate::order::lemma_prefix_is_less;
use crate::order::lex_less;
use crate::removal::lemma_get_remove;
use crate::shape::Shape;
use crate::shape::lemma_prefix_concat;
use crate::shape::lemma_split;
use crate::unique::lemma_skip_concat;

verus! {

/// The entries with each path packed into the bytes of its key.
pub open spec fn packed(entries: Seq<(Seq<u8>, Seq<u8>)>) -> Seq<(Seq<u8>, Seq<u8>)> {
    Seq::new(entries.len(), |i: int| (bytes_of(entries[i].0), entries[i].1))
}

/// Whether `key` lies below the slot `slot` of a branch at `prefix`.
pub open spec fn below_slot(prefix: Seq<u8>, slot: int, key: Seq<u8>) -> bool {
    prefix.is_prefix_of(key) && key.len() > prefix.len() && key[prefix.len() as int] == slot
}

/// A path that goes on after `prefix` with `x` starts with `prefix` and has
/// `x` next.
pub proof fn lemma_push_prefix(prefix: Seq<u8>, x: u8, key: Seq<u8>)
    ensures
        prefix.push(x).is_prefix_of(key) <==> below_slot(prefix, x as int, key),
        prefix.push(x).is_prefix_of(key) ==> key.skip(prefix.len() as int + 1) == key.skip(
            prefix.push(x).len() as int,
        ),
{
    let n = prefix.len() as int;
    let px = prefix.push(x);
    if px.is_prefix_of(key) {
        assert(px =~= key.subrange(0, n + 1));
        assert(px[n] == key.subrange(0, n + 1)[n]);
        assert(prefix =~= key.subrange(0, n)) by {
            assert forall|i: int| 0 <= i < n implies prefix[i] == key.subrange(0, n)[i] by {
                assert(px[i] == key.subrange(0, n + 1)[i]);
            }
        }
    }
    if below_slot(prefix, x as int, key) {
        assert(prefix =~= key.subrange(0, n));
        assert(px =~= key.subrange(0, n + 1)) by {
            assert forall|i: int| 0 <= i < n + 1 implies px[i] == key.subrange(0, n + 1)[i] by {
                if i < n {
                    assert(prefix[i] == key.subrange(0, n)[i]);
                }
            }
        }
    }
}

/// A sequence made of two holds what either holds.
pub proof fn lemma_contains_concat(
    a: Seq<(Seq<u8>, Seq<u8>)>,
    b: Seq<(Seq<u8>, Seq<u8>)>,
    x: (Seq<u8>, Seq<u8>),
)
    ensures
        (a + b).contains(x) <==> a.contains(x) || b.contains(x),
{
    if a.contains(x) {
        let i = choose|i: int| 0 <= i < a.len() && a[i] == x;
        assert((a + b)[i] == x);
    }
    if b.contains(x) {
        let i = choose|i: int| 0 <= i < b.len() && b[i] == x;
        assert((a + b)[a.len() + i] == x);
    }
    if (a + b).contains(x) {
        let i = choose|i: int| 0 <= i < (a + b).len() && (a + b)[i] == x;
        if i < a.len() {
            assert(a[i] == x);
        } else {
            assert(b[i - a.len()] == x);
        }
    }
}

/// The walk lists exactly the entries: a path with a value is listed below
/// `node` at `prefix` exactly where it starts with `prefix` and the rest of
/// it finds the value in `node`.
pub proof fn lemma_pairs_exact(node: Shape, prefix: Seq<u8>, k: Seq<u8>, v: Seq<u8>)
    requires
        node.canonical(),
    ensures
        pairs(node, prefix).contains((k, v)) <==> prefix.is_prefix_of(k) && node.get(
            k.skip(prefix.len() as int),
        ) == Some(v),
    decreases node, 0int,
{
    let listed = pairs(node, prefix);
    let n = prefix.len() as int;
    match node {
        Shape::Empty => {},
        Shape::Leaf { path, value } => {
            assert(listed[0] == (prefix + path, value));
            lemma_split(k, prefix + path, n);
            assert((prefix + path).take(n) =~= prefix);
            assert((prefix + path).skip(n) =~= path);
        },
        Shape::Extension { path, child } => {
            lemma_pairs_exact(*child, prefix + path, k, v);
            lemma_prefix_concat(prefix, path, k);
        },
        Shape::Branch { children, value } => {
            lemma_pairs_all_exact(children, 16, prefix, k, v);
            lemma_contains_concat(own_pair(prefix, value), pairs_all(children, 16, prefix), (k, v));
            if value is Some {
                assert(own_pair(prefix, value)[0] == (prefix, value->Some_0));
            }
            if prefix.is_prefix_of(k) && k.len() == n {
                assert(k =~= prefix);
                assert(k.skip(n).len() == 0);
            }
            if prefix.is_prefix_of(k) && k.len() > n {
                assert(k.skip(n)[0] == k[n]);
                assert(k.skip(n).skip(1) =~= k.skip(n + 1));
            }
            if k == prefix {
                assert(prefix =~= k.subrange(0, n));
            }
        },
        Shape::Hash { .. } => {},
    }
}

/// `lemma_pairs_exact` for the first `n` children of a branch.
pub proof fn lemma_pairs_all_exact(
    children: Seq<Shape>,
    n: int,
    prefix: Seq<u8>,
    k: Seq<u8>,
    v: Seq<u8>,
)
    requires
        0 <= n <= children.len() <= 256,
        forall|i: int| 0 <= i < children.len() ==> (#[trigger] children[i]).canonical(),
    ensures
        pairs_all(children, n, prefix).contains((k, v)) <==> prefix.is_prefix_of(k) && k.len()
            > prefix.len() && k[prefix.len() as int] < n && children[k[prefix.len() as int] as int].get(
            k.skip(prefix.len() as int + 1),
        ) == Some(v),
    decreases children, n,
{
    if n > 0 {
        let slot = (n - 1) as u8;
        lemma_pairs_all_exact(children, n - 1, prefix, k, v);
        lemma_pairs_exact(children[n - 1], prefix.push(slot), k, v);
        lemma_contains_concat(
            pairs_all(children, n - 1, prefix),
            pairs(children[n - 1], prefix.push(slot)),
            (k, v),
        );
        lemma_push_prefix(prefix, slot, k);
    }
}

/// The walk lists the entries in the order of their paths.
pub proof fn lemma_pairs_ascending(node: Shape, prefix: Seq<u8>)
    requires
        node.canonical(),
    ensures
        ascending(pairs(node, prefix)),
        forall|i: int|
            0 <= i < pairs(node, prefix).len() ==> prefix.is_prefix_of(
                (#[trigger] pairs(node, prefix)[i]).0,
            ),
    decreases node, 0int,
{
    let listed = pairs(node, prefix);
    match node {
        Shape::Empty => {},
        Shape::Leaf { path, value } => {
            lemma_skip_concat(prefix, path);
        },
        Shape::Extension { path, child } => {
            lemma_pairs_ascending(*child, prefix + path);
            assert forall|i: int| 0 <= i < listed.len() implies prefix.is_prefix_of(
                (#[trigger] listed[i]).0,
            ) by {
                lemma_prefix_concat(prefix, path, listed[i].0);
            }
        },
        Shape::Branch { children, value } => {
            lemma_pairs_all_ascending(children, 16, prefix);
            let own = own_pair(prefix, value);
            let below = pairs_all(children, 16, prefix);
            assert(listed == own + below);
            assert forall|i: int| 0 <= i < listed.len() implies prefix.is_prefix_of(
                (#[trigger] listed[i]).0,
            ) by {
                if i < own.len() {
                    assert(prefix =~= prefix.subrange(0, prefix.len() as int));
                } else {
                    assert(listed[i] == below[i - own.len()]);
                }
            }
            assert forall|i: int, j: int| 0 <= i < j < listed.len() implies lex_less(
                (#[trigger] listed[i]).0,
                (#[trigger] listed[j]).0,
            ) by {
                assert(listed[j] == below[j - own.len()]);
                if i < own.len() {
                    lemma_prefix_is_less(prefix, below[j - own.len()].0);
                } else {
                    assert(listed[i] == below[i - own.len()]);
                }
            }
        },
        Shape::Hash { .. } => {},
    }
}

/// `lemma_pairs_ascending` for the first `n` children of a branch.
pub proof fn lemma_pairs_all_ascending(children: Seq<Shape>, n: int, prefix: Seq<u8>)
    requires
        0 <= n <= children.len() <= 256,
        forall|i: int| 0 <= i < children.len() ==> (#[trigger] children[i]).canonical(),
    ensures
        ascending(pairs_all(children, n, prefix)),
        forall|i: int|
            0 <= i < pairs_all(children, n, prefix).len() ==> prefix.is_prefix_of(
                (#[trigger] pairs_all(children, n, prefix)[i]).0,
            ) && pairs_all(children, n, prefix)[i].0.len() > prefix.len() && pairs_all(
                children,
                n,
                prefix,
            )[i].0[prefix.len() as int] < n,
    decreases children, n,
{
    if n > 0 {
        let slot = (n - 1) as u8;
        let front = pairs_all(children, n - 1, prefix);
        let back = pairs(children[n - 1], prefix.push(slot));
        let listed = pairs_all(children, n, prefix);
        assert(listed == front + back);
        lemma_pairs_all_ascending(children, n - 1, prefix);
        lemma_pairs_ascending(children[n - 1], prefix.push(slot));
        let c = prefix.len() as int;
        assert forall|i: int| 0 <= i < listed.len() implies prefix.is_prefix_of(
            (#[trigger] listed[i]).0,
        ) && listed[i].0.len() > c && listed[i].0[c] < n by {
            if i < front.len() {
                assert(listed[i] == front[i]);
            } else {
                assert(listed[i] == back[i - front.len()]);
                lemma_push_prefix(prefix, slot, back[i - front.len()].0);
            }
        }
        assert forall|i: int, j: int| 0 <= i < j < listed.len() implies lex_less(
            (#[trigger] listed[i]).0,
            (#[trigger] listed[j]).0,
        ) by {
            if j < front.len() {
                assert(listed[i] == front[i] && listed[j] == front[j]);
            } else if i >= front.len() {
                assert(listed[i] == back[i - front.len()] && listed[j] == back[j - front.len()]);
            } else {
                let a = front[i].0;
                let b = back[j - front.len()].0;
                assert(listed[i] == front[i] && listed[j] == back[j - front.len()]);
                lemma_push_prefix(prefix, slot, b);
                assert(a.take(c) =~= b.take(c)) by {
                    assert(prefix =~= a.subrange(0, c));
                    assert(prefix =~= b.subrange(0, c));
                }
                lemma_less_by(a, b, c);
            }
        }
    }
}

/// A path that finds a value in a tree in normal form is a path of
/// half-bytes.
pub proof fn lemma_found_path_ok(node: Shape, q: Seq<u8>)
    requires
        node.canonical(),
        node.get(q) is Some,
    ensures
        nibbles_ok(q),
    decreases node,
{
    match node {
        Shape::Extension { path, child } => {
            let n = path.len() as int;
            lemma_found_path_ok(*child, q.skip(n));
            assert(path =~= q.subrange(0, n));
            assert forall|i: int| 0 <= i < q.len() implies #[trigger] q[i] < 16 by {
                if i < n {
                    assert(path[i] == q.subrange(0, n)[i]);
                } else {
                    assert(q.skip(n)[i - n] == q[i]);
                }
            }
        },
        Shape::Branch { children, value } => {
            if q.len() > 0 {
                lemma_found_path_ok(children[q[0] as int], q.skip(1));
                assert forall|i: int| 0 <= i < q.len() implies #[trigger] q[i] < 16 by {
                    if i > 0 {
                        assert(q.skip(1)[i - 1] == q[i]);
                    }
                }
            }
        },
        _ => {},
    }
}

/// Every path that finds a value is the nibble path of a key: it is of even
/// length.
pub open spec fn keyed(shape: Shape) -> bool {
    forall|q: Seq<u8>| (#[trigger] shape.get(q)) is Some ==> q.len() % 2 == 0
}

/// The empty tree is keyed, and the insertion and the removal of a key keep
/// a tree keyed.
pub proof fn law_keyed_kept(shape: Shape, key: Seq<u8>, value: Seq<u8>)
    requires
        shape.canonical(),
        keyed(shape),
    ensures
        keyed(Shape::Empty),
        keyed(shape.insert(nibbles_of(key), value)),
        keyed(shape.remove(nibbles_of(key))),
{
    lemma_nibbles_round_trip(key);
    assert forall|q: Seq<u8>| (#[trigger] shape.insert(nibbles_of(key), value).get(q))
        is Some implies q.len() % 2 == 0 by {
        lemma_get_insert(shape, nibbles_of(key), value, q);
        if q != nibbles_of(key) {
            assert(shape.get(q) is Some);
        }
    }
    assert forall|q: Seq<u8>| (#[trigger] shape.remove(nibbles_of(key)).get(q))
        is Some implies q.len() % 2 == 0 by {
        lemma_get_remove(shape, nibbles_of(key), q);
        assert(shape.get(q) is Some);
    }
}

/// Iteration order: the entries of a keyed tree in normal form, listed with
/// their keys as bytes, are exactly the entries of the trie, in strictly
/// ascending order of the keys.
pub proof fn law_listing(shape: Shape)
    requires
        shape.canonical(),
        keyed(shape),
    ensures
        ascending(packed(pairs(shape, Seq::empty()))),
        forall|key: Seq<u8>, value: Seq<u8>|
            #![trigger packed(pairs(shape, Seq::empty())).contains((key, value))]
            packed(pairs(shape, Seq::empty())).contains((key, value)) <==> entries_of(
                shape,
            ).contains_pair(key, value),
{
    let empty = Seq::<u8>::empty();
    let by_path = pairs(shape, empty);
    let listed = packed(by_path);
    lemma_pairs_ascending(shape, empty);
    assert forall|i: int| 0 <= i < by_path.len() implies nibbles_ok((#[trigger] by_path[i]).0)
        && by_path[i].0.len() % 2 == 0 && shape.get(by_path[i].0) == Some(by_path[i].1) by {
        let (k, v) = by_path[i];
        assert(by_path.contains((k, v)));
        lemma_pairs_exact(shape, empty, k, v);
        assert(k.skip(0) =~= k);
        lemma_found_path_ok(shape, k);
    }
    assert forall|i: int, j: int| 0 <= i < j < listed.len() implies lex_less(
        (#[trigger] listed[i]).0,
        (#[trigger] listed[j]).0,
    ) by {
        assert(lex_less(by_path[i].0, by_path[j].0));
        lemma_packed_less(by_path[i].0, by_path[j].0);
    }
    assert forall|key: Seq<u8>, value: Seq<u8>|
        #![trigger listed.contains((key, value))]
        listed.contains((key, value)) <==> entries_of(shape).contains_pair(key, value) by {
        lemma_nibbles_round_trip(key);
        if listed.contains((key, value)) {
            let i = choose|i: int| 0 <= i < listed.len() && listed[i] == (key, value);
            lemma_bytes_round_trip(by_path[i].0);
        }
        if entries_of(shape).contains_pair(key, value) {
            let k = nibbles_of(key);
            assert(k.skip(0) =~= k);
            assert(empty =~= k.subrange(0, 0));
            lemma_pairs_exact(shape, empty, k, value);
            let i = choose|i: int| 0 <= i < by_path.len() && by_path[i] == (k, value);
            assert(listed[i] == (key, value));
        }
    }
}

} // verus!
