//! What holds of the trie as a map: the laws of insertion and removal, and
//! that the tree, and with it the root, is a function of the entries alone.

use vstd::prelude::*;
use crate::hasher::digest_of;
use crate::insertion::lemma_canonical_insert;
use crate::insertion::lemma_get_insert;
use crate::kinds::TrieSpec;
use crate::kinds::kept_of;
use crate::kinds::place_of;
use crate::nibble::lemma_nibbles_injective;
use crate::nibble::lemma_nibbles_round_trip;
use crate::nibble::nibbles_of;
use crate::nibble::nibbles_ok;
use crate::removal::lemma_canonical_remove;
use crate::removal::lemma_get_remove;
use crate::shape::Shape;
use crate::store::null_digest;
use crate::triemut::root_of;
use crate::unique::lemma_unique;

verus! {

/// The entries of a generic trie: the values by the keys, as bytes.
pub open spec fn entries_of(shape: Shape) -> Map<Seq<u8>, Seq<u8>> {
    Map::new(
        |key: Seq<u8>| shape.get(nibbles_of(key)) is Some,
        |key: Seq<u8>| shape.get(nibbles_of(key))->Some_0,
    )
}

/// The tree after each of `pairs` was inserted, in order.
pub open spec fn inserted_each(shape: Shape, pairs: Seq<(Seq<u8>, Seq<u8>)>) -> Shape
    decreases pairs.len(),
{
    if pairs.len() == 0 {
        shape
    } else {
        inserted_each(shape, pairs.drop_last()).insert(pairs.last().0, pairs.last().1)
    }
}

/// Paths of half-bytes with values that are not empty.
pub open spec fn insertable(pairs: Seq<(Seq<u8>, Seq<u8>)>) -> bool {
    forall|i: int|
        0 <= i < pairs.len() ==> nibbles_ok((#[trigger] pairs[i]).0) && pairs[i].1.len() > 0
}

/// No path occurs twice.
pub open spec fn distinct_paths(pairs: Seq<(Seq<u8>, Seq<u8>)>) -> bool {
    forall|i: int, j: int|
        0 <= i < j < pairs.len() ==> (#[trigger] pairs[i]).0 != (#[trigger] pairs[j]).0
}

/// Empty trie: the tree without entries is in normal form, finds nothing,
/// and its root is the digest of the empty node.
pub proof fn law_empty_root(path: Seq<u8>)
    ensures
        Shape::Empty.canonical(),
        Shape::Empty.get(path) is None,
        root_of(Shape::Empty) == null_digest(),
        entries_of(Shape::Empty) == Map::<Seq<u8>, Seq<u8>>::empty(),
{
    assert(entries_of(Shape::Empty) =~= Map::<Seq<u8>, Seq<u8>>::empty());
}

/// Round trip: after `value` was inserted at a key, the key finds it, and
/// the entries are those before with this one more.
pub proof fn law_insert_then_get(shape: Shape, key: Seq<u8>, value: Seq<u8>)
    requires
        shape.canonical(),
        value.len() > 0,
    ensures
        shape.insert(nibbles_of(key), value).get(nibbles_of(key)) == Some(value),
        shape.insert(nibbles_of(key), value).canonical(),
        entries_of(shape.insert(nibbles_of(key), value)) == entries_of(shape).insert(key, value),
{
    let path = nibbles_of(key);
    let after = shape.insert(path, value);
    lemma_nibbles_round_trip(key);
    lemma_get_insert(shape, path, value, path);
    lemma_canonical_insert(shape, path, value);
    assert forall|k: Seq<u8>| #[trigger]
        entries_of(after).dom().contains(k) == entries_of(shape).insert(key, value).dom().contains(
            k,
        ) && (entries_of(after).dom().contains(k) ==> entries_of(after)[k] == entries_of(
            shape,
        ).insert(key, value)[k]) by {
        lemma_get_insert(shape, path, value, nibbles_of(k));
        if nibbles_of(k) == path {
            lemma_nibbles_injective(k, key);
        }
    }
    assert(entries_of(after) =~= entries_of(shape).insert(key, value));
}

/// After a removal the key finds nothing, and the entries are those before
/// without this one.
pub proof fn law_remove_then_get(shape: Shape, key: Seq<u8>)
    requires
        shape.canonical(),
    ensures
        shape.remove(nibbles_of(key)).get(nibbles_of(key)) is None,
        shape.remove(nibbles_of(key)).canonical(),
        entries_of(shape.remove(nibbles_of(key))) == entries_of(shape).remove(key),
{
    let path = nibbles_of(key);
    let after = shape.remove(path);
    lemma_get_remove(shape, path, path);
    lemma_canonical_remove(shape, path);
    assert forall|k: Seq<u8>| #[trigger]
        entries_of(after).dom().contains(k) == entries_of(shape).remove(key).dom().contains(k) && (
        entries_of(after).dom().contains(k) ==> entries_of(after)[k] == entries_of(shape).remove(
            key,
        )[k]) by {
        lemma_get_remove(shape, path, nibbles_of(k));
        if nibbles_of(k) == path {
            lemma_nibbles_injective(k, key);
        }
    }
    assert(entries_of(after) =~= entries_of(shape).remove(key));
}

/// Deletion: a path that found nothing finds nothing again once a value was
/// inserted there and removed, and the tree and its root are what they were
/// before.
pub proof fn law_insert_then_remove(shape: Shape, path: Seq<u8>, value: Seq<u8>)
    requires
        shape.canonical(),
        nibbles_ok(path),
        value.len() > 0,
        shape.get(path) is None,
    ensures
        shape.insert(path, value).remove(path).get(path) is None,
        shape.insert(path, value).remove(path) == shape,
        root_of(shape.insert(path, value).remove(path)) == root_of(shape),
{
    let mid = shape.insert(path, value);
    let after = mid.remove(path);
    lemma_canonical_insert(shape, path, value);
    lemma_canonical_remove(mid, path);
    assert forall|q: Seq<u8>| after.get(q) == shape.get(q) by {
        lemma_get_insert(shape, path, value, q);
        lemma_get_remove(mid, path, q);
    }
    lemma_unique(after, shape);
}

/// What a path finds after a row of insertions at distinct paths: the value
/// of its own insertion, or what it found before.
pub proof fn lemma_get_inserted_each(shape: Shape, pairs: Seq<(Seq<u8>, Seq<u8>)>, q: Seq<u8>)
    requires
        shape.canonical(),
        insertable(pairs),
        distinct_paths(pairs),
    ensures
        inserted_each(shape, pairs).canonical(),
        forall|i: int|
            0 <= i < pairs.len() && (#[trigger] pairs[i]).0 == q ==> inserted_each(shape, pairs).get(
                q,
            ) == Some(pairs[i].1),
        (forall|i: int| 0 <= i < pairs.len() ==> (#[trigger] pairs[i]).0 != q) ==> inserted_each(
            shape,
            pairs,
        ).get(q) == shape.get(q),
    decreases pairs.len(),
{
    if pairs.len() > 0 {
        let front = pairs.drop_last();
        let last = pairs.last();
        assert(forall|i: int| 0 <= i < front.len() ==> front[i] == pairs[i]);
        lemma_get_inserted_each(shape, front, q);
        let mid = inserted_each(shape, front);
        assert(nibbles_ok(last.0) && last.1.len() > 0);
        lemma_canonical_insert(mid, last.0, last.1);
        lemma_get_insert(mid, last.0, last.1, q);
        assert forall|i: int| 0 <= i < pairs.len() && (#[trigger] pairs[i]).0 == q implies mid.insert(
            last.0,
            last.1,
        ).get(q) == Some(pairs[i].1) by {
            if i < pairs.len() - 1 {
                assert(front[i].0 == q);
                assert(pairs[i].0 != pairs[pairs.len() - 1].0);
            }
        }
        if forall|i: int| 0 <= i < pairs.len() ==> (#[trigger] pairs[i]).0 != q {
            assert(forall|i: int| 0 <= i < front.len() ==> (#[trigger] front[i]).0 != q);
            assert(pairs[pairs.len() - 1].0 != q);
        }
    }
}

/// Order independence: two rows of insertions that hold the same pairs, each
/// path once, give the same tree and the same root from the same start.
pub proof fn law_order_independence(
    shape: Shape,
    first: Seq<(Seq<u8>, Seq<u8>)>,
    second: Seq<(Seq<u8>, Seq<u8>)>,
)
    requires
        shape.canonical(),
        insertable(first),
        distinct_paths(first),
        distinct_paths(second),
        forall|pair: (Seq<u8>, Seq<u8>)| first.contains(pair) <==> second.contains(pair),
    ensures
        inserted_each(shape, first) == inserted_each(shape, second),
        root_of(inserted_each(shape, first)) == root_of(inserted_each(shape, second)),
{
    assert forall|j: int| 0 <= j < second.len() implies nibbles_ok((#[trigger] second[j]).0)
        && second[j].1.len() > 0 by {
        assert(second.contains(second[j]));
        let i = choose|i: int| 0 <= i < first.len() && first[i] == second[j];
        assert(nibbles_ok(first[i].0));
    }
    let a = inserted_each(shape, first);
    let b = inserted_each(shape, second);
    assert forall|q: Seq<u8>| a.get(q) == b.get(q) by {
        lemma_get_inserted_each(shape, first, q);
        lemma_get_inserted_each(shape, second, q);
        if exists|i: int| 0 <= i < first.len() && (#[trigger] first[i]).0 == q {
            let i = choose|i: int| 0 <= i < first.len() && (#[trigger] first[i]).0 == q;
            assert(first.contains(first[i]));
            let j = choose|j: int| 0 <= j < second.len() && second[j] == first[i];
            assert(second[j].0 == q);
        } else {
            assert forall|j: int| 0 <= j < second.len() implies (#[trigger] second[j]).0 != q by {
                assert(second.contains(second[j]));
                let i = choose|i: int| 0 <= i < first.len() && first[i] == second[j];
                assert(first[i].0 != q);
            }
        }
    }
    lemma_get_inserted_each(shape, first, Seq::empty());
    lemma_get_inserted_each(shape, second, Seq::empty());
    lemma_unique(a, b);
}

/// Idempotent overwrite: of two insertions at one path the second counts,
/// and the tree is the one that the second alone gives.
pub proof fn law_overwrite(shape: Shape, path: Seq<u8>, first: Seq<u8>, second: Seq<u8>)
    requires
        shape.canonical(),
        nibbles_ok(path),
        first.len() > 0,
        second.len() > 0,
    ensures
        shape.insert(path, first).insert(path, second).get(path) == Some(second),
        shape.insert(path, first).insert(path, second) == shape.insert(path, second),
        root_of(shape.insert(path, first).insert(path, second)) == root_of(
            shape.insert(path, second),
        ),
{
    let mid = shape.insert(path, first);
    let twice = mid.insert(path, second);
    let once = shape.insert(path, second);
    lemma_canonical_insert(shape, path, first);
    lemma_canonical_insert(mid, path, second);
    lemma_canonical_insert(shape, path, second);
    assert forall|q: Seq<u8>| twice.get(q) == once.get(q) by {
        lemma_get_insert(shape, path, first, q);
        lemma_get_insert(mid, path, second, q);
        lemma_get_insert(shape, path, second, q);
    }
    lemma_get_insert(mid, path, second, path);
    lemma_unique(twice, once);
}

/// An insertion leaves every other path with what it found, and in a branch
/// every child but the one of the path's first nibble as it was, with its
/// encoding and its digest.
pub proof fn law_insert_leaves_others(shape: Shape, path: Seq<u8>, value: Seq<u8>)
    requires
        shape.canonical(),
        nibbles_ok(path),
    ensures
        forall|q: Seq<u8>| q != path ==> #[trigger] shape.insert(path, value).get(q) == shape.get(q),
        shape is Branch ==> shape.insert(path, value) is Branch && forall|i: int|
            0 <= i < 16 && (path.len() == 0 || i != path[0]) ==> (#[trigger] shape.insert(
                path,
                value,
            )->children[i]) == shape->children[i],
{
    assert forall|q: Seq<u8>| q != path implies #[trigger] shape.insert(path, value).get(q)
        == shape.get(q) by {
        lemma_get_insert(shape, path, value, q);
    }
    if shape is Branch && path.len() > 0 {
        assert(path[0] < 16);
    }
}

/// No-op removal: the removal of a path that finds nothing leaves the tree
/// and its root as they were. An empty trie is one such tree.
pub proof fn law_remove_absent(shape: Shape, path: Seq<u8>)
    requires
        shape.canonical(),
        shape.get(path) is None,
    ensures
        shape.remove(path) == shape,
        root_of(shape.remove(path)) == root_of(shape),
{
    let after = shape.remove(path);
    lemma_canonical_remove(shape, path);
    assert forall|q: Seq<u8>| after.get(q) == shape.get(q) by {
        lemma_get_remove(shape, path, q);
    }
    lemma_unique(after, shape);
}

/// Cross-variant consistency: what a secure trie does with a key, a generic
/// trie does with the digest of the key; the trees and the roots are the
/// same.
pub proof fn law_secure_as_generic(shape: Shape, key: Seq<u8>, value: Seq<u8>)
    ensures
        place_of(TrieSpec::Secure, key) == place_of(TrieSpec::Generic, digest_of(key)),
        kept_of(TrieSpec::Secure, key, value) == kept_of(TrieSpec::Generic, digest_of(key), value),
        shape.insert(place_of(TrieSpec::Secure, key), kept_of(TrieSpec::Secure, key, value))
            == shape.insert(
            place_of(TrieSpec::Generic, digest_of(key)),
            kept_of(TrieSpec::Generic, digest_of(key), value),
        ),
        shape.remove(place_of(TrieSpec::Secure, key)) == shape.remove(
            place_of(TrieSpec::Generic, digest_of(key)),
        ),
        shape.get(place_of(TrieSpec::Secure, key)) == shape.get(
            place_of(TrieSpec::Generic, digest_of(key)),
        ),
{
}

} // verus!
