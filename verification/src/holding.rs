//! What it is for a store to hold a tree, and what a row of insertions
//! leaves in a store.

use vstd::prelude::*;
use crate::codec::by_digest;
use crate::codec::encoding;
use crate::codec::flat;
use crate::codec::own_part;
use crate::codec::parts;
use crate::codec::stored_parts;
use crate::hasher::digest_of;
use crate::roundtrip::sealed_all;
use crate::roundtrip::sealed_link;
use crate::shape::Shape;
use crate::store::inserted;
use crate::store::inserted_all;
use crate::store::null_digest;
use crate::store::null_node;
use crate::store::stored;

verus! {

/// Whether the store gives `bytes` back under their digest.
pub open spec fn keeps(entries: Map<Seq<u8>, (Seq<u8>, int)>, bytes: Seq<u8>) -> bool {
    stored(entries, digest_of(bytes)) == Some(bytes)
}

/// Whether the store holds the tree below `node`: it gives back the
/// encoding of every node that is linked by its digest.
pub open spec fn holds(entries: Map<Seq<u8>, (Seq<u8>, int)>, node: Shape) -> bool
    decreases node,
{
    match node {
        Shape::Extension { path, child } => (by_digest(*child, encoding(*child)) ==> keeps(
            entries,
            encoding(*child),
        )) && holds(entries, *child),
        Shape::Branch { children, value } => forall|i: int|
            0 <= i < children.len() ==> (by_digest(
                #[trigger] children[i],
                encoding(children[i]),
            ) ==> keeps(entries, encoding(children[i]))) && holds(entries, children[i]),
        _ => true,
    }
}

/// Whether no more was removed under `key` than was inserted.
pub open spec fn settled(entries: Map<Seq<u8>, (Seq<u8>, int)>, key: Seq<u8>) -> bool {
    entries.dom().contains(key) ==> entries[key].1 >= 0
}

/// Whether nothing stands in the way of `writes`: what the store gives back
/// under the digest of one of them is that one, no more was removed under
/// it than was inserted, and two of them with one digest are the same.
pub open spec fn unclashed(entries: Map<Seq<u8>, (Seq<u8>, int)>, writes: Seq<Seq<u8>>) -> bool {
    &&& forall|i: int| 0 <= i < writes.len() ==> settled(entries, digest_of(#[trigger] writes[i]))
    &&& forall|i: int|
        0 <= i < writes.len() && stored(entries, digest_of(#[trigger] writes[i])) is Some ==> keeps(
            entries,
            writes[i],
        )
    &&& forall|i: int, j: int|
        0 <= i < writes.len() && 0 <= j < writes.len() && digest_of(#[trigger] writes[i])
            == digest_of(#[trigger] writes[j]) ==> writes[i] == writes[j]
}

/// The first `n` children of a sealed branch.
pub proof fn lemma_sealed_all(children: Seq<Shape>, n: int)
    requires
        0 <= n <= children.len(),
    ensures
        sealed_all(children, n).len() == n,
        forall|i: int| 0 <= i < n ==> #[trigger] sealed_all(children, n)[i] == sealed_link(children[i]),
    decreases n,
{
    if n > 0 {
        lemma_sealed_all(children, n - 1);
    }
}

/// An insertion leaves what the store gives back under other digests, and
/// gives back what was inserted where nothing else was given back before.
pub proof fn lemma_stored_inserted(
    entries: Map<Seq<u8>, (Seq<u8>, int)>,
    value: Seq<u8>,
    key: Seq<u8>,
)
    ensures
        key != digest_of(value) ==> stored(inserted(entries, value), key) == stored(entries, key),
        stored(entries, digest_of(value)) is Some ==> stored(
            inserted(entries, value),
            digest_of(value),
        ) == stored(entries, digest_of(value)),
        stored(entries, digest_of(value)) is None && settled(entries, digest_of(value)) ==> keeps(
            inserted(entries, value),
            value,
        ),
        settled(entries, key) ==> settled(inserted(entries, value), key),
{
    if value == null_node() {
        assert(digest_of(value) == null_digest());
    }
}

/// After a row of insertions that nothing stands in the way of, the store
/// gives back each of them, and what it gave back before.
pub proof fn lemma_stored_inserted_all(entries: Map<Seq<u8>, (Seq<u8>, int)>, writes: Seq<Seq<u8>>)
    requires
        unclashed(entries, writes),
    ensures
        forall|i: int| 0 <= i < writes.len() ==> keeps(inserted_all(entries, writes), #[trigger] writes[i]),
        forall|key: Seq<u8>|
            stored(entries, key) is Some ==> #[trigger] stored(inserted_all(entries, writes), key)
                == stored(entries, key),
        forall|key: Seq<u8>|
            (#[trigger] stored(inserted_all(entries, writes), key)) is Some ==> stored(
                entries,
                key,
            ) is Some || exists|i: int| 0 <= i < writes.len() && digest_of(#[trigger] writes[i]) == key,
        forall|key: Seq<u8>|
            settled(entries, key) ==> #[trigger] settled(inserted_all(entries, writes), key),
    decreases writes.len(),
{
    if writes.len() > 0 {
        let front = writes.drop_last();
        let last = writes.last();
        let n = writes.len() - 1;
        assert(forall|i: int| 0 <= i < front.len() ==> front[i] == writes[i]);
        assert(unclashed(entries, front));
        lemma_stored_inserted_all(entries, front);
        let mid = inserted_all(entries, front);
        let after = inserted_all(entries, writes);
        assert(after == inserted(mid, last));
        assert(writes[n] == last);
        assert(stored(mid, digest_of(last)) is Some ==> keeps(mid, last)) by {
            if stored(mid, digest_of(last)) is Some {
                if stored(entries, digest_of(last)) is Some {
                    assert(keeps(entries, writes[n]));
                } else {
                    let i = choose|i: int|
                        0 <= i < front.len() && digest_of(#[trigger] front[i]) == digest_of(last);
                    assert(digest_of(writes[i]) == digest_of(writes[n]));
                    assert(keeps(mid, front[i]));
                }
            }
        }
        assert(settled(mid, digest_of(last))) by {
            assert(settled(entries, digest_of(writes[n])));
        }
        assert forall|key: Seq<u8>| settled(entries, key) implies #[trigger] settled(after, key) by {
            assert(settled(mid, key));
            lemma_stored_inserted(mid, last, key);
        }
        assert forall|key: Seq<u8>| true implies (stored(entries, key) is Some ==> #[trigger] stored(
            after,
            key,
        ) == stored(entries, key)) && (stored(after, key) is Some ==> stored(entries, key) is Some
            || exists|i: int| 0 <= i < writes.len() && digest_of(#[trigger] writes[i]) == key) by {
            lemma_stored_inserted(mid, last, key);
            if stored(after, key) is Some && !(stored(entries, key) is Some) {
                if key == digest_of(last) {
                    assert(digest_of(writes[n]) == key);
                } else {
                    assert(stored(mid, key) is Some);
                    let i = choose|i: int|
                        0 <= i < front.len() && digest_of(#[trigger] front[i]) == key;
                    assert(digest_of(writes[i]) == key);
                }
            }
        }
        assert forall|i: int| 0 <= i < writes.len() implies keeps(after, #[trigger] writes[i]) by {
            lemma_stored_inserted(mid, last, digest_of(writes[i]));
            if i < n {
                assert(keeps(mid, front[i]));
                if digest_of(writes[i]) == digest_of(last) {
                    assert(digest_of(writes[i]) == digest_of(writes[n]));
                }
            }
        }
    }
}

/// A row holds what either of the two rows holds that it is made of.
pub proof fn lemma_row_contains(a: Seq<Seq<u8>>, b: Seq<Seq<u8>>, x: Seq<u8>)
    ensures
        (a + b).contains(x) <==> a.contains(x) || b.contains(x),
{
    if a.contains(x) {
        let i = choose|i: int| 0 <= i < a.len() && a[i] == x;
        assert((a + b)[i] == x);
    }
    if b.contains(x) {
        let i = choose|i: int| 0 <= i < b.len() && b[i] == x;
        assert((a + b)[a.len() + i] == x);
    }
    if (a + b).contains(x) {
        let i = choose|i: int| 0 <= i < (a + b).len() && (a + b)[i] == x;
        if i < a.len() {
            assert(a[i] == x);
        } else {
            assert(b[i - a.len()] == x);
        }
    }
}

/// What the rows of the first `n` children hold is among what the rows of
/// all together hold.
pub proof fn lemma_parts_contain(children: Seq<Shape>, n: int, i: int, x: Seq<u8>)
    requires
        0 <= i < n <= children.len(),
        (stored_parts(children[i]) + own_part(children[i])).contains(x),
    ensures
        flat(parts(children, n)).contains(x),
    decreases n,
{
    let front = parts(children, n - 1);
    let last = stored_parts(children[n - 1]) + own_part(children[n - 1]);
    crate::codec::lemma_flat_push(front, last);
    lemma_row_contains(flat(front), last, x);
    if i < n - 1 {
        lemma_parts_contain(children, n - 1, i, x);
    }
}

/// A store that gives back every encoding that a commit writes for the
/// nodes below `node` holds the tree below `node`.
pub proof fn lemma_holds_parts(entries: Map<Seq<u8>, (Seq<u8>, int)>, node: Shape)
    requires
        forall|x: Seq<u8>| #[trigger] stored_parts(node).contains(x) ==> keeps(entries, x),
    ensures
        holds(entries, node),
    decreases node,
{
    match node {
        Shape::Extension { path, child } => {
            assert forall|x: Seq<u8>| #[trigger]
                stored_parts(*child).contains(x) implies keeps(entries, x) by {
                lemma_row_contains(stored_parts(*child), own_part(*child), x);
                assert(stored_parts(node).contains(x));
            }
            lemma_holds_parts(entries, *child);
            if by_digest(*child, encoding(*child)) {
                let x = encoding(*child);
                assert(own_part(*child)[0] == x);
                lemma_row_contains(stored_parts(*child), own_part(*child), x);
                assert(stored_parts(node).contains(x));
            }
        },
        Shape::Branch { children, value } => {
            assert forall|i: int| 0 <= i < children.len() implies (by_digest(
                #[trigger] children[i],
                encoding(children[i]),
            ) ==> keeps(entries, encoding(children[i]))) && holds(entries, children[i]) by {
                let child = children[i];
                assert forall|x: Seq<u8>| #[trigger]
                    stored_parts(child).contains(x) implies keeps(entries, x) by {
                    lemma_row_contains(stored_parts(child), own_part(child), x);
                    lemma_parts_contain(children, children.len() as int, i, x);
                    assert(stored_parts(node).contains(x));
                }
                lemma_holds_parts(entries, child);
                if by_digest(child, encoding(child)) {
                    let x = encoding(child);
                    assert(own_part(child)[0] == x);
                    lemma_row_contains(stored_parts(child), own_part(child), x);
                    lemma_parts_contain(children, children.len() as int, i, x);
                    assert(stored_parts(node).contains(x));
                }
            }
        },
        _ => {},
    }
}

} // verus!
