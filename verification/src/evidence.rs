//! The nodes that a query fetched are evidence for what it found: a store
//! that holds nothing but them gives the same answer.

use vstd::prelude::*;
use crate::codec::decoded;
use crate::hasher::digest_of;
use crate::holding::keeps;
use crate::holding::lemma_stored_inserted_all;
use crate::holding::unclashed;
use crate::lookup::deeper;
use crate::lookup::found;
use crate::lookup::visits;
use crate::recorder::Visit;
use crate::recorder::logged_all;
use crate::shape::Shape;
use crate::store::inserted_all;
use crate::store::no_entries;
use crate::store::null_digest;
use crate::store::stored;

verus! {

/// Whether what the store gives back under a digest has that digest.
pub open spec fn consistent(entries: Map<Seq<u8>, (Seq<u8>, int)>) -> bool {
    forall|key: Seq<u8>|
        (#[trigger] stored(entries, key)) is Some ==> digest_of(stored(entries, key)->Some_0) == key
}

/// The encodings that a row of visits fetched.
pub open spec fn fetched_data(seen: Seq<Visit>) -> Seq<Seq<u8>> {
    Seq::new(seen.len(), |i: int| seen[i].data)
}

/// The store that holds what a row of visits fetched, and nothing else.
pub open spec fn evidence(seen: Seq<Visit>) -> Map<Seq<u8>, (Seq<u8>, int)> {
    inserted_all(no_entries(), fetched_data(seen))
}

/// A log with room for a row of visits holds them all afterwards.
pub proof fn law_logged_all(log: Seq<Visit>, limit: nat, seen: Seq<Visit>)
    requires
        log.len() + seen.len() <= limit,
    ensures
        logged_all(log, limit, seen) == log + seen,
    decreases seen.len(),
{
    if seen.len() > 0 {
        law_logged_all(log, limit, seen.drop_last());
        assert((log + seen.drop_last()).push(seen.last()) =~= log + seen);
    } else {
        assert(log + seen =~= log);
    }
}

/// Every node that a walk fetched is one that the store gave back under its
/// digest.
pub proof fn lemma_visits_stored(
    entries: Map<Seq<u8>, (Seq<u8>, int)>,
    node: Shape,
    path: Seq<u8>,
    depth: u32,
)
    ensures
        forall|i: int|
            0 <= i < visits(entries, node, path, depth).len() ==> stored(
                entries,
                (#[trigger] visits(entries, node, path, depth)[i]).hash,
            ) == Some(visits(entries, node, path, depth)[i].data),
        node is Hash && visits(entries, node, path, depth).len() > 0 ==> visits(
            entries,
            node,
            path,
            depth,
        )[0].hash == node->digest,
    decreases path.len(), (if node is Hash {
        1int
    } else {
        0int
    }), node,
{
    match node {
        Shape::Extension { path: own, child } => {
            if own.len() > 0 && own.is_prefix_of(path) {
                lemma_visits_stored(entries, *child, path.skip(own.len() as int), depth);
            }
        },
        Shape::Branch { children, value } => {
            if path.len() > 0 && (path[0] as int) < children.len() {
                lemma_visits_stored(entries, children[path[0] as int], path.skip(1), depth);
            }
        },
        Shape::Hash { digest } => {
            if stored(entries, digest) is Some {
                let bytes = stored(entries, digest)->Some_0;
                if decoded(bytes) is Some && !(decoded(bytes)->Some_0 is Hash) {
                    lemma_visits_stored(entries, decoded(bytes)->Some_0, path, deeper(depth));
                }
            }
        },
        _ => {},
    }
}

/// A walk that succeeds finds the same, and fetches the same, in any store
/// that gives back what it fetched.
pub proof fn lemma_found_agrees(
    entries: Map<Seq<u8>, (Seq<u8>, int)>,
    other: Map<Seq<u8>, (Seq<u8>, int)>,
    node: Shape,
    path: Seq<u8>,
    depth: u32,
)
    requires
        found(entries, node, path, depth) is Ok,
        forall|i: int|
            0 <= i < visits(entries, node, path, depth).len() ==> stored(
                other,
                (#[trigger] visits(entries, node, path, depth)[i]).hash,
            ) == Some(visits(entries, node, path, depth)[i].data),
    ensures
        found(other, node, path, depth) == found(entries, node, path, depth),
        visits(other, node, path, depth) == visits(entries, node, path, depth),
    decreases path.len(), (if node is Hash {
        1int
    } else {
        0int
    }), node,
{
    match node {
        Shape::Extension { path: own, child } => {
            if own.len() > 0 && own.is_prefix_of(path) {
                assert(visits(entries, node, path, depth) == visits(
                    entries,
                    *child,
                    path.skip(own.len() as int),
                    depth,
                ));
                lemma_found_agrees(entries, other, *child, path.skip(own.len() as int), depth);
            }
        },
        Shape::Branch { children, value } => {
            if path.len() > 0 && (path[0] as int) < children.len() {
                assert(visits(entries, node, path, depth) == visits(
                    entries,
                    children[path[0] as int],
                    path.skip(1),
                    depth,
                ));
                lemma_found_agrees(entries, other, children[path[0] as int], path.skip(1), depth);
            }
        },
        Shape::Hash { digest } => {
            let bytes = stored(entries, digest)->Some_0;
            let inner = decoded(bytes)->Some_0;
            let seen = visits(entries, node, path, depth);
            assert(seen[0] == Visit { hash: digest, data: bytes, depth });
            if !(inner is Hash) {
                let later = visits(entries, inner, path, deeper(depth));
                assert forall|i: int| 0 <= i < later.len() implies stored(
                    other,
                    (#[trigger] later[i]).hash,
                ) == Some(later[i].data) by {
                    assert(seen[i + 1] == later[i]);
                }
                lemma_found_agrees(entries, other, inner, path, deeper(depth));
            }
        },
        _ => {},
    }
}

/// Proof soundness: of a walk that found a value, or found that there is
/// none, in a store whose entries have their digests, the nodes fetched
/// start with the root's, each has the digest it was fetched under, and a
/// store that holds nothing but them gives the same answer.
pub proof fn law_evidence(entries: Map<Seq<u8>, (Seq<u8>, int)>, root: Seq<u8>, path: Seq<u8>)
    requires
        consistent(entries),
        found(entries, Shape::Hash { digest: root }, path, 0) is Ok,
    ensures
        ({
            let top = Shape::Hash { digest: root };
            let seen = visits(entries, top, path, 0);
            &&& seen.len() > 0
            &&& seen[0].hash == root
            &&& forall|i: int| 0 <= i < seen.len() ==> digest_of((#[trigger] seen[i]).data) == seen[i].hash
            &&& found(evidence(seen), top, path, 0) == found(entries, top, path, 0)
            &&& visits(evidence(seen), top, path, 0) == seen
        }),
{
    let top = Shape::Hash { digest: root };
    let seen = visits(entries, top, path, 0);
    let data = fetched_data(seen);
    lemma_visits_stored(entries, top, path, 0);
    assert forall|i: int| 0 <= i < seen.len() implies digest_of((#[trigger] seen[i]).data)
        == seen[i].hash by {
        assert(stored(entries, seen[i].hash) == Some(seen[i].data));
    }
    assert(unclashed(no_entries(), data)) by {
        assert forall|i: int|
            0 <= i < data.len() && stored(no_entries(), digest_of(#[trigger] data[i]))
                is Some implies keeps(no_entries(), data[i]) by {
            assert(seen[i].hash == null_digest());
            assert(stored(entries, seen[i].hash) == Some(seen[i].data));
        }
        assert forall|i: int, j: int|
            0 <= i < data.len() && 0 <= j < data.len() && digest_of(#[trigger] data[i])
                == digest_of(#[trigger] data[j]) implies data[i] == data[j] by {
            assert(stored(entries, seen[i].hash) == Some(seen[i].data));
            assert(stored(entries, seen[j].hash) == Some(seen[j].data));
        }
    }
    lemma_stored_inserted_all(no_entries(), data);
    assert forall|i: int| 0 <= i < seen.len() implies stored(
        evidence(seen),
        (#[trigger] seen[i]).hash,
    ) == Some(seen[i].data) by {
        assert(keeps(evidence(seen), data[i]));
    }
    lemma_found_agrees(entries, evidence(seen), top, path, 0);
}

} // verus!
