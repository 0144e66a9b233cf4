//! The walk to the first entry after a path: down along the path, then on
//! to the first entry that lies to the right of it.

use vstd::prelude::*;
use vstd::slice::slice_subrange;
use vstd::slice::slice_to_vec;
use crate::codec::CodecError;
use crate::error::TrieError;
use crate::hasher::Digest;
use crate::lazy::fetch_node;
use crate::lazy::fetched_node;
use crate::lazy::stub_rank;
use crate::node::Node;
use crate::node::joined;
use crate::node::lemma_branch_view;
use crate::node::shapes_of;
use crate::node::starts_with_at;
use crate::order::less_than;
use crate::order::lex_less;
use crate::shape::Shape;
use crate::store::Store;
use crate::store::store_entries;

verus! {

/// The first entry below `node`, whose place is `prefix`, in the order of
/// the walk: a branch's own value first, then what is below its children
/// from the first to the last. `room` is how many nibbles a path may still
/// take, and `last` the digest of the stored node that holds `node`.
pub open spec fn first_in(
    entries: Map<Seq<u8>, (Seq<u8>, int)>,
    node: Shape,
    prefix: Seq<u8>,
    room: nat,
    last: Seq<u8>,
) -> Result<Option<(Seq<u8>, Seq<u8>)>, TrieError<Seq<u8>>>
    decreases room, stub_rank(node), node, 0int,
{
    match node {
        Shape::Empty => Ok(None),
        Shape::Leaf { path, value } => Ok(Some((prefix + path, value))),
        Shape::Extension { path, child } => if path.len() == 0 {
            Err(TrieError::DecoderError(last, CodecError::Malformed))
        } else if path.len() > room {
            Err(TrieError::DecoderError(last, CodecError::TooDeep))
        } else {
            first_in(entries, *child, prefix + path, (room - path.len()) as nat, last)
        },
        Shape::Branch { children, value } => match value {
            Some(v) => Ok(Some((prefix, v))),
            None => if room == 0 {
                Err(TrieError::DecoderError(last, CodecError::TooDeep))
            } else {
                first_from(entries, children, 0, prefix, (room - 1) as nat, last)
            },
        },
        Shape::Hash { digest } => match fetched_node(entries, digest) {
            Err(e) => Err(e),
            Ok(inner) => first_in(entries, inner, prefix, room, digest),
        },
    }
}

/// The first entry below the children of a branch from the slot `from` on.
pub open spec fn first_from(
    entries: Map<Seq<u8>, (Seq<u8>, int)>,
    children: Seq<Shape>,
    from: int,
    prefix: Seq<u8>,
    room: nat,
    last: Seq<u8>,
) -> Result<Option<(Seq<u8>, Seq<u8>)>, TrieError<Seq<u8>>>
    decreases room, 2int, children, children.len() - from,
{
    if from < 0 || from >= children.len() {
        Ok(None)
    } else {
        match first_in(entries, children[from], prefix.push(from as u8), room, last) {
            Err(e) => Err(e),
            Ok(Some(entry)) => Ok(Some(entry)),
            Ok(None) => first_from(entries, children, from + 1, prefix, room, last),
        }
    }
}

/// The first entry below `node`, whose place is `prefix`, whose path goes
/// on after `prefix` with something that comes after `bound`.
pub open spec fn next_in(
    entries: Map<Seq<u8>, (Seq<u8>, int)>,
    node: Shape,
    prefix: Seq<u8>,
    bound: Seq<u8>,
    room: nat,
    last: Seq<u8>,
) -> Result<Option<(Seq<u8>, Seq<u8>)>, TrieError<Seq<u8>>>
    decreases room, stub_rank(node), node, 0int,
{
    match node {
        Shape::Empty => Ok(None),
        Shape::Leaf { path, value } => Ok(
            if lex_less(bound, path) {
                Some((prefix + path, value))
            } else {
                None
            },
        ),
        Shape::Extension { path, child } => if path.len() == 0 {
            Err(TrieError::DecoderError(last, CodecError::Malformed))
        } else if path.len() > room {
            Err(TrieError::DecoderError(last, CodecError::TooDeep))
        } else if path.is_prefix_of(bound) {
            next_in(
                entries,
                *child,
                prefix + path,
                bound.skip(path.len() as int),
                (room - path.len()) as nat,
                last,
            )
        } else if lex_less(bound, path) {
            first_in(entries, *child, prefix + path, (room - path.len()) as nat, last)
        } else {
            Ok(None)
        },
        Shape::Branch { children, value } => if room == 0 {
            Err(TrieError::DecoderError(last, CodecError::TooDeep))
        } else if bound.len() == 0 {
            first_from(entries, children, 0, prefix, (room - 1) as nat, last)
        } else if (bound[0] as int) >= children.len() {
            Ok(None)
        } else {
            match next_in(
                entries,
                children[bound[0] as int],
                prefix.push(bound[0]),
                bound.skip(1),
                (room - 1) as nat,
                last,
            ) {
                Err(e) => Err(e),
                Ok(Some(entry)) => Ok(Some(entry)),
                Ok(None) => first_from(
                    entries,
                    children,
                    bound[0] + 1,
                    prefix,
                    (room - 1) as nat,
                    last,
                ),
            }
        },
        Shape::Hash { digest } => match fetched_node(entries, digest) {
            Err(e) => Err(e),
            Ok(inner) => next_in(entries, inner, prefix, bound, room, digest),
        },
    }
}

/// What a search for an entry hands back, as byte strings.
pub open spec fn entry_view(r: Result<Option<(Vec<u8>, Vec<u8>)>, TrieError<Digest>>) -> Result<
    Option<(Seq<u8>, Seq<u8>)>,
    TrieError<Seq<u8>>,
> {
    match r {
        Ok(Some(entry)) => Ok(Some((entry.0@, entry.1@))),
        Ok(None) => Ok(None),
        Err(e) => Err(e@),
    }
}

/// The first entry below `node`, whose place is `prefix`.
pub fn first_entry(db: &Store, node: &Node, prefix: &mut Vec<u8>, room: usize, last: &Digest) -> (r:
    Result<Option<(Vec<u8>, Vec<u8>)>, TrieError<Digest>>)
    ensures
        final(prefix)@ == old(prefix)@,
        entry_view(r) == first_in(store_entries(*db), node@, old(prefix)@, room as nat, last@),
    decreases room, stub_rank(node@), node, 0int,
{
    let ghost place = prefix@;
    match node {
        Node::Empty => Ok(None),
        Node::Leaf { path, value } => Ok(
            Some((joined(prefix.as_slice(), path.as_slice()), slice_to_vec(value.as_slice()))),
        ),
        Node::Extension { path, child } => {
            if path.len() == 0 {
                Err(TrieError::DecoderError(*last, CodecError::Malformed))
            } else if path.len() > room {
                Err(TrieError::DecoderError(*last, CodecError::TooDeep))
            } else {
                let n: usize = prefix.len();
                prefix.extend_from_slice(path.as_slice());
                assert(prefix@ =~= place + path@);
                let r = first_entry(db, child, prefix, room - path.len(), last);
                prefix.truncate(n);
                assert(prefix@ =~= place);
                r
            }
        },
        Node::Branch { children, value } => {
            proof {
                lemma_branch_view(*children, *value);
            }
            match value {
                Some(v) => Ok(
                    Some((slice_to_vec(prefix.as_slice()), slice_to_vec(v.as_slice()))),
                ),
                None => {
                    if room == 0 {
                        Err(TrieError::DecoderError(*last, CodecError::TooDeep))
                    } else {
                        first_below(db, children, 0, prefix, room - 1, last)
                    }
                },
            }
        },
        Node::Hash { digest } => {
            match fetch_node(db, digest) {
                Err(e) => Err(e),
                Ok(inner) => first_entry(db, &inner, prefix, room, digest),
            }
        },
    }
}

/// The first entry below the children of a branch from the slot `from` on.
pub fn first_below(
    db: &Store,
    children: &Vec<Node>,
    from: usize,
    prefix: &mut Vec<u8>,
    room: usize,
    last: &Digest,
) -> (r: Result<Option<(Vec<u8>, Vec<u8>)>, TrieError<Digest>>)
    ensures
        final(prefix)@ == old(prefix)@,
        entry_view(r) == first_from(
            store_entries(*db),
            shapes_of(children@),
            from as int,
            old(prefix)@,
            room as nat,
            last@,
        ),
    decreases room, 2int, children, children.len() - from,
{
    if from >= children.len() {
        return Ok(None);
    }
    let ghost place = prefix@;
    prefix.push(#[verifier::truncate] (from as u8));
    let r = first_entry(db, &children[from], prefix, room, last);
    let _ = prefix.pop();
    assert(prefix@ =~= place);
    match r {
        Err(e) => Err(e),
        Ok(Some(entry)) => Ok(Some(entry)),
        Ok(None) => first_below(db, children, from + 1, prefix, room, last),
    }
}

/// The first entry below `node`, whose place is `prefix`, whose path goes
/// on after `prefix` with something that comes after `bound` from `at` on.
pub fn next_entry(
    db: &Store,
    node: &Node,
    prefix: &mut Vec<u8>,
    bound: &[u8],
    at: usize,
    room: usize,
    last: &Digest,
) -> (r: Result<Option<(Vec<u8>, Vec<u8>)>, TrieError<Digest>>)
    requires
        at <= bound.len(),
    ensures
        final(prefix)@ == old(prefix)@,
        entry_view(r) == next_in(
            store_entries(*db),
            node@,
            old(prefix)@,
            bound@.skip(at as int),
            room as nat,
            last@,
        ),
    decreases room, stub_rank(node@), node, 0int,
{
    let ghost place = prefix@;
    let ghost rest = bound@.skip(at as int);
    let tail = slice_subrange(bound, at, bound.len());
    assert(tail@ =~= rest);
    match node {
        Node::Empty => Ok(None),
        Node::Leaf { path, value } => {
            if less_than(tail, path.as_slice()) {
                Ok(
                    Some(
                        (joined(prefix.as_slice(), path.as_slice()), slice_to_vec(value.as_slice())),
                    ),
                )
            } else {
                Ok(None)
            }
        },
        Node::Extension { path, child } => {
            if path.len() == 0 {
                Err(TrieError::DecoderError(*last, CodecError::Malformed))
            } else if path.len() > room {
                Err(TrieError::DecoderError(*last, CodecError::TooDeep))
            } else if starts_with_at(bound, at, path.as_slice()) {
                let n: usize = prefix.len();
                prefix.extend_from_slice(path.as_slice());
                assert(prefix@ =~= place + path@);
                assert(rest.skip(path.len() as int) =~= bound@.skip(at + path.len()));
                let r = next_entry(
                    db,
                    child,
                    prefix,
                    bound,
                    at + path.len(),
                    room - path.len(),
                    last,
                );
                prefix.truncate(n);
                assert(prefix@ =~= place);
                r
            } else if less_than(tail, path.as_slice()) {
                let n: usize = prefix.len();
                prefix.extend_from_slice(path.as_slice());
                assert(prefix@ =~= place + path@);
                let r = first_entry(db, child, prefix, room - path.len(), last);
                prefix.truncate(n);
                assert(prefix@ =~= place);
                r
            } else {
                Ok(None)
            }
        },
        Node::Branch { children, value } => {
            proof {
                lemma_branch_view(*children, *value);
            }
            if room == 0 {
                Err(TrieError::DecoderError(*last, CodecError::TooDeep))
            } else if at == bound.len() {
                first_below(db, children, 0, prefix, room - 1, last)
            } else if (bound[at] as usize) >= children.len() {
                Ok(None)
            } else {
                let slot: usize = bound[at] as usize;
                prefix.push(bound[at]);
                assert(rest.skip(1) =~= bound@.skip(at + 1));
                let r = next_entry(db, &children[slot], prefix, bound, at + 1, room - 1, last);
                let _ = prefix.pop();
                assert(prefix@ =~= place);
                match r {
                    Err(e) => Err(e),
                    Ok(Some(entry)) => Ok(Some(entry)),
                    Ok(None) => first_below(db, children, slot + 1, prefix, room - 1, last),
                }
            }
        },
        Node::Hash { digest } => {
            match fetch_node(db, digest) {
                Err(e) => Err(e),
                Ok(inner) => next_entry(db, &inner, prefix, bound, at, room, digest),
            }
        },
    }
}

} // verus!
