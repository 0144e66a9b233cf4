//! The encoding of nodes: how a node and the links to its children are laid
//! out in bytes, and how the bytes are read back.

use vstd::prelude::*;
use vstd::slice::slice_subrange;
use vstd::slice::slice_to_vec;
use crate::hasher::digest_from;
use crate::hasher::digest_of;
use crate::hasher::hash_bytes;
use crate::nibble::hex_prefix;
use crate::nibble::hex_prefix_decode;
use crate::nibble::hex_prefix_encode;
use crate::nibble::unprefixed;
use crate::node::Node;
use crate::node::lemma_branch_view;
use crate::node::shapes_of;
use crate::node::value_view;
use crate::rlp::Item;
use crate::rlp::Span;
use crate::rlp::encode_list;
use crate::rlp::encode_string;
use crate::rlp::item_at;
use crate::rlp::read_item;
use crate::rlp::rlp_list;
use crate::rlp::rlp_string;
use crate::shape::Shape;
use crate::store::null_node;
use crate::store::rows;

verus! {

/// Why bytes could not be read as a node.
#[derive(Debug, Clone, Copy, PartialEq, Eq)]
pub enum CodecError {
    /// The bytes are not the encoding of a node.
    Malformed,
    /// The nodes go deeper than a path can be long.
    TooDeep,
}

/// The rows of `parts`, one after the other.
pub open spec fn flat<A>(parts: Seq<Seq<A>>) -> Seq<A>
    decreases parts.len(),
{
    if parts.len() == 0 {
        Seq::empty()
    } else {
        flat(parts.drop_last()) + parts.last()
    }
}

/// One more row.
pub proof fn lemma_flat_push<A>(parts: Seq<Seq<A>>, row: Seq<A>)
    ensures
        flat(parts.push(row)) == flat(parts) + row,
{
    assert(parts.push(row).drop_last() =~= parts);
}

/// The item that stands for the value of a branch: the empty string where
/// it has none.
pub open spec fn value_item(value: Option<Seq<u8>>) -> Seq<u8> {
    match value {
        Some(v) => rlp_string(v),
        None => rlp_string(Seq::empty()),
    }
}

/// Whether a child is referred to by the digest of its encoding: a leaf, an
/// extension or a branch whose encoding has thirty-two bytes or more.
pub open spec fn by_digest(child: Shape, encoding: Seq<u8>) -> bool {
    (child is Leaf || child is Extension || child is Branch) && encoding.len() >= 32
}

/// What stands for a child in the encoding of its parent: its own encoding,
/// or the digest of that as a string.
pub open spec fn link(child: Shape, encoding: Seq<u8>) -> Seq<u8> {
    if by_digest(child, encoding) {
        rlp_string(digest_of(encoding))
    } else {
        encoding
    }
}

/// The encoding of a node. The empty node is the empty string, a leaf and an
/// extension are lists of two items, a branch is a list of seventeen, and a
/// node that is not held is its digest as a string.
pub open spec fn encoding(node: Shape) -> Seq<u8>
    decreases node, 0int,
{
    match node {
        Shape::Empty => null_node(),
        Shape::Leaf { path, value } => rlp_list(
            rlp_string(hex_prefix(path, true)) + rlp_string(value),
        ),
        Shape::Extension { path, child } => rlp_list(
            rlp_string(hex_prefix(path, false)) + link(*child, encoding(*child)),
        ),
        Shape::Branch { children, value } => rlp_list(
            flat(links(children, children.len() as int)) + value_item(value),
        ),
        Shape::Hash { digest } => rlp_string(digest),
    }
}

/// The links to the first `n` children.
pub open spec fn links(children: Seq<Shape>, n: int) -> Seq<Seq<u8>>
    decreases children, n,
{
    if n <= 0 || n > children.len() {
        Seq::empty()
    } else {
        links(children, n - 1).push(link(children[n - 1], encoding(children[n - 1])))
    }
}

/// The encoding of a child where the store keeps it under its digest.
pub open spec fn own_part(child: Shape) -> Seq<Seq<u8>> {
    if by_digest(child, encoding(child)) {
        seq![encoding(child)]
    } else {
        Seq::empty()
    }
}

/// The encodings that the store keeps under their digests for the nodes
/// below `node`, each child's before its parent's.
pub open spec fn stored_parts(node: Shape) -> Seq<Seq<u8>>
    decreases node, 0int,
{
    match node {
        Shape::Extension { path, child } => stored_parts(*child) + own_part(*child),
        Shape::Branch { children, value } => flat(parts(children, children.len() as int)),
        _ => Seq::empty(),
    }
}

/// The parts of the first `n` children.
pub open spec fn parts(children: Seq<Shape>, n: int) -> Seq<Seq<Seq<u8>>>
    decreases children, n,
{
    if n <= 0 || n > children.len() {
        Seq::empty()
    } else {
        parts(children, n - 1).push(stored_parts(children[n - 1]) + own_part(children[n - 1]))
    }
}

/// The encoding of `node`. The encodings of the nodes below it that the
/// store keeps under their digests are added to `writes`.
#[verifier::loop_isolation(false)]
pub fn encode_into(node: &Node, writes: &mut Vec<Vec<u8>>) -> (out: Vec<u8>)
    ensures
        out@ == encoding(node@),
        rows(final(writes)@) == rows(old(writes)@) + stored_parts(node@),
    decreases node, 0int,
{
    let ghost before = rows(writes@);
    match node {
        Node::Empty => {
            let mut out: Vec<u8> = Vec::new();
            out.push(0x80u8);
            assert(out@ =~= null_node());
            assert(rows(writes@) =~= before + stored_parts(node@));
            out
        },
        Node::Leaf { path, value } => {
            let mut payload = encode_string(hex_prefix_encode(path.as_slice(), true).as_slice());
            let item = encode_string(value.as_slice());
            payload.extend_from_slice(item.as_slice());
            assert(rows(writes@) =~= before + stored_parts(node@));
            encode_list(payload.as_slice())
        },
        Node::Extension { path, child } => {
            let mut payload = encode_string(hex_prefix_encode(path.as_slice(), false).as_slice());
            let item = link_into(child, writes);
            payload.extend_from_slice(item.as_slice());
            encode_list(payload.as_slice())
        },
        Node::Branch { children, value } => {
            proof {
                lemma_branch_view(*children, *value);
            }
            let ghost kids = shapes_of(children@);
            let mut payload: Vec<u8> = Vec::new();
            let mut i: usize = 0;
            while i < children.len()
                invariant
                    i <= children.len(),
                    kids == shapes_of(children@),
                    node@ == (Shape::Branch { children: kids, value: value_view(*value) }),
                    payload@ == flat(links(kids, i as int)),
                    rows(writes@) == before + flat(parts(kids, i as int)),
                decreases children.len() - i,
            {
                let item = link_into(&children[i], writes);
                payload.extend_from_slice(item.as_slice());
                proof {
                    lemma_flat_push(links(kids, i as int), item@);
                    let part = stored_parts(kids[i as int]) + own_part(kids[i as int]);
                    lemma_flat_push(parts(kids, i as int), part);
                }
                i += 1;
            }
            let item = match value {
                Some(v) => encode_string(v.as_slice()),
                None => {
                    let none: Vec<u8> = Vec::new();
                    assert(none@ =~= Seq::<u8>::empty());
                    encode_string(none.as_slice())
                },
            };
            assert(item@ == value_item(value_view(*value)));
            payload.extend_from_slice(item.as_slice());
            encode_list(payload.as_slice())
        },
        Node::Hash { digest } => {
            assert(rows(writes@) =~= before + stored_parts(node@));
            let bytes = slice_to_vec(digest.as_slice());
            encode_string(bytes.as_slice())
        },
    }
}

/// What stands for `child` in the encoding of its parent. Where that is its
/// digest, the encoding of `child` is added to `writes`, after those of the
/// nodes below it.
pub fn link_into(child: &Node, writes: &mut Vec<Vec<u8>>) -> (out: Vec<u8>)
    ensures
        out@ == link(child@, encoding(child@)),
        rows(final(writes)@) == rows(old(writes)@) + (stored_parts(child@) + own_part(child@)),
    decreases child, 1int,
{
    let ghost before = rows(writes@);
    let own = encode_into(child, writes);
    let node_kind: bool = match child {
        Node::Empty => false,
        Node::Hash { .. } => false,
        _ => true,
    };
    if node_kind && own.len() >= 32 {
        let digest = hash_bytes(own.as_slice());
        let out = encode_string(slice_to_vec(digest.as_slice()).as_slice());
        let ghost mid = rows(writes@);
        writes.push(own);
        assert(rows(writes@) =~= mid.push(own@));
        assert(rows(writes@) =~= before + (stored_parts(child@) + own_part(child@)));
        out
    } else {
        assert(rows(writes@) =~= before + (stored_parts(child@) + own_part(child@)));
        own
    }
}

/// The places of the items in a row.
pub open spec fn spans(items: Seq<Item>) -> Seq<Span> {
    Seq::new(items.len(), |i: int| items[i]@)
}

/// `front` before the items of `rest`, where there are any.
pub open spec fn items_after(front: Seq<Span>, rest: Option<Seq<Span>>) -> Option<Seq<Span>> {
    match rest {
        Some(r) => Some(front + r),
        None => None,
    }
}

/// The items that fill the buffer from `at` up to `end`, if items do.
pub open spec fn items_in(buf: Seq<u8>, at: int, end: int) -> Option<Seq<Span>>
    decreases end - at,
{
    if !(0 <= at <= end <= buf.len()) {
        None
    } else if at == end {
        Some(Seq::empty())
    } else {
        match item_at(buf.take(end), at) {
            Some(it) => if it.end <= at {
                None
            } else {
                items_after(seq![it], items_in(buf, it.end, end))
            },
            None => None,
        }
    }
}

/// The node that bytes encode, if they encode one. An extension without a
/// path is none.
pub open spec fn decoded(buf: Seq<u8>) -> Option<Shape>
    decreases buf.len(), 2int, 0int,
{
    if buf == null_node() {
        Some(Shape::Empty)
    } else {
        match item_at(buf, 0) {
            Some(top) => if !top.list || top.end != buf.len() {
                None
            } else {
                match items_in(buf, top.start, top.end) {
                    Some(items) => if items.len() == 2 {
                        let first = items[0];
                        let second = items[1];
                        if first.list {
                            None
                        } else {
                            match unprefixed(buf.subrange(first.start, first.end)) {
                                Some((path, leaf)) => if leaf {
                                    if second.list {
                                        None
                                    } else {
                                        Some(
                                            Shape::Leaf {
                                                path,
                                                value: buf.subrange(second.start, second.end),
                                            },
                                        )
                                    }
                                } else if path.len() == 0 {
                                    None
                                } else {
                                    match decoded_link(buf, second) {
                                        Some(child) => Some(
                                            Shape::Extension { path, child: Box::new(child) },
                                        ),
                                        None => None,
                                    }
                                },
                                None => None,
                            }
                        }
                    } else if items.len() == 17 {
                        let last = items[16];
                        if last.list {
                            None
                        } else {
                            match decoded_links(buf, items, 16) {
                                Some(children) => Some(
                                    Shape::Branch {
                                        children,
                                        value: if last.end == last.start {
                                            None
                                        } else {
                                            Some(buf.subrange(last.start, last.end))
                                        },
                                    },
                                ),
                                None => None,
                            }
                        }
                    } else {
                        None
                    },
                    None => None,
                }
            },
            None => None,
        }
    }
}

/// The children that the first `n` items link to, if each links to one.
pub open spec fn decoded_links(buf: Seq<u8>, items: Seq<Span>, n: int) -> Option<Seq<Shape>>
    decreases buf.len(), 1int, n,
{
    if n <= 0 || n > items.len() {
        Some(Seq::empty())
    } else {
        match (decoded_links(buf, items, n - 1), decoded_link(buf, items[n - 1])) {
            (Some(front), Some(child)) => Some(front.push(child)),
            _ => None,
        }
    }
}

/// The child that an item links to: none for the empty string, the digest
/// for a string of thirty-two bytes, the node that the item encodes for a
/// list.
pub open spec fn decoded_link(buf: Seq<u8>, it: Span) -> Option<Shape>
    decreases buf.len(), 0int, 0int,
{
    if !(0 <= it.from <= it.start <= it.end <= buf.len()) {
        None
    } else if it.list {
        if it.end - it.from < buf.len() {
            decoded(buf.subrange(it.from, it.end))
        } else {
            None
        }
    } else if it.end == it.start {
        Some(Shape::Empty)
    } else if it.end - it.start == 32 {
        Some(Shape::Hash { digest: buf.subrange(it.start, it.end) })
    } else {
        None
    }
}

/// The items that fill the buffer from `start` up to `end`; `None` where
/// items do not, or where there are more than seventeen.
pub fn read_items(buf: &[u8], start: usize, end: usize) -> (items: Option<Vec<Item>>)
    requires
        start <= end <= buf.len(),
    ensures
        match items {
            Some(v) => items_in(buf@, start as int, end as int) == Some(spans(v@)) && v.len() <= 17,
            None => match items_in(buf@, start as int, end as int) {
                Some(all) => all.len() > 17,
                None => true,
            },
        },
{
    let part = slice_subrange(buf, 0, end);
    assert(part@ =~= buf@.take(end as int));
    let mut items: Vec<Item> = Vec::new();
    let mut at: usize = start;
    assert(spans(items@) + Seq::<Span>::empty() =~= Seq::<Span>::empty());
    while at < end
        invariant
            start <= at <= end <= buf.len(),
            part@ == buf@.take(end as int),
            items.len() <= 17,
            items_in(buf@, start as int, end as int) == items_after(
                spans(items@),
                items_in(buf@, at as int, end as int),
            ),
        decreases end - at,
    {
        match read_item(part, at) {
            None => {
                return None;
            },
            Some(it) => {
                if it.end <= at || items.len() == 17 {
                    proof {
                        if it.end > at {
                            let rest = items_in(buf@, it.end as int, end as int);
                            if rest is Some {
                                assert(items_in(buf@, start as int, end as int).unwrap().len()
                                    == items.len() + 1 + rest.unwrap().len());
                            }
                        }
                    }
                    return None;
                }
                let ghost before = spans(items@);
                items.push(it);
                proof {
                    assert(spans(items@) =~= before.push(it@));
                    let rest = items_in(buf@, it.end as int, end as int);
                    if rest is Some {
                        assert(before + (seq![it@] + rest.unwrap()) =~= before.push(it@)
                            + rest.unwrap());
                    }
                }
                at = it.end;
            },
        }
    }
    assert(spans(items@) + Seq::<Span>::empty() =~= spans(items@));
    Some(items)
}

/// The node that `bytes` encode.
#[verifier::loop_isolation(false)]
pub fn decode_node(bytes: &[u8]) -> (r: Result<Node, CodecError>)
    ensures
        match r {
            Ok(node) => decoded(bytes@) == Some(node@),
            Err(e) => decoded(bytes@) is None && e == CodecError::Malformed,
        },
    decreases bytes.len(), 2int, 0int,
{
    if bytes.len() == 1 && bytes[0] == 0x80 {
        assert(bytes@ =~= null_node());
        return Ok(Node::Empty);
    }
    assert(bytes@ != null_node()) by {
        if bytes@ == null_node() {
            assert(bytes@.len() == 1 && bytes@[0] == 0x80);
        }
    }
    let top = match read_item(bytes, 0) {
        Some(top) => top,
        None => {
            return Err(CodecError::Malformed);
        },
    };
    if !top.list || top.end != bytes.len() {
        return Err(CodecError::Malformed);
    }
    let items = match read_items(bytes, top.start, top.end) {
        Some(items) => items,
        None => {
            return Err(CodecError::Malformed);
        },
    };
    if items.len() == 2 {
        let first = items[0];
        let second = items[1];
        assert(spans(items@)[0] == first@ && spans(items@)[1] == second@);
        if first.list || first.start > first.end || first.end > bytes.len() {
            proof {
                lemma_items_within(bytes@, top.start as int, top.end as int, 0);
            }
            return Err(CodecError::Malformed);
        }
        let (path, leaf) = match hex_prefix_decode(slice_subrange(bytes, first.start, first.end)) {
            Some(found) => found,
            None => {
                return Err(CodecError::Malformed);
            },
        };
        if leaf {
            proof {
                lemma_items_within(bytes@, top.start as int, top.end as int, 1);
            }
            if second.list {
                return Err(CodecError::Malformed);
            }
            let value = slice_to_vec(slice_subrange(bytes, second.start, second.end));
            Ok(Node::Leaf { path, value })
        } else if path.len() == 0 {
            Err(CodecError::Malformed)
        } else {
            match decode_link(bytes, &second) {
                Ok(child) => Ok(Node::Extension { path, child: Box::new(child) }),
                Err(e) => Err(e),
            }
        }
    } else if items.len() == 17 {
        let last = items[16];
        assert(spans(items@)[16] == last@);
        if last.list {
            return Err(CodecError::Malformed);
        }
        let mut children: Vec<Node> = Vec::new();
        let mut i: usize = 0;
        while i < 16
            invariant
                i <= 16,
                items.len() == 17,
                children.len() == i,
                decoded_links(bytes@, spans(items@), i as int) == Some(shapes_of(children@)),
            decreases 16 - i,
        {
            let it = items[i];
            assert(spans(items@)[i as int] == it@);
            let ghost before = shapes_of(children@);
            match decode_link(bytes, &it) {
                Ok(child) => {
                    children.push(child);
                    assert(shapes_of(children@) =~= before.push(child@));
                },
                Err(e) => {
                    proof {
                        assert(decoded_links(bytes@, spans(items@), i + 1) is None);
                        lemma_links_fail(bytes@, spans(items@), i + 1, 16);
                    }
                    return Err(e);
                },
            }
            i += 1;
        }
        proof {
            lemma_items_within(bytes@, top.start as int, top.end as int, 16);
        }
        let value = if last.end == last.start {
            None
        } else {
            Some(slice_to_vec(slice_subrange(bytes, last.start, last.end)))
        };
        proof {
            lemma_branch_view(children, value);
        }
        Ok(Node::Branch { children, value })
    } else {
        Err(CodecError::Malformed)
    }
}

/// The child that an item of `bytes` links to.
pub fn decode_link(bytes: &[u8], it: &Item) -> (r: Result<Node, CodecError>)
    ensures
        match r {
            Ok(node) => decoded_link(bytes@, it@) == Some(node@),
            Err(e) => decoded_link(bytes@, it@) is None && e == CodecError::Malformed,
        },
    decreases bytes.len(), 0int, 0int,
{
    if it.from > it.start || it.start > it.end || it.end > bytes.len() {
        return Err(CodecError::Malformed);
    }
    if it.list {
        if it.end - it.from < bytes.len() {
            decode_node(slice_subrange(bytes, it.from, it.end))
        } else {
            Err(CodecError::Malformed)
        }
    } else if it.end == it.start {
        Ok(Node::Empty)
    } else if it.end - it.start == 32 {
        Ok(Node::Hash { digest: digest_from(slice_subrange(bytes, it.start, it.end)) })
    } else {
        Err(CodecError::Malformed)
    }
}

/// Each of the items that fill a range lies within it, in order.
pub proof fn lemma_items_within(buf: Seq<u8>, at: int, end: int, i: int)
    requires
        items_in(buf, at, end) is Some,
        0 <= i < items_in(buf, at, end).unwrap().len(),
    ensures
        ({
            let it = items_in(buf, at, end).unwrap()[i];
            at <= it.from <= it.start <= it.end <= end <= buf.len()
        }),
    decreases end - at,
{
    if at < end {
        let it = item_at(buf.take(end), at).unwrap();
        let rest = items_in(buf, it.end, end).unwrap();
        assert(items_in(buf, at, end).unwrap() == seq![it] + rest);
        if i > 0 {
            lemma_items_within(buf, it.end, end, i - 1);
            assert((seq![it] + rest)[i] == rest[i - 1]);
        }
    }
}

/// Where the links up to some item cannot all be read, neither can more.
pub proof fn lemma_links_fail(buf: Seq<u8>, items: Seq<Span>, n: int, m: int)
    requires
        0 <= n <= m <= items.len(),
        decoded_links(buf, items, n) is None,
    ensures
        decoded_links(buf, items, m) is None,
    decreases m - n,
{
    if n < m {
        lemma_links_fail(buf, items, n, m - 1);
    }
}

} // verus!
