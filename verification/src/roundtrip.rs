//! Reading back what was encoded: the decoder inverts the encoder.

use vstd::prelude::*;
use crate::codec::by_digest;
use crate::codec::decoded;
use crate::codec::decoded_link;
use crate::codec::decoded_links;
use crate::codec::encoding;
use crate::codec::flat;
use crate::codec::items_in;
use crate::codec::lemma_flat_push;
use crate::codec::link;
use crate::codec::links;
use crate::codec::value_item;
use crate::hasher::digest_of;
use crate::nibble::hex_prefix;
use crate::nibble::lemma_unprefixed_of_prefix;
use crate::nibble::nibbles_ok;
use crate::rlp::Span;
use crate::rlp::framed;
use crate::rlp::item_at;
use crate::rlp::lemma_item_of_frame;
use crate::rlp::lemma_pow256_8;
use crate::rlp::pow256;
use crate::rlp::rlp_list;
use crate::rlp::rlp_string;
use crate::shape::Shape;
use crate::store::null_node;

verus! {

/// Whether a payload is short enough for a frame: its length has at most
/// eight digits.
pub open spec fn fits(payload: Seq<u8>) -> bool {
    payload.len() < pow256(8)
}

/// The payload of the list that encodes a leaf, an extension or a branch.
pub open spec fn node_payload(node: Shape) -> Seq<u8> {
    match node {
        Shape::Leaf { path, value } => rlp_string(hex_prefix(path, true)) + rlp_string(value),
        Shape::Extension { path, child } => rlp_string(hex_prefix(path, false)) + link(
            *child,
            encoding(*child),
        ),
        Shape::Branch { children, value } => flat(links(children, children.len() as int))
            + value_item(value),
        _ => Seq::empty(),
    }
}

/// Whether a tree can be encoded and read back: paths hold half-bytes, an
/// extension has a path, a branch has sixteen slots and no empty value, a
/// digest has thirty-two bytes, and every payload fits a frame.
pub open spec fn encodable(node: Shape) -> bool
    decreases node,
{
    match node {
        Shape::Empty => true,
        Shape::Hash { digest } => digest.len() == 32,
        Shape::Leaf { path, value } => nibbles_ok(path) && fits(hex_prefix(path, true)) && fits(
            value,
        ) && fits(node_payload(node)),
        Shape::Extension { path, child } => path.len() > 0 && nibbles_ok(path) && fits(
            hex_prefix(path, false),
        ) && encodable(*child) && fits(node_payload(node)),
        Shape::Branch { children, value } => {
            &&& children.len() == 16
            &&& forall|i: int| 0 <= i < children.len() ==> encodable(#[trigger] children[i])
            &&& (value is Some ==> value->Some_0.len() > 0 && fits(value->Some_0))
            &&& fits(node_payload(node))
        },
    }
}

/// What the encoding of a tree holds of it: each child that is linked by
/// its digest is replaced by the digest.
pub open spec fn sealed(node: Shape) -> Shape
    decreases node, 0int,
{
    match node {
        Shape::Extension { path, child } => Shape::Extension {
            path,
            child: Box::new(
                if by_digest(*child, encoding(*child)) {
                    Shape::Hash { digest: digest_of(encoding(*child)) }
                } else {
                    sealed(*child)
                },
            ),
        },
        Shape::Branch { children, value } => Shape::Branch {
            children: sealed_all(children, children.len() as int),
            value,
        },
        _ => node,
    }
}

/// `sealed` for the first `n` children of a branch, each as its parent's
/// encoding holds it.
pub open spec fn sealed_all(children: Seq<Shape>, n: int) -> Seq<Shape>
    decreases children, n,
{
    if n <= 0 || n > children.len() {
        Seq::empty()
    } else {
        sealed_all(children, n - 1).push(
            if by_digest(children[n - 1], encoding(children[n - 1])) {
                Shape::Hash { digest: digest_of(encoding(children[n - 1])) }
            } else {
                sealed(children[n - 1])
            },
        )
    }
}

/// A child as its parent's encoding holds it.
pub open spec fn sealed_link(child: Shape) -> Shape {
    if by_digest(child, encoding(child)) {
        Shape::Hash { digest: digest_of(encoding(child)) }
    } else {
        sealed(child)
    }
}

/// The frame that stands for a child in its parent's encoding: whether it
/// is a list, and its payload.
pub open spec fn link_frame(child: Shape) -> (bool, Seq<u8>) {
    match child {
        Shape::Empty => (false, Seq::empty()),
        Shape::Hash { digest } => (false, digest),
        _ => if by_digest(child, encoding(child)) {
            (false, digest_of(encoding(child)))
        } else {
            (true, node_payload(child))
        },
    }
}

/// The frames one after the other.
pub open spec fn frames_bytes(frames: Seq<(bool, Seq<u8>)>) -> Seq<u8>
    decreases frames.len(),
{
    if frames.len() == 0 {
        Seq::empty()
    } else {
        framed(frames[0].0, frames[0].1) + frames_bytes(frames.skip(1))
    }
}

/// Where the frames lie that follow one another from `at` on.
pub open spec fn frames_spans(frames: Seq<(bool, Seq<u8>)>, at: int) -> Seq<Span>
    decreases frames.len(),
{
    if frames.len() == 0 {
        Seq::empty()
    } else {
        let end = at + framed(frames[0].0, frames[0].1).len();
        seq![
            Span { list: frames[0].0, from: at, start: end - frames[0].1.len(), end },
        ] + frames_spans(frames.skip(1), end)
    }
}

/// An item moved by `by` places.
pub open spec fn moved(item: Option<Span>, by: int) -> Option<Span> {
    match item {
        Some(it) => Some(
            Span { list: it.list, from: it.from + by, start: it.start + by, end: it.end + by },
        ),
        None => None,
    }
}

/// The item at a place is the item at the front of what starts there.
pub proof fn lemma_item_shift(buf: Seq<u8>, at: int)
    requires
        0 <= at <= buf.len(),
    ensures
        item_at(buf, at) == moved(item_at(buf.skip(at), 0), at),
{
    let tail = buf.skip(at);
    if at < buf.len() {
        assert(tail[0] == buf[at]);
        if buf[at] >= 0x80 {
            let list = buf[at] >= 0xc0;
            let base: int = if list {
                0xc0
            } else {
                0x80
            };
            let short = buf[at] - base;
            if short < 56 {
                if at + 1 + short <= buf.len() && short == 1 {
                    assert(tail[1] == buf[at + 1]);
                }
            } else {
                let count = short - 55;
                if at + 1 + count <= buf.len() {
                    assert(tail.subrange(1, 1 + count) =~= buf.subrange(at + 1, at + 1 + count));
                }
            }
        }
    }
}

/// One more frame at the end.
pub proof fn lemma_frames_bytes_push(frames: Seq<(bool, Seq<u8>)>, last: (bool, Seq<u8>))
    ensures
        frames_bytes(frames.push(last)) == frames_bytes(frames) + framed(last.0, last.1),
    decreases frames.len(),
{
    let all = frames.push(last);
    reveal_with_fuel(frames_bytes, 2);
    if frames.len() == 0 {
        assert(all.skip(1) =~= Seq::<(bool, Seq<u8>)>::empty());
        assert(frames_bytes(all) =~= framed(last.0, last.1));
        assert(frames_bytes(frames) + framed(last.0, last.1) =~= framed(last.0, last.1));
    } else {
        assert(all.skip(1) =~= frames.skip(1).push(last));
        lemma_frames_bytes_push(frames.skip(1), last);
        assert(frames_bytes(all) =~= frames_bytes(frames) + framed(last.0, last.1));
    }
}

/// Frames that fill a range are the items in it, each with its payload.
pub proof fn lemma_items_of_frames(buf: Seq<u8>, at: int, end: int, frames: Seq<(bool, Seq<u8>)>)
    requires
        0 <= at <= end <= buf.len(),
        buf.subrange(at, end) == frames_bytes(frames),
        forall|i: int| 0 <= i < frames.len() ==> fits((#[trigger] frames[i]).1),
    ensures
        items_in(buf, at, end) == Some(frames_spans(frames, at)),
        frames_spans(frames, at).len() == frames.len(),
        forall|i: int|
            0 <= i < frames.len() ==> {
                let it = #[trigger] frames_spans(frames, at)[i];
                &&& it.list == frames[i].0
                &&& at <= it.from <= it.start <= it.end <= end
                &&& buf.subrange(it.start, it.end) == frames[i].1
                &&& buf.subrange(it.from, it.end) == framed(frames[i].0, frames[i].1)
            },
    decreases frames.len(),
{
    if frames.len() == 0 {
        assert(buf.subrange(at, end).len() == 0);
    } else {
        let first = frames[0];
        let rest = frames.skip(1);
        let frame = framed(first.0, first.1);
        let tail = frames_bytes(rest);
        let window = buf.take(end);
        assert(fits(first.1));
        assert(window.skip(at) =~= frame + tail);
        lemma_item_of_frame(first.0, first.1, tail);
        lemma_item_shift(window, at);
        let next = at + frame.len();
        let it = Span { list: first.0, from: at, start: next - first.1.len(), end: next };
        assert(item_at(window, at) == Some(it));
        assert(buf.subrange(next, end) =~= tail) by {
            assert(buf.subrange(at, end) == frame + tail);
            assert forall|i: int| 0 <= i < tail.len() implies buf.subrange(next, end)[i]
                == tail[i] by {
                assert(buf.subrange(at, end)[frame.len() + i] == (frame + tail)[frame.len() + i]);
            }
        }
        assert forall|i: int| 0 <= i < rest.len() implies fits((#[trigger] rest[i]).1) by {
            assert(rest[i] == frames[i + 1]);
        }
        lemma_items_of_frames(buf, next, end, rest);
        assert(buf.subrange(it.start, it.end) =~= first.1) by {
            assert((frame + tail).subrange(frame.len() - first.1.len(), frame.len() as int)
                == first.1);
            assert forall|i: int| 0 <= i < first.1.len() implies buf.subrange(it.start, it.end)[i]
                == first.1[i] by {
                let k = frame.len() - first.1.len() + i;
                assert(buf.subrange(at, end)[k] == (frame + tail)[k]);
                assert((frame + tail).subrange(frame.len() - first.1.len(), frame.len() as int)[i]
                    == (frame + tail)[k]);
            }
        }
        assert(buf.subrange(it.from, it.end) =~= frame) by {
            assert forall|i: int| 0 <= i < frame.len() implies buf.subrange(it.from, it.end)[i]
                == frame[i] by {
                assert(buf.subrange(at, end)[i] == (frame + tail)[i]);
            }
        }
        let spans = frames_spans(frames, at);
        let later = frames_spans(rest, next);
        assert(spans == seq![it] + later);
        assert forall|i: int| 0 <= i < frames.len() implies {
            let s = #[trigger] spans[i];
            &&& s.list == frames[i].0
            &&& at <= s.from <= s.start <= s.end <= end
            &&& buf.subrange(s.start, s.end) == frames[i].1
            &&& buf.subrange(s.from, s.end) == framed(frames[i].0, frames[i].1)
        } by {
            if i > 0 {
                assert(spans[i] == later[i - 1]);
                assert(rest[i - 1] == frames[i]);
            }
        }
    }
}

/// The frame of a link is the link.
pub proof fn lemma_link_frame(child: Shape)
    requires
        encodable(child),
    ensures
        framed(link_frame(child).0, link_frame(child).1) == link(child, encoding(child)),
        fits(link_frame(child).1),
{
    lemma_pow256_8();
    match child {
        Shape::Empty => {
            assert(rlp_string(Seq::<u8>::empty()) =~= null_node());
        },
        _ => {},
    }
}

/// The frames of the links to the first `n` children.
pub open spec fn link_frames(children: Seq<Shape>, n: int) -> Seq<(bool, Seq<u8>)>
    decreases n,
{
    if n <= 0 || n > children.len() {
        Seq::empty()
    } else {
        link_frames(children, n - 1).push(link_frame(children[n - 1]))
    }
}

/// The frames of the links are the links.
pub proof fn lemma_link_frames(children: Seq<Shape>, n: int)
    requires
        0 <= n <= children.len(),
        forall|i: int| 0 <= i < children.len() ==> encodable(#[trigger] children[i]),
    ensures
        frames_bytes(link_frames(children, n)) == flat(links(children, n)),
        link_frames(children, n).len() == n,
        forall|i: int| 0 <= i < n ==> #[trigger] link_frames(children, n)[i] == link_frame(children[i]),
    decreases n,
{
    if n > 0 {
        lemma_link_frames(children, n - 1);
        let frame = link_frame(children[n - 1]);
        lemma_link_frame(children[n - 1]);
        lemma_frames_bytes_push(link_frames(children, n - 1), frame);
        lemma_flat_push(
            links(children, n - 1),
            link(children[n - 1], encoding(children[n - 1])),
        );
    }
}

/// The item of a link reads back as the child that the encoding holds.
pub proof fn lemma_decode_link(buf: Seq<u8>, it: Span, child: Shape)
    requires
        encodable(child),
        0 <= it.from <= it.start <= it.end <= buf.len(),
        it.end - it.from < buf.len(),
        it.list == link_frame(child).0,
        buf.subrange(it.start, it.end) == link_frame(child).1,
        buf.subrange(it.from, it.end) == link(child, encoding(child)),
    ensures
        decoded_link(buf, it) == Some(sealed_link(child)),
    decreases child, 1int,
{
    match child {
        Shape::Empty => {},
        Shape::Hash { digest } => {},
        _ => {
            if !by_digest(child, encoding(child)) {
                lemma_decode_encoding(child);
            }
        },
    }
}

/// The items of the first `n` links read back as the children that the
/// encoding holds.
pub proof fn lemma_decode_links(buf: Seq<u8>, items: Seq<Span>, children: Seq<Shape>, n: int)
    requires
        0 <= n <= children.len(),
        n <= items.len(),
        forall|i: int| 0 <= i < children.len() ==> encodable(#[trigger] children[i]),
        forall|i: int|
            0 <= i < n ==> {
                let it = #[trigger] items[i];
                &&& 0 <= it.from <= it.start <= it.end <= buf.len()
                &&& it.end - it.from < buf.len()
                &&& it.list == link_frame(children[i]).0
                &&& buf.subrange(it.start, it.end) == link_frame(children[i]).1
                &&& buf.subrange(it.from, it.end) == link(children[i], encoding(children[i]))
            },
    ensures
        decoded_links(buf, items, n) == Some(sealed_all(children, n)),
    decreases children, n,
{
    if n > 0 {
        lemma_decode_links(buf, items, children, n - 1);
        let it = items[n - 1];
        lemma_decode_link(buf, it, children[n - 1]);
    }
}

/// The decoder inverts the encoder: the encoding of a tree that can be
/// encoded reads back as the tree, with each child that is linked by its
/// digest replaced by the digest.
pub proof fn lemma_decode_encoding(node: Shape)
    requires
        encodable(node),
        !(node is Hash),
    ensures
        decoded(encoding(node)) == Some(sealed(node)),
    decreases node, 0int,
{
    lemma_pow256_8();
    let buf = encoding(node);
    match node {
        Shape::Empty => {},
        Shape::Hash { .. } => {},
        Shape::Leaf { path, value } => {
            let frames = seq![(false, hex_prefix(path, true)), (false, value)];
            lemma_top(node);
            let top = item_at(buf, 0)->Some_0;
            assert(frames_bytes(frames) =~= node_payload(node)) by {
                assert(frames.skip(1) =~= seq![(false, value)]);
                assert(frames.skip(1).skip(1) =~= Seq::<(bool, Seq<u8>)>::empty());
                reveal_with_fuel(frames_bytes, 3);
            }
            lemma_items_of_frames(buf, top.start, top.end, frames);
            let items = frames_spans(frames, top.start);
            assert(items[0].list == frames[0].0 && items[1].list == frames[1].0);
            lemma_unprefixed_of_prefix(path, true);
        },
        Shape::Extension { path, child } => {
            lemma_link_frame(*child);
            let frames = seq![(false, hex_prefix(path, false)), link_frame(*child)];
            lemma_top(node);
            let top = item_at(buf, 0)->Some_0;
            assert(frames_bytes(frames) =~= node_payload(node)) by {
                assert(frames.skip(1) =~= seq![link_frame(*child)]);
                assert(frames.skip(1).skip(1) =~= Seq::<(bool, Seq<u8>)>::empty());
                reveal_with_fuel(frames_bytes, 3);
            }
            lemma_items_of_frames(buf, top.start, top.end, frames);
            let items = frames_spans(frames, top.start);
            assert(items[0].list == frames[0].0 && items[1].list == frames[1].0);
            lemma_unprefixed_of_prefix(path, false);
            lemma_decode_link(buf, items[1], *child);
        },
        Shape::Branch { children, value } => {
            let own: (bool, Seq<u8>) = (
                false,
                match value {
                    Some(v) => v,
                    None => Seq::empty(),
                },
            );
            let frames = link_frames(children, 16).push(own);
            lemma_link_frames(children, 16);
            lemma_frames_bytes_push(link_frames(children, 16), own);
            lemma_top(node);
            let top = item_at(buf, 0)->Some_0;
            assert forall|i: int| 0 <= i < frames.len() implies fits((#[trigger] frames[i]).1) by {
                if i < 16 {
                    lemma_link_frame(children[i]);
                }
            }
            assert(frames_bytes(frames) == node_payload(node));
            lemma_items_of_frames(buf, top.start, top.end, frames);
            let items = frames_spans(frames, top.start);
            assert forall|i: int| 0 <= i < 16 implies {
                let it = #[trigger] items[i];
                &&& 0 <= it.from <= it.start <= it.end <= buf.len()
                &&& it.end - it.from < buf.len()
                &&& it.list == link_frame(children[i]).0
                &&& buf.subrange(it.start, it.end) == link_frame(children[i]).1
                &&& buf.subrange(it.from, it.end) == link(children[i], encoding(children[i]))
            } by {
                lemma_link_frame(children[i]);
                assert(frames[i] == link_frame(children[i]));
            }
            lemma_decode_links(buf, items, children, 16);
            assert(items[16].list == frames[16].0);
            assert(buf.subrange(items[16].start, items[16].end) == frames[16].1);
        },
    }
}

/// The encoding tells trees apart: two trees with the same encoding hold
/// the same, up to what is linked by its digest.
pub proof fn law_encoding_injective(a: Shape, b: Shape)
    requires
        encodable(a),
        encodable(b),
        !(a is Hash),
        !(b is Hash),
        encoding(a) == encoding(b),
    ensures
        sealed(a) == sealed(b),
{
    lemma_decode_encoding(a);
    lemma_decode_encoding(b);
}

/// The encoding of a leaf, an extension or a branch is one list that takes
/// all of it.
pub proof fn lemma_top(node: Shape)
    requires
        node is Leaf || node is Extension || node is Branch,
        fits(node_payload(node)),
    ensures
        encoding(node) == rlp_list(node_payload(node)),
        encoding(node) != null_node(),
        item_at(encoding(node), 0) is Some,
        item_at(encoding(node), 0)->Some_0.list,
        item_at(encoding(node), 0)->Some_0.from == 0,
        item_at(encoding(node), 0)->Some_0.start >= 1,
        item_at(encoding(node), 0)->Some_0.end == encoding(node).len(),
        encoding(node).subrange(
            item_at(encoding(node), 0)->Some_0.start,
            item_at(encoding(node), 0)->Some_0.end,
        ) == node_payload(node),
{
    let payload = node_payload(node);
    let buf = encoding(node);
    lemma_item_of_frame(true, payload, Seq::empty());
    assert(rlp_list(payload) + Seq::<u8>::empty() =~= rlp_list(payload));
    assert(buf[0] >= 0xc0);
}

} // verus!
