//! The kinds of trie, and what each does to keys and values on their way
//! into the tree.

use vstd::prelude::*;
use vstd::slice::slice_subrange;
use vstd::slice::slice_to_vec;
use crate::codec::CodecError;
use crate::codec::items_in;
use crate::codec::read_items;
use crate::codec::spans;
use crate::error::TrieError;
use crate::hasher::digest_of;
use crate::nibble::nibbles_of;
use crate::rlp::encode_list;
use crate::rlp::encode_string;
use crate::rlp::item_at;
use crate::rlp::read_item;
use crate::rlp::rlp_list;
use crate::rlp::rlp_string;

verus! {

/// The kinds of trie.
#[derive(Debug, Clone, Copy, PartialEq, Eq, Structural)]
pub enum TrieSpec {
    /// Keys are used as they are.
    Generic,
    /// Keys are hashed.
    Secure,
    /// Keys are hashed, and each value is kept together with its key.
    Fat,
}

impl Default for TrieSpec {
    fn default() -> (spec: TrieSpec)
        ensures
            spec == TrieSpec::Secure,
    {
        TrieSpec::Secure
    }
}

/// A key and a value as one byte string: the list of the two.
pub open spec fn fat_pair(key: Seq<u8>, value: Seq<u8>) -> Seq<u8> {
    rlp_list(rlp_string(key) + rlp_string(value))
}

/// The key and the value that a byte string holds, if it is a list of two
/// strings.
pub open spec fn unpaired(bytes: Seq<u8>) -> Option<(Seq<u8>, Seq<u8>)> {
    match item_at(bytes, 0) {
        Some(top) => if !top.list || top.end != bytes.len() {
            None
        } else {
            match items_in(bytes, top.start, top.end) {
                Some(items) => if items.len() == 2 && !items[0].list && !items[1].list {
                    Some(
                        (
                            bytes.subrange(items[0].start, items[0].end),
                            bytes.subrange(items[1].start, items[1].end),
                        ),
                    )
                } else {
                    None
                },
                None => None,
            }
        },
        None => None,
    }
}

/// The path in the tree at which a trie of this kind keeps `key`.
pub open spec fn place_of(kind: TrieSpec, key: Seq<u8>) -> Seq<u8> {
    match kind {
        TrieSpec::Generic => nibbles_of(key),
        _ => nibbles_of(digest_of(key)),
    }
}

/// The bytes that a trie of this kind keeps for `value` at `key`.
pub open spec fn kept_of(kind: TrieSpec, key: Seq<u8>, value: Seq<u8>) -> Seq<u8> {
    match kind {
        TrieSpec::Fat => fat_pair(key, value),
        _ => value,
    }
}

/// The value that a trie of this kind hands out for the bytes that it
/// keeps, if they hold one.
pub open spec fn shown_of(kind: TrieSpec, bytes: Seq<u8>) -> Option<Seq<u8>> {
    match kind {
        TrieSpec::Fat => match unpaired(bytes) {
            Some((_, value)) => Some(value),
            None => None,
        },
        _ => Some(bytes),
    }
}

/// What a trie of this kind hands out for what its tree holds at the place
/// of a key: the value, nothing, or an error under `root` where the bytes
/// hold no value.
pub open spec fn shown_entry(kind: TrieSpec, root: Seq<u8>, held: Option<Seq<u8>>) -> Result<
    Option<Seq<u8>>,
    TrieError<Seq<u8>>,
> {
    match held {
        None => Ok(None),
        Some(bytes) => match shown_of(kind, bytes) {
            Some(value) => Ok(Some(value)),
            None => Err(TrieError::DecoderError(root, CodecError::Malformed)),
        },
    }
}

/// A key and a value as one byte string.
pub fn pair_up(key: &[u8], value: &[u8]) -> (bytes: Vec<u8>)
    ensures
        bytes@ == fat_pair(key@, value@),
{
    let mut payload = encode_string(key);
    let second = encode_string(value);
    payload.extend_from_slice(second.as_slice());
    assert(payload@ =~= rlp_string(key@) + rlp_string(value@));
    encode_list(payload.as_slice())
}

/// The key and the value that a byte string holds.
pub fn split_pair(bytes: &[u8]) -> (pair: Option<(Vec<u8>, Vec<u8>)>)
    ensures
        match pair {
            Some((key, value)) => unpaired(bytes@) == Some((key@, value@)),
            None => unpaired(bytes@) is None,
        },
{
    let top = match read_item(bytes, 0) {
        Some(top) => top,
        None => {
            return None;
        },
    };
    if !top.list || top.end != bytes.len() || top.start > top.end {
        return None;
    }
    let items = match read_items(bytes, top.start, top.end) {
        Some(items) => items,
        None => {
            return None;
        },
    };
    if items.len() != 2 {
        return None;
    }
    let first = items[0];
    let second = items[1];
    assert(spans(items@)[0] == first@ && spans(items@)[1] == second@);
    if first.list || second.list {
        return None;
    }
    proof {
        crate::codec::lemma_items_within(bytes@, top.start as int, top.end as int, 0);
        crate::codec::lemma_items_within(bytes@, top.start as int, top.end as int, 1);
    }
    Some(
        (
            slice_to_vec(slice_subrange(bytes, first.start, first.end)),
            slice_to_vec(slice_subrange(bytes, second.start, second.end)),
        ),
    )
}

} // verus!
