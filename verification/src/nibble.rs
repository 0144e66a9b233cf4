//! Nibble paths: the half-byte sequences along which the trie is walked, and
//! their hex-prefix wire form.

use vstd::prelude::*;

verus! {

/// Every element of `path` is a half-byte.
pub open spec fn nibbles_ok(path: Seq<u8>) -> bool {
    forall|i: int| 0 <= i < path.len() ==> #[trigger] path[i] < 16
}

/// The nibble path of a byte key: two nibbles per byte, the high one first.
pub open spec fn nibbles_of(bytes: Seq<u8>) -> Seq<u8> {
    Seq::new(
        2 * bytes.len(),
        |i: int|
            if i % 2 == 0 {
                bytes[i / 2] / 16
            } else {
                bytes[i / 2] % 16
            },
    )
}

/// The bytes that an even-length nibble path packs into. Of an element that
/// is no half-byte only the low four bits count.
pub open spec fn bytes_of(path: Seq<u8>) -> Seq<u8> {
    Seq::new(path.len() / 2, |i: int| ((path[2 * i] % 16) * 16 + path[2 * i + 1] % 16) as u8)
}

/// The length of the longest common prefix of `a` and `b`.
pub open spec fn common_prefix(a: Seq<u8>, b: Seq<u8>) -> nat
    decreases a.len(),
{
    if a.len() == 0 || b.len() == 0 || a[0] != b[0] {
        0
    } else {
        1 + common_prefix(a.skip(1), b.skip(1))
    }
}

/// The hex-prefix form of a nibble path and its leaf flag: one flag nibble,
/// a padding nibble where the path is of even length, then the path.
pub open spec fn hex_prefix(path: Seq<u8>, leaf: bool) -> Seq<u8> {
    let flag: int = if leaf { 2 } else { 0 };
    if path.len() % 2 == 1 {
        seq![(16 * (flag + 1) + path[0] % 16) as u8] + bytes_of(path.skip(1))
    } else {
        seq![(16 * flag) as u8] + bytes_of(path)
    }
}

/// `common_prefix` is the one length at which the two paths agree before and
/// differ at, or at which one of them ends.
pub proof fn lemma_common_prefix(a: Seq<u8>, b: Seq<u8>)
    ensures
        common_prefix(a, b) <= a.len(),
        common_prefix(a, b) <= b.len(),
        a.take(common_prefix(a, b) as int) == b.take(common_prefix(a, b) as int),
        common_prefix(a, b) < a.len() && common_prefix(a, b) < b.len() ==> a[common_prefix(
            a,
            b,
        ) as int] != b[common_prefix(a, b) as int],
    decreases a.len(),
{
    if a.len() == 0 || b.len() == 0 || a[0] != b[0] {
        assert(a.take(0) =~= b.take(0));
    } else {
        lemma_common_prefix(a.skip(1), b.skip(1));
        let c = common_prefix(a.skip(1), b.skip(1)) as int;
        assert(a.skip(1).take(c) == b.skip(1).take(c));
        let at = a.take(c + 1);
        let bt = b.take(c + 1);
        assert forall|i: int| 0 <= i < c + 1 implies at[i] == bt[i] by {
            if i > 0 {
                assert(a.skip(1).take(c)[i - 1] == b.skip(1).take(c)[i - 1]);
            }
        }
        assert(at =~= bt);
    }
}

/// A length with the properties of `lemma_common_prefix` is `common_prefix`.
pub proof fn lemma_common_prefix_unique(a: Seq<u8>, b: Seq<u8>, c: int)
    requires
        0 <= c <= a.len(),
        c <= b.len(),
        a.take(c) == b.take(c),
        c < a.len() && c < b.len() ==> a[c] != b[c],
    ensures
        common_prefix(a, b) == c,
    decreases a.len(),
{
    if c == 0 {
    } else {
        assert(a.take(c)[0] == a[0]);
        assert(b.take(c)[0] == b[0]);
        let at = a.skip(1).take(c - 1);
        let bt = b.skip(1).take(c - 1);
        assert forall|i: int| 0 <= i < c - 1 implies at[i] == bt[i] by {
            assert(a.take(c)[i + 1] == a[i + 1]);
            assert(b.take(c)[i + 1] == b[i + 1]);
            assert(at[i] == a.skip(1)[i]);
            assert(bt[i] == b.skip(1)[i]);
        }
        if c < a.len() && c < b.len() {
            assert(a.skip(1)[c - 1] == a[c]);
            assert(b.skip(1)[c - 1] == b[c]);
        }
        assert(at =~= bt);
        lemma_common_prefix_unique(a.skip(1), b.skip(1), c - 1);
    }
}

/// Packing the nibbles of a byte string gives the byte string back, and the
/// nibbles are half-bytes.
pub proof fn lemma_nibbles_round_trip(bytes: Seq<u8>)
    ensures
        nibbles_ok(nibbles_of(bytes)),
        nibbles_of(bytes).len() == 2 * bytes.len(),
        bytes_of(nibbles_of(bytes)) == bytes,
{
    let n = nibbles_of(bytes);
    assert forall|i: int| 0 <= i < bytes.len() implies bytes_of(n)[i] == bytes[i] by {
        assert(n[2 * i] == bytes[i] / 16);
        assert(n[2 * i + 1] == bytes[i] % 16);
    }
    assert(bytes_of(n) =~= bytes);
}

/// Unpacking the bytes of an even-length path of half-bytes gives the path
/// back.
pub proof fn lemma_bytes_round_trip(path: Seq<u8>)
    requires
        nibbles_ok(path),
        path.len() % 2 == 0,
    ensures
        nibbles_of(bytes_of(path)) == path,
{
    let b = bytes_of(path);
    assert forall|i: int| 0 <= i < path.len() implies nibbles_of(b)[i] == path[i] by {
        let j = i / 2;
        assert(path[2 * j] < 16 && path[2 * j + 1] < 16);
        assert(b[j] == ((path[2 * j] % 16) * 16 + path[2 * j + 1] % 16) as u8);
    }
    assert(nibbles_of(b) =~= path);
}

/// Two byte keys with the same nibble path are the same key.
pub proof fn lemma_nibbles_injective(a: Seq<u8>, b: Seq<u8>)
    requires
        nibbles_of(a) == nibbles_of(b),
    ensures
        a == b,
{
    lemma_nibbles_round_trip(a);
    lemma_nibbles_round_trip(b);
}

/// The nibble path of a byte key.
pub fn to_nibbles(bytes: &[u8]) -> (path: Vec<u8>)
    ensures
        path@ == nibbles_of(bytes@),
{
    let mut path: Vec<u8> = Vec::new();
    let mut i: usize = 0;
    while i < bytes.len()
        invariant
            i <= bytes.len(),
            path@ == nibbles_of(bytes@.take(i as int)),
        decreases bytes.len() - i,
    {
        let b: u8 = bytes[i];
        path.push(b / 16);
        path.push(b % 16);
        assert(path@ =~= nibbles_of(bytes@.take(i + 1)));
        i += 1;
    }
    assert(bytes@.take(i as int) =~= bytes@);
    path
}

/// The bytes that a path packs into, two elements to a byte; a last element
/// without a partner is left out.
pub fn pack(path: &[u8]) -> (bytes: Vec<u8>)
    ensures
        bytes@ == bytes_of(path@),
{
    let mut bytes: Vec<u8> = Vec::new();
    let n: usize = path.len() / 2;
    let mut i: usize = 0;
    while i < n
        invariant
            i <= n,
            n == path.len() / 2,
            bytes.len() == i,
            forall|k: int| 0 <= k < i ==> bytes@[k] == bytes_of(path@)[k],
        decreases n - i,
    {
        let hi: u8 = path[2 * i] % 16;
        let lo: u8 = path[2 * i + 1] % 16;
        bytes.push(hi * 16 + lo);
        i += 1;
    }
    assert(bytes@ =~= bytes_of(path@));
    bytes
}

/// The byte string that a nibble path packs into; `None` where the path is
/// of odd length or holds something that is no half-byte.
pub fn from_nibbles(path: &[u8]) -> (bytes: Option<Vec<u8>>)
    ensures
        bytes is Some <==> path@.len() % 2 == 0 && nibbles_ok(path@),
        bytes is Some ==> bytes.unwrap()@ == bytes_of(path@),
{
    if path.len() % 2 != 0 {
        return None;
    }
    let mut bytes: Vec<u8> = Vec::new();
    let mut i: usize = 0;
    while i < path.len()
        invariant
            i <= path.len(),
            i % 2 == 0,
            path.len() % 2 == 0,
            nibbles_ok(path@.take(i as int)),
            bytes@ == bytes_of(path@.take(i as int)),
        decreases path.len() - i,
    {
        let hi: u8 = path[i];
        let lo: u8 = path[i + 1];
        if hi >= 16 || lo >= 16 {
            return None;
        }
        bytes.push(hi * 16 + lo);
        assert(bytes@ =~= bytes_of(path@.take(i + 2)));
        let ghost next = path@.take(i + 2);
        assert forall|k: int| 0 <= k < i + 2 implies #[trigger] next[k] < 16 by {
            if k < i {
                assert(path@.take(i as int)[k] < 16);
            }
        }
        i += 2;
    }
    assert(path@.take(i as int) =~= path@);
    Some(bytes)
}

/// The length of the longest common prefix of two nibble paths.
pub fn common_prefix_len(a: &[u8], b: &[u8]) -> (len: usize)
    ensures
        len == common_prefix(a@, b@),
{
    let mut i: usize = 0;
    while i < a.len() && i < b.len() && a[i] == b[i]
        invariant
            i <= a.len(),
            i <= b.len(),
            a@.take(i as int) == b@.take(i as int),
        decreases a.len() - i,
    {
        assert(a@.take(i + 1) =~= a@.take(i as int).push(a@[i as int]));
        assert(b@.take(i + 1) =~= b@.take(i as int).push(b@[i as int]));
        i += 1;
    }
    proof {
        lemma_common_prefix_unique(a@, b@, i as int);
    }
    i
}

/// The hex-prefix form of a path.
pub fn hex_prefix_encode(path: &[u8], leaf: bool) -> (bytes: Vec<u8>)
    ensures
        bytes@ == hex_prefix(path@, leaf),
{
    let flag: u8 = if leaf { 2 } else { 0 };
    let mut bytes: Vec<u8> = Vec::new();
    let odd: bool = path.len() % 2 == 1;
    let mut i: usize = 0;
    if odd {
        bytes.push(16 * (flag + 1) + path[0] % 16);
        i = 1;
    } else {
        bytes.push(16 * flag);
    }
    let ghost start = i as int;
    let ghost head = bytes@;
    while i < path.len()
        invariant
            start <= i <= path.len(),
            0 <= start <= 1,
            (i - start) % 2 == 0,
            (path.len() - i) % 2 == 0,
            bytes@ == head + bytes_of(path@.subrange(start, i as int)),
        decreases path.len() - i,
    {
        let hi: u8 = path[i] % 16;
        let lo: u8 = path[i + 1] % 16;
        bytes.push(hi * 16 + lo);
        assert(bytes@ =~= head + bytes_of(path@.subrange(start, i + 2)));
        i += 2;
    }
    assert(path@.subrange(start, i as int) =~= path@.skip(start));
    assert(path@.skip(0) =~= path@);
    bytes
}

/// The path and the leaf flag that a hex-prefix form spells, if it is one:
/// the flag nibble is below four, and the padding nibble is zero.
pub open spec fn unprefixed(bytes: Seq<u8>) -> Option<(Seq<u8>, bool)> {
    if bytes.len() == 0 {
        None
    } else {
        let flag = bytes[0] / 16;
        let low = bytes[0] % 16;
        if flag >= 4 || (flag % 2 == 0 && low != 0) {
            None
        } else if flag % 2 == 1 {
            Some((seq![low] + nibbles_of(bytes.skip(1)), flag >= 2))
        } else {
            Some((nibbles_of(bytes.skip(1)), flag >= 2))
        }
    }
}

/// Reading back the hex-prefix form of a path of half-bytes gives the path
/// and the flag.
pub proof fn lemma_unprefixed_of_prefix(path: Seq<u8>, leaf: bool)
    requires
        nibbles_ok(path),
    ensures
        unprefixed(hex_prefix(path, leaf)) == Some((path, leaf)),
{
    let bytes = hex_prefix(path, leaf);
    if path.len() % 2 == 1 {
        assert(path[0] < 16);
        let tail = path.skip(1);
        assert(nibbles_ok(tail)) by {
            assert forall|i: int| 0 <= i < tail.len() implies #[trigger] tail[i] < 16 by {
                assert(path[i + 1] < 16);
            }
        }
        assert(bytes.skip(1) =~= bytes_of(tail));
        lemma_bytes_round_trip(tail);
        assert(seq![path[0]] + tail =~= path);
    } else {
        assert(bytes.skip(1) =~= bytes_of(path));
        lemma_bytes_round_trip(path);
    }
}

/// Only hex-prefix forms are read back: what `unprefixed` gives is a path of
/// half-bytes, and the form of that path and flag is the bytes.
pub proof fn law_unprefixed_is_prefix(bytes: Seq<u8>)
    requires
        unprefixed(bytes) is Some,
    ensures
        nibbles_ok(unprefixed(bytes).unwrap().0),
        hex_prefix(unprefixed(bytes).unwrap().0, unprefixed(bytes).unwrap().1) == bytes,
{
    let (path, leaf) = unprefixed(bytes).unwrap();
    let tail = bytes.skip(1);
    lemma_nibbles_round_trip(tail);
    let flag = bytes[0] / 16;
    if flag % 2 == 1 {
        assert(path.skip(1) =~= nibbles_of(tail));
        assert(hex_prefix(path, leaf) =~= bytes);
        assert forall|k: int| 0 <= k < path.len() implies #[trigger] path[k] < 16 by {
            if k >= 1 {
                assert(path[k] == nibbles_of(tail)[k - 1]);
            }
        }
    } else {
        assert(hex_prefix(path, leaf) =~= bytes);
    }
}

/// The path and the leaf flag that a hex-prefix form spells, or `None` where
/// the bytes are no such form.
pub fn hex_prefix_decode(bytes: &[u8]) -> (r: Option<(Vec<u8>, bool)>)
    ensures
        match r {
            Some((path, leaf)) => unprefixed(bytes@) == Some((path@, leaf)),
            None => unprefixed(bytes@) is None,
        },
{
    if bytes.len() == 0 {
        return None;
    }
    let first: u8 = bytes[0];
    let flag: u8 = first / 16;
    let low: u8 = first % 16;
    if flag >= 4 || (flag % 2 == 0 && low != 0) {
        return None;
    }
    let leaf: bool = flag >= 2;
    let mut path: Vec<u8> = Vec::new();
    if flag % 2 == 1 {
        path.push(low);
    }
    let ghost head = path@;
    let mut i: usize = 1;
    while i < bytes.len()
        invariant
            1 <= i <= bytes.len(),
            path@ == head + nibbles_of(bytes@.subrange(1, i as int)),
        decreases bytes.len() - i,
    {
        let b: u8 = bytes[i];
        path.push(b / 16);
        path.push(b % 16);
        assert(path@ =~= head + nibbles_of(bytes@.subrange(1, i + 1)));
        i += 1;
    }
    proof {
        assert(bytes@.subrange(1, i as int) =~= bytes@.skip(1));
        if flag % 2 == 1 {
            assert(head =~= seq![low]);
        } else {
            assert(path@ =~= nibbles_of(bytes@.skip(1)));
        }
    }
    Some((path, leaf))
}

} // verus!
