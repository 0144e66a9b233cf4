//! The recursive length prefix: how a byte string and a list of encoded
//! items are framed, and how a frame is read back.

use vstd::prelude::*;

verus! {

/// The base-256 digits of `n`, the most significant first, none where `n`
/// is zero.
pub open spec fn be_bytes(n: nat) -> Seq<u8>
    decreases n,
{
    if n == 0 {
        Seq::empty()
    } else {
        be_bytes(n / 256).push((n % 256) as u8)
    }
}

/// The number that base-256 digits spell.
pub open spec fn be_value(digits: Seq<u8>) -> nat
    decreases digits.len(),
{
    if digits.len() == 0 {
        0
    } else {
        be_value(digits.drop_last()) * 256 + digits.last() as nat
    }
}

/// The prefix of a payload of `len` bytes: one byte where `len` is below 56,
/// else a byte that counts the digits of `len`, then those digits.
pub open spec fn header(base: int, len: nat) -> Seq<u8> {
    if len < 56 {
        seq![(base + len) as u8]
    } else {
        seq![(base + 55 + be_bytes(len).len()) as u8] + be_bytes(len)
    }
}

/// The frame of a byte string: a single byte below 0x80 stands for itself.
pub open spec fn rlp_string(s: Seq<u8>) -> Seq<u8> {
    if s.len() == 1 && s[0] < 0x80 {
        s
    } else {
        header(0x80, s.len()) + s
    }
}

/// The frame of a list whose encoded items, one after the other, are
/// `payload`.
pub open spec fn rlp_list(payload: Seq<u8>) -> Seq<u8> {
    header(0xc0, payload.len()) + payload
}

/// The frame of a string or of a list.
pub open spec fn framed(list: bool, payload: Seq<u8>) -> Seq<u8> {
    if list {
        rlp_list(payload)
    } else {
        rlp_string(payload)
    }
}

/// An item found in a buffer: whether it is a list, where its frame starts,
/// and where its payload starts and ends. The frame ends where the payload
/// ends.
#[derive(Clone, Copy, Debug)]
pub struct Item {
    pub list: bool,
    pub from: usize,
    pub start: usize,
    pub end: usize,
}

/// The place of an item in a buffer.
pub struct Span {
    pub list: bool,
    pub from: int,
    pub start: int,
    pub end: int,
}

impl View for Item {
    type V = Span;

    open spec fn view(&self) -> Span {
        Span { list: self.list, from: self.from as int, start: self.start as int, end: self.end as int }
    }
}

/// The item that starts at `at`, if the bytes there are the frame of one and the buffer holds all of it. A frame that could
/// be shorter is none: a single byte below 0x80 behind a prefix, a long
/// prefix for a payload below 56 bytes, or digits that start with zero.
pub open spec fn item_at(buf: Seq<u8>, at: int) -> Option<Span> {
    if !(0 <= at < buf.len()) {
        None
    } else if buf[at] < 0x80 {
        Some(Span { list: false, from: at, start: at, end: at + 1 })
    } else {
        let list = buf[at] >= 0xc0;
        let base: int = if list {
            0xc0
        } else {
            0x80
        };
        let short = buf[at] - base;
        if short < 56 {
            if at + 1 + short > buf.len() {
                None
            } else if !list && short == 1 && buf[at + 1] < 0x80 {
                None
            } else {
                Some(Span { list, from: at, start: at + 1, end: at + 1 + short })
            }
        } else {
            let count = short - 55;
            if at + 1 + count > buf.len() {
                None
            } else {
                let digits = buf.subrange(at + 1, at + 1 + count);
                let len = be_value(digits);
                if digits[0] == 0 || len < 56 || at + 1 + count + len > buf.len() {
                    None
                } else {
                    Some(Span { list, from: at, start: at + 1 + count, end: at + 1 + count + len })
                }
            }
        }
    }
}

/// A frame has at least one byte.
pub proof fn lemma_frame_not_empty(list: bool, payload: Seq<u8>)
    ensures
        framed(list, payload).len() > 0,
{
}

/// The digits of a number spell the number.
pub proof fn lemma_be_round_trip(n: nat)
    ensures
        be_value(be_bytes(n)) == n,
        n > 0 ==> be_bytes(n).len() > 0 && be_bytes(n)[0] != 0,
    decreases n,
{
    if n > 0 {
        lemma_be_round_trip(n / 256);
        let d = be_bytes(n);
        assert(d.drop_last() =~= be_bytes(n / 256));
        if n / 256 > 0 {
            assert(d[0] == be_bytes(n / 256)[0]);
        }
    }
}

/// A number below 256 to the power `k` has at most `k` digits.
pub proof fn lemma_be_len(n: nat, k: nat)
    requires
        n < pow256(k),
    ensures
        be_bytes(n).len() <= k,
    decreases n,
{
    if n > 0 {
        assert(k > 0);
        assert(pow256(k) == 256 * pow256((k - 1) as nat));
        lemma_be_len(n / 256, (k - 1) as nat);
    }
}

/// 256 to the power `k`.
pub open spec fn pow256(k: nat) -> nat
    decreases k,
{
    if k == 0 {
        1
    } else {
        256 * pow256((k - 1) as nat)
    }
}

/// Digits spell a number below 256 to the power of their count, and one
/// that is no smaller than 256 times what any shorter start of them spells.
pub proof fn lemma_be_value_bounds(digits: Seq<u8>, k: int)
    requires
        0 <= k <= digits.len(),
    ensures
        be_value(digits) < pow256(digits.len()),
        k < digits.len() ==> be_value(digits) >= 256 * be_value(digits.take(k)),
        k == digits.len() ==> be_value(digits) == be_value(digits.take(k)),
    decreases digits.len(),
{
    if digits.len() > 0 {
        let front = digits.drop_last();
        if k < digits.len() {
            lemma_be_value_bounds(front, k);
            assert(front.take(k) =~= digits.take(k));
        } else {
            lemma_be_value_bounds(front, 0);
            assert(digits.take(k) =~= digits);
        }
        assert(pow256(digits.len()) == 256 * pow256(front.len()));
    } else {
        assert(digits.take(k) =~= digits);
    }
}

/// One more digit: what the longer start spells.
pub proof fn lemma_be_value_step(digits: Seq<u8>, k: int)
    requires
        0 <= k < digits.len(),
    ensures
        be_value(digits.take(k + 1)) == be_value(digits.take(k)) * 256 + digits[k] as nat,
{
    assert(digits.take(k + 1).drop_last() =~= digits.take(k));
}

/// The item at the front of a frame that is followed by anything is the
/// framed payload.
pub proof fn lemma_item_of_frame(list: bool, payload: Seq<u8>, rest: Seq<u8>)
    requires
        payload.len() < pow256(8),
    ensures
        ({
            let buf = framed(list, payload) + rest;
            let end = framed(list, payload).len() as int;
            let start = end - payload.len();
            &&& item_at(buf, 0) == Some(Span { list, from: 0, start, end })
            &&& buf.subrange(start, end) == payload
            &&& start >= 0
        }),
{
    let frame = framed(list, payload);
    let buf = frame + rest;
    let len = payload.len();
    if !list && len == 1 && payload[0] < 0x80 {
        assert(buf.subrange(0, 1) =~= payload);
    } else {
        let base: int = if list {
            0xc0
        } else {
            0x80
        };
        let head = header(base, len);
        assert(frame == head + payload);
        let h = head.len() as int;
        assert(buf.subrange(h, h + len) =~= payload);
        if len < 56 {
            assert(buf[0] == (base + len) as u8);
            if !list && len == 1 {
                assert(buf[1] == payload[0]);
            }
        } else {
            let digits = be_bytes(len);
            lemma_be_round_trip(len);
            lemma_be_len(len, 8);
            assert(buf[0] == (base + 55 + digits.len()) as u8);
            assert(buf.subrange(1, 1 + digits.len() as int) =~= digits);
        }
    }
}

/// The base-256 digits of `n`.
pub fn length_bytes(n: usize) -> (digits: Vec<u8>)
    ensures
        digits@ == be_bytes(n as nat),
    decreases n,
{
    if n == 0 {
        Vec::new()
    } else {
        let mut digits = length_bytes(n / 256);
        digits.push((n % 256) as u8);
        digits
    }
}

/// The frame of `payload`, as a string or as a list.
pub fn frame(list: bool, payload: &[u8]) -> (out: Vec<u8>)
    ensures
        out@ == framed(list, payload@),
{
    let len: usize = payload.len();
    if !list && len == 1 && payload[0] < 0x80 {
        let mut out: Vec<u8> = Vec::new();
        out.push(payload[0]);
        assert(out@ =~= payload@);
        return out;
    }
    let base: u8 = if list {
        0xc0
    } else {
        0x80
    };
    let mut out: Vec<u8> = Vec::new();
    if len < 56 {
        out.push(base + len as u8);
    } else {
        let digits = length_bytes(len);
        proof {
            lemma_usize_digits(len);
        }
        out.push(base + 55 + digits.len() as u8);
        out.extend_from_slice(digits.as_slice());
    }
    assert(out@ =~= header(base as int, len as nat));
    out.extend_from_slice(payload);
    out
}

/// A `usize` has at most eight digits.
pub proof fn lemma_usize_digits(n: usize)
    ensures
        be_bytes(n as nat).len() <= 8,
        (n as nat) < pow256(8),
{
    lemma_pow256_8();
    lemma_be_len(n as nat, 8);
}

/// 256 to the power 8 is 2 to the power 64.
pub proof fn lemma_pow256_8()
    ensures
        pow256(8) == 0x1_0000_0000_0000_0000,
{
    reveal_with_fuel(pow256, 9);
}

/// The frame of a byte string.
pub fn encode_string(s: &[u8]) -> (out: Vec<u8>)
    ensures
        out@ == rlp_string(s@),
{
    frame(false, s)
}

/// The frame of a list, given its encoded items one after the other.
pub fn encode_list(payload: &[u8]) -> (out: Vec<u8>)
    ensures
        out@ == rlp_list(payload@),
{
    frame(true, payload)
}

/// The item that starts at `at`.
#[verifier::loop_isolation(false)]
pub fn read_item(buf: &[u8], at: usize) -> (item: Option<Item>)
    ensures
        match item {
            Some(it) => item_at(buf@, at as int) == Some(it@),
            None => item_at(buf@, at as int) is None,
        },
{
    if at >= buf.len() {
        return None;
    }
    let first: u8 = buf[at];
    if first < 0x80 {
        return Some(Item { list: false, from: at, start: at, end: at + 1 });
    }
    let list: bool = first >= 0xc0;
    let base: u8 = if list {
        0xc0
    } else {
        0x80
    };
    let short: usize = (first - base) as usize;
    let room: usize = buf.len() - at - 1;
    if short < 56 {
        if short > room {
            return None;
        }
        if !list && short == 1 && buf[at + 1] < 0x80 {
            return None;
        }
        return Some(Item { list, from: at, start: at + 1, end: at + 1 + short });
    }
    let count: usize = short - 55;
    if count > room {
        return None;
    }
    let ghost digits = buf@.subrange(at + 1, at + 1 + count);
    if buf[at + 1] == 0 {
        return None;
    }
    let mut len: usize = 0;
    let mut k: usize = 0;
    while k < count
        invariant
            k <= count,
            1 <= count <= 8,
            at + 1 + count <= buf.len(),
            digits == buf@.subrange(at + 1, at + 1 + count),
            len == be_value(digits.take(k as int)),
            len <= buf.len(),
        decreases count - k,
    {
        let digit: usize = buf[at + 1 + k] as usize;
        proof {
            lemma_be_value_step(digits, k as int);
            lemma_be_value_bounds(digits, k + 1);
        }
        if digit > buf.len() || len > (buf.len() - digit) / 256 {
            assert(len * 256 + digit > buf.len());
            return None;
        }
        len = len * 256 + digit;
        k += 1;
    }
    proof {
        assert(digits.take(count as int) =~= digits);
    }
    if len < 56 || len > room - count {
        return None;
    }
    Some(Item { list, from: at, start: at + 1 + count, end: at + 1 + count + len })
}

} // verus!
