//! The order of byte strings, and the entries of a row that come after a
//! bound.

use vstd::prelude::*;
use crate::nibble::bytes_of;
use crate::nibble::common_prefix;
use crate::nibble::common_prefix_len;
use crate::nibble::lemma_common_prefix;
use crate::nibble::lemma_common_prefix_unique;
use crate::nibble::nibbles_ok;

verus! {

/// Whether `a` comes before `b` in the order of byte strings: `a` is a
/// proper prefix of `b`, or is smaller where the two first differ.
pub open spec fn lex_less(a: Seq<u8>, b: Seq<u8>) -> bool {
    let c = common_prefix(a, b) as int;
    (c == a.len() && c < b.len()) || (c < a.len() && c < b.len() && a[c] < b[c])
}

/// Whether `a` comes before `b` in the order of byte strings.
pub fn less_than(a: &[u8], b: &[u8]) -> (less: bool)
    ensures
        less == lex_less(a@, b@),
{
    let c: usize = common_prefix_len(a, b);
    proof {
        lemma_common_prefix(a@, b@);
    }
    if c == a.len() {
        c < b.len()
    } else {
        c < b.len() && a[c] < b[c]
    }
}

/// The entries whose keys come after `bound`, in the order in which they
/// stand.
pub open spec fn above(all: Seq<(Seq<u8>, Seq<u8>)>, bound: Seq<u8>) -> Seq<(Seq<u8>, Seq<u8>)>
    decreases all.len(),
{
    if all.len() == 0 {
        Seq::empty()
    } else if lex_less(bound, all[0].0) {
        seq![all[0]] + above(all.skip(1), bound)
    } else {
        above(all.skip(1), bound)
    }
}

/// The first of a row of entries, if there is one.
pub open spec fn head(all: Seq<(Seq<u8>, Seq<u8>)>) -> Option<(Seq<u8>, Seq<u8>)> {
    if all.len() > 0 {
        Some(all[0])
    } else {
        None
    }
}

/// Each entry comes before every later one in the order of the keys.
pub open spec fn ascending(entries: Seq<(Seq<u8>, Seq<u8>)>) -> bool {
    forall|i: int, j: int|
        0 <= i < j < entries.len() ==> lex_less((#[trigger] entries[i]).0, (#[trigger] entries[j]).0)
}

/// A place up to which two strings agree, and at which the first ends
/// before the second or is smaller, shows the first to come before.
pub proof fn lemma_less_by(a: Seq<u8>, b: Seq<u8>, c: int)
    requires
        0 <= c <= a.len(),
        c <= b.len(),
        a.take(c) == b.take(c),
        (c == a.len() && c < b.len()) || (c < a.len() && c < b.len() && a[c] < b[c]),
    ensures
        lex_less(a, b),
{
    lemma_common_prefix_unique(a, b, c);
}

/// The order is transitive.
pub proof fn lemma_less_transitive(a: Seq<u8>, b: Seq<u8>, c: Seq<u8>)
    requires
        lex_less(a, b),
        lex_less(b, c),
    ensures
        lex_less(a, c),
{
    lemma_common_prefix(a, b);
    lemma_common_prefix(b, c);
    let m = common_prefix(a, b) as int;
    let n = common_prefix(b, c) as int;
    let k = if m < n {
        m
    } else {
        n
    };
    assert(a.take(k) =~= c.take(k)) by {
        assert forall|i: int| 0 <= i < k implies a.take(k)[i] == c.take(k)[i] by {
            assert(a.take(m)[i] == b.take(m)[i]);
            assert(b.take(n)[i] == c.take(n)[i]);
        }
    }
    if m < n {
        assert(b.take(n)[m] == c.take(n)[m]);
    } else if n < m {
        assert(a.take(m)[n] == b.take(m)[n]);
    }
    lemma_less_by(a, c, k);
}

/// A string comes before every longer string that starts with it.
pub proof fn lemma_prefix_is_less(pre: Seq<u8>, b: Seq<u8>)
    requires
        pre.is_prefix_of(b),
        pre.len() < b.len(),
    ensures
        lex_less(pre, b),
{
    let c = pre.len() as int;
    assert(pre.take(c) =~= b.take(c));
    lemma_less_by(pre, b, c);
}

/// Packing keeps the order: of two paths of half-bytes of even length, the
/// one that comes first packs into the key that comes first.
pub proof fn lemma_packed_less(a: Seq<u8>, b: Seq<u8>)
    requires
        nibbles_ok(a),
        nibbles_ok(b),
        a.len() % 2 == 0,
        b.len() % 2 == 0,
        lex_less(a, b),
    ensures
        lex_less(bytes_of(a), bytes_of(b)),
{
    lemma_common_prefix(a, b);
    let c = common_prefix(a, b) as int;
    let k = c / 2;
    let pa = bytes_of(a);
    let pb = bytes_of(b);
    assert(pa.take(k) =~= pb.take(k)) by {
        assert forall|i: int| 0 <= i < k implies pa.take(k)[i] == pb.take(k)[i] by {
            assert(a.take(c)[2 * i] == b.take(c)[2 * i]);
            assert(a.take(c)[2 * i + 1] == b.take(c)[2 * i + 1]);
        }
    }
    if c < a.len() {
        assert(a[2 * k] < 16 && a[2 * k + 1] < 16 && b[2 * k] < 16 && b[2 * k + 1] < 16);
        if c % 2 == 1 {
            assert(a.take(c)[2 * k] == b.take(c)[2 * k]);
        }
    }
    lemma_less_by(pa, pb, k);
}

/// The entries above a bound of two rows, one after the other, are those of
/// the first, then those of the second.
pub proof fn lemma_above_concat(a: Seq<(Seq<u8>, Seq<u8>)>, b: Seq<(Seq<u8>, Seq<u8>)>, bound: Seq<u8>)
    ensures
        above(a + b, bound) == above(a, bound) + above(b, bound),
    decreases a.len(),
{
    if a.len() == 0 {
        assert(a + b =~= b);
        assert(above(a, bound) + above(b, bound) =~= above(b, bound));
    } else {
        assert((a + b).skip(1) =~= a.skip(1) + b);
        lemma_above_concat(a.skip(1), b, bound);
        assert(above(a + b, bound) =~= above(a, bound) + above(b, bound));
    }
}

/// Where every key comes after the bound, all entries are above it; where
/// none does, none is.
pub proof fn lemma_above_all_or_none(all: Seq<(Seq<u8>, Seq<u8>)>, bound: Seq<u8>)
    ensures
        (forall|i: int| 0 <= i < all.len() ==> lex_less(bound, (#[trigger] all[i]).0)) ==> above(
            all,
            bound,
        ) == all,
        (forall|i: int| 0 <= i < all.len() ==> !lex_less(bound, (#[trigger] all[i]).0)) ==> above(
            all,
            bound,
        ) == Seq::<(Seq<u8>, Seq<u8>)>::empty(),
    decreases all.len(),
{
    if all.len() > 0 {
        let rest = all.skip(1);
        lemma_above_all_or_none(rest, bound);
        if forall|i: int| 0 <= i < all.len() ==> lex_less(bound, (#[trigger] all[i]).0) {
            assert forall|i: int| 0 <= i < rest.len() implies lex_less(
                bound,
                (#[trigger] rest[i]).0,
            ) by {
                assert(rest[i] == all[i + 1]);
            }
            assert(lex_less(bound, all[0].0));
            assert(seq![all[0]] + rest =~= all);
        }
        if forall|i: int| 0 <= i < all.len() ==> !lex_less(bound, (#[trigger] all[i]).0) {
            assert forall|i: int| 0 <= i < rest.len() implies !lex_less(
                bound,
                (#[trigger] rest[i]).0,
            ) by {
                assert(rest[i] == all[i + 1]);
            }
            assert(!lex_less(bound, all[0].0));
        }
    }
}

/// A row with one entry more in front holds what the row holds, and that
/// entry.
pub proof fn lemma_contains_cons(
    x: (Seq<u8>, Seq<u8>),
    s: Seq<(Seq<u8>, Seq<u8>)>,
    e: (Seq<u8>, Seq<u8>),
)
    ensures
        (seq![x] + s).contains(e) <==> x == e || s.contains(e),
{
    let all = seq![x] + s;
    if s.contains(e) {
        let i = choose|i: int| 0 <= i < s.len() && s[i] == e;
        assert(all[i + 1] == e);
    }
    if x == e {
        assert(all[0] == e);
    }
    if all.contains(e) {
        let i = choose|i: int| 0 <= i < all.len() && all[i] == e;
        if i > 0 {
            assert(s[i - 1] == e);
        }
    }
}

/// Seek: the entries above a bound are exactly the entries whose keys come
/// after it, and they stand in the order in which they stood.
pub proof fn law_above_exact(all: Seq<(Seq<u8>, Seq<u8>)>, bound: Seq<u8>)
    ensures
        forall|e: (Seq<u8>, Seq<u8>)|
            #[trigger] above(all, bound).contains(e) <==> all.contains(e) && lex_less(bound, e.0),
        ascending(all) ==> ascending(above(all, bound)),
    decreases all.len(),
{
    let found = above(all, bound);
    if all.len() > 0 {
        let rest = all.skip(1);
        law_above_exact(rest, bound);
        let later = above(rest, bound);
        assert(all =~= seq![all[0]] + rest);
        assert forall|e: (Seq<u8>, Seq<u8>)| #[trigger]
            found.contains(e) <==> all.contains(e) && lex_less(bound, e.0) by {
            lemma_contains_cons(all[0], rest, e);
            lemma_contains_cons(all[0], later, e);
            assert(later.contains(e) <==> rest.contains(e) && lex_less(bound, e.0));
        }
        if ascending(all) {
            assert forall|i: int, j: int| 0 <= i < j < rest.len() implies lex_less(
                (#[trigger] rest[i]).0,
                (#[trigger] rest[j]).0,
            ) by {
                assert(rest[i] == all[i + 1] && rest[j] == all[j + 1]);
            }
            assert forall|i: int, j: int| 0 <= i < j < found.len() implies lex_less(
                (#[trigger] found[i]).0,
                (#[trigger] found[j]).0,
            ) by {
                if lex_less(bound, all[0].0) {
                    if i == 0 {
                        assert(found[j] == later[j - 1]);
                        assert(later.contains(later[j - 1]));
                        assert(rest.contains(later[j - 1]));
                        let k = choose|k: int| 0 <= k < rest.len() && rest[k] == later[j - 1];
                        assert(all[k + 1] == later[j - 1]);
                    } else {
                        assert(found[i] == later[i - 1] && found[j] == later[j - 1]);
                    }
                }
            }
        }
    }
}

/// Step: among ascending entries, the entries above the first entry above a
/// bound are the entries above the bound without that first.
pub proof fn law_above_step(all: Seq<(Seq<u8>, Seq<u8>)>, bound: Seq<u8>)
    requires
        ascending(all),
        above(all, bound).len() > 0,
    ensures
        above(all, above(all, bound)[0].0) == above(all, bound).skip(1),
    decreases all.len(),
{
    let first = above(all, bound)[0];
    let rest = all.skip(1);
    assert forall|i: int, j: int| 0 <= i < j < rest.len() implies lex_less(
        (#[trigger] rest[i]).0,
        (#[trigger] rest[j]).0,
    ) by {
        assert(rest[i] == all[i + 1] && rest[j] == all[j + 1]);
    }
    if lex_less(bound, all[0].0) {
        assert(first == all[0]);
        lemma_common_prefix(first.0, first.0);
        assert forall|i: int| 0 <= i < rest.len() implies lex_less(
            first.0,
            (#[trigger] rest[i]).0,
        ) by {
            assert(rest[i] == all[i + 1]);
        }
        assert forall|i: int| 0 <= i < rest.len() implies lex_less(bound, (#[trigger] rest[i]).0) by {
            lemma_less_transitive(bound, first.0, rest[i].0);
        }
        lemma_above_all_or_none(rest, first.0);
        lemma_above_all_or_none(rest, bound);
        assert(above(all, bound).skip(1) =~= above(rest, bound));
    } else {
        law_above_step(rest, bound);
        law_above_exact(rest, bound);
        assert(above(rest, bound).contains(first));
        let k = choose|k: int| 0 <= k < rest.len() && rest[k] == first;
        assert(all[k + 1] == first);
        assert(lex_less(all[0].0, first.0));
        if lex_less(first.0, all[0].0) {
            lemma_less_transitive(first.0, all[0].0, first.0);
            lemma_common_prefix(first.0, first.0);
        }
    }
}

} // verus!
