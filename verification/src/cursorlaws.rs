//! The walk to the next entry finds, in a tree that stands for a whole
//! tree in normal form, the first of the entries of the whole tree that
//! come after the bound.

use vstd::prelude::*;
use crate::cursor::first_from;
use crate::cursor::first_in;
use crate::cursor::next_in;
use crate::entries::own_pair;
use crate::entries::pairs;
use crate::entries::pairs_all;
use crate::error::TrieError;
use crate::listing::lemma_pairs_ascending;
use crate::nibble::common_prefix;
use crate::nibble::lemma_common_prefix;
use crate::nibble::lemma_common_prefix_unique;
use crate::order::above;
use crate::order::ascending;
use crate::order::head;
use crate::order::lemma_above_all_or_none;
use crate::order::lemma_above_concat;
use crate::order::lemma_less_by;
use crate::order::lemma_prefix_is_less;
use crate::order::lex_less;
use crate::reopen::lemma_reach_all;
use crate::reopen::reach;
use crate::roundtrip::encodable;
use crate::roundtrip::sealed;
use crate::shape::Shape;
use crate::standing::lemma_fetched_stands;
use crate::standing::stands_for;
use crate::triedb::entry_after;
use crate::unique::lemma_skip_concat;

verus! {

/// The entries below the children of a branch from the slot `from` up to
/// the slot `n`.
pub open spec fn pairs_between(children: Seq<Shape>, from: int, n: int, prefix: Seq<u8>) -> Seq<
    (Seq<u8>, Seq<u8>),
>
    decreases n,
{
    if n <= from || n > children.len() || from < 0 {
        Seq::empty()
    } else {
        pairs_between(children, from, n - 1, prefix) + pairs(
            children[n - 1],
            prefix.push((n - 1) as u8),
        )
    }
}

/// The entries below the first `n` children are those from the first slot
/// up to the slot `n`.
pub proof fn lemma_pairs_all_between(children: Seq<Shape>, n: int, prefix: Seq<u8>)
    requires
        0 <= n <= children.len(),
    ensures
        pairs_all(children, n, prefix) == pairs_between(children, 0, n, prefix),
    decreases n,
{
    if n > 0 {
        lemma_pairs_all_between(children, n - 1, prefix);
    }
}

/// The entries between two slots are those between the first and a slot in
/// the middle, then those between that and the second.
pub proof fn lemma_pairs_between_split(
    children: Seq<Shape>,
    from: int,
    mid: int,
    n: int,
    prefix: Seq<u8>,
)
    requires
        0 <= from <= mid <= n <= children.len(),
    ensures
        pairs_between(children, from, n, prefix) == pairs_between(children, from, mid, prefix)
            + pairs_between(children, mid, n, prefix),
    decreases n,
{
    if n > mid {
        lemma_pairs_between_split(children, from, mid, n - 1, prefix);
        let last = pairs(children[n - 1], prefix.push((n - 1) as u8));
        assert(pairs_between(children, from, n, prefix) =~= pairs_between(
            children,
            from,
            mid,
            prefix,
        ) + (pairs_between(children, mid, n - 1, prefix) + last));
    } else {
        assert(pairs_between(children, from, n, prefix) =~= pairs_between(
            children,
            from,
            mid,
            prefix,
        ) + pairs_between(children, mid, n, prefix));
    }
}

/// The entries from one slot on are those of that slot, then those from the
/// next slot on.
pub proof fn lemma_pairs_between_front(children: Seq<Shape>, from: int, n: int, prefix: Seq<u8>)
    requires
        0 <= from < n <= children.len(),
    ensures
        pairs_between(children, from, n, prefix) == pairs(
            children[from],
            prefix.push(from as u8),
        ) + pairs_between(children, from + 1, n, prefix),
{
    lemma_pairs_between_split(children, from, from + 1, n, prefix);
    reveal_with_fuel(pairs_between, 2);
    assert(pairs_between(children, from, from + 1, prefix) =~= pairs(
        children[from],
        prefix.push(from as u8),
    ));
}

/// The keys between two slots start with the place of the branch and go on
/// with a slot between the two.
pub proof fn lemma_pairs_between_keys(children: Seq<Shape>, from: int, n: int, prefix: Seq<u8>)
    requires
        0 <= from <= n <= children.len() <= 256,
        forall|i: int| 0 <= i < children.len() ==> (#[trigger] children[i]).canonical(),
    ensures
        forall|i: int|
            0 <= i < pairs_between(children, from, n, prefix).len() ==> {
                let key = (#[trigger] pairs_between(children, from, n, prefix)[i]).0;
                &&& prefix.is_prefix_of(key)
                &&& key.len() > prefix.len()
                &&& from <= key[prefix.len() as int] < n
            },
    decreases n,
{
    if n > from {
        lemma_pairs_between_keys(children, from, n - 1, prefix);
        let slot = (n - 1) as u8;
        let front = pairs_between(children, from, n - 1, prefix);
        let back = pairs(children[n - 1], prefix.push(slot));
        lemma_pairs_ascending(children[n - 1], prefix.push(slot));
        let all = pairs_between(children, from, n, prefix);
        assert forall|i: int| 0 <= i < all.len() implies {
            let key = (#[trigger] all[i]).0;
            &&& prefix.is_prefix_of(key)
            &&& key.len() > prefix.len()
            &&& from <= key[prefix.len() as int] < n
        } by {
            if i < front.len() {
                assert(all[i] == front[i]);
            } else {
                assert(all[i] == back[i - front.len()]);
                crate::listing::lemma_push_prefix(prefix, slot, back[i - front.len()].0);
            }
        }
    }
}

/// Two paths after a common start are in the order of what follows the
/// start.
pub proof fn lemma_less_shift(pre: Seq<u8>, a: Seq<u8>, b: Seq<u8>)
    ensures
        lex_less(pre + a, pre + b) <==> lex_less(a, b),
{
    lemma_common_prefix(a, b);
    let c = common_prefix(a, b) as int;
    let n = pre.len() as int;
    let left = (pre + a).take(n + c);
    let right = (pre + b).take(n + c);
    assert(left =~= right) by {
        assert forall|i: int| 0 <= i < n + c implies left[i] == right[i] by {
            if i >= n {
                assert(a.take(c)[i - n] == b.take(c)[i - n]);
            }
        }
    }
    if c < a.len() && c < b.len() {
        assert((pre + a)[n + c] == a[c]);
        assert((pre + b)[n + c] == b[c]);
    }
    lemma_common_prefix_unique(pre + a, pre + b, n + c);
}

/// The first entry: in a tree that stands for a whole tree in normal form,
/// the walk finds the first entry of the whole tree.
pub proof fn law_first_stands(
    entries: Map<Seq<u8>, (Seq<u8>, int)>,
    node: Shape,
    full: Shape,
    top: bool,
    prefix: Seq<u8>,
    room: nat,
    last: Seq<u8>,
)
    requires
        stands_for(entries, node, full, top),
        full.canonical(),
        encodable(full),
        reach(full) <= room,
    ensures
        first_in(entries, node, prefix, room, last) == Ok::<
            Option<(Seq<u8>, Seq<u8>)>,
            TrieError<Seq<u8>>,
        >(head(pairs(full, prefix))),
    decreases room, (if node is Hash {
        1int
    } else {
        0int
    }), node, 0int,
{
    match node {
        Shape::Hash { digest } => {
            lemma_fetched_stands(entries, digest, full, top);
            law_first_stands(entries, sealed(full), full, false, prefix, room, digest);
        },
        Shape::Extension { path, child } => {
            law_first_stands(
                entries,
                *child,
                *full->child,
                false,
                prefix + path,
                (room - path.len()) as nat,
                last,
            );
        },
        Shape::Branch { children, value } => {
            if value is None {
                let whole = full->children;
                assert forall|i: int| 0 <= i < 16 implies reach(#[trigger] whole[i]) <= room - 1 by {
                    lemma_reach_all(whole, 16, i);
                }
                law_first_from_stands(entries, children, whole, 0, prefix, (room - 1) as nat, last);
                lemma_pairs_all_between(whole, 16, prefix);
                assert(own_pair(prefix, value) + pairs_all(whole, 16, prefix) =~= pairs_all(
                    whole,
                    16,
                    prefix,
                ));
            }
        },
        _ => {},
    }
}

/// The first entry below the children of a branch from a slot on.
pub proof fn law_first_from_stands(
    entries: Map<Seq<u8>, (Seq<u8>, int)>,
    children: Seq<Shape>,
    whole: Seq<Shape>,
    from: int,
    prefix: Seq<u8>,
    room: nat,
    last: Seq<u8>,
)
    requires
        children.len() == 16,
        whole.len() == 16,
        0 <= from <= 16,
        forall|i: int|
            0 <= i < 16 ==> {
                &&& stands_for(entries, #[trigger] children[i], whole[i], false)
                &&& whole[i].canonical()
                &&& encodable(whole[i])
                &&& reach(whole[i]) <= room
            },
    ensures
        first_from(entries, children, from, prefix, room, last) == Ok::<
            Option<(Seq<u8>, Seq<u8>)>,
            TrieError<Seq<u8>>,
        >(head(pairs_between(whole, from, 16, prefix))),
    decreases room, 2int, children, 16 - from,
{
    if from < 16 {
        assert(stands_for(entries, children[from], whole[from], false));
        law_first_stands(
            entries,
            children[from],
            whole[from],
            false,
            prefix.push(from as u8),
            room,
            last,
        );
        lemma_pairs_between_front(whole, from, 16, prefix);
        law_first_from_stands(entries, children, whole, from + 1, prefix, room, last);
        let own = pairs(whole[from], prefix.push(from as u8));
        if own.len() == 0 {
            assert(own + pairs_between(whole, from + 1, 16, prefix) =~= pairs_between(
                whole,
                from + 1,
                16,
                prefix,
            ));
        }
    }
}

/// The next entry: in a tree that stands for a whole tree in normal form,
/// the walk finds the first of the entries of the whole tree whose paths
/// come after the bound.
pub proof fn law_next_stands(
    entries: Map<Seq<u8>, (Seq<u8>, int)>,
    node: Shape,
    full: Shape,
    top: bool,
    prefix: Seq<u8>,
    bound: Seq<u8>,
    room: nat,
    last: Seq<u8>,
)
    requires
        stands_for(entries, node, full, top),
        full.canonical(),
        encodable(full),
        reach(full) <= room,
    ensures
        next_in(entries, node, prefix, bound, room, last) == Ok::<
            Option<(Seq<u8>, Seq<u8>)>,
            TrieError<Seq<u8>>,
        >(head(above(pairs(full, prefix), prefix + bound))),
    decreases room, (if node is Hash {
        1int
    } else {
        0int
    }), node, 0int,
{
    let listed = pairs(full, prefix);
    let limit = prefix + bound;
    lemma_pairs_ascending(full, prefix);
    match node {
        Shape::Hash { digest } => {
            lemma_fetched_stands(entries, digest, full, top);
            law_next_stands(entries, sealed(full), full, false, prefix, bound, room, digest);
        },
        Shape::Leaf { path, value } => {
            lemma_less_shift(prefix, bound, path);
            reveal_with_fuel(above, 2);
            assert(listed.skip(1) =~= Seq::<(Seq<u8>, Seq<u8>)>::empty());
        },
        Shape::Extension { path, child } => {
            let below = *full->child;
            let deeper = (room - path.len()) as nat;
            if path.is_prefix_of(bound) {
                law_next_stands(
                    entries,
                    *child,
                    below,
                    false,
                    prefix + path,
                    bound.skip(path.len() as int),
                    deeper,
                    last,
                );
                assert((prefix + path) + bound.skip(path.len() as int) =~= limit) by {
                    assert(path =~= bound.subrange(0, path.len() as int));
                }
            } else {
                lemma_pairs_ascending(below, prefix + path);
                lemma_common_prefix(bound, path);
                let c = common_prefix(bound, path) as int;
                if lex_less(bound, path) {
                    law_first_stands(entries, *child, below, false, prefix + path, deeper, last);
                    assert forall|i: int| 0 <= i < listed.len() implies lex_less(
                        limit,
                        (#[trigger] listed[i]).0,
                    ) by {
                        lemma_tail(prefix, path, listed[i].0);
                        let tail = listed[i].0.skip(prefix.len() as int);
                        lemma_grows(bound, path, tail);
                        lemma_less_shift(prefix, bound, tail);
                    }
                    lemma_above_all_or_none(listed, limit);
                } else {
                    assert(c < bound.len() && c < path.len() && path[c] < bound[c]) by {
                        if c == path.len() {
                            assert(path.take(c) =~= path);
                            assert(bound.take(c) =~= bound.subrange(0, c));
                        }
                    }
                    assert forall|i: int| 0 <= i < listed.len() implies !lex_less(
                        limit,
                        (#[trigger] listed[i]).0,
                    ) by {
                        lemma_tail(prefix, path, listed[i].0);
                        let tail = listed[i].0.skip(prefix.len() as int);
                        lemma_less_shift(prefix, bound, tail);
                        assert(path =~= tail.subrange(0, path.len() as int));
                        assert(tail.take(c) =~= bound.take(c)) by {
                            assert forall|k: int| 0 <= k < c implies tail.take(c)[k] == bound.take(
                                c,
                            )[k] by {
                                assert(path[k] == tail.subrange(0, path.len() as int)[k]);
                                assert(bound.take(c)[k] == path.take(c)[k]);
                            }
                        }
                        assert(tail[c] == path[c]) by {
                            assert(path[c] == tail.subrange(0, path.len() as int)[c]);
                        }
                        lemma_less_by(tail, bound, c);
                        if lex_less(bound, tail) {
                            crate::order::lemma_less_transitive(bound, tail, bound);
                            lemma_common_prefix(bound, bound);
                        }
                    }
                    lemma_above_all_or_none(listed, limit);
                }
            }
        },
        Shape::Branch { children, value } => {
            let whole = full->children;
            let own = own_pair(prefix, value);
            let deeper = (room - 1) as nat;
            assert forall|i: int| 0 <= i < 16 implies reach(#[trigger] whole[i]) <= room - 1 by {
                lemma_reach_all(whole, 16, i);
            }
            lemma_pairs_all_between(whole, 16, prefix);
            assert(above(own, limit) =~= Seq::<(Seq<u8>, Seq<u8>)>::empty()) by {
                lemma_skip_concat(prefix, bound);
                if own.len() > 0 {
                    if bound.len() > 0 {
                        lemma_prefix_is_less(prefix, limit);
                        if lex_less(limit, prefix) {
                            crate::order::lemma_less_transitive(limit, prefix, limit);
                        }
                    } else {
                        assert(limit =~= prefix);
                    }
                    lemma_common_prefix(limit, limit);
                    assert(!lex_less(limit, own[0].0));
                    lemma_above_all_or_none(own, limit);
                }
            }
            lemma_above_concat(own, pairs_all(whole, 16, prefix), limit);
            assert(above(listed, limit) =~= above(pairs_between(whole, 0, 16, prefix), limit));
            if bound.len() == 0 {
                law_first_from_stands(entries, children, whole, 0, prefix, deeper, last);
                let all = pairs_between(whole, 0, 16, prefix);
                lemma_pairs_between_keys(whole, 0, 16, prefix);
                assert(limit =~= prefix);
                assert forall|i: int| 0 <= i < all.len() implies lex_less(
                    limit,
                    (#[trigger] all[i]).0,
                ) by {
                    lemma_prefix_is_less(prefix, all[i].0);
                }
                lemma_above_all_or_none(all, limit);
            } else if bound[0] >= 16 {
                let all = pairs_between(whole, 0, 16, prefix);
                lemma_pairs_between_keys(whole, 0, 16, prefix);
                assert forall|i: int| 0 <= i < all.len() implies !lex_less(
                    limit,
                    (#[trigger] all[i]).0,
                ) by {
                    lemma_slot_order(prefix, bound, all[i].0);
                }
                lemma_above_all_or_none(all, limit);
            } else {
                let b = bound[0] as int;
                let left = pairs_between(whole, 0, b, prefix);
                let mid = pairs(whole[b], prefix.push(bound[0]));
                let right = pairs_between(whole, b + 1, 16, prefix);
                lemma_pairs_between_split(whole, 0, b, 16, prefix);
                lemma_pairs_between_front(whole, b, 16, prefix);
                lemma_pairs_between_keys(whole, 0, b, prefix);
                lemma_pairs_between_keys(whole, b + 1, 16, prefix);
                assert forall|i: int| 0 <= i < left.len() implies !lex_less(
                    limit,
                    (#[trigger] left[i]).0,
                ) by {
                    lemma_slot_order(prefix, bound, left[i].0);
                }
                assert forall|i: int| 0 <= i < right.len() implies lex_less(
                    limit,
                    (#[trigger] right[i]).0,
                ) by {
                    lemma_slot_order(prefix, bound, right[i].0);
                }
                lemma_above_all_or_none(left, limit);
                lemma_above_all_or_none(right, limit);
                lemma_above_concat(left, mid + right, limit);
                lemma_above_concat(mid, right, limit);
                assert(above(pairs_between(whole, 0, 16, prefix), limit) =~= above(mid, limit)
                    + right);
                assert(stands_for(entries, children[b], whole[b], false));
                law_next_stands(
                    entries,
                    children[b],
                    whole[b],
                    false,
                    prefix.push(bound[0]),
                    bound.skip(1),
                    deeper,
                    last,
                );
                assert(prefix.push(bound[0]) + bound.skip(1) =~= limit);
                law_first_from_stands(entries, children, whole, b + 1, prefix, deeper, last);
            }
        },
        Shape::Empty => {},
    }
}

/// The rest of a key that is listed below an extension starts with the
/// path of the extension.
pub proof fn lemma_tail(prefix: Seq<u8>, path: Seq<u8>, key: Seq<u8>)
    requires
        (prefix + path).is_prefix_of(key),
    ensures
        prefix.is_prefix_of(key),
        path.is_prefix_of(key.skip(prefix.len() as int)),
        key == prefix + key.skip(prefix.len() as int),
{
    crate::shape::lemma_prefix_concat(prefix, path, key);
    assert(prefix =~= key.subrange(0, prefix.len() as int));
    assert(key =~= prefix + key.skip(prefix.len() as int));
}

/// What comes before a path comes before every path that starts with it.
pub proof fn lemma_grows(bound: Seq<u8>, path: Seq<u8>, tail: Seq<u8>)
    requires
        lex_less(bound, path),
        path.is_prefix_of(tail),
    ensures
        lex_less(bound, tail),
{
    lemma_common_prefix(bound, path);
    let c = common_prefix(bound, path) as int;
    assert(path =~= tail.subrange(0, path.len() as int));
    assert(bound.take(c) =~= tail.take(c)) by {
        assert forall|k: int| 0 <= k < c implies bound.take(c)[k] == tail.take(c)[k] by {
            assert(bound.take(c)[k] == path.take(c)[k]);
            assert(path[k] == tail.subrange(0, path.len() as int)[k]);
        }
    }
    if c < path.len() {
        assert(path[c] == tail.subrange(0, path.len() as int)[c]);
    }
    lemma_less_by(bound, tail, c);
}

/// A key below a slot of a branch stands to a bound that goes on from the
/// branch as its slot stands to the first nibble of the bound.
pub proof fn lemma_slot_order(prefix: Seq<u8>, bound: Seq<u8>, key: Seq<u8>)
    requires
        bound.len() > 0,
        prefix.is_prefix_of(key),
        key.len() > prefix.len(),
    ensures
        key[prefix.len() as int] < bound[0] ==> !lex_less(prefix + bound, key),
        key[prefix.len() as int] > bound[0] ==> lex_less(prefix + bound, key),
{
    let n = prefix.len() as int;
    let limit = prefix + bound;
    assert(prefix =~= key.subrange(0, n));
    assert(limit.take(n) =~= key.take(n)) by {
        assert forall|k: int| 0 <= k < n implies limit.take(n)[k] == key.take(n)[k] by {
            assert(prefix[k] == key.subrange(0, n)[k]);
        }
    }
    assert(limit[n] == bound[0]);
    if key[n] < bound[0] {
        lemma_less_by(key, limit, n);
        if lex_less(limit, key) {
            crate::order::lemma_less_transitive(limit, key, limit);
            lemma_common_prefix(limit, limit);
        }
    }
    if key[n] > bound[0] {
        lemma_less_by(limit, key, n);
    }
}

/// Iteration order: over a store in which the root held by its digest
/// stands for a whole tree in normal form, an iterator hands out next the
/// first entry of the tree where it stands before the first, and else the
/// first of the entries whose paths come after the path that it stands
/// after. The entries of the tree are listed in strictly ascending order of
/// their paths, each path that finds a value with that value.
pub proof fn law_iteration(
    entries: Map<Seq<u8>, (Seq<u8>, int)>,
    root: Seq<u8>,
    full: Shape,
    place: Option<Seq<u8>>,
)
    requires
        stands_for(entries, Shape::Hash { digest: root }, full, true),
        full.canonical(),
        encodable(full),
        reach(full) <= usize::MAX,
    ensures
        entry_after(entries, root, place) == Ok::<Option<(Seq<u8>, Seq<u8>)>, TrieError<Seq<u8>>>(
            head(
                match place {
                    None => pairs(full, Seq::empty()),
                    Some(bound) => above(pairs(full, Seq::empty()), bound),
                },
            ),
        ),
        ascending(pairs(full, Seq::empty())),
        forall|k: Seq<u8>, v: Seq<u8>|
            #![trigger pairs(full, Seq::empty()).contains((k, v))]
            pairs(full, Seq::empty()).contains((k, v)) <==> full.get(k) == Some(v),
{
    let top = Shape::Hash { digest: root };
    let empty = Seq::<u8>::empty();
    lemma_pairs_ascending(full, empty);
    assert forall|k: Seq<u8>, v: Seq<u8>|
        #![trigger pairs(full, empty).contains((k, v))]
        pairs(full, empty).contains((k, v)) <==> full.get(k) == Some(v) by {
        crate::listing::lemma_pairs_exact(full, empty, k, v);
        assert(k.skip(0) =~= k);
        assert(empty =~= k.subrange(0, 0));
    }
    match place {
        None => {
            law_first_stands(entries, top, full, true, empty, usize::MAX as nat, root);
        },
        Some(bound) => {
            law_next_stands(entries, top, full, true, empty, bound, usize::MAX as nat, root);
            assert(empty + bound =~= bound);
        },
    }
}

} // verus!
