//! The content-addressed store of node encodings: `MemoryDB` over Keccak-256,
//! with what its operations do to the entries it holds.

use vstd::prelude::*;
use hashdb::HashDB;
use keccak_hasher::KeccakHasher;
use memorydb::MemoryDB;
use crate::hasher::Digest;
use crate::hasher::digest_of;
use crate::hasher::keccak256;
use crate::hasher::hash_bytes;

verus! {

/// The store of this library: a `MemoryDB` keyed by Keccak-256. Verus does
/// not look inside; what it holds is `store_entries`.
#[verifier::external_body]
pub struct Store {
    db: MemoryDB<KeccakHasher>,
}

/// What a store holds: under each digest the bytes last written there and
/// the count of references to them. The count falls below one, and below
/// zero, where more was removed than inserted. The digests are those of
/// Keccak-256, thirty-two bytes each, so that `digest_of` is the digest
/// under which a byte string is kept.
pub uninterp spec fn store_entries(db: Store) -> Map<Seq<u8>, (Seq<u8>, int)>;

/// A store's entries before anything was written.
pub open spec fn no_entries() -> Map<Seq<u8>, (Seq<u8>, int)> {
    Map::empty()
}

/// The encoding of the empty node.
pub open spec fn null_node() -> Seq<u8> {
    seq![0x80u8]
}

/// The digest of the encoding of the empty node.
pub open spec fn null_digest() -> Seq<u8> {
    digest_of(null_node())
}

/// What a read of `key` gives: the encoding of the empty node under its
/// digest, whatever the entries; else the bytes of an entry with at least
/// one reference.
pub open spec fn stored(entries: Map<Seq<u8>, (Seq<u8>, int)>, key: Seq<u8>) -> Option<Seq<u8>> {
    if key == null_digest() {
        Some(null_node())
    } else if entries.dom().contains(key) && entries[key].1 > 0 {
        Some(entries[key].0)
    } else {
        None
    }
}

/// The entries after `value` was inserted: nothing changes for the encoding
/// of the empty node; else the entry under the digest of `value` gains a
/// reference, and takes `value` where it had none.
pub open spec fn inserted(entries: Map<Seq<u8>, (Seq<u8>, int)>, value: Seq<u8>) -> Map<
    Seq<u8>,
    (Seq<u8>, int),
> {
    let key = digest_of(value);
    if value == null_node() {
        entries
    } else if entries.dom().contains(key) {
        let bytes = if entries[key].1 <= 0 {
            value
        } else {
            entries[key].0
        };
        entries.insert(key, (bytes, entries[key].1 + 1))
    } else {
        entries.insert(key, (value, 1))
    }
}

/// The entries after a reference to `key` was removed: nothing changes for
/// the digest of the empty node; else the entry loses a reference, and an
/// entry without bytes and with the count -1 is made where there was none.
pub open spec fn removed(entries: Map<Seq<u8>, (Seq<u8>, int)>, key: Seq<u8>) -> Map<
    Seq<u8>,
    (Seq<u8>, int),
> {
    if key == null_digest() {
        entries
    } else if entries.dom().contains(key) {
        entries.insert(key, (entries[key].0, entries[key].1 - 1))
    } else {
        entries.insert(key, (Seq::empty(), -1))
    }
}

/// Whether `value` can be inserted: the count of its entry can still grow.
pub open spec fn can_insert(entries: Map<Seq<u8>, (Seq<u8>, int)>, value: Seq<u8>) -> bool {
    value != null_node() && entries.dom().contains(digest_of(value)) ==> entries[digest_of(
        value,
    )].1 < i32::MAX
}

/// Whether a reference to `key` can be removed: the count of its entry can
/// still fall.
pub open spec fn can_remove(entries: Map<Seq<u8>, (Seq<u8>, int)>, key: Seq<u8>) -> bool {
    key != null_digest() && entries.dom().contains(key) ==> entries[key].1 > i32::MIN
}

/// The entries after each of `values` was inserted, in order.
pub open spec fn inserted_all(entries: Map<Seq<u8>, (Seq<u8>, int)>, values: Seq<Seq<u8>>) -> Map<
    Seq<u8>,
    (Seq<u8>, int),
>
    decreases values.len(),
{
    if values.len() == 0 {
        entries
    } else {
        inserted(inserted_all(entries, values.drop_last()), values.last())
    }
}

/// Whether each of `values` can be inserted after those before it.
pub open spec fn can_insert_all(entries: Map<Seq<u8>, (Seq<u8>, int)>, values: Seq<Seq<u8>>) -> bool
    decreases values.len(),
{
    values.len() > 0 ==> can_insert_all(entries, values.drop_last()) && can_insert(
        inserted_all(entries, values.drop_last()),
        values.last(),
    )
}

/// The entries after a reference to each of `keys` was removed, in order.
pub open spec fn removed_all(entries: Map<Seq<u8>, (Seq<u8>, int)>, keys: Seq<Seq<u8>>) -> Map<
    Seq<u8>,
    (Seq<u8>, int),
>
    decreases keys.len(),
{
    if keys.len() == 0 {
        entries
    } else {
        removed(removed_all(entries, keys.drop_last()), keys.last())
    }
}

/// Whether a reference to each of `keys` can be removed after those before
/// it.
pub open spec fn can_remove_all(entries: Map<Seq<u8>, (Seq<u8>, int)>, keys: Seq<Seq<u8>>) -> bool
    decreases keys.len(),
{
    keys.len() > 0 ==> can_remove_all(entries, keys.drop_last()) && can_remove(
        removed_all(entries, keys.drop_last()),
        keys.last(),
    )
}

/// The digests of a row of byte strings.
pub open spec fn digests(values: Seq<Seq<u8>>) -> Seq<Seq<u8>> {
    Seq::new(values.len(), |i: int| digest_of(values[i]))
}

/// Calls `MemoryDB::new`, which makes a store without entries.
#[verifier::external_body]
pub(crate) fn store_new() -> (db: Store)
    ensures
        store_entries(db) == no_entries(),
{
    Store { db: MemoryDB::new() }
}

/// Calls `HashDB::get` of `MemoryDB`. It answers the digest of the empty
/// node with that node's encoding, and any other digest with a copy of the
/// bytes of its entry where the entry's count is above zero.
#[verifier::external_body]
pub(crate) fn store_get(db: &Store, key: &Digest) -> (bytes: Option<Vec<u8>>)
    ensures
        match bytes {
            Some(b) => stored(store_entries(*db), key@) == Some(b@),
            None => stored(store_entries(*db), key@) is None,
        },
{
    match db.db.get(&(*key).into()) {
        Some(value) => Some(value.to_vec()),
        None => None,
    }
}

/// Calls `HashDB::contains` of `MemoryDB`, which is true where `HashDB::get`
/// finds bytes.
#[verifier::external_body]
pub(crate) fn store_contains(db: &Store, key: &Digest) -> (found: bool)
    ensures
        found == stored(store_entries(*db), key@) is Some,
{
    db.db.contains(&(*key).into())
}

/// Calls `HashDB::insert` of `MemoryDB`. It hands back the Keccak-256 digest
/// of `value`. For the encoding of the empty node it changes nothing. Else
/// it adds one to the count of the entry under that digest, and writes
/// `value` there where the count was not above zero; where no entry was, it
/// makes one with `value` and the count one. The count is an `i32`, and the
/// addition must not overflow.
#[verifier::external_body]
pub(crate) fn store_insert(db: &mut Store, value: &[u8]) -> (key: Digest)
    requires
        can_insert(store_entries(*old(db)), value@),
    ensures
        key@ == keccak256(value@),
        store_entries(*final(db)) == inserted(store_entries(*old(db)), value@),
{
    db.db.insert(value).0
}

/// Calls `HashDB::remove` of `MemoryDB`. For the digest of the empty node it
/// changes nothing. Else it takes one from the count of the entry under
/// `key`; where no entry was, it makes one without bytes and with the count
/// -1. The count is an `i32`, and the subtraction must not overflow.
#[verifier::external_body]
pub(crate) fn store_remove(db: &mut Store, key: &Digest)
    requires
        can_remove(store_entries(*old(db)), key@),
    ensures
        store_entries(*final(db)) == removed(store_entries(*old(db)), key@),
{
    db.db.remove(&(*key).into())
}

/// The digest of the encoding of the empty node: the root of a trie
/// without entries.
pub fn hashed_null_node() -> (digest: Digest)
    ensures
        digest@ == null_digest(),
{
    let mut null: Vec<u8> = Vec::new();
    null.push(0x80u8);
    assert(null@ =~= null_node());
    hash_bytes(null.as_slice())
}

impl Store {
    /// A store without entries.
    pub fn new() -> (db: Store)
        ensures
            store_entries(db) == no_entries(),
    {
        store_new()
    }

    /// The bytes kept under `key`, if any.
    pub fn get(&self, key: &Digest) -> (bytes: Option<Vec<u8>>)
        ensures
            match bytes {
                Some(b) => stored(store_entries(*self), key@) == Some(b@),
                None => stored(store_entries(*self), key@) is None,
            },
    {
        store_get(self, key)
    }

    /// Whether bytes are kept under `key`.
    pub fn contains(&self, key: &Digest) -> (found: bool)
        ensures
            found == stored(store_entries(*self), key@) is Some,
    {
        store_contains(self, key)
    }

    /// Keeps `value` under its digest, with one more reference.
    pub fn insert(&mut self, value: &[u8]) -> (key: Digest)
        requires
            can_insert(store_entries(*old(self)), value@),
        ensures
            key@ == digest_of(value@),
            store_entries(*final(self)) == inserted(store_entries(*old(self)), value@),
    {
        store_insert(self, value)
    }

    /// Takes one reference from what is kept under `key`.
    pub fn remove(&mut self, key: &Digest)
        requires
            can_remove(store_entries(*old(self)), key@),
        ensures
            store_entries(*final(self)) == removed(store_entries(*old(self)), key@),
    {
        store_remove(self, key)
    }

    /// Keeps each of `values` under its digest, in order, and hands back the
    /// digests.
    pub fn insert_all(&mut self, values: &Vec<Vec<u8>>) -> (keys: Vec<Digest>)
        requires
            can_insert_all(store_entries(*old(self)), rows(values@)),
        ensures
            store_entries(*final(self)) == inserted_all(store_entries(*old(self)), rows(values@)),
            key_rows(keys@) == digests(rows(values@)),
    {
        let ghost all = rows(values@);
        let ghost start = store_entries(*self);
        let mut keys: Vec<Digest> = Vec::new();
        let mut i: usize = 0;
        assert(all.take(0) =~= Seq::<Seq<u8>>::empty());
        assert(all.take(values.len() as int) =~= all);
        while i < values.len()
            invariant
                i <= values.len(),
                all == rows(values@),
                can_insert_all(start, all),
                keys.len() == i,
                store_entries(*self) == inserted_all(start, all.take(i as int)),
                forall|k: int| 0 <= k < i ==> (#[trigger] keys@[k])@ == digest_of(all[k]),
            decreases values.len() - i,
        {
            proof {
                lemma_can_insert_front(start, all, i + 1);
                assert(all.take(i + 1).drop_last() =~= all.take(i as int));
                assert(all.take(i + 1).last() == values@[i as int]@);
            }
            let key = self.insert(values[i].as_slice());
            keys.push(key);
            i += 1;
        }
        assert(all.take(i as int) =~= all);
        assert(key_rows(keys@) =~= digests(all));
        keys
    }

    /// Takes one reference from what is kept under each of `keys`, in
    /// order.
    pub fn remove_all(&mut self, keys: &Vec<Digest>)
        requires
            can_remove_all(store_entries(*old(self)), key_rows(keys@)),
        ensures
            store_entries(*final(self)) == removed_all(
                store_entries(*old(self)),
                key_rows(keys@),
            ),
    {
        let ghost all = key_rows(keys@);
        let ghost start = store_entries(*self);
        let mut i: usize = 0;
        assert(all.take(0) =~= Seq::<Seq<u8>>::empty());
        while i < keys.len()
            invariant
                i <= keys.len(),
                all == key_rows(keys@),
                can_remove_all(start, all),
                store_entries(*self) == removed_all(start, all.take(i as int)),
            decreases keys.len() - i,
        {
            proof {
                lemma_can_remove_front(start, all, i + 1);
                assert(all.take(i + 1).drop_last() =~= all.take(i as int));
                assert(all.take(i + 1).last() == keys@[i as int]@);
            }
            self.remove(&keys[i]);
            i += 1;
        }
        assert(all.take(i as int) =~= all);
    }
}

/// The byte strings that a row of vectors holds.
pub open spec fn rows(v: Seq<Vec<u8>>) -> Seq<Seq<u8>> {
    Seq::new(v.len(), |i: int| v[i]@)
}

/// The digests that a row holds.
pub open spec fn key_rows(v: Seq<Digest>) -> Seq<Seq<u8>> {
    Seq::new(v.len(), |i: int| v[i]@)
}

/// Where all of `values` can be inserted, so can the first `n`.
pub proof fn lemma_can_insert_front(
    entries: Map<Seq<u8>, (Seq<u8>, int)>,
    values: Seq<Seq<u8>>,
    n: int,
)
    requires
        0 <= n <= values.len(),
        can_insert_all(entries, values),
    ensures
        can_insert_all(entries, values.take(n)),
    decreases values.len(),
{
    if n < values.len() {
        lemma_can_insert_front(entries, values.drop_last(), n);
        assert(values.drop_last().take(n) =~= values.take(n));
    } else {
        assert(values.take(n) =~= values);
    }
}

/// Where a reference to each of `keys` can be removed, so can one to each
/// of the first `n`.
pub proof fn lemma_can_remove_front(
    entries: Map<Seq<u8>, (Seq<u8>, int)>,
    keys: Seq<Seq<u8>>,
    n: int,
)
    requires
        0 <= n <= keys.len(),
        can_remove_all(entries, keys),
    ensures
        can_remove_all(entries, keys.take(n)),
    decreases keys.len(),
{
    if n < keys.len() {
        lemma_can_remove_front(entries, keys.drop_last(), n);
        assert(keys.drop_last().take(n) =~= keys.take(n));
    } else {
        assert(keys.take(n) =~= keys);
    }
}

/// Whether every count in the store lies between `-bound` and `bound`.
pub open spec fn bounded(entries: Map<Seq<u8>, (Seq<u8>, int)>, bound: int) -> bool {
    forall|key: Seq<u8>|
        entries.dom().contains(key) ==> -bound <= (#[trigger] entries[key]).1 <= bound
}

/// A row of insertions fits a store whose counts leave room for it, and
/// moves no count further than it is long.
pub proof fn lemma_insertions_fit(
    entries: Map<Seq<u8>, (Seq<u8>, int)>,
    values: Seq<Seq<u8>>,
    bound: int,
)
    requires
        bound >= 1,
        bounded(entries, bound),
        bound + values.len() <= i32::MAX,
    ensures
        can_insert_all(entries, values),
        bounded(inserted_all(entries, values), bound + values.len()),
    decreases values.len(),
{
    if values.len() > 0 {
        lemma_insertions_fit(entries, values.drop_last(), bound);
        let mid = inserted_all(entries, values.drop_last());
        let after = inserted(mid, values.last());
        assert forall|key: Seq<u8>| after.dom().contains(key) implies -(bound + values.len())
            <= (#[trigger] after[key]).1 <= bound + values.len() by {
            if mid.dom().contains(key) {
                assert(-(bound + values.len() - 1) <= mid[key].1 <= bound + values.len() - 1);
            }
        }
        if mid.dom().contains(digest_of(values.last())) {
            assert(mid[digest_of(values.last())].1 <= bound + values.len() - 1);
        }
    }
}

/// A row of removals fits a store whose counts leave room for it, and
/// moves no count further than it is long.
pub proof fn lemma_removals_fit(entries: Map<Seq<u8>, (Seq<u8>, int)>, keys: Seq<Seq<u8>>, bound: int)
    requires
        bound >= 1,
        bounded(entries, bound),
        bound + keys.len() <= i32::MAX,
    ensures
        can_remove_all(entries, keys),
        bounded(removed_all(entries, keys), bound + keys.len()),
    decreases keys.len(),
{
    if keys.len() > 0 {
        lemma_removals_fit(entries, keys.drop_last(), bound);
        let mid = removed_all(entries, keys.drop_last());
        let after = removed(mid, keys.last());
        assert forall|key: Seq<u8>| after.dom().contains(key) implies -(bound + keys.len())
            <= (#[trigger] after[key]).1 <= bound + keys.len() by {
            if mid.dom().contains(key) {
                assert(-(bound + keys.len() - 1) <= mid[key].1 <= bound + keys.len() - 1);
            }
        }
        if mid.dom().contains(keys.last()) {
            assert(mid[keys.last()].1 >= -(bound + keys.len() - 1));
        }
    }
}

} // verus!
