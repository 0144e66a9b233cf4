//! The log of the nodes that a query passed through, and what a query is.

use vstd::prelude::*;
use vstd::slice::slice_to_vec;
use crate::hasher::Digest;

verus! {

/// A node that a query passed through: the digest under which the store
/// keeps it, its encoding, and how many nodes were fetched before it.
#[derive(Debug)]
pub struct Record {
    pub depth: u32,
    pub data: Vec<u8>,
    pub hash: Digest,
}

/// What a record holds.
pub struct Visit {
    pub hash: Seq<u8>,
    pub data: Seq<u8>,
    pub depth: u32,
}

impl View for Record {
    type V = Visit;

    open spec fn view(&self) -> Visit {
        Visit { hash: self.hash@, data: self.data@, depth: self.depth }
    }
}

/// What a row of records holds.
pub open spec fn visits_of(records: Seq<Record>) -> Seq<Visit> {
    Seq::new(records.len(), |i: int| records[i]@)
}

/// The log after one more visit, under a limit: the visit is dropped where
/// the log is full.
pub open spec fn logged(log: Seq<Visit>, limit: nat, visit: Visit) -> Seq<Visit> {
    if log.len() < limit {
        log.push(visit)
    } else {
        log
    }
}

/// The log after a row of visits.
pub open spec fn logged_all(log: Seq<Visit>, limit: nat, visits: Seq<Visit>) -> Seq<Visit>
    decreases visits.len(),
{
    if visits.len() == 0 {
        log
    } else {
        logged(logged_all(log, limit, visits.drop_last()), limit, visits.last())
    }
}

/// What is asked of the trie: how the value found is handed out, and what
/// is done on each node on the way.
pub trait Query: Sized {
    /// What the query hands out.
    type Item;

    /// Whether `item` is what the query makes of the bytes of a value.
    spec fn decodes(&self, data: Seq<u8>, item: Self::Item) -> bool;

    /// Whether `after` is the query once it was told of `visit`.
    spec fn tells(&self, visit: Visit, after: Self) -> bool;

    /// What the query makes of the bytes of a value.
    fn decode(&self, data: &[u8]) -> (item: Self::Item)
        ensures
            self.decodes(data@, item),
    ;

    /// Tells the query of a node that was passed through.
    fn record(&mut self, hash: &Digest, data: &[u8], depth: u32)
        ensures
            old(self).tells(Visit { hash: hash@, data: data@, depth }, *final(self)),
    ;
}

/// Whether `after` is `query` once it was told of each of `visits` in turn.
pub open spec fn told_all<Q: Query>(query: Q, visits: Seq<Visit>, after: Q) -> bool
    decreases visits.len(),
{
    if visits.len() == 0 {
        after == query
    } else {
        exists|mid: Q|
            told_all(query, visits.drop_last(), mid) && #[trigger] mid.tells(visits.last(), after)
    }
}

/// A log of the nodes that queries passed through, oldest first. It holds
/// no more records than its limit; what comes after that is dropped.
pub struct Recorder {
    nodes: Vec<Record>,
    limit: usize,
}

impl Recorder {
    /// What the log holds.
    pub closed spec fn log(&self) -> Seq<Visit> {
        visits_of(self.nodes@)
    }

    /// How many records the log takes.
    pub closed spec fn limit(&self) -> nat {
        self.limit as nat
    }

    /// A log that takes as many records as fit.
    pub fn new() -> (recorder: Recorder)
        ensures
            recorder.log() == Seq::<Visit>::empty(),
            recorder.limit() == usize::MAX,
    {
        let recorder = Recorder { nodes: Vec::new(), limit: usize::MAX };
        assert(recorder.log() =~= Seq::<Visit>::empty());
        recorder
    }

    /// A log that takes `limit` records.
    pub fn with_limit(limit: usize) -> (recorder: Recorder)
        ensures
            recorder.log() == Seq::<Visit>::empty(),
            recorder.limit() == limit,
    {
        let recorder = Recorder { nodes: Vec::new(), limit };
        assert(recorder.log() =~= Seq::<Visit>::empty());
        recorder
    }

    /// How many records the log holds.
    pub fn len(&self) -> (n: usize)
        ensures
            n == self.log().len(),
    {
        self.nodes.len()
    }

    /// Adds a record, unless the log is full.
    pub fn record(&mut self, hash: &Digest, data: &[u8], depth: u32)
        ensures
            final(self).log() == logged(
                old(self).log(),
                old(self).limit(),
                Visit { hash: hash@, data: data@, depth },
            ),
            final(self).limit() == old(self).limit(),
    {
        if self.nodes.len() < self.limit {
            let ghost before = self.log();
            self.nodes.push(Record { depth, data: slice_to_vec(data), hash: *hash });
            assert(self.log() =~= before.push(Visit { hash: hash@, data: data@, depth }));
        }
    }

    /// Hands out the records and leaves the log empty.
    pub fn drain(&mut self) -> (records: Vec<Record>)
        ensures
            visits_of(records@) == old(self).log(),
            final(self).log() == Seq::<Visit>::empty(),
            final(self).limit() == old(self).limit(),
    {
        let mut records: Vec<Record> = Vec::new();
        core::mem::swap(&mut self.nodes, &mut records);
        assert(self.log() =~= Seq::<Visit>::empty());
        records
    }
}

impl Query for Recorder {
    type Item = Vec<u8>;

    open spec fn decodes(&self, data: Seq<u8>, item: Vec<u8>) -> bool {
        item@ == data
    }

    open spec fn tells(&self, visit: Visit, after: Recorder) -> bool {
        after.log() == logged(self.log(), self.limit(), visit) && after.limit() == self.limit()
    }

    fn decode(&self, data: &[u8]) -> (item: Vec<u8>) {
        slice_to_vec(data)
    }

    fn record(&mut self, hash: &Digest, data: &[u8], depth: u32) {
        Recorder::record(self, hash, data, depth)
    }
}

/// The query for the bytes of a value, with nothing done on the way.
#[derive(Debug, Clone, Copy, PartialEq, Eq, Structural)]
pub struct RawValue;

impl Query for RawValue {
    type Item = Vec<u8>;

    open spec fn decodes(&self, data: Seq<u8>, item: Vec<u8>) -> bool {
        item@ == data
    }

    open spec fn tells(&self, visit: Visit, after: RawValue) -> bool {
        true
    }

    fn decode(&self, data: &[u8]) -> (item: Vec<u8>) {
        slice_to_vec(data)
    }

    fn record(&mut self, hash: &Digest, data: &[u8], depth: u32) {
    }
}

/// The query that decodes a value with a function, with nothing done on
/// the way. The function takes any bytes.
#[verifier::reject_recursive_types(T)]
#[verifier::reject_recursive_types(F)]
pub struct Decoder<T, F: Fn(&[u8]) -> T> {
    decode: F,
    made: core::marker::PhantomData<T>,
}

impl<T, F: Fn(&[u8]) -> T> Decoder<T, F> {
    #[verifier::type_invariant]
    spec fn total(self) -> bool {
        forall|data: &[u8]| call_requires(self.decode, (data,))
    }

    /// Whether `item` is what the function can make of `data`.
    pub closed spec fn makes(&self, data: Seq<u8>, item: T) -> bool {
        exists|bytes: &[u8]| bytes@ == data && call_ensures(self.decode, (bytes,), item)
    }

    /// The query that decodes with `decode`.
    pub fn new(decode: F) -> (query: Decoder<T, F>)
        requires
            forall|data: &[u8]| call_requires(decode, (data,)),
        ensures
            forall|data: &[u8], item: T|
                call_ensures(decode, (data,), item) ==> #[trigger] query.makes(data@, item),
    {
        Decoder { decode, made: core::marker::PhantomData }
    }
}

impl<T, F: Fn(&[u8]) -> T> Query for Decoder<T, F> {
    type Item = T;

    open spec fn decodes(&self, data: Seq<u8>, item: T) -> bool {
        self.makes(data, item)
    }

    open spec fn tells(&self, visit: Visit, after: Decoder<T, F>) -> bool {
        forall|data: Seq<u8>, item: T| after.makes(data, item) == self.makes(data, item)
    }

    fn decode(&self, data: &[u8]) -> (item: T) {
        proof {
            use_type_invariant(self);
        }
        (self.decode)(data)
    }

    fn record(&mut self, hash: &Digest, data: &[u8], depth: u32) {
    }
}

/// The query that decodes a value with a function and logs the nodes on
/// the way in a recorder.
#[verifier::reject_recursive_types(T)]
#[verifier::reject_recursive_types(F)]
pub struct Recording<T, F: Fn(&[u8]) -> T> {
    recorder: Recorder,
    decoder: Decoder<T, F>,
}

impl<T, F: Fn(&[u8]) -> T> Recording<T, F> {
    /// What the recorder holds.
    pub closed spec fn log(&self) -> Seq<Visit> {
        self.recorder.log()
    }

    /// How many records the recorder takes.
    pub closed spec fn limit(&self) -> nat {
        self.recorder.limit()
    }

    /// Whether `item` is what the function can make of `data`.
    pub closed spec fn makes(&self, data: Seq<u8>, item: T) -> bool {
        self.decoder.makes(data, item)
    }

    /// The query that logs in `recorder` and decodes with `decode`.
    pub fn new(recorder: Recorder, decode: F) -> (query: Recording<T, F>)
        requires
            forall|data: &[u8]| call_requires(decode, (data,)),
        ensures
            query.log() == recorder.log(),
            query.limit() == recorder.limit(),
            forall|data: &[u8], item: T|
                call_ensures(decode, (data,), item) ==> #[trigger] query.makes(data@, item),
    {
        Recording { recorder, decoder: Decoder::new(decode) }
    }

    /// Hands the recorder back.
    pub fn into_recorder(self) -> (recorder: Recorder)
        ensures
            recorder.log() == self.log(),
            recorder.limit() == self.limit(),
    {
        self.recorder
    }
}

impl<T, F: Fn(&[u8]) -> T> Query for Recording<T, F> {
    type Item = T;

    open spec fn decodes(&self, data: Seq<u8>, item: T) -> bool {
        self.makes(data, item)
    }

    open spec fn tells(&self, visit: Visit, after: Recording<T, F>) -> bool {
        &&& after.log() == logged(self.log(), self.limit(), visit)
        &&& after.limit() == self.limit()
        &&& forall|data: Seq<u8>, item: T| after.makes(data, item) == self.makes(data, item)
    }

    fn decode(&self, data: &[u8]) -> (item: T) {
        self.decoder.decode(data)
    }

    fn record(&mut self, hash: &Digest, data: &[u8], depth: u32) {
        self.recorder.record(hash, data, depth)
    }
}

/// A recorder that was told of visits holds them, as far as its limit
/// allows.
pub proof fn law_recorder_told(before: Recorder, visits: Seq<Visit>, after: Recorder)
    requires
        told_all(before, visits, after),
    ensures
        after.log() == logged_all(before.log(), before.limit(), visits),
        after.limit() == before.limit(),
    decreases visits.len(),
{
    if visits.len() > 0 {
        let mid = choose|mid: Recorder|
            told_all(before, visits.drop_last(), mid) && #[trigger] mid.tells(visits.last(), after);
        law_recorder_told(before, visits.drop_last(), mid);
    }
}

} // verus!
