//! The store: embeddings filed under identifiers, and the search for the
//! entries most similar to a query.
//!
//! An embedding is a vector of 32-bit words, each the bit pattern of one
//! IEEE 754 binary32 component. The store neither reads nor checks the words;
//! it hands them to the similarity metric that the caller supplies and ranks
//! the scores that come back.

use crate::ident::uuid_value;
use crate::rank::{has_distinct_ids, lemma_top_k_properties, rank_top_k, top_k};
use crate::score::score_key;
use std::collections::HashMap;
use uuid::Uuid;
use vstd::prelude::*;

verus! {

/// A store of embeddings, each filed under the 128-bit value of a UUID.
pub struct Db {
    inner: HashMap<u128, Vec<u32>>,
}

impl View for Db {
    type V = Map<u128, Vec<u32>>;

    /// The embeddings held, by identifier value.
    closed spec fn view(&self) -> Map<u128, Vec<u32>> {
        self.inner@
    }
}

/// Whether `scored` lists every entry of `store` exactly once, by identifier
/// value, each with a score that `metric` returned for `query` and the
/// embedding filed under that identifier.
pub open spec fn is_scoring<F: Fn(&Vec<u32>, &Vec<u32>) -> u32>(
    store: Map<u128, Vec<u32>>,
    metric: F,
    query: &Vec<u32>,
    scored: Seq<(u128, u32)>,
) -> bool {
    &&& scored.len() == store.len()
    &&& forall|i: int, j: int|
        0 <= i < j < scored.len() ==> (#[trigger] scored[i]).0 != (#[trigger] scored[j]).0
    &&& forall|i: int|
        0 <= i < scored.len() ==> store.contains_key((#[trigger] scored[i]).0) && call_ensures(
            metric,
            (query, &store[scored[i].0]),
            scored[i].1,
        )
}

/// The results of a search as entries: each identifier by its value.
pub open spec fn entries_of(found: Seq<(Uuid, u32)>) -> Seq<(u128, u32)> {
    found.map_values(|e: (Uuid, u32)| (uuid_value(e.0), e.1))
}

/// Filing a second embedding under an identifier that already holds one
/// leaves the store as if only the second had been filed: one entry for that
/// identifier, holding the second embedding, and every other entry untouched.
pub proof fn lemma_insert_overwrites(
    store: Map<u128, Vec<u32>>,
    id: u128,
    first: Vec<u32>,
    second: Vec<u32>,
)
    ensures
        store.insert(id, first).insert(id, second) == store.insert(id, second),
        store.insert(id, first).insert(id, second)[id] == second,
        store.insert(id, first).insert(id, second).len() == store.insert(id, first).len(),
        store.insert(id, first).insert(id, second).dom() == store.dom().insert(id),
{
    assert(store.insert(id, first).insert(id, second) =~= store.insert(id, second));
    assert(store.insert(id, first).dom() =~= store.insert(id, second).dom());
}

impl Db {
    /// Creates an empty store.
    pub fn new() -> (db: Db)
        ensures
            db@ == Map::<u128, Vec<u32>>::empty(),
    {
        Db { inner: HashMap::new() }
    }

    /// Files `embedding` under `uuid`. An embedding already filed under that
    /// identifier is replaced; every other entry is left as it was.
    pub fn insert(&mut self, uuid: Uuid, embedding: Vec<u32>)
        ensures
            final(self)@ == old(self)@.insert(uuid_value(uuid), embedding),
    {
        broadcast use vstd::std_specs::hash::group_hash_axioms;

        let key: u128 = uuid.as_u128();
        self.inner.insert(key, embedding);
    }

    /// A store holds finitely many entries.
    pub proof fn lemma_finite(&self)
        ensures
            self@.dom().finite(),
    {
        broadcast use vstd::std_specs::hash::group_hash_axioms;

    }

    /// The number of entries.
    pub fn len(&self) -> (n: usize)
        ensures
            n == self@.len(),
    {
        broadcast use vstd::std_specs::hash::group_hash_axioms;

        self.inner.len()
    }

    /// The embedding filed under `uuid`, if there is one.
    pub fn get(&self, uuid: &Uuid) -> (found: Option<&Vec<u32>>)
        ensures
            match found {
                Some(embedding) => self@.contains_key(uuid_value(*uuid)) && *embedding
                    == self@[uuid_value(*uuid)],
                None => !self@.contains_key(uuid_value(*uuid)),
            },
    {
        broadcast use vstd::std_specs::hash::group_hash_axioms;

        let key: u128 = uuid.as_u128();
        self.inner.get(&key)
    }

    /// Scores every entry against `query` with `metric`.
    fn score_all<F: Fn(&Vec<u32>, &Vec<u32>) -> u32>(
        &self,
        query: &Vec<u32>,
        metric: &F,
    ) -> (scored: Vec<(u128, u32)>)
        requires
            forall|id: u128| #[trigger]
                self@.contains_key(id) ==> call_requires(*metric, (query, &self@[id])),
        ensures
            is_scoring(self@, *metric, query, scored@),
    {
        broadcast use vstd::std_specs::hash::group_hash_axioms;

        let mut scored: Vec<(u128, u32)> = Vec::new();
        for entry in it: self.inner.iter()
            invariant
                scored.len() == it.index(),
                it.seq().len() == self.inner@.dom().len(),
                it.seq().no_duplicates(),
                forall|i: int|
                    0 <= i < it.seq().len() ==> self.inner@.contains_key(*(#[trigger] it.seq()[i]).0)
                        && self.inner@[*it.seq()[i].0] == *it.seq()[i].1,
                self@ == self.inner@,
                forall|id: u128| #[trigger]
                    self@.contains_key(id) ==> call_requires(*metric, (query, &self@[id])),
                forall|i: int|
                    0 <= i < scored.len() ==> (#[trigger] scored[i]).0 == *it.seq()[i].0
                        && call_ensures(*metric, (query, it.seq()[i].1), scored[i].1),
        {
            let (key, embedding) = entry;
            let score: u32 = metric(query, embedding);
            scored.push((*key, score));
        }
        scored
    }

    /// Finds the `n` entries most similar to `query`.
    ///
    /// Every entry is scored by one call of `metric` on `query` and the
    /// entry's embedding. The entries are then ranked by descending score,
    /// entries whose scores tie by ascending identifier, and the first `n` of
    /// the ranking are returned, or all of them if the store holds fewer.
    pub fn trouver_les_plus_similaires<F: Fn(&Vec<u32>, &Vec<u32>) -> u32>(
        &self,
        query: &Vec<u32>,
        n: usize,
        metric: F,
    ) -> (found: Vec<(Uuid, u32)>)
        requires
            forall|id: u128| #[trigger]
                self@.contains_key(id) ==> call_requires(metric, (query, &self@[id])),
        ensures
            found.len() == if n <= self@.len() { n as nat } else { self@.len() },
            forall|i: int, j: int|
                0 <= i < j < found.len() ==> score_key((#[trigger] found[i]).1) >= score_key(
                    (#[trigger] found[j]).1,
                ),
            forall|i: int|
                0 <= i < found.len() ==> self@.contains_key(uuid_value((#[trigger] found[i]).0))
                    && call_ensures(
                    metric,
                    (query, &self@[uuid_value(found[i].0)]),
                    found[i].1,
                ),
            forall|i: int, j: int|
                0 <= i < j < found.len() ==> uuid_value((#[trigger] found[i]).0) != uuid_value(
                    (#[trigger] found[j]).0,
                ),
            exists|scored: Seq<(u128, u32)>|
                is_scoring(self@, metric, query, scored) && entries_of(found@) == top_k(
                    scored,
                    n as nat,
                ),
    {
        let scored = self.score_all(query, &metric);
        let best = rank_top_k(&scored, n);
        let mut found: Vec<(Uuid, u32)> = Vec::new();
        let mut i: usize = 0;
        while i < best.len()
            invariant
                i <= best.len(),
                found.len() == i,
                entries_of(found@) == best@.take(i as int),
            decreases best.len() - i,
        {
            let entry = best[i];
            found.push((Uuid::from_u128(entry.0), entry.1));
            i += 1;
            assert(entries_of(found@) =~= best@.take(i as int));
        }
        proof {
            assert(best@.take(i as int) =~= best@);
            lemma_top_k_properties(scored@, n as nat);
            assert(has_distinct_ids(scored@));
            assert forall|i: int, j: int| 0 <= i < j < found.len() implies score_key(
                (#[trigger] found[i]).1,
            ) >= score_key((#[trigger] found[j]).1) && uuid_value(found[i].0) != uuid_value(
                found[j].0,
            ) by {
                assert(entries_of(found@)[i] == best@[i]);
                assert(entries_of(found@)[j] == best@[j]);
            }
            assert forall|i: int| 0 <= i < found.len() implies self@.contains_key(
                uuid_value((#[trigger] found[i]).0),
            ) && call_ensures(metric, (query, &self@[uuid_value(found[i].0)]), found[i].1) by {
                assert(entries_of(found@)[i] == best@[i]);
                assert(scored@.contains(best@[i]));
                let p = choose|p: int| 0 <= p < scored@.len() && scored@[p] == best@[i];
                assert(self@.contains_key(scored@[p].0));
            }
        }
        found
    }
}

} // verus!
