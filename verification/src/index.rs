//! The inverted index: from a fingerprint hash to every location that
//! produced it.

use crate::assoc::{
    as_map, distinct_keys, has_key, lemma_entry, lemma_map_size, lemma_no_entries,
    lemma_push_entry, lemma_update_entry, place_of,
};
use crate::corpus::{
    lemma_occurrences_step, occurrences, repository_occurrences, repository_views, Corpus,
    Occurrence,
};
use crate::model::{location_views, Location, LocationView};
use std::collections::HashMap;
use vstd::prelude::*;

verus! {

/// The predicate "has this hash" on occurrences.
pub open spec fn has_hash(hash: u64) -> spec_fn(Occurrence) -> bool {
    |o: Occurrence| o.hash == hash
}

/// The locations of a sequence of occurrences, in order.
pub open spec fn occurrence_locations(occurrences: Seq<Occurrence>) -> Seq<LocationView> {
    Seq::new(occurrences.len(), |i: int| occurrences[i].location)
}

/// The locations of the occurrences that carry `hash`, in the order of the
/// occurrences.
pub open spec fn locations_with_hash(occurrences: Seq<Occurrence>, hash: u64) -> Seq<
    LocationView,
> {
    occurrence_locations(occurrences.filter(has_hash(hash)))
}

/// Whether some occurrence carries `hash`.
pub open spec fn hash_occurs(occurrences: Seq<Occurrence>, hash: u64) -> bool {
    exists|k: int| 0 <= k < occurrences.len() && (#[trigger] occurrences[k]).hash == hash
}

/// The index that a sequence of occurrences determines: its keys are the
/// hashes that occur, and each key maps to the locations that carry it.
pub open spec fn index_of(occurrences: Seq<Occurrence>) -> Map<u64, Seq<LocationView>> {
    Map::new(
        |hash: u64| hash_occurs(occurrences, hash),
        |hash: u64| locations_with_hash(occurrences, hash),
    )
}

/// What an index holds under `hash`: nothing where the hash is no key.
pub open spec fn postings_at(index: Map<u64, Seq<LocationView>>, hash: u64) -> Seq<LocationView> {
    if index.contains_key(hash) {
        index[hash]
    } else {
        Seq::empty()
    }
}

/// Every occurrence is found in the index under its hash.
pub proof fn lemma_index_complete(occurrences: Seq<Occurrence>, k: int)
    requires
        0 <= k < occurrences.len(),
    ensures
        index_of(occurrences).contains_key(occurrences[k].hash),
        index_of(occurrences)[occurrences[k].hash].contains(occurrences[k].location),
{
    let hash = occurrences[k].hash;
    let kept = occurrences.filter(has_hash(hash));
    occurrences.lemma_filter_contains(has_hash(hash), k);
    let j = choose|j: int| 0 <= j < kept.len() && kept[j] == occurrences[k];
    assert(occurrence_locations(kept)[j] == occurrences[k].location);
}

/// Every location in the index stands for an occurrence with the hash that
/// it is filed under.
pub proof fn lemma_index_sound(occurrences: Seq<Occurrence>, hash: u64, j: int)
    requires
        index_of(occurrences).contains_key(hash),
        0 <= j < index_of(occurrences)[hash].len(),
    ensures
        exists|k: int|
            0 <= k < occurrences.len() && (#[trigger] occurrences[k]).hash == hash
                && occurrences[k].location == index_of(occurrences)[hash][j],
{
    let kept = occurrences.filter(has_hash(hash));
    occurrences.lemma_filter_pred(has_hash(hash), j);
    assert(kept.contains(kept[j]));
    occurrences.lemma_filter_contains_rev(has_hash(hash), kept[j]);
    let k = choose|k: int| 0 <= k < occurrences.len() && occurrences[k] == kept[j];
    assert(occurrences[k].hash == hash && occurrences[k].location == index_of(
        occurrences,
    )[hash][j]);
}

/// A hash that does not occur has no locations.
pub proof fn lemma_absent_hash(occurrences: Seq<Occurrence>, hash: u64)
    requires
        !hash_occurs(occurrences, hash),
    ensures
        locations_with_hash(occurrences, hash) == Seq::<LocationView>::empty(),
{
    let kept = occurrences.filter(has_hash(hash));
    if kept.len() > 0 {
        occurrences.lemma_filter_pred(has_hash(hash), 0);
        assert(kept.contains(kept[0]));
        occurrences.lemma_filter_contains_rev(has_hash(hash), kept[0]);
        let k = choose|k: int| 0 <= k < occurrences.len() && occurrences[k] == kept[0];
        assert(occurrences[k].hash == hash);
    }
    assert(locations_with_hash(occurrences, hash) =~= Seq::<LocationView>::empty());
}

/// One more occurrence adds its location behind the others under its hash
/// and changes nothing else.
pub proof fn lemma_index_push(occurrences: Seq<Occurrence>, next: Occurrence)
    ensures
        index_of(occurrences.push(next)) == index_of(occurrences).insert(
            next.hash,
            postings_at(index_of(occurrences), next.hash).push(next.location),
        ),
{
    let before = index_of(occurrences);
    let after = index_of(occurrences.push(next));
    let expected = before.insert(next.hash, postings_at(before, next.hash).push(next.location));
    let longer = occurrences.push(next);
    assert forall|hash: u64| after.contains_key(hash) <==> expected.contains_key(hash) by {
        if hash_occurs(longer, hash) {
            let k = choose|k: int| 0 <= k < longer.len() && (#[trigger] longer[k]).hash == hash;
            if k < occurrences.len() {
                assert(occurrences[k].hash == hash);
            }
        }
        if hash_occurs(occurrences, hash) {
            let k = choose|k: int|
                0 <= k < occurrences.len() && (#[trigger] occurrences[k]).hash == hash;
            assert(longer[k].hash == hash);
        }
        if hash == next.hash {
            assert(longer[occurrences.len() as int].hash == hash);
        }
    }
    assert forall|hash: u64| after.contains_key(hash) implies after[hash] == expected[hash] by {
        occurrences.lemma_filter_push(next, has_hash(hash));
        if hash == next.hash {
            if !hash_occurs(occurrences, hash) {
                lemma_absent_hash(occurrences, hash);
            }
            assert(locations_with_hash(longer, hash) =~= locations_with_hash(
                occurrences,
                hash,
            ).push(next.location));
        }
    }
    assert(after =~= expected);
}

/// The locations filed under one hash.
pub struct Posting {
    pub hash: u64,
    pub locations: Vec<Location>,
}

/// The postings as pairs of a hash and the views of its locations.
pub open spec fn posting_views(postings: Seq<Posting>) -> Seq<(u64, Seq<LocationView>)> {
    Seq::new(postings.len(), |i: int| (postings[i].hash, location_views(postings[i].locations@)))
}

/// No hash has two postings, and no posting is empty.
pub open spec fn postings_wf(postings: Seq<(u64, Seq<LocationView>)>) -> bool {
    &&& distinct_keys(postings)
    &&& forall|i: int| 0 <= i < postings.len() ==> (#[trigger] postings[i]).1.len() > 0
}

/// The postings after one more location: it comes behind the locations of
/// `hash`, in a new last posting where `hash` had none.
pub open spec fn with_location(
    postings: Seq<(u64, Seq<LocationView>)>,
    hash: u64,
    location: LocationView,
) -> Seq<(u64, Seq<LocationView>)> {
    if has_key(postings, hash) {
        let i = place_of(postings, hash);
        postings.update(i, (hash, postings[i].1.push(location)))
    } else {
        postings.push((hash, seq![location]))
    }
}

/// The inverted index. The postings are kept in the order in which their
/// hashes were first inserted; a hash map finds the posting of a hash.
pub struct InvertedIndex {
    slots: HashMap<u64, usize>,
    postings: Vec<Posting>,
}

impl View for InvertedIndex {
    type V = Map<u64, Seq<LocationView>>;

    open spec fn view(&self) -> Map<u64, Seq<LocationView>> {
        as_map(self.entries())
    }
}

impl InvertedIndex {
    /// The postings in the order in which their hashes were first inserted.
    pub closed spec fn entries(&self) -> Seq<(u64, Seq<LocationView>)> {
        posting_views(self.postings@)
    }

    /// The hash map names, for every hash, the place of its posting.
    pub closed spec fn slots_agree(&self) -> bool {
        &&& forall|hash: u64| #[trigger]
            self.slots@.contains_key(hash) <==> has_key(self.entries(), hash)
        &&& forall|i: int|
            0 <= i < self.postings@.len() ==> self.slots@[(#[trigger] self.postings@[i]).hash]
                == i
    }

    /// The invariant of an index.
    pub open spec fn wf(&self) -> bool {
        &&& postings_wf(self.entries())
        &&& self.slots_agree()
    }

    /// The index without entries.
    pub fn new() -> (index: InvertedIndex)
        ensures
            index.wf(),
            index.entries() == Seq::<(u64, Seq<LocationView>)>::empty(),
            index@ == Map::<u64, Seq<LocationView>>::empty(),
    {
        let index = InvertedIndex { slots: HashMap::new(), postings: Vec::new() };
        proof {
            assert(index.entries() =~= Seq::<(u64, Seq<LocationView>)>::empty());
            lemma_no_entries::<u64, Seq<LocationView>>();
        }
        index
    }

    /// The number of distinct hashes.
    pub fn len(&self) -> (n: usize)
        requires
            self.wf(),
        ensures
            n == self.entries().len(),
            n == self@.len(),
    {
        proof {
            lemma_map_size(self.entries());
        }
        self.postings.len()
    }

    /// The postings in the order in which their hashes were first inserted.
    pub fn postings(&self) -> (postings: &Vec<Posting>)
        ensures
            posting_views(postings@) == self.entries(),
    {
        &self.postings
    }

    /// The locations filed under `hash`, if it is a key.
    pub fn get(&self, hash: u64) -> (found: Option<&Vec<Location>>)
        requires
            self.wf(),
        ensures
            match found {
                Some(locations) => self@.contains_key(hash) && self@[hash] == location_views(
                    locations@,
                ),
                None => !self@.contains_key(hash),
            },
    {
        broadcast use vstd::std_specs::hash::group_hash_axioms;

        match self.slots.get(&hash) {
            Some(slot) => {
                let i: usize = *slot;
                proof {
                    let at = place_of(self.entries(), hash);
                    assert(self.postings@[at].hash == hash);
                    lemma_entry(self.entries(), at);
                }
                Some(&self.postings[i].locations)
            },
            None => None,
        }
    }

    /// Files `location` under `hash`, behind the locations already there.
    pub fn insert(&mut self, hash: u64, location: Location)
        requires
            old(self).wf(),
        ensures
            final(self).wf(),
            final(self).entries() == with_location(old(self).entries(), hash, location@),
            final(self)@ == old(self)@.insert(
                hash,
                postings_at(old(self)@, hash).push(location@),
            ),
    {
        broadcast use vstd::std_specs::hash::group_hash_axioms;

        let ghost before = self.entries();
        let ghost stored = self.postings@;
        let ghost added = location@;
        let found: Option<usize> = match self.slots.get(&hash) {
            Some(slot) => Some(*slot),
            None => None,
        };
        match found {
            Some(i) => {
                proof {
                    let at = place_of(before, hash);
                    assert(self.postings@[at].hash == hash);
                    lemma_entry(before, at);
                }
                self.postings[i].locations.push(location);
                proof {
                    assert(location_views(self.postings@[i as int].locations@) =~= location_views(
                        stored[i as int].locations@,
                    ).push(added));
                    assert forall|k: int| 0 <= k < stored.len() implies (
                    #[trigger] self.postings@[k]).hash == stored[k].hash by {}
                    assert(self.entries() =~= before.update(
                        i as int,
                        (hash, before[i as int].1.push(added)),
                    ));
                    lemma_update_entry(before, i as int, before[i as int].1.push(added));
                }
            },
            None => {
                let slot: usize = self.postings.len();
                let mut locations: Vec<Location> = Vec::new();
                locations.push(location);
                self.postings.push(Posting { hash, locations });
                self.slots.insert(hash, slot);
                proof {
                    assert(location_views(seq![location]) =~= seq![added]);
                    assert(Seq::<LocationView>::empty().push(added) =~= seq![added]);
                    assert(self.entries() =~= before.push((hash, seq![added])));
                    lemma_push_entry(before, hash, seq![added]);
                    assert forall|i: int| 0 <= i < self.postings@.len() implies self.slots@[(
                    #[trigger] self.postings@[i]).hash] == i by {
                        if i < stored.len() {
                            assert(self.postings@[i] == stored[i]);
                            assert(before[i].0 == stored[i].hash);
                            assert(has_key(before, stored[i].hash));
                        }
                    }
                }
            },
        }
    }
}

/// Builds the inverted index of a corpus: one insertion per fingerprint,
/// repository after repository.
pub fn build_index(corpus: &Corpus) -> (index: InvertedIndex)
    ensures
        index.wf(),
        index@ == index_of(occurrences(corpus@)),
        forall|k: int|
            0 <= k < occurrences(corpus@).len() ==> index@.contains_key(
                (#[trigger] occurrences(corpus@)[k]).hash,
            ) && index@[occurrences(corpus@)[k].hash].contains(occurrences(corpus@)[k].location),
        forall|hash: u64, j: int|
            index@.contains_key(hash) && 0 <= j < index@[hash].len() ==> exists|k: int|
                0 <= k < occurrences(corpus@).len() && (#[trigger] occurrences(corpus@)[k]).hash
                    == hash && occurrences(corpus@)[k].location == #[trigger] index@[hash][j],
{
    let repositories = corpus.repositories();
    let mut index = InvertedIndex::new();
    let mut r: usize = 0;
    assert(occurrences(corpus@.take(0)) =~= Seq::<Occurrence>::empty());
    assert(index_of(Seq::<Occurrence>::empty()) =~= Map::<u64, Seq<LocationView>>::empty());
    while r < repositories.len()
        invariant
            r <= repositories.len(),
            repository_views(repositories@) == corpus@,
            index.wf(),
            index@ == index_of(occurrences(corpus@.take(r as int))),
        decreases repositories.len() - r,
    {
        let repository = &repositories[r];
        let ghost done = occurrences(corpus@.take(r as int));
        let ghost here = repository_occurrences(corpus@[r as int]);
        let mut f: usize = 0;
        assert(done + here.take(0) =~= done);
        while f < repository.fingerprints.len()
            invariant
                f <= repository.fingerprints.len(),
                r < repositories.len(),
                repository_views(repositories@) == corpus@,
                repository == repositories@[r as int],
                done == occurrences(corpus@.take(r as int)),
                here == repository_occurrences(corpus@[r as int]),
                index.wf(),
                index@ == index_of(done + here.take(f as int)),
            decreases repository.fingerprints.len() - f,
        {
            let fingerprint = &repository.fingerprints[f];
            assert(corpus@[r as int] == repository@);
            assert(here[f as int].hash == fingerprint.hash);
            assert(here[f as int].location == fingerprint.location@);
            index.insert(fingerprint.hash, fingerprint.location.clone());
            proof {
                lemma_index_push(done + here.take(f as int), here[f as int]);
                assert((done + here.take(f as int)).push(here[f as int]) =~= done + here.take(
                    f + 1,
                ));
            }
            f += 1;
        }
        proof {
            assert(corpus@[r as int] == repository@);
            assert(here.take(f as int) =~= here);
            lemma_occurrences_step(corpus@, r as int);
        }
        r += 1;
    }
    proof {
        assert(corpus@.take(r as int) =~= corpus@);
        let all = occurrences(corpus@);
        assert forall|k: int| 0 <= k < all.len() implies index@.contains_key(
            (#[trigger] all[k]).hash,
        ) && index@[all[k].hash].contains(all[k].location) by {
            lemma_index_complete(all, k);
        }
        assert forall|hash: u64, j: int|
            index@.contains_key(hash) && 0 <= j < index@[hash].len() implies exists|k: int|
            0 <= k < all.len() && (#[trigger] all[k]).hash == hash && all[k].location
                == #[trigger] index@[hash][j] by {
            lemma_index_sound(all, hash, j);
        }
    }
    index
}

} // verus!
