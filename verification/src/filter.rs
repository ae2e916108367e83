//! The match filter: which fingerprint occurrences are worth matching.
//!
//! The popularity of an occurrence is the number of locations that the index
//! holds under its hash and that name the repository under which the
//! occurrence is filed. An occurrence is kept where its popularity is above
//! zero and below the upper bound.

use crate::corpus::{
    lemma_occurrences_prefix, lemma_occurrences_step, occurrences, repository_occurrences,
    repository_views, Corpus, Occurrence,
};
use crate::index::{occurrence_locations, postings_at, InvertedIndex};
use crate::matches::{matched_at, pair_count, MatchMap};
use crate::model::{document_of, location_views, DocumentView, Location, LocationView};
use vstd::pervasive::unreached;
use vstd::prelude::*;

verus! {

/// The predicate "names this repository" on locations.
pub open spec fn in_repository(repo: Seq<char>) -> spec_fn(LocationView) -> bool {
    |location: LocationView| location.repo == repo
}

/// How many of `locations` name the repository `repo`.
pub open spec fn popularity(locations: Seq<LocationView>, repo: Seq<char>) -> nat {
    locations.filter(in_repository(repo)).len()
}

/// The popularity rule: above zero and below the upper bound.
pub open spec fn interesting(popularity: nat, upper_bound: nat) -> bool {
    0 < popularity < upper_bound
}

/// The popularity of an occurrence with respect to an index.
pub open spec fn occurrence_popularity(
    index: Map<u64, Seq<LocationView>>,
    occurrence: Occurrence,
) -> nat {
    popularity(postings_at(index, occurrence.hash), occurrence.repo)
}

/// The predicate "is kept by the filter" on occurrences.
pub open spec fn kept_by(index: Map<u64, Seq<LocationView>>, upper_bound: nat) -> spec_fn(
    Occurrence,
) -> bool {
    |occurrence: Occurrence| interesting(occurrence_popularity(index, occurrence), upper_bound)
}

/// The occurrences that the filter keeps, in order.
pub open spec fn kept_occurrences(
    occurrences: Seq<Occurrence>,
    index: Map<u64, Seq<LocationView>>,
    upper_bound: nat,
) -> Seq<Occurrence> {
    occurrences.filter(kept_by(index, upper_bound))
}

/// The predicate "was taken at this location" on occurrences.
pub open spec fn at_location(location: LocationView) -> spec_fn(Occurrence) -> bool {
    |occurrence: Occurrence| occurrence.location == location
}

/// Whether some occurrence was taken at `location`.
pub open spec fn location_occurs(occurrences: Seq<Occurrence>, location: LocationView) -> bool {
    exists|k: int|
        0 <= k < occurrences.len() && (#[trigger] occurrences[k]).location == location
}

/// The match map in which every kept occurrence matches itself: its keys are
/// the locations of the kept occurrences, and a location maps to itself,
/// once for each kept occurrence taken there.
pub open spec fn self_matches(kept: Seq<Occurrence>) -> Map<LocationView, Seq<LocationView>> {
    Map::new(
        |location: LocationView| location_occurs(kept, location),
        |location: LocationView| occurrence_locations(kept.filter(at_location(location))),
    )
}

/// The predicate "matches itself from `source` to `target`" on occurrences.
/// No occurrence does unless the two documents are the same.
pub open spec fn joins(source: DocumentView, target: DocumentView) -> spec_fn(Occurrence) -> bool {
    |occurrence: Occurrence|
        document_of(occurrence.location) == source && document_of(occurrence.location) == target
}

/// The number of kept occurrences whose self-match leads from `source` to
/// `target`.
pub open spec fn self_match_count(
    kept: Seq<Occurrence>,
    source: DocumentView,
    target: DocumentView,
) -> nat {
    kept.filter(joins(source, target)).len()
}

/// Every hash of the occurrences is a key of the index.
pub open spec fn covers(index: Map<u64, Seq<LocationView>>, occurrences: Seq<Occurrence>) -> bool {
    forall|k: int|
        0 <= k < occurrences.len() ==> index.contains_key((#[trigger] occurrences[k]).hash)
}

/// A location at which no kept occurrence was taken matches nothing.
proof fn lemma_absent_location(kept: Seq<Occurrence>, location: LocationView)
    requires
        !location_occurs(kept, location),
    ensures
        kept.filter(at_location(location)).len() == 0,
{
    let found = kept.filter(at_location(location));
    if found.len() > 0 {
        kept.lemma_filter_pred(at_location(location), 0);
        assert(found.contains(found[0]));
        kept.lemma_filter_contains_rev(at_location(location), found[0]);
        let k = choose|k: int| 0 <= k < kept.len() && kept[k] == found[0];
        assert(kept[k].location == location);
    }
}

/// One more kept occurrence puts its location behind the matches of that
/// location and changes nothing else.
pub proof fn lemma_self_matches_push(kept: Seq<Occurrence>, next: Occurrence)
    ensures
        self_matches(kept.push(next)) == self_matches(kept).insert(
            next.location,
            matched_at(self_matches(kept), next.location).push(next.location),
        ),
{
    let before = self_matches(kept);
    let longer = kept.push(next);
    let after = self_matches(longer);
    let expected = before.insert(
        next.location,
        matched_at(before, next.location).push(next.location),
    );
    assert forall|location: LocationView|
        after.contains_key(location) <==> expected.contains_key(location) by {
        if location_occurs(longer, location) {
            let k = choose|k: int|
                0 <= k < longer.len() && (#[trigger] longer[k]).location == location;
            if k < kept.len() {
                assert(kept[k].location == location);
            }
        }
        if location_occurs(kept, location) {
            let k = choose|k: int|
                0 <= k < kept.len() && (#[trigger] kept[k]).location == location;
            assert(longer[k].location == location);
        }
        if location == next.location {
            assert(longer[kept.len() as int].location == location);
        }
    }
    assert forall|location: LocationView| after.contains_key(location) implies after[location]
        == expected[location] by {
        kept.lemma_filter_push(next, at_location(location));
        if location == next.location {
            if !location_occurs(kept, location) {
                lemma_absent_location(kept, location);
            }
            assert(occurrence_locations(longer.filter(at_location(location)))
                =~= occurrence_locations(kept.filter(at_location(location))).push(
                next.location,
            ));
            assert(matched_at(before, location) =~= occurrence_locations(
                kept.filter(at_location(location)),
            ));
        }
    }
    assert(after =~= expected);
}

/// Counts the locations that name the repository `repo`.
pub fn count_in_repository(locations: &Vec<Location>, repo: &String) -> (count: usize)
    ensures
        count == popularity(location_views(locations@), repo@),
{
    let ghost views = location_views(locations@);
    let mut count: usize = 0;
    let mut i: usize = 0;
    assert(views.take(0) =~= Seq::<LocationView>::empty());
    assert(Seq::<LocationView>::empty().filter(in_repository(repo@)).len() == 0) by {
        Seq::<LocationView>::empty().lemma_filter_len(in_repository(repo@));
    }
    while i < locations.len()
        invariant
            i <= locations.len(),
            views == location_views(locations@),
            count <= i,
            count == popularity(views.take(i as int), repo@),
        decreases locations.len() - i,
    {
        proof {
            assert(views.take(i + 1) =~= views.take(i as int).push(views[i as int]));
            views.take(i as int).lemma_filter_len_push(in_repository(repo@), views[i as int]);
        }
        if locations[i].repo == *repo {
            count += 1;
        }
        i += 1;
    }
    assert(views.take(i as int) =~= views);
    count
}

/// Decides whether an occurrence of the given popularity is kept: a
/// popularity equal to the upper bound is not, one below it is, unless it is
/// zero.
pub fn is_interesting(popularity: usize, upper_bound: usize) -> (keep: bool)
    ensures
        keep == interesting(popularity as nat, upper_bound as nat),
        popularity == upper_bound ==> !keep,
        popularity == 0 ==> !keep,
        0 < popularity && popularity + 1 == upper_bound ==> keep,
{
    popularity > 0 && popularity < upper_bound
}

/// Builds the match map of a corpus against an index that holds every hash
/// of the corpus: each kept occurrence adds its own location once to the
/// matches of that location.
pub fn filter_matches(corpus: &Corpus, index: &InvertedIndex, upper_bound: usize) -> (matches:
    MatchMap)
    requires
        index.wf(),
        covers(index@, occurrences(corpus@)),
    ensures
        matches.wf(),
        matches@ == self_matches(
            kept_occurrences(occurrences(corpus@), index@, upper_bound as nat),
        ),
        forall|source: DocumentView, target: DocumentView| #[trigger]
            pair_count(matches.entries(), source, target) == self_match_count(
                kept_occurrences(occurrences(corpus@), index@, upper_bound as nat),
                source,
                target,
            ),
{
    let repositories = corpus.repositories();
    let mut matches = MatchMap::new();
    let ghost bound = upper_bound as nat;
    let ghost all = occurrences(corpus@);
    let mut r: usize = 0;
    proof {
        assert(occurrences(corpus@.take(0)) =~= Seq::<Occurrence>::empty());
        lemma_nothing_kept(index@, bound);
    }
    while r < repositories.len()
        invariant
            r <= repositories.len(),
            repository_views(repositories@) == corpus@,
            index.wf(),
            all == occurrences(corpus@),
            covers(index@, all),
            bound == upper_bound as nat,
            matches.wf(),
            matches@ == self_matches(
                kept_occurrences(occurrences(corpus@.take(r as int)), index@, bound),
            ),
            forall|source: DocumentView, target: DocumentView| #[trigger]
                pair_count(matches.entries(), source, target) == self_match_count(
                    kept_occurrences(occurrences(corpus@.take(r as int)), index@, bound),
                    source,
                    target,
                ),
        decreases repositories.len() - r,
    {
        let repository = &repositories[r];
        let ghost done = occurrences(corpus@.take(r as int));
        let ghost here = repository_occurrences(corpus@[r as int]);
        let mut f: usize = 0;
        proof {
            assert(corpus@[r as int] == repository@);
            assert(done + here.take(0) =~= done);
            lemma_occurrences_prefix(corpus@, r as int + 1);
            lemma_occurrences_step(corpus@, r as int);
            assert forall|k: int| 0 <= k < here.len() implies all[done.len() + k]
                == #[trigger] here[k] by {
                assert(all[done.len() + k] == occurrences(corpus@.take(r as int + 1))[done.len()
                    + k]);
            }
        }
        while f < repository.fingerprints.len()
            invariant
                f <= repository.fingerprints.len(),
                r < repositories.len(),
                repository_views(repositories@) == corpus@,
                repository == repositories@[r as int],
                corpus@[r as int] == repository@,
                done == occurrences(corpus@.take(r as int)),
                here == repository_occurrences(corpus@[r as int]),
                all == occurrences(corpus@),
                done.len() + here.len() <= all.len(),
                forall|k: int| 0 <= k < here.len() ==> all[done.len() + k] == #[trigger] here[k],
                index.wf(),
                covers(index@, all),
                bound == upper_bound as nat,
                matches.wf(),
                matches@ == self_matches(
                    kept_occurrences(done + here.take(f as int), index@, bound),
                ),
                forall|source: DocumentView, target: DocumentView| #[trigger]
                    pair_count(matches.entries(), source, target) == self_match_count(
                        kept_occurrences(done + here.take(f as int), index@, bound),
                        source,
                        target,
                    ),
            decreases repository.fingerprints.len() - f,
        {
            let fingerprint = &repository.fingerprints[f];
            let ghost seen = done + here.take(f as int);
            let ghost next = here[f as int];
            let ghost kept = kept_occurrences(seen, index@, bound);
            proof {
                assert(next.hash == fingerprint.hash);
                assert(next.location == fingerprint.location@);
                assert(next.repo == repository.name@);
                assert(all[done.len() + f] == next);
                assert(seen.push(next) =~= done + here.take(f + 1));
                seen.lemma_filter_push(next, kept_by(index@, bound));
            }
            let locations = match index.get(fingerprint.hash) {
                Some(locations) => locations,
                None => unreached(),
            };
            let popularity = count_in_repository(locations, &repository.name);
            if is_interesting(popularity, upper_bound) {
                matches.add_match(fingerprint.location.clone(), fingerprint.location.clone());
                proof {
                    lemma_self_matches_push(kept, next);
                    assert forall|source: DocumentView, target: DocumentView| #[trigger]
                        pair_count(matches.entries(), source, target) == self_match_count(
                            kept.push(next),
                            source,
                            target,
                        ) by {
                        kept.lemma_filter_len_push(joins(source, target), next);
                    }
                }
            }
            f += 1;
        }
        proof {
            assert(here.take(f as int) =~= here);
        }
        r += 1;
    }
    proof {
        assert(corpus@.take(r as int) =~= corpus@);
    }
    matches
}

/// Of no occurrences none is kept, and nothing matches.
proof fn lemma_nothing_kept(index: Map<u64, Seq<LocationView>>, upper_bound: nat)
    ensures
        kept_occurrences(Seq::<Occurrence>::empty(), index, upper_bound) == Seq::<
            Occurrence,
        >::empty(),
        self_matches(Seq::<Occurrence>::empty()) == Map::<
            LocationView,
            Seq<LocationView>,
        >::empty(),
        forall|source: DocumentView, target: DocumentView| #[trigger]
            self_match_count(Seq::<Occurrence>::empty(), source, target) == 0,
{
    let none = Seq::<Occurrence>::empty();
    none.lemma_filter_len(kept_by(index, upper_bound));
    assert(none.filter(kept_by(index, upper_bound)) =~= none);
    assert(self_matches(none) =~= Map::<LocationView, Seq<LocationView>>::empty());
    assert forall|source: DocumentView, target: DocumentView| #[trigger]
        self_match_count(none, source, target) == 0 by {
        none.lemma_filter_len(joins(source, target));
    }
}

} // verus!
