//! Laws that relate the stages of the pipeline.

use crate::corpus::{occurrences, repository_occurrences, Occurrence, RepositoryView};
use crate::detector::{expected_score, expected_scores, kept_in};
use crate::filter::{
    in_repository, interesting, joins, kept_by, occurrence_popularity, popularity,
    self_match_count,
};
use crate::index::{
    has_hash, hash_occurs, index_of, lemma_absent_hash, lemma_index_complete,
    locations_with_hash, postings_at,
};
use crate::matches::{entry_count, in_document, pair_count};
use crate::model::{document_of, DocumentView, FingerprintView, LocationView};
use vstd::prelude::*;

verus! {

/// The corpus after `extra` fingerprints were added to the repository at
/// place `r`.
pub open spec fn with_fingerprints(
    corpus: Seq<RepositoryView>,
    r: int,
    extra: Seq<FingerprintView>,
) -> Seq<RepositoryView> {
    corpus.update(
        r,
        RepositoryView { name: corpus[r].name, fingerprints: corpus[r].fingerprints + extra },
    )
}

/// The popularity that `hash` has for the members of the repository `repo`
/// in the index of `corpus`.
pub open spec fn hash_popularity(corpus: Seq<RepositoryView>, hash: u64, repo: Seq<char>) -> nat {
    popularity(postings_at(index_of(occurrences(corpus)), hash), repo)
}

/// The occurrences of two corpora put together are the occurrences of the
/// first followed by those of the second.
pub proof fn lemma_occurrences_concat(first: Seq<RepositoryView>, second: Seq<RepositoryView>)
    ensures
        occurrences(first + second) == occurrences(first) + occurrences(second),
    decreases second.len(),
{
    if second.len() == 0 {
        assert(first + second =~= first);
        assert(occurrences(first) + occurrences(second) =~= occurrences(first));
    } else {
        assert((first + second).drop_last() =~= first + second.drop_last());
        lemma_occurrences_concat(first, second.drop_last());
        assert(occurrences(first + second) =~= occurrences(first) + occurrences(second));
    }
}

/// What the index holds under a hash are the locations that carry it, also
/// where the hash is no key.
pub proof fn lemma_postings_are_locations(all: Seq<Occurrence>, hash: u64)
    ensures
        postings_at(index_of(all), hash) == locations_with_hash(all, hash),
{
    if !hash_occurs(all, hash) {
        lemma_absent_hash(all, hash);
    }
}

/// The locations with a hash, and their popularity, add up over
/// occurrences put together.
proof fn lemma_popularity_concat(
    first: Seq<Occurrence>,
    second: Seq<Occurrence>,
    hash: u64,
    repo: Seq<char>,
)
    ensures
        locations_with_hash(first + second, hash) == locations_with_hash(first, hash)
            + locations_with_hash(second, hash),
        popularity(locations_with_hash(first + second, hash), repo) == popularity(
            locations_with_hash(first, hash),
            repo,
        ) + popularity(locations_with_hash(second, hash), repo),
{
    Seq::filter_distributes_over_add(first, second, has_hash(hash));
    assert(locations_with_hash(first + second, hash) =~= locations_with_hash(first, hash)
        + locations_with_hash(second, hash));
    Seq::filter_distributes_over_add(
        locations_with_hash(first, hash),
        locations_with_hash(second, hash),
        in_repository(repo),
    );
}

/// Popularity is monotone: more fingerprints in a repository never lower the
/// popularity of any hash for the members of any repository. The popularity
/// rises by the number of added fingerprints that carry the hash at a
/// location naming the repository.
pub proof fn lemma_popularity_monotone(
    corpus: Seq<RepositoryView>,
    r: int,
    extra: Seq<FingerprintView>,
    hash: u64,
    repo: Seq<char>,
)
    requires
        0 <= r < corpus.len(),
    ensures
        hash_popularity(with_fingerprints(corpus, r, extra), hash, repo) >= hash_popularity(
            corpus,
            hash,
            repo,
        ),
        hash_popularity(with_fingerprints(corpus, r, extra), hash, repo) == hash_popularity(
            corpus,
            hash,
            repo,
        ) + popularity(
            locations_with_hash(
                repository_occurrences(
                    RepositoryView { name: corpus[r].name, fingerprints: extra },
                ),
                hash,
            ),
            repo,
        ),
{
    let grown = with_fingerprints(corpus, r, extra);
    let before = corpus.take(r);
    let behind = corpus.skip(r + 1);
    let old_one = seq![corpus[r]];
    let new_one = seq![grown[r]];
    let added = repository_occurrences(
        RepositoryView { name: corpus[r].name, fingerprints: extra },
    );
    assert(corpus =~= before + old_one + behind);
    assert(grown =~= before + new_one + behind);
    lemma_occurrences_concat(before, old_one);
    lemma_occurrences_concat(before + old_one, behind);
    lemma_occurrences_concat(before, new_one);
    lemma_occurrences_concat(before + new_one, behind);
    assert(old_one.drop_last() =~= Seq::<RepositoryView>::empty());
    assert(new_one.drop_last() =~= Seq::<RepositoryView>::empty());
    assert(occurrences(Seq::<RepositoryView>::empty()) =~= Seq::<Occurrence>::empty());
    assert(old_one.last() == corpus[r]);
    assert(new_one.last() == grown[r]);
    assert(occurrences(old_one) =~= repository_occurrences(corpus[r]));
    assert(occurrences(new_one) =~= repository_occurrences(grown[r]));
    assert(repository_occurrences(grown[r]) =~= repository_occurrences(corpus[r]) + added);
    let a = occurrences(before);
    let b = repository_occurrences(corpus[r]);
    let c = occurrences(behind);
    assert(occurrences(corpus) == a + b + c);
    assert(occurrences(grown) == a + (b + added) + c);
    lemma_postings_are_locations(occurrences(corpus), hash);
    lemma_postings_are_locations(occurrences(grown), hash);
    lemma_popularity_concat(a, b, hash, repo);
    lemma_popularity_concat(a + b, c, hash, repo);
    lemma_popularity_concat(b, added, hash, repo);
    lemma_popularity_concat(a, b + added, hash, repo);
    lemma_popularity_concat(a + (b + added), c, hash, repo);
}

/// An occurrence whose location names the repository that it is filed under
/// counts itself: its popularity in the index of its own corpus is never
/// zero.
pub proof fn lemma_own_occurrence_counted(all: Seq<Occurrence>, k: int)
    requires
        0 <= k < all.len(),
        all[k].location.repo == all[k].repo,
    ensures
        occurrence_popularity(index_of(all), all[k]) > 0,
{
    let own = all[k];
    lemma_index_complete(all, k);
    let held = index_of(all)[own.hash];
    let j = choose|j: int| 0 <= j < held.len() && held[j] == own.location;
    held.lemma_filter_contains(in_repository(own.repo), j);
    let counted = held.filter(in_repository(own.repo));
    assert(counted.contains(own.location));
}

/// An occurrence of the corpus whose location names its own repository is
/// kept exactly when its popularity is below the upper bound.
pub proof fn lemma_kept_below_bound(all: Seq<Occurrence>, k: int, upper_bound: nat)
    requires
        0 <= k < all.len(),
        all[k].location.repo == all[k].repo,
    ensures
        kept_by(index_of(all), upper_bound)(all[k]) <==> occurrence_popularity(
            index_of(all),
            all[k],
        ) < upper_bound,
{
    lemma_own_occurrence_counted(all, k);
}

/// The filter's boundary: a popularity equal to the upper bound is left out,
/// the popularity just below an upper bound of two or more is kept, and the
/// popularity zero is left out.
pub proof fn lemma_filter_boundary(upper_bound: nat)
    ensures
        !interesting(upper_bound, upper_bound),
        upper_bound >= 2 ==> interesting((upper_bound - 1) as nat, upper_bound),
        !interesting(0, upper_bound),
{
}

/// The self-match of an occurrence leads from its document to the same
/// document: between two different documents there is none.
pub proof fn lemma_self_matches_stay_in_document(
    kept: Seq<Occurrence>,
    source: DocumentView,
    target: DocumentView,
)
    requires
        source != target,
    ensures
        self_match_count(kept, source, target) == 0,
        self_match_count(kept, target, source) == 0,
{
    let forth = kept.filter(joins(source, target));
    if forth.len() > 0 {
        kept.lemma_filter_pred(joins(source, target), 0);
    }
    let back = kept.filter(joins(target, source));
    if back.len() > 0 {
        kept.lemma_filter_pred(joins(target, source), 0);
    }
}

/// A run scores no pair of two different documents, in either direction:
/// what it counts are self-matches.
pub proof fn lemma_run_scores_self_pairs_only(
    corpus: Seq<RepositoryView>,
    upper_bound: nat,
    include_self_pairs: bool,
    source: DocumentView,
    target: DocumentView,
)
    requires
        source != target,
    ensures
        expected_score(corpus, upper_bound, include_self_pairs, source, target) == 0,
        expected_score(corpus, upper_bound, include_self_pairs, target, source) == 0,
{
    lemma_self_matches_stay_in_document(kept_in(corpus, upper_bound), source, target);
}

/// Without self-pairs a run scores nothing.
pub proof fn lemma_run_without_self_pairs(corpus: Seq<RepositoryView>, upper_bound: nat)
    ensures
        expected_scores(corpus, upper_bound, false) == Map::<
            (DocumentView, DocumentView),
            nat,
        >::empty(),
{
    let scores = expected_scores(corpus, upper_bound, false);
    assert forall|pair: (DocumentView, DocumentView)| !scores.contains_key(pair) by {
        if pair.0 != pair.1 {
            lemma_run_scores_self_pairs_only(corpus, upper_bound, false, pair.0, pair.1);
        }
    }
    assert(scores =~= Map::<(DocumentView, DocumentView), nat>::empty());
}

/// Whether some match leads from a location of `source` to a location of
/// `target`.
pub open spec fn leads(
    entries: Seq<(LocationView, Seq<LocationView>)>,
    source: DocumentView,
    target: DocumentView,
) -> bool {
    exists|i: int, j: int|
        0 <= i < entries.len() && 0 <= j < entries[i].1.len() && document_of(
            (#[trigger] entries[i]).0,
        ) == source && document_of(#[trigger] entries[i].1[j]) == target
}

/// Scores are directional: the pair `(source, target)` has a count above zero
/// exactly when some match leads from `source` to `target`. Matches that lead
/// the other way add nothing to it.
pub proof fn lemma_pair_count_directional(
    entries: Seq<(LocationView, Seq<LocationView>)>,
    source: DocumentView,
    target: DocumentView,
)
    ensures
        pair_count(entries, source, target) > 0 <==> leads(entries, source, target),
    decreases entries.len(),
{
    if entries.len() > 0 {
        let rest = entries.drop_last();
        let last = entries.last();
        lemma_pair_count_directional(rest, source, target);
        let found = last.1.filter(in_document(target));
        if leads(rest, source, target) {
            let (i, j) = choose|i: int, j: int|
                0 <= i < rest.len() && 0 <= j < rest[i].1.len() && document_of(
                    (#[trigger] rest[i]).0,
                ) == source && document_of(#[trigger] rest[i].1[j]) == target;
            assert(document_of(entries[i].0) == source && document_of(entries[i].1[j]) == target);
        }
        if entry_count(last, source, target) > 0 {
            last.1.lemma_filter_pred(in_document(target), 0);
            assert(found.contains(found[0]));
            last.1.lemma_filter_contains_rev(in_document(target), found[0]);
            let j = choose|j: int| 0 <= j < last.1.len() && last.1[j] == found[0];
            let i = entries.len() - 1;
            assert(document_of(entries[i].0) == source && document_of(entries[i].1[j]) == target);
        }
        if leads(entries, source, target) {
            let (i, j) = choose|i: int, j: int|
                0 <= i < entries.len() && 0 <= j < entries[i].1.len() && document_of(
                    (#[trigger] entries[i]).0,
                ) == source && document_of(#[trigger] entries[i].1[j]) == target;
            if i < rest.len() {
                assert(document_of(rest[i].0) == source && document_of(rest[i].1[j]) == target);
            } else {
                last.1.lemma_filter_contains(in_document(target), j);
                assert(found.len() > 0);
            }
        }
    }
}

} // verus!
