//! The whole pipeline: index, filter, enumerate, aggregate, rank.

use crate::assoc::{as_map, distinct_keys};
use crate::corpus::{occurrences, Corpus, Occurrence, RepositoryView};
use crate::documents::{documents_of, enumerate_documents};
use crate::filter::{filter_matches, joins, kept_by, kept_occurrences, self_match_count};
use crate::index::{build_index, index_of, lemma_index_complete, InvertedIndex};
use crate::matches::pair_count;
use crate::model::{document_of, DocumentView};
use crate::pairs::{aggregate_pairs, pair_score_views, score_of, scored, PairScore};
use crate::rank::{ascending, rank_pairs};
use vstd::prelude::*;

verus! {

/// The upper bound on popularity that is used where none is chosen.
pub const DEFAULT_UPPER_BOUND: usize = 1000;

/// What a run of the pipeline can be told.
#[derive(Debug, Clone, Copy)]
pub struct Config {
    /// An occurrence is kept only where its popularity is below this bound.
    pub upper_bound: usize,
    /// Whether the pair of a document with itself is scored.
    pub include_self_pairs: bool,
}

impl Default for Config {
    /// The upper bound 1000, and no pairs of a document with itself.
    fn default() -> (config: Config)
        ensures
            config.upper_bound == DEFAULT_UPPER_BOUND,
            !config.include_self_pairs,
    {
        Config { upper_bound: DEFAULT_UPPER_BOUND, include_self_pairs: false }
    }
}

/// What a run of the pipeline gives: the inverted index of the corpus, and
/// the scored pairs of documents in ascending order of score.
pub struct Detection {
    pub index: InvertedIndex,
    pub ranking: Vec<PairScore>,
}

/// The occurrences of a corpus that the filter keeps when it works on the
/// corpus's own index.
pub open spec fn kept_in(corpus: Seq<RepositoryView>, upper_bound: nat) -> Seq<Occurrence> {
    kept_occurrences(occurrences(corpus), index_of(occurrences(corpus)), upper_bound)
}

/// The score that a run gives to the ordered pair `(source, target)`: where
/// the pair is scored, the number of kept occurrences whose self-match leads
/// from `source` to `target`.
pub open spec fn expected_score(
    corpus: Seq<RepositoryView>,
    upper_bound: nat,
    include_self_pairs: bool,
    source: DocumentView,
    target: DocumentView,
) -> nat {
    if scored(include_self_pairs, source, target) {
        self_match_count(kept_in(corpus, upper_bound), source, target)
    } else {
        0
    }
}

/// The scores of a run as a mapping: its keys are the pairs with a score
/// above zero.
pub open spec fn expected_scores(
    corpus: Seq<RepositoryView>,
    upper_bound: nat,
    include_self_pairs: bool,
) -> Map<(DocumentView, DocumentView), nat> {
    Map::new(
        |pair: (DocumentView, DocumentView)|
            expected_score(corpus, upper_bound, include_self_pairs, pair.0, pair.1) > 0,
        |pair: (DocumentView, DocumentView)|
            expected_score(corpus, upper_bound, include_self_pairs, pair.0, pair.1),
    )
}

/// A document from which a kept occurrence leads is one of the documents of
/// the index.
pub proof fn lemma_matched_document_is_indexed(
    all: Seq<Occurrence>,
    upper_bound: nat,
    source: DocumentView,
    target: DocumentView,
)
    requires
        self_match_count(kept_occurrences(all, index_of(all), upper_bound), source, target) > 0,
    ensures
        documents_of(index_of(all)).contains(source),
{
    let index = index_of(all);
    let kept = kept_occurrences(all, index, upper_bound);
    let joined = kept.filter(joins(source, target));
    kept.lemma_filter_pred(joins(source, target), 0);
    let found = joined[0];
    assert(joined.contains(found));
    kept.lemma_filter_contains_rev(joins(source, target), found);
    all.lemma_filter_contains_rev(kept_by(index, upper_bound), found);
    let k = choose|k: int| 0 <= k < all.len() && all[k] == found;
    lemma_index_complete(all, k);
    let held = index[found.hash];
    let j = choose|j: int| 0 <= j < held.len() && held[j] == found.location;
    assert(document_of(index[found.hash][j]) == source);
}

/// Runs the pipeline on a corpus. The index holds every fingerprint of the
/// corpus under its hash. The ranking holds each ordered pair of documents
/// with a score above zero once, with that score, and its scores never fall
/// from one element to the next.
pub fn run(corpus: &Corpus, config: &Config) -> (detection: Detection)
    ensures
        detection.index.wf(),
        detection.index@ == index_of(occurrences(corpus@)),
        ascending(pair_score_views(detection.ranking@)),
        distinct_keys(pair_score_views(detection.ranking@)),
        as_map(pair_score_views(detection.ranking@)) == expected_scores(
            corpus@,
            config.upper_bound as nat,
            config.include_self_pairs,
        ),
        detection.ranking@.len() == expected_scores(
            corpus@,
            config.upper_bound as nat,
            config.include_self_pairs,
        ).len(),
{
    let index = build_index(corpus);
    let matches = filter_matches(corpus, &index, config.upper_bound);
    let documents = enumerate_documents(&index);
    let scores = aggregate_pairs(&documents, &matches, config.include_self_pairs);
    let ranking = rank_pairs(&scores);
    proof {
        let all = occurrences(corpus@);
        let bound = config.upper_bound as nat;
        let expected = expected_scores(corpus@, bound, config.include_self_pairs);
        crate::pairs::lemma_scores_positive(scores.entries());
        assert forall|pair: (DocumentView, DocumentView)|
            score_of(scores@, pair.0, pair.1) == expected_score(
                corpus@,
                bound,
                config.include_self_pairs,
                pair.0,
                pair.1,
            ) by {
            assert(pair_count(matches.entries(), pair.0, pair.1) == self_match_count(
                kept_in(corpus@, bound),
                pair.0,
                pair.1,
            ));
            if self_match_count(kept_in(corpus@, bound), pair.0, pair.1) > 0 {
                lemma_matched_document_is_indexed(all, bound, pair.0, pair.1);
            }
        }
        assert forall|pair: (DocumentView, DocumentView)|
            scores@.contains_key(pair) <==> expected.contains_key(pair) by {
            assert(score_of(scores@, pair.0, pair.1) == expected_score(
                corpus@,
                bound,
                config.include_self_pairs,
                pair.0,
                pair.1,
            ));
            assert(pair == (pair.0, pair.1));
        }
        assert forall|pair: (DocumentView, DocumentView)|
            scores@.contains_key(pair) implies scores@[pair] == expected[pair] by {
            assert(score_of(scores@, pair.0, pair.1) == expected_score(
                corpus@,
                bound,
                config.include_self_pairs,
                pair.0,
                pair.1,
            ));
            assert(pair == (pair.0, pair.1));
        }
        assert(scores@ =~= expected);
    }
    Detection { index, ranking }
}

} // verus!
