//! The pair aggregator: how many matches lead from one document to another.

use crate::assoc::{
    as_map, distinct_keys, has_key, lemma_entry, lemma_map_size, lemma_no_entries,
    lemma_push_entry, lemma_update_entry, place_of,
};
use crate::buckets::Buckets;
use crate::digest::{hash_pair, pair_digest};
use crate::documents::DocumentSet;
use crate::matches::{
    entry_count, in_document, lemma_pair_count_step, match_entry_views, pair_count, MatchMap,
};
use crate::model::{document_of, Document, DocumentView, LocationView};
use vstd::prelude::*;
use vstd::std_specs::cmp::PartialEqSpecImpl;

verus! {

/// What the scores hold for the ordered pair `(source, target)`: zero where
/// the pair is no key.
pub open spec fn score_of(
    scores: Map<(DocumentView, DocumentView), nat>,
    source: DocumentView,
    target: DocumentView,
) -> nat {
    if scores.contains_key((source, target)) {
        scores[(source, target)]
    } else {
        0
    }
}

/// Whether the ordered pair `(source, target)` is scored at all: a pair of a
/// document with itself only where self-pairs are asked for.
pub open spec fn scored(
    include_self_pairs: bool,
    source: DocumentView,
    target: DocumentView,
) -> bool {
    include_self_pairs || source != target
}

/// The scores that the matches give to the pairs whose first document is one
/// of `documents`: a scored pair with at least one match maps to the number
/// of its matches, and no other pair is a key.
pub open spec fn pair_scores(
    documents: Set<DocumentView>,
    entries: Seq<(LocationView, Seq<LocationView>)>,
    include_self_pairs: bool,
) -> Map<(DocumentView, DocumentView), nat> {
    Map::new(
        |pair: (DocumentView, DocumentView)|
            documents.contains(pair.0) && scored(include_self_pairs, pair.0, pair.1)
                && pair_count(entries, pair.0, pair.1) > 0,
        |pair: (DocumentView, DocumentView)| pair_count(entries, pair.0, pair.1),
    )
}

/// No pair has two entries, and no entry has the score zero.
pub open spec fn scores_wf(entries: Seq<((DocumentView, DocumentView), nat)>) -> bool {
    &&& distinct_keys(entries)
    &&& forall|i: int| 0 <= i < entries.len() ==> (#[trigger] entries[i]).1 > 0
}

/// In well-formed scores every key maps to a score above zero.
pub proof fn lemma_scores_positive(entries: Seq<((DocumentView, DocumentView), nat)>)
    requires
        scores_wf(entries),
    ensures
        forall|pair: (DocumentView, DocumentView)| #[trigger]
            as_map(entries).contains_key(pair) ==> as_map(entries)[pair] > 0,
{
    assert forall|pair: (DocumentView, DocumentView)| #[trigger]
        as_map(entries).contains_key(pair) implies as_map(entries)[pair] > 0 by {
        let i = place_of(entries, pair);
        lemma_entry(entries, i);
    }
}

/// The entries after one more match for `pair`: its score rises by one, in a
/// new last entry with the score one where `pair` had none.
pub open spec fn with_increment(
    entries: Seq<((DocumentView, DocumentView), nat)>,
    pair: (DocumentView, DocumentView),
) -> Seq<((DocumentView, DocumentView), nat)> {
    if has_key(entries, pair) {
        let i = place_of(entries, pair);
        entries.update(i, (pair, entries[i].1 + 1))
    } else {
        entries.push((pair, 1))
    }
}

/// The score of one ordered pair of documents.
#[derive(Debug)]
pub struct PairScore {
    pub source: Document,
    pub target: Document,
    pub score: u128,
}

impl View for PairScore {
    type V = ((DocumentView, DocumentView), nat);

    open spec fn view(&self) -> ((DocumentView, DocumentView), nat) {
        ((self.source@, self.target@), self.score as nat)
    }
}

impl Clone for PairScore {
    fn clone(&self) -> (copy: Self)
        ensures
            copy@ == self@,
            copy.score == self.score,
    {
        PairScore { source: self.source.clone(), target: self.target.clone(), score: self.score }
    }
}

impl PartialEq for PairScore {
    fn eq(&self, other: &Self) -> (equal: bool) {
        self.source == other.source && self.target == other.target && self.score == other.score
    }
}

impl PartialEqSpecImpl for PairScore {
    open spec fn obeys_eq_spec() -> bool {
        true
    }

    open spec fn eq_spec(&self, other: &Self) -> bool {
        self@ == other@
    }
}

impl Eq for PairScore {

}

/// The entries as pairs of the views of the two documents and the score.
pub open spec fn pair_score_views(entries: Seq<PairScore>) -> Seq<
    ((DocumentView, DocumentView), nat),
> {
    Seq::new(entries.len(), |i: int| entries[i]@)
}

/// The digests of the pairs of the entries, in order.
pub open spec fn pair_digests(entries: Seq<PairScore>) -> Seq<u64> {
    Seq::new(entries.len(), |i: int| pair_digest(entries[i]@.0))
}

/// A mapping from ordered pairs of documents to scores that remembers the
/// order in which the pairs first came. Buckets by digest find the entry of
/// a pair.
pub struct PairScores {
    entries: Vec<PairScore>,
    buckets: Buckets,
}

impl View for PairScores {
    type V = Map<(DocumentView, DocumentView), nat>;

    open spec fn view(&self) -> Map<(DocumentView, DocumentView), nat> {
        as_map(self.entries())
    }
}

impl PairScores {
    /// The entries in the order in which their pairs first came.
    pub closed spec fn entries(&self) -> Seq<((DocumentView, DocumentView), nat)> {
        pair_score_views(self.entries@)
    }

    /// The buckets list every entry under the digest of its pair.
    pub closed spec fn buckets_agree(&self) -> bool {
        self.buckets.tracks(pair_digests(self.entries@))
    }

    /// The invariant of the scores.
    pub open spec fn wf(&self) -> bool {
        &&& scores_wf(self.entries())
        &&& self.buckets_agree()
    }

    /// The scores without entries.
    pub fn new() -> (scores: PairScores)
        ensures
            scores.wf(),
            scores.entries() == Seq::<((DocumentView, DocumentView), nat)>::empty(),
            scores@ == Map::<(DocumentView, DocumentView), nat>::empty(),
    {
        let scores = PairScores { entries: Vec::new(), buckets: Buckets::new() };
        proof {
            assert(scores.entries() =~= Seq::<((DocumentView, DocumentView), nat)>::empty());
            assert(pair_digests(scores.entries@) =~= Seq::<u64>::empty());
            lemma_no_entries::<(DocumentView, DocumentView), nat>();
        }
        scores
    }

    /// The number of pairs with a score.
    pub fn len(&self) -> (n: usize)
        requires
            self.wf(),
        ensures
            n == self.entries().len(),
            n == self@.len(),
    {
        proof {
            lemma_map_size(self.entries());
        }
        self.entries.len()
    }

    /// The entries in the order in which their pairs first came.
    pub fn scores(&self) -> (entries: &Vec<PairScore>)
        ensures
            pair_score_views(entries@) == self.entries(),
    {
        &self.entries
    }

    /// The place of the entry of `(source, target)`, if it has one.
    fn position(&self, source: &Document, target: &Document) -> (found: Option<usize>)
        requires
            self.wf(),
        ensures
            match found {
                Some(i) => has_key(self.entries(), (source@, target@)) && i == place_of(
                    self.entries(),
                    (source@, target@),
                ),
                None => !has_key(self.entries(), (source@, target@)),
            },
    {
        let digest = hash_pair(source, target);
        let total: usize = self.entries.len();
        let ghost pair = (source@, target@);
        let ghost digests = pair_digests(self.entries@);
        proof {
            if has_key(self.entries(), pair) {
                let i = place_of(self.entries(), pair);
                assert(0 <= i < total);
                assert(digests[i] == digest);
                assert(self.buckets.lists(digest, i as usize));
            }
        }
        match self.buckets.candidates(digest) {
            Some(places) => {
                let mut k: usize = 0;
                while k < places.len()
                    invariant
                        k <= places.len(),
                        self.wf(),
                        total == self.entries@.len(),
                        pair == (source@, target@),
                        digests == pair_digests(self.entries@),
                        forall|place: usize|
                            places@.contains(place) <==> #[trigger] self.buckets.lists(
                                digest,
                                place,
                            ),
                        forall|j: int|
                            0 <= j < k ==> self.entries()[(#[trigger] places@[j]) as int].0 != pair,
                    decreases places.len() - k,
                {
                    let at: usize = places[k];
                    assert(places@.contains(at));
                    assert(self.buckets.lists(digest, at));
                    if self.entries[at].source == *source && self.entries[at].target == *target {
                        proof {
                            assert(self.entries()[at as int].0 == pair);
                            lemma_entry(self.entries(), at as int);
                        }
                        return Some(at);
                    }
                    k += 1;
                }
                proof {
                    if has_key(self.entries(), pair) {
                        let i = place_of(self.entries(), pair);
                        assert(0 <= i < total);
                        assert(places@.contains(i as usize));
                        let j = choose|j: int| 0 <= j < places@.len() && places@[j] == i as usize;
                        assert(self.entries()[places@[j] as int].0 != pair);
                    }
                }
                None
            },
            None => None,
        }
    }

    /// The score of the ordered pair `(source, target)`: zero where it has
    /// none.
    pub fn get(&self, source: &Document, target: &Document) -> (score: u128)
        requires
            self.wf(),
        ensures
            score == score_of(self@, source@, target@),
    {
        match self.position(source, target) {
            Some(i) => {
                proof {
                    lemma_entry(self.entries(), i as int);
                }
                self.entries[i].score
            },
            None => 0,
        }
    }

    /// Adds one to the score of the ordered pair `(source, target)`.
    pub fn increment(&mut self, source: Document, target: Document)
        requires
            old(self).wf(),
            score_of(old(self)@, source@, target@) < u128::MAX,
        ensures
            final(self).wf(),
            final(self).entries() == with_increment(old(self).entries(), (source@, target@)),
            final(self)@ == old(self)@.insert(
                (source@, target@),
                score_of(old(self)@, source@, target@) + 1,
            ),
            forall|s: DocumentView, t: DocumentView| #[trigger]
                score_of(final(self)@, s, t) == score_of(old(self)@, s, t) + (if s == source@ && t
                    == target@ {
                    1nat
                } else {
                    0nat
                }),
    {
        let ghost before = self.entries();
        let ghost stored = self.entries@;
        let ghost pair = (source@, target@);
        match self.position(&source, &target) {
            Some(i) => {
                proof {
                    lemma_entry(before, i as int);
                }
                let raised: u128 = self.entries[i].score + 1;
                self.entries[i].score = raised;
                proof {
                    assert(self.entries() =~= before.update(i as int, (pair, raised as nat)));
                    assert(pair_digests(self.entries@) =~= pair_digests(stored));
                    lemma_update_entry(before, i as int, raised as nat);
                }
            },
            None => {
                let digest = hash_pair(&source, &target);
                let place: usize = self.entries.len();
                self.entries.push(PairScore { source, target, score: 1 });
                self.buckets.add(digest, place);
                proof {
                    assert(self.entries() =~= before.push((pair, 1nat)));
                    assert(pair_digests(self.entries@) =~= pair_digests(stored).push(digest));
                    lemma_push_entry(before, pair, 1nat);
                }
            },
        }
    }
}

/// The score that the pair `(source, target)` has when the aggregator has
/// dealt with the first `e` entries and with the first `m` matches of entry
/// `e`.
pub open spec fn partial_score(
    documents: Set<DocumentView>,
    entries: Seq<(LocationView, Seq<LocationView>)>,
    include_self_pairs: bool,
    e: int,
    m: int,
    source: DocumentView,
    target: DocumentView,
) -> nat {
    if documents.contains(source) && scored(include_self_pairs, source, target) {
        pair_count(entries.take(e), source, target) + (if 0 <= e < entries.len() {
            entry_count((entries[e].0, entries[e].1.take(m)), source, target)
        } else {
            0
        })
    } else {
        0
    }
}

/// No entry holds more than `limit` matches.
pub open spec fn matches_bounded(
    entries: Seq<(LocationView, Seq<LocationView>)>,
    limit: nat,
) -> bool {
    forall|i: int| 0 <= i < entries.len() ==> (#[trigger] entries[i]).1.len() <= limit
}

/// A pair's matches are no more than the entries times the most that one
/// entry holds.
pub proof fn lemma_pair_count_bound(
    entries: Seq<(LocationView, Seq<LocationView>)>,
    limit: nat,
    source: DocumentView,
    target: DocumentView,
)
    requires
        matches_bounded(entries, limit),
    ensures
        pair_count(entries, source, target) <= entries.len() * limit,
    decreases entries.len(),
{
    if entries.len() > 0 {
        let rest = entries.drop_last();
        assert forall|i: int| 0 <= i < rest.len() implies (#[trigger] rest[i]).1.len() <= limit by {
            assert(rest[i] == entries[i]);
        }
        lemma_pair_count_bound(rest, limit, source, target);
        entries.last().1.lemma_filter_len(in_document(target));
        assert(entry_count(entries.last(), source, target) <= limit);
        assert(rest.len() * limit + limit == entries.len() * limit) by (nonlinear_arith)
            requires
                rest.len() + 1 == entries.len(),
        ;
    }
}

/// Before anything is dealt with, every score is zero.
proof fn lemma_partial_start(
    documents: Set<DocumentView>,
    entries: Seq<(LocationView, Seq<LocationView>)>,
    include_self_pairs: bool,
    source: DocumentView,
    target: DocumentView,
)
    ensures
        partial_score(documents, entries, include_self_pairs, 0, 0, source, target) == 0,
{
    assert(entries.take(0) =~= Seq::<(LocationView, Seq<LocationView>)>::empty());
    if 0 < entries.len() {
        assert(entries[0].1.take(0) =~= Seq::<LocationView>::empty());
        Seq::<LocationView>::empty().lemma_filter_len(in_document(target));
    }
}

/// Dealing with one more match adds one to the pair that the match joins,
/// where that pair is scored and begins in one of the documents, and nothing
/// to any other pair.
proof fn lemma_partial_match(
    documents: Set<DocumentView>,
    entries: Seq<(LocationView, Seq<LocationView>)>,
    include_self_pairs: bool,
    e: int,
    m: int,
    source: DocumentView,
    target: DocumentView,
)
    requires
        0 <= e < entries.len(),
        0 <= m < entries[e].1.len(),
    ensures
        partial_score(documents, entries, include_self_pairs, e, m + 1, source, target)
            == partial_score(documents, entries, include_self_pairs, e, m, source, target) + (
        if source == document_of(entries[e].0) && target == document_of(entries[e].1[m])
            && documents.contains(source) && scored(include_self_pairs, source, target) {
            1nat
        } else {
            0nat
        }),
{
    let matched = entries[e].1;
    assert(matched.take(m + 1) =~= matched.take(m).push(matched[m]));
    matched.take(m).lemma_filter_len_push(in_document(target), matched[m]);
}

/// Behind the last match of an entry comes the next entry; an entry whose
/// source lies in none of the documents adds nothing.
proof fn lemma_partial_entry(
    documents: Set<DocumentView>,
    entries: Seq<(LocationView, Seq<LocationView>)>,
    include_self_pairs: bool,
    e: int,
    source: DocumentView,
    target: DocumentView,
)
    requires
        0 <= e < entries.len(),
    ensures
        partial_score(documents, entries, include_self_pairs, e + 1, 0, source, target)
            == partial_score(
            documents,
            entries,
            include_self_pairs,
            e,
            entries[e].1.len() as int,
            source,
            target,
        ),
        !documents.contains(document_of(entries[e].0)) ==> partial_score(
            documents,
            entries,
            include_self_pairs,
            e + 1,
            0,
            source,
            target,
        ) == partial_score(documents, entries, include_self_pairs, e, 0, source, target),
{
    let matched = entries[e].1;
    assert(matched.take(matched.len() as int) =~= matched);
    assert(matched.take(0) =~= Seq::<LocationView>::empty());
    Seq::<LocationView>::empty().lemma_filter_len(in_document(target));
    lemma_pair_count_step(entries, e, source, target);
    if e + 1 < entries.len() {
        assert(entries[e + 1].1.take(0) =~= Seq::<LocationView>::empty());
    }
}

/// While the aggregator runs, a score stays below the largest `u128`: it is
/// at most the number of matches dealt with, and the entries and the matches
/// of each are counted by a `usize`.
proof fn lemma_score_fits(
    documents: Set<DocumentView>,
    entries: Seq<(LocationView, Seq<LocationView>)>,
    include_self_pairs: bool,
    e: int,
    m: int,
    source: DocumentView,
    target: DocumentView,
)
    requires
        matches_bounded(entries, usize::MAX as nat),
        entries.len() <= usize::MAX,
        0 <= e < entries.len(),
        0 <= m < entries[e].1.len(),
    ensures
        partial_score(documents, entries, include_self_pairs, e, m, source, target) < u128::MAX,
{
    let limit = usize::MAX as nat;
    let before = entries.take(e);
    assert forall|i: int| 0 <= i < before.len() implies (#[trigger] before[i]).1.len() <= limit by {
        assert(before[i] == entries[i]);
    }
    lemma_pair_count_bound(before, limit, source, target);
    entries[e].1.take(m).lemma_filter_len(in_document(target));
    let score = partial_score(documents, entries, include_self_pairs, e, m, source, target);
    assert(score <= e * limit + m);
    assert(e * limit + m < 0xFFFF_FFFF_FFFF_FFFF * 0xFFFF_FFFF_FFFF_FFFF) by (nonlinear_arith)
        requires
            0 <= e < 0xFFFF_FFFF_FFFF_FFFF,
            0 <= m < limit,
            limit <= 0xFFFF_FFFF_FFFF_FFFF,
    ;
}

/// Scores the ordered pairs of documents: every match whose source location
/// lies in one of `documents` adds one to the pair of that document and the
/// document of the matched location. A pair of a document with itself is
/// scored only where `include_self_pairs` is set. The score of `(a, b)` is
/// counted apart from that of `(b, a)`.
pub fn aggregate_pairs(
    documents: &DocumentSet,
    matches: &MatchMap,
    include_self_pairs: bool,
) -> (scores: PairScores)
    requires
        documents.wf(),
        matches.wf(),
    ensures
        scores.wf(),
        scores@ == pair_scores(documents@, matches.entries(), include_self_pairs),
        forall|source: DocumentView, target: DocumentView| #[trigger]
            score_of(scores@, source, target) == if documents@.contains(source) && scored(
                include_self_pairs,
                source,
                target,
            ) {
                pair_count(matches.entries(), source, target)
            } else {
                0
            },
{
    let entries = matches.matches();
    let ghost docs = documents@;
    let ghost pairs = matches.entries();
    let ghost limit = usize::MAX as nat;
    let mut scores = PairScores::new();
    let mut e: usize = 0;
    proof {
        assert forall|s: DocumentView, t: DocumentView| #[trigger]
            score_of(scores@, s, t) == partial_score(
                docs,
                pairs,
                include_self_pairs,
                0,
                0,
                s,
                t,
            ) by {
            lemma_partial_start(docs, pairs, include_self_pairs, s, t);
        }
        assert forall|i: int| 0 <= i < pairs.len() implies (#[trigger] pairs[i]).1.len()
            <= limit by {
            assert(pairs[i].1.len() == entries@[i].matched.len());
        }
    }
    while e < entries.len()
        invariant
            e <= entries.len(),
            documents.wf(),
            docs == documents@,
            match_entry_views(entries@) == pairs,
            limit == usize::MAX as nat,
            matches_bounded(pairs, limit),
            scores.wf(),
            forall|s: DocumentView, t: DocumentView| #[trigger]
                score_of(scores@, s, t) == partial_score(
                    docs,
                    pairs,
                    include_self_pairs,
                    e as int,
                    0,
                    s,
                    t,
                ),
        decreases entries.len() - e,
    {
        let entry = &entries[e];
        let source = entry.source.document();
        assert(pairs[e as int].0 == entry.source@);
        assert(pairs[e as int].1.len() == entry.matched@.len());
        let listed = documents.contains(&source);
        if listed {
            let mut m: usize = 0;
            while m < entry.matched.len()
                invariant
                    m <= entry.matched.len(),
                    e < entries.len(),
                    docs == documents@,
                    match_entry_views(entries@) == pairs,
                    entry == entries@[e as int],
                    pairs[e as int].0 == entry.source@,
                    pairs[e as int].1.len() == entry.matched@.len(),
                    source@ == document_of(entry.source@),
                    docs.contains(source@),
                    limit == usize::MAX as nat,
                    matches_bounded(pairs, limit),
                    scores.wf(),
                    forall|s: DocumentView, t: DocumentView| #[trigger]
                        score_of(scores@, s, t) == partial_score(
                            docs,
                            pairs,
                            include_self_pairs,
                            e as int,
                            m as int,
                            s,
                            t,
                        ),
                decreases entry.matched.len() - m,
            {
                let target = entry.matched[m].document();
                let ghost before = scores@;
                proof {
                    assert(pairs[e as int].1[m as int] == entry.matched@[m as int]@);
                    assert forall|s: DocumentView, t: DocumentView|
                        partial_score(
                            docs,
                            pairs,
                            include_self_pairs,
                            e as int,
                            m as int + 1,
                            s,
                            t,
                        ) == #[trigger] partial_score(
                            docs,
                            pairs,
                            include_self_pairs,
                            e as int,
                            m as int,
                            s,
                            t,
                        ) + (if s == source@ && t == target@ && scored(include_self_pairs, s, t) {
                            1nat
                        } else {
                            0nat
                        }) by {
                        lemma_partial_match(
                            docs,
                            pairs,
                            include_self_pairs,
                            e as int,
                            m as int,
                            s,
                            t,
                        );
                    }
                }
                if include_self_pairs || source != target {
                    proof {
                        lemma_score_fits(
                            docs,
                            pairs,
                            include_self_pairs,
                            e as int,
                            m as int,
                            source@,
                            target@,
                        );
                        assert(score_of(scores@, source@, target@) == partial_score(
                            docs,
                            pairs,
                            include_self_pairs,
                            e as int,
                            m as int,
                            source@,
                            target@,
                        ));
                    }
                    scores.increment(source.clone(), target);
                }
                proof {
                    assert forall|s: DocumentView, t: DocumentView| #[trigger]
                        score_of(scores@, s, t) == partial_score(
                            docs,
                            pairs,
                            include_self_pairs,
                            e as int,
                            m as int + 1,
                            s,
                            t,
                        ) by {
                        assert(score_of(before, s, t) == partial_score(
                            docs,
                            pairs,
                            include_self_pairs,
                            e as int,
                            m as int,
                            s,
                            t,
                        ));
                    }
                }
                m += 1;
            }
        }
        proof {
            assert forall|s: DocumentView, t: DocumentView| #[trigger]
                score_of(scores@, s, t) == partial_score(
                    docs,
                    pairs,
                    include_self_pairs,
                    e as int + 1,
                    0,
                    s,
                    t,
                ) by {
                lemma_partial_entry(docs, pairs, include_self_pairs, e as int, s, t);
                if listed {
                    assert(score_of(scores@, s, t) == partial_score(
                        docs,
                        pairs,
                        include_self_pairs,
                        e as int,
                        pairs[e as int].1.len() as int,
                        s,
                        t,
                    ));
                } else {
                    assert(score_of(scores@, s, t) == partial_score(
                        docs,
                        pairs,
                        include_self_pairs,
                        e as int,
                        0,
                        s,
                        t,
                    ));
                }
            }
        }
        e += 1;
    }
    proof {
        assert(pairs.take(e as int) =~= pairs);
        lemma_scores_positive(scores.entries());
        let expected = pair_scores(docs, pairs, include_self_pairs);
        assert forall|s: DocumentView, t: DocumentView| #[trigger]
            score_of(scores@, s, t) == if docs.contains(s) && scored(include_self_pairs, s, t) {
                pair_count(pairs, s, t)
            } else {
                0
            } by {
            assert(score_of(scores@, s, t) == partial_score(
                docs,
                pairs,
                include_self_pairs,
                e as int,
                0,
                s,
                t,
            ));
        }
        assert forall|pair: (DocumentView, DocumentView)|
            scores@.contains_key(pair) <==> expected.contains_key(pair) by {
            assert(score_of(scores@, pair.0, pair.1) == if docs.contains(pair.0) && scored(
                include_self_pairs,
                pair.0,
                pair.1,
            ) {
                pair_count(pairs, pair.0, pair.1)
            } else {
                0
            });
            assert(pair == (pair.0, pair.1));
        }
        assert forall|pair: (DocumentView, DocumentView)|
            scores@.contains_key(pair) implies scores@[pair] == expected[pair] by {
            assert(score_of(scores@, pair.0, pair.1) == if docs.contains(pair.0) && scored(
                include_self_pairs,
                pair.0,
                pair.1,
            ) {
                pair_count(pairs, pair.0, pair.1)
            } else {
                0
            });
            assert(pair == (pair.0, pair.1));
        }
        assert(scores@ =~= expected);
    }
    scores
}

} // verus!
