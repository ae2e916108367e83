//! The match map: from a source location to the locations that it matches.

use crate::assoc::{
    as_map, distinct_keys, has_key, lemma_entry, lemma_map_size, lemma_no_entries,
    lemma_push_entry, lemma_update_entry, place_of,
};
use crate::buckets::Buckets;
use crate::digest::location_digest;
use crate::model::{document_of, location_views, DocumentView, Location, LocationView};
use vstd::prelude::*;

verus! {

/// The predicate "lies in this document" on locations.
pub open spec fn in_document(document: DocumentView) -> spec_fn(LocationView) -> bool {
    |location: LocationView| document_of(location) == document
}

/// What one entry adds to the score of the ordered pair `(source, target)`:
/// where the entry's own location lies in `source`, the number of its matched
/// locations that lie in `target`.
pub open spec fn entry_count(
    entry: (LocationView, Seq<LocationView>),
    source: DocumentView,
    target: DocumentView,
) -> nat {
    if document_of(entry.0) == source {
        entry.1.filter(in_document(target)).len()
    } else {
        0
    }
}

/// The number of matches that lead from a location of `source` to a location
/// of `target`.
pub open spec fn pair_count(
    entries: Seq<(LocationView, Seq<LocationView>)>,
    source: DocumentView,
    target: DocumentView,
) -> nat
    decreases entries.len(),
{
    if entries.len() == 0 {
        0
    } else {
        pair_count(entries.drop_last(), source, target) + entry_count(
            entries.last(),
            source,
            target,
        )
    }
}

/// What a match adds to the score of `(source, target)`: one where it leads
/// from `source` to `target`, else nothing.
pub open spec fn match_weight(
    from: LocationView,
    to: LocationView,
    source: DocumentView,
    target: DocumentView,
) -> nat {
    if document_of(from) == source && document_of(to) == target {
        1
    } else {
        0
    }
}

/// What a match map holds under `source`: nothing where it is no key.
pub open spec fn matched_at(
    matches: Map<LocationView, Seq<LocationView>>,
    source: LocationView,
) -> Seq<LocationView> {
    if matches.contains_key(source) {
        matches[source]
    } else {
        Seq::empty()
    }
}

/// No source has two entries, and no entry is without a match.
pub open spec fn match_entries_wf(entries: Seq<(LocationView, Seq<LocationView>)>) -> bool {
    &&& distinct_keys(entries)
    &&& forall|i: int| 0 <= i < entries.len() ==> (#[trigger] entries[i]).1.len() > 0
}

/// The entries after one more match: `matched` comes behind the matches of
/// `source`, in a new last entry where `source` had none.
pub open spec fn with_match(
    entries: Seq<(LocationView, Seq<LocationView>)>,
    source: LocationView,
    matched: LocationView,
) -> Seq<(LocationView, Seq<LocationView>)> {
    if has_key(entries, source) {
        let i = place_of(entries, source);
        entries.update(i, (source, entries[i].1.push(matched)))
    } else {
        entries.push((source, seq![matched]))
    }
}

/// A new last entry adds its own count.
pub proof fn lemma_pair_count_push(
    entries: Seq<(LocationView, Seq<LocationView>)>,
    entry: (LocationView, Seq<LocationView>),
    source: DocumentView,
    target: DocumentView,
)
    ensures
        pair_count(entries.push(entry), source, target) == pair_count(entries, source, target)
            + entry_count(entry, source, target),
{
    assert(entries.push(entry).drop_last() =~= entries);
}

/// Replacing an entry exchanges its count for that of the new entry.
pub proof fn lemma_pair_count_update(
    entries: Seq<(LocationView, Seq<LocationView>)>,
    i: int,
    entry: (LocationView, Seq<LocationView>),
    source: DocumentView,
    target: DocumentView,
)
    requires
        0 <= i < entries.len(),
    ensures
        pair_count(entries.update(i, entry), source, target) + entry_count(
            entries[i],
            source,
            target,
        ) == pair_count(entries, source, target) + entry_count(entry, source, target),
    decreases entries.len(),
{
    let changed = entries.update(i, entry);
    if i == entries.len() - 1 {
        assert(changed.drop_last() =~= entries.drop_last());
    } else {
        assert(changed.drop_last() =~= entries.drop_last().update(i, entry));
        lemma_pair_count_update(entries.drop_last(), i, entry, source, target);
    }
}

/// The count over the first `n + 1` entries is the count over the first `n`
/// and that of entry `n`.
pub proof fn lemma_pair_count_step(
    entries: Seq<(LocationView, Seq<LocationView>)>,
    n: int,
    source: DocumentView,
    target: DocumentView,
)
    requires
        0 <= n < entries.len(),
    ensures
        pair_count(entries.take(n + 1), source, target) == pair_count(
            entries.take(n),
            source,
            target,
        ) + entry_count(entries[n], source, target),
{
    assert(entries.take(n + 1).drop_last() =~= entries.take(n));
}

/// One more match keeps the entries well formed, puts the matched location
/// behind the others under its source, and adds one to the score of the pair
/// of documents that it joins.
pub proof fn lemma_with_match(
    entries: Seq<(LocationView, Seq<LocationView>)>,
    source: LocationView,
    matched: LocationView,
)
    requires
        match_entries_wf(entries),
    ensures
        match_entries_wf(with_match(entries, source, matched)),
        as_map(with_match(entries, source, matched)) == as_map(entries).insert(
            source,
            matched_at(as_map(entries), source).push(matched),
        ),
        forall|s: DocumentView, t: DocumentView| #[trigger]
            pair_count(with_match(entries, source, matched), s, t) == pair_count(entries, s, t)
                + match_weight(source, matched, s, t),
{
    let after = with_match(entries, source, matched);
    if has_key(entries, source) {
        let i = place_of(entries, source);
        lemma_entry(entries, i);
        lemma_update_entry(entries, i, entries[i].1.push(matched));
        assert forall|s: DocumentView, t: DocumentView| #[trigger]
            pair_count(after, s, t) == pair_count(entries, s, t) + match_weight(
                source,
                matched,
                s,
                t,
            ) by {
            lemma_pair_count_update(entries, i, (source, entries[i].1.push(matched)), s, t);
            entries[i].1.lemma_filter_len_push(in_document(t), matched);
        }
    } else {
        lemma_push_entry(entries, source, seq![matched]);
        assert(Seq::<LocationView>::empty().push(matched) =~= seq![matched]);
        assert forall|s: DocumentView, t: DocumentView| #[trigger]
            pair_count(after, s, t) == pair_count(entries, s, t) + match_weight(
                source,
                matched,
                s,
                t,
            ) by {
            lemma_pair_count_push(entries, (source, seq![matched]), s, t);
            Seq::<LocationView>::empty().lemma_filter_len_push(in_document(t), matched);
            Seq::<LocationView>::empty().lemma_filter_len(in_document(t));
        }
    }
}

/// The matches of one source location.
pub struct MatchEntry {
    pub source: Location,
    pub matched: Vec<Location>,
}

/// The entries as pairs of the views of a source and of its matches.
pub open spec fn match_entry_views(entries: Seq<MatchEntry>) -> Seq<
    (LocationView, Seq<LocationView>),
> {
    Seq::new(entries.len(), |i: int| (entries[i].source@, location_views(entries[i].matched@)))
}

/// The digests of the sources of the entries, in order.
pub open spec fn source_digests(entries: Seq<MatchEntry>) -> Seq<u64> {
    Seq::new(entries.len(), |i: int| location_digest(entries[i].source@))
}

/// A mapping from source location to matched locations that remembers the
/// order in which the sources first came. Buckets by digest find the entry of
/// a source.
pub struct MatchMap {
    entries: Vec<MatchEntry>,
    buckets: Buckets,
}

impl View for MatchMap {
    type V = Map<LocationView, Seq<LocationView>>;

    open spec fn view(&self) -> Map<LocationView, Seq<LocationView>> {
        as_map(self.entries())
    }
}

impl MatchMap {
    /// The entries in the order in which their sources first came.
    pub closed spec fn entries(&self) -> Seq<(LocationView, Seq<LocationView>)> {
        match_entry_views(self.entries@)
    }

    /// The buckets list every entry under the digest of its source.
    pub closed spec fn buckets_agree(&self) -> bool {
        self.buckets.tracks(source_digests(self.entries@))
    }

    /// The invariant of a match map.
    pub open spec fn wf(&self) -> bool {
        &&& match_entries_wf(self.entries())
        &&& self.buckets_agree()
    }

    /// The match map without entries.
    pub fn new() -> (matches: MatchMap)
        ensures
            matches.wf(),
            matches.entries() == Seq::<(LocationView, Seq<LocationView>)>::empty(),
            matches@ == Map::<LocationView, Seq<LocationView>>::empty(),
    {
        let matches = MatchMap { entries: Vec::new(), buckets: Buckets::new() };
        proof {
            assert(matches.entries() =~= Seq::<(LocationView, Seq<LocationView>)>::empty());
            assert(source_digests(matches.entries@) =~= Seq::<u64>::empty());
            lemma_no_entries::<LocationView, Seq<LocationView>>();
        }
        matches
    }

    /// The number of source locations.
    pub fn len(&self) -> (n: usize)
        requires
            self.wf(),
        ensures
            n == self.entries().len(),
            n == self@.len(),
    {
        proof {
            lemma_map_size(self.entries());
        }
        self.entries.len()
    }

    /// The entries in the order in which their sources first came.
    pub fn matches(&self) -> (entries: &Vec<MatchEntry>)
        ensures
            match_entry_views(entries@) == self.entries(),
    {
        &self.entries
    }

    /// The place of the entry of `source`, if it has one.
    fn position(&self, source: &Location) -> (found: Option<usize>)
        requires
            self.wf(),
        ensures
            match found {
                Some(i) => has_key(self.entries(), source@) && i == place_of(
                    self.entries(),
                    source@,
                ),
                None => !has_key(self.entries(), source@),
            },
    {
        let digest = source.digest();
        let total: usize = self.entries.len();
        let ghost digests = source_digests(self.entries@);
        proof {
            if has_key(self.entries(), source@) {
                let i = place_of(self.entries(), source@);
                assert(0 <= i < total);
                assert(digests[i] == digest);
                assert(self.buckets.lists(digest, i as usize));
            }
        }
        match self.buckets.candidates(digest) {
            Some(places) => {
                let mut k: usize = 0;
                while k < places.len()
                    invariant
                        k <= places.len(),
                        self.wf(),
                        total == self.entries@.len(),
                        digests == source_digests(self.entries@),
                        forall|place: usize|
                            places@.contains(place) <==> #[trigger] self.buckets.lists(
                                digest,
                                place,
                            ),
                        forall|j: int|
                            0 <= j < k ==> self.entries()[(#[trigger] places@[j]) as int].0
                                != source@,
                    decreases places.len() - k,
                {
                    let at: usize = places[k];
                    assert(places@.contains(at));
                    assert(self.buckets.lists(digest, at));
                    if self.entries[at].source == *source {
                        proof {
                            assert(self.entries()[at as int].0 == source@);
                            lemma_entry(self.entries(), at as int);
                        }
                        return Some(at);
                    }
                    k += 1;
                }
                proof {
                    if has_key(self.entries(), source@) {
                        let i = place_of(self.entries(), source@);
                        assert(0 <= i < total);
                        assert(places@.contains(i as usize));
                        let j = choose|j: int| 0 <= j < places@.len() && places@[j] == i as usize;
                        assert(self.entries()[places@[j] as int].0 != source@);
                    }
                }
                None
            },
            None => None,
        }
    }

    /// The locations matched by `source`, if it has any.
    pub fn get(&self, source: &Location) -> (found: Option<&Vec<Location>>)
        requires
            self.wf(),
        ensures
            match found {
                Some(matched) => self@.contains_key(source@) && self@[source@] == location_views(
                    matched@,
                ),
                None => !self@.contains_key(source@),
            },
    {
        match self.position(source) {
            Some(i) => {
                proof {
                    lemma_entry(self.entries(), i as int);
                }
                Some(&self.entries[i].matched)
            },
            None => None,
        }
    }

    /// Records that `source` matches `matched`, behind the matches that
    /// `source` already has.
    pub fn add_match(&mut self, source: Location, matched: Location)
        requires
            old(self).wf(),
        ensures
            final(self).wf(),
            final(self).entries() == with_match(old(self).entries(), source@, matched@),
            final(self)@ == old(self)@.insert(
                source@,
                matched_at(old(self)@, source@).push(matched@),
            ),
            forall|s: DocumentView, t: DocumentView| #[trigger]
                pair_count(final(self).entries(), s, t) == pair_count(old(self).entries(), s, t)
                    + match_weight(source@, matched@, s, t),
    {
        let ghost before = self.entries();
        let ghost stored = self.entries@;
        proof {
            lemma_with_match(before, source@, matched@);
        }
        match self.position(&source) {
            Some(i) => {
                self.entries[i].matched.push(matched);
                proof {
                    assert(location_views(self.entries@[i as int].matched@) =~= location_views(
                        stored[i as int].matched@,
                    ).push(matched@));
                    assert(self.entries() =~= with_match(before, source@, matched@));
                    assert(source_digests(self.entries@) =~= source_digests(stored));
                }
            },
            None => {
                let ghost first = matched@;
                let digest = source.digest();
                let place: usize = self.entries.len();
                let mut list: Vec<Location> = Vec::new();
                list.push(matched);
                self.entries.push(MatchEntry { source, matched: list });
                self.buckets.add(digest, place);
                proof {
                    assert(location_views(list@) =~= seq![first]);
                    assert(self.entries() =~= with_match(before, source@, first));
                    assert(source_digests(self.entries@) =~= source_digests(stored).push(digest));
                }
            },
        }
    }
}

} // verus!
