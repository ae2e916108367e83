//! The document enumerator: the documents in which the indexed locations lie.

use crate::assoc::{as_map, lemma_entry, place_of};
use crate::buckets::Buckets;
use crate::digest::document_digest;
use crate::index::{posting_views, postings_wf, InvertedIndex};
use crate::model::{document_of, document_views, Document, DocumentView, LocationView};
use vstd::prelude::*;

verus! {

/// The location at place `j` of the posting at place `i`.
pub open spec fn located(postings: Seq<(u64, Seq<LocationView>)>, i: int, j: int) -> LocationView {
    postings[i].1[j]
}

/// The documents of every location that the index holds.
pub open spec fn documents_of(index: Map<u64, Seq<LocationView>>) -> Set<DocumentView> {
    Set::new(
        |document: DocumentView|
            exists|hash: u64, j: int|
                index.contains_key(hash) && 0 <= j < index[hash].len() && document_of(
                    #[trigger] index[hash][j],
                ) == document,
    )
}

/// The documents of the locations that come before place `j` of posting `i`:
/// those of the postings before `i`, and the first `j` of posting `i`.
pub open spec fn documents_before(postings: Seq<(u64, Seq<LocationView>)>, i: int, j: int) -> Set<
    DocumentView,
> {
    Set::new(
        |document: DocumentView|
            exists|a: int, b: int|
                0 <= a < postings.len() && 0 <= b < postings[a].1.len() && (a < i || (a == i && b
                    < j)) && document_of(#[trigger] located(postings, a, b)) == document,
    )
}

/// Passing one more location adds its document.
proof fn lemma_documents_step(postings: Seq<(u64, Seq<LocationView>)>, i: int, j: int)
    requires
        0 <= i < postings.len(),
        0 <= j < postings[i].1.len(),
    ensures
        documents_before(postings, i, j + 1) == documents_before(postings, i, j).insert(
            document_of(postings[i].1[j]),
        ),
{
    let next = documents_before(postings, i, j + 1);
    let expected = documents_before(postings, i, j).insert(document_of(postings[i].1[j]));
    assert forall|d: DocumentView| next.contains(d) <==> expected.contains(d) by {
        if next.contains(d) {
            let (a, b) = choose|a: int, b: int|
                0 <= a < postings.len() && 0 <= b < postings[a].1.len() && (a < i || (a == i && b
                    < j + 1)) && document_of(#[trigger] located(postings, a, b)) == d;
            if a == i && b == j {
            } else {
                assert(document_of(located(postings, a, b)) == d);
            }
        }
        if expected.contains(d) {
            if documents_before(postings, i, j).contains(d) {
                let (a, b) = choose|a: int, b: int|
                    0 <= a < postings.len() && 0 <= b < postings[a].1.len() && (a < i || (a == i
                        && b < j)) && document_of(#[trigger] located(postings, a, b)) == d;
                assert(document_of(located(postings, a, b)) == d);
            } else {
                assert(document_of(located(postings, i, j)) == d);
            }
        }
    }
    assert(next =~= expected);
}

/// Behind the last location of a posting comes the first of the next.
proof fn lemma_documents_next_posting(postings: Seq<(u64, Seq<LocationView>)>, i: int)
    requires
        0 <= i < postings.len(),
    ensures
        documents_before(postings, i + 1, 0) == documents_before(
            postings,
            i,
            postings[i].1.len() as int,
        ),
{
    let next = documents_before(postings, i + 1, 0);
    let last = documents_before(postings, i, postings[i].1.len() as int);
    assert forall|d: DocumentView| next.contains(d) <==> last.contains(d) by {
        if next.contains(d) {
            let (a, b) = choose|a: int, b: int|
                0 <= a < postings.len() && 0 <= b < postings[a].1.len() && (a < i + 1 || (a == i
                    + 1 && b < 0)) && document_of(#[trigger] located(postings, a, b)) == d;
            assert(document_of(located(postings, a, b)) == d);
        }
        if last.contains(d) {
            let (a, b) = choose|a: int, b: int|
                0 <= a < postings.len() && 0 <= b < postings[a].1.len() && (a < i || (a == i && b
                    < postings[i].1.len())) && document_of(#[trigger] located(postings, a, b))
                    == d;
            assert(document_of(located(postings, a, b)) == d);
        }
    }
    assert(next =~= last);
}

/// Behind the last posting every location of the index has been passed.
proof fn lemma_documents_all(postings: Seq<(u64, Seq<LocationView>)>)
    requires
        postings_wf(postings),
    ensures
        documents_before(postings, postings.len() as int, 0) == documents_of(as_map(postings)),
{
    let passed = documents_before(postings, postings.len() as int, 0);
    let all = documents_of(as_map(postings));
    let index = as_map(postings);
    assert forall|d: DocumentView| passed.contains(d) <==> all.contains(d) by {
        if passed.contains(d) {
            let (a, b) = choose|a: int, b: int|
                0 <= a < postings.len() && 0 <= b < postings[a].1.len() && (a < postings.len()
                    || (a == postings.len() && b < 0)) && document_of(
                    #[trigger] located(postings, a, b),
                ) == d;
            lemma_entry(postings, a);
            assert(document_of(index[postings[a].0][b]) == d);
        }
        if all.contains(d) {
            let (hash, j) = choose|hash: u64, j: int|
                index.contains_key(hash) && 0 <= j < index[hash].len() && document_of(
                    #[trigger] index[hash][j],
                ) == d;
            let a = place_of(postings, hash);
            assert(document_of(located(postings, a, j)) == d);
        }
    }
    assert(passed =~= all);
}

/// The digests of the documents, in order.
pub open spec fn member_digests(members: Seq<Document>) -> Seq<u64> {
    Seq::new(members.len(), |i: int| document_digest(members[i]@))
}

/// A set of documents that remembers the order in which they first came.
/// Buckets by digest find a document.
pub struct DocumentSet {
    members: Vec<Document>,
    buckets: Buckets,
}

impl View for DocumentSet {
    type V = Set<DocumentView>;

    open spec fn view(&self) -> Set<DocumentView> {
        self.members().to_set()
    }
}

impl DocumentSet {
    /// The documents in the order in which they first came.
    pub closed spec fn members(&self) -> Seq<DocumentView> {
        document_views(self.members@)
    }

    /// The buckets list every document under its digest.
    pub closed spec fn buckets_agree(&self) -> bool {
        self.buckets.tracks(member_digests(self.members@))
    }

    /// The invariant of a document set: no document is held twice.
    pub open spec fn wf(&self) -> bool {
        &&& self.members().no_duplicates()
        &&& self.buckets_agree()
    }

    /// The empty set.
    pub fn new() -> (documents: DocumentSet)
        ensures
            documents.wf(),
            documents.members() == Seq::<DocumentView>::empty(),
            documents@ == Set::<DocumentView>::empty(),
    {
        let documents = DocumentSet { members: Vec::new(), buckets: Buckets::new() };
        proof {
            assert(documents.members() =~= Seq::<DocumentView>::empty());
            assert(member_digests(documents.members@) =~= Seq::<u64>::empty());
            assert(documents@ =~= Set::<DocumentView>::empty());
        }
        documents
    }

    /// The number of documents.
    pub fn len(&self) -> (n: usize)
        requires
            self.wf(),
        ensures
            n == self.members().len(),
            n == self@.len(),
    {
        proof {
            self.members().unique_seq_to_set();
        }
        self.members.len()
    }

    /// The documents in the order in which they first came.
    pub fn documents(&self) -> (documents: &Vec<Document>)
        ensures
            document_views(documents@) == self.members(),
    {
        &self.members
    }

    /// Whether `document` is in the set.
    pub fn contains(&self, document: &Document) -> (found: bool)
        requires
            self.wf(),
        ensures
            found == self@.contains(document@),
    {
        let digest = document.digest();
        let total: usize = self.members.len();
        let ghost digests = member_digests(self.members@);
        proof {
            if self.members().contains(document@) {
                let i = choose|i: int| 0 <= i < self.members().len() && self.members()[i]
                    == document@;
                assert(0 <= i < total);
                assert(digests[i] == digest);
                assert(self.buckets.lists(digest, i as usize));
            }
        }
        match self.buckets.candidates(digest) {
            Some(places) => {
                let mut k: usize = 0;
                while k < places.len()
                    invariant
                        k <= places.len(),
                        self.wf(),
                        total == self.members@.len(),
                        digests == member_digests(self.members@),
                        forall|place: usize|
                            places@.contains(place) <==> #[trigger] self.buckets.lists(
                                digest,
                                place,
                            ),
                        forall|j: int|
                            0 <= j < k ==> self.members()[(#[trigger] places@[j]) as int]
                                != document@,
                    decreases places.len() - k,
                {
                    let at: usize = places[k];
                    assert(places@.contains(at));
                    assert(self.buckets.lists(digest, at));
                    if self.members[at] == *document {
                        assert(self.members()[at as int] == document@);
                        return true;
                    }
                    k += 1;
                }
                proof {
                    if self.members().contains(document@) {
                        let i = choose|i: int|
                            0 <= i < self.members().len() && self.members()[i] == document@;
                        assert(0 <= i < total);
                        assert(places@.contains(i as usize));
                        let j = choose|j: int| 0 <= j < places@.len() && places@[j] == i as usize;
                        assert(self.members()[places@[j] as int] != document@);
                    }
                }
                false
            },
            None => false,
        }
    }

    /// Puts `document` into the set and says whether it was new.
    pub fn insert(&mut self, document: Document) -> (added: bool)
        requires
            old(self).wf(),
        ensures
            final(self).wf(),
            added == !old(self)@.contains(document@),
            final(self)@ == old(self)@.insert(document@),
            final(self).members() == if added {
                old(self).members().push(document@)
            } else {
                old(self).members()
            },
    {
        let ghost before = self.members();
        let ghost stored = self.members@;
        let ghost new = document@;
        if self.contains(&document) {
            assert(self@ =~= old(self)@.insert(new));
            false
        } else {
            let digest = document.digest();
            let place: usize = self.members.len();
            self.members.push(document);
            self.buckets.add(digest, place);
            proof {
                assert(self.members() =~= before.push(new));
                assert(member_digests(self.members@) =~= member_digests(stored).push(digest));
                assert forall|d: DocumentView|
                    self.members().contains(d) <==> (d == new || before.contains(d)) by {
                    if self.members().contains(d) {
                        let i = choose|i: int|
                            0 <= i < self.members().len() && self.members()[i] == d;
                        if i < before.len() {
                            assert(before[i] == d);
                        }
                    }
                    if before.contains(d) {
                        let i = choose|i: int| 0 <= i < before.len() && before[i] == d;
                        assert(self.members()[i] == d);
                    }
                    if d == new {
                        assert(self.members()[before.len() as int] == d);
                    }
                }
                assert(self@ =~= old(self)@.insert(new));
            }
            true
        }
    }
}

/// Collects the document of every location that the index holds; a document
/// with several locations is collected once.
pub fn enumerate_documents(index: &InvertedIndex) -> (documents: DocumentSet)
    requires
        index.wf(),
    ensures
        documents.wf(),
        documents@ == documents_of(index@),
{
    let postings = index.postings();
    let ghost entries = index.entries();
    let mut documents = DocumentSet::new();
    let mut i: usize = 0;
    assert(documents_before(entries, 0, 0) =~= Set::<DocumentView>::empty());
    while i < postings.len()
        invariant
            i <= postings.len(),
            entries == index.entries(),
            posting_views(postings@) == entries,
            documents.wf(),
            documents@ == documents_before(entries, i as int, 0),
        decreases postings.len() - i,
    {
        let locations = &postings[i].locations;
        let mut j: usize = 0;
        assert(entries[i as int].1.len() == locations@.len());
        while j < locations.len()
            invariant
                j <= locations.len(),
                i < postings.len(),
                posting_views(postings@) == entries,
                locations == postings@[i as int].locations,
                entries[i as int].1.len() == locations@.len(),
                documents.wf(),
                documents@ == documents_before(entries, i as int, j as int),
            decreases locations.len() - j,
        {
            assert(entries[i as int].1[j as int] == locations@[j as int]@);
            documents.insert(locations[j].document());
            proof {
                lemma_documents_step(entries, i as int, j as int);
            }
            j += 1;
        }
        proof {
            lemma_documents_next_posting(entries, i as int);
        }
        i += 1;
    }
    proof {
        lemma_documents_all(entries);
    }
    documents
}

} // verus!
