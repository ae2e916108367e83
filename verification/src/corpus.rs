//! The corpus: repositories in insertion order, each with its fingerprints.

use crate::buckets::Buckets;
use crate::digest::{hash_name, name_digest};
use crate::model::{fingerprint_views, Fingerprint, FingerprintView, LocationView};
use vstd::prelude::*;

verus! {

/// The fingerprints filed under one repository identifier.
pub struct Repository {
    pub name: String,
    pub fingerprints: Vec<Fingerprint>,
}

/// A repository as a plain value.
pub struct RepositoryView {
    pub name: Seq<char>,
    pub fingerprints: Seq<FingerprintView>,
}

impl View for Repository {
    type V = RepositoryView;

    open spec fn view(&self) -> RepositoryView {
        RepositoryView { name: self.name@, fingerprints: fingerprint_views(self.fingerprints@) }
    }
}

/// The views of a sequence of repositories, in order.
pub open spec fn repository_views(repositories: Seq<Repository>) -> Seq<RepositoryView> {
    Seq::new(repositories.len(), |i: int| repositories[i]@)
}

/// One fingerprint of the corpus together with the identifier of the
/// repository that it is filed under.
pub struct Occurrence {
    pub repo: Seq<char>,
    pub hash: u64,
    pub location: LocationView,
}

/// The occurrence that `fingerprint` is when filed under `repo`.
pub open spec fn occurrence_of(repo: Seq<char>, fingerprint: FingerprintView) -> Occurrence {
    Occurrence { repo, hash: fingerprint.hash, location: fingerprint.location }
}

/// The occurrences of one repository, in the order of its fingerprints.
pub open spec fn repository_occurrences(repository: RepositoryView) -> Seq<Occurrence> {
    Seq::new(
        repository.fingerprints.len(),
        |i: int| occurrence_of(repository.name, repository.fingerprints[i]),
    )
}

/// Every occurrence of the corpus: repository after repository, and within a
/// repository fingerprint after fingerprint.
pub open spec fn occurrences(corpus: Seq<RepositoryView>) -> Seq<Occurrence>
    decreases corpus.len(),
{
    if corpus.len() == 0 {
        Seq::empty()
    } else {
        occurrences(corpus.drop_last()) + repository_occurrences(corpus.last())
    }
}

/// No two repositories share an identifier.
pub open spec fn distinct_names(corpus: Seq<RepositoryView>) -> bool {
    forall|i: int, j: int|
        0 <= i < j < corpus.len() ==> (#[trigger] corpus[i]).name != (#[trigger] corpus[j]).name
}

/// The occurrences of the first `n + 1` repositories are those of the first
/// `n` followed by those of repository `n`.
pub proof fn lemma_occurrences_step(corpus: Seq<RepositoryView>, n: int)
    requires
        0 <= n < corpus.len(),
    ensures
        occurrences(corpus.take(n + 1)) == occurrences(corpus.take(n)) + repository_occurrences(
            corpus[n],
        ),
{
    assert(corpus.take(n + 1).drop_last() =~= corpus.take(n));
}

/// The occurrences of the first `n` repositories open the occurrences of the
/// corpus.
pub proof fn lemma_occurrences_prefix(corpus: Seq<RepositoryView>, n: int)
    requires
        0 <= n <= corpus.len(),
    ensures
        occurrences(corpus.take(n)).len() <= occurrences(corpus).len(),
        forall|k: int|
            0 <= k < occurrences(corpus.take(n)).len() ==> #[trigger] occurrences(corpus)[k]
                == occurrences(corpus.take(n))[k],
    decreases corpus.len() - n,
{
    if n == corpus.len() {
        assert(corpus.take(n) =~= corpus);
    } else {
        lemma_occurrences_step(corpus, n);
        lemma_occurrences_prefix(corpus, n + 1);
        let all = occurrences(corpus);
        let shorter = occurrences(corpus.take(n));
        assert forall|k: int| 0 <= k < shorter.len() implies #[trigger] all[k] == shorter[k] by {
            assert(occurrences(corpus.take(n + 1))[k] == shorter[k]);
        }
    }
}

/// The digests of the identifiers of the repositories, in order.
pub open spec fn repository_digests(repositories: Seq<Repository>) -> Seq<u64> {
    Seq::new(repositories.len(), |i: int| name_digest(repositories[i].name@))
}

/// A mapping from repository identifier to fingerprints that remembers the
/// order in which the repositories were first inserted. Buckets by digest
/// find the repository of an identifier.
pub struct Corpus {
    repositories: Vec<Repository>,
    buckets: Buckets,
}

impl View for Corpus {
    type V = Seq<RepositoryView>;

    closed spec fn view(&self) -> Seq<RepositoryView> {
        repository_views(self.repositories@)
    }
}

impl Corpus {
    /// The buckets list every repository under the digest of its identifier.
    pub closed spec fn buckets_agree(&self) -> bool {
        self.buckets.tracks(repository_digests(self.repositories@))
    }

    /// The invariant of a corpus: it is a mapping, so no identifier occurs
    /// twice.
    pub open spec fn wf(&self) -> bool {
        &&& distinct_names(self@)
        &&& self.buckets_agree()
    }

    /// The corpus without repositories.
    pub fn new() -> (corpus: Corpus)
        ensures
            corpus.wf(),
            corpus@ == Seq::<RepositoryView>::empty(),
    {
        let corpus = Corpus { repositories: Vec::new(), buckets: Buckets::new() };
        assert(corpus@ =~= Seq::<RepositoryView>::empty());
        assert(repository_digests(corpus.repositories@) =~= Seq::<u64>::empty());
        corpus
    }

    /// The repositories in insertion order.
    pub fn repositories(&self) -> (repositories: &Vec<Repository>)
        ensures
            repository_views(repositories@) == self@,
    {
        &self.repositories
    }

    /// The place of the repository called `name`, if there is one.
    pub fn position(&self, name: &String) -> (found: Option<usize>)
        requires
            self.wf(),
        ensures
            match found {
                Some(i) => i < self@.len() && self@[i as int].name == name@,
                None => forall|i: int| 0 <= i < self@.len() ==> (#[trigger] self@[i]).name != name@,
            },
    {
        let digest = hash_name(name);
        let total: usize = self.repositories.len();
        let ghost digests = repository_digests(self.repositories@);
        match self.buckets.candidates(digest) {
            Some(places) => {
                let mut k: usize = 0;
                while k < places.len()
                    invariant
                        k <= places.len(),
                        self.wf(),
                        total == self.repositories@.len(),
                        digests == repository_digests(self.repositories@),
                        forall|place: usize|
                            places@.contains(place) <==> #[trigger] self.buckets.lists(
                                digest,
                                place,
                            ),
                        forall|j: int|
                            0 <= j < k ==> self@[(#[trigger] places@[j]) as int].name != name@,
                    decreases places.len() - k,
                {
                    let at: usize = places[k];
                    assert(places@.contains(at));
                    assert(self.buckets.lists(digest, at));
                    if self.repositories[at].name == *name {
                        return Some(at);
                    }
                    k += 1;
                }
                proof {
                    assert forall|i: int| 0 <= i < self@.len() implies (#[trigger] self@[i]).name
                        != name@ by {
                        if self@[i].name == name@ {
                            assert(0 <= i < total);
                            assert(digests[i] == digest);
                            assert(self.buckets.lists(digest, i as usize));
                            assert(places@.contains(i as usize));
                            let j = choose|j: int|
                                0 <= j < places@.len() && places@[j] == i as usize;
                            assert(self@[places@[j] as int].name != name@);
                        }
                    }
                }
                None
            },
            None => {
                proof {
                    assert forall|i: int| 0 <= i < self@.len() implies (#[trigger] self@[i]).name
                        != name@ by {
                        if self@[i].name == name@ {
                            assert(0 <= i < total);
                            assert(digests[i] == digest);
                            assert(self.buckets.lists(digest, i as usize));
                        }
                    }
                }
                None
            },
        }
    }

    /// Files `fingerprints` under `name`. Where the corpus already held a
    /// repository of that name, its fingerprints are replaced and handed
    /// back; otherwise the repository is added behind the others.
    pub fn insert(&mut self, name: String, fingerprints: Vec<Fingerprint>) -> (previous: Option<
        Vec<Fingerprint>,
    >)
        requires
            old(self).wf(),
        ensures
            final(self).wf(),
            match previous {
                Some(replaced) => exists|i: int|
                    0 <= i < old(self)@.len() && (#[trigger] old(self)@[i]).name == name@
                        && old(self)@[i].fingerprints == fingerprint_views(replaced@)
                        && final(self)@ == old(self)@.update(
                        i,
                        RepositoryView {
                            name: name@,
                            fingerprints: fingerprint_views(fingerprints@),
                        },
                    ),
                None => (forall|i: int|
                    0 <= i < old(self)@.len() ==> (#[trigger] old(self)@[i]).name != name@)
                    && final(self)@ == old(self)@.push(
                    RepositoryView { name: name@, fingerprints: fingerprint_views(fingerprints@) },
                ),
            },
    {
        let ghost added = RepositoryView {
            name: name@,
            fingerprints: fingerprint_views(fingerprints@),
        };
        let ghost stored = self.repositories@;
        match self.position(&name) {
            Some(i) => {
                let mut replaced = fingerprints;
                std::mem::swap(&mut self.repositories[i].fingerprints, &mut replaced);
                assert(self@ =~= old(self)@.update(i as int, added));
                assert(repository_digests(self.repositories@) =~= repository_digests(stored));
                Some(replaced)
            },
            None => {
                let digest = hash_name(&name);
                let place: usize = self.repositories.len();
                self.repositories.push(Repository { name, fingerprints });
                self.buckets.add(digest, place);
                assert(self@ =~= old(self)@.push(added));
                assert(repository_digests(self.repositories@) =~= repository_digests(stored).push(
                    digest,
                ));
                None
            },
        }
    }
}

} // verus!
