//! The value types of the pipeline and their mathematical views.

use vstd::prelude::*;
use vstd::std_specs::cmp::PartialEqSpecImpl;

verus! {

/// Where a fingerprint was taken: one line of one file at one revision of one
/// repository.
#[derive(Debug)]
pub struct Location {
    pub repo: String,
    pub commit: [u8; 20],
    pub file: String,
    pub line: usize,
}

/// A location as a plain value: two locations are the same exactly when their
/// views are equal.
pub struct LocationView {
    pub repo: Seq<char>,
    pub commit: Seq<u8>,
    pub file: Seq<char>,
    pub line: nat,
}

/// One versioned file: a location without its line.
#[derive(Debug)]
pub struct Document {
    pub repo: String,
    pub commit: [u8; 20],
    pub file: String,
}

/// A document as a plain value.
pub struct DocumentView {
    pub repo: Seq<char>,
    pub commit: Seq<u8>,
    pub file: Seq<char>,
}

/// A content hash together with the place that produced it.
#[derive(Debug)]
pub struct Fingerprint {
    pub hash: u64,
    pub location: Location,
}

/// A fingerprint as a plain value.
pub struct FingerprintView {
    pub hash: u64,
    pub location: LocationView,
}

impl View for Location {
    type V = LocationView;

    open spec fn view(&self) -> LocationView {
        LocationView {
            repo: self.repo@,
            commit: self.commit@,
            file: self.file@,
            line: self.line as nat,
        }
    }
}

impl View for Document {
    type V = DocumentView;

    open spec fn view(&self) -> DocumentView {
        DocumentView { repo: self.repo@, commit: self.commit@, file: self.file@ }
    }
}

impl View for Fingerprint {
    type V = FingerprintView;

    open spec fn view(&self) -> FingerprintView {
        FingerprintView { hash: self.hash, location: self.location@ }
    }
}

/// The views of a sequence of locations, in order.
pub open spec fn location_views(locations: Seq<Location>) -> Seq<LocationView> {
    Seq::new(locations.len(), |i: int| locations[i]@)
}

/// The views of a sequence of documents, in order.
pub open spec fn document_views(documents: Seq<Document>) -> Seq<DocumentView> {
    Seq::new(documents.len(), |i: int| documents[i]@)
}

/// The views of a sequence of fingerprints, in order.
pub open spec fn fingerprint_views(fingerprints: Seq<Fingerprint>) -> Seq<FingerprintView> {
    Seq::new(fingerprints.len(), |i: int| fingerprints[i]@)
}

/// The document that a location lies in.
pub open spec fn document_of(location: LocationView) -> DocumentView {
    DocumentView { repo: location.repo, commit: location.commit, file: location.file }
}

/// Whether two revision identifiers hold the same bytes.
pub fn same_commit(a: &[u8; 20], b: &[u8; 20]) -> (same: bool)
    ensures
        same == (a@ == b@),
{
    let mut i: usize = 0;
    while i < 20
        invariant
            i <= 20,
            forall|j: int| 0 <= j < i ==> a@[j] == b@[j],
        decreases 20 - i,
    {
        if a[i] != b[i] {
            return false;
        }
        i += 1;
    }
    assert(a@ =~= b@);
    true
}

impl Location {
    /// The document that this location lies in.
    pub fn document(&self) -> (document: Document)
        ensures
            document@ == document_of(self@),
    {
        Document { repo: self.repo.clone(), commit: self.commit, file: self.file.clone() }
    }

    /// Whether this location lies in `document`.
    pub fn is_in(&self, document: &Document) -> (inside: bool)
        ensures
            inside == (document_of(self@) == document@),
    {
        self.repo == document.repo && same_commit(&self.commit, &document.commit) && self.file
            == document.file
    }
}

impl Clone for Location {
    fn clone(&self) -> (copy: Self)
        ensures
            copy@ == self@,
    {
        Location {
            repo: self.repo.clone(),
            commit: self.commit,
            file: self.file.clone(),
            line: self.line,
        }
    }
}

impl PartialEq for Location {
    fn eq(&self, other: &Self) -> (equal: bool) {
        self.repo == other.repo && same_commit(&self.commit, &other.commit) && self.file
            == other.file && self.line == other.line
    }
}

impl PartialEqSpecImpl for Location {
    open spec fn obeys_eq_spec() -> bool {
        true
    }

    open spec fn eq_spec(&self, other: &Self) -> bool {
        self@ == other@
    }
}

impl Eq for Location {

}

impl Clone for Document {
    fn clone(&self) -> (copy: Self)
        ensures
            copy@ == self@,
    {
        Document { repo: self.repo.clone(), commit: self.commit, file: self.file.clone() }
    }
}

impl PartialEq for Document {
    fn eq(&self, other: &Self) -> (equal: bool) {
        self.repo == other.repo && same_commit(&self.commit, &other.commit) && self.file
            == other.file
    }
}

impl PartialEqSpecImpl for Document {
    open spec fn obeys_eq_spec() -> bool {
        true
    }

    open spec fn eq_spec(&self, other: &Self) -> bool {
        self@ == other@
    }
}

impl Eq for Document {

}

impl Clone for Fingerprint {
    fn clone(&self) -> (copy: Self)
        ensures
            copy@ == self@,
    {
        Fingerprint { hash: self.hash, location: self.location.clone() }
    }
}

impl PartialEq for Fingerprint {
    fn eq(&self, other: &Self) -> (equal: bool) {
        self.hash == other.hash && self.location == other.location
    }
}

impl PartialEqSpecImpl for Fingerprint {
    open spec fn obeys_eq_spec() -> bool {
        true
    }

    open spec fn eq_spec(&self, other: &Self) -> bool {
        self@ == other@
    }
}

impl Eq for Fingerprint {

}

} // verus!
