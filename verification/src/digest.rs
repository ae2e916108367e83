//! Digests of the value types: a 64-bit number that depends on nothing but
//! the view of a value, by which the collections find an entry without going
//! through all of them. Two different values may share a digest.

use crate::model::{document_of, Document, DocumentView, Location, LocationView};
use vstd::prelude::*;
use vstd::utf8::encode_utf8;

verus! {

/// The state that a digest starts from.
pub const DIGEST_START: u64 = 0xcbf2_9ce4_8422_2325;

/// The factor by which a digest is multiplied after each step.
pub const DIGEST_FACTOR: u64 = 0x0000_0100_0000_01b3;

/// The byte that is stirred in between two fields.
pub const DIGEST_GAP: u8 = 0xff;

/// One step of a digest: the word is mixed into the state.
pub open spec fn stir(state: u64, word: u64) -> u64 {
    (state ^ word).wrapping_mul(DIGEST_FACTOR)
}

/// The digest of a sequence of bytes, begun at `state`.
pub open spec fn digest_bytes(state: u64, bytes: Seq<u8>) -> u64
    decreases bytes.len(),
{
    if bytes.len() == 0 {
        state
    } else {
        stir(digest_bytes(state, bytes.drop_last()), bytes.last() as u64)
    }
}

/// The digest of a repository identifier.
pub open spec fn name_digest(name: Seq<char>) -> u64 {
    digest_bytes(DIGEST_START, encode_utf8(name))
}

/// The digest of a document.
pub open spec fn document_digest(document: DocumentView) -> u64 {
    let repo = digest_bytes(DIGEST_START, encode_utf8(document.repo));
    let commit = digest_bytes(stir(repo, DIGEST_GAP as u64), document.commit);
    digest_bytes(stir(commit, DIGEST_GAP as u64), encode_utf8(document.file))
}

/// The digest of a location.
pub open spec fn location_digest(location: LocationView) -> u64 {
    stir(document_digest(document_of(location)), location.line as u64)
}

/// The digest of an ordered pair of documents.
pub open spec fn pair_digest(pair: (DocumentView, DocumentView)) -> u64 {
    stir(stir(DIGEST_START, document_digest(pair.0)), document_digest(pair.1))
}

/// Mixes a word into a digest.
pub fn stir_word(state: u64, word: u64) -> (mixed: u64)
    ensures
        mixed == stir(state, word),
{
    (state ^ word).wrapping_mul(DIGEST_FACTOR)
}

/// Continues a digest over `bytes`.
pub fn hash_bytes(state: u64, bytes: &[u8]) -> (digest: u64)
    ensures
        digest == digest_bytes(state, bytes@),
{
    let mut digest: u64 = state;
    let mut i: usize = 0;
    assert(bytes@.take(0) =~= Seq::<u8>::empty());
    while i < bytes.len()
        invariant
            i <= bytes.len(),
            digest == digest_bytes(state, bytes@.take(i as int)),
        decreases bytes.len() - i,
    {
        assert(bytes@.take(i + 1).drop_last() =~= bytes@.take(i as int));
        digest = stir_word(digest, bytes[i] as u64);
        i += 1;
    }
    assert(bytes@.take(i as int) =~= bytes@);
    digest
}

/// The digest of a repository identifier.
pub fn hash_name(name: &String) -> (digest: u64)
    ensures
        digest == name_digest(name@),
{
    hash_bytes(DIGEST_START, name.as_str().as_bytes())
}

/// The digest of the three fields that name a document.
fn hash_document_fields(repo: &String, commit: &[u8; 20], file: &String) -> (digest: u64)
    ensures
        digest == document_digest(DocumentView { repo: repo@, commit: commit@, file: file@ }),
{
    let first = hash_bytes(DIGEST_START, repo.as_str().as_bytes());
    let second = hash_bytes(stir_word(first, DIGEST_GAP as u64), commit.as_slice());
    hash_bytes(stir_word(second, DIGEST_GAP as u64), file.as_str().as_bytes())
}

impl Document {
    /// The digest of this document.
    pub fn digest(&self) -> (digest: u64)
        ensures
            digest == document_digest(self@),
    {
        hash_document_fields(&self.repo, &self.commit, &self.file)
    }
}

impl Location {
    /// The digest of this location.
    pub fn digest(&self) -> (digest: u64)
        ensures
            digest == location_digest(self@),
    {
        let document = hash_document_fields(&self.repo, &self.commit, &self.file);
        stir_word(document, self.line as u64)
    }
}

/// The digest of the ordered pair `(source, target)`.
pub fn hash_pair(source: &Document, target: &Document) -> (digest: u64)
    ensures
        digest == pair_digest((source@, target@)),
{
    stir_word(stir_word(DIGEST_START, source.digest()), target.digest())
}

} // verus!
