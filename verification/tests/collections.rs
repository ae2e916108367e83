use overlap_detector::buckets::Buckets;
use overlap_detector::corpus::Corpus;
use overlap_detector::digest::{hash_bytes, hash_pair, stir_word, DIGEST_START};
use overlap_detector::documents::DocumentSet;
use overlap_detector::matches::MatchMap;
use overlap_detector::model::{Document, Fingerprint, Location};
use overlap_detector::pairs::PairScores;

fn spot(file: &str, line: usize) -> Location {
    Location { repo: "repo".to_string(), commit: [0u8; 20], file: file.to_string(), line }
}

fn doc(file: &str) -> Document {
    Document { repo: "repo".to_string(), commit: [0u8; 20], file: file.to_string() }
}

#[test]
fn locations_are_equal_when_all_four_fields_are() {
    let base = spot("a.rs", 3);
    assert_eq!(base, spot("a.rs", 3));
    assert_ne!(base, spot("a.rs", 4));
    assert_ne!(base, spot("b.rs", 3));
    let mut other_repo = spot("a.rs", 3);
    other_repo.repo = "other".to_string();
    assert_ne!(base, other_repo);
    let mut other_commit = spot("a.rs", 3);
    other_commit.commit[5] = 1;
    assert_ne!(base, other_commit);
    assert_eq!(base.clone(), base);
}

#[test]
fn document_of_a_location_drops_the_line() {
    let here = spot("a.rs", 3);
    assert_eq!(here.document(), doc("a.rs"));
    assert_eq!(spot("a.rs", 99).document(), here.document());
    assert!(here.is_in(&doc("a.rs")));
    assert!(!here.is_in(&doc("b.rs")));
    let mut elsewhere = doc("a.rs");
    elsewhere.commit[0] = 9;
    assert!(!here.is_in(&elsewhere));
    assert_eq!(doc("a.rs").clone(), doc("a.rs"));
}

#[test]
fn fingerprints_are_equal_by_hash_and_location() {
    let one = Fingerprint { hash: 1, location: spot("a.rs", 1) };
    assert_eq!(one.clone(), one);
    assert_ne!(one, Fingerprint { hash: 2, location: spot("a.rs", 1) });
    assert_ne!(one, Fingerprint { hash: 1, location: spot("a.rs", 2) });
}

#[test]
fn corpus_insert_adds_and_replaces() {
    let mut corpus = Corpus::new();
    assert!(corpus.repositories().is_empty());
    let first = vec![Fingerprint { hash: 1, location: spot("a.rs", 1) }];
    let second = vec![Fingerprint { hash: 2, location: spot("b.rs", 2) }];
    let third = vec![Fingerprint { hash: 3, location: spot("c.rs", 3) }];
    assert_eq!(corpus.insert("one".to_string(), first.clone()), None);
    assert_eq!(corpus.insert("two".to_string(), second.clone()), None);
    assert_eq!(corpus.position(&"one".to_string()), Some(0));
    assert_eq!(corpus.position(&"two".to_string()), Some(1));
    assert_eq!(corpus.position(&"three".to_string()), None);
    assert_eq!(corpus.insert("one".to_string(), third.clone()), Some(first));
    assert_eq!(corpus.repositories().len(), 2);
    assert_eq!(corpus.repositories()[0].name, "one");
    assert_eq!(corpus.repositories()[0].fingerprints, third);
    assert_eq!(corpus.repositories()[1].name, "two");
    assert_eq!(corpus.repositories()[1].fingerprints, second);
}

#[test]
fn match_map_appends_in_order() {
    let mut matches = MatchMap::new();
    assert_eq!(matches.len(), 0);
    assert_eq!(matches.get(&spot("a.rs", 1)), None);
    matches.add_match(spot("a.rs", 1), spot("b.rs", 2));
    matches.add_match(spot("c.rs", 3), spot("a.rs", 1));
    matches.add_match(spot("a.rs", 1), spot("c.rs", 3));
    assert_eq!(matches.len(), 2);
    assert_eq!(matches.get(&spot("a.rs", 1)), Some(&vec![spot("b.rs", 2), spot("c.rs", 3)]));
    assert_eq!(matches.get(&spot("c.rs", 3)), Some(&vec![spot("a.rs", 1)]));
    assert_eq!(matches.get(&spot("b.rs", 2)), None);
    assert_eq!(matches.matches()[0].source, spot("a.rs", 1));
    assert_eq!(matches.matches()[1].source, spot("c.rs", 3));
}

#[test]
fn document_set_holds_each_document_once() {
    let mut documents = DocumentSet::new();
    assert!(documents.insert(doc("a.rs")));
    assert!(documents.insert(doc("b.rs")));
    assert!(!documents.insert(doc("a.rs")));
    assert_eq!(documents.len(), 2);
    assert!(documents.contains(&doc("b.rs")));
    assert!(!documents.contains(&doc("c.rs")));
    assert_eq!(documents.documents(), &vec![doc("a.rs"), doc("b.rs")]);
}

#[test]
fn pair_scores_count_increments() {
    let mut scores = PairScores::new();
    assert_eq!(scores.get(&doc("a.rs"), &doc("b.rs")), 0);
    scores.increment(doc("a.rs"), doc("b.rs"));
    scores.increment(doc("b.rs"), doc("a.rs"));
    scores.increment(doc("a.rs"), doc("b.rs"));
    assert_eq!(scores.len(), 2);
    assert_eq!(scores.get(&doc("a.rs"), &doc("b.rs")), 2);
    assert_eq!(scores.get(&doc("b.rs"), &doc("a.rs")), 1);
    assert_eq!(scores.get(&doc("a.rs"), &doc("a.rs")), 0);
    assert_eq!(scores.scores()[0].source, doc("a.rs"));
    assert_eq!(scores.scores()[0].target, doc("b.rs"));
    assert_eq!(scores.scores()[0].score, 2);
}

#[test]
fn digest_of_bytes_follows_the_step_rule() {
    assert_eq!(hash_bytes(DIGEST_START, &[]), 0xcbf2_9ce4_8422_2325);
    assert_eq!(hash_bytes(DIGEST_START, b"a"), 0xaf63_dc4c_8601_ec8c);
    assert_eq!(hash_bytes(DIGEST_START, b"foobar"), 0x8594_4171_f739_67e8);
    assert_eq!(stir_word(0, 1), 0x0000_0100_0000_01b3);
    assert_eq!(stir_word(5, 5), 0);
    assert_eq!(hash_bytes(hash_bytes(7, b"ab"), b"cd"), hash_bytes(7, b"abcd"));
}

#[test]
fn digest_depends_on_the_value_only() {
    assert_eq!(spot("a.rs", 3).digest(), spot("a.rs", 3).clone().digest());
    assert_eq!(doc("a.rs").digest(), spot("a.rs", 3).document().digest());
    assert_eq!(hash_pair(&doc("a.rs"), &doc("b.rs")), hash_pair(&doc("a.rs"), &doc("b.rs")));
    assert_ne!(spot("a.rs", 3).digest(), spot("a.rs", 4).digest());
    assert_ne!(doc("a.rs").digest(), doc("b.rs").digest());
    assert_ne!(hash_pair(&doc("a.rs"), &doc("b.rs")), hash_pair(&doc("b.rs"), &doc("a.rs")));
}

#[test]
fn buckets_list_places_under_their_digest() {
    let mut buckets = Buckets::new();
    assert_eq!(buckets.candidates(4), None);
    buckets.add(4, 0);
    buckets.add(9, 1);
    buckets.add(4, 2);
    assert_eq!(buckets.candidates(4), Some(&vec![0, 2]));
    assert_eq!(buckets.candidates(9), Some(&vec![1]));
    assert_eq!(buckets.candidates(5), None);
}
