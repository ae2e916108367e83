use overlap_detector::corpus::Corpus;
use overlap_detector::detector::{run, Config, DEFAULT_UPPER_BOUND};
use overlap_detector::documents::enumerate_documents;
use overlap_detector::filter::{count_in_repository, filter_matches, is_interesting};
use overlap_detector::index::build_index;
use overlap_detector::matches::MatchMap;
use overlap_detector::model::{Document, Fingerprint, Location};
use overlap_detector::pairs::aggregate_pairs;
use overlap_detector::rank::rank_pairs;

fn location(repo: &str, file: &str, line: usize) -> Location {
    Location { repo: repo.to_string(), commit: [7u8; 20], file: file.to_string(), line }
}

fn fingerprint(hash: u64, repo: &str, file: &str, line: usize) -> Fingerprint {
    Fingerprint { hash, location: location(repo, file, line) }
}

fn document(repo: &str, file: &str) -> Document {
    Document { repo: repo.to_string(), commit: [7u8; 20], file: file.to_string() }
}

fn two_document_corpus() -> Corpus {
    let mut corpus = Corpus::new();
    corpus.insert("r1".to_string(), vec![fingerprint(42, "r1", "a.rs", 10)]);
    corpus.insert("r2".to_string(), vec![fingerprint(42, "r2", "b.rs", 20)]);
    corpus
}

#[test]
fn shared_hash_is_indexed_under_both_locations() {
    let corpus = two_document_corpus();
    let index = build_index(&corpus);
    assert_eq!(index.len(), 1);
    let held = index.get(42).expect("the hash is a key");
    assert_eq!(held, &vec![location("r1", "a.rs", 10), location("r2", "b.rs", 20)]);
    assert!(index.get(43).is_none());
}

#[test]
fn shared_hash_has_popularity_one_in_each_repository() {
    let corpus = two_document_corpus();
    let index = build_index(&corpus);
    let held = index.get(42).expect("the hash is a key");
    assert_eq!(count_in_repository(held, &"r1".to_string()), 1);
    assert_eq!(count_in_repository(held, &"r2".to_string()), 1);
    assert!(is_interesting(1, DEFAULT_UPPER_BOUND));
}

#[test]
fn shared_hash_maps_each_location_to_itself() {
    let corpus = two_document_corpus();
    let index = build_index(&corpus);
    let matches = filter_matches(&corpus, &index, DEFAULT_UPPER_BOUND);
    assert_eq!(matches.len(), 2);
    let first = location("r1", "a.rs", 10);
    let second = location("r2", "b.rs", 20);
    assert_eq!(matches.get(&first), Some(&vec![location("r1", "a.rs", 10)]));
    assert_eq!(matches.get(&second), Some(&vec![location("r2", "b.rs", 20)]));
}

#[test]
fn shared_hash_scores_one_where_cross_matches_are_recorded() {
    let corpus = two_document_corpus();
    let index = build_index(&corpus);
    let documents = enumerate_documents(&index);
    let first = location("r1", "a.rs", 10);
    let second = location("r2", "b.rs", 20);
    let mut matches = MatchMap::new();
    matches.add_match(first.clone(), first.clone());
    matches.add_match(first.clone(), second.clone());
    matches.add_match(second.clone(), second.clone());
    matches.add_match(second.clone(), first.clone());
    let scores = aggregate_pairs(&documents, &matches, false);
    let d1 = document("r1", "a.rs");
    let d2 = document("r2", "b.rs");
    assert_eq!(scores.get(&d1, &d2), 1);
    assert_eq!(scores.get(&d2, &d1), 1);
    assert_eq!(scores.get(&d1, &d1), 0);
    assert_eq!(scores.len(), 2);
}

#[test]
fn shared_hash_run_scores_only_self_pairs() {
    let corpus = two_document_corpus();
    let silent = run(&corpus, &Config::default());
    assert!(silent.ranking.is_empty());
    let config = Config { upper_bound: DEFAULT_UPPER_BOUND, include_self_pairs: true };
    let detection = run(&corpus, &config);
    assert_eq!(detection.ranking.len(), 2);
    for ranked in &detection.ranking {
        assert_eq!(ranked.source, ranked.target);
        assert_eq!(ranked.score, 1);
    }
    let sources: Vec<&Document> = detection.ranking.iter().map(|ranked| &ranked.source).collect();
    assert!(sources.contains(&&document("r1", "a.rs")));
    assert!(sources.contains(&&document("r2", "b.rs")));
}

fn crowded_corpus(copies: usize) -> Corpus {
    let mut fingerprints = Vec::new();
    for line in 0..copies {
        fingerprints.push(fingerprint(9, "r1", "gen.rs", line));
    }
    let mut corpus = Corpus::new();
    corpus.insert("r1".to_string(), fingerprints);
    corpus
}

#[test]
fn hash_common_in_one_repository_is_filtered_out() {
    let corpus = crowded_corpus(2000);
    let index = build_index(&corpus);
    let held = index.get(9).expect("the hash is a key");
    assert_eq!(held.len(), 2000);
    assert_eq!(count_in_repository(held, &"r1".to_string()), 2000);
    assert!(!is_interesting(2000, DEFAULT_UPPER_BOUND));
    let matches = filter_matches(&corpus, &index, DEFAULT_UPPER_BOUND);
    assert_eq!(matches.len(), 0);
    assert!(matches.get(&location("r1", "gen.rs", 0)).is_none());
    assert!(matches.get(&location("r1", "gen.rs", 1999)).is_none());
    let documents = enumerate_documents(&index);
    assert_eq!(documents.len(), 1);
    let scores = aggregate_pairs(&documents, &matches, true);
    assert_eq!(scores.len(), 0);
    let config = Config { upper_bound: DEFAULT_UPPER_BOUND, include_self_pairs: true };
    assert!(run(&corpus, &config).ranking.is_empty());
}

#[test]
fn empty_corpus_gives_empty_structures() {
    let corpus = Corpus::new();
    let index = build_index(&corpus);
    assert_eq!(index.len(), 0);
    assert!(index.postings().is_empty());
    let matches = filter_matches(&corpus, &index, DEFAULT_UPPER_BOUND);
    assert_eq!(matches.len(), 0);
    let documents = enumerate_documents(&index);
    assert_eq!(documents.len(), 0);
    let scores = aggregate_pairs(&documents, &matches, true);
    assert_eq!(scores.len(), 0);
    assert!(rank_pairs(&scores).is_empty());
    let detection = run(&corpus, &Config::default());
    assert_eq!(detection.index.len(), 0);
    assert!(detection.ranking.is_empty());
}

#[test]
fn repository_without_fingerprints_gives_empty_structures() {
    let mut corpus = Corpus::new();
    corpus.insert("r1".to_string(), Vec::new());
    corpus.insert("r2".to_string(), Vec::new());
    let config = Config { upper_bound: DEFAULT_UPPER_BOUND, include_self_pairs: true };
    let detection = run(&corpus, &config);
    assert_eq!(detection.index.len(), 0);
    assert!(detection.ranking.is_empty());
}

#[test]
fn many_documents_are_scored_by_their_kept_occurrences() {
    let mut corpus = Corpus::new();
    let mut hash: u64 = 0;
    for repo in 0..4 {
        let name = format!("repo{}", repo);
        let mut fingerprints = Vec::new();
        for file in 0..75 {
            let path = format!("src/file{}.rs", file);
            for line in 0..(file % 7 + 1) {
                hash += 1;
                fingerprints.push(fingerprint(hash, &name, &path, line));
                fingerprints.push(fingerprint(hash + 1_000_000, &name, &path, line));
            }
        }
        corpus.insert(name, fingerprints);
    }
    let config = Config { upper_bound: DEFAULT_UPPER_BOUND, include_self_pairs: true };
    let detection = run(&corpus, &config);
    assert_eq!(detection.index.len(), 2 * hash as usize);
    assert_eq!(detection.ranking.len(), 300);
    for at in 1..detection.ranking.len() {
        assert!(detection.ranking[at - 1].score <= detection.ranking[at].score);
    }
    for ranked in &detection.ranking {
        assert_eq!(ranked.source, ranked.target);
        let file: usize = ranked.source.file["src/file".len()..ranked.source.file.len() - 3]
            .parse()
            .expect("a number");
        assert_eq!(ranked.score, 2 * (file % 7 + 1) as u128);
    }
    assert_eq!(detection.ranking[0].score, 2);
    assert_eq!(detection.ranking[299].score, 14);
}
