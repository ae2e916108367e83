use overlap_detector::corpus::Corpus;
use overlap_detector::detector::{run, Config, DEFAULT_UPPER_BOUND};
use overlap_detector::documents::{enumerate_documents, DocumentSet};
use overlap_detector::filter::{count_in_repository, filter_matches, is_interesting};
use overlap_detector::index::{build_index, InvertedIndex};
use overlap_detector::matches::MatchMap;
use overlap_detector::model::{same_commit, Document, Fingerprint, Location};
use overlap_detector::pairs::{aggregate_pairs, PairScore, PairScores};
use overlap_detector::rank::rank_pairs;

fn place(repo: &str, file: &str, line: usize) -> Location {
    Location { repo: repo.to_string(), commit: [1u8; 20], file: file.to_string(), line }
}

fn print(hash: u64, repo: &str, file: &str, line: usize) -> Fingerprint {
    Fingerprint { hash, location: place(repo, file, line) }
}

fn file_of(repo: &str, file: &str) -> Document {
    Document { repo: repo.to_string(), commit: [1u8; 20], file: file.to_string() }
}

fn mixed_corpus() -> Corpus {
    let mut corpus = Corpus::new();
    corpus.insert(
        "alpha".to_string(),
        vec![
            print(5, "alpha", "x.rs", 1),
            print(6, "alpha", "x.rs", 2),
            print(5, "alpha", "y.rs", 3),
        ],
    );
    corpus.insert(
        "beta".to_string(),
        vec![print(5, "beta", "z.rs", 4), print(8, "beta", "z.rs", 5)],
    );
    corpus
}

#[test]
fn index_holds_every_fingerprint_under_its_hash() {
    let corpus = mixed_corpus();
    let index = build_index(&corpus);
    for repository in corpus.repositories() {
        for fingerprint in &repository.fingerprints {
            let held = index.get(fingerprint.hash).expect("the hash is a key");
            assert!(held.contains(&fingerprint.location));
        }
    }
}

#[test]
fn index_holds_nothing_but_the_fingerprints() {
    let corpus = mixed_corpus();
    let index = build_index(&corpus);
    let mut total = 0;
    for posting in index.postings() {
        for held in &posting.locations {
            total += 1;
            let mut found = false;
            for repository in corpus.repositories() {
                for fingerprint in &repository.fingerprints {
                    if fingerprint.hash == posting.hash && fingerprint.location == *held {
                        found = true;
                    }
                }
            }
            assert!(found);
        }
    }
    assert_eq!(total, 5);
}

#[test]
fn index_keeps_the_locations_of_a_hash_in_order_of_arrival() {
    let index = build_index(&mixed_corpus());
    assert_eq!(index.len(), 3);
    assert_eq!(index.postings().len(), 3);
    assert_eq!(
        index.get(5),
        Some(&vec![place("alpha", "x.rs", 1), place("alpha", "y.rs", 3), place("beta", "z.rs", 4)])
    );
    assert_eq!(index.get(6), Some(&vec![place("alpha", "x.rs", 2)]));
    assert_eq!(index.get(8), Some(&vec![place("beta", "z.rs", 5)]));
    assert_eq!(index.get(7), None);
}

#[test]
fn index_insert_appends_under_an_existing_hash() {
    let mut index = InvertedIndex::new();
    index.insert(3, place("r", "f", 1));
    index.insert(4, place("r", "f", 2));
    index.insert(3, place("r", "g", 3));
    assert_eq!(index.len(), 2);
    assert_eq!(index.postings()[0].hash, 3);
    assert_eq!(index.postings()[1].hash, 4);
    assert_eq!(index.get(3), Some(&vec![place("r", "f", 1), place("r", "g", 3)]));
    assert_eq!(index.get(4), Some(&vec![place("r", "f", 2)]));
    assert_eq!(index.get(5), None);
}

#[test]
fn popularity_counts_the_own_repository_only() {
    let index = build_index(&mixed_corpus());
    let held = index.get(5).expect("the hash is a key");
    assert_eq!(held.len(), 3);
    assert_eq!(count_in_repository(held, &"alpha".to_string()), 2);
    assert_eq!(count_in_repository(held, &"beta".to_string()), 1);
    assert_eq!(count_in_repository(held, &"gamma".to_string()), 0);
    assert_eq!(count_in_repository(&Vec::new(), &"alpha".to_string()), 0);
}

#[test]
fn popularity_never_falls_when_fingerprints_are_added() {
    let mut corpus = mixed_corpus();
    let before = build_index(&corpus);
    let earlier = count_in_repository(before.get(5).expect("a key"), &"alpha".to_string());
    let mut grown = vec![
        print(5, "alpha", "x.rs", 1),
        print(6, "alpha", "x.rs", 2),
        print(5, "alpha", "y.rs", 3),
    ];
    grown.push(print(5, "alpha", "w.rs", 9));
    grown.push(print(5, "alpha", "w.rs", 10));
    corpus.insert("alpha".to_string(), grown);
    let after = build_index(&corpus);
    let later = count_in_repository(after.get(5).expect("a key"), &"alpha".to_string());
    assert_eq!(earlier, 2);
    assert_eq!(later, 4);
    let other = count_in_repository(after.get(5).expect("a key"), &"beta".to_string());
    assert_eq!(other, 1);
}

#[test]
fn interesting_is_above_zero_and_below_the_bound() {
    assert!(!is_interesting(0, 1000));
    assert!(is_interesting(1, 1000));
    assert!(is_interesting(999, 1000));
    assert!(!is_interesting(1000, 1000));
    assert!(!is_interesting(1001, 1000));
    assert!(!is_interesting(0, 1));
    assert!(!is_interesting(1, 1));
    assert!(!is_interesting(0, 0));
    assert!(is_interesting(usize::MAX - 1, usize::MAX));
    assert!(!is_interesting(usize::MAX, usize::MAX));
}

fn repeated(copies: usize) -> Corpus {
    let mut fingerprints = Vec::new();
    for line in 0..copies {
        fingerprints.push(print(77, "solo", "main.rs", line));
    }
    let mut corpus = Corpus::new();
    corpus.insert("solo".to_string(), fingerprints);
    corpus
}

#[test]
fn popularity_equal_to_the_bound_is_left_out() {
    let corpus = repeated(3);
    let index = build_index(&corpus);
    let matches = filter_matches(&corpus, &index, 3);
    assert_eq!(matches.len(), 0);
}

#[test]
fn popularity_just_below_the_bound_is_kept() {
    let corpus = repeated(3);
    let index = build_index(&corpus);
    let matches = filter_matches(&corpus, &index, 4);
    assert_eq!(matches.len(), 3);
    assert_eq!(matches.get(&place("solo", "main.rs", 2)), Some(&vec![place("solo", "main.rs", 2)]));
    let config = Config { upper_bound: 4, include_self_pairs: true };
    let ranking = run(&corpus, &config).ranking;
    assert_eq!(ranking.len(), 1);
    assert_eq!(ranking[0].score, 3);
}

#[test]
fn default_bound_keeps_999_and_drops_1000() {
    let below = repeated(999);
    let kept = filter_matches(&below, &build_index(&below), DEFAULT_UPPER_BOUND);
    assert_eq!(kept.len(), 999);
    let at = repeated(1000);
    let dropped = filter_matches(&at, &build_index(&at), DEFAULT_UPPER_BOUND);
    assert_eq!(dropped.len(), 0);
}

#[test]
fn fingerprint_filed_under_another_repository_has_popularity_zero() {
    let mut corpus = Corpus::new();
    corpus.insert("filed".to_string(), vec![print(1, "named", "a.rs", 1)]);
    let index = build_index(&corpus);
    let held = index.get(1).expect("the hash is a key");
    assert_eq!(count_in_repository(held, &"filed".to_string()), 0);
    let matches = filter_matches(&corpus, &index, DEFAULT_UPPER_BOUND);
    assert_eq!(matches.len(), 0);
}

#[test]
fn filter_records_one_self_match_for_each_kept_occurrence() {
    let mut corpus = Corpus::new();
    corpus.insert(
        "r".to_string(),
        vec![print(1, "r", "a.rs", 1), print(2, "r", "a.rs", 1), print(3, "r", "a.rs", 2)],
    );
    let index = build_index(&corpus);
    let matches = filter_matches(&corpus, &index, DEFAULT_UPPER_BOUND);
    assert_eq!(matches.len(), 2);
    assert_eq!(
        matches.get(&place("r", "a.rs", 1)),
        Some(&vec![place("r", "a.rs", 1), place("r", "a.rs", 1)])
    );
    assert_eq!(matches.get(&place("r", "a.rs", 2)), Some(&vec![place("r", "a.rs", 2)]));
    assert_eq!(matches.matches().len(), 2);
}

#[test]
fn documents_are_collected_once_each() {
    let index = build_index(&mixed_corpus());
    let documents = enumerate_documents(&index);
    assert_eq!(documents.len(), 3);
    assert!(documents.contains(&file_of("alpha", "x.rs")));
    assert!(documents.contains(&file_of("alpha", "y.rs")));
    assert!(documents.contains(&file_of("beta", "z.rs")));
    assert!(!documents.contains(&file_of("beta", "x.rs")));
    assert_eq!(documents.documents().len(), 3);
}

#[test]
fn documents_differ_by_revision() {
    let mut index = InvertedIndex::new();
    let mut other = place("r", "f", 1);
    other.commit = [2u8; 20];
    index.insert(1, place("r", "f", 1));
    index.insert(1, other);
    index.insert(2, place("r", "f", 8));
    let documents = enumerate_documents(&index);
    assert_eq!(documents.len(), 2);
}

#[test]
fn pair_scores_are_directional() {
    let a = place("r", "a.rs", 1);
    let b = place("r", "b.rs", 1);
    let mut matches = MatchMap::new();
    matches.add_match(a.clone(), b.clone());
    matches.add_match(a.clone(), b.clone());
    let mut documents = DocumentSet::new();
    documents.insert(file_of("r", "a.rs"));
    documents.insert(file_of("r", "b.rs"));
    let scores = aggregate_pairs(&documents, &matches, false);
    assert_eq!(scores.get(&file_of("r", "a.rs"), &file_of("r", "b.rs")), 2);
    assert_eq!(scores.get(&file_of("r", "b.rs"), &file_of("r", "a.rs")), 0);
    assert_eq!(scores.len(), 1);
}

#[test]
fn pair_scores_count_matches_over_all_lines_of_a_document() {
    let mut matches = MatchMap::new();
    matches.add_match(place("r", "a.rs", 1), place("r", "b.rs", 5));
    matches.add_match(place("r", "a.rs", 2), place("r", "b.rs", 6));
    matches.add_match(place("r", "a.rs", 2), place("r", "c.rs", 7));
    matches.add_match(place("r", "a.rs", 2), place("r", "a.rs", 2));
    matches.add_match(place("r", "b.rs", 5), place("r", "a.rs", 1));
    let mut documents = DocumentSet::new();
    documents.insert(file_of("r", "a.rs"));
    documents.insert(file_of("r", "b.rs"));
    documents.insert(file_of("r", "c.rs"));
    let without = aggregate_pairs(&documents, &matches, false);
    assert_eq!(without.get(&file_of("r", "a.rs"), &file_of("r", "b.rs")), 2);
    assert_eq!(without.get(&file_of("r", "a.rs"), &file_of("r", "c.rs")), 1);
    assert_eq!(without.get(&file_of("r", "b.rs"), &file_of("r", "a.rs")), 1);
    assert_eq!(without.get(&file_of("r", "a.rs"), &file_of("r", "a.rs")), 0);
    assert_eq!(without.len(), 3);
    let with = aggregate_pairs(&documents, &matches, true);
    assert_eq!(with.get(&file_of("r", "a.rs"), &file_of("r", "a.rs")), 1);
    assert_eq!(with.len(), 4);
}

#[test]
fn pair_scores_leave_out_documents_that_were_not_enumerated() {
    let mut matches = MatchMap::new();
    matches.add_match(place("r", "a.rs", 1), place("r", "b.rs", 5));
    matches.add_match(place("r", "b.rs", 5), place("r", "a.rs", 1));
    let mut documents = DocumentSet::new();
    documents.insert(file_of("r", "b.rs"));
    let scores = aggregate_pairs(&documents, &matches, false);
    assert_eq!(scores.get(&file_of("r", "a.rs"), &file_of("r", "b.rs")), 0);
    assert_eq!(scores.get(&file_of("r", "b.rs"), &file_of("r", "a.rs")), 1);
}

fn scored(entries: &[(usize, u128)]) -> PairScores {
    let mut scores = PairScores::new();
    for (name, score) in entries {
        for _ in 0..*score {
            scores.increment(file_of("r", &format!("{}.rs", name)), file_of("r", "t.rs"));
        }
    }
    scores
}

#[test]
fn ranking_never_falls() {
    let mut entries = Vec::new();
    let mut seed: usize = 17;
    for name in 0..60 {
        seed = (seed * 73 + 11) % 101;
        entries.push((name, (seed % 9 + 1) as u128));
    }
    let scores = scored(&entries);
    let ranking = rank_pairs(&scores);
    assert_eq!(ranking.len(), 60);
    for at in 1..ranking.len() {
        assert!(ranking[at - 1].score <= ranking[at].score);
    }
    for (name, score) in &entries {
        let source = file_of("r", &format!("{}.rs", name));
        let found: Vec<&PairScore> =
            ranking.iter().filter(|ranked| ranked.source == source).collect();
        assert_eq!(found.len(), 1);
        assert_eq!(found[0].score, *score);
        assert_eq!(found[0].target, file_of("r", "t.rs"));
    }
}

#[test]
fn ranking_puts_the_lowest_score_first() {
    let scores = scored(&[(0, 3), (1, 1), (2, 2)]);
    let ranking = rank_pairs(&scores);
    assert_eq!(ranking.len(), 3);
    assert_eq!(ranking[0].source, file_of("r", "1.rs"));
    assert_eq!(ranking[0].score, 1);
    assert_eq!(ranking[1].source, file_of("r", "2.rs"));
    assert_eq!(ranking[1].score, 2);
    assert_eq!(ranking[2].source, file_of("r", "0.rs"));
    assert_eq!(ranking[2].score, 3);
}

#[test]
fn ranking_keeps_equal_scores_in_their_order() {
    let scores = scored(&[(0, 2), (1, 1), (2, 2), (3, 1), (4, 2), (5, 1)]);
    let ranking = rank_pairs(&scores);
    let names: Vec<&str> = ranking.iter().map(|ranked| ranked.source.file.as_str()).collect();
    assert_eq!(names, vec!["1.rs", "3.rs", "5.rs", "0.rs", "2.rs", "4.rs"]);
}

#[test]
fn ranking_of_one_pair_is_that_pair() {
    let scores = scored(&[(4, 2)]);
    let ranking = rank_pairs(&scores);
    assert_eq!(ranking.len(), 1);
    assert_eq!(ranking[0], PairScore {
        source: file_of("r", "4.rs"),
        target: file_of("r", "t.rs"),
        score: 2,
    });
}

#[test]
fn run_ranks_documents_by_kept_occurrences() {
    let config = Config { upper_bound: 2, include_self_pairs: true };
    let detection = run(&mixed_corpus(), &config);
    // hash 5 has popularity 2 in alpha and 1 in beta; 6 and 8 have popularity 1
    assert_eq!(detection.index.len(), 3);
    let ranking = detection.ranking;
    assert_eq!(ranking.len(), 2);
    assert_eq!(ranking[0].source, file_of("alpha", "x.rs"));
    assert_eq!(ranking[0].target, file_of("alpha", "x.rs"));
    assert_eq!(ranking[0].score, 1);
    assert_eq!(ranking[1].source, file_of("beta", "z.rs"));
    assert_eq!(ranking[1].target, file_of("beta", "z.rs"));
    assert_eq!(ranking[1].score, 2);
}

#[test]
fn run_with_a_wider_bound_keeps_more() {
    let config = Config { upper_bound: 3, include_self_pairs: true };
    let ranking = run(&mixed_corpus(), &config).ranking;
    assert_eq!(ranking.len(), 3);
    assert_eq!(ranking[0].source, file_of("alpha", "y.rs"));
    assert_eq!(ranking[0].target, file_of("alpha", "y.rs"));
    assert_eq!(ranking[0].score, 1);
    assert_eq!(ranking[1].score, 2);
    assert_eq!(ranking[2].score, 2);
    let tied = [&ranking[1].source, &ranking[2].source];
    assert!(tied.contains(&&file_of("alpha", "x.rs")));
    assert!(tied.contains(&&file_of("beta", "z.rs")));
    assert_eq!(ranking[1].source, ranking[1].target);
    assert_eq!(ranking[2].source, ranking[2].target);
}

#[test]
fn run_without_self_pairs_scores_nothing() {
    let detection = run(&mixed_corpus(), &Config::default());
    assert_eq!(detection.index.len(), 3);
    assert!(detection.ranking.is_empty());
}

#[test]
fn default_config_has_bound_1000_and_no_self_pairs() {
    let config = Config::default();
    assert_eq!(config.upper_bound, 1000);
    assert_eq!(DEFAULT_UPPER_BOUND, 1000);
    assert!(!config.include_self_pairs);
}

#[test]
fn same_commit_compares_all_twenty_bytes() {
    let a = [3u8; 20];
    let mut b = [3u8; 20];
    assert!(same_commit(&a, &b));
    b[19] = 4;
    assert!(!same_commit(&a, &b));
    b[19] = 3;
    b[0] = 4;
    assert!(!same_commit(&a, &b));
}
