use mac_autocomplete_engine::engine::rank::{score_factors, Ranker, ScoreFactors};

#[test]
fn test_merge_and_rank() {
    let instant = vec!["hello world".to_string(), "hello there".to_string()];
    let refined = vec!["hello world!".to_string(), "hello friend".to_string()];

    let merged = Ranker::merge_and_rank(instant, refined, "hello");
    assert!(!merged.is_empty());
}

#[test]
fn merge_and_rank_exact_order() {
    let instant = vec!["hello world".to_string(), "hello there".to_string()];
    let refined = vec!["hello world!".to_string(), "hello friend".to_string()];
    let merged = Ranker::merge_and_rank(instant, refined, "hello");
    assert_eq!(
        merged,
        vec![
            "hello world".to_string(),
            "hello there".to_string(),
            "hello world!".to_string(),
            "hello friend".to_string(),
        ]
    );
}

#[test]
fn merge_drops_case_insensitive_repeats_and_non_matching_refined() {
    let instant = vec!["HELLO".to_string(), "zzz".to_string()];
    let refined = vec!["Hello".to_string(), "goodbye".to_string(), "hello".to_string()];
    let merged = Ranker::merge_and_rank(instant, refined, "HeL");
    assert_eq!(merged, vec!["zzz".to_string(), "Hello".to_string()]);
}

#[test]
fn merge_sorts_by_bytes_stably() {
    // "é" is two bytes, so "é" sorts after the one-byte "a" and with "bb"
    let instant = vec!["ccc".to_string(), "é".to_string(), "bb".to_string(), "a".to_string()];
    let merged = Ranker::merge_and_rank(instant, vec![], "");
    assert_eq!(
        merged,
        vec!["a".to_string(), "é".to_string(), "bb".to_string(), "ccc".to_string()]
    );
}

#[test]
fn merge_of_nothing_is_empty() {
    assert!(Ranker::merge_and_rank(vec![], vec![], "x").is_empty());
}

#[test]
fn score_factors_measure() {
    assert_eq!(
        score_factors("hello world", "hello", "hello there friend"),
        ScoreFactors { prefix_match: true, byte_len: 11, shared_words: 1 }
    );
    assert_eq!(
        score_factors("Hello hello world world", "HELLO H", "world hello world"),
        ScoreFactors { prefix_match: true, byte_len: 23, shared_words: 2 }
    );
    assert_eq!(
        score_factors("héllo", "x", ""),
        ScoreFactors { prefix_match: false, byte_len: 6, shared_words: 0 }
    );
}
