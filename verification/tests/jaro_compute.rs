use name_match::jaro::compute::{common_prefix_length, jaro_score, jaro_winkler_score,
    max_distance_allowed, transpositions};
use name_match::jaro::config::JaroWinklerConfigOptions;
use name_match::prelude::SCORE_ONE;

fn fp(score: u64) -> f64 {
    score as f64 / SCORE_ONE as f64
}

#[test]
fn test_common_prefix_length() {
    let s1 = "Hello";
    let s2 = "Hellish";
    let common_prefix = common_prefix_length(&s1, &s2);
    assert_eq!(common_prefix, 4);
}

#[test]
fn test_max_distance_is_for_5() {
    let distance = max_distance_allowed(5, 2);
    assert_eq!(distance, 1);
}

#[test]
fn test_max_distance_allowed_for_10() {
    let dist = max_distance_allowed(10, 9);
    assert_eq!(dist, 4);
}

#[test]
fn test_max_distance_is_0() {
    let distance = max_distance_allowed(1, 1);
    assert_eq!(distance, -1);
}

#[test]
fn test_matched_dwayne_duayne() {
    let string1 = "Dwayne";
    let string2 = "Duane";
    let mut hash_1 = vec![0, 0, 0, 0, 0, 0];
    let mut hash_2 = vec![0, 0, 0, 0, 0];

    let matches_count = name_match::jaro::compute::matches(string1, string2, &mut hash_1, &mut hash_2, 4);
    assert_eq!(matches_count, 4);
    assert_eq!(hash_1, [1, 0, 1, 0, 1, 1]);
    assert_eq!(hash_2, [1, 0, 1, 1, 1]);
}

#[test]
fn test_no_matched_martha_marhta() {
    let string1 = "Martha";
    let string2 = "Marhta";
    let mut hash_1 = vec![0, 0, 0, 0, 0, 0];
    let mut hash_2 = vec![0, 0, 0, 0, 0, 0];

    let matches_count = name_match::jaro::compute::matches(string1, string2, &mut hash_1, &mut hash_2, 4);
    assert_eq!(matches_count, 6);
    assert_eq!(hash_1, vec![1, 1, 1, 1, 1, 1]);
    assert_eq!(hash_2, vec![1, 1, 1, 1, 1, 1]);
}

#[test]
fn test_empty_string_matches() {
    let string1 = "a";
    let string2 = "";
    let mut hash_1 = vec![0];
    let mut hash_2 = vec![];
    let matches_count = name_match::jaro::compute::matches(string1, string2, &mut hash_1, &mut hash_2, 4);
    assert_eq!(matches_count, 0);
    assert_eq!(hash_1, vec![0]);
    assert_eq!(hash_2, vec![]);
}

#[test]
fn test_empty_string_transpositions() {
    let string1 = "a";
    let string2 = "";
    let hash_1 = vec![0];
    let hash_2 = vec![];

    let transposed = transpositions(string1, string2, &hash_1, &hash_2);
    assert_eq!(fp(transposed), 0.);
}

#[test]
fn test_transposition_duane_dwayne() {
    let string1 = "Duane";
    let string2 = "Dwyane";
    let hash_1 = vec![1, 0, 1, 1, 1];
    let hash_2 = vec![1, 0, 0, 1, 1, 1];

    let transposed = transpositions(string1, string2, &hash_1, &hash_2);
    assert_eq!(fp(transposed), 0.);
}

#[test]
fn test_transposition_martha_mahrta() {
    let string1 = "Martha";
    let string2 = "Mharta";
    let hash_1 = vec![1, 1, 1, 1, 1, 1];
    let hash_2 = vec![1, 1, 1, 1, 1, 1];

    let transposed = transpositions(string1, string2, &hash_1, &hash_2);
    assert_eq!(fp(transposed), 2.);
}

#[test]
fn test_jaro_empty_string() {
    let string1 = "";
    let string2 = "";

    let score = jaro_score(string1, string2);
    assert_eq!(fp(score), 0.);
}

#[test]
fn test_jaro_matching_string() {
    let string1 = "Adam";
    let string2 = "Adam";

    let score = jaro_score(string1, string2);
    assert_eq!(fp(score), 1.);
}

#[test]
fn test_jaro_duane_dwayne() {
    let string1 = "Duane";
    let string2 = "Dwayne";
    let score = jaro_score(string1, string2);
    let expected = 0.82222;
    assert!((fp(score) - expected).abs() < 0.01);
}

#[test]
fn test_jaro_martha_mharta() {
    let string1 = "Martha";
    let string2 = "Mharta";
    let score = jaro_score(string1, string2);
    let expected = 0.89;
    assert!((fp(score) - expected).abs() < 0.01);
}

#[test]
fn test_jaro_crate_trace() {
    let string1 = "crate";
    let string2 = "trace";
    let score = jaro_score(string1, string2);
    let expected = 0.733;
    assert!((fp(score) - expected).abs() < 0.01);
}

#[test]
fn test_jaro_winkler_exact_match() {
    let string1 = "Martha";
    let string2 = "Martha";
    let jw_config = JaroWinklerConfigOptions::default();
    let score = jaro_winkler_score(string1, string2, &jw_config);
    let expected = 1.0;
    assert_eq!(fp(score), expected);
}

#[test]
fn test_jaro_winkler_duane_dwayne() {
    let string1 = "Duane";
    let string2 = "Dwayne";
    let jw_config = JaroWinklerConfigOptions::default();
    let score = jaro_winkler_score(string1, string2, &jw_config);
    let expected = 0.838;
    assert!((fp(score) - expected).abs() < 0.01);
}

#[test]
fn test_jaro_winkler_martha_mharta() {
    let string1 = "Martha";
    let string2 = "Mharta";
    let jw_config = JaroWinklerConfigOptions::default();
    let score = jaro_winkler_score(string1, string2, &jw_config);
    let expected = 0.901;
    assert!((fp(score) - expected).abs() < 0.01);
}
