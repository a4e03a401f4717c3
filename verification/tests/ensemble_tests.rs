use name_match::ensemble::{Ensemble, MatcherKind};
use name_match::jaro::compare::JaroWinklerMatcher;
use name_match::prelude::{Weighted, SCORE_ONE};
use name_match::soundex::compare::SoundexMatcher;

fn fp(score: u64) -> f64 {
    score as f64 / SCORE_ONE as f64
}

#[test]
fn test_ensemble_set_equal_weight() {
    let jw = JaroWinklerMatcher::default();
    let soundex = SoundexMatcher::default();

    let matchers: Vec<MatcherKind> = vec![
        MatcherKind::JaroWinkler(jw),
        MatcherKind::Soundex(soundex),
    ];

    let mut ensemble = Ensemble::new(matchers);
    ensemble.set_equal_weight();

    for matcher in ensemble.matchers.iter() {
        assert_eq!(fp(matcher.get_weight()), 0.5);
    }
}

#[test]
fn test_ensemble_get_aggregated_score() {
    let name1 = "John Doe";
    let name2 = "John Doe";

    let jw = JaroWinklerMatcher::default();
    let soundex = SoundexMatcher::default();

    let matchers: Vec<MatcherKind> = vec![
        MatcherKind::JaroWinkler(jw),
        MatcherKind::Soundex(soundex),
    ];

    let mut ensemble = Ensemble::new(matchers);
    ensemble.set_equal_weight();

    let score = ensemble.get_aggregated_score(name1, name2);

    assert_eq!(fp(score), 1.0);
}
