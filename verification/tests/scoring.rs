use rake::ordered::OrderedMap;
use rake::phrase_scores::{calculate_keyphrase_scores, score_phrase, PhraseScores};
use rake::score::UNIT;
use rake::text::total_length;
use rake::word_scores::{calculate_word_scores, checked_word_scores, WordScores};
use rake::{Score, WordStats};

fn strings(items: &[&str]) -> Vec<String> {
    items.iter().map(|s| s.to_string()).collect()
}

fn number(score: Score) -> f64 {
    score.whole as f64 + score.fraction as f64 / 18446744073709551616.0
}

#[test]
fn one_whole_is_two_to_the_64() {
    assert_eq!(UNIT, 1u128 << 64);
}

#[test]
fn ratios() {
    assert_eq!(Score::ratio(6, 3), Score { whole: 2, fraction: 0 });
    assert_eq!(Score::ratio(1, 2), Score { whole: 0, fraction: 1 << 63 });
    assert_eq!(Score::ratio(7, 2), Score { whole: 3, fraction: 1 << 63 });
    assert_eq!(Score::ratio(1, 3), Score { whole: 0, fraction: 0x5555_5555_5555_5555 });
    assert_eq!(Score::ratio(0, 5), Score::zero());
    assert_eq!(Score::ratio(u128::MAX, 1), Score { whole: u128::MAX, fraction: 0 });
    assert_eq!(
        Score::ratio(u128::MAX, u64::MAX),
        Score { whole: (1u128 << 64) + 1, fraction: 0 }
    );
    assert_eq!(Score::ratio(u64::MAX as u128 - 1, u64::MAX).whole, 0);
    assert_eq!(Score::ratio(u64::MAX as u128 - 1, u64::MAX).fraction, u64::MAX - 1);
}

#[test]
fn sums_carry_into_the_whole() {
    let half = Score { whole: 0, fraction: 1 << 63 };
    assert_eq!(half.plus(half), Score { whole: 1, fraction: 0 });
    let third = Score::ratio(1, 3);
    assert_eq!(
        third.plus(third).plus(third),
        Score { whole: 0, fraction: u64::MAX }
    );
    let a = Score { whole: 3, fraction: u64::MAX };
    let b = Score { whole: 4, fraction: 2 };
    assert_eq!(a.plus(b), Score { whole: 8, fraction: 1 });
    assert_eq!(a.plus(Score::zero()), a);
}

#[test]
fn scores_compare_by_value() {
    let low = Score { whole: 1, fraction: u64::MAX };
    let high = Score { whole: 2, fraction: 0 };
    assert!(low.less_than(&high));
    assert!(!high.less_than(&low));
    assert!(!low.less_than(&low));
    assert!(Score { whole: 2, fraction: 1 }.less_than(&Score { whole: 2, fraction: 2 }));
    assert!(low < high);
}

#[test]
fn word_score_is_degree_by_frequency() {
    let stats = WordStats { frequency: 4, degree: 10 };
    assert_eq!(number(stats.score()), 2.5);
    assert_eq!(stats.score(), Score::ratio(10, 4));
}

#[test]
fn frequencies_and_degrees() {
    let phrases = strings(&["deep learning", "learning", "deep neural network", "learning"]);
    let scores = calculate_word_scores(&phrases);
    assert_eq!(scores.len(), 4);
    assert_eq!(scores.word(0), "deep");
    assert_eq!(scores.word(1), "learning");
    assert_eq!(scores.word(2), "neural");
    assert_eq!(scores.word(3), "network");
    assert_eq!(scores.get("deep"), Some(WordStats { frequency: 2, degree: 5 }));
    assert_eq!(scores.get("learning"), Some(WordStats { frequency: 3, degree: 4 }));
    assert_eq!(scores.get("neural"), Some(WordStats { frequency: 1, degree: 3 }));
    assert_eq!(scores.get("network"), Some(WordStats { frequency: 1, degree: 3 }));
    assert_eq!(scores.get("shallow"), None);
    assert_eq!(number(scores.score("deep").unwrap()), 2.5);
    assert_eq!(scores.score("learning").unwrap(), Score::ratio(4, 3));
    assert_eq!(number(scores.score("neural").unwrap()), 3.0);
}

#[test]
fn a_word_twice_in_one_phrase_counts_twice() {
    let scores = calculate_word_scores(&strings(&["very very good"]));
    assert_eq!(scores.get("very"), Some(WordStats { frequency: 2, degree: 6 }));
    assert_eq!(scores.get("good"), Some(WordStats { frequency: 1, degree: 3 }));
    assert_eq!(number(scores.score("very").unwrap()), 3.0);
}

#[test]
fn a_word_of_single_word_phrases_scores_one() {
    let scores = calculate_word_scores(&strings(&["apple", "pear", "apple", "apple", "red pear"]));
    assert_eq!(scores.get("apple"), Some(WordStats { frequency: 3, degree: 3 }));
    assert_eq!(scores.score("apple"), Some(Score { whole: 1, fraction: 0 }));
    assert_eq!(number(scores.score("apple").unwrap()), 1.0);
    assert_eq!(number(scores.score("pear").unwrap()), 1.5);
}

#[test]
fn phrases_that_fit_are_scored() {
    let phrases = strings(&["déjà vu", "vu"]);
    assert_eq!(total_length(&phrases), Some(9));
    assert_eq!(total_length(&Vec::new()), Some(0));
    let scores = checked_word_scores(&phrases).unwrap();
    assert_eq!(scores.len(), 2);
    assert_eq!(scores.get("vu"), Some(WordStats { frequency: 2, degree: 3 }));
    assert_eq!(scores.get("déjà"), calculate_word_scores(&phrases).get("déjà"));
}

#[test]
fn no_phrases_no_words() {
    let scores = calculate_word_scores(&Vec::new());
    assert_eq!(scores.len(), 0);
    assert_eq!(scores.get("any"), None);
    assert_eq!(WordScores::new().len(), 0);
    assert_eq!(calculate_word_scores(&strings(&["", "  "])).len(), 0);
}

#[test]
fn phrase_score_is_the_sum_over_its_words() {
    let phrases = strings(&["deep learning", "learning", "deep neural network", "learning"]);
    let words = calculate_word_scores(&phrases);
    let scores = calculate_keyphrase_scores(&phrases, &words);
    assert_eq!(scores.len(), 3);
    assert_eq!(scores.phrase(0), "deep learning");
    assert_eq!(scores.phrase(1), "learning");
    assert_eq!(scores.phrase(2), "deep neural network");
    assert_eq!(scores.keys(), strings(&["deep learning", "learning", "deep neural network"]));
    let expected = Score::ratio(5, 2).plus(Score::ratio(4, 3));
    assert_eq!(scores.get("deep learning"), Some(expected));
    assert_eq!(scores.score_at(0), expected);
    assert_eq!(scores.get("learning"), Some(Score::ratio(4, 3)));
    assert_eq!(number(scores.get("deep neural network").unwrap()), 8.5);
    assert_eq!(scores.get("neural"), None);
}

#[test]
fn a_word_without_a_score_adds_nothing() {
    let words = calculate_word_scores(&strings(&["green tea"]));
    assert_eq!(number(score_phrase("green tea", &words)), 4.0);
    assert_eq!(number(score_phrase("green coffee", &words)), 2.0);
    assert_eq!(score_phrase("black coffee", &words), Score::zero());
    assert_eq!(score_phrase("", &words), Score::zero());
    assert_eq!(number(score_phrase("tea tea", &words)), 4.0);
    let scores = calculate_keyphrase_scores(&strings(&["iced tea"]), &words);
    assert_eq!(number(scores.get("iced tea").unwrap()), 2.0);
}

#[test]
fn a_repeated_phrase_is_scored_once() {
    let phrases = strings(&["red apple", "sweet", "red apple"]);
    let words = calculate_word_scores(&phrases);
    let scores = calculate_keyphrase_scores(&phrases, &words);
    assert_eq!(scores.len(), 2);
    assert_eq!(number(scores.get("red apple").unwrap()), 4.0);
    assert_eq!(number(scores.get("sweet").unwrap()), 1.0);
    assert_eq!(PhraseScores::new().len(), 0);
}

#[test]
fn ordered_map_keeps_insertion_order() {
    let mut map: OrderedMap<u32> = OrderedMap::new();
    assert_eq!(map.len(), 0);
    assert_eq!(map.position("b"), None);
    map.push("b".to_string(), 2);
    map.push("a".to_string(), 1);
    assert_eq!(map.len(), 2);
    assert_eq!(map.position("b"), Some(0));
    assert_eq!(map.position("a"), Some(1));
    assert_eq!(map.position("c"), None);
    assert_eq!(map.key(0), "b");
    assert_eq!(*map.value(1), 1);
    map.set(0, 7);
    assert_eq!(*map.value(0), 7);
    assert_eq!(map.key(0), "b");
}
